//! The group-by hash table.
//!
//! The index maps a group's key to its number; accumulators live in lists
//! ordered by that number. Per batch, the rows of each group are gathered and
//! folded in at once, one aggregate after the other.

use std::sync::Arc;
use vstd::prelude::*;
use vstd::utf8::encode_utf8;

use crate::array::{ArrayRef, ArrayView};
use crate::batch::array_views;
use crate::compute::{indices_below, take, take_array};
use crate::error::{BasaltError, ErrorKind};
use crate::physical_plan::aggregate::accumulator::{
    accumulate, aggregate_output, fresh, Accumulator, AccumulatorFactory, AccumulatorView,
};
use crate::physical_plan::aggregate::group_keys::{
    column_rows, decode_inverts_encode, decode_row, encode_cell, encode_row, encode_rows, keys_fit,
    keys_identify_rows, lemma_encode_rows_prefix, row_fits, row_of, GroupKeyEncoder,
};
use crate::physical_plan::aggregate::key_index::{keys_distinct, KeyIndex};
use crate::scalar::ScalarValue;
use crate::types::data_type::DataType;
use crate::types::value::ValueView;

verus! {

/// The model of the table: the distinct group rows in the order they were
/// first seen, and per aggregate the state of each group.
pub struct GroupsView {
    pub types: Seq<DataType>,
    pub factories: Seq<AccumulatorFactory>,
    pub groups: Seq<Seq<ValueView>>,
    pub states: Seq<Seq<AccumulatorView>>,
}

/// Whether columns can be encoded as keys.
pub open spec fn encodable(types: Seq<DataType>, columns: Seq<ArrayView>) -> bool {
    keys_fit(types, columns) && encode_rows(columns, column_rows(columns)).len() <= u32::MAX
}

/// The first `n` rows of columns.
pub open spec fn key_rows(columns: Seq<ArrayView>, n: nat) -> Seq<Seq<ValueView>> {
    Seq::new(n, |i: int| row_of(columns, i))
}

/// The groups after seeing more rows: a row not seen before is a new group.
pub open spec fn add_groups(groups: Seq<Seq<ValueView>>, rows: Seq<Seq<ValueView>>) -> Seq<
    Seq<ValueView>,
>
    decreases rows.len(),
{
    if rows.len() == 0 {
        groups
    } else {
        let before = add_groups(groups, rows.drop_last());
        if before.contains(rows.last()) {
            before
        } else {
            before.push(rows.last())
        }
    }
}

/// The positions of the rows that belong to a group, in order.
pub open spec fn rows_of_group(rows: Seq<Seq<ValueView>>, group: Seq<ValueView>) -> Seq<
    Option<usize>,
>
    decreases rows.len(),
{
    if rows.len() == 0 {
        seq![]
    } else {
        let before = rows_of_group(rows.drop_last(), group);
        if rows.last() == group {
            before.push(Some((rows.len() - 1) as usize))
        } else {
            before
        }
    }
}

/// A group's state after a batch.
pub open spec fn fold_group(
    s: AccumulatorView,
    a: ArrayView,
    rows: Seq<Seq<ValueView>>,
    group: Seq<ValueView>,
) -> Result<AccumulatorView, ErrorKind> {
    let mine = rows_of_group(rows, group);
    if mine.len() == 0 {
        Ok(s)
    } else {
        accumulate(s, take_array(a, mine))
    }
}

/// The states of the first `n` groups after a batch, or the first error.
pub open spec fn fold_groups(
    states: Seq<AccumulatorView>,
    a: ArrayView,
    rows: Seq<Seq<ValueView>>,
    groups: Seq<Seq<ValueView>>,
    n: nat,
) -> Result<Seq<AccumulatorView>, ErrorKind>
    decreases n,
{
    if n == 0 {
        Ok(seq![])
    } else {
        match fold_groups(states, a, rows, groups, (n - 1) as nat) {
            Err(k) => Err(k),
            Ok(done) => match fold_group(states[n - 1], a, rows, groups[n - 1]) {
                Err(k) => Err(k),
                Ok(s) => Ok(done.push(s)),
            },
        }
    }
}

/// The states of the first `n` aggregates after a batch, or the first error.
/// An aggregate without a column keeps its states.
pub open spec fn fold_aggregates(
    states: Seq<Seq<AccumulatorView>>,
    columns: Seq<ArrayView>,
    rows: Seq<Seq<ValueView>>,
    groups: Seq<Seq<ValueView>>,
    n: nat,
) -> Result<Seq<Seq<AccumulatorView>>, ErrorKind>
    decreases n,
{
    if n == 0 {
        Ok(seq![])
    } else {
        match fold_aggregates(states, columns, rows, groups, (n - 1) as nat) {
            Err(k) => Err(k),
            Ok(done) => if n > columns.len() {
                Ok(done.push(states[n - 1]))
            } else {
                match fold_groups(states[n - 1], columns[n - 1], rows, groups, groups.len()) {
                    Err(k) => Err(k),
                    Ok(s) => Ok(done.push(s)),
                }
            },
        }
    }
}

/// States extended by fresh ones for new groups.
pub open spec fn widen_states(
    states: Seq<Seq<AccumulatorView>>,
    factories: Seq<AccumulatorFactory>,
    n: nat,
) -> Seq<Seq<AccumulatorView>> {
    Seq::new(
        states.len(),
        |a: int|
            Seq::new(
                n,
                |g: int|
                    if g < states[a].len() {
                        states[a][g]
                    } else {
                        fresh(factories[a])
                    },
            ),
    )
}

/// The table after a batch, or the error.
pub open spec fn fold_batch(t: GroupsView, keys: Seq<ArrayView>, columns: Seq<ArrayView>) -> Result<
    GroupsView,
    ErrorKind,
> {
    if !encodable(t.types, keys) {
        Err(ErrorKind::Internal)
    } else {
        let rows = key_rows(keys, column_rows(keys));
        let groups = add_groups(t.groups, rows);
        let states = widen_states(t.states, t.factories, groups.len());
        match fold_aggregates(states, columns, rows, groups, states.len()) {
            Err(k) => Err(k),
            Ok(s) => Ok(
                GroupsView { types: t.types, factories: t.factories, groups, states: s },
            ),
        }
    }
}

/// The outputs of the first `n` groups of an aggregate, or the first error.
pub open spec fn outputs(states: Seq<AccumulatorView>, n: nat) -> Result<
    Seq<(DataType, ValueView)>,
    ErrorKind,
>
    decreases n,
{
    if n == 0 {
        Ok(seq![])
    } else {
        match outputs(states, (n - 1) as nat) {
            Err(k) => Err(k),
            Ok(done) => match aggregate_output(states[n - 1]) {
                Err(k) => Err(k),
                Ok(v) => Ok(done.push(v)),
            },
        }
    }
}

/// The outputs of the first `n` aggregates, or the first error.
pub open spec fn all_outputs(states: Seq<Seq<AccumulatorView>>, n: nat) -> Result<
    Seq<Seq<(DataType, ValueView)>>,
    ErrorKind,
>
    decreases n,
{
    if n == 0 {
        Ok(seq![])
    } else {
        match all_outputs(states, (n - 1) as nat) {
            Err(k) => Err(k),
            Ok(done) => match outputs(states[n - 1], states[n - 1].len()) {
                Err(k) => Err(k),
                Ok(v) => Ok(done.push(v)),
            },
        }
    }
}

/// The types and values of a list of scalars.
pub open spec fn typed(v: Seq<ScalarValue>) -> Seq<(DataType, ValueView)> {
    Seq::new(v.len(), |i: int| (v[i].spec_data_type(), v[i]@))
}

// ---------------------------------------------------------------------------
// Facts

/// The rows of encodable columns fit the key types.
pub proof fn lemma_rows_fit(types: Seq<DataType>, columns: Seq<ArrayView>, i: int)
    requires
        encodable(types, columns),
        0 <= i < column_rows(columns),
        forall|c: int| 0 <= c < columns.len() ==> (#[trigger] columns[c]).wf(),
    ensures
        row_fits(row_of(columns, i), types),
        encode_row(row_of(columns, i)).len() <= u32::MAX,
{
    let row = row_of(columns, i);
    lemma_encode_rows_prefix(columns, (i + 1) as nat, column_rows(columns));
    assert(encode_rows(columns, (i + 1) as nat).len() == encode_rows(columns, i as nat).len()
        + encode_row(row).len());
    assert forall|c: int| 0 <= c < row.len() implies (#[trigger] row[c]).fits(types[c]) && (
    row[c] matches ValueView::Utf8(s) ==> encode_utf8(s).len() <= u32::MAX) by {
        assert(columns[c].wf());
        assert(columns[c].values[i].fits(columns[c].data_type));
        lemma_cell_in_row(row, c);
    }
}

proof fn lemma_cell_in_row(row: Seq<ValueView>, c: int)
    requires
        0 <= c < row.len(),
    ensures
        encode_cell(row[c]).len() <= encode_row(row).len(),
    decreases row.len(),
{
    if c < row.len() - 1 {
        lemma_cell_in_row(row.drop_last(), c);
    }
}

/// A group's rows lie within the batch, and every position names one of them.
pub proof fn lemma_rows_of_group(rows: Seq<Seq<ValueView>>, group: Seq<ValueView>)
    requires
        rows.len() <= usize::MAX,
    ensures
        indices_below(rows_of_group(rows, group), rows.len()),
        rows_of_group(rows, group).len() <= rows.len(),
    decreases rows.len(),
{
    if rows.len() > 0 {
        lemma_rows_of_group(rows.drop_last(), group);
        let before = rows_of_group(rows.drop_last(), group);
        let now = rows_of_group(rows, group);
        assert forall|i: int| 0 <= i < now.len() implies ((#[trigger] now[i]) matches Some(k)
            ==> k < rows.len()) by {
            if i < before.len() {
                assert(now[i] == before[i]);
            }
        }
    }
}

/// Groups only grow, stay distinct, and hold every row seen.
pub proof fn lemma_add_groups(groups: Seq<Seq<ValueView>>, rows: Seq<Seq<ValueView>>)
    requires
        groups.no_duplicates(),
    ensures
        add_groups(groups, rows).no_duplicates(),
        groups.len() <= add_groups(groups, rows).len() <= groups.len() + rows.len(),
        forall|g: int| 0 <= g < groups.len() ==> add_groups(groups, rows)[g] == groups[g],
        forall|i: int| 0 <= i < rows.len() ==> add_groups(groups, rows).contains(#[trigger] rows[i]),
    decreases rows.len(),
{
    if rows.len() > 0 {
        let before = add_groups(groups, rows.drop_last());
        let now = add_groups(groups, rows);
        lemma_add_groups(groups, rows.drop_last());
        assert forall|i: int| 0 <= i < rows.len() implies now.contains(#[trigger] rows[i]) by {
            if i < rows.len() - 1 {
                assert(before.contains(rows.drop_last()[i]));
                let g = choose|g: int| 0 <= g < before.len() && before[g] == rows[i];
                assert(now[g] == rows[i]);
            } else if !before.contains(rows.last()) {
                assert(now[before.len() as int] == rows[i]);
            }
        }
    }
}

proof fn lemma_fold_groups_error(
    states: Seq<AccumulatorView>,
    a: ArrayView,
    rows: Seq<Seq<ValueView>>,
    groups: Seq<Seq<ValueView>>,
    m: nat,
    n: nat,
)
    requires
        m <= n,
        fold_groups(states, a, rows, groups, m) is Err,
    ensures
        fold_groups(states, a, rows, groups, n) == fold_groups(states, a, rows, groups, m),
    decreases n - m,
{
    if m < n {
        lemma_fold_groups_error(states, a, rows, groups, m, (n - 1) as nat);
    }
}

proof fn lemma_fold_aggregates_error(
    states: Seq<Seq<AccumulatorView>>,
    columns: Seq<ArrayView>,
    rows: Seq<Seq<ValueView>>,
    groups: Seq<Seq<ValueView>>,
    m: nat,
    n: nat,
)
    requires
        m <= n,
        fold_aggregates(states, columns, rows, groups, m) is Err,
    ensures
        fold_aggregates(states, columns, rows, groups, n) == fold_aggregates(
            states,
            columns,
            rows,
            groups,
            m,
        ),
    decreases n - m,
{
    if m < n {
        lemma_fold_aggregates_error(states, columns, rows, groups, m, (n - 1) as nat);
    }
}

proof fn lemma_outputs_error(states: Seq<AccumulatorView>, m: nat, n: nat)
    requires
        m <= n,
        outputs(states, m) is Err,
    ensures
        outputs(states, n) == outputs(states, m),
    decreases n - m,
{
    if m < n {
        lemma_outputs_error(states, m, (n - 1) as nat);
    }
}

proof fn lemma_all_outputs_error(states: Seq<Seq<AccumulatorView>>, m: nat, n: nat)
    requires
        m <= n,
        all_outputs(states, m) is Err,
    ensures
        all_outputs(states, n) == all_outputs(states, m),
    decreases n - m,
{
    if m < n {
        lemma_all_outputs_error(states, m, (n - 1) as nat);
    }
}

// ---------------------------------------------------------------------------

pub struct GroupedHashAggregator {
    types: Vec<DataType>,
    key_encoder: GroupKeyEncoder,
    index: KeyIndex,
    /// Per aggregate, per group.
    accumulators: Vec<Vec<Accumulator>>,
    factories: Vec<AccumulatorFactory>,
}

/// The states of accumulators.
pub open spec fn state_views(v: Seq<Accumulator>) -> Seq<AccumulatorView> {
    Seq::new(v.len(), |i: int| v[i]@)
}

impl GroupedHashAggregator {
    pub closed spec fn view(&self) -> GroupsView {
        GroupsView {
            types: self.types@,
            factories: self.factories@,
            groups: Seq::new(
                self.index@.len(),
                |g: int| decode_row(self.index@[g], self.types@)->0,
            ),
            states: Seq::new(
                self.accumulators@.len(),
                |a: int| state_views(self.accumulators@[a]@),
            ),
        }
    }

    /// Every key is that of its group, and every aggregate has one state per
    /// group.
    pub closed spec fn wf(&self) -> bool {
        &&& self.index.wf()
        &&& keys_distinct(self.index@)
        &&& self.key_encoder@ == self.types@
        &&& self.accumulators@.len() == self.factories@.len()
        &&& forall|a: int|
            0 <= a < self.accumulators@.len() ==> (#[trigger] self.accumulators@[a])@.len()
                == self.index@.len()
        &&& forall|g: int|
            0 <= g < self.index@.len() ==> {
                &&& row_fits(#[trigger] self@.groups[g], self.types@)
                &&& self.index@[g] == encode_row(self@.groups[g])
            }
    }

    pub fn new(group_types: Vec<DataType>, factories: Vec<AccumulatorFactory>) -> (r:
        GroupedHashAggregator)
        ensures
            r.wf(),
            r@.types == group_types@,
            r@.factories == factories@,
            r@.groups == Seq::<Seq<ValueView>>::empty(),
            r@.states == Seq::new(factories@.len(), |a: int| Seq::<AccumulatorView>::empty()),
    {
        let mut accumulators: Vec<Vec<Accumulator>> = Vec::new();
        let mut types: Vec<DataType> = Vec::new();
        let mut i: usize = 0;
        while i < group_types.len()
            invariant
                i <= group_types@.len(),
                types@ == group_types@.take(i as int),
            decreases group_types@.len() - i,
        {
            types.push(group_types[i]);
            assert(group_types@.take(i + 1) =~= group_types@.take(i as int).push(
                group_types@[i as int],
            ));
            i = i + 1;
        }
        assert(types@ =~= group_types@);
        let mut a: usize = 0;
        while a < factories.len()
            invariant
                a <= factories@.len(),
                accumulators@.len() == a,
                forall|k: int| 0 <= k < a ==> (#[trigger] accumulators@[k])@.len() == 0,
            decreases factories@.len() - a,
        {
            accumulators.push(Vec::new());
            a = a + 1;
        }
        let r = GroupedHashAggregator {
            types,
            key_encoder: GroupKeyEncoder::new(group_types),
            index: KeyIndex::new(0),
            accumulators,
            factories,
        };
        proof {
            assert(r@.groups =~= Seq::<Seq<ValueView>>::empty());
            assert forall|k: int| 0 <= k < r@.states.len() implies r@.states[k] == Seq::<
                AccumulatorView,
            >::empty() by {
                assert(accumulators@[k]@.len() == 0);
                assert(r@.states[k] =~= Seq::<AccumulatorView>::empty());
            }
            assert(r@.states =~= Seq::new(
                factories@.len(),
                |a: int| Seq::<AccumulatorView>::empty(),
            ));
        }
        r
    }

    pub fn num_groups(&self) -> (r: usize)
        ensures
            r == self@.groups.len(),
    {
        self.index.len()
    }

    /// The number of the group that a key names, adding it when it is new.
    fn group_of(&mut self, key: &[u8], Ghost(row): Ghost<Seq<ValueView>>) -> (g: usize)
        requires
            old(self).wf(),
            row_fits(row, old(self)@.types),
            key@ == encode_row(row),
        ensures
            final(self).wf(),
            final(self)@.types == old(self)@.types,
            final(self)@.factories == old(self)@.factories,
            final(self)@.groups == (if old(self)@.groups.contains(row) {
                old(self)@.groups
            } else {
                old(self)@.groups.push(row)
            }),
            final(self)@.states == widen_states(
                old(self)@.states,
                old(self)@.factories,
                final(self)@.groups.len(),
            ),
            g < final(self)@.groups.len(),
            final(self)@.groups[g as int] == row,
    {
        let ghost before = *self;
        proof {
            decode_inverts_encode(row, self.types@);
            assert forall|g: int| 0 <= g < self.index@.len() implies (self.index@[g] == key@)
                == (#[trigger] self@.groups[g] == row) by {
                keys_identify_rows(self@.groups[g], row, self.types@);
            }
        }
        match self.index.find(key) {
            Some(g) => {
                proof {
                    assert(self@.groups[g as int] == row);
                    let w = widen_states(self@.states, self@.factories, self@.groups.len());
                    assert forall|a: int| 0 <= a < w.len() implies #[trigger] w[a]
                        == self@.states[a] by {
                        assert(self.accumulators@[a]@.len() == self.index@.len());
                        assert(w[a] =~= self@.states[a]);
                    }
                    assert(w =~= self@.states);
                }
                g
            },
            None => {
                let g: usize = self.index.len();
                let mut owned: Vec<u8> = Vec::new();
                let n: usize = key.len();
                let mut i: usize = 0;
                while i < n
                    invariant
                        i <= n,
                        n == key@.len(),
                        owned@ == key@.take(i as int),
                    decreases n - i,
                {
                    owned.push(key[i]);
                    assert(key@.take(i + 1) =~= key@.take(i as int).push(key@[i as int]));
                    i = i + 1;
                }
                assert(owned@ =~= key@);
                proof {
                    if self@.groups.contains(row) {
                        let g = choose|g: int|
                            0 <= g < self@.groups.len() && self@.groups[g] == row;
                        assert(self.index@[g] == key@);
                    }
                }
                self.index.insert(owned);
                let ghost grown = *self;
                let mut a: usize = 0;
                while a < self.factories.len()
                    invariant
                        a <= self.factories@.len(),
                        self.index == grown.index,
                        self.types == before.types,
                        self.key_encoder == before.key_encoder,
                        self.factories == before.factories,
                        before.wf(),
                        self.accumulators@.len() == self.factories@.len(),
                        forall|k: int|
                            0 <= k < a ==> state_views(#[trigger] self.accumulators@[k]@)
                                == state_views(before.accumulators@[k]@).push(
                                fresh(self.factories@[k]),
                            ),
                        forall|k: int|
                            a <= k < self.accumulators@.len() ==> (#[trigger] self.accumulators@[k])
                                == before.accumulators@[k],
                    decreases self.factories@.len() - a,
                {
                    let mut list: Vec<Accumulator> = Vec::new();
                    let ghost here = self.accumulators@;
                    std::mem::swap(&mut list, &mut self.accumulators[a]);
                    let acc = self.factories[a].make();
                    let ghost old_list = list@;
                    list.push(acc);
                    assert(state_views(list@) =~= state_views(old_list).push(
                        fresh(self.factories@[a as int]),
                    ));
                    self.accumulators.set(a, list);
                    a = a + 1;
                }
                proof {
                    assert(self.index@ == before.index@.push(key@));
                    assert(self@.groups =~= before@.groups.push(row));
                    assert forall|k: int| 0 <= k < self.accumulators@.len() implies (
                    #[trigger] self.accumulators@[k])@.len() == self.index@.len() by {
                        assert(state_views(self.accumulators@[k]@).len()
                            == self.accumulators@[k]@.len());
                        assert(before.accumulators@[k]@.len() == before.index@.len());
                    }
                    assert forall|k: int| 0 <= k < self.index@.len() implies {
                        &&& row_fits(#[trigger] self@.groups[k], self.types@)
                        &&& self.index@[k] == encode_row(self@.groups[k])
                    } by {
                        if k < before.index@.len() {
                            assert(self@.groups[k] == before@.groups[k]);
                        }
                    }
                    let w = widen_states(before@.states, before@.factories, self@.groups.len());
                    assert forall|k: int| 0 <= k < w.len() implies #[trigger] w[k]
                        == self@.states[k] by {
                        assert(before.accumulators@[k]@.len() == before.index@.len());
                        assert(self@.states[k] == state_views(self.accumulators@[k]@));
                        assert(w[k] =~= self@.states[k]);
                    }
                    assert(w =~= self@.states);
                }
                g
            },
        }
    }

    /// Folds a batch in: `group_arrays` name each row's group, `agg_arrays`
    /// hold each aggregate's argument.
    ///
    /// # Errors
    /// An internal error when the group arrays cannot be encoded, else the
    /// first error of an accumulator, aggregate by aggregate and group by
    /// group. An internal error leaves the table as it was; after another it is
    /// not to be used.
    pub fn update_batch(&mut self, group_arrays: &Vec<ArrayRef>, agg_arrays: &Vec<ArrayRef>) -> (r:
        Result<(), BasaltError>)
        requires
            old(self).wf(),
            forall|a: int|
                0 <= a < agg_arrays@.len() ==> column_rows(array_views(group_arrays@)) <= (
                #[trigger] agg_arrays@[a])@.values.len(),
        ensures
            match r {
                Ok(_) => final(self).wf() && fold_batch(
                    old(self)@,
                    array_views(group_arrays@),
                    array_views(agg_arrays@),
                ) == Ok::<GroupsView, ErrorKind>(final(self)@),
                Err(e) => fold_batch(
                    old(self)@,
                    array_views(group_arrays@),
                    array_views(agg_arrays@),
                ) == Err::<GroupsView, ErrorKind>(e@) && (!encodable(
                    old(self)@.types,
                    array_views(group_arrays@),
                ) ==> final(self).wf() && final(self)@ == old(self)@),
            },
    {
        let ghost before = *self;
        let ghost keys = array_views(group_arrays@);
        let ghost columns = array_views(agg_arrays@);
        let num_rows: usize = if group_arrays.len() == 0 {
            0
        } else {
            group_arrays[0].len()
        };
        let mut encoded: Vec<u8> = Vec::new();
        let mut offsets: Vec<u32> = Vec::new();
        match self.key_encoder.encode(group_arrays, &mut encoded, &mut offsets) {
            Ok(_) => {},
            Err(e) => {
                return Err(e);
            },
        }
        let ghost rows = key_rows(keys, num_rows as nat);
        proof {
            assert(encoded@ =~= encode_rows(keys, num_rows as nat));
            assert forall|c: int| 0 <= c < keys.len() implies (#[trigger] keys[c]).wf() by {
                group_arrays@[c].lemma_wf();
            }
            assert(rows.take(0) =~= seq![]);
            let w = widen_states(before@.states, before@.factories, before@.groups.len());
            assert forall|a: int| 0 <= a < w.len() implies #[trigger] w[a] == before@.states[a] by {
                assert(before.accumulators@[a]@.len() == before.index@.len());
                assert(w[a] =~= before@.states[a]);
            }
            assert(w =~= before@.states);
            lemma_groups_distinct(before);
        }
        let mut members: Vec<Vec<Option<usize>>> = Vec::new();
        let total: usize = self.index.len();
        let mut g: usize = 0;
        while g < total
            invariant
                g <= total,
                members@.len() == g,
                forall|k: int| 0 <= k < g ==> (#[trigger] members@[k])@.len() == 0,
            decreases total - g,
        {
            members.push(Vec::new());
            g = g + 1;
        }
        proof {
            assert forall|k: int| 0 <= k < members@.len() implies (#[trigger] members@[k])@
                == rows_of_group(rows.take(0), self@.groups[k]) by {
                assert(members@[k]@ =~= seq![]);
            }
        }
        let mut row: usize = 0;
        while row < num_rows
            invariant
                row <= num_rows,
                self.wf(),
                before.wf(),
                before@.groups.no_duplicates(),
                num_rows == column_rows(keys),
                keys == array_views(group_arrays@),
                encodable(before@.types, keys),
                forall|c: int| 0 <= c < keys.len() ==> (#[trigger] keys[c]).wf(),
                encoded@ == encode_rows(keys, num_rows as nat),
                encoded@.len() <= u32::MAX,
                offsets@ == Seq::new(
                    (num_rows + 1) as nat,
                    |k: int| encode_rows(keys, k as nat).len() as u32,
                ),
                rows == key_rows(keys, num_rows as nat),
                self@.types == before@.types,
                self@.factories == before@.factories,
                self@.groups == add_groups(before@.groups, rows.take(row as int)),
                self@.states == widen_states(
                    before@.states,
                    before@.factories,
                    self@.groups.len(),
                ),
                members@.len() == self@.groups.len(),
                forall|k: int|
                    0 <= k < members@.len() ==> (#[trigger] members@[k])@ == rows_of_group(
                        rows.take(row as int),
                        self@.groups[k],
                    ),
            decreases num_rows - row,
        {
            let ghost this = row_of(keys, row as int);
            let ghost groups0 = self@.groups;
            proof {
                lemma_rows_fit(self.types@, keys, row as int);
                lemma_encode_rows_prefix(keys, row as nat, num_rows as nat);
                lemma_encode_rows_prefix(keys, (row + 1) as nat, num_rows as nat);
                assert(rows[row as int] == this);
                assert(rows.take(row + 1).drop_last() =~= rows.take(row as int));
                assert(rows.take(row + 1).last() == this);
                lemma_add_groups(before@.groups, rows.take(row as int));
                lemma_add_groups(before@.groups, rows.take(row + 1));
            }
            let start: usize = offsets[row] as usize;
            let end: usize = offsets[row + 1] as usize;
            let key = vstd::slice::slice_subrange(encoded.as_slice(), start, end);
            proof {
                let upto = encode_rows(keys, (row + 1) as nat);
                assert(encoded@.take(end as int) == upto);
                assert(key@ =~= upto.skip(start as int));
                assert(upto =~= encode_rows(keys, row as nat) + encode_row(this));
                assert(key@ =~= encode_row(this));
            }
            let group: usize = self.group_of(key, Ghost(this));
            proof {
                lemma_widen_twice(
                    before@.states,
                    before@.factories,
                    groups0.len(),
                    self@.groups.len(),
                );
                assert forall|k: int|
                    0 <= k < groups0.len() && k != group implies rows_of_group(
                    rows.take(row + 1),
                    self@.groups[k],
                ) == rows_of_group(rows.take(row as int), #[trigger] groups0[k]) by {
                    assert(self@.groups[k] == groups0[k]);
                    assert(self@.groups[k] != self@.groups[group as int]);
                }
            }
            if group == members.len() {
                let mut list: Vec<Option<usize>> = Vec::new();
                list.push(Some(row));
                proof {
                    lemma_absent_group(rows.take(row as int), this, before@.groups);
                    assert(list@ =~= rows_of_group(rows.take(row + 1), this));
                }
                members.push(list);
            } else {
                let mut list: Vec<Option<usize>> = Vec::new();
                let ghost was = members@[group as int]@;
                std::mem::swap(&mut list, &mut members[group]);
                list.push(Some(row));
                proof {
                    assert(groups0.contains(this)) by {
                        if !groups0.contains(this) {
                            assert(self@.groups == groups0.push(this));
                            assert(self@.groups[groups0.len() as int] == this);
                            assert(self@.groups[group as int] == this);
                        }
                    }
                    assert(list@ =~= rows_of_group(rows.take(row + 1), this));
                }
                members.set(group, list);
            }
            row = row + 1;
        }
        assert(rows.take(num_rows as int) =~= rows);
        let ghost mid = *self;
        let ghost groups = mid@.groups;
        assert(self@.states.take(0) =~= seq![]);
        let mut a: usize = 0;
        while a < self.accumulators.len()
            invariant
                a <= self.accumulators@.len(),
                self.index == mid.index,
                self.types == mid.types,
                self.key_encoder == mid.key_encoder,
                self.factories == mid.factories,
                mid.wf(),
                groups == mid@.groups,
                num_rows == rows.len(),
                columns == array_views(agg_arrays@),
                forall|k: int|
                    0 <= k < agg_arrays@.len() ==> num_rows <= (
                    #[trigger] agg_arrays@[k])@.values.len(),
                self.accumulators@.len() == mid.accumulators@.len(),
                members@.len() == groups.len(),
                forall|k: int|
                    0 <= k < members@.len() ==> (#[trigger] members@[k])@ == rows_of_group(
                        rows,
                        groups[k],
                    ),
                fold_aggregates(mid@.states, columns, rows, groups, a as nat) == Ok::<
                    Seq<Seq<AccumulatorView>>,
                    ErrorKind,
                >(self@.states.take(a as int)),
                forall|k: int|
                    0 <= k < a ==> (#[trigger] self.accumulators@[k])@.len() == groups.len(),
                forall|k: int|
                    a <= k < self.accumulators@.len() ==> (#[trigger] self.accumulators@[k])
                        == mid.accumulators@[k],
                mid@ == (GroupsView {
                    types: before@.types,
                    factories: before@.factories,
                    groups,
                    states: mid@.states,
                }),
                fold_batch(before@, keys, columns) == (match fold_aggregates(
                    mid@.states,
                    columns,
                    rows,
                    groups,
                    mid@.states.len(),
                ) {
                    Err(k) => Err(k),
                    Ok(s) => Ok(
                        GroupsView {
                            types: before@.types,
                            factories: before@.factories,
                            groups,
                            states: s,
                        },
                    ),
                }),
                before == *old(self),
                keys == array_views(group_arrays@),
                encodable(before@.types, keys),
            decreases self.accumulators@.len() - a,
        {
            assert(mid.accumulators@[a as int]@.len() == mid.index@.len());
            let ghost done = self@.states.take(a as int);
            if a < agg_arrays.len() {
                let mut list: Vec<Accumulator> = Vec::new();
                std::mem::swap(&mut list, &mut self.accumulators[a]);
                assert(columns[a as int] == agg_arrays@[a as int]@);
                assert(mid@.states[a as int] == state_views(list@));
                match fold_list(&mut list, &agg_arrays[a], &members, Ghost(rows), Ghost(groups)) {
                    Ok(_) => {},
                    Err(e) => {
                        proof {
                            lemma_fold_aggregates_error(
                                mid@.states,
                                columns,
                                rows,
                                groups,
                                (a + 1) as nat,
                                mid@.states.len(),
                            );
                        }
                        return Err(e);
                    },
                }
                let ghost lv = state_views(list@);
                self.accumulators.set(a, list);
                proof {
                    assert(self@.states.take(a + 1) =~= done.push(lv));
                }
            } else {
                assert(self@.states.take(a + 1) =~= done.push(mid@.states[a as int]));
            }
            a = a + 1;
        }
        proof {
            assert(self@.states.take(a as int) =~= self@.states);
            assert(self@.groups =~= groups);
            assert forall|k: int| 0 <= k < self.index@.len() implies {
                &&& row_fits(#[trigger] self@.groups[k], self.types@)
                &&& self.index@[k] == encode_row(self@.groups[k])
            } by {
                assert(self@.groups[k] == mid@.groups[k]);
            }
        }
        Ok(())
    }

    /// One row per group: its values, and the output of each aggregate.
    ///
    /// # Errors
    /// The first error of an accumulator, aggregate by aggregate.
    pub fn finish(self) -> (r: Result<(Vec<Vec<ScalarValue>>, Vec<Vec<ScalarValue>>), BasaltError>)
        requires
            self.wf(),
        ensures
            match r {
                Ok((rows, aggs)) => {
                    &&& rows@.len() == self@.groups.len()
                    &&& forall|g: int|
                        0 <= g < rows@.len() ==> typed(#[trigger] rows@[g]@) == Seq::new(
                            self@.types.len(),
                            |c: int| (self@.types[c], self@.groups[g][c]),
                        )
                    &&& all_outputs(self@.states, self@.states.len()) == Ok::<
                        Seq<Seq<(DataType, ValueView)>>,
                        ErrorKind,
                    >(Seq::new(aggs@.len(), |a: int| typed(aggs@[a]@)))
                },
                Err(e) => all_outputs(self@.states, self@.states.len()) == Err::<
                    Seq<Seq<(DataType, ValueView)>>,
                    ErrorKind,
                >(e@),
            },
    {
        let mut rows: Vec<Vec<ScalarValue>> = Vec::new();
        let n: usize = self.index.len();
        let mut g: usize = 0;
        while g < n
            invariant
                g <= n,
                self.wf(),
                n == self@.groups.len(),
                rows@.len() == g,
                forall|k: int|
                    0 <= k < g ==> typed(#[trigger] rows@[k]@) == Seq::new(
                        self@.types.len(),
                        |c: int| (self@.types[c], self@.groups[k][c]),
                    ),
            decreases n - g,
        {
            let key = self.index.key(g);
            proof {
                decode_inverts_encode(self@.groups[g as int], self.types@);
            }
            match self.key_encoder.decode(key.as_slice()) {
                Ok(values) => {
                    proof {
                        let want = self@.groups[g as int];
                        assert(Seq::new(values@.len(), |i: int| values@[i]@) == want);
                        assert forall|c: int| 0 <= c < values@.len() implies values@[c]@
                            == want[c] by {
                            assert(Seq::new(values@.len(), |i: int| values@[i]@)[c] == values@[c]@);
                        }
                        assert(typed(values@) =~= Seq::new(
                            self@.types.len(),
                            |c: int| (self@.types[c], want[c]),
                        ));
                    }
                    rows.push(values);
                },
                Err(e) => {
                    assert(false);
                    return Err(e);
                },
            }
            g = g + 1;
        }
        let mut aggs: Vec<Vec<ScalarValue>> = Vec::new();
        let ghost states = self@.states;
        assert(Seq::new(aggs@.len(), |k: int| typed(aggs@[k]@)) =~= seq![]);
        let mut a: usize = 0;
        while a < self.accumulators.len()
            invariant
                a <= self.accumulators@.len(),
                states == self@.states,
                states.len() == self.accumulators@.len(),
                aggs@.len() == a,
                all_outputs(states, a as nat) == Ok::<Seq<Seq<(DataType, ValueView)>>, ErrorKind>(
                    Seq::new(aggs@.len(), |k: int| typed(aggs@[k]@)),
                ),
            decreases self.accumulators@.len() - a,
        {
            let accs = &self.accumulators[a];
            let ghost list = states[a as int];
            let mut out: Vec<ScalarValue> = Vec::new();
            let mut i: usize = 0;
            assert(typed(out@) =~= seq![]);
            while i < accs.len()
                invariant
                    i <= accs@.len(),
                    a < states.len(),
                    list == states[a as int],
                    list == state_views(accs@),
                    outputs(list, i as nat) == Ok::<Seq<(DataType, ValueView)>, ErrorKind>(
                        typed(out@),
                    ),
                    all_outputs(states, a as nat) is Ok,
                    states == self@.states,
                decreases accs@.len() - i,
            {
                match accs[i].evaluate() {
                    Ok(s) => {
                        let ghost was = typed(out@);
                        out.push(s);
                        assert(typed(out@) =~= was.push((s.spec_data_type(), s@)));
                    },
                    Err(e) => {
                        proof {
                            lemma_outputs_error(list, (i + 1) as nat, list.len());
                            lemma_all_outputs_error(states, (a + 1) as nat, states.len());
                        }
                        return Err(e);
                    },
                }
                i = i + 1;
            }
            let ghost was = Seq::new(aggs@.len(), |k: int| typed(aggs@[k]@));
            aggs.push(out);
            assert(Seq::new(aggs@.len(), |k: int| typed(aggs@[k]@)) =~= was.push(typed(out@)));
            a = a + 1;
        }
        Ok((rows, aggs))
    }
}

proof fn lemma_groups_distinct(t: GroupedHashAggregator)
    requires
        t.wf(),
    ensures
        t@.groups.no_duplicates(),
{
    assert forall|i: int, j: int| 0 <= i < j < t@.groups.len() implies t@.groups[i]
        != t@.groups[j] by {
        assert(t.index@[i] != t.index@[j]);
        assert(t.index@[i] == encode_row(t@.groups[i]));
        assert(t.index@[j] == encode_row(t@.groups[j]));
    }
}

proof fn lemma_widen_twice(
    states: Seq<Seq<AccumulatorView>>,
    factories: Seq<AccumulatorFactory>,
    m: nat,
    n: nat,
)
    requires
        m <= n,
        forall|a: int| 0 <= a < states.len() ==> (#[trigger] states[a]).len() <= m,
    ensures
        widen_states(widen_states(states, factories, m), factories, n) == widen_states(
            states,
            factories,
            n,
        ),
{
    let once = widen_states(states, factories, n);
    let twice = widen_states(widen_states(states, factories, m), factories, n);
    assert forall|a: int| 0 <= a < once.len() implies once[a] == twice[a] by {
        assert(once[a] =~= twice[a]);
    }
    assert(once =~= twice);
}

/// A row that names no group yet has no rows before it.
proof fn lemma_absent_group(
    rows: Seq<Seq<ValueView>>,
    row: Seq<ValueView>,
    groups: Seq<Seq<ValueView>>,
)
    requires
        groups.no_duplicates(),
        !add_groups(groups, rows).contains(row),
    ensures
        rows_of_group(rows, row) == Seq::<Option<usize>>::empty(),
    decreases rows.len(),
{
    if rows.len() > 0 {
        lemma_add_groups(groups, rows);
        assert(add_groups(groups, rows).contains(rows[rows.len() - 1]));
        let before = add_groups(groups, rows.drop_last());
        if before.contains(row) {
            let g = choose|g: int| 0 <= g < before.len() && before[g] == row;
            assert(add_groups(groups, rows)[g] == row);
        }
        lemma_absent_group(rows.drop_last(), row, groups);
    }
}

/// Folds each group's rows of a column into that group's accumulator.
fn fold_list(
    list: &mut Vec<Accumulator>,
    array: &ArrayRef,
    members: &Vec<Vec<Option<usize>>>,
    Ghost(rows): Ghost<Seq<Seq<ValueView>>>,
    Ghost(groups): Ghost<Seq<Seq<ValueView>>>,
) -> (r: Result<(), BasaltError>)
    requires
        old(list)@.len() == groups.len(),
        members@.len() == groups.len(),
        rows.len() <= array@.values.len(),
        forall|k: int|
            0 <= k < members@.len() ==> (#[trigger] members@[k])@ == rows_of_group(rows, groups[k]),
    ensures
        match r {
            Ok(_) => final(list)@.len() == groups.len() && fold_groups(
                state_views(old(list)@),
                array@,
                rows,
                groups,
                groups.len(),
            ) == Ok::<Seq<AccumulatorView>, ErrorKind>(state_views(final(list)@)),
            Err(e) => fold_groups(state_views(old(list)@), array@, rows, groups, groups.len())
                == Err::<Seq<AccumulatorView>, ErrorKind>(e@),
        },
{
    let ghost start = state_views(list@);
    let len: usize = array.len();
    let mut g: usize = 0;
    assert(state_views(list@).take(0) =~= seq![]);
    while g < members.len()
        invariant
            g <= members@.len(),
            members@.len() == groups.len(),
            list@.len() == groups.len(),
            len == array@.values.len(),
            rows.len() <= len,
            start == state_views(old(list)@),
            forall|k: int|
                0 <= k < members@.len() ==> (#[trigger] members@[k])@ == rows_of_group(
                    rows,
                    groups[k],
                ),
            fold_groups(start, array@, rows, groups, g as nat) == Ok::<
                Seq<AccumulatorView>,
                ErrorKind,
            >(state_views(list@).take(g as int)),
            forall|k: int| g <= k < list@.len() ==> (#[trigger] list@[k])@ == start[k],
        decreases members@.len() - g,
    {
        let mine = &members[g];
        let ghost before = state_views(list@);
        if mine.len() > 0 {
            proof {
                lemma_rows_of_group(rows, groups[g as int]);
            }
            let gathered = take(array, mine);
            let mut args: Vec<ArrayRef> = Vec::new();
            args.push(Arc::new(gathered));
            match list[g].update_batch(&args) {
                Ok(_) => {},
                Err(e) => {
                    proof {
                        lemma_fold_groups_error(
                            start,
                            array@,
                            rows,
                            groups,
                            (g + 1) as nat,
                            groups.len(),
                        );
                    }
                    return Err(e);
                },
            }
        }
        proof {
            assert(state_views(list@).take(g as int) =~= before.take(g as int));
            assert(state_views(list@).take(g + 1) =~= before.take(g as int).push(
                list@[g as int]@,
            ));
        }
        g = g + 1;
    }
    assert(state_views(list@).take(g as int) =~= state_views(list@));
    Ok(())
}

} // verus!
