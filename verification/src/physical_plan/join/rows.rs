//! What an inner hash join delivers, row by row.

use vstd::prelude::*;

use crate::array::ArrayView;
use crate::batch::{batch_of, columns_fit, first_len, BatchView};
use crate::compute::indices_below;
use crate::error::ErrorKind;
use crate::expr::expr::{eval, ExprView};
use crate::logical_plan::plan::{JoinType, PlanView};
use crate::physical_expr::expr::{eval_batch, PhysicalExprView};
use crate::physical_plan::aggregate::group_keys::row_of;
use crate::physical_plan::filter::lemma_taken_fit;
use crate::physical_plan::join::hash_join::{
    build_side, joined_columns, keep_pairs, key_pairs, left_exprs, match_pairs, matching_rows,
    output_columns, pairs_are_equal_keys, pairs_below, pairs_with, present_key, probe_side,
    residual_pairs, right_exprs, run_hash_join,
};
use crate::physical_plan::limit::stream_rows;
use crate::physical_plan::plan::{
    collect_items, eval_all, exec_schema, lemma_eval_rows, materialized, run, take_columns,
    ExecView,
};
use crate::physical_plan::planner::{
    batches_evaluate_like_rows, exec_of, physical_all, physical_of, physical_pairs,
};
use crate::physical_plan::rows::{
    all_defined, delivered, flawless, items_of, kept, lemma_eval_all, lemma_kept_concat,
    lemma_stream_rows_one, runs_tidily, tidy, values_on, Row,
};
use crate::physical_plan::sort_rows::{lemma_collected, lemma_whole, runs_under_its_schema};
use crate::types::schema::FieldView;
use crate::types::value::ValueView;

verus! {

/// The left rows that go with a right row, each joined with it.
pub open spec fn partners(
    goes: spec_fn(Row, Row) -> bool,
    left: Seq<Row>,
    r: Row,
) -> Seq<Row>
    decreases left.len(),
{
    if left.len() == 0 {
        seq![]
    } else {
        let before = partners(goes, left.drop_last(), r);
        if goes(left.last(), r) {
            before.push(left.last() + r)
        } else {
            before
        }
    }
}

/// The pairs of rows that go together, joined: by right row, then by left row.
pub open spec fn joined(
    goes: spec_fn(Row, Row) -> bool,
    left: Seq<Row>,
    right: Seq<Row>,
) -> Seq<Row>
    decreases right.len(),
{
    if right.len() == 0 {
        seq![]
    } else {
        joined(goes, left, right.drop_last()) + partners(goes, left, right.last())
    }
}

/// The left keys of key pairs.
pub open spec fn left_keys(on: Seq<(ExprView, ExprView)>) -> Seq<ExprView> {
    Seq::new(on.len(), |i: int| on[i].0)
}

/// The right keys of key pairs.
pub open spec fn right_keys(on: Seq<(ExprView, ExprView)>) -> Seq<ExprView> {
    Seq::new(on.len(), |i: int| on[i].1)
}

/// Whether two rows have the same keys, none of them null.
pub open spec fn keys_match(on: Seq<(ExprView, ExprView)>) -> spec_fn(Row, Row) -> bool {
    |l: Row, r: Row|
        present_key(values_on(right_keys(on), r)) && values_on(left_keys(on), l) == values_on(
            right_keys(on),
            r,
        )
}

/// Whether a joined row passes a condition.
pub open spec fn condition_holds(filter: Option<ExprView>, row: Row) -> bool {
    match filter {
        None => true,
        Some(f) => eval(f, row) == Ok::<ValueView, ErrorKind>(ValueView::Boolean(true)),
    }
}

/// Whether two rows go together in an inner join.
pub open spec fn go_together(
    on: Seq<(ExprView, ExprView)>,
    filter: Option<ExprView>,
) -> spec_fn(Row, Row) -> bool {
    |l: Row, r: Row| keys_match(on)(l, r) && condition_holds(filter, l + r)
}

/// Whether a condition has a value on every pair of rows with the same keys.
pub open spec fn condition_defined(
    on: Seq<(ExprView, ExprView)>,
    filter: Option<ExprView>,
    left: Seq<Row>,
    right: Seq<Row>,
) -> bool {
    filter matches Some(f) ==> forall|i: int, j: int|
        0 <= i < left.len() && 0 <= j < right.len() && #[trigger] keys_match(on)(
            left[i],
            right[j],
        ) ==> eval(f, left[i] + right[j]) is Ok
}

// ---------------------------------------------------------------------------
// Pairs of places and pairs of rows

/// The joined rows of pairs of places.
pub open spec fn rows_of_pairs(left: Seq<Row>, right: Seq<Row>, pairs: Seq<(usize, usize)>) -> Seq<Row> {
    Seq::new(pairs.len(), |k: int| left[pairs[k].0 as int] + right[pairs[k].1 as int])
}

proof fn lemma_partners(
    on: Seq<(ExprView, ExprView)>,
    keys: Seq<ArrayView>,
    left: Seq<Row>,
    right: Seq<Row>,
    j: int,
    n: nat,
)
    requires
        n <= left.len() <= usize::MAX,
        0 <= j < right.len() <= usize::MAX,
        present_key(values_on(right_keys(on), right[j])),
        forall|i: int|
            0 <= i < left.len() ==> #[trigger] row_of(keys, i) == values_on(left_keys(on), left[i]),
    ensures
        ({
            let row = values_on(right_keys(on), right[j]);
            rows_of_pairs(left, right, pairs_with(matching_rows(keys, row, n), j)) == partners(
                keys_match(on),
                left.take(n as int),
                right[j],
            )
        }),
    decreases n,
{
    let row = values_on(right_keys(on), right[j]);
    if n == 0 {
        assert(rows_of_pairs(left, right, pairs_with(matching_rows(keys, row, n), j)) =~= seq![]);
    } else {
        let m = (n - 1) as nat;
        lemma_partners(on, keys, left, right, j, m);
        assert(left.take(n as int).drop_last() =~= left.take(m as int));
        assert(left.take(n as int).last() == left[m as int]);
        assert(row_of(keys, m as int) == values_on(left_keys(on), left[m as int]));
        let before = matching_rows(keys, row, m);
        let all = matching_rows(keys, row, n);
        if row_of(keys, m as int) == row {
            assert(all == before.push(m as usize));
            assert(rows_of_pairs(left, right, pairs_with(all, j)) =~= rows_of_pairs(
                left,
                right,
                pairs_with(before, j),
            ).push(left[m as int] + right[j]));
        }
    }
}

proof fn lemma_no_partners(on: Seq<(ExprView, ExprView)>, left: Seq<Row>, r: Row)
    requires
        !present_key(values_on(right_keys(on), r)),
    ensures
        partners(keys_match(on), left, r) == Seq::<Row>::empty(),
    decreases left.len(),
{
    if left.len() > 0 {
        lemma_no_partners(on, left.drop_last(), r);
    }
}

proof fn lemma_pairs_joined(
    on: Seq<(ExprView, ExprView)>,
    build_keys: Seq<ArrayView>,
    probe_keys: Seq<ArrayView>,
    left: Seq<Row>,
    right: Seq<Row>,
    n: nat,
)
    requires
        n <= right.len() <= usize::MAX,
        left.len() <= usize::MAX,
        forall|i: int|
            0 <= i < left.len() ==> #[trigger] row_of(build_keys, i) == values_on(
                left_keys(on),
                left[i],
            ),
        forall|i: int|
            0 <= i < right.len() ==> #[trigger] row_of(probe_keys, i) == values_on(
                right_keys(on),
                right[i],
            ),
    ensures
        rows_of_pairs(left, right, match_pairs(build_keys, probe_keys, left.len(), n)) == joined(
            keys_match(on),
            left,
            right.take(n as int),
        ),
        pairs_below(match_pairs(build_keys, probe_keys, left.len(), n), left.len(), n),
    decreases n,
{
    if n == 0 {
        assert(rows_of_pairs(left, right, match_pairs(build_keys, probe_keys, left.len(), n))
            =~= seq![]);
    } else {
        let m = (n - 1) as nat;
        lemma_pairs_joined(on, build_keys, probe_keys, left, right, m);
        assert(right.take(n as int).drop_last() =~= right.take(m as int));
        assert(right.take(n as int).last() == right[m as int]);
        let row = row_of(probe_keys, m as int);
        assert(row == values_on(right_keys(on), right[m as int]));
        let before = match_pairs(build_keys, probe_keys, left.len(), m);
        if present_key(row) {
            lemma_partners(on, build_keys, left, right, m as int, left.len());
            assert(left.take(left.len() as int) =~= left);
            let tail = pairs_with(matching_rows(build_keys, row, left.len()), m as int);
            assert(rows_of_pairs(left, right, before + tail) =~= rows_of_pairs(left, right, before)
                + rows_of_pairs(left, right, tail));
            lemma_matching_below(build_keys, row, left.len());
            assert forall|k: int| 0 <= k < (before + tail).len() implies (
            #[trigger] (before + tail)[k]).0 < left.len() && (before + tail)[k].1 < n by {
                if k < before.len() {
                    assert((before + tail)[k] == before[k]);
                } else {
                    assert((before + tail)[k] == tail[k - before.len()]);
                }
            }
        } else {
            lemma_no_partners(on, left, right[m as int]);
            assert(joined(keys_match(on), left, right.take(m as int)) + Seq::<Row>::empty()
                =~= joined(keys_match(on), left, right.take(m as int)));
        }
    }
}

proof fn lemma_matching_below(keys: Seq<ArrayView>, row: Seq<ValueView>, n: nat)
    requires
        n <= usize::MAX,
    ensures
        forall|k: int|
            0 <= k < matching_rows(keys, row, n).len() ==> (#[trigger] matching_rows(
                keys,
                row,
                n,
            )[k]) < n,
    decreases n,
{
    if n > 0 {
        lemma_matching_below(keys, row, (n - 1) as nat);
        let before = matching_rows(keys, row, (n - 1) as nat);
        let all = matching_rows(keys, row, n);
        assert forall|k: int| 0 <= k < all.len() implies (#[trigger] all[k]) < n by {
            if k < before.len() {
                assert(all[k] == before[k]);
            }
        }
    }
}

proof fn lemma_keep_pairs(
    f: ExprView,
    left: Seq<Row>,
    right: Seq<Row>,
    pairs: Seq<(usize, usize)>,
    mask: Seq<ValueView>,
    n: nat,
)
    requires
        n <= pairs.len(),
        forall|k: int|
            0 <= k < pairs.len() ==> eval(f, #[trigger] rows_of_pairs(left, right, pairs)[k])
                == Ok::<ValueView, ErrorKind>(mask[k]),
    ensures
        rows_of_pairs(left, right, keep_pairs(pairs, mask, n)) == kept(
            f,
            rows_of_pairs(left, right, pairs).take(n as int),
        ),
        forall|k: int|
            0 <= k < keep_pairs(pairs, mask, n).len() ==> exists|j: int|
                0 <= j < pairs.len() && pairs[j] == #[trigger] keep_pairs(pairs, mask, n)[k],
    decreases n,
{
    let rows = rows_of_pairs(left, right, pairs);
    if n == 0 {
        assert(rows_of_pairs(left, right, keep_pairs(pairs, mask, n)) =~= seq![]);
        assert(rows.take(0) =~= seq![]);
    } else {
        let m = (n - 1) as nat;
        lemma_keep_pairs(f, left, right, pairs, mask, m);
        assert(rows.take(n as int).drop_last() =~= rows.take(m as int));
        assert(rows.take(n as int).last() == rows[m as int]);
        let before = keep_pairs(pairs, mask, m);
        let all = keep_pairs(pairs, mask, n);
        if mask[m as int] == ValueView::Boolean(true) {
            assert(rows_of_pairs(left, right, before.push(pairs[m as int])) =~= rows_of_pairs(
                left,
                right,
                before,
            ).push(rows[m as int]));
        }
        assert forall|k: int| 0 <= k < all.len() implies exists|j: int|
            0 <= j < pairs.len() && pairs[j] == #[trigger] all[k] by {
            if k < before.len() {
                assert(all[k] == before[k]);
            } else {
                assert(all[k] == pairs[m as int]);
            }
        }
    }
}

/// Keeping, of joined rows, those that pass is joining rows that go together
/// and pass.
pub proof fn lemma_kept_joined(
    f: ExprView,
    goes: spec_fn(Row, Row) -> bool,
    narrower: spec_fn(Row, Row) -> bool,
    left: Seq<Row>,
    right: Seq<Row>,
)
    requires
        forall|i: int, j: int|
            0 <= i < left.len() && 0 <= j < right.len() ==> #[trigger] narrower(left[i], right[j])
                == (goes(left[i], right[j]) && eval(f, left[i] + right[j]) == Ok::<
                ValueView,
                ErrorKind,
            >(ValueView::Boolean(true))),
    ensures
        kept(f, joined(goes, left, right)) == joined(narrower, left, right),
    decreases right.len(),
{
    if right.len() > 0 {
        let rest = right.drop_last();
        let r = right.last();
        assert(r == right[right.len() - 1]);
        assert forall|i: int, j: int| 0 <= i < left.len() && 0 <= j < rest.len() implies
            #[trigger] narrower(left[i], rest[j]) == (goes(left[i], rest[j]) && eval(
            f,
            left[i] + rest[j],
        ) == Ok::<ValueView, ErrorKind>(ValueView::Boolean(true))) by {
            assert(rest[j] == right[j]);
            assert(narrower(left[i], right[j]) == narrower(left[i], rest[j]));
        }
        lemma_kept_joined(f, goes, narrower, left, rest);
        assert forall|i: int| 0 <= i < left.len() implies #[trigger] narrower(left[i], r) == (goes(
            left[i],
            r,
        ) && eval(f, left[i] + r) == Ok::<ValueView, ErrorKind>(ValueView::Boolean(true))) by {
            assert(narrower(left[i], right[right.len() - 1]) == narrower(left[i], r));
        }
        lemma_kept_partners(f, goes, narrower, left, r);
        lemma_kept_concat(f, joined(goes, left, rest), partners(goes, left, r));
    }
}

proof fn lemma_kept_partners(
    f: ExprView,
    goes: spec_fn(Row, Row) -> bool,
    narrower: spec_fn(Row, Row) -> bool,
    left: Seq<Row>,
    r: Row,
)
    requires
        forall|i: int|
            0 <= i < left.len() ==> #[trigger] narrower(left[i], r) == (goes(left[i], r) && eval(
                f,
                left[i] + r,
            ) == Ok::<ValueView, ErrorKind>(ValueView::Boolean(true))),
    ensures
        kept(f, partners(goes, left, r)) == partners(narrower, left, r),
    decreases left.len(),
{
    if left.len() > 0 {
        let rest = left.drop_last();
        assert forall|i: int| 0 <= i < rest.len() implies #[trigger] narrower(rest[i], r) == (goes(
            rest[i],
            r,
        ) && eval(f, rest[i] + r) == Ok::<ValueView, ErrorKind>(ValueView::Boolean(true))) by {
            assert(rest[i] == left[i]);
            assert(narrower(left[i], r) == narrower(rest[i], r));
        }
        lemma_kept_partners(f, goes, narrower, rest, r);
        let last = left[left.len() - 1];
        assert(narrower(last, r) == (goes(last, r) && eval(f, last + r) == Ok::<
            ValueView,
            ErrorKind,
        >(ValueView::Boolean(true))));
        let before = partners(goes, rest, r);
        assert(before.push(last + r).drop_last() =~= before);
    }
}

/// Whether rows go together only depends on the rows.
pub proof fn lemma_joined_same(
    a: spec_fn(Row, Row) -> bool,
    b: spec_fn(Row, Row) -> bool,
    left: Seq<Row>,
    right: Seq<Row>,
)
    requires
        forall|i: int, j: int|
            0 <= i < left.len() && 0 <= j < right.len() ==> #[trigger] a(left[i], right[j]) == b(
                left[i],
                right[j],
            ),
    ensures
        joined(a, left, right) == joined(b, left, right),
    decreases right.len(),
{
    if right.len() > 0 {
        let rest = right.drop_last();
        let r = right[right.len() - 1];
        assert forall|i: int, j: int| 0 <= i < left.len() && 0 <= j < rest.len() implies
            #[trigger] a(left[i], rest[j]) == b(left[i], rest[j]) by {
            assert(rest[j] == right[j]);
            assert(a(left[i], right[j]) == a(left[i], rest[j]));
        }
        lemma_joined_same(a, b, left, rest);
        assert forall|i: int| 0 <= i < left.len() implies #[trigger] a(left[i], r) == b(
            left[i],
            r,
        ) by {
            assert(a(left[i], right[right.len() - 1]) == a(left[i], r));
        }
        lemma_partners_same(a, b, left, r);
    }
}

proof fn lemma_partners_same(
    a: spec_fn(Row, Row) -> bool,
    b: spec_fn(Row, Row) -> bool,
    left: Seq<Row>,
    r: Row,
)
    requires
        forall|i: int| 0 <= i < left.len() ==> #[trigger] a(left[i], r) == b(left[i], r),
    ensures
        partners(a, left, r) == partners(b, left, r),
    decreases left.len(),
{
    if left.len() > 0 {
        let rest = left.drop_last();
        assert forall|i: int| 0 <= i < rest.len() implies #[trigger] a(rest[i], r) == b(
            rest[i],
            r,
        ) by {
            assert(rest[i] == left[i]);
            assert(a(left[i], r) == a(rest[i], r));
        }
        lemma_partners_same(a, b, rest, r);
        let last = left[left.len() - 1];
        assert(a(last, r) == b(last, r));
    }
}

// ---------------------------------------------------------------------------
// The join

proof fn lemma_physical_pairs(on: Seq<(ExprView, ExprView)>, n: nat)
    requires
        n <= on.len(),
        physical_pairs(on, n) is Ok,
    ensures
        physical_pairs(on, n)->Ok_0.len() == n,
        physical_all(left_keys(on), n) is Ok,
        physical_all(right_keys(on), n) is Ok,
        left_exprs(physical_pairs(on, n)->Ok_0) == physical_all(left_keys(on), n)->Ok_0,
        right_exprs(physical_pairs(on, n)->Ok_0) == physical_all(right_keys(on), n)->Ok_0,
    decreases n,
{
    if n == 0 {
        assert(left_exprs(physical_pairs(on, n)->Ok_0) =~= physical_all(left_keys(on), n)->Ok_0);
        assert(right_exprs(physical_pairs(on, n)->Ok_0) =~= physical_all(right_keys(on), n)->Ok_0);
    } else {
        let m = (n - 1) as nat;
        lemma_physical_pairs(on, m);
        let before = physical_pairs(on, m)->Ok_0;
        let all = physical_pairs(on, n)->Ok_0;
        assert(left_keys(on)[m as int] == on[m as int].0);
        assert(right_keys(on)[m as int] == on[m as int].1);
        assert(left_exprs(all) =~= left_exprs(before).push(physical_of(on[m as int].0)->Ok_0));
        assert(right_exprs(all) =~= right_exprs(before).push(physical_of(on[m as int].1)->Ok_0));
    }
}

/// The rows of gathered pairs.
pub proof fn lemma_joined_batch(
    b: BatchView,
    p: BatchView,
    pairs: Seq<(usize, usize)>,
    schema: Seq<FieldView>,
)
    requires
        b.wf(),
        p.wf(),
        pairs_below(pairs, b.num_rows, p.num_rows),
    ensures
        ({
            let columns = joined_columns(b, p, build_side(pairs), probe_side(pairs));
            &&& columns_fit(b.schema + p.schema, columns)
            &&& batch_of(schema, columns).num_rows == pairs.len()
            &&& batch_of(schema, columns).rows() == rows_of_pairs(b.rows(), p.rows(), pairs)
        }),
{
    let bs = build_side(pairs);
    let ps = probe_side(pairs);
    let columns = joined_columns(b, p, bs, ps);
    let x = take_columns(b.columns, bs);
    let y = take_columns(p.columns, ps);
    assert(indices_below(bs, b.num_rows)) by {
        assert forall|i: int| 0 <= i < bs.len() implies ((#[trigger] bs[i]) matches Some(k) ==> k
            < b.num_rows) by {
            assert(pairs[i].0 < b.num_rows);
        }
    }
    assert(indices_below(ps, p.num_rows)) by {
        assert forall|i: int| 0 <= i < ps.len() implies ((#[trigger] ps[i]) matches Some(k) ==> k
            < p.num_rows) by {
            assert(pairs[i].1 < p.num_rows);
        }
    }
    lemma_taken_fit(b, bs);
    lemma_taken_fit(p, ps);
    assert forall|c: int| 0 <= c < columns.len() implies (#[trigger] columns[c]).values.len()
        == pairs.len() by {
        if c < x.len() {
            assert(columns[c] == x[c]);
        } else {
            assert(columns[c] == y[c - x.len()]);
        }
    }
    assert forall|c: int| 0 <= c < columns.len() implies {
        &&& (#[trigger] columns[c]).values.len() == first_len(columns)
        &&& columns[c].data_type == (b.schema + p.schema)[c].data_type
        &&& columns[c].wf()
    } by {
        assert(columns[0].values.len() == pairs.len());
        if c < x.len() {
            assert(columns[c] == x[c]);
        } else {
            assert(columns[c] == y[c - x.len()]);
        }
    }
    let all = batch_of(schema, columns);
    if columns.len() == 0 {
        if pairs.len() > 0 {
            assert(pairs[0].0 < b.num_rows);
        }
    } else {
        assert(columns[0].values.len() == pairs.len());
    }
    assert forall|k: int| 0 <= k < pairs.len() implies #[trigger] all.rows()[k] == rows_of_pairs(
        b.rows(),
        p.rows(),
        pairs,
    )[k] by {
        let i = pairs[k].0 as int;
        let j = pairs[k].1 as int;
        assert(pairs[k].0 < b.num_rows && pairs[k].1 < p.num_rows);
        assert(b.rows()[i] == b.row(i));
        assert(p.rows()[j] == p.row(j));
        assert forall|c: int| 0 <= c < columns.len() implies all.row(k)[c] == (b.row(i) + p.row(
            j,
        ))[c] by {
            if c < x.len() {
                assert(columns[c] == x[c]);
            } else {
                assert(columns[c] == y[c - x.len()]);
            }
        }
        assert(all.row(k) =~= b.row(i) + p.row(j));
    }
    assert(all.rows() =~= rows_of_pairs(b.rows(), p.rows(), pairs));
}

pub proof fn lemma_key_rows(exprs: Seq<ExprView>, b: BatchView)
    requires
        b.wf(),
        physical_all(exprs, exprs.len()) is Ok,
        eval_all(physical_all(exprs, exprs.len())->Ok_0, b, exprs.len()) is Ok,
    ensures
        forall|i: int|
            0 <= i < b.num_rows ==> #[trigger] row_of(
                eval_all(physical_all(exprs, exprs.len())->Ok_0, b, exprs.len())->Ok_0,
                i,
            ) == values_on(exprs, b.rows()[i]),
        all_defined(exprs, b.rows()),
{
    lemma_eval_all(exprs, b, exprs.len());
    let keys = eval_all(physical_all(exprs, exprs.len())->Ok_0, b, exprs.len())->Ok_0;
    assert forall|i: int| 0 <= i < b.num_rows implies #[trigger] row_of(keys, i) == values_on(
        exprs,
        b.rows()[i],
    ) by {
        assert(b.rows()[i] == b.row(i));
        assert forall|j: int| 0 <= j < exprs.len() implies row_of(keys, i)[j] == values_on(
            exprs,
            b.row(i),
        )[j] by {
            assert(eval(exprs[j], b.row(i)) is Ok);
        }
        assert(row_of(keys, i) =~= values_on(exprs, b.rows()[i]));
    }
    assert forall|i: int, j: int|
        0 <= i < b.rows().len() && 0 <= j < exprs.len() implies #[trigger] eval(
        exprs[j],
        b.rows()[i],
    ) is Ok by {
        assert(b.rows()[i] == b.row(i));
    }
}

/// The operator form of an optional condition.
pub open spec fn physical_filter(filter: Option<ExprView>) -> Option<PhysicalExprView> {
    match filter {
        None => None,
        Some(f) => Some(physical_of(f)->Ok_0),
    }
}

/// The pairs of places that a hash join finds, whatever its type.
pub proof fn lemma_join_pairs(
    b: BatchView,
    p: BatchView,
    on: Seq<(ExprView, ExprView)>,
    filter: Option<ExprView>,
    join_type: JoinType,
    schema: Seq<FieldView>,
) -> (pairs: Seq<(usize, usize)>)
    requires
        b.wf(),
        p.wf(),
        b.num_rows <= usize::MAX,
        p.num_rows <= usize::MAX,
        physical_pairs(on, on.len()) is Ok,
        filter matches Some(f) ==> physical_of(f) is Ok,
        run_hash_join(
            b,
            p,
            physical_pairs(on, on.len())->Ok_0,
            physical_filter(filter),
            join_type,
            schema,
        ) is Ok,
    ensures
        pairs_below(pairs, b.num_rows, p.num_rows),
        rows_of_pairs(b.rows(), p.rows(), pairs) == joined(
            go_together(on, filter),
            b.rows(),
            p.rows(),
        ),
        forall|i: usize, j: usize|
            i < b.num_rows && j < p.num_rows ==> (#[trigger] pairs.contains((i, j))
                <==> go_together(on, filter)(b.rows()[i as int], p.rows()[j as int])),
        all_defined(left_keys(on), b.rows()),
        all_defined(right_keys(on), p.rows()),
        condition_defined(on, filter, b.rows(), p.rows()),
        columns_fit(schema, output_columns(b, p, pairs, join_type)),
        run_hash_join(
            b,
            p,
            physical_pairs(on, on.len())->Ok_0,
            physical_filter(filter),
            join_type,
            schema,
        )->Ok_0 == seq![
            Ok::<BatchView, ErrorKind>(batch_of(schema, output_columns(b, p, pairs, join_type))),
        ],
{
    let keys = physical_pairs(on, on.len())->Ok_0;
    lemma_physical_pairs(on, on.len());
    let left = b.rows();
    let right = p.rows();
    let bk = eval_all(left_exprs(keys), b, keys.len())->Ok_0;
    let pk = eval_all(right_exprs(keys), p, keys.len())->Ok_0;
    lemma_key_rows(left_keys(on), b);
    lemma_key_rows(right_keys(on), p);
    let candidates = match_pairs(bk, pk, b.num_rows, p.num_rows);
    assert(key_pairs(bk, pk, b.num_rows, p.num_rows) == Ok::<Seq<(usize, usize)>, ErrorKind>(
        candidates,
    ));
    lemma_pairs_joined(on, bk, pk, left, right, right.len());
    assert(right.take(right.len() as int) =~= right);
    assert forall|i: usize, j: usize| i < b.num_rows && j < p.num_rows implies (
    #[trigger] candidates.contains((i, j)) <==> keys_match(on)(left[i as int], right[j as int])) by {
        pairs_are_equal_keys(bk, pk, b.num_rows, p.num_rows, i, j);
        assert(row_of(bk, i as int) == values_on(left_keys(on), left[i as int]));
        assert(row_of(pk, j as int) == values_on(right_keys(on), right[j as int]));
    }
    let pairs = residual_pairs(b, p, candidates, physical_filter(filter))->Ok_0;
    match filter {
        None => {
            assert forall|i: int, j: int|
                0 <= i < left.len() && 0 <= j < right.len() implies #[trigger] keys_match(on)(
                left[i],
                right[j],
            ) == go_together(on, filter)(left[i], right[j]) by {}
            lemma_joined_same(keys_match(on), go_together(on, filter), left, right);
        },
        Some(f) => {
            lemma_residual_pairs(b, p, on, f, candidates);
        },
    }
    pairs
}

/// The pairs that a condition leaves.
proof fn lemma_residual_pairs(
    b: BatchView,
    p: BatchView,
    on: Seq<(ExprView, ExprView)>,
    f: ExprView,
    candidates: Seq<(usize, usize)>,
)
    requires
        b.wf(),
        p.wf(),
        b.num_rows <= usize::MAX,
        p.num_rows <= usize::MAX,
        physical_of(f) is Ok,
        pairs_below(candidates, b.num_rows, p.num_rows),
        rows_of_pairs(b.rows(), p.rows(), candidates) == joined(
            keys_match(on),
            b.rows(),
            p.rows(),
        ),
        forall|i: usize, j: usize|
            i < b.num_rows && j < p.num_rows ==> (#[trigger] candidates.contains((i, j))
                <==> keys_match(on)(b.rows()[i as int], p.rows()[j as int])),
        residual_pairs(b, p, candidates, Some(physical_of(f)->Ok_0)) is Ok,
    ensures
        ({
            let pairs = residual_pairs(b, p, candidates, Some(physical_of(f)->Ok_0))->Ok_0;
            &&& pairs_below(pairs, b.num_rows, p.num_rows)
            &&& rows_of_pairs(b.rows(), p.rows(), pairs) == joined(
                go_together(on, Some(f)),
                b.rows(),
                p.rows(),
            )
            &&& forall|i: usize, j: usize|
                i < b.num_rows && j < p.num_rows ==> (#[trigger] pairs.contains((i, j))
                    <==> go_together(on, Some(f))(b.rows()[i as int], p.rows()[j as int]))
            &&& condition_defined(on, Some(f), b.rows(), p.rows())
        }),
{
    let left = b.rows();
    let right = p.rows();
    let filter = Some(f);
    let pairs = residual_pairs(b, p, candidates, Some(physical_of(f)->Ok_0))->Ok_0;
    assert forall|i: int, j: int|
        0 <= i < left.len() && 0 <= j < right.len() implies #[trigger] go_together(on, filter)(
        left[i],
        right[j],
    ) == (keys_match(on)(left[i], right[j]) && eval(f, left[i] + right[j]) == Ok::<
        ValueView,
        ErrorKind,
    >(ValueView::Boolean(true))) by {}
    lemma_kept_joined(f, keys_match(on), go_together(on, filter), left, right);
    let rows = rows_of_pairs(left, right, candidates);
    if candidates.len() == 0 {
        assert(rows =~= seq![]);
        assert(kept(f, rows) =~= seq![]);
        assert forall|i: usize, j: usize| i < b.num_rows && j < p.num_rows implies (
        #[trigger] pairs.contains((i, j)) <==> go_together(on, filter)(
            left[i as int],
            right[j as int],
        )) by {
            assert(!candidates.contains((i, j)));
        }
        assert forall|i: int, j: int|
            0 <= i < left.len() && 0 <= j < right.len() && #[trigger] keys_match(on)(
                left[i],
                right[j],
            ) implies eval(f, left[i] + right[j]) is Ok by {
            assert(!candidates.contains((i as usize, j as usize)));
        }
    } else {
        let columns = joined_columns(b, p, build_side(candidates), probe_side(candidates));
        let all = batch_of(b.schema + p.schema, columns);
        lemma_joined_batch(b, p, candidates, b.schema + p.schema);
        let x = physical_of(f)->Ok_0;
        let c = eval_batch(x, all)->Ok_0;
        lemma_eval_rows(x, all);
        let mask = c.spread(all.num_rows).values;
        assert forall|k: int| 0 <= k < candidates.len() implies eval(f, #[trigger] rows[k]) == Ok::<
            ValueView,
            ErrorKind,
        >(mask[k]) by {
            batches_evaluate_like_rows(f, all, k);
            assert(all.rows()[k] == all.row(k));
        }
        assert forall|i: int, j: int|
            0 <= i < left.len() && 0 <= j < right.len() && #[trigger] keys_match(on)(
                left[i],
                right[j],
            ) implies eval(f, left[i] + right[j]) is Ok by {
            assert(candidates.contains((i as usize, j as usize)));
            let k = choose|k: int|
                0 <= k < candidates.len() && candidates[k] == (i as usize, j as usize);
            assert(rows[k] == left[i] + right[j]);
        }
        lemma_keep_pairs(f, left, right, candidates, mask, candidates.len());
        assert(rows.take(candidates.len() as int) =~= rows);
        assert forall|k: int| 0 <= k < pairs.len() implies (#[trigger] pairs[k]).0 < b.num_rows
            && pairs[k].1 < p.num_rows by {
            let j = choose|j: int| 0 <= j < candidates.len() && candidates[j] == pairs[k];
            assert(candidates[j].0 < b.num_rows);
        }
        assert forall|i: usize, j: usize| i < b.num_rows && j < p.num_rows implies (
        #[trigger] pairs.contains((i, j)) <==> go_together(on, filter)(
            left[i as int],
            right[j as int],
        )) by {
            lemma_kept_pair(candidates, mask, candidates.len(), (i, j));
            assert(go_together(on, filter)(left[i as int], right[j as int]) == (keys_match(on)(
                left[i as int],
                right[j as int],
            ) && eval(f, left[i as int] + right[j as int]) == Ok::<ValueView, ErrorKind>(
                ValueView::Boolean(true),
            )));
            if candidates.contains((i, j)) {
                let k = choose|k: int| 0 <= k < candidates.len() && candidates[k] == (i, j);
                assert(rows[k] == left[i as int] + right[j as int]);
                assert(eval(f, rows[k]) == Ok::<ValueView, ErrorKind>(mask[k]));
            }
            if pairs.contains((i, j)) {
                let k = choose|k: int|
                    0 <= k < candidates.len() && candidates[k] == (i, j) && #[trigger] mask[k]
                        == ValueView::Boolean(true);
                assert(rows[k] == left[i as int] + right[j as int]);
            }
        }
    }
}

proof fn lemma_kept_pair(
    candidates: Seq<(usize, usize)>,
    mask: Seq<ValueView>,
    n: nat,
    x: (usize, usize),
)
    requires
        n <= candidates.len(),
    ensures
        keep_pairs(candidates, mask, n).contains(x) <==> exists|k: int|
            0 <= k < n && candidates[k] == x && #[trigger] mask[k] == ValueView::Boolean(true),
    decreases n,
{
    if n > 0 {
        let m = (n - 1) as nat;
        lemma_kept_pair(candidates, mask, m, x);
        let before = keep_pairs(candidates, mask, m);
        let all = keep_pairs(candidates, mask, n);
        if all.contains(x) {
            let k = choose|k: int| 0 <= k < all.len() && all[k] == x;
            if k < before.len() {
                assert(before[k] == x);
            } else {
                assert(candidates[m as int] == x && mask[m as int] == ValueView::Boolean(true));
            }
        }
        if before.contains(x) {
            let k = choose|k: int| 0 <= k < before.len() && before[k] == x;
            assert(all[k] == x);
        }
        if candidates[m as int] == x && mask[m as int] == ValueView::Boolean(true) {
            assert(all[before.len() as int] == x);
        }
    }
}

proof fn lemma_inner_join(
    b: BatchView,
    p: BatchView,
    on: Seq<(ExprView, ExprView)>,
    filter: Option<ExprView>,
    schema: Seq<FieldView>,
)
    requires
        b.wf(),
        p.wf(),
        b.num_rows <= usize::MAX,
        p.num_rows <= usize::MAX,
        physical_pairs(on, on.len()) is Ok,
        filter matches Some(f) ==> physical_of(f) is Ok,
        run_hash_join(
            b,
            p,
            physical_pairs(on, on.len())->Ok_0,
            physical_filter(filter),
            JoinType::Inner,
            schema,
        ) is Ok,
    ensures
        ({
            let out = run_hash_join(
                b,
                p,
                physical_pairs(on, on.len())->Ok_0,
                physical_filter(filter),
                JoinType::Inner,
                schema,
            )->Ok_0;
            &&& flawless(out)
            &&& stream_rows(out) == joined(go_together(on, filter), b.rows(), p.rows())
        }),
        all_defined(left_keys(on), b.rows()),
        all_defined(right_keys(on), p.rows()),
        condition_defined(on, filter, b.rows(), p.rows()),
{
    let pairs = lemma_join_pairs(b, p, on, filter, JoinType::Inner, schema);
    lemma_joined_batch(b, p, pairs, schema);
    let columns = joined_columns(b, p, build_side(pairs), probe_side(pairs));
    assert(output_columns(b, p, pairs, JoinType::Inner) == columns);
    lemma_stream_rows_one(Ok::<BatchView, ErrorKind>(batch_of(schema, columns)));
}

/// An inner join with keys delivers the pairs of rows whose keys are equal and
/// that pass its condition, joined: by right row, then by left row.
pub proof fn inner_joins_deliver_the_pairs_that_match(
    left: PlanView,
    right: PlanView,
    on: Seq<(ExprView, ExprView)>,
    filter: Option<ExprView>,
    schema: Seq<FieldView>,
)
    requires
        on.len() > 0,
        runs_tidily(left),
        runs_tidily(right),
        runs_under_its_schema(left),
        runs_under_its_schema(right),
        delivered(left) matches Some(rows) ==> rows.len() <= usize::MAX,
        delivered(right) matches Some(rows) ==> rows.len() <= usize::MAX,
        delivered(
            PlanView::Join {
                left: Box::new(left),
                right: Box::new(right),
                on,
                filter,
                join_type: JoinType::Inner,
                schema,
            },
        ) is Some,
    ensures
        delivered(left) is Some,
        delivered(right) is Some,
        delivered(
            PlanView::Join {
                left: Box::new(left),
                right: Box::new(right),
                on,
                filter,
                join_type: JoinType::Inner,
                schema,
            },
        ) == Some(
            joined(go_together(on, filter), delivered(left)->Some_0, delivered(right)->Some_0),
        ),
        all_defined(left_keys(on), delivered(left)->Some_0),
        all_defined(right_keys(on), delivered(right)->Some_0),
        condition_defined(on, filter, delivered(left)->Some_0, delivered(right)->Some_0),
{
    let q = PlanView::Join {
        left: Box::new(left),
        right: Box::new(right),
        on,
        filter,
        join_type: JoinType::Inner,
        schema,
    };
    reveal(items_of);
    assert(exec_of(q) is Ok);
    assert(exec_of(left) is Ok);
    assert(exec_of(right) is Ok);
    let build = exec_of(left)->Ok_0;
    let probe = exec_of(right)->Ok_0;
    assert(physical_pairs(on, on.len()) is Ok);
    let keys = physical_pairs(on, on.len())->Ok_0;
    assert(exec_of(q)->Ok_0 == (ExecView::HashJoin {
        build: Box::new(build),
        probe: Box::new(probe),
        on: keys,
        filter: physical_filter(filter),
        join_type: JoinType::Inner,
        schema,
    }));
    assert(run(build, 0) is Ok);
    assert(run(probe, 0) is Ok);
    let bi = run(build, 0)->Ok_0;
    let pi = run(probe, 0)->Ok_0;
    assert(materialized(exec_schema(build), bi) is Ok);
    assert(materialized(exec_schema(probe), pi) is Ok);
    let b = materialized(exec_schema(build), bi)->Ok_0;
    let p = materialized(exec_schema(probe), pi)->Ok_0;
    assert(items_of(left) == Some(bi));
    assert(items_of(right) == Some(pi));
    lemma_materialized(exec_schema(build), bi);
    lemma_materialized(exec_schema(probe), pi);
    assert(b.rows().len() == b.num_rows);
    assert(p.rows().len() == p.num_rows);
    let out = run_hash_join(b, p, keys, physical_filter(filter), JoinType::Inner, schema);
    assert(items_of(q) == Some(out->Ok_0));
    lemma_inner_join(b, p, on, filter, schema);
}

/// A stream read to its end as one batch has the rows of the stream.
pub proof fn lemma_materialized(schema: Seq<FieldView>, items: Seq<Result<BatchView, ErrorKind>>)
    requires
        materialized(schema, items) is Ok,
        tidy(items),
        forall|i: int|
            0 <= i < items.len() ==> ((#[trigger] items[i]) matches Ok(b) ==> b.columns.len()
                == schema.len()),
    ensures
        flawless(items),
        materialized(schema, items)->Ok_0.wf(),
        materialized(schema, items)->Ok_0.rows() == stream_rows(items),
        materialized(schema, items)->Ok_0.columns.len() == schema.len(),
{
    lemma_collected(items);
    let batches = collect_items(items)->Ok_0;
    assert forall|i: int| 0 <= i < batches.len() implies (#[trigger] batches[i]).wf()
        && batches[i].columns.len() == schema.len() by {
        assert(items[i] == Ok::<BatchView, ErrorKind>(batches[i]));
    }
    lemma_whole(schema, items, batches);
}

} // verus!
