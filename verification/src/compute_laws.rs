//! Kernels row by row: each output row comes from its own input rows and from
//! no others.

use vstd::prelude::*;

use crate::array::ArrayView;
use crate::batch::{slice_batch, BatchView};
use crate::compute::{
    binary_columns, cast_column, collect_rows, column_array, column_scalar, concat_values, null_column,
    selected, take_values, unary_column, ColumnView,
};
use crate::error::ErrorKind;
use crate::types::coercion::{BinaryOp, UnaryOp};
use crate::types::data_type::DataType;
use crate::types::value::{binary_value, cast_value, unary_value, ValueView};

verus! {

/// A scalar beside a column stands for its value in every row.
pub open spec fn in_row(c: ColumnView, i: int) -> ValueView {
    if c.scalar {
        c.values[0]
    } else {
        c.values[i]
    }
}

proof fn lemma_collected(n: nat, f: spec_fn(int) -> Result<ValueView, ErrorKind>)
    ensures
        match collect_rows(n, f) {
            Ok(s) => s.len() == n && forall|i: int|
                0 <= i < n ==> #[trigger] f(i) == Ok::<ValueView, ErrorKind>(s[i]),
            Err(k) => exists|i: int|
                0 <= i < n && #[trigger] f(i) == Err::<ValueView, ErrorKind>(k) && forall|j: int|
                    0 <= j < i ==> (#[trigger] f(j)) is Ok,
        },
    decreases n,
{
    if n > 0 {
        lemma_collected((n - 1) as nat, f);
        match collect_rows((n - 1) as nat, f) {
            Ok(s) => {
                match f(n - 1) {
                    Ok(v) => {
                        let t = s.push(v);
                        assert forall|i: int| 0 <= i < n implies #[trigger] f(i) == Ok::<
                            ValueView,
                            ErrorKind,
                        >(t[i]) by {
                            if i < n - 1 {
                                assert(t[i] == s[i]);
                            }
                        }
                    },
                    Err(k) => {
                        assert(f(n - 1) == Err::<ValueView, ErrorKind>(k));
                    },
                }
            },
            Err(k) => {
                let i = choose|i: int|
                    0 <= i < n - 1 && #[trigger] f(i) == Err::<ValueView, ErrorKind>(k) && forall|
                        j: int,
                    | 0 <= j < i ==> (#[trigger] f(j)) is Ok;
                assert(f(i) == Err::<ValueView, ErrorKind>(k));
            },
        }
    }
}

/// A binary kernel gives in every row what its operator gives for the values of
/// that row; a scalar operand counts in every row. Where one row has an error,
/// so has the kernel.
pub proof fn binary_kernels_work_row_by_row(op: BinaryOp, l: ColumnView, r: ColumnView, i: int)
    requires
        l.data_type == r.data_type,
    ensures
        match binary_columns(op, l, r) {
            Ok(c) => {
                &&& c.scalar <==> l.scalar && r.scalar
                &&& !l.scalar ==> c.values.len() == l.values.len()
                &&& !r.scalar ==> c.values.len() == r.values.len()
                &&& l.scalar && r.scalar ==> c.values.len() == 1
                &&& 0 <= i < c.values.len() ==> binary_value(op, in_row(l, i), in_row(r, i)) == Ok::<
                    ValueView,
                    ErrorKind,
                >(c.values[i])
            },
            Err(k) => true,
        },
        op.spec_is_comparison() && (l.scalar || r.scalar || l.values.len() == r.values.len()) ==> (
        binary_columns(op, l, r) matches Err(k) ==> exists|j: int|
            0 <= j && #[trigger] binary_value(op, in_row(l, j), in_row(r, j)) == Err::<
                ValueView,
                ErrorKind,
            >(k)),
        !l.scalar && !r.scalar && l.values.len() != r.values.len() ==> binary_columns(op, l, r) is Err,
{
    let f = |j: int| binary_value(op, l.at(j), r.at(j));
    let n = if l.scalar && r.scalar {
        1
    } else if l.scalar {
        r.values.len()
    } else {
        l.values.len()
    };
    lemma_collected(n, f);
    match collect_rows(n, f) {
        Ok(s) => {
            if 0 <= i < n {
                assert(f(i) == Ok::<ValueView, ErrorKind>(s[i]));
            }
        },
        Err(k) => {
            let j = choose|j: int| 0 <= j < n && #[trigger] f(j) == Err::<ValueView, ErrorKind>(k);
            assert(binary_value(op, in_row(l, j), in_row(r, j)) == Err::<ValueView, ErrorKind>(k));
        },
    }
}

/// So do negation and `NOT`, casts and null tests.
pub proof fn other_kernels_work_row_by_row(c: ColumnView, op: UnaryOp, to: DataType, i: int)
    requires
        0 <= i < c.values.len(),
    ensures
        unary_column(op, c) matches Ok(r) ==> r.values.len() == c.values.len() && unary_value(
            op,
            c.values[i],
        ) == Ok::<ValueView, ErrorKind>(r.values[i]),
        cast_column(c, to) matches Ok(r) ==> r.values.len() == c.values.len() && r.data_type == to
            && cast_value(c.values[i], to) == Ok::<ValueView, ErrorKind>(r.values[i]),
        null_column(c, false).values.len() == c.values.len(),
        null_column(c, true).values.len() == c.values.len(),
        null_column(c, false).values[i] == ValueView::Boolean(true) <==> c.values[i]
            == ValueView::Null,
        null_column(c, true).values[i] == ValueView::Boolean(true) <==> c.values[i]
            != ValueView::Null,
        null_column(c, false).values[i] is Boolean && null_column(c, true).values[i] is Boolean,
{
    let f = |j: int| unary_value(op, c.values[j]);
    let g = |j: int| cast_value(c.values[j], to);
    lemma_collected(c.values.len(), f);
    lemma_collected(c.values.len(), g);
    assert(f(i) == unary_value(op, c.values[i]));
    assert(g(i) == cast_value(c.values[i], to));
}

/// Spread over rows, a column is itself and a scalar its value in each of them.
pub proof fn scalars_spread_over_rows(a: ArrayView, t: DataType, v: ValueView, n: nat, i: int)
    requires
        0 <= i < n,
    ensures
        column_array(a).spread(n) == a,
        column_scalar(t, v).spread(n).values.len() == n,
        column_scalar(t, v).spread(n).values[i] == v,
        column_scalar(t, v).spread(n).data_type == t,
{
}

/// Taking gives the values at the places asked for, in the order asked for, and
/// a null for no place. Taking from what was taken is taking once.
pub proof fn taking_goes_by_the_places(
    values: Seq<ValueView>,
    first: Seq<Option<usize>>,
    then: Seq<Option<usize>>,
    i: int,
)
    requires
        0 <= i < then.len(),
        then[i] matches Some(k) ==> k < first.len(),
    ensures
        take_values(values, then).len() == then.len(),
        then[i] is None ==> take_values(values, then)[i] == ValueView::Null,
        then[i] matches Some(k) ==> take_values(values, then)[i] == values[k as int],
        take_values(take_values(values, first), then)[i] == (match then[i] {
            Some(k) => match first[k as int] {
                Some(m) => values[m as int],
                None => ValueView::Null,
            },
            None => ValueView::Null,
        }),
{
}

/// A mask selects the rows where it is true, each once and in their order; where
/// it is false or null it selects none.
pub proof fn masks_select_what_is_true(mask: Seq<ValueView>, k: usize)
    requires
        mask.len() <= usize::MAX,
    ensures
        selected(mask).contains(Some(k)) <==> k < mask.len() && mask[k as int] == ValueView::Boolean(
            true,
        ),
        forall|i: int| 0 <= i < selected(mask).len() ==> (#[trigger] selected(mask)[i]) is Some
            && selected(mask)[i]->0 < mask.len(),
        forall|i: int, j: int|
            0 <= i < j < selected(mask).len() ==> (#[trigger] selected(mask)[i])->0 < (
            #[trigger] selected(mask)[j])->0,
    decreases mask.len(),
{
    if mask.len() > 0 {
        let rest = mask.drop_last();
        masks_select_what_is_true(rest, k);
        let before = selected(rest);
        let now = selected(mask);
        if k < rest.len() {
            assert(rest[k as int] == mask[k as int]);
        }
        if before.contains(Some(k)) {
            let i = choose|i: int| 0 <= i < before.len() && before[i] == Some(k);
            assert(now[i] == Some(k));
        }
        if now.contains(Some(k)) {
            let i = choose|i: int| 0 <= i < now.len() && now[i] == Some(k);
            if i < before.len() {
                assert(before[i] == Some(k));
            }
        }
        if mask.last() == ValueView::Boolean(true) {
            assert(now[before.len() as int] == Some((mask.len() - 1) as usize));
        }
        assert forall|i: int, j: int| 0 <= i < j < now.len() implies (#[trigger] now[i])->0 < (
        #[trigger] now[j])->0 by {
            assert(now[i] == before[i]);
            if j < before.len() {
                assert(now[j] == before[j]);
            }
        }
    }
}

/// Arrays put together hold the values of the first, then those of the second,
/// and so on: one more array adds its values at the end.
pub proof fn arrays_are_put_end_to_end(parts: Seq<ArrayView>, last: ArrayView)
    ensures
        concat_values(seq![]) == Seq::<ValueView>::empty(),
        concat_values(parts.push(last)) == concat_values(parts) + last.values,
{
    assert(parts.push(last).drop_last() =~= parts);
}

/// A slice of a batch holds the rows from its first one on, each as it was.
pub proof fn slices_hold_their_rows(b: BatchView, offset: int, len: int, i: int)
    requires
        b.wf(),
        b.columns.len() > 0,
        0 <= offset,
        0 <= i < len,
        offset + len <= b.num_rows,
    ensures
        slice_batch(b, offset, len).num_rows == len,
        slice_batch(b, offset, len).schema == b.schema,
        slice_batch(b, offset, len).row(i) == b.row(offset + i),
{
    assert(slice_batch(b, offset, len).row(i) =~= b.row(offset + i));
}

} // verus!
