//! The order that sorting goes by: values by `<`, nulls where they are asked
//! for, and the first key that tells two rows apart.

use vstd::prelude::*;

use crate::lexsort::{
    cell_before, in_order, keys_cover, keys_uniform, row_before, sorted_order, sorting_orders, SortColumnView,
};
use crate::logical_plan::plan::SortOptions;
use crate::types::coercion::BinaryOp;
use crate::types::value::ValueView;
use crate::types::value_laws::holds;

verus! {

/// Whether a value is a double that is no number.
pub open spec fn no_number(v: ValueView) -> bool {
    v matches ValueView::Float64(x) && x.is_nan()
}

/// Two values sort as `<` says, the smaller one first; descending, the greater
/// one first.
pub proof fn values_sort_by_less_than(a: ValueView, b: ValueView, o: SortOptions)
    requires
        a != ValueView::Null,
        b != ValueView::Null,
        a.data_type() == b.data_type(),
        !no_number(a),
        !no_number(b),
    ensures
        !o.descending ==> (cell_before(a, b, o) <==> holds(BinaryOp::Lt, a, b)),
        o.descending ==> (cell_before(a, b, o) <==> holds(BinaryOp::Lt, b, a)),
{
}

/// What is no number sorts as if it were greater than any number, and is no
/// less than another of its kind.
pub proof fn what_is_no_number_is_greatest(a: ValueView, b: ValueView, o: SortOptions)
    requires
        a is Float64,
        !no_number(a),
        no_number(b),
    ensures
        cell_before(a, b, o) == !o.descending,
        cell_before(b, a, o) == o.descending,
        !cell_before(b, b, o),
{
}

/// Nulls come first where that is asked for and last where it is not, whatever
/// the direction of the values. Two nulls are equal.
pub proof fn nulls_come_where_they_are_asked_for(v: ValueView, o: SortOptions)
    requires
        v != ValueView::Null,
    ensures
        cell_before(ValueView::Null, v, o) <==> o.nulls_first,
        cell_before(v, ValueView::Null, o) <==> !o.nulls_first,
        !cell_before(ValueView::Null, ValueView::Null, o),
{
}

/// Whether a key leaves two rows in a tie.
pub open spec fn ties(k: SortColumnView, i: int, j: int) -> bool {
    !cell_before(k.values[i], k.values[j], k.options) && !cell_before(
        k.values[j],
        k.values[i],
        k.options,
    )
}

/// One row sorts before another exactly where some key puts it first and all
/// the keys before that one leave the two in a tie.
pub proof fn the_first_difference_decides(keys: Seq<SortColumnView>, i: int, j: int, c: int)
    requires
        0 <= c <= keys.len(),
    ensures
        row_before(keys, i, j, c) <==> exists|k: int|
            c <= k < keys.len() && cell_before(
                (#[trigger] keys[k]).values[i],
                keys[k].values[j],
                keys[k].options,
            ) && forall|d: int| c <= d < k ==> ties(#[trigger] keys[d], i, j),
    decreases keys.len() - c,
{
    if c < keys.len() {
        the_first_difference_decides(keys, i, j, c + 1);
        let a = keys[c].values[i];
        let b = keys[c].values[j];
        let o = keys[c].options;
        if cell_before(a, b, o) {
            assert(cell_before(keys[c].values[i], keys[c].values[j], keys[c].options));
        } else if !cell_before(b, a, o) {
            assert(ties(keys[c], i, j));
            if row_before(keys, i, j, c + 1) {
                let k = choose|k: int|
                    c + 1 <= k < keys.len() && cell_before(
                        (#[trigger] keys[k]).values[i],
                        keys[k].values[j],
                        keys[k].options,
                    ) && forall|d: int| c + 1 <= d < k ==> ties(#[trigger] keys[d], i, j);
                assert forall|d: int| c <= d < k implies ties(#[trigger] keys[d], i, j) by {}
            }
            if exists|k: int|
                c <= k < keys.len() && cell_before(
                    (#[trigger] keys[k]).values[i],
                    keys[k].values[j],
                    keys[k].options,
                ) && forall|d: int| c <= d < k ==> ties(#[trigger] keys[d], i, j) {
                let k = choose|k: int|
                    c <= k < keys.len() && cell_before(
                        (#[trigger] keys[k]).values[i],
                        keys[k].values[j],
                        keys[k].options,
                    ) && forall|d: int| c <= d < k ==> ties(#[trigger] keys[d], i, j);
                assert(k != c);
                assert forall|d: int| c + 1 <= d < k implies ties(#[trigger] keys[d], i, j) by {}
            }
        } else {
            if exists|k: int|
                c <= k < keys.len() && cell_before(
                    (#[trigger] keys[k]).values[i],
                    keys[k].values[j],
                    keys[k].options,
                ) && forall|d: int| c <= d < k ==> ties(#[trigger] keys[d], i, j) {
                let k = choose|k: int|
                    c <= k < keys.len() && cell_before(
                        (#[trigger] keys[k]).values[i],
                        keys[k].values[j],
                        keys[k].options,
                    ) && forall|d: int| c <= d < k ==> ties(#[trigger] keys[d], i, j);
                if k > c {
                    assert(ties(keys[c], i, j));
                }
            }
        }
    }
}

/// Integers sorted in ascending order never fall, and in descending order never
/// rise; equal ones keep their order.
pub proof fn integers_come_in_order(key: SortColumnView, a: int, b: int)
    requires
        key.values.len() <= usize::MAX,
        forall|i: int| 0 <= i < key.values.len() ==> (#[trigger] key.values[i]) is Int64,
        0 <= a < b < sorted_order(seq![key], key.values.len()).len(),
    ensures
        ({
            let order = sorted_order(seq![key], key.values.len());
            &&& order.len() == key.values.len()
            &&& order[a] < key.values.len() && order[b] < key.values.len()
            &&& {
                let x = key.values[order[a] as int]->Int64_0;
                let y = key.values[order[b] as int]->Int64_0;
                &&& !key.options.descending ==> x <= y
                &&& key.options.descending ==> x >= y
                &&& x == y ==> order[a] < order[b]
            }
        }),
{
    let keys = seq![key];
    let n = key.values.len();
    let order = sorted_order(keys, n);
    assert(keys_cover(keys, n));
    assert(keys_uniform(keys, n));
    sorting_orders(keys, n);
    lemma_order_in_range(keys, n);
    assert(in_order(keys, order));
    let p = order[a] as int;
    let q = order[b] as int;
    assert(order[a] < n && order[b] < n);
    assert(!row_before(keys, q, p, 0));
    assert(!row_before(keys, p, q, 0) ==> order[a] < order[b]);
    the_first_difference_decides(keys, p, q, 0);
    the_first_difference_decides(keys, q, p, 0);
    let x = key.values[p];
    let y = key.values[q];
    assert(x is Int64 && y is Int64);
    values_sort_by_less_than(x, y, key.options);
    values_sort_by_less_than(y, x, key.options);
    if cell_before(y, x, key.options) {
        assert(cell_before(keys[0].values[q], keys[0].values[p], keys[0].options));
    }
    if row_before(keys, p, q, 0) {
        assert(cell_before(keys[0].values[p], keys[0].values[q], keys[0].options));
    }
}

proof fn lemma_order_in_range(keys: Seq<SortColumnView>, n: nat)
    requires
        n <= usize::MAX,
    ensures
        sorted_order(keys, n).len() == n,
        forall|i: int| 0 <= i < n ==> (#[trigger] sorted_order(keys, n)[i]) < n,
    decreases n,
{
    if n > 0 {
        lemma_order_in_range(keys, (n - 1) as nat);
        lemma_insert_in_range(keys, sorted_order(keys, (n - 1) as nat), (n - 1) as usize, n);
    }
}

proof fn lemma_insert_in_range(keys: Seq<SortColumnView>, sorted: Seq<usize>, x: usize, n: nat)
    requires
        x < n,
        forall|i: int| 0 <= i < sorted.len() ==> (#[trigger] sorted[i]) < n,
    ensures
        ({
            let r = crate::lexsort::insert_row(keys, sorted, x);
            &&& r.len() == sorted.len() + 1
            &&& forall|i: int| 0 <= i < r.len() ==> (#[trigger] r[i]) < n
        }),
    decreases sorted.len(),
{
    if sorted.len() > 0 && row_before(keys, x as int, sorted.last() as int, 0) {
        let t = sorted.drop_last();
        assert forall|i: int| 0 <= i < t.len() implies (#[trigger] t[i]) < n by {
            assert(t[i] == sorted[i]);
        }
        lemma_insert_in_range(keys, t, x, n);
        assert(sorted[sorted.len() - 1] < n);
    }
}

} // verus!
