//! Stable lexicographic sorting of rows by several keys.

use vstd::prelude::*;

use crate::array::ArrayRef;
use crate::float64::Float64;
use crate::logical_plan::plan::SortOptions;
use crate::text::text_order;
use crate::types::value::{value_lt, Value, ValueView};

verus! {

/// One sort key: a column, and how to order by it.
#[derive(Debug)]
pub struct SortColumn {
    pub values: ArrayRef,
    pub options: SortOptions,
}

/// The model of a sort key.
pub struct SortColumnView {
    pub values: Seq<ValueView>,
    pub options: SortOptions,
}

impl SortColumn {
    pub open spec fn view(&self) -> SortColumnView {
        SortColumnView { values: self.values@.values, options: self.options }
    }
}

/// Whether one value sorts before another of its type; NaNs sort last.
pub open spec fn value_before(a: ValueView, b: ValueView) -> bool {
    match (a, b) {
        (ValueView::Float64(x), ValueView::Float64(y)) => if y.is_nan() {
            !x.is_nan()
        } else {
            x.num_lt(y)
        },
        _ => value_lt(a, b),
    }
}

/// Whether one cell sorts before another.
pub open spec fn cell_before(a: ValueView, b: ValueView, o: SortOptions) -> bool {
    if a == ValueView::Null || b == ValueView::Null {
        if a == ValueView::Null && b == ValueView::Null {
            false
        } else {
            (a == ValueView::Null) == o.nulls_first
        }
    } else if o.descending {
        value_before(b, a)
    } else {
        value_before(a, b)
    }
}

/// Whether row `i` sorts before row `j` by the keys from `c` on.
pub open spec fn row_before(keys: Seq<SortColumnView>, i: int, j: int, c: int) -> bool
    decreases keys.len() - c,
{
    if c >= keys.len() {
        false
    } else {
        let a = keys[c].values[i];
        let b = keys[c].values[j];
        if cell_before(a, b, keys[c].options) {
            true
        } else if cell_before(b, a, keys[c].options) {
            false
        } else {
            row_before(keys, i, j, c + 1)
        }
    }
}

/// A row put into a sorted list, behind everything it does not sort before.
pub open spec fn insert_row(keys: Seq<SortColumnView>, sorted: Seq<usize>, x: usize) -> Seq<usize>
    decreases sorted.len(),
{
    if sorted.len() > 0 && row_before(keys, x as int, sorted.last() as int, 0) {
        insert_row(keys, sorted.drop_last(), x).push(sorted.last())
    } else {
        sorted.push(x)
    }
}

/// The positions of the first `n` rows in sorted order, ties in input order.
pub open spec fn sorted_order(keys: Seq<SortColumnView>, n: nat) -> Seq<usize>
    decreases n,
{
    if n == 0 {
        seq![]
    } else {
        insert_row(keys, sorted_order(keys, (n - 1) as nat), (n - 1) as usize)
    }
}

/// Whether keys have at least `n` rows, each column of one type.
pub open spec fn keys_cover(keys: Seq<SortColumnView>, n: nat) -> bool {
    forall|c: int| 0 <= c < keys.len() ==> (#[trigger] keys[c]).values.len() >= n
}

/// Whether the values of each key are of one type, nulls aside.
pub open spec fn keys_uniform(keys: Seq<SortColumnView>, n: nat) -> bool {
    forall|c: int, i: int, j: int|
        0 <= c < keys.len() && 0 <= i < n && 0 <= j < n ==> {
            ||| (#[trigger] keys[c].values[i]) == ValueView::Null
            ||| (#[trigger] keys[c].values[j]) == ValueView::Null
            ||| keys[c].values[i].data_type() == keys[c].values[j].data_type()
        }
}

proof fn lemma_insert_len(keys: Seq<SortColumnView>, sorted: Seq<usize>, x: usize)
    ensures
        insert_row(keys, sorted, x).len() == sorted.len() + 1,
        insert_row(keys, sorted, x).to_multiset() == sorted.to_multiset().insert(x),
    decreases sorted.len(),
{
    broadcast use vstd::seq_lib::group_to_multiset_ensures;

    if sorted.len() > 0 && row_before(keys, x as int, sorted.last() as int, 0) {
        lemma_insert_len(keys, sorted.drop_last(), x);
        assert(sorted =~= sorted.drop_last().push(sorted.last()));
        assert(insert_row(keys, sorted, x).to_multiset() =~= sorted.to_multiset().insert(x));
    }
}

proof fn lemma_insert_elements(keys: Seq<SortColumnView>, sorted: Seq<usize>, x: usize, n: nat)
    requires
        forall|i: int| 0 <= i < sorted.len() ==> (#[trigger] sorted[i]) < n,
        x < n,
    ensures
        insert_row(keys, sorted, x).len() == sorted.len() + 1,
        forall|i: int|
            0 <= i < insert_row(keys, sorted, x).len() ==> (#[trigger] insert_row(
                keys,
                sorted,
                x,
            )[i]) < n,
    decreases sorted.len(),
{
    if sorted.len() > 0 && row_before(keys, x as int, sorted.last() as int, 0) {
        lemma_insert_elements(keys, sorted.drop_last(), x, n);
    }
}

/// Every position of a sorted order is a row.
pub proof fn lemma_sorted_bounds(keys: Seq<SortColumnView>, n: nat)
    requires
        n <= usize::MAX,
    ensures
        sorted_order(keys, n).len() == n,
        forall|i: int| 0 <= i < n ==> (#[trigger] sorted_order(keys, n)[i]) < n,
    decreases n,
{
    if n > 0 {
        lemma_sorted_bounds(keys, (n - 1) as nat);
        let before = sorted_order(keys, (n - 1) as nat);
        assert forall|i: int| 0 <= i < before.len() implies (#[trigger] before[i]) < n by {}
        lemma_insert_elements(keys, before, (n - 1) as usize, n);
    }
}

/// The rows `0..n` in input order.
pub open spec fn identity_order(n: nat) -> Seq<usize> {
    Seq::new(n, |i: int| i as usize)
}

/// A sorted order holds every row exactly once.
pub proof fn sorting_permutes(keys: Seq<SortColumnView>, n: nat)
    requires
        n <= usize::MAX,
    ensures
        sorted_order(keys, n).to_multiset() == identity_order(n).to_multiset(),
    decreases n,
{
    broadcast use vstd::seq_lib::group_to_multiset_ensures;

    if n == 0 {
        assert(sorted_order(keys, n) =~= identity_order(n));
    } else {
        sorting_permutes(keys, (n - 1) as nat);
        lemma_insert_len(keys, sorted_order(keys, (n - 1) as nat), (n - 1) as usize);
        assert(identity_order(n) =~= identity_order((n - 1) as nat).push((n - 1) as usize));
    }
}

proof fn lemma_value_order(a: ValueView, b: ValueView, c: ValueView)
    requires
        a != ValueView::Null && b != ValueView::Null && c != ValueView::Null,
        a.data_type() == b.data_type() && b.data_type() == c.data_type(),
    ensures
        !value_before(a, a),
        !(value_before(a, b) && value_before(b, a)),
        value_before(a, b) && value_before(b, c) ==> value_before(a, c),
        // incomparability is transitive
        !value_before(a, b) && !value_before(b, c) ==> !value_before(a, c),
{
    match (a, b, c) {
        (ValueView::Utf8(x), ValueView::Utf8(y), ValueView::Utf8(z)) => {
            text_order(x, y, z);
            text_order(y, x, z);
            text_order(z, y, x);
            text_order(x, z, y);
        },
        _ => {},
    }
}

pub(crate) proof fn lemma_row_order(keys: Seq<SortColumnView>, n: nat, i: int, j: int, k: int, c: int)
    requires
        keys_cover(keys, n),
        keys_uniform(keys, n),
        0 <= i < n,
        0 <= j < n,
        0 <= k < n,
        0 <= c,
    ensures
        !(row_before(keys, i, j, c) && row_before(keys, j, i, c)),
        !row_before(keys, i, j, c) && !row_before(keys, j, k, c) ==> !row_before(keys, i, k, c),
        row_before(keys, i, j, c) && row_before(keys, j, k, c) ==> row_before(keys, i, k, c),
        row_before(keys, i, j, c) && !row_before(keys, k, j, c) ==> row_before(keys, i, k, c),
        !row_before(keys, j, i, c) && row_before(keys, j, k, c) ==> row_before(keys, i, k, c),
    decreases keys.len() - c,
{
    if c < keys.len() {
        lemma_row_order(keys, n, i, j, k, c + 1);
        let x = keys[c].values[i];
        let y = keys[c].values[j];
        let z = keys[c].values[k];
        if x != ValueView::Null && y != ValueView::Null && z != ValueView::Null {
            lemma_value_order(x, y, z);
            lemma_value_order(z, y, x);
            lemma_value_order(y, x, z);
            lemma_value_order(y, z, x);
            lemma_value_order(x, z, y);
            lemma_value_order(z, x, y);
        } else if x != ValueView::Null && y != ValueView::Null {
            lemma_value_order(x, y, x);
            lemma_value_order(y, x, y);
        } else if y != ValueView::Null && z != ValueView::Null {
            lemma_value_order(y, z, y);
            lemma_value_order(z, y, z);
        } else if x != ValueView::Null && z != ValueView::Null {
            lemma_value_order(x, z, x);
            lemma_value_order(z, x, z);
        }
    }
}

/// Whether the rows of an order never come before an earlier one, and rows
/// that tie keep their input order.
pub open spec fn in_order(keys: Seq<SortColumnView>, order: Seq<usize>) -> bool {
    forall|a: int, b: int|
        0 <= a < b < order.len() ==> {
            &&& !row_before(keys, (#[trigger] order[b]) as int, (#[trigger] order[a]) as int, 0)
            &&& !row_before(keys, order[a] as int, order[b] as int, 0) ==> order[a] < order[b]
        }
}

proof fn lemma_insert_in_order(keys: Seq<SortColumnView>, n: nat, sorted: Seq<usize>, x: usize)
    requires
        keys_cover(keys, n),
        keys_uniform(keys, n),
        in_order(keys, sorted),
        forall|i: int| 0 <= i < sorted.len() ==> (#[trigger] sorted[i]) < x,
        x < n,
    ensures
        in_order(keys, insert_row(keys, sorted, x)),
        forall|i: int|
            0 <= i < insert_row(keys, sorted, x).len() ==> {
                ||| (#[trigger] insert_row(keys, sorted, x)[i]) == x
                ||| exists|j: int| 0 <= j < sorted.len() && sorted[j] == insert_row(keys, sorted, x)[i]
            },
    decreases sorted.len(),
{
    let out = insert_row(keys, sorted, x);
    if sorted.len() > 0 && row_before(keys, x as int, sorted.last() as int, 0) {
        let front = sorted.drop_last();
        assert forall|i: int| 0 <= i < front.len() implies (#[trigger] front[i]) < x by {
            assert(front[i] == sorted[i]);
        }
        lemma_insert_in_order(keys, n, front, x);
        let inner = insert_row(keys, front, x);
        let last = sorted.last();
        assert forall|i: int| 0 <= i < out.len() implies {
            ||| (#[trigger] out[i]) == x
            ||| exists|j: int| 0 <= j < sorted.len() && sorted[j] == out[i]
        } by {
            if i < inner.len() {
                assert(out[i] == inner[i]);
                if inner[i] != x {
                    let j = choose|j: int| 0 <= j < front.len() && front[j] == inner[i];
                    assert(sorted[j] == out[i]);
                }
            } else {
                assert(sorted[sorted.len() - 1] == out[i]);
            }
        }
        assert forall|a: int, b: int| 0 <= a < b < out.len() implies {
            &&& !row_before(keys, (#[trigger] out[b]) as int, (#[trigger] out[a]) as int, 0)
            &&& !row_before(keys, out[a] as int, out[b] as int, 0) ==> out[a] < out[b]
        } by {
            if b < inner.len() {
                assert(out[a] == inner[a] && out[b] == inner[b]);
            } else {
                assert(out[b] == last);
                assert(out[a] == inner[a]);
                if inner[a] == x {
                    lemma_row_order(keys, n, x as int, last as int, x as int, 0);
                } else {
                    let j = choose|j: int| 0 <= j < front.len() && front[j] == inner[a];
                    assert(sorted[j] == front[j]);
                    assert(!row_before(
                        keys,
                        sorted[sorted.len() - 1] as int,
                        sorted[j] as int,
                        0,
                    ));
                }
            }
        }
    } else {
        assert forall|i: int| 0 <= i < out.len() implies {
            ||| (#[trigger] out[i]) == x
            ||| exists|j: int| 0 <= j < sorted.len() && sorted[j] == out[i]
        } by {
            if i < sorted.len() {
                assert(sorted[i] == out[i]);
            }
        }
        assert forall|a: int, b: int| 0 <= a < b < out.len() implies {
            &&& !row_before(keys, (#[trigger] out[b]) as int, (#[trigger] out[a]) as int, 0)
            &&& !row_before(keys, out[a] as int, out[b] as int, 0) ==> out[a] < out[b]
        } by {
            if b < sorted.len() {
                assert(out[a] == sorted[a] && out[b] == sorted[b]);
            } else {
                assert(out[b] == x);
                assert(out[a] == sorted[a]);
                let last = sorted.last();
                if a < sorted.len() - 1 {
                    assert(!row_before(
                        keys,
                        sorted[sorted.len() - 1] as int,
                        sorted[a] as int,
                        0,
                    ));
                }
                lemma_row_order(keys, n, x as int, last as int, sorted[a] as int, 0);
            }
        }
    }
}

/// A sorted order is in order, and it is stable.
pub proof fn sorting_orders(keys: Seq<SortColumnView>, n: nat)
    requires
        n <= usize::MAX,
        keys_cover(keys, n),
        keys_uniform(keys, n),
    ensures
        in_order(keys, sorted_order(keys, n)),
    decreases n,
{
    if n > 0 {
        let m = (n - 1) as nat;
        assert(keys_cover(keys, m));
        assert(keys_uniform(keys, m));
        sorting_orders(keys, m);
        lemma_sorted_bounds(keys, m);
        lemma_insert_in_order(keys, n, sorted_order(keys, m), m as usize);
    }
}

// ---------------------------------------------------------------------------

fn value_sorts_before(a: &Value, b: &Value) -> (r: bool)
    ensures
        r == value_before(a@, b@),
{
    match (a, b) {
        (Value::Float64(x), Value::Float64(y)) => {
            if y.nan() {
                !x.nan()
            } else {
                x.lt_num(*y)
            }
        },
        _ => a.less(b),
    }
}

fn cell_sorts_before(a: &Value, b: &Value, o: SortOptions) -> (r: bool)
    ensures
        r == cell_before(a@, b@, o),
{
    let an = a.is_null();
    let bn = b.is_null();
    if an || bn {
        if an && bn {
            false
        } else {
            an == o.nulls_first
        }
    } else if o.descending {
        value_sorts_before(b, a)
    } else {
        value_sorts_before(a, b)
    }
}

/// The models of sort keys.
pub open spec fn sort_views(keys: Seq<SortColumn>) -> Seq<SortColumnView> {
    Seq::new(keys.len(), |i: int| keys[i]@)
}

fn row_sorts_before(keys: &Vec<SortColumn>, i: usize, j: usize, n: usize) -> (r: bool)
    requires
        keys_cover(sort_views(keys@), n as nat),
        i < n,
        j < n,
    ensures
        r == row_before(sort_views(keys@), i as int, j as int, 0),
{
    let ghost views = sort_views(keys@);
    let mut c: usize = 0;
    while c < keys.len()
        invariant
            c <= keys@.len(),
            views == sort_views(keys@),
            keys_cover(views, n as nat),
            i < n,
            j < n,
            row_before(views, i as int, j as int, 0) == row_before(views, i as int, j as int, c as int),
        decreases keys@.len() - c,
    {
        assert(views[c as int] == keys@[c as int]@);
        let a = keys[c].values.value(i);
        let b = keys[c].values.value(j);
        let o = keys[c].options;
        if cell_sorts_before(&a, &b, o) {
            return true;
        }
        if cell_sorts_before(&b, &a, o) {
            return false;
        }
        c = c + 1;
    }
    false
}

/// The rows `0..n` in stable sorted order.
pub fn lexsort_to_indices(keys: &Vec<SortColumn>, n: usize) -> (r: Vec<usize>)
    requires
        keys_cover(sort_views(keys@), n as nat),
    ensures
        r@ == sorted_order(sort_views(keys@), n as nat),
        r@.len() == n,
        forall|i: int| 0 <= i < n ==> (#[trigger] r@[i]) < n,
{
    let ghost views = sort_views(keys@);
    let mut out: Vec<usize> = Vec::new();
    let mut x: usize = 0;
    while x < n
        invariant
            x <= n,
            views == sort_views(keys@),
            keys_cover(views, n as nat),
            out@ == sorted_order(views, x as nat),
        decreases n - x,
    {
        proof {
            lemma_sorted_bounds(views, x as nat);
        }
        let ghost sorted = out@;
        let mut p: usize = out.len();
        assert(sorted.take(p as int) =~= sorted);
        assert(insert_row(views, sorted, x) =~= insert_row(views, sorted.take(p as int), x)
            + sorted.skip(p as int));
        let mut searching = true;
        while searching && p > 0
            invariant
                p <= out@.len(),
                x < n,
                out@ == sorted,
                out@.len() == x,
                views == sort_views(keys@),
                keys_cover(views, n as nat),
                forall|i: int| 0 <= i < x ==> (#[trigger] out@[i]) < x,
                insert_row(views, sorted, x) == insert_row(views, sorted.take(p as int), x)
                    + sorted.skip(p as int),
                !searching ==> p > 0 && !row_before(views, x as int, sorted[p - 1] as int, 0),
            decreases p, (if searching { 1int } else { 0int }),
        {
            if row_sorts_before(keys, x, out[p - 1], n) {
                proof {
                    let t = sorted.take(p as int);
                    assert(t.drop_last() =~= sorted.take(p - 1));
                    assert(t.last() == sorted[p - 1]);
                    assert(insert_row(views, sorted, x) =~= insert_row(
                        views,
                        sorted.take(p - 1),
                        x,
                    ) + sorted.skip(p - 1));
                }
                p = p - 1;
            } else {
                searching = false;
            }
        }
        proof {
            let t = sorted.take(p as int);
            if p > 0 {
                assert(t.last() == sorted[p - 1]);
            }
            assert(insert_row(views, t, x) == t.push(x));
        }
        out.insert(p, x);
        assert(out@ =~= sorted.take(p as int).push(x) + sorted.skip(p as int));
        x = x + 1;
    }
    proof {
        lemma_sorted_bounds(views, n as nat);
    }
    out
}

} // verus!
