//! What a sort delivers, row by row.

use vstd::prelude::*;

use crate::batch::{batch_of, first_len, BatchView};
use crate::error::ErrorKind;
use crate::expr::expr::{eval, ExprView};
use crate::lexsort::{
    cell_before, insert_row, keys_cover, keys_uniform, lemma_row_order, lemma_sorted_bounds,
    row_before, sorted_order, SortColumnView,
};
use crate::logical_plan::plan::{plan_schema, PlanView, SortExprView};
use crate::physical_expr::expr::PhysicalExprView;
use crate::physical_plan::filter::{filter_stream, lemma_taken_fit};
use crate::physical_plan::limit::stream_rows;
use crate::physical_plan::plan::{
    collect_items, concat_column, eval_all, exec_schema, gathered, lemma_concat_len, run,
    take_columns, ExecView,
};
use crate::physical_plan::planner::{
    exec_of, operators_keep_the_schema_of_plans, physical_all, physical_keys, physical_of,
};
use crate::physical_plan::rows::{
    all_defined, delivered, flawless, items_of, kept, lemma_eval_all, lemma_stream_rows_concat,
    lemma_stream_rows_one, runs_tidily, Row,
};
use crate::physical_plan::sort::{key_columns, key_exprs, present, run_sort};
use crate::types::data_type::DataType;
use crate::types::schema::FieldView;
use crate::types::value::ValueView;

verus! {

/// The value of a sort key on a row.
pub open spec fn key_of(k: SortExprView, r: Row) -> ValueView {
    eval(k.expr, r)->Ok_0
}

/// Whether one row sorts before another by the keys from `c` on.
pub open spec fn sorts_before(keys: Seq<SortExprView>, a: Row, b: Row, c: int) -> bool
    decreases keys.len() - c,
{
    if c >= keys.len() {
        false
    } else if cell_before(key_of(keys[c], a), key_of(keys[c], b), keys[c].options) {
        true
    } else if cell_before(key_of(keys[c], b), key_of(keys[c], a), keys[c].options) {
        false
    } else {
        sorts_before(keys, a, b, c + 1)
    }
}

/// A row put into a sorted list, behind everything it does not sort before.
pub open spec fn put(keys: Seq<SortExprView>, sorted: Seq<Row>, r: Row) -> Seq<Row>
    decreases sorted.len(),
{
    if sorted.len() > 0 && sorts_before(keys, r, sorted.last(), 0) {
        put(keys, sorted.drop_last(), r).push(sorted.last())
    } else {
        sorted.push(r)
    }
}

/// Rows in sorted order, ties in input order.
pub open spec fn sorted_rows(keys: Seq<SortExprView>, rows: Seq<Row>) -> Seq<Row>
    decreases rows.len(),
{
    if rows.len() == 0 {
        seq![]
    } else {
        put(keys, sorted_rows(keys, rows.drop_last()), rows.last())
    }
}

/// Whether the keys of a row are of given types, or null.
pub open spec fn keys_of_types(keys: Seq<SortExprView>, types: Seq<DataType>, r: Row) -> bool {
    forall|c: int| 0 <= c < keys.len() ==> (#[trigger] key_of(keys[c], r)).fits(types[c])
}

/// Whether that holds of every row.
pub open spec fn all_of_types(keys: Seq<SortExprView>, types: Seq<DataType>, rows: Seq<Row>) -> bool {
    forall|i: int| 0 <= i < rows.len() ==> keys_of_types(keys, types, #[trigger] rows[i])
}

/// Whether no row of a list sorts before an earlier one.
pub open spec fn rows_in_order(keys: Seq<SortExprView>, s: Seq<Row>) -> bool {
    forall|i: int, j: int|
        0 <= i < j < s.len() ==> !sorts_before(keys, #[trigger] s[j], #[trigger] s[i], 0)
}

// ---------------------------------------------------------------------------
// The order of rows

/// Key columns that hold the keys of three rows.
spec fn three(keys: Seq<SortExprView>, a: Row, b: Row, d: Row) -> Seq<SortColumnView> {
    Seq::new(
        keys.len(),
        |c: int|
            (SortColumnView {
                values: seq![key_of(keys[c], a), key_of(keys[c], b), key_of(keys[c], d)],
                options: keys[c].options,
            }),
    )
}

proof fn lemma_same_order(
    keys: Seq<SortExprView>,
    columns: Seq<SortColumnView>,
    a: Row,
    b: Row,
    i: int,
    j: int,
    c: int,
)
    requires
        0 <= c,
        columns.len() == keys.len(),
        forall|d: int|
            0 <= d < keys.len() ==> (#[trigger] columns[d]).options == keys[d].options
                && columns[d].values[i] == key_of(keys[d], a) && columns[d].values[j] == key_of(
                keys[d],
                b,
            ),
    ensures
        row_before(columns, i, j, c) == sorts_before(keys, a, b, c),
    decreases keys.len() - c,
{
    if c < keys.len() {
        assert(columns[c].options == keys[c].options);
        lemma_same_order(keys, columns, a, b, i, j, c + 1);
    }
}

proof fn lemma_order(keys: Seq<SortExprView>, types: Seq<DataType>, a: Row, b: Row, d: Row)
    requires
        keys_of_types(keys, types, a),
        keys_of_types(keys, types, b),
        keys_of_types(keys, types, d),
    ensures
        !(sorts_before(keys, a, b, 0) && sorts_before(keys, b, a, 0)),
        sorts_before(keys, a, b, 0) && !sorts_before(keys, d, b, 0) ==> sorts_before(keys, a, d, 0),
{
    let t = three(keys, a, b, d);
    assert(keys_cover(t, 3));
    assert forall|c: int, i: int, j: int| 0 <= c < t.len() && 0 <= i < 3 && 0 <= j < 3 implies {
        ||| (#[trigger] t[c].values[i]) == ValueView::Null
        ||| (#[trigger] t[c].values[j]) == ValueView::Null
        ||| t[c].values[i].data_type() == t[c].values[j].data_type()
    } by {
        assert(key_of(keys[c], a).fits(types[c]));
        assert(key_of(keys[c], b).fits(types[c]));
        assert(key_of(keys[c], d).fits(types[c]));
        assert(i == 0 || i == 1 || i == 2);
        assert(j == 0 || j == 1 || j == 2);
    }
    assert(keys_uniform(t, 3));
    lemma_row_order(t, 3, 0, 1, 2, 0);
    lemma_same_order(keys, t, a, b, 0, 1, 0);
    lemma_same_order(keys, t, b, a, 1, 0, 0);
    lemma_same_order(keys, t, d, b, 2, 1, 0);
    lemma_same_order(keys, t, a, d, 0, 2, 0);
}

proof fn lemma_put(keys: Seq<SortExprView>, types: Seq<DataType>, s: Seq<Row>, r: Row)
    requires
        all_of_types(keys, types, s),
        keys_of_types(keys, types, r),
        rows_in_order(keys, s),
    ensures
        all_of_types(keys, types, put(keys, s, r)),
        rows_in_order(keys, put(keys, s, r)),
        forall|i: int|
            0 <= i < put(keys, s, r).len() ==> {
                ||| (#[trigger] put(keys, s, r)[i]) == r
                ||| exists|j: int| 0 <= j < s.len() && s[j] == put(keys, s, r)[i]
            },
    decreases s.len(),
{
    let out = put(keys, s, r);
    if s.len() > 0 && sorts_before(keys, r, s.last(), 0) {
        let front = s.drop_last();
        let last = s.last();
        assert(last == s[s.len() - 1]);
        assert forall|i: int| 0 <= i < front.len() implies keys_of_types(
            keys,
            types,
            #[trigger] front[i],
        ) by {
            assert(front[i] == s[i]);
        }
        assert forall|i: int, j: int| 0 <= i < j < front.len() implies !sorts_before(
            keys,
            #[trigger] front[j],
            #[trigger] front[i],
            0,
        ) by {
            assert(front[i] == s[i] && front[j] == s[j]);
        }
        lemma_put(keys, types, front, r);
        let inner = put(keys, front, r);
        assert forall|i: int| 0 <= i < out.len() implies {
            &&& keys_of_types(keys, types, #[trigger] out[i])
            &&& out[i] == r || exists|j: int| 0 <= j < s.len() && s[j] == out[i]
        } by {
            if i < inner.len() {
                assert(out[i] == inner[i]);
                if inner[i] != r {
                    let j = choose|j: int| 0 <= j < front.len() && front[j] == inner[i];
                    assert(s[j] == out[i]);
                }
            } else {
                assert(s[s.len() - 1] == out[i]);
            }
        }
        assert forall|i: int, j: int| 0 <= i < j < out.len() implies !sorts_before(
            keys,
            #[trigger] out[j],
            #[trigger] out[i],
            0,
        ) by {
            if j < inner.len() {
                assert(out[i] == inner[i] && out[j] == inner[j]);
            } else {
                assert(out[j] == last);
                assert(out[i] == inner[i]);
                if inner[i] == r {
                    lemma_order(keys, types, r, last, r);
                } else {
                    let k = choose|k: int| 0 <= k < front.len() && front[k] == inner[i];
                    assert(s[k] == front[k]);
                    assert(!sorts_before(keys, s[s.len() - 1], s[k], 0));
                }
            }
        }
    } else {
        assert forall|i: int| 0 <= i < out.len() implies {
            &&& keys_of_types(keys, types, #[trigger] out[i])
            &&& out[i] == r || exists|j: int| 0 <= j < s.len() && s[j] == out[i]
        } by {
            if i < s.len() {
                assert(s[i] == out[i]);
            }
        }
        assert forall|i: int, j: int| 0 <= i < j < out.len() implies !sorts_before(
            keys,
            #[trigger] out[j],
            #[trigger] out[i],
            0,
        ) by {
            if j < s.len() {
                assert(out[i] == s[i] && out[j] == s[j]);
            } else {
                assert(out[i] == s[i]);
                let last = s[s.len() - 1];
                if i < s.len() - 1 {
                    assert(!sorts_before(keys, s[s.len() - 1], s[i], 0));
                    lemma_order(keys, types, r, s[i], last);
                }
            }
        }
    }
}

/// Sorted rows are in order, and of the types they had.
pub proof fn lemma_sorted_rows_in_order(
    keys: Seq<SortExprView>,
    types: Seq<DataType>,
    rows: Seq<Row>,
)
    requires
        all_of_types(keys, types, rows),
    ensures
        all_of_types(keys, types, sorted_rows(keys, rows)),
        rows_in_order(keys, sorted_rows(keys, rows)),
    decreases rows.len(),
{
    if rows.len() > 0 {
        let rest = rows.drop_last();
        assert forall|i: int| 0 <= i < rest.len() implies keys_of_types(
            keys,
            types,
            #[trigger] rest[i],
        ) by {
            assert(rest[i] == rows[i]);
        }
        lemma_sorted_rows_in_order(keys, types, rest);
        assert(rows.last() == rows[rows.len() - 1]);
        lemma_put(keys, types, sorted_rows(keys, rest), rows.last());
    }
}

// ---------------------------------------------------------------------------
// Filtering and sorting

/// A row that does not pass leaves no trace where it was put.
proof fn lemma_put_rejected(e: ExprView, keys: Seq<SortExprView>, s: Seq<Row>, r: Row)
    requires
        eval(e, r) != Ok::<ValueView, ErrorKind>(ValueView::Boolean(true)),
    ensures
        kept(e, put(keys, s, r)) == kept(e, s),
    decreases s.len(),
{
    if s.len() > 0 && sorts_before(keys, r, s.last(), 0) {
        lemma_put_rejected(e, keys, s.drop_last(), r);
        let inner = put(keys, s.drop_last(), r);
        assert(inner.push(s.last()).drop_last() =~= inner);
    } else {
        assert(s.push(r).drop_last() =~= s);
    }
}

proof fn lemma_kept_from(e: ExprView, s: Seq<Row>)
    ensures
        forall|i: int|
            0 <= i < kept(e, s).len() ==> exists|j: int|
                0 <= j < s.len() && s[j] == #[trigger] kept(e, s)[i],
    decreases s.len(),
{
    if s.len() > 0 {
        lemma_kept_from(e, s.drop_last());
        let before = kept(e, s.drop_last());
        let all = kept(e, s);
        assert forall|i: int| 0 <= i < all.len() implies exists|j: int|
            0 <= j < s.len() && s[j] == #[trigger] all[i] by {
            if i < before.len() {
                assert(all[i] == before[i]);
                let j = choose|j: int| 0 <= j < s.drop_last().len() && s.drop_last()[j] == before[i];
                assert(s[j] == all[i]);
            } else {
                assert(s[s.len() - 1] == all[i]);
            }
        }
    }
}

/// A row that passes is put among the rows kept where it was put among all.
proof fn lemma_put_kept(
    e: ExprView,
    keys: Seq<SortExprView>,
    types: Seq<DataType>,
    s: Seq<Row>,
    r: Row,
)
    requires
        all_of_types(keys, types, s),
        keys_of_types(keys, types, r),
        rows_in_order(keys, s),
        eval(e, r) == Ok::<ValueView, ErrorKind>(ValueView::Boolean(true)),
    ensures
        kept(e, put(keys, s, r)) == put(keys, kept(e, s), r),
    decreases s.len(),
{
    let k = kept(e, s);
    if s.len() > 0 && sorts_before(keys, r, s.last(), 0) {
        let front = s.drop_last();
        assert forall|i: int| 0 <= i < front.len() implies keys_of_types(
            keys,
            types,
            #[trigger] front[i],
        ) by {
            assert(front[i] == s[i]);
        }
        assert forall|i: int, j: int| 0 <= i < j < front.len() implies !sorts_before(
            keys,
            #[trigger] front[j],
            #[trigger] front[i],
            0,
        ) by {
            assert(front[i] == s[i] && front[j] == s[j]);
        }
        lemma_put_kept(e, keys, types, front, r);
        let inner = put(keys, front, r);
        assert(inner.push(s.last()).drop_last() =~= inner);
        if eval(e, s.last()) == Ok::<ValueView, ErrorKind>(ValueView::Boolean(true)) {
            assert(k.drop_last() =~= kept(e, front));
        }
    } else {
        assert(s.push(r).drop_last() =~= s);
        if k.len() > 0 {
            lemma_kept_from(e, s);
            let j = choose|j: int| 0 <= j < s.len() && s[j] == k[k.len() - 1];
            let last = s[s.len() - 1];
            if j < s.len() - 1 {
                assert(!sorts_before(keys, s[s.len() - 1], s[j], 0));
                lemma_order(keys, types, r, s[j], last);
            }
        }
    }
}

/// Keeping what passes before a sort, or after it, gives the same rows.
pub proof fn lemma_kept_sorted(
    e: ExprView,
    keys: Seq<SortExprView>,
    types: Seq<DataType>,
    rows: Seq<Row>,
)
    requires
        all_of_types(keys, types, rows),
    ensures
        kept(e, sorted_rows(keys, rows)) == sorted_rows(keys, kept(e, rows)),
    decreases rows.len(),
{
    if rows.len() > 0 {
        let rest = rows.drop_last();
        let r = rows.last();
        assert(r == rows[rows.len() - 1]);
        assert forall|i: int| 0 <= i < rest.len() implies keys_of_types(
            keys,
            types,
            #[trigger] rest[i],
        ) by {
            assert(rest[i] == rows[i]);
        }
        lemma_kept_sorted(e, keys, types, rest);
        lemma_sorted_rows_in_order(keys, types, rest);
        let s = sorted_rows(keys, rest);
        if eval(e, r) == Ok::<ValueView, ErrorKind>(ValueView::Boolean(true)) {
            lemma_put_kept(e, keys, types, s, r);
            let before = kept(e, rest);
            assert(before.push(r).drop_last() =~= before);
        } else {
            lemma_put_rejected(e, keys, s, r);
        }
    }
}

// ---------------------------------------------------------------------------
// Sorts

/// The rows at the places of a list.
spec fn rows_at(rows: Seq<Row>, places: Seq<usize>) -> Seq<Row> {
    Seq::new(places.len(), |k: int| rows[places[k] as int])
}

/// Whether key columns hold the keys of rows.
spec fn holds_keys(keys: Seq<SortExprView>, columns: Seq<SortColumnView>, rows: Seq<Row>) -> bool {
    &&& columns.len() == keys.len()
    &&& forall|c: int| 0 <= c < keys.len() ==> (#[trigger] columns[c]).options == keys[c].options
    &&& forall|c: int, i: int|
        0 <= c < keys.len() && 0 <= i < rows.len() ==> #[trigger] columns[c].values[i] == key_of(
            keys[c],
            rows[i],
        )
}

proof fn lemma_insert_puts(
    keys: Seq<SortExprView>,
    columns: Seq<SortColumnView>,
    rows: Seq<Row>,
    sorted: Seq<usize>,
    x: usize,
)
    requires
        holds_keys(keys, columns, rows),
        x < rows.len(),
        forall|k: int| 0 <= k < sorted.len() ==> (#[trigger] sorted[k]) < rows.len(),
    ensures
        rows_at(rows, insert_row(columns, sorted, x)) == put(
            keys,
            rows_at(rows, sorted),
            rows[x as int],
        ),
    decreases sorted.len(),
{
    let at = rows_at(rows, sorted);
    if sorted.len() > 0 {
        let last = sorted.last();
        assert(last == sorted[sorted.len() - 1]);
        assert(at.last() == rows[last as int]);
        assert forall|d: int| 0 <= d < keys.len() implies (#[trigger] columns[d]).options
            == keys[d].options && columns[d].values[x as int] == key_of(keys[d], rows[x as int])
            && columns[d].values[last as int] == key_of(keys[d], rows[last as int]) by {}
        lemma_same_order(
            keys,
            columns,
            rows[x as int],
            rows[last as int],
            x as int,
            last as int,
            0,
        );
        if row_before(columns, x as int, last as int, 0) {
            lemma_insert_puts(keys, columns, rows, sorted.drop_last(), x);
            assert(rows_at(rows, sorted.drop_last()) =~= at.drop_last());
            let inner = insert_row(columns, sorted.drop_last(), x);
            assert(rows_at(rows, inner.push(last)) =~= rows_at(rows, inner).push(
                rows[last as int],
            ));
        } else {
            assert(rows_at(rows, sorted.push(x)) =~= at.push(rows[x as int]));
        }
    } else {
        assert(rows_at(rows, sorted.push(x)) =~= at.push(rows[x as int]));
    }
}

proof fn lemma_order_sorts(
    keys: Seq<SortExprView>,
    columns: Seq<SortColumnView>,
    rows: Seq<Row>,
    n: nat,
)
    requires
        n <= rows.len() <= usize::MAX,
        holds_keys(keys, columns, rows),
    ensures
        rows_at(rows, sorted_order(columns, n)) == sorted_rows(keys, rows.take(n as int)),
    decreases n,
{
    if n == 0 {
        assert(rows_at(rows, sorted_order(columns, n)) =~= seq![]);
    } else {
        let m = (n - 1) as nat;
        lemma_order_sorts(keys, columns, rows, m);
        lemma_sorted_bounds(columns, m);
        lemma_insert_puts(keys, columns, rows, sorted_order(columns, m), m as usize);
        assert(rows.take(n as int).drop_last() =~= rows.take(m as int));
        assert(rows.take(n as int).last() == rows[m as int]);
    }
}

/// Whether batches are well-formed and as wide as a schema.
pub open spec fn fitting(schema: Seq<FieldView>, batches: Seq<BatchView>) -> bool {
    forall|i: int|
        0 <= i < batches.len() ==> (#[trigger] batches[i]).wf() && batches[i].columns.len()
            == schema.len()
}

/// The batches of a flawless stream.
pub proof fn lemma_collected(items: Seq<Result<BatchView, ErrorKind>>)
    ensures
        collect_items(items) is Ok <==> flawless(items),
        collect_items(items) matches Ok(batches) ==> batches.len() == items.len() && forall|i: int|
            0 <= i < items.len() ==> items[i] == Ok::<BatchView, ErrorKind>(#[trigger] batches[i]),
    decreases items.len(),
{
    if items.len() > 0 {
        let rest = items.drop_last();
        lemma_collected(rest);
        let last = items.last();
        assert(last == items[items.len() - 1]);
        if flawless(items) {
            assert forall|i: int| 0 <= i < rest.len() implies (#[trigger] rest[i]) is Ok by {
                assert(items[i] is Ok);
            }
        }
        if collect_items(items) is Ok {
            let before = collect_items(rest)->Ok_0;
            let batches = collect_items(items)->Ok_0;
            assert(batches == before.push(last->Ok_0));
            assert forall|i: int| 0 <= i < items.len() implies items[i] == Ok::<
                BatchView,
                ErrorKind,
            >(#[trigger] batches[i]) by {
                if i < rest.len() {
                    assert(batches[i] == before[i]);
                    assert(rest[i] == items[i]);
                }
            }
            assert forall|i: int| 0 <= i < items.len() implies (#[trigger] items[i]) is Ok by {
                assert(items[i] == Ok::<BatchView, ErrorKind>(batches[i]));
            }
        }
    }
}

/// Batches gathered into one have the rows of the batches, in order.
proof fn lemma_gathered_rows(
    schema: Seq<FieldView>,
    items: Seq<Result<BatchView, ErrorKind>>,
    batches: Seq<BatchView>,
    n: nat,
)
    requires
        n <= batches.len() == items.len(),
        schema.len() > 0,
        fitting(schema, batches),
        forall|i: int|
            0 <= i < items.len() ==> items[i] == Ok::<BatchView, ErrorKind>(#[trigger] batches[i]),
    ensures
        forall|c: int|
            0 <= c < schema.len() ==> (#[trigger] concat_column(batches.take(n as int), c)).len()
                == stream_rows(items.take(n as int)).len(),
        forall|i: int|
            0 <= i < stream_rows(items.take(n as int)).len() ==> (#[trigger] stream_rows(
                items.take(n as int),
            )[i]) == Seq::new(
                schema.len(),
                |c: int| concat_column(batches.take(n as int), c)[i],
            ),
    decreases n,
{
    if n == 0 {
        assert(items.take(0) =~= seq![]);
        assert(batches.take(0) =~= seq![]);
    } else {
        let m = (n - 1) as nat;
        lemma_gathered_rows(schema, items, batches, m);
        let b = batches[m as int];
        let item = items[m as int];
        assert(item == Ok::<BatchView, ErrorKind>(b));
        assert(items.take(n as int) =~= items.take(m as int) + seq![item]);
        lemma_stream_rows_concat(items.take(m as int), seq![item]);
        lemma_stream_rows_one(item);
        assert(batches.take(n as int).drop_last() =~= batches.take(m as int));
        assert(batches.take(n as int).last() == b);
        let before = stream_rows(items.take(m as int));
        let all = stream_rows(items.take(n as int));
        assert forall|c: int| 0 <= c < schema.len() implies (#[trigger] concat_column(
            batches.take(n as int),
            c,
        )).len() == all.len() by {
            assert(concat_column(batches.take(m as int), c).len() == before.len());
            assert(b.columns[c].values.len() == first_len(b.columns));
        }
        assert forall|i: int| 0 <= i < all.len() implies (#[trigger] all[i]) == Seq::new(
            schema.len(),
            |c: int| concat_column(batches.take(n as int), c)[i],
        ) by {
            let want = Seq::new(schema.len(), |c: int| concat_column(batches.take(n as int), c)[i]);
            if i < before.len() {
                assert(all[i] == before[i]);
                assert forall|c: int| 0 <= c < schema.len() implies all[i][c] == want[c] by {
                    assert(concat_column(batches.take(m as int), c).len() == before.len());
                }
            } else {
                let k = i - before.len();
                assert(all[i] == b.rows()[k]);
                assert(b.rows()[k] == b.row(k));
                assert forall|c: int| 0 <= c < schema.len() implies all[i][c] == want[c] by {
                    assert(concat_column(batches.take(m as int), c).len() == before.len());
                    assert(b.columns[c].values.len() == first_len(b.columns));
                }
            }
            assert(all[i] =~= want);
        }
    }
}

/// Whether the batches that running a plan gives are as wide as its schema.
pub open spec fn runs_under_its_schema(p: PlanView) -> bool {
    items_of(p) matches Some(items) ==> forall|i: int|
        0 <= i < items.len() ==> ((#[trigger] items[i]) matches Ok(b) ==> b.columns.len()
            == exec_schema(exec_of(p)->Ok_0).len())
}

proof fn lemma_stream_width(items: Seq<Result<BatchView, ErrorKind>>, n: nat)
    requires
        forall|i: int|
            0 <= i < items.len() ==> ((#[trigger] items[i]) matches Ok(b) ==> b.columns.len() == n),
    ensures
        forall|i: int|
            0 <= i < stream_rows(items).len() ==> (#[trigger] stream_rows(items)[i]).len() == n,
    decreases items.len(),
{
    if items.len() > 0 {
        let tail = items.skip(1);
        assert forall|i: int| 0 <= i < tail.len() implies ((#[trigger] tail[i]) matches Ok(b)
            ==> b.columns.len() == n) by {
            assert(tail[i] == items[i + 1]);
        }
        lemma_stream_width(tail, n);
        let first = match items[0] {
            Ok(b) => b.rows(),
            Err(k) => seq![],
        };
        let all = stream_rows(items);
        assert forall|i: int| 0 <= i < all.len() implies (#[trigger] all[i]).len() == n by {
            if i < first.len() {
                assert(all[i] == first[i]);
                match items[0] {
                    Ok(b) => {
                        assert(first[i] == b.row(i));
                    },
                    Err(k) => {},
                }
            } else {
                assert(all[i] == stream_rows(tail)[i - first.len()]);
            }
        }
    }
}

/// The rows that a plan delivers are as wide as its schema.
pub proof fn delivered_rows_fit_the_schema(p: PlanView)
    requires
        runs_under_its_schema(p),
    ensures
        delivered(p) matches Some(rows) ==> forall|i: int|
            0 <= i < rows.len() ==> (#[trigger] rows[i]).len() == plan_schema(p).len(),
{
    if delivered(p) is Some {
        reveal(items_of);
        operators_keep_the_schema_of_plans(p);
        lemma_stream_width(items_of(p)->Some_0, plan_schema(p).len());
    }
}

/// The expressions of sort keys.
pub open spec fn exprs_of(keys: Seq<SortExprView>) -> Seq<ExprView> {
    Seq::new(keys.len(), |c: int| keys[c].expr)
}

proof fn lemma_physical_keys(keys: Seq<SortExprView>, n: nat)
    requires
        n <= keys.len(),
        physical_keys(keys, n) is Ok,
    ensures
        physical_all(exprs_of(keys), n) is Ok,
        key_exprs(physical_keys(keys, n)->Ok_0) == physical_all(exprs_of(keys), n)->Ok_0,
        physical_keys(keys, n)->Ok_0.len() == n,
        forall|c: int|
            0 <= c < n ==> (#[trigger] physical_keys(keys, n)->Ok_0[c]).options == keys[c].options,
    decreases n,
{
    if n == 0 {
        assert(key_exprs(physical_keys(keys, n)->Ok_0) =~= physical_all(exprs_of(keys), n)->Ok_0);
    } else {
        let m = (n - 1) as nat;
        lemma_physical_keys(keys, m);
        let before = physical_keys(keys, m)->Ok_0;
        let all = physical_keys(keys, n)->Ok_0;
        assert(exprs_of(keys)[m as int] == keys[m as int].expr);
        assert(key_exprs(all) =~= key_exprs(before).push(physical_of(keys[m as int].expr)->Ok_0));
        assert forall|c: int| 0 <= c < n implies (#[trigger] all[c]).options == keys[c].options by {
            if c < m {
                assert(all[c] == before[c]);
            }
        }
    }
}

/// A sort delivers the rows of its input in the order of its keys.
pub proof fn sorts_deliver_the_rows_in_order(input: PlanView, keys: Seq<SortExprView>)
    requires
        runs_tidily(input),
        runs_under_its_schema(input),
        delivered(PlanView::Sort { input: Box::new(input), exprs: keys }) is Some,
        delivered(input) matches Some(rows) ==> rows.len() <= usize::MAX,
    ensures
        delivered(input) is Some,
        delivered(PlanView::Sort { input: Box::new(input), exprs: keys }) == Some(
            sorted_rows(keys, delivered(input)->Some_0),
        ),
        all_defined(exprs_of(keys), delivered(input)->Some_0),
        runs_tidily(PlanView::Sort { input: Box::new(input), exprs: keys }),
        runs_under_its_schema(PlanView::Sort { input: Box::new(input), exprs: keys }),
{
    let p = PlanView::Sort { input: Box::new(input), exprs: keys };
    reveal(items_of);
    assert(exec_of(p) is Ok);
    assert(exec_of(input) is Ok);
    let child = exec_of(input)->Ok_0;
    let xs = physical_keys(keys, keys.len())->Ok_0;
    assert(exec_of(p)->Ok_0 == (ExecView::Sort { input: Box::new(child), keys: xs }));
    assert(run(child, 0) is Ok);
    let items = run(child, 0)->Ok_0;
    let schema = exec_schema(child);
    assert(items_of(input) == Some(items));
    assert(run_sort(schema, xs, items) is Ok);
    lemma_collected(items);
    let batches = collect_items(items)->Ok_0;
    assert(flawless(items));
    assert(delivered(input) == Some(stream_rows(items)));
    let rows = stream_rows(items);
    let out = run_sort(schema, xs, items)->Ok_0;
    assert(items_of(p) == Some(out));
    assert forall|i: int| 0 <= i < batches.len() implies (#[trigger] batches[i]).wf()
        && batches[i].columns.len() == schema.len() by {
        assert(items[i] == Ok::<BatchView, ErrorKind>(batches[i]));
    }
    lemma_whole(schema, items, batches);
    if batches.len() == 0 {
        assert(out =~= seq![]);
        assert(rows =~= seq![]);
        assert(stream_rows(out) =~= seq![]);
    } else {
        assert(gathered(schema, batches) is Ok);
        let whole = gathered(schema, batches)->Ok_0;
        assert(whole.rows() == rows && whole.wf());
        if whole.num_rows == 0 {
            assert(rows.len() == 0);
            assert(out =~= seq![]);
            assert(stream_rows(out) =~= seq![]);
        } else {
            lemma_physical_keys(keys, keys.len());
            let exprs = exprs_of(keys);
            let columns = eval_all(key_exprs(xs), whole, xs.len())->Ok_0;
            assert(eval_all(key_exprs(xs), whole, xs.len()) is Ok);
            lemma_eval_all(exprs, whole, exprs.len());
            let kc = key_columns(xs, columns);
            assert(holds_keys(keys, kc, rows)) by {
                assert forall|c: int| 0 <= c < keys.len() implies (#[trigger] kc[c]).options
                    == keys[c].options by {
                    assert(xs[c].options == keys[c].options);
                }
                assert forall|c: int, i: int|
                    0 <= c < keys.len() && 0 <= i < rows.len() implies #[trigger] kc[c].values[i]
                    == key_of(keys[c], rows[i]) by {
                    assert(rows[i] == whole.row(i));
                    assert(eval(exprs[c], whole.row(i)) == Ok::<ValueView, ErrorKind>(
                        columns[c].values[i],
                    ));
                }
            }
            assert forall|i: int, j: int| 0 <= i < rows.len() && 0 <= j < exprs.len() implies
                #[trigger] eval(exprs[j], rows[i]) is Ok by {
                assert(rows[i] == whole.row(i));
                assert(eval(exprs[j], whole.row(i)) is Ok);
            }
            let n = whole.num_rows;
            assert(rows.len() == n);
            lemma_order_sorts(keys, kc, rows, n);
            assert(rows.take(n as int) =~= rows);
            let order = sorted_order(kc, n);
            lemma_sorted_bounds(kc, n);
            let b = batch_of(schema, take_columns(whole.columns, present(order)));
            let item = Ok::<BatchView, ErrorKind>(b);
            assert(out =~= seq![item]);
            lemma_stream_rows_one(item);
            lemma_taken_fit(whole, present(order));
            assert(schema.len() > 0);
            assert(b.columns[0].values.len() == order.len());
            assert forall|k: int| 0 <= k < order.len() implies #[trigger] b.rows()[k] == rows_at(
                rows,
                order,
            )[k] by {
                let j = order[k] as int;
                assert(rows[j] == whole.row(j));
                assert(b.row(k) =~= whole.row(j));
            }
            assert(b.rows() =~= rows_at(rows, order));
        }
    }
}

/// Batches as one: its rows are the rows of the stream.
pub proof fn lemma_whole(
    schema: Seq<FieldView>,
    items: Seq<Result<BatchView, ErrorKind>>,
    batches: Seq<BatchView>,
)
    requires
        batches.len() == items.len(),
        fitting(schema, batches),
        forall|i: int|
            0 <= i < items.len() ==> items[i] == Ok::<BatchView, ErrorKind>(#[trigger] batches[i]),
    ensures
        gathered(schema, batches) matches Ok(whole) ==> whole.wf() && whole.rows() == stream_rows(
            items,
        ),
{
    if let Ok(whole) = gathered(schema, batches) {
        let n = batches.len();
        assert(items.take(n as int) =~= items);
        assert(batches.take(n as int) =~= batches);
        if schema.len() > 0 {
            lemma_gathered_rows(schema, items, batches, n);
            let rows = stream_rows(items);
            assert(whole.num_rows == concat_column(batches, 0).len());
            assert forall|c: int| 0 <= c < whole.columns.len() implies {
                &&& (#[trigger] whole.columns[c]).values.len() == first_len(whole.columns)
                &&& whole.columns[c].data_type == schema[c].data_type
                &&& whole.columns[c].wf()
            } by {
                lemma_concat_len(batches, schema, c, 0);
                assert(concat_column(batches, c).len() == rows.len());
            }
            assert forall|i: int| 0 <= i < rows.len() implies #[trigger] whole.rows()[i]
                == rows[i] by {
                assert(rows[i] == Seq::new(schema.len(), |c: int| concat_column(batches, c)[i]));
                assert(whole.row(i) =~= rows[i]);
            }
            assert(whole.rows() =~= rows);
        } else {
            lemma_no_rows(items, batches);
            assert(whole.rows() =~= seq![]);
        }
    }
}

/// Batches without columns have no rows.
proof fn lemma_no_rows(items: Seq<Result<BatchView, ErrorKind>>, batches: Seq<BatchView>)
    requires
        batches.len() == items.len(),
        forall|i: int|
            0 <= i < batches.len() ==> (#[trigger] batches[i]).wf() && batches[i].columns.len()
                == 0,
        forall|i: int|
            0 <= i < items.len() ==> items[i] == Ok::<BatchView, ErrorKind>(#[trigger] batches[i]),
    ensures
        stream_rows(items) == Seq::<Row>::empty(),
    decreases items.len(),
{
    if items.len() > 0 {
        let b = batches[0];
        assert(items[0] == Ok::<BatchView, ErrorKind>(b));
        assert(b.rows() =~= seq![]);
        let rest = batches.skip(1);
        let later = items.skip(1);
        assert forall|i: int| 0 <= i < rest.len() implies (#[trigger] rest[i]).wf()
            && rest[i].columns.len() == 0 && later[i] == Ok::<BatchView, ErrorKind>(rest[i]) by {
            assert(rest[i] == batches[i + 1]);
            assert(later[i] == items[i + 1]);
        }
        lemma_no_rows(later, rest);
        assert(stream_rows(items) =~= seq![]);
    }
}

/// A filter gives batches as wide as its input does.
pub proof fn lemma_filter_runs_under_schema(input: PlanView, predicate: ExprView)
    requires
        runs_under_its_schema(input),
    ensures
        runs_under_its_schema(PlanView::Filter { input: Box::new(input), predicate }),
{
    reveal(items_of);
    let p = PlanView::Filter { input: Box::new(input), predicate };
    if items_of(p) is Some {
        let child = exec_of(input)->Ok_0;
        let x = physical_of(predicate)->Ok_0;
        assert(exec_of(p)->Ok_0 == (ExecView::Filter { input: Box::new(child), predicate: x }));
        assert(run(child, 0) is Ok);
        lemma_filter_width(x, run(child, 0)->Ok_0, exec_schema(child).len());
    }
}

pub proof fn lemma_filter_width(
    x: PhysicalExprView,
    items: Seq<Result<BatchView, ErrorKind>>,
    width: nat,
)
    requires
        forall|i: int|
            0 <= i < items.len() ==> ((#[trigger] items[i]) matches Ok(b) ==> b.columns.len()
                == width),
    ensures
        forall|i: int|
            0 <= i < filter_stream(x, items).len() ==> ((#[trigger] filter_stream(
                x,
                items,
            )[i]) matches Ok(b) ==> b.columns.len() == width),
    decreases items.len(),
{
    if items.len() > 0 {
        let rest = items.drop_last();
        assert forall|i: int| 0 <= i < rest.len() implies ((
        #[trigger] rest[i]) matches Ok(b) ==> b.columns.len() == width) by {
            assert(rest[i] == items[i]);
        }
        lemma_filter_width(x, rest, width);
        let before = filter_stream(x, rest);
        let out = filter_stream(x, items);
        assert(items.last() == items[items.len() - 1]);
        assert forall|i: int| 0 <= i < out.len() implies ((
        #[trigger] out[i]) matches Ok(b) ==> b.columns.len() == width) by {
            if i < before.len() {
                assert(out[i] == before[i]);
            }
        }
    }
}

} // verus!
