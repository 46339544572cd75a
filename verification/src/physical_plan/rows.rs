//! What running a plan delivers, row by row.

use vstd::prelude::*;

use crate::batch::{batch_of, slice_batch, BatchView};
use crate::compute::{lemma_selected_below, selected};
use crate::error::ErrorKind;
use crate::expr::expr::{eval, ExprView};
use crate::logical_plan::plan::PlanView;
use crate::physical_expr::expr::{eval_batch, PhysicalExprView};
use crate::physical_plan::filter::{filter_batch, filter_stream, lemma_taken_fit};
use crate::physical_plan::limit::{lemma_slice_rows, limit_stream, stream_rows};
use crate::physical_plan::plan::{eval_all, lemma_eval_rows, run, take_columns, ExecView};
use crate::physical_plan::planner::{
    batches_evaluate_like_rows, exec_of, physical_all, physical_of,
};
use crate::physical_plan::projection::{project_batch, project_stream};
use crate::types::schema::FieldView;
use crate::types::value::ValueView;

verus! {

/// The values of one row.
pub type Row = Seq<ValueView>;

/// Whether no item of a stream is an error.
pub open spec fn flawless(items: Seq<Result<BatchView, ErrorKind>>) -> bool {
    forall|i: int| 0 <= i < items.len() ==> (#[trigger] items[i]) is Ok
}

/// Whether the batches of a stream are such as can be held in memory.
pub open spec fn tidy(items: Seq<Result<BatchView, ErrorKind>>) -> bool {
    forall|i: int|
        0 <= i < items.len() ==> ((#[trigger] items[i]) matches Ok(b) ==> b.wf() && b.num_rows
            <= usize::MAX)
}

/// The items that running a plan gives; `None` where it cannot be planned or
/// started.
#[verifier::opaque]
pub open spec fn items_of(p: PlanView) -> Option<Seq<Result<BatchView, ErrorKind>>> {
    match exec_of(p) {
        Err(k) => None,
        Ok(x) => match run(x, 0) {
            Err(k) => None,
            Ok(items) => Some(items),
        },
    }
}

/// The rows that running a plan delivers; `None` where it fails.
pub open spec fn delivered(p: PlanView) -> Option<Seq<Row>> {
    match items_of(p) {
        None => None,
        Some(items) => if flawless(items) {
            Some(stream_rows(items))
        } else {
            None
        },
    }
}

/// Whether the batches that running a plan gives are such as can be held in
/// memory.
pub open spec fn runs_tidily(p: PlanView) -> bool {
    items_of(p) matches Some(items) ==> tidy(items)
}

/// The rows on which a condition is true, in order.
pub open spec fn kept(e: ExprView, rows: Seq<Row>) -> Seq<Row>
    decreases rows.len(),
{
    if rows.len() == 0 {
        seq![]
    } else {
        let before = kept(e, rows.drop_last());
        if eval(e, rows.last()) == Ok::<ValueView, ErrorKind>(ValueView::Boolean(true)) {
            before.push(rows.last())
        } else {
            before
        }
    }
}

/// The values of expressions on a row, where each has one.
pub open spec fn values_on(exprs: Seq<ExprView>, row: Row) -> Row {
    Seq::new(exprs.len(), |j: int| eval(exprs[j], row)->Ok_0)
}

/// The values of expressions on every row.
pub open spec fn projected(exprs: Seq<ExprView>, rows: Seq<Row>) -> Seq<Row> {
    Seq::new(rows.len(), |i: int| values_on(exprs, rows[i]))
}

/// Whether an expression has a value on every row.
pub open spec fn defined(e: ExprView, rows: Seq<Row>) -> bool {
    forall|i: int| 0 <= i < rows.len() ==> eval(e, #[trigger] rows[i]) is Ok
}

/// Whether expressions have values on every row.
pub open spec fn all_defined(exprs: Seq<ExprView>, rows: Seq<Row>) -> bool {
    forall|i: int, j: int|
        0 <= i < rows.len() && 0 <= j < exprs.len() ==> #[trigger] eval(exprs[j], rows[i]) is Ok
}

// ---------------------------------------------------------------------------
// Streams

pub proof fn lemma_stream_rows_concat(
    a: Seq<Result<BatchView, ErrorKind>>,
    b: Seq<Result<BatchView, ErrorKind>>,
)
    ensures
        stream_rows(a + b) == stream_rows(a) + stream_rows(b),
    decreases a.len(),
{
    if a.len() == 0 {
        assert(a + b =~= b);
        assert(stream_rows(a) + stream_rows(b) =~= stream_rows(b));
    } else {
        lemma_stream_rows_concat(a.skip(1), b);
        assert((a + b).skip(1) =~= a.skip(1) + b);
        assert((a + b)[0] == a[0]);
        assert(stream_rows(a + b) =~= stream_rows(a) + stream_rows(b));
    }
}

pub proof fn lemma_stream_rows_one(x: Result<BatchView, ErrorKind>)
    ensures
        stream_rows(seq![x]) == match x {
            Ok(b) => b.rows(),
            Err(k) => seq![],
        },
{
    let s = seq![x];
    assert(s.skip(1) =~= seq![]);
    assert(stream_rows(s.skip(1)) =~= seq![]);
    assert(stream_rows(s) =~= match x {
        Ok(b) => b.rows(),
        Err(k) => seq![],
    });
}

pub proof fn lemma_kept_concat(e: ExprView, a: Seq<Row>, b: Seq<Row>)
    ensures
        kept(e, a + b) == kept(e, a) + kept(e, b),
    decreases b.len(),
{
    if b.len() == 0 {
        assert(a + b =~= a);
        assert(kept(e, a) + kept(e, b) =~= kept(e, a));
    } else {
        lemma_kept_concat(e, a, b.drop_last());
        assert((a + b).drop_last() =~= a + b.drop_last());
        assert((a + b).last() == b.last());
        assert(kept(e, a + b) =~= kept(e, a) + kept(e, b));
    }
}

// ---------------------------------------------------------------------------
// Filters

/// Rows gathered at the places where a mask is true are the rows kept.
proof fn lemma_selected_rows(e: ExprView, rows: Seq<Row>, mask: Seq<ValueView>, n: nat)
    requires
        n <= mask.len(),
        rows.len() == mask.len(),
        mask.len() <= usize::MAX,
        forall|i: int|
            0 <= i < rows.len() ==> eval(e, #[trigger] rows[i]) == Ok::<ValueView, ErrorKind>(
                mask[i],
            ),
    ensures
        ({
            let s = selected(mask.take(n as int));
            &&& s.len() == kept(e, rows.take(n as int)).len()
            &&& forall|k: int|
                0 <= k < s.len() ==> (#[trigger] s[k]) is Some && s[k]->Some_0 < n && kept(
                    e,
                    rows.take(n as int),
                )[k] == rows[s[k]->Some_0 as int]
        }),
    decreases n,
{
    if n > 0 {
        let m = (n - 1) as nat;
        lemma_selected_rows(e, rows, mask, m);
        assert(mask.take(n as int).drop_last() =~= mask.take(m as int));
        assert(rows.take(n as int).drop_last() =~= rows.take(m as int));
        assert(rows.take(n as int).last() == rows[m as int]);
        assert(mask.take(n as int).last() == mask[m as int]);
    }
}

/// What a filter leaves of a batch are the rows that pass.
proof fn lemma_filter_batch(e: ExprView, b: BatchView)
    requires
        b.wf(),
        b.num_rows <= usize::MAX,
        physical_of(e) is Ok,
        filter_batch(physical_of(e)->Ok_0, b) is Ok,
    ensures
        match filter_batch(physical_of(e)->Ok_0, b)->Ok_0 {
            Some(f) => f.wf() && f.num_rows > 0 && f.rows() == kept(e, b.rows()),
            None => kept(e, b.rows()) == Seq::<Row>::empty(),
        },
        defined(e, b.rows()),
{
    let x = physical_of(e)->Ok_0;
    let c = eval_batch(x, b)->Ok_0;
    let rows = b.rows();
    lemma_eval_rows(x, b);
    assert forall|i: int| 0 <= i < rows.len() implies eval(e, #[trigger] rows[i]) == Ok::<
        ValueView,
        ErrorKind,
    >(c.at(i)) by {
        batches_evaluate_like_rows(e, b, i);
        assert(rows[i] == b.row(i));
    }
    if c.scalar {
        lemma_all_or_none(e, rows, c.values[0]);
    } else {
        let mask = c.values;
        assert(rows.len() == mask.len());
        lemma_selected_rows(e, rows, mask, mask.len());
        assert(mask.take(mask.len() as int) =~= mask);
        assert(rows.take(rows.len() as int) =~= rows);
        let s = selected(mask);
        if s.len() > 0 && b.columns.len() > 0 {
            lemma_selected_below(mask);
            lemma_taken_fit(b, s);
            let f = batch_of(b.schema, take_columns(b.columns, s));
            assert(f.columns[0].values.len() == s.len());
            assert(f.num_rows == s.len());
            assert forall|k: int| 0 <= k < s.len() implies #[trigger] f.rows()[k] == kept(
                e,
                rows,
            )[k] by {
                let j = s[k]->Some_0 as int;
                assert(kept(e, rows)[k] == rows[j]);
                assert(f.row(k) =~= b.row(j));
            }
            assert(f.rows() =~= kept(e, rows));
        } else {
            assert(kept(e, rows) =~= seq![]);
        }
    }
}

/// A condition with one value on all rows keeps all of them or none.
proof fn lemma_all_or_none(e: ExprView, rows: Seq<Row>, v: ValueView)
    requires
        forall|i: int|
            0 <= i < rows.len() ==> eval(e, #[trigger] rows[i]) == Ok::<ValueView, ErrorKind>(v),
    ensures
        kept(e, rows) == if v == ValueView::Boolean(true) {
            rows
        } else {
            seq![]
        },
    decreases rows.len(),
{
    if rows.len() > 0 {
        let rest = rows.drop_last();
        assert forall|i: int| 0 <= i < rest.len() implies eval(e, #[trigger] rest[i]) == Ok::<
            ValueView,
            ErrorKind,
        >(v) by {
            assert(rest[i] == rows[i]);
        }
        lemma_all_or_none(e, rest, v);
        assert(rows.last() == rows[rows.len() - 1]);
        assert(rest.push(rows.last()) =~= rows);
    }
}

/// Filtering a stream keeps, of its rows, those that pass.
pub proof fn lemma_filter_stream(e: ExprView, items: Seq<Result<BatchView, ErrorKind>>)
    requires
        tidy(items),
        physical_of(e) is Ok,
        flawless(filter_stream(physical_of(e)->Ok_0, items)),
    ensures
        flawless(items),
        tidy(filter_stream(physical_of(e)->Ok_0, items)),
        stream_rows(filter_stream(physical_of(e)->Ok_0, items)) == kept(e, stream_rows(items)),
        defined(e, stream_rows(items)),
    decreases items.len(),
{
    let x = physical_of(e)->Ok_0;
    let out = filter_stream(x, items);
    if items.len() == 0 {
        assert(kept(e, stream_rows(items)) =~= seq![]);
    } else {
        let rest = items.drop_last();
        let before = filter_stream(x, rest);
        assert forall|i: int| 0 <= i < before.len() implies (#[trigger] before[i]) is Ok by {
            assert(out[i] == before[i]);
        }
        assert forall|i: int| 0 <= i < rest.len() implies ((
        #[trigger] rest[i]) matches Ok(b) ==> b.wf() && b.num_rows <= usize::MAX) by {
            assert(rest[i] == items[i]);
        }
        lemma_filter_stream(e, rest);
        let last = items.last();
        assert(last == items[items.len() - 1]);
        assert(items =~= rest + seq![last]);
        if last is Err {
            assert(out[out.len() - 1] is Err);
        }
        let b = last->Ok_0;
        if filter_batch(x, b) is Err {
            assert(out[out.len() - 1] is Err);
        }
        lemma_filter_batch(e, b);
        assert forall|i: int| 0 <= i < items.len() implies (#[trigger] items[i]) is Ok by {
            if i < rest.len() {
                assert(rest[i] is Ok);
            }
        }
        lemma_stream_rows_concat(rest, seq![last]);
        lemma_stream_rows_one(last);
        lemma_kept_concat(e, stream_rows(rest), b.rows());
        let rows = stream_rows(items);
        assert forall|i: int| 0 <= i < rows.len() implies eval(e, #[trigger] rows[i]) is Ok by {
            if i < stream_rows(rest).len() {
                assert(rows[i] == stream_rows(rest)[i]);
            } else {
                assert(rows[i] == b.rows()[i - stream_rows(rest).len()]);
            }
        }
        match filter_batch(x, b)->Ok_0 {
            Some(f) => {
                let item = Ok::<BatchView, ErrorKind>(f);
                assert(out =~= before + seq![item]);
                lemma_stream_rows_concat(before, seq![item]);
                lemma_stream_rows_one(item);
                lemma_kept_len(e, b.rows());
            },
            None => {
                assert(stream_rows(before) + Seq::<Row>::empty() =~= stream_rows(before));
            },
        }
    }
}

proof fn lemma_kept_len(e: ExprView, rows: Seq<Row>)
    ensures
        kept(e, rows).len() <= rows.len(),
    decreases rows.len(),
{
    if rows.len() > 0 {
        lemma_kept_len(e, rows.drop_last());
    }
}

proof fn lemma_filter_tidy(x: PhysicalExprView, items: Seq<Result<BatchView, ErrorKind>>)
    requires
        tidy(items),
    ensures
        tidy(filter_stream(x, items)),
    decreases items.len(),
{
    if items.len() > 0 {
        let rest = items.drop_last();
        assert forall|i: int| 0 <= i < rest.len() implies ((
        #[trigger] rest[i]) matches Ok(b) ==> b.wf() && b.num_rows <= usize::MAX) by {
            assert(rest[i] == items[i]);
        }
        lemma_filter_tidy(x, rest);
        let before = filter_stream(x, rest);
        let out = filter_stream(x, items);
        assert(items.last() == items[items.len() - 1]);
        if let Ok(b) = items.last() {
            if let Ok(c) = eval_batch(x, b) {
                lemma_eval_rows(x, b);
                let s = selected(c.values);
                if !c.scalar && s.len() > 0 && b.columns.len() > 0 {
                    lemma_selected_below(c.values);
                    lemma_selected_len(c.values);
                    lemma_taken_fit(b, s);
                    let f = batch_of(b.schema, take_columns(b.columns, s));
                    assert(f.columns[0].values.len() == s.len());
                }
            }
        }
        assert forall|i: int| 0 <= i < out.len() implies ((
        #[trigger] out[i]) matches Ok(b) ==> b.wf() && b.num_rows <= usize::MAX) by {
            if i < before.len() {
                assert(out[i] == before[i]);
            }
        }
    }
}

proof fn lemma_selected_len(mask: Seq<ValueView>)
    ensures
        selected(mask).len() <= mask.len(),
    decreases mask.len(),
{
    if mask.len() > 0 {
        lemma_selected_len(mask.drop_last());
    }
}

/// Filters over batches that can be held in memory give such batches.
pub proof fn lemma_filter_runs_tidily(input: PlanView, predicate: ExprView)
    requires
        runs_tidily(input),
    ensures
        runs_tidily(PlanView::Filter { input: Box::new(input), predicate }),
{
    reveal(items_of);
    let p = PlanView::Filter { input: Box::new(input), predicate };
    if items_of(p) is Some {
        let child = exec_of(input)->Ok_0;
        let x = physical_of(predicate)->Ok_0;
        assert(exec_of(p)->Ok_0 == (ExecView::Filter { input: Box::new(child), predicate: x }));
        assert(run(child, 0) is Ok);
        lemma_filter_tidy(x, run(child, 0)->Ok_0);
    }
}

/// A filter delivers, of the rows of its input, those on which its predicate
/// is true.
pub proof fn filters_deliver_the_rows_that_pass(input: PlanView, predicate: ExprView)
    requires
        runs_tidily(input),
        delivered(PlanView::Filter { input: Box::new(input), predicate }) is Some,
    ensures
        delivered(input) is Some,
        delivered(PlanView::Filter { input: Box::new(input), predicate }) == Some(
            kept(predicate, delivered(input)->Some_0),
        ),
        defined(predicate, delivered(input)->Some_0),
        runs_tidily(PlanView::Filter { input: Box::new(input), predicate }),
{
    let p = PlanView::Filter { input: Box::new(input), predicate };
    reveal(items_of);
    assert(exec_of(p) is Ok);
    assert(exec_of(input) is Ok);
    let child = exec_of(input)->Ok_0;
    let x = physical_of(predicate)->Ok_0;
    assert(exec_of(p)->Ok_0 == (ExecView::Filter { input: Box::new(child), predicate: x }));
    assert(run(child, 0) is Ok);
    let items = run(child, 0)->Ok_0;
    assert(items_of(p) == Some(filter_stream(x, items)));
    lemma_filter_stream(predicate, items);
}

/// A filter never delivers a batch without rows.
pub proof fn filters_deliver_no_empty_batches(
    predicate: PhysicalExprView,
    items: Seq<Result<BatchView, ErrorKind>>,
)
    requires
        tidy(items),
    ensures
        forall|i: int|
            0 <= i < filter_stream(predicate, items).len() ==> ((#[trigger] filter_stream(
                predicate,
                items,
            )[i]) matches Ok(b) ==> b.num_rows > 0),
    decreases items.len(),
{
    if items.len() > 0 {
        let rest = items.drop_last();
        assert forall|i: int| 0 <= i < rest.len() implies ((
        #[trigger] rest[i]) matches Ok(b) ==> b.wf() && b.num_rows <= usize::MAX) by {
            assert(rest[i] == items[i]);
        }
        filters_deliver_no_empty_batches(predicate, rest);
        let before = filter_stream(predicate, rest);
        let out = filter_stream(predicate, items);
        if let Ok(b) = items.last() {
            if let Ok(c) = eval_batch(predicate, b) {
                let kept = selected(c.values);
                if !c.scalar && kept.len() > 0 && b.columns.len() > 0 {
                    let f = batch_of(b.schema, take_columns(b.columns, kept));
                    assert(f.columns[0].values.len() == kept.len());
                }
            }
        }
        assert forall|i: int| 0 <= i < out.len() implies ((
        #[trigger] out[i]) matches Ok(b) ==> b.num_rows > 0) by {
            if i < before.len() {
                assert(out[i] == before[i]);
            }
        }
    }
}

// ---------------------------------------------------------------------------
// Projections

pub proof fn lemma_eval_all(exprs: Seq<ExprView>, b: BatchView, n: nat)
    requires
        b.wf(),
        n <= exprs.len(),
        physical_all(exprs, exprs.len()) is Ok,
        eval_all(physical_all(exprs, exprs.len())->Ok_0, b, n) is Ok,
    ensures
        physical_all(exprs, exprs.len())->Ok_0.len() == exprs.len(),
        eval_all(physical_all(exprs, exprs.len())->Ok_0, b, n)->Ok_0.len() == n,
        forall|j: int, i: int|
            0 <= j < n && 0 <= i < b.num_rows ==> #[trigger] eval(exprs[j], b.row(i)) == Ok::<
                ValueView,
                ErrorKind,
            >(eval_all(physical_all(exprs, exprs.len())->Ok_0, b, n)->Ok_0[j].values[i]),
        forall|j: int|
            0 <= j < n ==> (#[trigger] eval_all(
                physical_all(exprs, exprs.len())->Ok_0,
                b,
                n,
            )->Ok_0[j]).values.len() == b.num_rows,
    decreases n,
{
    let xs = physical_all(exprs, exprs.len())->Ok_0;
    lemma_physical_all(exprs, exprs.len());
    if n > 0 {
        let m = (n - 1) as nat;
        lemma_eval_all(exprs, b, m);
        let e = exprs[m as int];
        assert(xs[m as int] == physical_of(e)->Ok_0);
        let c = eval_batch(xs[m as int], b)->Ok_0;
        lemma_eval_rows(xs[m as int], b);
        assert forall|i: int| 0 <= i < b.num_rows implies #[trigger] eval(e, b.row(i)) == Ok::<
            ValueView,
            ErrorKind,
        >(c.at(i)) by {
            batches_evaluate_like_rows(e, b, i);
        }
        let done = eval_all(xs, b, m)->Ok_0;
        let all = eval_all(xs, b, n)->Ok_0;
        assert(all == done.push(c.spread(b.num_rows)));
        assert forall|j: int, i: int| 0 <= j < n && 0 <= i < b.num_rows implies #[trigger] eval(
            exprs[j],
            b.row(i),
        ) == Ok::<ValueView, ErrorKind>(all[j].values[i]) by {
            if j < m {
                assert(all[j] == done[j]);
            } else {
                assert(c.spread(b.num_rows).values[i] == c.at(i));
            }
        }
    }
}

pub proof fn lemma_physical_all(exprs: Seq<ExprView>, n: nat)
    requires
        n <= exprs.len(),
        physical_all(exprs, n) is Ok,
    ensures
        physical_all(exprs, n)->Ok_0.len() == n,
        forall|j: int|
            0 <= j < n ==> (#[trigger] physical_of(exprs[j])) is Ok && physical_all(
                exprs,
                n,
            )->Ok_0[j] == physical_of(exprs[j])->Ok_0,
    decreases n,
{
    if n > 0 {
        let m = (n - 1) as nat;
        lemma_physical_all(exprs, m);
        let before = physical_all(exprs, m)->Ok_0;
        let all = physical_all(exprs, n)->Ok_0;
        assert(all == before.push(physical_of(exprs[m as int])->Ok_0));
        assert forall|j: int| 0 <= j < n implies (#[trigger] physical_of(exprs[j])) is Ok && all[j]
            == physical_of(exprs[j])->Ok_0 by {
            if j < m {
                assert(all[j] == before[j]);
            }
        }
    }
}

/// A projected batch holds the values of the expressions on each row.
pub proof fn lemma_project_batch(exprs: Seq<ExprView>, schema: Seq<FieldView>, b: BatchView)
    requires
        b.wf(),
        exprs.len() > 0,
        physical_all(exprs, exprs.len()) is Ok,
        project_batch(physical_all(exprs, exprs.len())->Ok_0, schema, b) is Ok,
    ensures
        ({
            let r = project_batch(physical_all(exprs, exprs.len())->Ok_0, schema, b)->Ok_0;
            &&& r.wf()
            &&& r.num_rows == b.num_rows
            &&& r.rows() == projected(exprs, b.rows())
            &&& all_defined(exprs, b.rows())
        }),
{
    let xs = physical_all(exprs, exprs.len())->Ok_0;
    lemma_physical_all(exprs, exprs.len());
    lemma_eval_all(exprs, b, exprs.len());
    let r = project_batch(xs, schema, b)->Ok_0;
    assert(r.columns[0].values.len() == b.num_rows);
    assert forall|i: int| 0 <= i < r.num_rows implies #[trigger] r.rows()[i] == projected(
        exprs,
        b.rows(),
    )[i] by {
        assert(b.rows()[i] == b.row(i));
        assert forall|j: int| 0 <= j < exprs.len() implies r.row(i)[j] == values_on(
            exprs,
            b.row(i),
        )[j] by {
            assert(eval(exprs[j], b.row(i)) is Ok);
        }
        assert(r.row(i) =~= values_on(exprs, b.row(i)));
    }
    assert(r.rows() =~= projected(exprs, b.rows()));
    assert forall|i: int, j: int| 0 <= i < b.rows().len() && 0 <= j < exprs.len() implies
        #[trigger] eval(exprs[j], b.rows()[i]) is Ok by {
        assert(b.rows()[i] == b.row(i));
    }
}

/// Projecting a stream gives the values of the expressions on each of its
/// rows.
pub proof fn lemma_project_stream(
    exprs: Seq<ExprView>,
    schema: Seq<FieldView>,
    items: Seq<Result<BatchView, ErrorKind>>,
)
    requires
        tidy(items),
        exprs.len() > 0,
        physical_all(exprs, exprs.len()) is Ok,
        flawless(project_stream(physical_all(exprs, exprs.len())->Ok_0, schema, items)),
    ensures
        flawless(items),
        ({
            let out = project_stream(physical_all(exprs, exprs.len())->Ok_0, schema, items);
            &&& tidy(out)
            &&& stream_rows(out) == projected(exprs, stream_rows(items))
            &&& all_defined(exprs, stream_rows(items))
        }),
    decreases items.len(),
{
    let xs = physical_all(exprs, exprs.len())->Ok_0;
    let out = project_stream(xs, schema, items);
    if items.len() == 0 {
        assert(stream_rows(out) =~= projected(exprs, stream_rows(items)));
    } else {
        let rest = items.drop_last();
        let before = project_stream(xs, schema, rest);
        assert(before =~= out.drop_last());
        assert forall|i: int| 0 <= i < before.len() implies (#[trigger] before[i]) is Ok by {
            assert(out[i] == before[i]);
        }
        assert forall|i: int| 0 <= i < rest.len() implies ((
        #[trigger] rest[i]) matches Ok(b) ==> b.wf() && b.num_rows <= usize::MAX) by {
            assert(rest[i] == items[i]);
        }
        lemma_project_stream(exprs, schema, rest);
        let last = items.last();
        assert(last == items[items.len() - 1]);
        assert(out[items.len() - 1] is Ok);
        let b = last->Ok_0;
        let r = project_batch(xs, schema, b);
        assert(out[items.len() - 1] == r);
        lemma_project_batch(exprs, schema, b);
        assert(items =~= rest + seq![last]);
        assert(out =~= before + seq![r]);
        lemma_stream_rows_concat(rest, seq![last]);
        lemma_stream_rows_one(last);
        lemma_stream_rows_concat(before, seq![r]);
        lemma_stream_rows_one(r);
        let rows = stream_rows(items);
        assert(rows == stream_rows(rest) + b.rows());
        assert(stream_rows(out) =~= projected(exprs, rows));
        assert forall|i: int| 0 <= i < items.len() implies (#[trigger] items[i]) is Ok by {
            if i < rest.len() {
                assert(rest[i] is Ok);
            }
        }
        assert forall|i: int| 0 <= i < out.len() implies ((
        #[trigger] out[i]) matches Ok(b) ==> b.wf() && b.num_rows <= usize::MAX) by {
            if i < before.len() {
                assert(out[i] == before[i]);
            }
        }
        assert forall|i: int, j: int| 0 <= i < rows.len() && 0 <= j < exprs.len() implies
            #[trigger] eval(exprs[j], rows[i]) is Ok by {
            if i < stream_rows(rest).len() {
                assert(rows[i] == stream_rows(rest)[i]);
            } else {
                assert(rows[i] == b.rows()[i - stream_rows(rest).len()]);
            }
        }
    }
}

proof fn lemma_columns_len(xs: Seq<PhysicalExprView>, b: BatchView, n: nat)
    requires
        b.wf(),
        n <= xs.len(),
        eval_all(xs, b, n) is Ok,
    ensures
        eval_all(xs, b, n)->Ok_0.len() == n,
        forall|j: int|
            0 <= j < n ==> (#[trigger] eval_all(xs, b, n)->Ok_0[j]).values.len() == b.num_rows,
    decreases n,
{
    if n > 0 {
        lemma_columns_len(xs, b, (n - 1) as nat);
        lemma_eval_rows(xs[n - 1], b);
    }
}

/// Projections over batches that can be held in memory give such batches.
pub proof fn lemma_projection_runs_tidily(
    input: PlanView,
    exprs: Seq<ExprView>,
    schema: Seq<FieldView>,
)
    requires
        runs_tidily(input),
    ensures
        runs_tidily(PlanView::Projection { input: Box::new(input), exprs, schema }),
{
    reveal(items_of);
    let p = PlanView::Projection { input: Box::new(input), exprs, schema };
    if items_of(p) is Some {
        let child = exec_of(input)->Ok_0;
        let xs = physical_all(exprs, exprs.len())->Ok_0;
        assert(exec_of(p)->Ok_0 == (ExecView::Projection {
            input: Box::new(child),
            exprs: xs,
            schema,
        }));
        assert(run(child, 0) is Ok);
        let items = run(child, 0)->Ok_0;
        let out = project_stream(xs, schema, items);
        assert(items_of(p) == Some(out));
        assert forall|i: int| 0 <= i < out.len() implies ((
        #[trigger] out[i]) matches Ok(r) ==> r.wf() && r.num_rows <= usize::MAX) by {
            if out[i] is Ok {
                assert(items[i] is Ok);
                lemma_columns_len(xs, items[i]->Ok_0, xs.len());
            }
        }
    }
}

/// A projection delivers the values of its expressions on each row of its
/// input.
pub proof fn projections_deliver_the_values_on_each_row(
    input: PlanView,
    exprs: Seq<ExprView>,
    schema: Seq<FieldView>,
)
    requires
        runs_tidily(input),
        exprs.len() > 0,
        delivered(PlanView::Projection { input: Box::new(input), exprs, schema }) is Some,
    ensures
        delivered(input) is Some,
        all_defined(exprs, delivered(input)->Some_0),
        delivered(PlanView::Projection { input: Box::new(input), exprs, schema }) == Some(
            projected(exprs, delivered(input)->Some_0),
        ),
        runs_tidily(PlanView::Projection { input: Box::new(input), exprs, schema }),
{
    let p = PlanView::Projection { input: Box::new(input), exprs, schema };
    reveal(items_of);
    assert(exec_of(p) is Ok);
    assert(exec_of(input) is Ok);
    let child = exec_of(input)->Ok_0;
    let xs = physical_all(exprs, exprs.len())->Ok_0;
    assert(exec_of(p)->Ok_0 == (ExecView::Projection { input: Box::new(child), exprs: xs, schema }));
    assert(run(child, 0) is Ok);
    let items = run(child, 0)->Ok_0;
    assert(items_of(p) == Some(project_stream(xs, schema, items)));
    lemma_project_stream(exprs, schema, items);
}

// ---------------------------------------------------------------------------
// Limits

/// Cutting a stream before it is projected, or after, leaves the same rows.
pub proof fn lemma_limit_project(
    exprs: Seq<ExprView>,
    schema: Seq<FieldView>,
    items: Seq<Result<BatchView, ErrorKind>>,
    skip: int,
    fetch: Option<int>,
)
    requires
        tidy(items),
        exprs.len() > 0,
        skip >= 0,
        fetch matches Some(n) ==> n >= 0,
        physical_all(exprs, exprs.len()) is Ok,
        flawless(
            limit_stream(
                project_stream(physical_all(exprs, exprs.len())->Ok_0, schema, items),
                skip,
                fetch,
            ),
        ),
        flawless(
            project_stream(
                physical_all(exprs, exprs.len())->Ok_0,
                schema,
                limit_stream(items, skip, fetch),
            ),
        ),
    ensures
        ({
            let xs = physical_all(exprs, exprs.len())->Ok_0;
            stream_rows(limit_stream(project_stream(xs, schema, items), skip, fetch))
                == stream_rows(project_stream(xs, schema, limit_stream(items, skip, fetch)))
        }),
    decreases items.len(),
{
    let xs = physical_all(exprs, exprs.len())->Ok_0;
    let below = project_stream(xs, schema, items);
    let a = limit_stream(below, skip, fetch);
    let cut = limit_stream(items, skip, fetch);
    let b = project_stream(xs, schema, cut);
    if items.len() == 0 || fetch == Some(0int) {
        assert(a =~= seq![]);
        assert(b =~= seq![]);
    } else {
        let rest = items.skip(1);
        assert forall|i: int| 0 <= i < rest.len() implies ((
        #[trigger] rest[i]) matches Ok(b) ==> b.wf() && b.num_rows <= usize::MAX) by {
            assert(rest[i] == items[i + 1]);
        }
        assert(below.skip(1) =~= project_stream(xs, schema, rest));
        if items[0] is Err || project_batch(xs, schema, items[0]->Ok_0) is Err {
            // an error at the front shows in one of the two
            if items[0] is Err {
                assert(a[0] is Err);
            } else {
                assert(below[0] is Err);
                assert(a[0] is Err);
            }
        }
        let x = items[0]->Ok_0;
        let y = project_batch(xs, schema, x)->Ok_0;
        assert(below[0] == Ok::<BatchView, ErrorKind>(y));
        lemma_project_batch(exprs, schema, x);
        if skip >= x.num_rows {
            lemma_limit_project(exprs, schema, rest, skip - x.num_rows, fetch);
        } else {
            let kx = if skip > 0 {
                slice_batch(x, skip, x.num_rows - skip)
            } else {
                x
            };
            let ky = if skip > 0 {
                slice_batch(y, skip, y.num_rows - skip)
            } else {
                y
            };
            if skip > 0 {
                lemma_slice_rows(x, skip, x.num_rows - skip);
                lemma_slice_rows(y, skip, y.num_rows - skip);
                assert(ky.rows() =~= projected(exprs, kx.rows()));
            }
            assert(kx.wf() && ky.wf() && kx.num_rows == ky.num_rows);
            let (tail_a, tail_cut) = match fetch {
                None => (limit_stream(below.skip(1), 0, None), limit_stream(rest, 0, None)),
                Some(n) => if n < kx.num_rows {
                    (seq![], seq![])
                } else {
                    (
                        limit_stream(below.skip(1), 0, Some(n - kx.num_rows)),
                        limit_stream(rest, 0, Some(n - kx.num_rows)),
                    )
                },
            };
            let (front_x, front_y) = match fetch {
                Some(n) => if n < kx.num_rows {
                    lemma_slice_rows(kx, 0, n);
                    lemma_slice_rows(ky, 0, n);
                    (slice_batch(kx, 0, n), slice_batch(ky, 0, n))
                } else {
                    (kx, ky)
                },
                None => (kx, ky),
            };
            assert(front_y.rows() =~= projected(exprs, front_x.rows()));
            let item_x = Ok::<BatchView, ErrorKind>(front_x);
            let item_y = Ok::<BatchView, ErrorKind>(front_y);
            assert(a =~= seq![item_y] + tail_a);
            assert(cut =~= seq![item_x] + tail_cut);
            let front_b = project_batch(xs, schema, front_x);
            let tail_b = project_stream(xs, schema, tail_cut);
            assert(b =~= seq![front_b] + tail_b);
            assert(b[0] is Ok);
            lemma_project_batch(exprs, schema, front_x);
            assert forall|i: int| 0 <= i < tail_a.len() implies (#[trigger] tail_a[i]) is Ok by {
                assert(a[i + 1] == tail_a[i]);
            }
            assert forall|i: int| 0 <= i < tail_b.len() implies (#[trigger] tail_b[i]) is Ok by {
                assert(b[i + 1] == tail_b[i]);
            }
            match fetch {
                None => {
                    lemma_limit_project(exprs, schema, rest, 0, None);
                },
                Some(n) => {
                    if n >= kx.num_rows {
                        lemma_limit_project(exprs, schema, rest, 0, Some(n - kx.num_rows));
                    } else {
                        assert(tail_b =~= seq![]);
                    }
                },
            }
            assert(stream_rows(tail_a) == stream_rows(tail_b));
            lemma_stream_rows_concat(seq![item_y], tail_a);
            lemma_stream_rows_one(item_y);
            lemma_stream_rows_concat(seq![front_b], tail_b);
            lemma_stream_rows_one(front_b);
        }
    }
}

} // verus!
