//! That operators produce batches as wide as their schema says.

use vstd::prelude::*;

use crate::batch::{slice_batch, BatchView};
use crate::error::ErrorKind;
use crate::logical_plan::plan::PlanView;
use crate::physical_plan::limit::limit_stream;
use crate::physical_plan::plan::{exec_schema, run, ExecView};
use crate::physical_plan::planner::exec_of;
use crate::physical_plan::rows::items_of;
use crate::physical_plan::sort::sorted_batch;
use crate::physical_plan::sort_rows::{lemma_filter_width, runs_under_its_schema};

verus! {

/// Whether the batches of a stream have `n` columns.
pub open spec fn as_wide_as(items: Seq<Result<BatchView, ErrorKind>>, n: nat) -> bool {
    forall|i: int|
        0 <= i < items.len() ==> ((#[trigger] items[i]) matches Ok(b) ==> b.columns.len() == n)
}

/// Whether the batches that the scans of an operator tree hold are as wide as
/// the scans' schemas.
pub open spec fn scans_fit(x: ExecView) -> bool
    decreases x,
{
    match x {
        ExecView::MemoryScan { schema, batches } => forall|i: int|
            0 <= i < batches.len() ==> (#[trigger] batches[i]).columns.len() == schema.len(),
        ExecView::Filter { input, predicate } => scans_fit(*input),
        ExecView::Projection { input, exprs, schema } => scans_fit(*input),
        ExecView::Limit { input, skip, fetch } => scans_fit(*input),
        ExecView::Sort { input, keys } => scans_fit(*input),
        ExecView::TopK { input, keys, k } => scans_fit(*input),
        ExecView::Aggregate {
            input,
            group_exprs,
            group_types,
            agg_args,
            agg_kinds,
            agg_arg_types,
            schema,
        } => scans_fit(*input),
        ExecView::HashJoin { build, probe, on, filter, join_type, schema } => scans_fit(*build)
            && scans_fit(*probe),
        ExecView::NestedLoopJoin { build, probe, predicate, schema } => scans_fit(*build)
            && scans_fit(*probe),
    }
}

proof fn lemma_limit_width(
    items: Seq<Result<BatchView, ErrorKind>>,
    skip: int,
    fetch: Option<int>,
    n: nat,
)
    requires
        as_wide_as(items, n),
    ensures
        as_wide_as(limit_stream(items, skip, fetch), n),
    decreases items.len(),
{
    if items.len() > 0 && fetch != Some(0int) {
        let rest = items.skip(1);
        assert forall|i: int| 0 <= i < rest.len() implies ((#[trigger] rest[i]) matches Ok(b)
            ==> b.columns.len() == n) by {
            assert(rest[i] == items[i + 1]);
        }
        match items[0] {
            Err(k) => {
                lemma_limit_width(rest, skip, fetch, n);
            },
            Ok(b) => if skip >= b.num_rows {
                lemma_limit_width(rest, skip - b.num_rows, fetch, n);
            } else {
                let kept = if skip > 0 {
                    slice_batch(b, skip, b.num_rows - skip)
                } else {
                    b
                };
                match fetch {
                    None => {
                        lemma_limit_width(rest, 0, None, n);
                    },
                    Some(m) => {
                        lemma_limit_width(rest, 0, Some(m - kept.num_rows), n);
                    },
                }
            },
        }
    }
}

/// Operators over tables whose batches fit produce batches as wide as their
/// schema.
pub proof fn operators_run_under_their_schema(x: ExecView, partition: usize)
    requires
        scans_fit(x),
    ensures
        run(x, partition) matches Ok(items) ==> as_wide_as(items, exec_schema(x).len()),
    decreases x,
{
    match x {
        ExecView::MemoryScan { schema, batches } => {},
        ExecView::Filter { input, predicate } => {
            operators_run_under_their_schema(*input, partition);
            if run(*input, partition) is Ok {
                lemma_filter_width(
                    predicate,
                    run(*input, partition)->Ok_0,
                    exec_schema(*input).len(),
                );
            }
        },
        ExecView::Projection { input, exprs, schema } => {},
        ExecView::Limit { input, skip, fetch } => {
            operators_run_under_their_schema(*input, partition);
            if run(*input, partition) is Ok {
                let cut = match fetch {
                    Some(n) => Some(n as int),
                    None => None,
                };
                lemma_limit_width(
                    run(*input, partition)->Ok_0,
                    skip as int,
                    cut,
                    exec_schema(*input).len(),
                );
            }
        },
        ExecView::Sort { input, keys } => {
            if run(*input, partition) is Ok {
                let s = sorted_batch(exec_schema(*input), keys, run(*input, partition)->Ok_0);
                assert(s matches Ok(Some(b)) ==> b.columns.len() == exec_schema(*input).len());
            }
        },
        ExecView::TopK { input, keys, k } => {
            if run(*input, partition) is Ok {
                let s = sorted_batch(exec_schema(*input), keys, run(*input, partition)->Ok_0);
                assert(s matches Ok(Some(b)) ==> b.columns.len() == exec_schema(*input).len());
            }
        },
        _ => {},
    }
}

/// Plans over tables whose batches fit produce batches as wide as their schema.
pub proof fn plans_run_under_their_schema(p: PlanView)
    requires
        exec_of(p) matches Ok(x) ==> scans_fit(x),
    ensures
        runs_under_its_schema(p),
{
    reveal(items_of);
    if exec_of(p) is Ok {
        operators_run_under_their_schema(exec_of(p)->Ok_0, 0);
    }
}

} // verus!
