//! Operator trees: their inputs, and what they are asked for.

use vstd::prelude::*;

use crate::batch::{slice_batch, BatchView};
use crate::error::ErrorKind;
use crate::logical_plan::plan::PlanView;
use crate::physical_plan::limit::{
    limit_keeps_the_rows_asked_for, limit_rows, limit_stream, stream_rows,
};
use crate::physical_plan::planner::{exec_of, physical_keys};
use crate::physical_plan::rows::{delivered, flawless, items_of, runs_tidily};
use crate::physical_plan::sort::{run_sort, run_top_k, top_k_is_a_limited_sort};
use crate::physical_plan::plan::{exec_children, exec_schema, exec_with_children, run, ExecView};

verus! {

/// An operator over its own inputs is the operator itself; over others of the
/// same number it reads those.
pub proof fn inputs_can_be_replaced(p: ExecView, c: Seq<ExecView>)
    ensures
        exec_with_children(p, exec_children(p)) == p,
        c.len() == exec_children(p).len() ==> exec_children(exec_with_children(p, c)) == c,
{
    if c.len() == exec_children(p).len() {
        assert(exec_children(exec_with_children(p, c)) =~= c);
    }
}

/// There is one partition: no operator has another.
pub proof fn there_is_one_partition(p: ExecView, partition: usize)
    requires
        partition != 0,
    ensures
        run(p, partition) == Err::<
            Seq<Result<BatchView, ErrorKind>>,
            ErrorKind,
        >(ErrorKind::Internal),
    decreases p,
{
    match p {
        ExecView::MemoryScan { schema, batches } => {},
        ExecView::Filter { input, predicate } => {
            there_is_one_partition(*input, partition);
        },
        ExecView::Projection { input, exprs, schema } => {
            there_is_one_partition(*input, partition);
        },
        ExecView::Limit { input, skip, fetch } => {
            there_is_one_partition(*input, partition);
        },
        ExecView::Sort { input, keys } => {
            there_is_one_partition(*input, partition);
        },
        ExecView::TopK { input, keys, k } => {
            there_is_one_partition(*input, partition);
        },
        ExecView::Aggregate {
            input,
            group_exprs,
            group_types,
            agg_args,
            agg_kinds,
            agg_arg_types,
            schema,
        } => {
            there_is_one_partition(*input, partition);
        },
        ExecView::HashJoin { build, probe, on, filter, join_type, schema } => {
            there_is_one_partition(*build, partition);
        },
        ExecView::NestedLoopJoin { build, probe, predicate, schema } => {
            there_is_one_partition(*build, partition);
        },
    }
}

/// A scan of memory gives the batches that it holds, in their order.
pub proof fn scans_give_what_they_hold(p: ExecView, i: int)
    requires
        p is MemoryScan,
        0 <= i < p->batches.len(),
    ensures
        run(p, 0) is Ok,
        run(p, 0)->Ok_0.len() == p->batches.len(),
        run(p, 0)->Ok_0[i] == Ok::<BatchView, ErrorKind>(p->batches[i]),
{
}

/// Operators that change no columns keep the schema of their input.
pub proof fn schemas_pass_through(p: ExecView)
    requires
        p is Filter || p is Limit || p is Sort || p is TopK,
    ensures
        exec_schema(p) == exec_schema(exec_children(p)[0]),
{
}

proof fn lemma_limits_are_flawless(
    items: Seq<Result<BatchView, ErrorKind>>,
    skip: int,
    fetch: Option<int>,
)
    requires
        flawless(items),
    ensures
        flawless(limit_stream(items, skip, fetch)),
    decreases items.len(),
{
    if items.len() > 0 && fetch != Some(0int) {
        let rest = items.skip(1);
        assert forall|i: int| 0 <= i < rest.len() implies (#[trigger] rest[i]) is Ok by {
            assert(rest[i] == items[i + 1]);
        }
        assert(items[0] is Ok);
        let b = items[0]->Ok_0;
        if skip >= b.num_rows {
            lemma_limits_are_flawless(rest, skip - b.num_rows, fetch);
        } else {
            let kept = if skip > 0 {
                slice_batch(b, skip, b.num_rows - skip)
            } else {
                b
            };
            match fetch {
                None => {
                    lemma_limits_are_flawless(rest, 0, None);
                },
                Some(n) => {
                    if n >= kept.num_rows {
                        lemma_limits_are_flawless(rest, 0, Some(n - kept.num_rows));
                    }
                },
            }
        }
    }
}

/// The smaller of two numbers.
pub open spec fn at_most(a: int, b: int) -> int {
    if a < b {
        a
    } else {
        b
    }
}

/// A limit passes over the first rows of its input, as many as it is to skip,
/// and delivers those behind them, as many as it is to fetch, as far as there
/// are any.
pub proof fn limits_deliver_the_rows_behind_those_skipped(
    input: PlanView,
    skip: usize,
    fetch: Option<usize>,
)
    requires
        runs_tidily(input),
        delivered(input) is Some,
        exec_of(PlanView::Limit { input: Box::new(input), skip, fetch }) is Ok,
    ensures
        delivered(PlanView::Limit { input: Box::new(input), skip, fetch }) matches Some(rows) && {
            let all = delivered(input)->Some_0;
            let from = at_most(skip as int, all.len() as int);
            rows == all.subrange(
                from,
                match fetch {
                    Some(n) => at_most(from + n, all.len() as int),
                    None => all.len() as int,
                },
            )
        },
{
    let p = PlanView::Limit { input: Box::new(input), skip, fetch };
    reveal(items_of);
    let child = exec_of(input)->Ok_0;
    let items = run(child, 0)->Ok_0;
    let all = stream_rows(items);
    let wide = match fetch {
        Some(n) => Some(n as int),
        None => None,
    };
    assert(items_of(input) == Some(items));
    if input is Sort && skip == 0 && fetch is Some {
        let inner = *input->Sort_input;
        let below = exec_of(inner)->Ok_0;
        let keys = physical_keys(input->Sort_exprs, input->Sort_exprs.len())->Ok_0;
        assert(child == (ExecView::Sort { input: Box::new(below), keys }));
        assert(exec_of(p)->Ok_0 == (ExecView::TopK { input: Box::new(below), keys, k: fetch->0 }));
        let stream = run(below, 0)->Ok_0;
        top_k_is_a_limited_sort(exec_schema(below), keys, fetch->0 as int, stream);
        let top = run_top_k(exec_schema(below), keys, fetch->0 as int, stream)->Ok_0;
        assert(run_sort(exec_schema(below), keys, stream) == Ok::<_, ErrorKind>(items));
        assert(items_of(p) == Some(top));
        assert(flawless(top));
    } else {
        assert(exec_of(p)->Ok_0 == (ExecView::Limit { input: Box::new(child), skip, fetch }));
        lemma_limits_are_flawless(items, skip as int, wide);
        limit_keeps_the_rows_asked_for(items, skip as int, wide);
        assert(items_of(p) == Some(limit_stream(items, skip as int, wide)));
    }
    assert(delivered(p) == Some(limit_rows(all, skip as int, wide)));
}

} // verus!
