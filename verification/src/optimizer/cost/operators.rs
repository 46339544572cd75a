//! What each operator costs. The parts are counts of tuples and bytes; weights
//! come in when two plans are compared.

use vstd::prelude::*;

use crate::float64::Float64;
use crate::optimizer::cost::model::{free, zero, Cost};
use crate::statistics::{one, ONE};

verus! {

/// A scan: the bytes it reads, and a step per row.
pub open spec fn scan_estimate(bytes_read: Float64, rows: Float64) -> Cost {
    Cost { io: bytes_read, cpu: rows, memory: zero(), network: zero() }
}

/// A scan: the bytes it reads, and a step per row.
pub fn scan_cost(bytes_read: Float64, rows: Float64) -> (r: Cost)
    ensures
        r == scan_estimate(bytes_read, rows),
{
    Cost {
        io: bytes_read,
        cpu: rows,
        memory: Float64::from_bits(0),
        network: Float64::from_bits(0),
    }
}

/// Work alone.
pub open spec fn work(cpu: Float64) -> Cost {
    Cost { io: zero(), cpu, memory: zero(), network: zero() }
}

/// A step per row and for each of several things to compute, at least one.
pub open spec fn step_estimate(input_rows: Float64, steps: Float64) -> Cost {
    work(input_rows.spec_mul(steps.spec_max(one())))
}

/// A step per row and predicate.
pub fn filter_cost(input_rows: Float64, num_predicates: Float64) -> (r: Cost)
    ensures
        r == step_estimate(input_rows, num_predicates),
{
    let nothing = Float64::from_bits(0);
    Cost {
        io: nothing,
        cpu: input_rows.mul(num_predicates.max(Float64::from_bits(ONE))),
        memory: nothing,
        network: nothing,
    }
}

/// A step per row and expression.
pub fn projection_cost(input_rows: Float64, num_exprs: Float64) -> (r: Cost)
    ensures
        r == step_estimate(input_rows, num_exprs),
{
    let nothing = Float64::from_bits(0);
    Cost {
        io: nothing,
        cpu: input_rows.mul(num_exprs.max(Float64::from_bits(ONE))),
        memory: nothing,
        network: nothing,
    }
}

/// A hash join: a step for each row that goes into the table, that is looked
/// up and that comes out; the table is held in memory.
pub open spec fn hash_join_estimate(
    build_rows: Float64,
    probe_rows: Float64,
    output_rows: Float64,
    row_width: Float64,
) -> Cost {
    Cost {
        io: zero(),
        cpu: build_rows.spec_add(probe_rows).spec_add(output_rows),
        memory: build_rows.spec_mul(row_width),
        network: zero(),
    }
}

pub fn hash_join_cost(
    build_rows: Float64,
    probe_rows: Float64,
    output_rows: Float64,
    row_width: Float64,
) -> (r: Cost)
    ensures
        r == hash_join_estimate(build_rows, probe_rows, output_rows, row_width),
{
    Cost {
        io: Float64::from_bits(0),
        cpu: build_rows.add(probe_rows).add(output_rows),
        memory: build_rows.mul(row_width),
        network: Float64::from_bits(0),
    }
}

/// A nested-loop join: a step for each pair of rows.
pub open spec fn nested_loop_estimate(left_rows: Float64, right_rows: Float64) -> Cost {
    work(left_rows.spec_mul(right_rows))
}

/// A nested-loop join: a step for each pair of rows.
pub fn nested_loop_join_cost(left_rows: Float64, right_rows: Float64) -> (r: Cost)
    ensures
        r == nested_loop_estimate(left_rows, right_rows),
{
    let nothing = Float64::from_bits(0);
    Cost { io: nothing, cpu: left_rows.mul(right_rows), memory: nothing, network: nothing }
}

/// An aggregation: a step for each row and each group; the groups' states are
/// held in memory.
pub open spec fn aggregate_estimate(
    input_rows: Float64,
    num_groups: Float64,
    state_width: Float64,
) -> Cost {
    Cost {
        io: zero(),
        cpu: input_rows.spec_add(num_groups),
        memory: num_groups.spec_mul(state_width),
        network: zero(),
    }
}

/// An aggregation: a step for each row and each group; the groups' states are
/// held in memory.
pub fn aggregate_cost(input_rows: Float64, num_groups: Float64, state_width: Float64) -> (r: Cost)
    ensures
        r == aggregate_estimate(input_rows, num_groups, state_width),
{
    Cost {
        io: Float64::from_bits(0),
        cpu: input_rows.add(num_groups),
        memory: num_groups.mul(state_width),
        network: Float64::from_bits(0),
    }
}

/// The bits of 2.
pub const TWO: u64 = 0x4000_0000_0000_0000;

/// A sort of `n` rows, given the binary logarithm of `n`. What does not fit
/// into the memory allowed is written out and read back.
pub open spec fn sort_estimate(
    n: Float64,
    log_n: Float64,
    row_width: Float64,
    memory_budget: Float64,
) -> Cost {
    let cpu = if one().num_lt(n) {
        n.spec_mul(log_n)
    } else {
        zero()
    };
    let live = n.spec_mul(row_width);
    if memory_budget.num_lt(live) && zero().num_lt(memory_budget) {
        Cost {
            io: live.spec_sub(memory_budget).spec_mul(Float64 { bits: TWO }),
            cpu,
            memory: memory_budget,
            network: zero(),
        }
    } else {
        Cost { io: zero(), cpu, memory: live, network: zero() }
    }
}

/// A sort of `n` rows, given the binary logarithm of `n`.
pub fn sort_cost(n: Float64, log_n: Float64, row_width: Float64, memory_budget: Float64) -> (r:
    Cost)
    ensures
        r == sort_estimate(n, log_n, row_width, memory_budget),
{
    let nothing = Float64::from_bits(0);
    let cpu = if Float64::from_bits(ONE).lt_num(n) {
        n.mul(log_n)
    } else {
        nothing
    };
    let live = n.mul(row_width);
    if memory_budget.lt_num(live) && nothing.lt_num(memory_budget) {
        Cost {
            io: live.sub(memory_budget).mul(Float64::from_bits(TWO)),
            cpu,
            memory: memory_budget,
            network: nothing,
        }
    } else {
        Cost { io: nothing, cpu, memory: live, network: nothing }
    }
}

/// A sort that fits into its memory reads and writes nothing.
pub proof fn sorts_in_memory_do_no_io(
    n: Float64,
    log_n: Float64,
    row_width: Float64,
    memory_budget: Float64,
)
    requires
        !memory_budget.num_lt(n.spec_mul(row_width)),
    ensures
        sort_estimate(n, log_n, row_width, memory_budget).io == zero(),
{
}

/// The `k` a top-k is costed with: at least one.
pub open spec fn kept_at_least_one(k: Float64) -> Float64 {
    k.spec_max(one())
}

/// The `k` a top-k is costed with.
pub fn effective_k(k: Float64) -> (r: Float64)
    ensures
        r == kept_at_least_one(k),
{
    k.max(Float64::from_bits(ONE))
}

/// The first `k` of `n` rows in order: they are held in memory, and each row
/// finds its place among them.
pub open spec fn topk_estimate(n: Float64, k: Float64, log_k: Float64, row_width: Float64) -> Cost {
    Cost {
        io: zero(),
        cpu: n.spec_mul(log_k.spec_max(zero())),
        memory: kept_at_least_one(k).spec_mul(row_width),
        network: zero(),
    }
}

/// The first `k` of `n` rows in order, given the binary logarithm of `k`, where
/// `k` is at least one.
pub fn topk_cost(n: Float64, k: Float64, log_k: Float64, row_width: Float64) -> (r: Cost)
    ensures
        r == topk_estimate(n, k, log_k, row_width),
{
    let nothing = Float64::from_bits(0);
    Cost {
        io: nothing,
        cpu: n.mul(log_k.max(nothing)),
        memory: effective_k(k).mul(row_width),
        network: nothing,
    }
}

/// A limit takes rows that are there anyway.
pub fn limit_cost() -> (r: Cost)
    ensures
        r == free(),
{
    Cost::zero()
}

} // verus!
