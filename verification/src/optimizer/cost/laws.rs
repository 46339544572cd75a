//! Costs in whole numbers: how many steps, bytes read and bytes held an
//! operator is charged with.

use vstd::prelude::*;

use crate::float64::{
    lemma_hundred_is_an_integer, lemma_one_is_an_integer, lemma_two_is_an_integer, Float64, LIMIT,
};
use crate::float_laws::{
    integers_add, integers_multiply, integers_order, integers_subtract, lemma_integer,
};
use crate::optimizer::cost::model::{
    combined, default_weights, free, measured_weights, weighed, Cost, CostWeights,
};
use crate::optimizer::cost::operators::{
    aggregate_estimate, hash_join_estimate, nested_loop_estimate, scan_estimate, sort_estimate,
    step_estimate, topk_estimate,
};

verus! {

/// A whole number as a double.
pub open spec fn whole(n: int) -> Float64 {
    Float64::spec_from_int(n)
}

/// Whether a whole number is not negative and counted exactly by a double.
pub open spec fn count(n: int) -> bool {
    0 <= n < LIMIT
}

/// A cost in whole numbers.
pub open spec fn charge(io: int, cpu: int, memory: int, network: int) -> Cost {
    Cost { io: whole(io), cpu: whole(cpu), memory: whole(memory), network: whole(network) }
}

/// The greater of two whole numbers.
pub open spec fn most(a: int, b: int) -> int {
    if a < b {
        b
    } else {
        a
    }
}

proof fn lemma_most(a: int, b: int)
    requires
        count(a),
        count(b),
    ensures
        whole(a).spec_max(whole(b)) == whole(most(a, b)),
{
    integers_order(a, b);
    lemma_integer(a);
}

proof fn lemma_nothing()
    ensures
        whole(0) == (Float64 { bits: 0 }),
        free() == charge(0, 0, 0, 0),
{
}

/// The costs of two operators add up: bytes read, steps and bytes sent. Bytes
/// held do not: the plan needs as much memory as the operator that needs most.
pub proof fn costs_add_up(
    io: int,
    cpu: int,
    memory: int,
    network: int,
    io2: int,
    cpu2: int,
    memory2: int,
    network2: int,
)
    requires
        0 <= io && 0 <= io2 && count(io + io2),
        0 <= cpu && 0 <= cpu2 && count(cpu + cpu2),
        count(memory) && count(memory2),
        0 <= network && 0 <= network2 && count(network + network2),
    ensures
        combined(charge(io, cpu, memory, network), charge(io2, cpu2, memory2, network2)) == charge(
            io + io2,
            cpu + cpu2,
            most(memory, memory2),
            network + network2,
        ),
{
    integers_add(io, io2);
    integers_add(cpu, cpu2);
    integers_add(network, network2);
    lemma_most(memory, memory2);
}

/// A cost weighs the sum of its parts, each times its own weight.
pub proof fn every_part_has_its_weight(
    io: int,
    cpu: int,
    memory: int,
    network: int,
    per_io: int,
    per_cpu: int,
    per_memory: int,
    per_network: int,
)
    requires
        count(io) && count(cpu) && count(memory) && count(network),
        count(per_io) && count(per_cpu) && count(per_memory) && count(per_network),
        io * per_io + cpu * per_cpu + memory * per_memory + network * per_network < LIMIT,
    ensures
        weighed(
            charge(io, cpu, memory, network),
            (CostWeights {
                io_per_byte: whole(per_io),
                cpu_per_tuple: whole(per_cpu),
                memory_penalty: whole(per_memory),
                network_per_byte: whole(per_network),
            }),
        ) == whole(io * per_io + cpu * per_cpu + memory * per_memory + network * per_network),
{
    let a = io * per_io;
    let b = cpu * per_cpu;
    let c = memory * per_memory;
    let d = network * per_network;
    assert(0 <= a && 0 <= b && 0 <= c && 0 <= d) by (nonlinear_arith)
        requires
            a == io * per_io,
            b == cpu * per_cpu,
            c == memory * per_memory,
            d == network * per_network,
            0 <= io,
            0 <= cpu,
            0 <= memory,
            0 <= network,
            0 <= per_io,
            0 <= per_cpu,
            0 <= per_memory,
            0 <= per_network,
    ;
    integers_multiply(io, per_io);
    integers_multiply(cpu, per_cpu);
    integers_multiply(memory, per_memory);
    integers_multiply(network, per_network);
    integers_add(a, b);
    integers_add(a + b, c);
    integers_add(a + b + c, d);
}

/// For want of measured weights a byte read weighs one and a tuple a hundred;
/// bytes sent weigh nothing. Measured weights replace the first two alone.
pub proof fn tuples_weigh_a_hundred_bytes(tuple: Float64, byte: Float64)
    ensures
        default_weights().io_per_byte == whole(1),
        default_weights().cpu_per_tuple == whole(100),
        default_weights().network_per_byte == whole(0),
        whole(0).num_lt(default_weights().memory_penalty),
        default_weights().memory_penalty.num_lt(whole(1)),
        measured_weights(tuple, byte).cpu_per_tuple == tuple,
        measured_weights(tuple, byte).io_per_byte == byte,
        measured_weights(tuple, byte).memory_penalty == default_weights().memory_penalty,
        measured_weights(tuple, byte).network_per_byte == default_weights().network_per_byte,
{
    lemma_one_is_an_integer();
    lemma_hundred_is_an_integer();
    let p = default_weights().memory_penalty;
    assert(p.magnitude() == p.bits as int && !p.negative());
    let o = Float64 { bits: 0x3FF0_0000_0000_0000 };
    assert(o.magnitude() == o.bits as int && !o.negative());
    let z = Float64 { bits: 0 };
    assert(z.magnitude() == 0 && !z.negative());
}

/// A scan reads its bytes and takes a step per row.
pub proof fn scans_read_their_bytes(bytes: int, rows: int)
    ensures
        scan_estimate(whole(bytes), whole(rows)) == charge(bytes, rows, 0, 0),
{
    lemma_nothing();
}

/// A filter takes a step per row and predicate, a projection a step per row and
/// expression; where there is none, a step per row.
pub proof fn every_row_takes_its_steps(rows: int, steps: int)
    requires
        count(rows),
        count(steps),
        rows * most(steps, 1) < LIMIT,
    ensures
        step_estimate(whole(rows), whole(steps)) == charge(0, rows * most(steps, 1), 0, 0),
{
    lemma_nothing();
    lemma_one_is_an_integer();
    lemma_most(steps, 1);
    integers_multiply(rows, most(steps, 1));
}

/// A hash join takes a step for each row of the table it builds, each row it
/// looks up and each row that comes out, and holds the table's rows.
pub proof fn hash_joins_hold_the_build_side(build: int, probe: int, output: int, width: int)
    requires
        0 <= build,
        0 <= probe,
        0 <= output,
        count(build + probe + output),
        count(width),
        build * width < LIMIT,
    ensures
        hash_join_estimate(whole(build), whole(probe), whole(output), whole(width)) == charge(
            0,
            build + probe + output,
            build * width,
            0,
        ),
{
    lemma_nothing();
    integers_add(build, probe);
    integers_add(build + probe, output);
    integers_multiply(build, width);
}

/// A nested-loop join takes a step for each pair of rows.
pub proof fn nested_loops_try_every_pair(left: int, right: int)
    requires
        count(left),
        count(right),
        left * right < LIMIT,
    ensures
        nested_loop_estimate(whole(left), whole(right)) == charge(0, left * right, 0, 0),
{
    lemma_nothing();
    integers_multiply(left, right);
}

/// An aggregation takes a step for each row and each group, and holds a state
/// for each group.
pub proof fn aggregations_hold_their_groups(rows: int, groups: int, width: int)
    requires
        0 <= rows,
        0 <= groups,
        count(rows + groups),
        count(width),
        groups * width < LIMIT,
    ensures
        aggregate_estimate(whole(rows), whole(groups), whole(width)) == charge(
            0,
            rows + groups,
            groups * width,
            0,
        ),
{
    lemma_nothing();
    integers_add(rows, groups);
    integers_multiply(groups, width);
}

/// A sort takes as many steps for each row as the logarithm says. Rows that fit
/// into the memory allowed are all held; of others as many bytes are held as
/// are allowed, and the rest is written out and read back. Where no memory is
/// allowed there is no limit. A single row needs no sorting.
pub proof fn sorts_spill_what_does_not_fit(rows: int, log: int, width: int, budget: int)
    requires
        count(rows),
        count(log),
        count(width),
        count(budget),
        rows * log < LIMIT,
        rows * width < LIMIT,
        (rows * width - budget) * 2 < LIMIT,
    ensures
        sort_estimate(whole(rows), whole(log), whole(width), whole(budget)) == ({
            let steps = if rows > 1 {
                rows * log
            } else {
                0
            };
            if 0 < budget < rows * width {
                charge(2 * (rows * width - budget), steps, budget, 0)
            } else {
                charge(0, steps, rows * width, 0)
            }
        }),
{
    lemma_nothing();
    lemma_one_is_an_integer();
    lemma_two_is_an_integer();
    integers_order(1, rows);
    integers_order(0, budget);
    let live = rows * width;
    assert(live >= 0) by (nonlinear_arith)
        requires
            rows >= 0,
            width >= 0,
            live == rows * width,
    ;
    integers_order(budget, live);
    integers_multiply(rows, log);
    integers_multiply(rows, width);
    if 0 < budget < live {
        integers_subtract(live, budget);
        integers_multiply(live - budget, 2);
        assert((live - budget) * 2 == 2 * (live - budget));
    }
}

/// A top-k holds the rows that it keeps, at least one, and takes as many steps
/// for each row as the logarithm of their number says.
pub proof fn top_k_holds_what_it_keeps(rows: int, k: int, log: int, width: int)
    requires
        count(rows),
        count(k),
        count(log),
        count(width),
        rows * log < LIMIT,
        most(k, 1) * width < LIMIT,
    ensures
        topk_estimate(whole(rows), whole(k), whole(log), whole(width)) == charge(
            0,
            rows * log,
            most(k, 1) * width,
            0,
        ),
{
    lemma_nothing();
    lemma_one_is_an_integer();
    lemma_most(log, 0);
    lemma_most(k, 1);
    integers_multiply(rows, log);
    integers_multiply(most(k, 1), width);
}

} // verus!
