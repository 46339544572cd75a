//! Costs as vectors of resources, and the weights that make one number of them.

use vstd::prelude::*;
use vstd::arithmetic::power2::pow2;

use crate::float64::{scale, significand, units, Float64};

verus! {

/// What a plan uses of each resource. The parts are kept until two plans are
/// compared.
#[derive(Clone, Copy, Debug, PartialEq, Eq, Structural)]
pub struct Cost {
    /// Bytes read from storage.
    pub io: Float64,
    /// Tuples processed.
    pub cpu: Float64,
    /// The most bytes held at once.
    pub memory: Float64,
    /// Bytes sent to other machines.
    pub network: Float64,
}

/// What each resource weighs.
#[derive(Clone, Copy, Debug, PartialEq, Eq, Structural)]
pub struct CostWeights {
    pub io_per_byte: Float64,
    pub cpu_per_tuple: Float64,
    pub memory_penalty: Float64,
    pub network_per_byte: Float64,
}

/// The double zero.
pub open spec fn zero() -> Float64 {
    Float64 { bits: 0 }
}

/// Nothing.
pub open spec fn free() -> Cost {
    Cost { io: zero(), cpu: zero(), memory: zero(), network: zero() }
}

/// The weighted sum of a cost's parts.
pub open spec fn weighed(c: Cost, w: CostWeights) -> Float64 {
    c.io.spec_mul(w.io_per_byte).spec_add(c.cpu.spec_mul(w.cpu_per_tuple)).spec_add(
        c.memory.spec_mul(w.memory_penalty),
    ).spec_add(c.network.spec_mul(w.network_per_byte))
}

/// Two operators of one plan: the work adds up, and the memory is the greater
/// of the two, as operators that stream do not hold theirs at the same time.
pub open spec fn combined(a: Cost, b: Cost) -> Cost {
    Cost {
        io: a.io.spec_add(b.io),
        cpu: a.cpu.spec_add(b.cpu),
        memory: a.memory.spec_max(b.memory),
        network: a.network.spec_add(b.network),
    }
}

impl Cost {
    /// Nothing.
    pub fn zero() -> (r: Cost)
        ensures
            r == free(),
    {
        let nothing = Float64::from_bits(0);
        Cost { io: nothing, cpu: nothing, memory: nothing, network: nothing }
    }

    /// The weighted sum of the parts.
    pub fn total(&self, weights: &CostWeights) -> (r: Float64)
        ensures
            r == weighed(*self, *weights),
    {
        self.io.mul(weights.io_per_byte).add(self.cpu.mul(weights.cpu_per_tuple)).add(
            self.memory.mul(weights.memory_penalty),
        ).add(self.network.mul(weights.network_per_byte))
    }

    /// The cost of two operators of one plan.
    #[must_use]
    pub fn combine(&self, other: &Cost) -> (r: Cost)
        ensures
            r == combined(*self, *other),
    {
        Cost {
            io: self.io.add(other.io),
            cpu: self.cpu.add(other.cpu),
            memory: self.memory.max(other.memory),
            network: self.network.add(other.network),
        }
    }
}

/// One per byte read: the bits of 1.
pub const IO_PER_BYTE: u64 = 0x3FF0_0000_0000_0000;

/// A hundred per tuple: the bits of 100.
pub const CPU_PER_TUPLE: u64 = 0x4059_0000_0000_0000;

/// A thousandth per byte held: the bits of 0.001.
pub const MEMORY_PENALTY: u64 = 0x3F50_624D_D2F1_A9FC;

/// The weights for want of measured ones.
pub open spec fn default_weights() -> CostWeights {
    CostWeights {
        io_per_byte: Float64 { bits: IO_PER_BYTE },
        cpu_per_tuple: Float64 { bits: CPU_PER_TUPLE },
        memory_penalty: Float64 { bits: MEMORY_PENALTY },
        network_per_byte: zero(),
    }
}

/// The weights for a machine on which a tuple and a byte were timed. Memory and
/// network cannot be timed by themselves and keep their defaults.
pub open spec fn measured_weights(cpu_per_tuple: Float64, io_per_byte: Float64) -> CostWeights {
    CostWeights {
        io_per_byte,
        cpu_per_tuple,
        memory_penalty: default_weights().memory_penalty,
        network_per_byte: default_weights().network_per_byte,
    }
}

impl CostWeights {
    /// The weights for want of measured ones.
    pub fn defaults() -> (r: CostWeights)
        ensures
            r == default_weights(),
    {
        CostWeights {
            io_per_byte: Float64::from_bits(IO_PER_BYTE),
            cpu_per_tuple: Float64::from_bits(CPU_PER_TUPLE),
            memory_penalty: Float64::from_bits(MEMORY_PENALTY),
            network_per_byte: Float64::from_bits(0),
        }
    }

    /// The weights for a machine on which a tuple and a byte were timed.
    pub fn measured(cpu_per_tuple: Float64, io_per_byte: Float64) -> (r: CostWeights)
        ensures
            r == measured_weights(cpu_per_tuple, io_per_byte),
    {
        let defaults = CostWeights::defaults();
        CostWeights {
            io_per_byte,
            cpu_per_tuple,
            memory_penalty: defaults.memory_penalty,
            network_per_byte: defaults.network_per_byte,
        }
    }
}

/// Nothing costs nothing, under any weights that are finite numbers and not
/// negative.
pub proof fn free_plans_weigh_nothing(w: CostWeights)
    requires
        !w.io_per_byte.negative() && !w.io_per_byte.is_nan() && !w.io_per_byte.is_infinite(),
        !w.cpu_per_tuple.negative() && !w.cpu_per_tuple.is_nan() && !w.cpu_per_tuple.is_infinite(),
        !w.memory_penalty.negative() && !w.memory_penalty.is_nan()
            && !w.memory_penalty.is_infinite(),
        !w.network_per_byte.negative() && !w.network_per_byte.is_nan()
            && !w.network_per_byte.is_infinite(),
    ensures
        weighed(free(), w).num_eq(zero()),
{
    assert(units(0) == 0) by {
        assert(significand(0) == 0);
        assert(0 * pow2(scale(0)) == 0) by (nonlinear_arith);
    }
    assert(zero().value() == 0);
    assert(zero().spec_mul(w.io_per_byte) == zero());
    assert(zero().spec_mul(w.cpu_per_tuple) == zero());
    assert(zero().spec_mul(w.memory_penalty) == zero());
    assert(zero().spec_mul(w.network_per_byte) == zero());
    assert(zero().spec_add(zero()) == zero());
}

} // verus!
