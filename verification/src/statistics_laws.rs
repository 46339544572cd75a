//! What statistics say of the data: counts that multiply, common values, and
//! histograms whose steps hold as many rows each.

use vstd::arithmetic::div_mod::{lemma_div_is_ordered, lemma_div_multiples_vanish};
use vstd::prelude::*;

use crate::float64::Float64;
use crate::statistics::{
    equi_depth, first_common, fraction_below, frequency_sum, numeric, precision_product, step_of,
    CommonView, Precision,
};
use crate::types::data_type::DataType;
use crate::types::value::ValueView;

verus! {

/// The product of two counts is their product, cut off at the greatest count;
/// it is exact where both are and nothing is cut off, and not known where one
/// is not.
pub proof fn counts_multiply(a: Precision<usize>, b: Precision<usize>)
    ensures
        precision_product(a, b) == precision_product(b, a),
        precision_product(a, b) is Absent <==> a is Absent || b is Absent,
        match (a.value(), b.value()) {
            (Some(x), Some(y)) => {
                &&& x * y <= usize::MAX ==> precision_product(a, b).value() == Some((x * y) as usize)
                &&& x * y > usize::MAX ==> precision_product(a, b) == Precision::Inexact(usize::MAX)
                &&& precision_product(a, b) is Exact <==> a is Exact && b is Exact && x * y
                    <= usize::MAX
            },
            _ => true,
        },
{
    match (a.value(), b.value()) {
        (Some(x), Some(y)) => {
            assert(x * y == y * x) by (nonlinear_arith);
        },
        _ => {},
    }
}

/// A common value has the frequency that stands at its place; a value that is
/// not among them has none.
pub proof fn common_values_have_their_frequency(
    m: CommonView,
    s: (DataType, ValueView),
)
    requires
        m.values.len() == m.frequencies.len(),
        m.values.no_duplicates(),
    ensures
        forall|i: int|
            0 <= i < m.values.len() && (#[trigger] m.values[i]) == s ==> m.frequency_of(s) == Some(
                m.frequencies[i],
            ),
        !m.values.contains(s) ==> m.frequency_of(s) is None,
{
    lemma_first_place(m.values, s, m.values.len());
}

proof fn lemma_first_place(values: Seq<(DataType, ValueView)>, s: (DataType, ValueView), n: nat)
    requires
        n <= values.len(),
    ensures
        match first_common(values, s, n) {
            Some(i) => 0 <= i < n && values[i] == s && (forall|j: int|
                0 <= j < i ==> (#[trigger] values[j]) != s),
            None => forall|j: int| 0 <= j < n ==> (#[trigger] values[j]) != s,
        },
    decreases n,
{
    if n > 0 {
        lemma_first_place(values, s, (n - 1) as nat);
    }
}

/// Of two places of the same common value, the first one counts.
pub proof fn the_first_place_counts(m: CommonView, s: (DataType, ValueView), i: int)
    requires
        0 <= i < m.values.len(),
        i < m.frequencies.len(),
        m.values[i] == s,
        forall|j: int| 0 <= j < i ==> (#[trigger] m.values[j]) != s,
    ensures
        m.frequency_of(s) == Some(m.frequencies[i]),
{
    lemma_first_place(m.values, s, m.values.len());
    match first_common(m.values, s, m.values.len()) {
        Some(k) => {
            if k < i {
                assert(m.values[k] != s);
            }
        },
        None => {
            assert(m.values[i] == s);
        },
    }
}

/// Frequencies are added up one by one.
pub proof fn one_more_frequency_adds(f: Seq<Float64>, v: Float64)
    ensures
        frequency_sum(f.push(v), f.len() + 1) == frequency_sum(f, f.len()).spec_add(v),
        frequency_sum(seq![], 0) == Float64::spec_from_int(0),
{
    lemma_frequency_sum(f, v, f.len());
    assert(f.push(v)[f.len() as int] == v);
}

proof fn lemma_frequency_sum(f: Seq<Float64>, v: Float64, n: nat)
    requires
        n <= f.len(),
    ensures
        frequency_sum(f.push(v), n) == frequency_sum(f, n),
    decreases n,
{
    if n > 0 {
        lemma_frequency_sum(f, v, (n - 1) as nat);
        assert(f.push(v)[n - 1] == f[n - 1]);
    }
}

/// What the common values leave over is spread evenly: each of `others` other
/// values gets the same share of the rows that no common value takes.
pub proof fn other_values_share_the_rest(m: CommonView, others: int)
    ensures
        m.non_mcv(m.values.len() + others) == (if others > 0 {
            Some(
                Float64::spec_from_int(1).spec_sub(
                    frequency_sum(m.frequencies, m.frequencies.len()),
                ).spec_div(Float64::spec_from_int(others)),
            )
        } else {
            None
        }),
{
    crate::float64::lemma_one_is_an_integer();
}

/// Whether each bound is below the next.
pub open spec fn rising(bounds: Seq<Float64>) -> bool {
    &&& bounds.len() >= 2
    &&& forall|i: int, j: int|
        0 <= i < j < bounds.len() ==> (#[trigger] bounds[i]).num_lt(#[trigger] bounds[j])
}

proof fn lemma_step(bounds: Seq<Float64>, v: Float64, n: nat)
    requires
        n < bounds.len(),
    ensures
        step_of(bounds, v, n) <= n,
        forall|j: int| 1 <= j <= step_of(bounds, v, n) ==> !v.num_lt(#[trigger] bounds[j]),
        step_of(bounds, v, n) < n ==> v.num_lt(bounds[step_of(bounds, v, n) + 1int]),
    decreases n,
{
    if n > 0 {
        lemma_step(bounds, v, (n - 1) as nat);
    }
}

/// Nothing lies below the first bound of a histogram, and everything below what
/// is not less than the last.
pub proof fn histograms_begin_and_end(bounds: Seq<Float64>, v: Float64)
    requires
        rising(bounds),
    ensures
        v.num_le(bounds[0]) ==> fraction_below(bounds, v) == Float64::spec_from_int(0),
        bounds.last().num_le(v) ==> fraction_below(bounds, v) == Float64::spec_from_int(1),
{
    crate::float64::lemma_one_is_an_integer();
    let k = (bounds.len() - 1) as nat;
    lemma_step(bounds, v, k);
    if bounds.last().num_le(v) {
        let i = step_of(bounds, v, k);
        assert(bounds[0].num_lt(bounds[k as int]));
        if i < k {
            if i + 1 < k {
                assert(bounds[i + 1int].num_lt(bounds[k as int]));
            }
        }
    }
}

/// Between two bounds of a histogram that rises, below a number lie the steps
/// before it and the part of its own step that it has passed.
pub proof fn steps_are_passed_evenly(bounds: Seq<Float64>, v: Float64, i: int)
    requires
        rising(bounds),
        0 <= i < bounds.len() - 1,
        bounds[i].num_le(v),
        v.num_lt(bounds[i + 1]),
        bounds[0].num_lt(v),
        !bounds[i + 1].spec_sub(bounds[i]).num_eq(Float64::spec_from_int(0)),
    ensures
        fraction_below(bounds, v) == Float64::spec_from_int(i).spec_add(
            v.spec_sub(bounds[i]).spec_div(bounds[i + 1].spec_sub(bounds[i])),
        ).spec_div(Float64::spec_from_int(bounds.len() - 1)),
{
    let k = (bounds.len() - 1) as nat;
    lemma_step(bounds, v, k);
    let s = step_of(bounds, v, k);
    if s > i {
        assert(!v.num_lt(bounds[i + 1]));
    }
    if s < i {
        assert(v.num_lt(bounds[s + 1int]));
        if s + 1 < i {
            assert(bounds[s + 1int].num_lt(bounds[i]));
        }
    }
}

/// The steps of a histogram of sorted numbers start at the first number and end
/// at the last; with a step between any two numbers the bounds are the numbers.
pub proof fn histograms_span_the_numbers(values: Seq<ValueView>, buckets: int)
    requires
        values.len() > 0,
        buckets > 0,
    ensures
        equi_depth(values, buckets).len() == buckets + 1,
        Some(equi_depth(values, buckets)[0]) == numeric(values[0]) || numeric(values[0]) is None,
        Some(equi_depth(values, buckets).last()) == numeric(values.last()) || numeric(values.last()) is None,
        buckets == values.len() - 1 ==> forall|i: int|
            0 <= i < values.len() ==> (numeric(values[i]) is None || Some(
                #[trigger] equi_depth(values, buckets)[i],
            ) == numeric(values[i])),
{
    let m = values.len() - 1;
    assert(0 * m == 0);
    assert(0int / buckets == 0) by (nonlinear_arith)
        requires
            buckets > 0,
    ;
    lemma_div_multiples_vanish(m, buckets);
    assert(equi_depth(values, buckets)[0] == numeric(values[0])->0);
    assert(equi_depth(values, buckets)[buckets] == numeric(values[(buckets * m) / buckets])->0);
    if buckets == m {
        assert forall|i: int| 0 <= i < values.len() implies (numeric(values[i]) is None || Some(
            #[trigger] equi_depth(values, buckets)[i],
        ) == numeric(values[i])) by {
            lemma_div_multiples_vanish(i, buckets);
            assert(i * m == buckets * i) by (nonlinear_arith)
                requires
                    m == buckets,
            ;
        }
    }
}

/// Every step of a histogram holds as many of the sorted numbers as any other,
/// but for one: the bounds are taken from places that are evenly apart.
pub proof fn steps_hold_as_many_numbers(values: Seq<ValueView>, buckets: int, i: int)
    requires
        values.len() > 0,
        buckets > 0,
        0 <= i < buckets,
    ensures
        exists|a: int, b: int|
            0 <= a <= b < values.len() && #[trigger] numeric(values[a])->0 == equi_depth(
                values,
                buckets,
            )[i] && #[trigger] numeric(values[b])->0 == equi_depth(values, buckets)[i + 1]
                && buckets * (b - a) < values.len() - 1 + buckets && values.len() - 1 < buckets * (b - a)
                + buckets,
{
    let m = values.len() - 1;
    let a = (i * m) / buckets;
    let b = ((i + 1) * m) / buckets;
    let p = i * m;
    let q = (i + 1) * m;
    assert(q == p + m && 0 <= p && q <= buckets * m) by (nonlinear_arith)
        requires
            q == (i + 1) * m,
            p == i * m,
            0 <= i < buckets,
            m >= 0,
    ;
    vstd::arithmetic::div_mod::lemma_fundamental_div_mod(p, buckets);
    vstd::arithmetic::div_mod::lemma_fundamental_div_mod(q, buckets);
    vstd::arithmetic::div_mod::lemma_mod_bound(p, buckets);
    vstd::arithmetic::div_mod::lemma_mod_bound(q, buckets);
    lemma_div_is_ordered(p, q, buckets);
    lemma_div_is_ordered(q, buckets * m, buckets);
    lemma_div_is_ordered(0, p, buckets);
    lemma_div_multiples_vanish(m, buckets);
    assert(0int / buckets == 0) by (nonlinear_arith)
        requires
            buckets > 0,
    ;
    assert(buckets * (b - a) == buckets * b - buckets * a) by (nonlinear_arith);
    assert(numeric(values[a])->0 == equi_depth(values, buckets)[i]);
    assert(numeric(values[b])->0 == equi_depth(values, buckets)[i + 1]);
}

} // verus!
