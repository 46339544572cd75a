//! What is known of a table's contents without reading it.

use vstd::prelude::*;

use crate::array::Array;
use crate::error::{BasaltError, ErrorKind};
use crate::float64::Float64;
use crate::scalar::ScalarValue;
use crate::types::data_type::DataType;
use crate::types::value::{Value, ValueView};

verus! {

/// A number or value together with how far it can be trusted. Trust only
/// degrades on the way up a plan.
#[derive(Debug, Clone, Copy, PartialEq, Eq)]
pub enum Precision<T> {
    /// Known to hold.
    Exact(T),
    /// An estimate.
    Inexact(T),
    /// Not known at all.
    Absent,
}

impl<T> Precision<T> {
    /// The value, whatever its precision.
    pub open spec fn value(self) -> Option<T> {
        match self {
            Precision::Exact(v) => Some(v),
            Precision::Inexact(v) => Some(v),
            Precision::Absent => None,
        }
    }

    /// The same value as an estimate.
    pub open spec fn weakened(self) -> Precision<T> {
        match self {
            Precision::Exact(v) => Precision::Inexact(v),
            p => p,
        }
    }

    pub fn get_value(&self) -> (r: Option<&T>)
        ensures
            match r {
                Some(v) => self.value() == Some(*v),
                None => self.value() is None,
            },
    {
        match self {
            Precision::Exact(v) => Some(v),
            Precision::Inexact(v) => Some(v),
            Precision::Absent => None,
        }
    }

    pub fn is_exact(&self) -> (r: bool)
        ensures
            r == (*self is Exact),
    {
        match self {
            Precision::Exact(v) => true,
            _ => false,
        }
    }

    pub fn is_absent(&self) -> (r: bool)
        ensures
            r == (*self is Absent),
    {
        match self {
            Precision::Absent => true,
            _ => false,
        }
    }

    pub fn to_inexact(self) -> (r: Precision<T>)
        ensures
            r == self.weakened(),
    {
        match self {
            Precision::Exact(v) => Precision::Inexact(v),
            Precision::Inexact(v) => Precision::Inexact(v),
            Precision::Absent => Precision::Absent,
        }
    }

    /// Rewrites the value, and keeps the precision.
    pub fn map<U, F: FnOnce(T) -> U>(self, f: F) -> (r: Precision<U>)
        requires
            self.value() is Some ==> f.requires((self.value()->0,)),
        ensures
            (r is Exact) == (self is Exact),
            (r is Absent) == (self is Absent),
            self.value() is Some ==> f.ensures((self.value()->0,), r.value()->0),
    {
        match self {
            Precision::Exact(v) => Precision::Exact(f(v)),
            Precision::Inexact(v) => Precision::Inexact(f(v)),
            Precision::Absent => Precision::Absent,
        }
    }
}

/// The product of two counts, or the greatest count when it is larger.
pub open spec fn count_product(a: int, b: int) -> usize {
    if a * b > usize::MAX {
        usize::MAX
    } else {
        (a * b) as usize
    }
}

/// The product of two counts: exact only when both are and it is not cut off.
pub open spec fn precision_product(a: Precision<usize>, b: Precision<usize>) -> Precision<usize> {
    match (a, b) {
        (Precision::Absent, _) => Precision::Absent,
        (_, Precision::Absent) => Precision::Absent,
        (Precision::Exact(x), Precision::Exact(y)) => if x * y > usize::MAX {
            Precision::Inexact(usize::MAX)
        } else {
            Precision::Exact((x * y) as usize)
        },
        _ => Precision::Inexact(
            count_product(a.value()->0 as int, b.value()->0 as int),
        ),
    }
}

/// The product of two counts, or the greatest count when it is larger.
pub fn saturating_product(a: usize, b: usize) -> (r: usize)
    ensures
        r == count_product(a as int, b as int),
{
    match a.checked_mul(b) {
        Some(n) => n,
        None => usize::MAX,
    }
}

impl Precision<usize> {
    /// The product of two counts.
    pub fn multiply(&self, other: &Precision<usize>) -> (r: Precision<usize>)
        ensures
            r == precision_product(*self, *other),
    {
        match (*self, *other) {
            (Precision::Absent, _) => Precision::Absent,
            (_, Precision::Absent) => Precision::Absent,
            (Precision::Exact(x), Precision::Exact(y)) => match x.checked_mul(y) {
                Some(n) => Precision::Exact(n),
                None => Precision::Inexact(usize::MAX),
            },
            (Precision::Exact(x), Precision::Inexact(y)) => Precision::Inexact(
                saturating_product(x, y),
            ),
            (Precision::Inexact(x), Precision::Exact(y)) => Precision::Inexact(
                saturating_product(x, y),
            ),
            (Precision::Inexact(x), Precision::Inexact(y)) => Precision::Inexact(
                saturating_product(x, y),
            ),
        }
    }
}

/// A scalar as its type and value.
pub open spec fn typed_scalar(s: ScalarValue) -> (DataType, ValueView) {
    (s.spec_data_type(), s@)
}

/// A value with a precision, as its type and value.
pub open spec fn typed_precision(p: Precision<ScalarValue>) -> Precision<(DataType, ValueView)> {
    match p {
        Precision::Exact(s) => Precision::Exact(typed_scalar(s)),
        Precision::Inexact(s) => Precision::Inexact(typed_scalar(s)),
        Precision::Absent => Precision::Absent,
    }
}

/// Copies a scalar with its precision.
pub fn copy_precision(p: &Precision<ScalarValue>) -> (r: Precision<ScalarValue>)
    ensures
        typed_precision(r) == typed_precision(*p),
{
    match p {
        Precision::Exact(s) => Precision::Exact(s.copy()),
        Precision::Inexact(s) => Precision::Inexact(s.copy()),
        Precision::Absent => Precision::Absent,
    }
}

/// A number as a double; `None` for a null or a value that is no number.
pub open spec fn numeric(v: ValueView) -> Option<Float64> {
    match v {
        ValueView::Int64(n) => Some(Float64::spec_from_int(n as int)),
        ValueView::Float64(x) => Some(x),
        _ => None,
    }
}

/// A number as a double.
pub fn as_number(v: &ScalarValue) -> (r: Option<Float64>)
    ensures
        r == numeric(v@),
{
    match v {
        ScalarValue::Int64(Some(n)) => Some(Float64::from_i64(*n)),
        ScalarValue::Float64(Some(x)) => Some(*x),
        _ => None,
    }
}

// ---------------------------------------------------------------------------
// Most common values

/// The values that occur most often, and the fraction of rows each takes.
#[derive(Debug, Clone)]
pub struct MostCommonValues {
    pub values: Vec<ScalarValue>,
    pub frequencies: Vec<Float64>,
}

/// The model of the most common values.
pub struct CommonView {
    pub values: Seq<(DataType, ValueView)>,
    pub frequencies: Seq<Float64>,
}

/// The first of the common values that equals a scalar.
pub open spec fn first_common(values: Seq<(DataType, ValueView)>, s: (DataType, ValueView), n: nat) -> Option<
    int,
>
    decreases n,
{
    if n == 0 {
        None
    } else {
        match first_common(values, s, (n - 1) as nat) {
            Some(i) => Some(i),
            None => if values[n - 1] == s {
                Some(n - 1)
            } else {
                None
            },
        }
    }
}

/// The sum of the first `n` frequencies.
pub open spec fn frequency_sum(f: Seq<Float64>, n: nat) -> Float64
    decreases n,
{
    if n == 0 {
        Float64 { bits: 0 }
    } else {
        frequency_sum(f, (n - 1) as nat).spec_add(f[n - 1])
    }
}

pub const ONE: u64 = 0x3FF0_0000_0000_0000;

/// The double one.
pub open spec fn one() -> Float64 {
    Float64 { bits: ONE }
}

impl CommonView {
    /// The frequency of a common value.
    pub open spec fn frequency_of(self, s: (DataType, ValueView)) -> Option<Float64> {
        match first_common(self.values, s, self.values.len()) {
            Some(i) => if i < self.frequencies.len() {
                Some(self.frequencies[i])
            } else {
                None
            },
            None => None,
        }
    }

    /// The fraction of rows that each of the other values takes, if the rest
    /// is spread over them evenly; `None` when there are no others.
    pub open spec fn non_mcv(self, ndv: int) -> Option<Float64> {
        if ndv > self.values.len() {
            Some(
                one().spec_sub(frequency_sum(self.frequencies, self.frequencies.len())).spec_div(
                    Float64::spec_from_int(ndv - self.values.len()),
                ),
            )
        } else {
            None
        }
    }
}

impl MostCommonValues {
    pub open spec fn view(&self) -> CommonView {
        CommonView {
            values: Seq::new(self.values@.len(), |i: int| typed_scalar(self.values@[i])),
            frequencies: self.frequencies@,
        }
    }

    /// The frequency of a common value.
    pub fn frequency_of(&self, scalar: &ScalarValue) -> (r: Option<Float64>)
        ensures
            r == self@.frequency_of(typed_scalar(*scalar)),
    {
        let ghost values = self@.values;
        let mut i: usize = 0;
        while i < self.values.len()
            invariant
                i <= self.values@.len(),
                values == self@.values,
                first_common(values, typed_scalar(*scalar), i as nat) is None,
            decreases self.values@.len() - i,
        {
            assert(values[i as int] == typed_scalar(self.values@[i as int]));
            if self.values[i].same(scalar) {
                proof {
                    lemma_first_common(values, typed_scalar(*scalar), (i + 1) as nat);
                }
                return if i < self.frequencies.len() {
                    Some(self.frequencies[i])
                } else {
                    None
                };
            }
            i = i + 1;
        }
        None
    }

    /// The fraction of rows that each of the other values takes.
    pub fn non_mcv_selectivity(&self, ndv: usize) -> (r: Option<Float64>)
        ensures
            r == self@.non_mcv(ndv as int),
    {
        let count: usize = self.values.len();
        if ndv <= count {
            return None;
        }
        let mut sum = Float64::from_bits(0);
        let mut i: usize = 0;
        while i < self.frequencies.len()
            invariant
                i <= self.frequencies@.len(),
                sum == frequency_sum(self.frequencies@, i as nat),
            decreases self.frequencies@.len() - i,
        {
            sum = sum.add(self.frequencies[i]);
            i = i + 1;
        }
        let rest = Float64::from_bits(ONE).sub(sum);
        Some(rest.div(Float64::from_u64((ndv - count) as u64)))
    }

    pub fn copy(&self) -> (r: MostCommonValues)
        ensures
            r@ == self@,
    {
        let mut values: Vec<ScalarValue> = Vec::new();
        let mut i: usize = 0;
        while i < self.values.len()
            invariant
                i <= self.values@.len(),
                values@.len() == i,
                forall|k: int|
                    0 <= k < i ==> typed_scalar(#[trigger] values@[k]) == typed_scalar(
                        self.values@[k],
                    ),
            decreases self.values@.len() - i,
        {
            values.push(self.values[i].copy());
            i = i + 1;
        }
        let frequencies = copy_numbers(&self.frequencies);
        let r = MostCommonValues { values, frequencies };
        assert(r@.values =~= self@.values);
        r
    }
}

proof fn lemma_first_common(values: Seq<(DataType, ValueView)>, s: (DataType, ValueView), n: nat)
    requires
        n <= values.len(),
        first_common(values, s, n) is Some,
    ensures
        first_common(values, s, values.len()) == first_common(values, s, n),
    decreases values.len() - n,
{
    if n < values.len() {
        lemma_first_common(values, s, n + 1);
    }
}

fn copy_numbers(v: &Vec<Float64>) -> (r: Vec<Float64>)
    ensures
        r@ == v@,
{
    let mut out: Vec<Float64> = Vec::new();
    let mut i: usize = 0;
    while i < v.len()
        invariant
            i <= v@.len(),
            out@ == v@.take(i as int),
        decreases v@.len() - i,
    {
        out.push(v[i]);
        assert(v@.take(i + 1) =~= v@.take(i as int).push(v@[i as int]));
        i = i + 1;
    }
    assert(out@ =~= v@);
    out
}

// ---------------------------------------------------------------------------
// Histograms

/// An equi-depth histogram: each step between bounds holds as many rows as any
/// other.
#[derive(Debug)]
pub struct Histogram {
    bounds: Vec<Float64>,
}

/// The first of `n` steps that ends above `v`; `n` when none does.
pub open spec fn step_of(bounds: Seq<Float64>, v: Float64, n: nat) -> nat
    decreases n,
{
    if n == 0 {
        0
    } else {
        let i = step_of(bounds, v, (n - 1) as nat);
        if i < n - 1 || v.num_lt(bounds[n as int]) {
            i
        } else {
            n
        }
    }
}

/// The fraction of rows below `v`: whole steps, and of the step that `v` falls
/// into a share that grows evenly.
pub open spec fn fraction_below(bounds: Seq<Float64>, v: Float64) -> Float64 {
    let k = (bounds.len() - 1) as nat;
    let i = step_of(bounds, v, k);
    if !bounds[0].num_lt(v) {
        Float64 { bits: 0 }
    } else if i >= k {
        one()
    } else {
        let width = bounds[i + 1int].spec_sub(bounds[i as int]);
        let share = if width.num_eq(Float64 { bits: 0 }) {
            Float64 { bits: 0 }
        } else {
            v.spec_sub(bounds[i as int]).spec_div(width)
        };
        Float64::spec_from_int(i as int).spec_add(share).spec_div(Float64::spec_from_int(k as int))
    }
}

/// The bounds of `buckets` steps over sorted numbers.
pub open spec fn equi_depth(values: Seq<ValueView>, buckets: int) -> Seq<Float64> {
    Seq::new(
        (buckets + 1) as nat,
        |i: int| numeric(values[(i * (values.len() - 1)) / buckets])->0,
    )
}

impl Histogram {
    /// The bounds of the steps.
    pub closed spec fn view(&self) -> Seq<Float64> {
        self.bounds@
    }

    #[verifier::type_invariant]
    spec fn inv(self) -> bool {
        self.bounds@.len() >= 2
    }

    /// A histogram of `buckets` steps over sorted numbers.
    ///
    /// # Errors
    /// An internal error without numbers or steps; a type error where a bound
    /// would not be a number.
    pub fn from_sorted(values: &Array, buckets: usize) -> (r: Result<Histogram, BasaltError>)
        ensures
            match r {
                Ok(h) => {
                    &&& values@.values.len() > 0
                    &&& buckets > 0
                    &&& h@ == equi_depth(values@.values, buckets as int)
                    &&& forall|i: int|
                        0 <= i <= buckets ==> numeric(
                            values@.values[#[trigger] ((i * (values@.values.len() - 1))
                                / buckets as int)],
                        ) is Some
                },
                Err(e) => if values@.values.len() == 0 || buckets == 0 {
                    e@ == ErrorKind::Internal
                } else {
                    e@ == ErrorKind::Type && exists|i: int|
                        0 <= i <= buckets && numeric(
                            values@.values[#[trigger] ((i * (values@.values.len() - 1))
                                / buckets as int)],
                        ) is None
                },
            },
    {
        let n: usize = values.len();
        if n == 0 || buckets == 0 {
            return Err(BasaltError::internal("a histogram needs rows and buckets"));
        }
        let ghost vals = values@.values;
        let mut bounds: Vec<Float64> = Vec::new();
        let mut i: usize = 0;
        loop
            invariant_except_break
                bounds@.len() == i,
            invariant
                i <= buckets,
                n == vals.len(),
                n > 0,
                buckets > 0,
                vals == values@.values,
                forall|k: int|
                    0 <= k < i ==> #[trigger] bounds@[k] == equi_depth(vals, buckets as int)[k],
                forall|k: int|
                    0 <= k < i ==> numeric(
                        vals[#[trigger] ((k * (vals.len() - 1)) / buckets as int)],
                    ) is Some,
            ensures
                bounds@.len() == buckets + 1,
                forall|k: int|
                    0 <= k <= buckets ==> #[trigger] bounds@[k] == equi_depth(
                        vals,
                        buckets as int,
                    )[k],
                forall|k: int|
                    0 <= k <= buckets ==> numeric(
                        vals[#[trigger] ((k * (vals.len() - 1)) / buckets as int)],
                    ) is Some,
            decreases buckets - i,
        {
            proof {
                let a = i as int;
                let b = n - 1;
                let c = buckets as int;
                assert(0 <= a * b <= c * b) by (nonlinear_arith)
                    requires
                        0 <= a <= c,
                        0 <= b,
                ;
                assert(c * b <= usize::MAX * usize::MAX) by (nonlinear_arith)
                    requires
                        0 <= c <= usize::MAX,
                        0 <= b <= usize::MAX,
                ;
                assert((c * b) / c == b) by (nonlinear_arith)
                    requires
                        c > 0,
                ;
                assert((a * b) / c <= (c * b) / c) by (nonlinear_arith)
                    requires
                        c > 0,
                        0 <= a * b <= c * b,
                ;
                assert(0 <= (a * b) / c) by (nonlinear_arith)
                    requires
                        c > 0,
                        0 <= a * b,
                ;
                assert(usize::MAX * usize::MAX <= u128::MAX) by (nonlinear_arith)
                    requires
                        0 <= usize::MAX <= u64::MAX,
                ;
            }
            let at: usize = ((i as u128 * (n - 1) as u128) / buckets as u128) as usize;
            assert(at == (i * (vals.len() - 1)) / buckets as int);
            let x = match values.value(at) {
                Value::Int64(v) => Float64::from_i64(v),
                Value::Float64(v) => v,
                _ => {
                    assert(numeric(vals[(i * (vals.len() - 1)) / buckets as int]) is None);
                    return Err(BasaltError::type_error("a histogram is over numbers"));
                },
            };
            bounds.push(x);
            if i == buckets {
                break;
            }
            i = i + 1;
        }
        assert(bounds@ =~= equi_depth(vals, buckets as int));
        Ok(Histogram { bounds })
    }

    /// The fraction of rows below a number.
    ///
    /// # Errors
    /// A type error for what is no number.
    pub fn less_than(&self, scalar: &ScalarValue) -> (r: Result<Float64, BasaltError>)
        ensures
            match r {
                Ok(f) => numeric(scalar@) is Some && f == fraction_below(
                    self@,
                    numeric(scalar@)->0,
                ),
                Err(e) => e@ == ErrorKind::Type && numeric(scalar@) is None,
            },
    {
        proof {
            use_type_invariant(self);
        }
        let v = match as_number(scalar) {
            Some(v) => v,
            None => {
                return Err(BasaltError::type_error("a histogram is over numbers"));
            },
        };
        let zero = Float64::from_bits(0);
        if !self.bounds[0].lt_num(v) {
            return Ok(zero);
        }
        let k: usize = self.bounds.len() - 1;
        let mut i: usize = 0;
        while i < k && !v.lt_num(self.bounds[i + 1])
            invariant
                i <= k,
                k == self.bounds@.len() - 1,
                step_of(self.bounds@, v, i as nat) == i,
            decreases k - i,
        {
            i = i + 1;
        }
        proof {
            if i < k {
                lemma_step_found(self.bounds@, v, i as nat, k as nat);
            }
        }
        if i >= k {
            return Ok(Float64::from_bits(ONE));
        }
        let width = self.bounds[i + 1].sub(self.bounds[i]);
        let share = if width.eq_num(zero) {
            zero
        } else {
            v.sub(self.bounds[i]).div(width)
        };
        Ok(Float64::from_u64(i as u64).add(share).div(Float64::from_u64(k as u64)))
    }

    /// The fraction of rows from one number up to another.
    ///
    /// # Errors
    /// A type error where either is no number.
    pub fn range(&self, lo: &ScalarValue, hi: &ScalarValue) -> (r: Result<Float64, BasaltError>)
        ensures
            match r {
                Ok(f) => {
                    &&& numeric(lo@) is Some
                    &&& numeric(hi@) is Some
                    &&& f == fraction_below(self@, numeric(hi@)->0).spec_sub(
                        fraction_below(self@, numeric(lo@)->0),
                    ).spec_max(Float64 { bits: 0 })
                },
                Err(e) => e@ == ErrorKind::Type && (numeric(lo@) is None || numeric(hi@) is None),
            },
    {
        let below_hi = match self.less_than(hi) {
            Ok(f) => f,
            Err(e) => {
                return Err(e);
            },
        };
        let below_lo = match self.less_than(lo) {
            Ok(f) => f,
            Err(e) => {
                return Err(e);
            },
        };
        Ok(below_hi.sub(below_lo).max(Float64::from_bits(0)))
    }

    pub fn copy(&self) -> (r: Histogram)
        ensures
            r@ == self@,
    {
        proof {
            use_type_invariant(self);
        }
        Histogram { bounds: copy_numbers(&self.bounds) }
    }
}

impl Clone for Histogram {
    fn clone(&self) -> (r: Histogram)
        ensures
            r@ == self@,
    {
        self.copy()
    }
}

proof fn lemma_step_found(bounds: Seq<Float64>, v: Float64, i: nat, n: nat)
    requires
        step_of(bounds, v, i) == i,
        v.num_lt(bounds[i + 1int]),
        i < n,
    ensures
        step_of(bounds, v, n) == i,
    decreases n,
{
    if n > i + 1 {
        lemma_step_found(bounds, v, i, (n - 1) as nat);
    }
}

// ---------------------------------------------------------------------------
// Columns and tables

#[derive(Debug, Clone)]
pub struct ColumnStatistics {
    pub null_count: Precision<usize>,
    pub distinct_count: Precision<usize>,
    pub min_value: Precision<ScalarValue>,
    pub max_value: Precision<ScalarValue>,
    pub mcv: Option<MostCommonValues>,
    pub histogram: Option<Histogram>,
}

/// The model of a column's statistics.
pub struct ColumnStatsView {
    pub null_count: Precision<usize>,
    pub distinct_count: Precision<usize>,
    pub min_value: Precision<(DataType, ValueView)>,
    pub max_value: Precision<(DataType, ValueView)>,
    pub mcv: Option<CommonView>,
    pub histogram: Option<Seq<Float64>>,
}

/// Nothing known of a column.
pub open spec fn unknown_column() -> ColumnStatsView {
    ColumnStatsView {
        null_count: Precision::Absent,
        distinct_count: Precision::Absent,
        min_value: Precision::Absent,
        max_value: Precision::Absent,
        mcv: None,
        histogram: None,
    }
}

impl ColumnStatsView {
    /// The same statistics as estimates.
    pub open spec fn weakened(self) -> ColumnStatsView {
        ColumnStatsView {
            null_count: self.null_count.weakened(),
            distinct_count: self.distinct_count.weakened(),
            min_value: self.min_value.weakened(),
            max_value: self.max_value.weakened(),
            mcv: self.mcv,
            histogram: self.histogram,
        }
    }
}

impl ColumnStatistics {
    pub open spec fn view(&self) -> ColumnStatsView {
        ColumnStatsView {
            null_count: self.null_count,
            distinct_count: self.distinct_count,
            min_value: typed_precision(self.min_value),
            max_value: typed_precision(self.max_value),
            mcv: match self.mcv {
                Some(m) => Some(m@),
                None => None,
            },
            histogram: match self.histogram {
                Some(h) => Some(h@),
                None => None,
            },
        }
    }

    /// Nothing known.
    pub fn unknown() -> (r: ColumnStatistics)
        ensures
            r@ == unknown_column(),
    {
        ColumnStatistics {
            null_count: Precision::Absent,
            distinct_count: Precision::Absent,
            min_value: Precision::Absent,
            max_value: Precision::Absent,
            mcv: None,
            histogram: None,
        }
    }

    pub fn copy(&self) -> (r: ColumnStatistics)
        ensures
            r@ == self@,
    {
        let mcv = match &self.mcv {
            Some(m) => Some(m.copy()),
            None => None,
        };
        let histogram = match &self.histogram {
            Some(h) => Some(h.copy()),
            None => None,
        };
        ColumnStatistics {
            null_count: self.null_count,
            distinct_count: self.distinct_count,
            min_value: copy_precision(&self.min_value),
            max_value: copy_precision(&self.max_value),
            mcv,
            histogram,
        }
    }

    /// The same statistics as estimates.
    pub fn degrade(self) -> (r: ColumnStatistics)
        ensures
            r@ == self@.weakened(),
    {
        ColumnStatistics {
            null_count: self.null_count.to_inexact(),
            distinct_count: self.distinct_count.to_inexact(),
            min_value: self.min_value.to_inexact(),
            max_value: self.max_value.to_inexact(),
            mcv: self.mcv,
            histogram: self.histogram,
        }
    }
}

#[derive(Debug, Clone)]
pub struct TableStatistics {
    pub num_rows: Precision<usize>,
    pub total_byte_size: Precision<usize>,
    pub column_statistics: Vec<ColumnStatistics>,
}

/// The model of a table's statistics.
pub struct TableStatsView {
    pub num_rows: Precision<usize>,
    pub total_byte_size: Precision<usize>,
    pub columns: Seq<ColumnStatsView>,
}

/// The models of column statistics.
pub open spec fn column_stats_views(v: Seq<ColumnStatistics>) -> Seq<ColumnStatsView> {
    Seq::new(v.len(), |i: int| v[i]@)
}

/// Nothing known of a table of `n` columns.
pub open spec fn unknown_table(n: nat) -> TableStatsView {
    TableStatsView {
        num_rows: Precision::Absent,
        total_byte_size: Precision::Absent,
        columns: Seq::new(n, |i: int| unknown_column()),
    }
}

impl TableStatistics {
    pub open spec fn view(&self) -> TableStatsView {
        TableStatsView {
            num_rows: self.num_rows,
            total_byte_size: self.total_byte_size,
            columns: column_stats_views(self.column_statistics@),
        }
    }

    /// Nothing known.
    pub fn unknown(num_columns: usize) -> (r: TableStatistics)
        ensures
            r@ == unknown_table(num_columns as nat),
    {
        let mut columns: Vec<ColumnStatistics> = Vec::new();
        let mut i: usize = 0;
        while i < num_columns
            invariant
                i <= num_columns,
                columns@.len() == i,
                forall|k: int| 0 <= k < i ==> (#[trigger] columns@[k])@ == unknown_column(),
            decreases num_columns - i,
        {
            columns.push(ColumnStatistics::unknown());
            i = i + 1;
        }
        let r = TableStatistics {
            num_rows: Precision::Absent,
            total_byte_size: Precision::Absent,
            column_statistics: columns,
        };
        assert(r@.columns =~= unknown_table(num_columns as nat).columns);
        r
    }

    pub fn copy(&self) -> (r: TableStatistics)
        ensures
            r@ == self@,
    {
        let r = TableStatistics {
            num_rows: self.num_rows,
            total_byte_size: self.total_byte_size,
            column_statistics: copy_column_stats(&self.column_statistics),
        };
        assert(r@.columns =~= self@.columns);
        r
    }
}

/// Copies column statistics.
pub fn copy_column_stats(v: &Vec<ColumnStatistics>) -> (r: Vec<ColumnStatistics>)
    ensures
        column_stats_views(r@) == column_stats_views(v@),
{
    let mut out: Vec<ColumnStatistics> = Vec::new();
    let mut i: usize = 0;
    while i < v.len()
        invariant
            i <= v@.len(),
            out@.len() == i,
            forall|k: int| 0 <= k < i ==> (#[trigger] out@[k])@ == v@[k]@,
        decreases v@.len() - i,
    {
        out.push(v[i].copy());
        i = i + 1;
    }
    assert(column_stats_views(out@) =~= column_stats_views(v@));
    out
}

} // verus!
