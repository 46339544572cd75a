//! Kernels over whole columns.

use std::sync::Arc;
use vstd::prelude::*;

use crate::array::{repeat_value, Array, ArrayRef, ArrayView};
use crate::error::{BasaltError, ErrorKind};
use crate::scalar::ScalarValue;
use crate::types::coercion::{BinaryOp, UnaryOp};
use crate::types::data_type::DataType;
use crate::types::value::{binary_value, cast_value, unary_value, Value, ValueView};

verus! {

/// The result of evaluating an expression over a batch: a column, or one value
/// that stands for every row.
#[derive(Debug)]
pub enum ColumnarValue {
    Array(ArrayRef),
    Scalar(ScalarValue),
}

/// The model of a columnar value; a scalar holds exactly one value.
#[verifier::ext_equal]
pub struct ColumnView {
    pub scalar: bool,
    pub data_type: DataType,
    pub values: Seq<ValueView>,
}

impl ColumnView {
    /// The value that row `i` sees.
    pub open spec fn at(self, i: int) -> ValueView {
        if self.scalar {
            self.values[0]
        } else {
            self.values[i]
        }
    }

    pub open spec fn wf(self) -> bool {
        &&& self.scalar ==> self.values.len() == 1
        &&& forall|i: int| 0 <= i < self.values.len() ==> (#[trigger] self.values[i]).fits(self.data_type)
    }

    /// The column over `n` rows.
    pub open spec fn spread(self, n: nat) -> ArrayView {
        ArrayView {
            data_type: self.data_type,
            values: if self.scalar {
                Seq::new(n, |i: int| self.values[0])
            } else {
                self.values
            },
        }
    }
}

pub open spec fn column_array(a: ArrayView) -> ColumnView {
    ColumnView { scalar: false, data_type: a.data_type, values: a.values }
}

pub open spec fn column_scalar(t: DataType, v: ValueView) -> ColumnView {
    ColumnView { scalar: true, data_type: t, values: seq![v] }
}

impl ColumnarValue {
    pub open spec fn view(&self) -> ColumnView {
        match self {
            ColumnarValue::Array(a) => column_array(a@),
            ColumnarValue::Scalar(s) => column_scalar(s.spec_data_type(), s@),
        }
    }

    pub proof fn lemma_wf(&self)
        ensures
            self@.wf(),
    {
        match self {
            ColumnarValue::Array(a) => {
                a.lemma_wf();
                assert forall|i: int| 0 <= i < self@.values.len() implies (
                #[trigger] self@.values[i]).fits(self@.data_type) by {
                    assert(a@.values[i].fits(a@.data_type));
                }
            },
            ColumnarValue::Scalar(s) => {},
        }
    }

    pub fn data_type(&self) -> (r: DataType)
        ensures
            r == self@.data_type,
    {
        match self {
            ColumnarValue::Array(a) => a.data_type(),
            ColumnarValue::Scalar(s) => s.data_type(),
        }
    }

    /// The value that row `i` sees.
    pub fn value_at(&self, i: usize) -> (r: Value)
        requires
            !self@.scalar ==> i < self@.values.len(),
        ensures
            r@ == self@.at(i as int),
            r@.fits(self@.data_type),
    {
        match self {
            ColumnarValue::Array(a) => a.value(i),
            ColumnarValue::Scalar(s) => s.to_value(),
        }
    }

    /// The column over `num_rows` rows; an array is handed back as it is.
    pub fn into_array(self, num_rows: usize) -> (r: ArrayRef)
        ensures
            r@ == self@.spread(num_rows as nat),
    {
        match self {
            ColumnarValue::Array(a) => a,
            ColumnarValue::Scalar(s) => {
                let v = s.to_value();
                let t = s.data_type();
                Arc::new(repeat_value(&v, t, num_rows))
            },
        }
    }
}

/// `f(0), f(1), .., f(n - 1)`, or the first error among them.
pub open spec fn collect_rows(n: nat, f: spec_fn(int) -> Result<ValueView, ErrorKind>) -> Result<
    Seq<ValueView>,
    ErrorKind,
>
    decreases n,
{
    if n == 0 {
        Ok(seq![])
    } else {
        match collect_rows((n - 1) as nat, f) {
            Err(k) => Err(k),
            Ok(s) => match f(n - 1) {
                Err(k) => Err(k),
                Ok(v) => Ok(s.push(v)),
            },
        }
    }
}

/// An error among the first rows is the error of all.
pub proof fn lemma_collect_error(m: nat, n: nat, f: spec_fn(int) -> Result<ValueView, ErrorKind>)
    requires
        m <= n,
        collect_rows(m, f) is Err,
    ensures
        collect_rows(n, f) == collect_rows(m, f),
    decreases n - m,
{
    if m < n {
        lemma_collect_error(m, (n - 1) as nat, f);
    }
}

/// What collecting rows gives, row by row.
pub proof fn lemma_collect_rows(n: nat, f: spec_fn(int) -> Result<ValueView, ErrorKind>)
    ensures
        match collect_rows(n, f) {
            Ok(s) => s.len() == n && forall|i: int| 0 <= i < n ==> f(i) == Ok::<ValueView, ErrorKind>(#[trigger] s[i]),
            Err(k) => exists|i: int| 0 <= i < n && #[trigger] f(i) == Err::<ValueView, ErrorKind>(k),
        },
    decreases n,
{
    if n > 0 {
        lemma_collect_rows((n - 1) as nat, f);
        match collect_rows((n - 1) as nat, f) {
            Ok(s) => {
                match f(n - 1) {
                    Ok(v) => {},
                    Err(k) => {},
                }
            },
            Err(k) => {
                let i = choose|i: int| 0 <= i < n - 1 && #[trigger] f(i) == Err::<ValueView, ErrorKind>(k);
                assert(f(i) == Err::<ValueView, ErrorKind>(k));
            },
        }
    }
}

/// Two row functions that agree give the same rows.
pub proof fn lemma_collect_same(
    n: nat,
    f: spec_fn(int) -> Result<ValueView, ErrorKind>,
    g: spec_fn(int) -> Result<ValueView, ErrorKind>,
)
    requires
        forall|i: int| 0 <= i < n ==> #[trigger] f(i) == g(i),
    ensures
        collect_rows(n, f) == collect_rows(n, g),
    decreases n,
{
    if n > 0 {
        lemma_collect_same((n - 1) as nat, f, g);
        assert(f(n - 1) == g(n - 1));
    }
}

/// The result type of a binary kernel; `None` where the operand types do not
/// fit. Kernels cast nothing: casts are explicit in the expression.
pub open spec fn binary_type(op: BinaryOp, l: DataType, r: DataType) -> Option<DataType> {
    if l != r {
        None
    } else if op.spec_is_arithmetic() {
        if l == DataType::Int64 || (l == DataType::Float64 && op != BinaryOp::Mod) {
            Some(l)
        } else {
            None
        }
    } else if op.spec_is_comparison() || l == DataType::Boolean {
        Some(DataType::Boolean)
    } else {
        None
    }
}

/// The number of rows two operands span together; `None` when they disagree.
pub open spec fn span_rows(l: ColumnView, r: ColumnView) -> Option<nat> {
    if l.scalar && r.scalar {
        Some(1)
    } else if l.scalar {
        Some(r.values.len())
    } else if r.scalar || l.values.len() == r.values.len() {
        Some(l.values.len())
    } else {
        None
    }
}

/// A binary operator applied row by row.
pub open spec fn binary_columns(op: BinaryOp, l: ColumnView, r: ColumnView) -> Result<
    ColumnView,
    ErrorKind,
> {
    match binary_type(op, l.data_type, r.data_type) {
        None => Err(ErrorKind::Type),
        Some(t) => match span_rows(l, r) {
            None => Err(ErrorKind::Internal),
            Some(n) => match collect_rows(n, |i: int| binary_value(op, l.at(i), r.at(i))) {
                Err(k) => Err(k),
                Ok(values) => Ok(
                    ColumnView { scalar: l.scalar && r.scalar, data_type: t, values },
                ),
            },
        },
    }
}

/// The result type of a unary kernel.
pub open spec fn unary_type(op: UnaryOp, t: DataType) -> Option<DataType> {
    match op {
        UnaryOp::Neg => if t.spec_is_numeric() {
            Some(t)
        } else {
            None
        },
        UnaryOp::Not => if t == DataType::Boolean {
            Some(t)
        } else {
            None
        },
    }
}

/// A unary operator applied row by row.
pub open spec fn unary_column(op: UnaryOp, c: ColumnView) -> Result<ColumnView, ErrorKind> {
    match unary_type(op, c.data_type) {
        None => Err(ErrorKind::Type),
        Some(t) => match collect_rows(c.values.len(), |i: int| unary_value(op, c.values[i])) {
            Err(k) => Err(k),
            Ok(values) => Ok(ColumnView { scalar: c.scalar, data_type: t, values }),
        },
    }
}

/// A cast applied row by row.
pub open spec fn cast_column(c: ColumnView, to: DataType) -> Result<ColumnView, ErrorKind> {
    match collect_rows(c.values.len(), |i: int| cast_value(c.values[i], to)) {
        Err(k) => Err(k),
        Ok(values) => Ok(ColumnView { scalar: c.scalar, data_type: to, values }),
    }
}

/// The null test applied row by row.
pub open spec fn null_column(c: ColumnView, negated: bool) -> ColumnView {
    ColumnView {
        scalar: c.scalar,
        data_type: DataType::Boolean,
        values: Seq::new(
            c.values.len(),
            |i: int| ValueView::Boolean((c.values[i] == ValueView::Null) != negated),
        ),
    }
}

/// Puts computed values back into the shape of a column: a scalar when asked,
/// else an array.
fn shaped(values: Array, scalar: bool) -> (r: ColumnarValue)
    requires
        scalar ==> values@.values.len() == 1,
    ensures
        r@ == (ColumnView { scalar, data_type: values@.data_type, values: values@.values }),
{
    if scalar {
        let v = values.value(0);
        let t = values.data_type();
        match ScalarValue::from_value(v, t) {
            Some(s) => {
                let r = ColumnarValue::Scalar(s);
                assert(r@.values =~= values@.values);
                r
            },
            None => {
                assert(false);
                ColumnarValue::Scalar(ScalarValue::Int64(None))
            },
        }
    } else {
        ColumnarValue::Array(Arc::new(values))
    }
}

/// Applies a binary operator row by row.
///
/// # Errors
/// A type error when the operand types do not fit the operator, an internal
/// error when two arrays differ in length, else the first row's error.
pub fn binary_kernel(op: BinaryOp, l: &ColumnarValue, r: &ColumnarValue) -> (out: Result<
    ColumnarValue,
    BasaltError,
>)
    ensures
        match out {
            Ok(c) => binary_columns(op, l@, r@) == Ok::<ColumnView, ErrorKind>(c@),
            Err(e) => binary_columns(op, l@, r@) == Err::<ColumnView, ErrorKind>(e@),
        },
{
    let lt = l.data_type();
    let rt = r.data_type();
    let t = if lt != rt {
        return Err(BasaltError::type_of("mismatched operand type ", rt.name()));
    } else if op.is_arithmetic() {
        if lt == DataType::Int64 || (lt == DataType::Float64 && op != BinaryOp::Mod) {
            lt
        } else {
            return Err(BasaltError::type_of("cannot do arithmetic on ", lt.name()));
        }
    } else if op.is_comparison() || lt == DataType::Boolean {
        DataType::Boolean
    } else {
        return Err(BasaltError::type_of("cannot apply a logical operator to ", lt.name()));
    };
    let scalar = matches!(l, ColumnarValue::Scalar(_)) && matches!(r, ColumnarValue::Scalar(_));
    let n: usize = match (l, r) {
        (ColumnarValue::Scalar(_), ColumnarValue::Scalar(_)) => 1,
        (ColumnarValue::Scalar(_), ColumnarValue::Array(b)) => b.len(),
        (ColumnarValue::Array(a), ColumnarValue::Scalar(_)) => a.len(),
        (ColumnarValue::Array(a), ColumnarValue::Array(b)) => {
            if a.len() != b.len() {
                return Err(BasaltError::internal("operands have different lengths"));
            }
            a.len()
        },
    };
    let ghost f = |i: int| binary_value(op, l@.at(i), r@.at(i));
    let mut values = Array::empty(t);
    let mut i: usize = 0;
    while i < n
        invariant
            i <= n,
            span_rows(l@, r@) == Some(n as nat),
            binary_type(op, l@.data_type, r@.data_type) == Some(t),
            f == |i: int| binary_value(op, l@.at(i), r@.at(i)),
            values@.data_type == t,
            collect_rows(i as nat, f) == Ok::<Seq<ValueView>, ErrorKind>(values@.values),
        decreases n - i,
    {
        let a = l.value_at(i);
        let b = r.value_at(i);
        match a.binary(op, &b) {
            Ok(v) => {
                assert(v@.fits(t));
                assert(collect_rows((i + 1) as nat, f) == Ok::<Seq<ValueView>, ErrorKind>(
                    values@.values.push(v@),
                ));
                values.push(v);
            },
            Err(e) => {
                proof {
                    assert(collect_rows((i + 1) as nat, f) == Err::<Seq<ValueView>, ErrorKind>(e@));
                    lemma_collect_error((i + 1) as nat, n as nat, f);
                }
                return Err(e);
            },
        }
        i = i + 1;
    }
    proof {
        lemma_collect_rows(n as nat, f);
    }
    Ok(shaped(values, scalar))
}

/// Applies a unary operator row by row.
///
/// # Errors
/// A type error when the operand type does not fit the operator, else the
/// first row's error.
pub fn unary_kernel(op: UnaryOp, c: &ColumnarValue) -> (out: Result<ColumnarValue, BasaltError>)
    ensures
        match out {
            Ok(r) => unary_column(op, c@) == Ok::<ColumnView, ErrorKind>(r@),
            Err(e) => unary_column(op, c@) == Err::<ColumnView, ErrorKind>(e@),
        },
{
    let t = c.data_type();
    match op {
        UnaryOp::Neg => {
            if !t.is_numeric() {
                return Err(
                    BasaltError::type_of(
                        "cannot apply unary negation (-) to non-numeric type ",
                        t.name(),
                    ),
                );
            }
        },
        UnaryOp::Not => {
            if t != DataType::Boolean {
                return Err(
                    BasaltError::type_of("cannot apply logical NOT to non-boolean type ", t.name()),
                );
            }
        },
    }
    let scalar = matches!(c, ColumnarValue::Scalar(_));
    let n: usize = match c {
        ColumnarValue::Scalar(_) => 1,
        ColumnarValue::Array(a) => a.len(),
    };
    let ghost f = |i: int| unary_value(op, c@.values[i]);
    let mut values = Array::empty(t);
    let mut i: usize = 0;
    while i < n
        invariant
            i <= n,
            n == c@.values.len(),
            scalar == c@.scalar,
            scalar ==> n == 1,
            t == c@.data_type,
            unary_type(op, t) == Some(t),
            f == |i: int| unary_value(op, c@.values[i]),
            values@.data_type == t,
            collect_rows(i as nat, f) == Ok::<Seq<ValueView>, ErrorKind>(values@.values),
        decreases n - i,
    {
        let a = c.value_at(i);
        assert(a@ == c@.values[i as int]);
        match a.unary(op) {
            Ok(v) => {
                assert(v@.fits(t));
                assert(collect_rows((i + 1) as nat, f) == Ok::<Seq<ValueView>, ErrorKind>(
                    values@.values.push(v@),
                ));
                values.push(v);
            },
            Err(e) => {
                proof {
                    assert(collect_rows((i + 1) as nat, f) == Err::<Seq<ValueView>, ErrorKind>(e@));
                    lemma_collect_error((i + 1) as nat, n as nat, f);
                }
                return Err(e);
            },
        }
        i = i + 1;
    }
    proof {
        lemma_collect_rows(n as nat, f);
    }
    Ok(shaped(values, scalar))
}

proof fn lemma_cast_fits(v: ValueView, to: DataType)
    ensures
        cast_value(v, to) is Ok ==> cast_value(v, to)->Ok_0.fits(to),
{
}

/// Casts row by row.
///
/// # Errors
/// The first row's error.
pub fn cast_kernel(c: &ColumnarValue, to: DataType) -> (out: Result<ColumnarValue, BasaltError>)
    ensures
        match out {
            Ok(r) => cast_column(c@, to) == Ok::<ColumnView, ErrorKind>(r@),
            Err(e) => cast_column(c@, to) == Err::<ColumnView, ErrorKind>(e@),
        },
{
    let scalar = matches!(c, ColumnarValue::Scalar(_));
    let n: usize = match c {
        ColumnarValue::Scalar(_) => 1,
        ColumnarValue::Array(a) => a.len(),
    };
    let ghost f = |i: int| cast_value(c@.values[i], to);
    let mut values = Array::empty(to);
    let mut i: usize = 0;
    while i < n
        invariant
            i <= n,
            n == c@.values.len(),
            scalar == c@.scalar,
            scalar ==> n == 1,
            f == |i: int| cast_value(c@.values[i], to),
            values@.data_type == to,
            collect_rows(i as nat, f) == Ok::<Seq<ValueView>, ErrorKind>(values@.values),
        decreases n - i,
    {
        let a = c.value_at(i);
        assert(a@ == c@.values[i as int]);
        match a.cast_to(to) {
            Ok(v) => {
                proof {
                    lemma_cast_fits(a@, to);
                    assert(collect_rows((i + 1) as nat, f) == Ok::<Seq<ValueView>, ErrorKind>(
                        values@.values.push(v@),
                    ));
                }
                values.push(v);
            },
            Err(e) => {
                proof {
                    assert(collect_rows((i + 1) as nat, f) == Err::<Seq<ValueView>, ErrorKind>(e@));
                    lemma_collect_error((i + 1) as nat, n as nat, f);
                }
                return Err(e);
            },
        }
        i = i + 1;
    }
    proof {
        lemma_collect_rows(n as nat, f);
    }
    Ok(shaped(values, scalar))
}

/// Tests each row for null; the result itself is never null.
pub fn null_kernel(c: &ColumnarValue, negated: bool) -> (r: ColumnarValue)
    ensures
        r@ == null_column(c@, negated),
{
    let scalar = matches!(c, ColumnarValue::Scalar(_));
    let n: usize = match c {
        ColumnarValue::Scalar(_) => 1,
        ColumnarValue::Array(a) => a.len(),
    };
    let mut values = Array::empty(DataType::Boolean);
    let mut i: usize = 0;
    while i < n
        invariant
            i <= n,
            n == c@.values.len(),
            scalar == c@.scalar,
            scalar ==> n == 1,
            values@.data_type == DataType::Boolean,
            values@.values == null_column(c@, negated).values.take(i as int),
        decreases n - i,
    {
        let a = c.value_at(i);
        assert(a@ == c@.values[i as int]);
        values.push(Value::Boolean(a.is_null() != negated));
        assert(null_column(c@, negated).values.take(i + 1) =~= null_column(c@, negated).values.take(
            i as int,
        ).push(ValueView::Boolean((a@ == ValueView::Null) != negated)));
        i = i + 1;
    }
    assert(null_column(c@, negated).values.take(i as int) =~= null_column(c@, negated).values);
    shaped(values, scalar)
}

// ---------------------------------------------------------------------------
// Gathering

/// The values at `indices`; an absent index gives null.
pub open spec fn take_values(values: Seq<ValueView>, indices: Seq<Option<usize>>) -> Seq<ValueView> {
    Seq::new(
        indices.len(),
        |i: int|
            match indices[i] {
                Some(k) => values[k as int],
                None => ValueView::Null,
            },
    )
}

pub open spec fn take_array(a: ArrayView, indices: Seq<Option<usize>>) -> ArrayView {
    ArrayView { data_type: a.data_type, values: take_values(a.values, indices) }
}

/// Whether every index that is present lies below `n`.
pub open spec fn indices_below(indices: Seq<Option<usize>>, n: nat) -> bool {
    forall|i: int| 0 <= i < indices.len() ==> ((#[trigger] indices[i]) matches Some(k) ==> k < n)
}

/// Gathers the values at `indices`.
pub fn take(a: &Array, indices: &Vec<Option<usize>>) -> (r: Array)
    requires
        indices_below(indices@, a@.values.len()),
    ensures
        r@ == take_array(a@, indices@),
        r@.wf(),
{
    let mut out = Array::empty(a.data_type());
    let mut i: usize = 0;
    while i < indices.len()
        invariant
            i <= indices@.len(),
            indices_below(indices@, a@.values.len()),
            out@.data_type == a@.data_type,
            out@.values == take_values(a@.values, indices@).take(i as int),
        decreases indices@.len() - i,
    {
        let v = match indices[i] {
            Some(k) => a.value(k),
            None => Value::Null,
        };
        out.push(v);
        assert(take_values(a@.values, indices@).take(i + 1) =~= take_values(
            a@.values,
            indices@,
        ).take(i as int).push(v@));
        i = i + 1;
    }
    assert(take_values(a@.values, indices@).take(i as int) =~= take_values(a@.values, indices@));
    proof {
        out.lemma_wf();
    }
    out
}

/// The positions that hold true, in order.
pub open spec fn selected(mask: Seq<ValueView>) -> Seq<Option<usize>>
    decreases mask.len(),
{
    if mask.len() == 0 {
        seq![]
    } else {
        let before = selected(mask.drop_last());
        if mask.last() == ValueView::Boolean(true) {
            before.push(Some((mask.len() - 1) as usize))
        } else {
            before
        }
    }
}

/// Selected positions lie within the mask.
pub proof fn lemma_selected_below(mask: Seq<ValueView>)
    requires
        mask.len() <= usize::MAX,
    ensures
        indices_below(selected(mask), mask.len()),
        selected(mask).len() <= mask.len(),
        forall|i: int| 0 <= i < selected(mask).len() ==> (#[trigger] selected(mask)[i]) is Some,
    decreases mask.len(),
{
    if mask.len() > 0 {
        lemma_selected_below(mask.drop_last());
        let before = selected(mask.drop_last());
        assert forall|i: int| 0 <= i < selected(mask).len() implies ((#[trigger] selected(
            mask,
        )[i]) matches Some(k) ==> k < mask.len()) by {
            if i < before.len() {
                assert(selected(mask)[i] == before[i]);
            }
        }
        assert forall|i: int| 0 <= i < selected(mask).len() implies (#[trigger] selected(
            mask,
        )[i]) is Some by {
            if i < before.len() {
                assert(selected(mask)[i] == before[i]);
            }
        }
    }
}

/// The positions of a boolean column that hold true.
pub fn select_true(mask: &Array) -> (r: Vec<Option<usize>>)
    ensures
        r@ == selected(mask@.values),
        indices_below(r@, mask@.values.len()),
{
    let n: usize = mask.len();
    let mut out: Vec<Option<usize>> = Vec::new();
    let mut i: usize = 0;
    assert(mask@.values.take(0) =~= seq![]);
    while i < n
        invariant
            i <= n,
            n == mask@.values.len(),
            out@ == selected(mask@.values.take(i as int)),
        decreases n - i,
    {
        proof {
            let next = mask@.values.take(i + 1);
            assert(next.drop_last() =~= mask@.values.take(i as int));
            assert(next.last() == mask@.values[i as int]);
        }
        let keep = match mask.value(i) {
            Value::Boolean(b) => b,
            _ => false,
        };
        if keep {
            out.push(Some(i));
        }
        i = i + 1;
    }
    proof {
        assert(mask@.values.take(n as int) =~= mask@.values);
        lemma_selected_below(mask@.values);
    }
    out
}

/// The concatenation of the values of several arrays.
pub open spec fn concat_values(parts: Seq<ArrayView>) -> Seq<ValueView>
    decreases parts.len(),
{
    if parts.len() == 0 {
        seq![]
    } else {
        concat_values(parts.drop_last()) + parts.last().values
    }
}

/// Appends the values of `from` to `to`.
pub fn append_values(to: &mut Array, from: &Array)
    requires
        old(to)@.data_type == from@.data_type,
    ensures
        final(to)@ == (ArrayView {
            data_type: from@.data_type,
            values: old(to)@.values + from@.values,
        }),
{
    let n: usize = from.len();
    let ghost before = to@.values;
    let mut i: usize = 0;
    assert(before + from@.values.take(0) =~= before);
    while i < n
        invariant
            i <= n,
            n == from@.values.len(),
            to@.data_type == from@.data_type,
            to@.values == before + from@.values.take(i as int),
        decreases n - i,
    {
        let v = from.value(i);
        to.push(v);
        assert(before + from@.values.take(i + 1) =~= (before + from@.values.take(i as int)).push(
            v@,
        ));
        i = i + 1;
    }
    assert(from@.values.take(n as int) =~= from@.values);
}

} // verus!
