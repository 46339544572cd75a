//! A single value that stands in for a whole array in a vectorized
//! computation, such as the `5` in `col_a + 5`. Every variant carries its type
//! even when the value is absent, so that a kernel can dispatch on it.

use vstd::prelude::*;

use crate::error::ErrorKind;
use crate::float64::Float64;
use crate::text::{same_text, signed_decimal, signed_text};
use crate::types::data_type::DataType;
use crate::types::value::{cast_value, Value, ValueView};

verus! {

#[derive(Debug, Clone, PartialEq, Eq)]
pub enum ScalarValue {
    Int64(Option<i64>),
    Float64(Option<Float64>),
    Utf8(Option<String>),
    Boolean(Option<bool>),
}

impl ScalarValue {
    /// The value without its static type.
    pub open spec fn view(&self) -> ValueView {
        match self {
            ScalarValue::Int64(Some(v)) => ValueView::Int64(*v),
            ScalarValue::Float64(Some(v)) => ValueView::Float64(*v),
            ScalarValue::Utf8(Some(v)) => ValueView::Utf8(v@),
            ScalarValue::Boolean(Some(v)) => ValueView::Boolean(*v),
            _ => ValueView::Null,
        }
    }

    pub open spec fn spec_data_type(&self) -> DataType {
        match self {
            ScalarValue::Int64(_) => DataType::Int64,
            ScalarValue::Float64(_) => DataType::Float64,
            ScalarValue::Utf8(_) => DataType::Utf8,
            ScalarValue::Boolean(_) => DataType::Boolean,
        }
    }

    pub fn data_type(&self) -> (r: DataType)
        ensures
            r == self.spec_data_type(),
    {
        match self {
            ScalarValue::Int64(_) => DataType::Int64,
            ScalarValue::Float64(_) => DataType::Float64,
            ScalarValue::Utf8(_) => DataType::Utf8,
            ScalarValue::Boolean(_) => DataType::Boolean,
        }
    }

    pub fn is_null(&self) -> (r: bool)
        ensures
            r == (self@ == ValueView::Null),
    {
        match self {
            ScalarValue::Int64(v) => v.is_none(),
            ScalarValue::Float64(v) => v.is_none(),
            ScalarValue::Utf8(v) => v.is_none(),
            ScalarValue::Boolean(v) => v.is_none(),
        }
    }

    pub fn copy(&self) -> (r: ScalarValue)
        ensures
            r == *self,
    {
        match self {
            ScalarValue::Int64(v) => ScalarValue::Int64(*v),
            ScalarValue::Float64(v) => ScalarValue::Float64(*v),
            ScalarValue::Utf8(Some(v)) => ScalarValue::Utf8(Some(v.clone())),
            ScalarValue::Utf8(None) => ScalarValue::Utf8(None),
            ScalarValue::Boolean(v) => ScalarValue::Boolean(*v),
        }
    }

    /// Whether two scalars agree in type and value.
    pub fn same(&self, other: &ScalarValue) -> (r: bool)
        ensures
            r == (self.spec_data_type() == other.spec_data_type() && self@ == other@),
    {
        match (self, other) {
            (ScalarValue::Int64(a), ScalarValue::Int64(b)) => *a == *b,
            (ScalarValue::Float64(a), ScalarValue::Float64(b)) => *a == *b,
            (ScalarValue::Utf8(Some(a)), ScalarValue::Utf8(Some(b))) => same_text(a, b),
            (ScalarValue::Utf8(None), ScalarValue::Utf8(None)) => true,
            (ScalarValue::Boolean(a), ScalarValue::Boolean(b)) => *a == *b,
            _ => false,
        }
    }

    /// The scalar as an untyped value.
    pub fn to_value(&self) -> (r: Value)
        ensures
            r@ == self@,
    {
        match self {
            ScalarValue::Int64(Some(v)) => Value::Int64(*v),
            ScalarValue::Float64(Some(v)) => Value::Float64(*v),
            ScalarValue::Utf8(Some(v)) => Value::Utf8(v.clone()),
            ScalarValue::Boolean(Some(v)) => Value::Boolean(*v),
            _ => Value::Null,
        }
    }

    /// A value as a scalar of type `data_type`; `None` when it is of another.
    pub fn from_value(value: Value, data_type: DataType) -> (r: Option<ScalarValue>)
        ensures
            match r {
                Some(s) => value@.fits(data_type) && s@ == value@ && s.spec_data_type() == data_type,
                None => !value@.fits(data_type),
            },
    {
        match (value, data_type) {
            (Value::Int64(v), DataType::Int64) => Some(ScalarValue::Int64(Some(v))),
            (Value::Float64(v), DataType::Float64) => Some(ScalarValue::Float64(Some(v))),
            (Value::Utf8(v), DataType::Utf8) => Some(ScalarValue::Utf8(Some(v))),
            (Value::Boolean(v), DataType::Boolean) => Some(ScalarValue::Boolean(Some(v))),
            (Value::Null, DataType::Int64) => Some(ScalarValue::Int64(None)),
            (Value::Null, DataType::Float64) => Some(ScalarValue::Float64(None)),
            (Value::Null, DataType::Utf8) => Some(ScalarValue::Utf8(None)),
            (Value::Null, DataType::Boolean) => Some(ScalarValue::Boolean(None)),
            _ => None,
        }
    }

    /// The text of the scalar; `None` for a double, whose shortest numeral is
    /// not computed here.
    pub fn to_text(&self) -> (r: Option<String>)
        ensures
            match self@ {
                ValueView::Int64(v) => r is Some && r->0@ == signed_text(v as int),
                ValueView::Float64(_) => r is None,
                ValueView::Utf8(v) => r is Some && r->0@ == v,
                ValueView::Boolean(v) => r is Some && r->0@ == if v { "true"@ } else { "false"@ },
                ValueView::Null => r is Some && r->0@ == "NULL"@,
            },
            r is Some && self@ != ValueView::Null ==> cast_value(self@, DataType::Utf8) == Ok::<
                ValueView,
                ErrorKind,
            >(ValueView::Utf8(r->0@)),
    {
        match self {
            ScalarValue::Int64(Some(v)) => Some(signed_decimal(*v)),
            ScalarValue::Float64(Some(_)) => None,
            ScalarValue::Utf8(Some(v)) => Some(v.clone()),
            ScalarValue::Boolean(Some(v)) => Some(
                if *v {
                    "true".to_owned()
                } else {
                    "false".to_owned()
                },
            ),
            _ => Some("NULL".to_owned()),
        }
    }
}

} // verus!
