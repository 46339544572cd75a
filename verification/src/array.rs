//! Columns of values of one type, each of which may be null.

use std::sync::Arc;
use vstd::prelude::*;

use crate::float64::Float64;
use crate::types::data_type::DataType;
use crate::types::value::{Value, ValueView};

verus! {

#[derive(Debug, PartialEq, Eq)]
pub enum Array {
    Int64(Vec<Option<i64>>),
    Float64(Vec<Option<Float64>>),
    Utf8(Vec<Option<String>>),
    Boolean(Vec<Option<bool>>),
}

/// A shared array.
pub type ArrayRef = Arc<Array>;

/// The model of an array.
#[verifier::ext_equal]
pub struct ArrayView {
    pub data_type: DataType,
    pub values: Seq<ValueView>,
}

impl ArrayView {
    /// Whether every value is of the array's type, or null.
    pub open spec fn wf(self) -> bool {
        forall|i: int| 0 <= i < self.values.len() ==> (#[trigger] self.values[i]).fits(self.data_type)
    }
}

/// Another handle on the same allocation: `Arc::clone`.
///
/// The handle that comes back points to the same value.
#[verifier::external_body]
pub(crate) fn share<T>(a: &Arc<T>) -> (r: Arc<T>)
    ensures
        r == *a,
{
    Arc::clone(a)
}

pub open spec fn int_cell(v: Option<i64>) -> ValueView {
    match v {
        Some(x) => ValueView::Int64(x),
        None => ValueView::Null,
    }
}

pub open spec fn float_cell(v: Option<Float64>) -> ValueView {
    match v {
        Some(x) => ValueView::Float64(x),
        None => ValueView::Null,
    }
}

pub open spec fn text_cell(v: Option<String>) -> ValueView {
    match v {
        Some(x) => ValueView::Utf8(x@),
        None => ValueView::Null,
    }
}

pub open spec fn bool_cell(v: Option<bool>) -> ValueView {
    match v {
        Some(x) => ValueView::Boolean(x),
        None => ValueView::Null,
    }
}

impl Array {
    pub open spec fn view(&self) -> ArrayView {
        match self {
            Array::Int64(v) => ArrayView {
                data_type: DataType::Int64,
                values: Seq::new(v@.len(), |i: int| int_cell(v@[i])),
            },
            Array::Float64(v) => ArrayView {
                data_type: DataType::Float64,
                values: Seq::new(v@.len(), |i: int| float_cell(v@[i])),
            },
            Array::Utf8(v) => ArrayView {
                data_type: DataType::Utf8,
                values: Seq::new(v@.len(), |i: int| text_cell(v@[i])),
            },
            Array::Boolean(v) => ArrayView {
                data_type: DataType::Boolean,
                values: Seq::new(v@.len(), |i: int| bool_cell(v@[i])),
            },
        }
    }

    pub fn data_type(&self) -> (r: DataType)
        ensures
            r == self@.data_type,
    {
        match self {
            Array::Int64(_) => DataType::Int64,
            Array::Float64(_) => DataType::Float64,
            Array::Utf8(_) => DataType::Utf8,
            Array::Boolean(_) => DataType::Boolean,
        }
    }

    pub fn len(&self) -> (r: usize)
        ensures
            r == self@.values.len(),
    {
        match self {
            Array::Int64(v) => v.len(),
            Array::Float64(v) => v.len(),
            Array::Utf8(v) => v.len(),
            Array::Boolean(v) => v.len(),
        }
    }

    pub fn is_null(&self, i: usize) -> (r: bool)
        requires
            i < self@.values.len(),
        ensures
            r == (self@.values[i as int] == ValueView::Null),
    {
        match self {
            Array::Int64(v) => v[i].is_none(),
            Array::Float64(v) => v[i].is_none(),
            Array::Utf8(v) => v[i].is_none(),
            Array::Boolean(v) => v[i].is_none(),
        }
    }

    /// The value at `i`.
    pub fn value(&self, i: usize) -> (r: Value)
        requires
            i < self@.values.len(),
        ensures
            r@ == self@.values[i as int],
            r@.fits(self@.data_type),
    {
        match self {
            Array::Int64(v) => match v[i] {
                Some(x) => Value::Int64(x),
                None => Value::Null,
            },
            Array::Float64(v) => match v[i] {
                Some(x) => Value::Float64(x),
                None => Value::Null,
            },
            Array::Utf8(v) => match &v[i] {
                Some(x) => Value::Utf8(x.clone()),
                None => Value::Null,
            },
            Array::Boolean(v) => match v[i] {
                Some(x) => Value::Boolean(x),
                None => Value::Null,
            },
        }
    }

    /// An array without values.
    pub fn empty(data_type: DataType) -> (r: Array)
        ensures
            r@ == (ArrayView { data_type, values: seq![] }),
            r@.wf(),
    {
        let r = match data_type {
            DataType::Int64 => Array::Int64(Vec::new()),
            DataType::Float64 => Array::Float64(Vec::new()),
            DataType::Utf8 => Array::Utf8(Vec::new()),
            DataType::Boolean => Array::Boolean(Vec::new()),
        };
        assert(r@.values =~= seq![]);
        r
    }

    /// Appends a value of the array's type, or null.
    pub fn push(&mut self, value: Value)
        requires
            value@.fits(old(self)@.data_type),
        ensures
            final(self)@ == (ArrayView {
                data_type: old(self)@.data_type,
                values: old(self)@.values.push(value@),
            }),
    {
        let ghost before = self@;
        match self {
            Array::Int64(v) => {
                let cell = match value {
                    Value::Int64(x) => Some(x),
                    _ => None,
                };
                v.push(cell);
            },
            Array::Float64(v) => {
                let cell = match value {
                    Value::Float64(x) => Some(x),
                    _ => None,
                };
                v.push(cell);
            },
            Array::Utf8(v) => {
                let cell = match value {
                    Value::Utf8(x) => Some(x),
                    _ => None,
                };
                v.push(cell);
            },
            Array::Boolean(v) => {
                let cell = match value {
                    Value::Boolean(x) => Some(x),
                    _ => None,
                };
                v.push(cell);
            },
        }
        assert(self@.values =~= before.values.push(value@));
    }

    /// Every value is of the array's type, or null.
    pub proof fn lemma_wf(&self)
        ensures
            self@.wf(),
    {
    }

    /// Whether two arrays hold the same values of the same type.
    pub fn same(&self, other: &Array) -> (r: bool)
        ensures
            r == (self@ == other@),
    {
        if self.data_type() != other.data_type() || self.len() != other.len() {
            return false;
        }
        let n: usize = self.len();
        let mut i: usize = 0;
        while i < n
            invariant
                i <= n,
                n == self@.values.len(),
                n == other@.values.len(),
                forall|k: int| 0 <= k < i ==> self@.values[k] == other@.values[k],
            decreases n - i,
        {
            let a = self.value(i);
            let b = other.value(i);
            if !a.same(&b) {
                return false;
            }
            i = i + 1;
        }
        assert(self@ =~= other@);
        true
    }
}

/// The array of `n` copies of a value.
pub fn repeat_value(value: &Value, data_type: DataType, n: usize) -> (r: Array)
    requires
        value@.fits(data_type),
    ensures
        r@ == (ArrayView { data_type, values: Seq::new(n as nat, |i: int| value@) }),
        r@.wf(),
{
    let mut out = Array::empty(data_type);
    let mut i: usize = 0;
    while i < n
        invariant
            i <= n,
            out@.data_type == data_type,
            value@.fits(data_type),
            out@.values == Seq::new(i as nat, |k: int| value@),
        decreases n - i,
    {
        out.push(value.copy());
        assert(Seq::new((i + 1) as nat, |k: int| value@) =~= Seq::new(
            i as nat,
            |k: int| value@,
        ).push(value@));
        i = i + 1;
    }
    out
}

} // verus!
