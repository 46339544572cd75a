//! The types a column can have.

use vstd::prelude::*;

verus! {

#[derive(Debug, Clone, Copy, PartialEq, Eq, Hash, Structural)]
pub enum DataType {
    Int64,
    Float64,
    Utf8,
    Boolean,
}

impl DataType {
    pub open spec fn spec_is_numeric(self) -> bool {
        self == DataType::Int64 || self == DataType::Float64
    }

    /// The name of the type.
    pub open spec fn spec_name(self) -> Seq<char> {
        match self {
            DataType::Int64 => "Int64"@,
            DataType::Float64 => "Float64"@,
            DataType::Utf8 => "Utf8"@,
            DataType::Boolean => "Boolean"@,
        }
    }

    /// Whether arithmetic applies to the type.
    pub fn is_numeric(&self) -> (r: bool)
        ensures
            r == self.spec_is_numeric(),
    {
        matches!(self, DataType::Int64 | DataType::Float64)
    }

    /// The name of the type.
    pub fn name(&self) -> (r: &'static str)
        ensures
            r@ == self.spec_name(),
    {
        match self {
            DataType::Int64 => "Int64",
            DataType::Float64 => "Float64",
            DataType::Utf8 => "Utf8",
            DataType::Boolean => "Boolean",
        }
    }

    /// The name of the type, owned.
    pub fn to_string(&self) -> (r: String)
        ensures
            r@ == self.spec_name(),
    {
        self.name().to_owned()
    }
}

} // verus!
