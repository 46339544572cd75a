//! Operators, and the casts that bring their operands to a common type.

use vstd::prelude::*;

use crate::error::{BasaltError, ErrorKind};
use crate::types::data_type::DataType;

verus! {

#[derive(Debug, Clone, Copy, PartialEq, Eq, Hash, Structural)]
pub enum BinaryOp {
    Add,
    Sub,
    Mul,
    Div,
    Mod,
    Eq,
    NotEq,
    Lt,
    LtEq,
    Gt,
    GtEq,
    And,
    Or,
}

#[derive(Debug, Clone, Copy, PartialEq, Eq, Hash, Structural)]
pub enum UnaryOp {
    Neg,
    Not,
}

impl BinaryOp {
    pub open spec fn spec_is_arithmetic(self) -> bool {
        matches!(
            self,
            BinaryOp::Add | BinaryOp::Sub | BinaryOp::Mul | BinaryOp::Div | BinaryOp::Mod
        )
    }

    pub open spec fn spec_is_comparison(self) -> bool {
        matches!(
            self,
            BinaryOp::Eq | BinaryOp::NotEq | BinaryOp::Lt | BinaryOp::LtEq | BinaryOp::Gt
                | BinaryOp::GtEq
        )
    }

    pub fn is_arithmetic(self) -> (r: bool)
        ensures
            r == self.spec_is_arithmetic(),
    {
        matches!(
            self,
            BinaryOp::Add | BinaryOp::Sub | BinaryOp::Mul | BinaryOp::Div | BinaryOp::Mod
        )
    }

    pub fn is_comparison(self) -> (r: bool)
        ensures
            r == self.spec_is_comparison(),
    {
        matches!(
            self,
            BinaryOp::Eq | BinaryOp::NotEq | BinaryOp::Lt | BinaryOp::LtEq | BinaryOp::Gt
                | BinaryOp::GtEq
        )
    }
}

/// The casts a binary operator needs on its operands, and its result type.
#[derive(Debug, Clone, Copy, PartialEq, Eq, Structural)]
pub struct CoercionPlan {
    pub lhs_cast: Option<DataType>,
    pub rhs_cast: Option<DataType>,
    pub output: DataType,
}

/// The type both operands are brought to, where there is one: numeric types
/// meet in `Float64`, and every type meets itself.
pub open spec fn common_type(lhs: DataType, rhs: DataType) -> Option<DataType> {
    if lhs == rhs {
        Some(lhs)
    } else if lhs.spec_is_numeric() && rhs.spec_is_numeric() {
        Some(DataType::Float64)
    } else {
        None
    }
}

pub open spec fn cast_needed(from: DataType, to: DataType) -> Option<DataType> {
    if from == to {
        None
    } else {
        Some(to)
    }
}

/// Arithmetic takes numbers and gives their common type; comparisons take any
/// two values with a common type and give a boolean; `AND` and `OR` take and
/// give booleans. Everything else is a type error.
pub open spec fn coercion(op: BinaryOp, lhs: DataType, rhs: DataType) -> Option<CoercionPlan> {
    match common_type(lhs, rhs) {
        None => None,
        Some(t) => {
            let plan = |output: DataType| CoercionPlan {
                lhs_cast: cast_needed(lhs, t),
                rhs_cast: cast_needed(rhs, t),
                output,
            };
            if op.spec_is_arithmetic() {
                if t.spec_is_numeric() {
                    Some(plan(t))
                } else {
                    None
                }
            } else if op.spec_is_comparison() {
                Some(plan(DataType::Boolean))
            } else if t == DataType::Boolean {
                Some(plan(DataType::Boolean))
            } else {
                None
            }
        },
    }
}

/// Decides the casts for `lhs op rhs`.
pub fn coerce_binary(op: BinaryOp, lhs: DataType, rhs: DataType) -> (r: Result<
    CoercionPlan,
    BasaltError,
>)
    ensures
        match r {
            Ok(plan) => coercion(op, lhs, rhs) == Some(plan),
            Err(e) => e@ == ErrorKind::Type && coercion(op, lhs, rhs) is None,
        },
{
    let t = if lhs == rhs {
        lhs
    } else if lhs.is_numeric() && rhs.is_numeric() {
        DataType::Float64
    } else {
        return Err(BasaltError::type_of("cannot apply a binary operator to ", lhs.name()));
    };
    let lhs_cast = if lhs == t {
        None
    } else {
        Some(t)
    };
    let rhs_cast = if rhs == t {
        None
    } else {
        Some(t)
    };
    if op.is_arithmetic() {
        if t.is_numeric() {
            Ok(CoercionPlan { lhs_cast, rhs_cast, output: t })
        } else {
            Err(BasaltError::type_of("cannot do arithmetic on ", t.name()))
        }
    } else if op.is_comparison() || t == DataType::Boolean {
        Ok(CoercionPlan { lhs_cast, rhs_cast, output: DataType::Boolean })
    } else {
        Err(BasaltError::type_of("cannot apply a logical operator to ", t.name()))
    }
}

} // verus!
