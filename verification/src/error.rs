//! The engine's errors.

use vstd::prelude::*;

use crate::sql::span::Span;

verus! {

/// Everything that can go wrong between query text and result rows.
#[derive(Debug, Clone)]
pub enum BasaltError {
    /// The query text is malformed at `span`.
    Syntax { span: Span, message: String },
    /// An operation was given operands of the wrong type.
    Type { message: String },
    /// A name that no column has.
    UnknownColumn { name: String },
    /// Arithmetic left the range of its type.
    NumericOverflow,
    /// An integer was divided by zero.
    DivisionByZero,
    /// Inputs that do not fit together.
    Internal(String),
}

/// What contracts say of an error: its kind, and where or about what it is. Of
/// messages, only those about the query text are part of it.
pub enum ErrorKind {
    Syntax(Span, Seq<char>),
    Type,
    UnknownColumn(Seq<char>),
    NumericOverflow,
    DivisionByZero,
    Internal,
}

impl BasaltError {
    pub open spec fn view(&self) -> ErrorKind {
        match self {
            BasaltError::Syntax { span, message } => ErrorKind::Syntax(
                *span,
                message@,
            ),
            BasaltError::Type { message } => ErrorKind::Type,
            BasaltError::UnknownColumn { name } => ErrorKind::UnknownColumn(name@),
            BasaltError::NumericOverflow => ErrorKind::NumericOverflow,
            BasaltError::DivisionByZero => ErrorKind::DivisionByZero,
            BasaltError::Internal(message) => ErrorKind::Internal,
        }
    }

    pub(crate) fn internal(message: &str) -> (e: BasaltError)
        ensures
            e@ == ErrorKind::Internal,
    {
        BasaltError::Internal(message.to_owned())
    }

    pub(crate) fn type_error(message: &str) -> (e: BasaltError)
        ensures
            e@ == ErrorKind::Type,
    {
        BasaltError::Type { message: message.to_owned() }
    }

    /// A message of the form `prefix` then `n` then `suffix`.
    pub(crate) fn internal_with(prefix: &str, n: usize, suffix: &str) -> (e: BasaltError)
        ensures
            e@ == ErrorKind::Internal,
    {
        let mut message = prefix.to_owned();
        let number = crate::text::decimal(n as u64);
        vstd::string::StringExecFns::append(&mut message, number.as_str());
        vstd::string::StringExecFns::append(&mut message, suffix);
        BasaltError::Internal(message)
    }

    /// A type error about something named `name`.
    pub(crate) fn type_of(prefix: &str, name: &str) -> (e: BasaltError)
        ensures
            e@ == ErrorKind::Type,
    {
        let mut message = prefix.to_owned();
        vstd::string::StringExecFns::append(&mut message, name);
        BasaltError::Type { message }
    }

    /// A copy of the error.
    pub fn copy(&self) -> (r: BasaltError)
        ensures
            r == *self,
    {
        match self {
            BasaltError::Syntax { span, message } => BasaltError::Syntax {
                span: *span,
                message: message.clone(),
            },
            BasaltError::Type { message } => BasaltError::Type { message: message.clone() },
            BasaltError::UnknownColumn { name } => BasaltError::UnknownColumn { name: name.clone() },
            BasaltError::NumericOverflow => BasaltError::NumericOverflow,
            BasaltError::DivisionByZero => BasaltError::DivisionByZero,
            BasaltError::Internal(message) => BasaltError::Internal(message.clone()),
        }
    }
}

} // verus!
