//! Tokens to syntax trees. Statements are read from left to right; expressions
//! by binding powers: an operator takes the operand beside it from an operator
//! that binds less.

use vstd::prelude::*;

use crate::error::{BasaltError, ErrorKind};
use crate::float_text::{double_of, parse_double};
use crate::sql::ast::{
    item_views, optional_text, order_views, AstView, Expr, ItemView, Literal, OrderByExpr,
    SelectItem, SelectStatement, SelectView, Statement, TableRef,
};
use crate::sql::lexer::token_views;
use crate::sql::span::{Span, Spanned};
use crate::sql::token::{Keyword, Mark, Token, TokenView};
use crate::text::{
    chars_of, lower_text, lowered, parse_i64, parse_signed, parse_u64, same_lowered,
};
use crate::types::coercion::{BinaryOp, UnaryOp};
use crate::types::data_type::DataType;
use crate::types::value::ValueView;

verus! {

// ---------------------------------------------------------------------------
// Tokens

pub type Tokens = Seq<(TokenView, Span)>;

/// Whether tokens end as a text does.
pub open spec fn ends_in_eof(ts: Tokens) -> bool {
    ts.len() > 0 && ts.last().0 == TokenView::Mark(Mark::Eof)
}

/// The place behind a token; the end stays the end.
pub open spec fn after(ts: Tokens, p: int) -> int {
    if p < ts.len() - 1 {
        p + 1
    } else {
        p
    }
}

/// The token that stands for the end of tokens that lack one.
pub open spec fn missing_end(ts: Tokens) -> (TokenView, Span) {
    let at = if ts.len() == 0 {
        0
    } else {
        ts.last().1.end
    };
    (TokenView::Mark(Mark::Eof), Span { start: at, end: at })
}

/// Tokens with an end, whether they had one or not.
pub open spec fn ended(ts: Tokens) -> Tokens {
    if ends_in_eof(ts) {
        ts
    } else {
        ts.push(missing_end(ts))
    }
}

/// A syntax error at a token.
pub open spec fn wrong_at(ts: Tokens, p: int, message: Seq<char>) -> ErrorKind {
    ErrorKind::Syntax(ts[p].1, message)
}

/// A syntax error at a token that is not the one asked for.
pub open spec fn found_at(ts: Tokens, p: int, wanted: Seq<char>) -> ErrorKind {
    wrong_at(ts, p, wanted + ", found "@ + ts[p].0.text())
}

/// A syntax error at a token that cannot be taken as what it stands for.
pub open spec fn unusable_at(ts: Tokens, p: int, problem: Seq<char>, text: Seq<char>) -> ErrorKind {
    wrong_at(ts, p, problem + " '"@ + text + "'"@)
}

/// A syntax error at a token that starts no expression.
pub open spec fn no_expr_at(ts: Tokens, p: int) -> ErrorKind {
    found_at(ts, p, "expected expression"@)
}

/// The place behind a token that has to be there.
pub open spec fn expected(ts: Tokens, p: int, t: TokenView) -> Result<int, ErrorKind> {
    if ts[p].0 == t {
        Ok(after(ts, p))
    } else {
        Err(found_at(ts, p, "expected "@ + t.text()))
    }
}

/// The name that has to be there, and the place behind it.
pub open spec fn name_at(ts: Tokens, p: int) -> Result<(Seq<char>, int), ErrorKind> {
    match ts[p].0 {
        TokenView::Identifier(s) => Ok((s, after(ts, p))),
        _ => Err(found_at(ts, p, "expected identifier"@)),
    }
}

// ---------------------------------------------------------------------------
// Expressions

/// The binding powers of an operator to its left and to its right.
pub open spec fn binding(op: BinaryOp) -> (int, int) {
    match op {
        BinaryOp::Or => (1, 2),
        BinaryOp::And => (3, 4),
        BinaryOp::Eq => (7, 8),
        BinaryOp::NotEq => (7, 8),
        BinaryOp::Lt => (7, 8),
        BinaryOp::LtEq => (7, 8),
        BinaryOp::Gt => (7, 8),
        BinaryOp::GtEq => (7, 8),
        BinaryOp::Add => (9, 10),
        BinaryOp::Sub => (9, 10),
        BinaryOp::Mul => (11, 12),
        BinaryOp::Div => (11, 12),
        BinaryOp::Mod => (11, 12),
    }
}

/// The binding power of `IS NULL`.
pub const IS_NULL: u8 = 6;

/// The binding power of `NOT`.
pub const NOT: u8 = 5;

/// The binding power of a sign.
pub const SIGN: u8 = 13;

/// The operator that a token is between two operands.
pub open spec fn operator(t: TokenView) -> Option<BinaryOp> {
    match t {
        TokenView::Keyword(Keyword::Or) => Some(BinaryOp::Or),
        TokenView::Keyword(Keyword::And) => Some(BinaryOp::And),
        TokenView::Mark(Mark::Eq) => Some(BinaryOp::Eq),
        TokenView::Mark(Mark::NotEq) => Some(BinaryOp::NotEq),
        TokenView::Mark(Mark::Lt) => Some(BinaryOp::Lt),
        TokenView::Mark(Mark::LtEq) => Some(BinaryOp::LtEq),
        TokenView::Mark(Mark::Gt) => Some(BinaryOp::Gt),
        TokenView::Mark(Mark::GtEq) => Some(BinaryOp::GtEq),
        TokenView::Mark(Mark::Plus) => Some(BinaryOp::Add),
        TokenView::Mark(Mark::Minus) => Some(BinaryOp::Sub),
        TokenView::Mark(Mark::Star) => Some(BinaryOp::Mul),
        TokenView::Mark(Mark::Slash) => Some(BinaryOp::Div),
        TokenView::Mark(Mark::Percent) => Some(BinaryOp::Mod),
        _ => None,
    }
}

/// Whether a number is written as a fraction or with an exponent.
pub open spec fn written_as_float(s: Seq<char>) -> bool {
    s.contains('.') || s.contains('e') || s.contains('E')
}

/// The value of a number as it is written.
pub open spec fn number_value(s: Seq<char>) -> Option<ValueView> {
    if written_as_float(s) {
        match double_of(s) {
            Some(x) => Some(ValueView::Float64(x)),
            None => None,
        }
    } else {
        match parse_signed(s) {
            Some(n) => if i64::MIN <= n <= i64::MAX {
                Some(ValueView::Int64(n as i64))
            } else {
                None
            },
            None => None,
        }
    }
}

/// What is said of a number that has no value.
pub open spec fn bad_number(s: Seq<char>) -> Seq<char> {
    if written_as_float(s) {
        "invalid float literal"@
    } else {
        "invalid integer literal"@
    }
}

/// The type that a name stands for.
pub open spec fn type_named(name: Seq<char>) -> Option<DataType> {
    let n = lowered(name);
    if n == "int64"@ || n == "int"@ {
        Some(DataType::Int64)
    } else if n == "float64"@ || n == "float"@ || n == "double"@ {
        Some(DataType::Float64)
    } else if n == "utf8"@ || n == "string"@ || n == "varchar"@ || n == "text"@ {
        Some(DataType::Utf8)
    } else if n == "boolean"@ || n == "bool"@ {
        Some(DataType::Boolean)
    } else {
        None
    }
}

/// The type that has to be there, and the place behind it.
pub open spec fn type_at(ts: Tokens, p: int) -> Result<(DataType, int), ErrorKind> {
    match ts[p].0 {
        TokenView::Identifier(s) => match type_named(s) {
            Some(t) => Ok((t, after(ts, p))),
            None => Err(unusable_at(ts, p, "unknown data type"@, s)),
        },
        TokenView::Keyword(k) => if k == Keyword::True || k == Keyword::False || k
            == Keyword::Null {
            Err(wrong_at(ts, p, "expected data type, found keyword "@ + k.spec_name()))
        } else {
            Err(unusable_at(ts, p, "unknown data type keyword"@, lowered(k.spec_name())))
        },
        _ => Err(found_at(ts, p, "expected data type name"@)),
    }
}

/// An expression in parentheses, from behind the opening one on.
pub open spec fn nested_at(ts: Tokens, p: int) -> Result<(AstView, int), ErrorKind>
    decreases ts.len() - p, 3int,
{
    match expr_at(ts, p, 0) {
        Err(k) => Err(k),
        Ok((e, q)) => match expected(ts, q, TokenView::Mark(Mark::RParen)) {
            Err(k) => Err(k),
            Ok(end) => Ok((AstView::Nested(Box::new(e)), end)),
        },
    }
}

/// A cast, from behind its keyword on.
pub open spec fn cast_at(ts: Tokens, p: int) -> Result<(AstView, int), ErrorKind>
    decreases ts.len() - p, 3int,
{
    match expected(ts, p, TokenView::Mark(Mark::LParen)) {
        Err(k) => Err(k),
        Ok(a) => if a <= p {
            Err(no_expr_at(ts, p))
        } else {
            match expr_at(ts, a, 0) {
                Err(k) => Err(k),
                Ok((e, b)) => match expected(ts, b, TokenView::Keyword(Keyword::As)) {
                    Err(k) => Err(k),
                    Ok(c) => match type_at(ts, c) {
                        Err(k) => Err(k),
                        Ok((to, d)) => match expected(ts, d, TokenView::Mark(Mark::RParen)) {
                            Err(k) => Err(k),
                            Ok(end) => Ok((AstView::Cast { expr: Box::new(e), to }, end)),
                        },
                    },
                },
            }
        },
    }
}

/// What an expression starts with: a name, a literal, a sign or `NOT` with its
/// operand, parentheses, or a cast.
pub open spec fn prefix_at(ts: Tokens, p: int) -> Result<(AstView, int), ErrorKind>
    decreases ts.len() - p, 1int,
{
    let next = after(ts, p);
    match ts[p].0 {
        TokenView::Identifier(s) => Ok((AstView::Identifier(s), next)),
        TokenView::Number(s) => match number_value(s) {
            Some(v) => Ok((AstView::Literal(v), next)),
            None => Err(unusable_at(ts, p, bad_number(s), s)),
        },
        TokenView::String(s) => Ok((AstView::Literal(ValueView::Utf8(s)), next)),
        TokenView::Keyword(Keyword::True) => Ok((AstView::Literal(ValueView::Boolean(true)), next)),
        TokenView::Keyword(Keyword::False) => Ok(
            (AstView::Literal(ValueView::Boolean(false)), next),
        ),
        TokenView::Keyword(Keyword::Null) => Ok((AstView::Literal(ValueView::Null), next)),
        TokenView::Mark(Mark::Minus) => if next <= p {
            Err(no_expr_at(ts, p))
        } else {
            match expr_at(ts, next, SIGN as int) {
                Err(k) => Err(k),
                Ok((e, q)) => Ok((AstView::Unary { op: UnaryOp::Neg, expr: Box::new(e) }, q)),
            }
        },
        TokenView::Keyword(Keyword::Not) => if next <= p {
            Err(no_expr_at(ts, p))
        } else {
            match expr_at(ts, next, NOT as int) {
                Err(k) => Err(k),
                Ok((e, q)) => Ok((AstView::Unary { op: UnaryOp::Not, expr: Box::new(e) }, q)),
            }
        },
        TokenView::Mark(Mark::Plus) => if next <= p {
            Err(no_expr_at(ts, p))
        } else {
            expr_at(ts, next, SIGN as int)
        },
        TokenView::Mark(Mark::LParen) => if next <= p {
            Err(no_expr_at(ts, p))
        } else {
            nested_at(ts, next)
        },
        TokenView::Keyword(Keyword::Cast) => if next <= p {
            Err(no_expr_at(ts, p))
        } else {
            cast_at(ts, next)
        },
        _ => Err(no_expr_at(ts, p)),
    }
}

/// `NULL` or `NOT NULL` behind `IS`: whether there is a `NOT`, and the place
/// behind.
pub open spec fn null_test_at(ts: Tokens, p: int) -> Result<(bool, int), ErrorKind> {
    let negated = ts[p].0 == TokenView::Keyword(Keyword::Not);
    let q = if negated {
        after(ts, p)
    } else {
        p
    };
    match expected(ts, q, TokenView::Keyword(Keyword::Null)) {
        Err(k) => Err(k),
        Ok(end) => Ok((negated, end)),
    }
}

/// An expression that has been read so far, with the operators behind it that
/// bind no less than `power`.
pub open spec fn climbed(ts: Tokens, p: int, left: AstView, power: int) -> Result<
    (AstView, int),
    ErrorKind,
>
    decreases ts.len() - p, 0int,
{
    let next = after(ts, p);
    if p < 0 || p >= ts.len() {
        Ok((left, p))
    } else if ts[p].0 == TokenView::Keyword(Keyword::Is) {
        if IS_NULL < power {
            Ok((left, p))
        } else {
            match null_test_at(ts, next) {
                Err(k) => Err(k),
                Ok((negated, q)) => if q <= p || q >= ts.len() {
                    Err(no_expr_at(ts, p))
                } else {
                    climbed(ts, q, AstView::IsNull { expr: Box::new(left), negated }, power)
                },
            }
        }
    } else {
        match operator(ts[p].0) {
            None => Ok((left, p)),
            Some(op) => if binding(op).0 < power {
                Ok((left, p))
            } else if next <= p {
                Err(no_expr_at(ts, p))
            } else {
                match expr_at(ts, next, binding(op).1) {
                    Err(k) => Err(k),
                    Ok((right, q)) => if q <= p || q >= ts.len() {
                        Err(no_expr_at(ts, p))
                    } else {
                        climbed(
                            ts,
                            q,
                            AstView::Binary { left: Box::new(left), op, right: Box::new(right) },
                            power,
                        )
                    },
                }
            },
        }
    }
}

/// The expression at a place, as far as its operators bind no less than
/// `power`, and the place behind it.
pub open spec fn expr_at(ts: Tokens, p: int, power: int) -> Result<(AstView, int), ErrorKind>
    decreases ts.len() - p, 2int,
{
    if p < 0 || p >= ts.len() {
        Err(ErrorKind::Internal)
    } else {
        match prefix_at(ts, p) {
            Err(k) => Err(k),
            Ok((left, q)) => if q <= p || q >= ts.len() {
                Err(no_expr_at(ts, p))
            } else {
                climbed(ts, q, left, power)
            },
        }
    }
}

// ---------------------------------------------------------------------------
// Statements

/// An alias, where there is one: a name, with or without `AS`.
pub open spec fn alias_at(ts: Tokens, p: int) -> Result<(Option<Seq<char>>, int), ErrorKind> {
    if ts[p].0 == TokenView::Keyword(Keyword::As) {
        match name_at(ts, after(ts, p)) {
            Ok((s, q)) => Ok((Some(s), q)),
            Err(k) => Err(k),
        }
    } else {
        match ts[p].0 {
            TokenView::Identifier(s) => Ok((Some(s), after(ts, p))),
            _ => Ok((None, p)),
        }
    }
}

/// A projection.
pub open spec fn item_at(ts: Tokens, p: int) -> Result<(ItemView, int), ErrorKind> {
    if ts[p].0 == TokenView::Mark(Mark::Star) {
        Ok((None, after(ts, p)))
    } else {
        match expr_at(ts, p, 0) {
            Err(k) => Err(k),
            Ok((e, q)) => match alias_at(ts, q) {
                Err(k) => Err(k),
                Ok((alias, end)) => Ok((Some((e, alias)), end)),
            },
        }
    }
}

/// Projections behind those that were found, with commas between them.
pub open spec fn items_at(ts: Tokens, p: int, done: Seq<ItemView>) -> Result<
    (Seq<ItemView>, int),
    ErrorKind,
>
    decreases ts.len() - p,
{
    if p < 0 || p >= ts.len() {
        Ok((done, p))
    } else {
        match item_at(ts, p) {
            Err(k) => Err(k),
            Ok((item, q)) => if q > p && q < ts.len() && ts[q].0 == TokenView::Mark(
                Mark::Comma,
            ) && after(ts, q) > q {
                items_at(ts, after(ts, q), done.push(item))
            } else {
                Ok((done.push(item), q))
            },
        }
    }
}

/// A sort key: an expression, and whether it ascends.
pub open spec fn sort_key_at(ts: Tokens, p: int) -> Result<((AstView, bool), int), ErrorKind> {
    match expr_at(ts, p, 0) {
        Err(k) => Err(k),
        Ok((e, q)) => if ts[q].0 == TokenView::Keyword(Keyword::Asc) {
            Ok(((e, true), after(ts, q)))
        } else if ts[q].0 == TokenView::Keyword(Keyword::Desc) {
            Ok(((e, false), after(ts, q)))
        } else {
            Ok(((e, true), q))
        },
    }
}

/// Sort keys behind those that were found, with commas between them.
pub open spec fn sort_keys_at(ts: Tokens, p: int, done: Seq<(AstView, bool)>) -> Result<
    (Seq<(AstView, bool)>, int),
    ErrorKind,
>
    decreases ts.len() - p,
{
    if p < 0 || p >= ts.len() {
        Ok((done, p))
    } else {
        match sort_key_at(ts, p) {
            Err(k) => Err(k),
            Ok((key, q)) => if q > p && q < ts.len() && ts[q].0 == TokenView::Mark(
                Mark::Comma,
            ) && after(ts, q) > q {
                sort_keys_at(ts, after(ts, q), done.push(key))
            } else {
                Ok((done.push(key), q))
            },
        }
    }
}

/// The `WHERE` clause, where there is one.
pub open spec fn where_at(ts: Tokens, p: int) -> Result<(Option<AstView>, int), ErrorKind> {
    if ts[p].0 == TokenView::Keyword(Keyword::Where) {
        match expr_at(ts, after(ts, p), 0) {
            Err(k) => Err(k),
            Ok((e, q)) => Ok((Some(e), q)),
        }
    } else {
        Ok((None, p))
    }
}

/// The `ORDER BY` clause, where there is one.
pub open spec fn order_at(ts: Tokens, p: int) -> Result<(Seq<(AstView, bool)>, int), ErrorKind> {
    if ts[p].0 == TokenView::Keyword(Keyword::OrderBy) {
        sort_keys_at(ts, after(ts, p), seq![])
    } else {
        Ok((seq![], p))
    }
}

/// A number of rows as it is written.
pub open spec fn row_count(s: Seq<char>) -> Option<u64> {
    if s.len() > 0 && s[0] == '-' {
        None
    } else {
        match parse_signed(s) {
            Some(n) => if n <= u64::MAX {
                Some(n as u64)
            } else {
                None
            },
            None => None,
        }
    }
}

/// The `LIMIT` clause, where there is one.
pub open spec fn limit_at(ts: Tokens, p: int) -> Result<(Option<u64>, int), ErrorKind> {
    if ts[p].0 == TokenView::Keyword(Keyword::Limit) {
        let q = after(ts, p);
        match ts[q].0 {
            TokenView::Number(s) => match row_count(s) {
                Some(n) => Ok((Some(n), after(ts, q))),
                None => Err(unusable_at(ts, q, "invalid limit number"@, s)),
            },
            _ => Err(found_at(ts, q, "expected number for LIMIT"@)),
        }
    } else {
        Ok((None, p))
    }
}

/// The clauses of a query behind its table.
pub open spec fn clauses_at(
    ts: Tokens,
    p: int,
    projections: Seq<ItemView>,
    table: Seq<char>,
    table_alias: Option<Seq<char>>,
) -> Result<(SelectView, int), ErrorKind> {
    match where_at(ts, p) {
        Err(k) => Err(k),
        Ok((selection, a)) => match order_at(ts, a) {
            Err(k) => Err(k),
            Ok((order_by, b)) => match limit_at(ts, b) {
                Err(k) => Err(k),
                Ok((limit, end)) => Ok(
                    (
                        SelectView { projections, table, table_alias, selection, order_by, limit },
                        end,
                    ),
                ),
            },
        },
    }
}

/// A query.
pub open spec fn select_at(ts: Tokens, p: int) -> Result<(SelectView, int), ErrorKind> {
    match expected(ts, p, TokenView::Keyword(Keyword::Select)) {
        Err(k) => Err(k),
        Ok(a) => match items_at(ts, a, seq![]) {
            Err(k) => Err(k),
            Ok((projections, b)) => match expected(ts, b, TokenView::Keyword(Keyword::From)) {
                Err(k) => Err(k),
                Ok(c) => match name_at(ts, c) {
                    Err(k) => Err(k),
                    Ok((table, d)) => match alias_at(ts, d) {
                        Err(k) => Err(k),
                        Ok((table_alias, e)) => clauses_at(ts, e, projections, table, table_alias),
                    },
                },
            },
        },
    }
}

/// A statement: a query, an optional semicolon, and nothing more.
pub open spec fn statement_at(ts: Tokens, p: int) -> Result<(SelectView, int), ErrorKind> {
    if ts[p].0 != TokenView::Keyword(Keyword::Select) {
        Err(found_at(ts, p, "expected SELECT statement"@))
    } else {
        match select_at(ts, p) {
            Err(k) => Err(k),
            Ok((select, q)) => {
                let end = if ts[q].0 == TokenView::Mark(Mark::Semicolon) {
                    after(ts, q)
                } else {
                    q
                };
                if ts[end].0 == TokenView::Mark(Mark::Eof) {
                    Ok((select, after(ts, end)))
                } else {
                    Err(found_at(ts, end, "expected EOF"@))
                }
            },
        }
    }
}

// ---------------------------------------------------------------------------
// How operators bind

/// Whether each operator of a tree has taken its operands as its binding power
/// says: an operand without parentheses is held together by an operator that
/// binds more, or on the left as much.
pub open spec fn binds(e: AstView) -> bool
    decreases e,
{
    match e {
        AstView::Identifier(s) => true,
        AstView::Literal(v) => true,
        AstView::Binary { left, op, right } => {
            &&& binds(*left)
            &&& binds(*right)
            &&& *left matches AstView::Binary { left: a, op: inner, right: b } ==> binding(inner).0
                >= binding(op).0
            &&& *right matches AstView::Binary { left: a, op: inner, right: b } ==> binding(inner).0
                > binding(op).0
            &&& *right is IsNull ==> IS_NULL > binding(op).0
        },
        AstView::Unary { op, expr } => {
            &&& binds(*expr)
            &&& *expr matches AstView::Binary { left: a, op: inner, right: b } ==> op is Not
                && binding(inner).0 >= NOT
            &&& *expr is IsNull ==> op is Not
        },
        AstView::Cast { expr, to } => binds(*expr),
        AstView::IsNull { expr, negated } => {
            &&& binds(*expr)
            &&& *expr matches AstView::Binary { left: a, op: inner, right: b } ==> binding(inner).0
                > IS_NULL
        },
        AstView::Nested(inner) => binds(*inner),
    }
}

/// Whether what stands at a place binds less than `power`.
pub open spec fn stops(ts: Tokens, p: int, power: int) -> bool {
    &&& ts[p].0 == TokenView::Keyword(Keyword::Is) ==> IS_NULL < power
    &&& operator(ts[p].0) matches Some(op) ==> binding(op).0 < power
}

/// Whether a tree may be an operand of something that binds by `power`.
pub open spec fn held(e: AstView, power: int) -> bool {
    &&& binds(e)
    &&& e matches AstView::Binary { left: a, op, right: b } ==> binding(op).0 >= power
    &&& e is IsNull ==> IS_NULL >= power
}

/// Every expression that is read binds as it should: `a - b - c` is `(a - b) -
/// c`, `a + b * c` is `a + (b * c)`, and so on for all operators.
pub proof fn operators_bind_by_their_powers(ts: Tokens, p: int, power: int)
    requires
        0 <= p < ts.len(),
    ensures
        expr_at(ts, p, power) matches Ok((e, q)) ==> held(e, power) && stops(ts, q, power),
    decreases ts.len() - p, 2int,
{
    lemma_prefix_binds(ts, p);
    match prefix_at(ts, p) {
        Ok((left, q)) => {
            if p < q < ts.len() {
                lemma_climbed_binds(ts, q, left, power);
            }
        },
        Err(k) => {},
    }
}

proof fn lemma_prefix_binds(ts: Tokens, p: int)
    requires
        0 <= p < ts.len(),
    ensures
        prefix_at(ts, p) matches Ok((e, q)) ==> binds(e) && !(e is Binary) && !(e is IsNull),
    decreases ts.len() - p, 1int,
{
    let next = after(ts, p);
    if next > p {
        match ts[p].0 {
            TokenView::Mark(Mark::Minus) => {
                operators_bind_by_their_powers(ts, next, SIGN as int);
            },
            TokenView::Keyword(Keyword::Not) => {
                operators_bind_by_their_powers(ts, next, NOT as int);
            },
            TokenView::Mark(Mark::Plus) => {
                operators_bind_by_their_powers(ts, next, SIGN as int);
            },
            TokenView::Mark(Mark::LParen) => {
                operators_bind_by_their_powers(ts, next, 0);
            },
            TokenView::Keyword(Keyword::Cast) => {
                match expected(ts, next, TokenView::Mark(Mark::LParen)) {
                    Ok(a) => {
                        if a > next {
                            operators_bind_by_their_powers(ts, a, 0);
                        }
                    },
                    Err(k) => {},
                }
            },
            _ => {},
        }
    }
}

proof fn lemma_climbed_binds(ts: Tokens, p: int, left: AstView, power: int)
    requires
        0 <= p < ts.len(),
        held(left, power),
        left matches AstView::Binary { left: a, op, right: b } ==> stops(ts, p, binding(op).1),
    ensures
        climbed(ts, p, left, power) matches Ok((e, q)) ==> held(e, power) && stops(ts, q, power),
    decreases ts.len() - p, 0int,
{
    let next = after(ts, p);
    if ts[p].0 == TokenView::Keyword(Keyword::Is) {
        if IS_NULL >= power {
            match null_test_at(ts, next) {
                Ok((negated, q)) => {
                    if p < q < ts.len() {
                        let e = AstView::IsNull { expr: Box::new(left), negated };
                        assert(binds(e));
                        lemma_climbed_binds(ts, q, e, power);
                    }
                },
                Err(k) => {},
            }
        }
    } else {
        match operator(ts[p].0) {
            Some(op) => {
                if binding(op).0 >= power && next > p {
                    operators_bind_by_their_powers(ts, next, binding(op).1);
                    match expr_at(ts, next, binding(op).1) {
                        Ok((right, q)) => {
                            if p < q < ts.len() {
                                let e = AstView::Binary {
                                    left: Box::new(left),
                                    op,
                                    right: Box::new(right),
                                };
                                assert(binds(e));
                                lemma_climbed_binds(ts, q, e, power);
                            }
                        },
                        Err(k) => {},
                    }
                }
            },
            None => {},
        }
    }
}

// ---------------------------------------------------------------------------
// The parser

/// The outcome of reading an expression.
pub open spec fn ast_outcome(r: Result<(Expr, usize), BasaltError>) -> Result<
    (AstView, int),
    ErrorKind,
> {
    match r {
        Ok((e, q)) => Ok((e@, q as int)),
        Err(k) => Err(k@),
    }
}

/// Whether reading ended at a token behind the one it started at.
pub open spec fn moved<T>(r: Result<(T, usize), BasaltError>, p: int, n: int) -> bool {
    r matches Ok((x, q)) ==> p < q < n
}

fn contains_char(s: &Vec<char>, c: char) -> (r: bool)
    ensures
        r == s@.contains(c),
{
    let mut i: usize = 0;
    while i < s.len()
        invariant
            i <= s@.len(),
            forall|k: int| 0 <= k < i ==> #[trigger] s@[k] != c,
        decreases s@.len() - i,
    {
        if s[i] == c {
            return true;
        }
        i = i + 1;
    }
    false
}

/// The value of a number as it is written.
fn number_literal(s: &String) -> (r: Option<Literal>)
    ensures
        match r {
            Some(l) => number_value(s@) == Some(l@),
            None => number_value(s@) is None,
        },
{
    let chars = chars_of(s.as_str());
    if contains_char(&chars, '.') || contains_char(&chars, 'e') || contains_char(&chars, 'E') {
        match parse_double(s.as_str()) {
            Some(x) => Some(Literal::Float(x)),
            None => None,
        }
    } else {
        match parse_i64(s.as_str()) {
            Some(n) => Some(Literal::Integer(n)),
            None => None,
        }
    }
}

/// The type that a name stands for.
fn find_type(name: &str) -> (r: Option<DataType>)
    ensures
        r == type_named(name@),
{
    if same_lowered(name, "int64") || same_lowered(name, "int") {
        Some(DataType::Int64)
    } else if same_lowered(name, "float64") || same_lowered(name, "float") || same_lowered(
        name,
        "double",
    ) {
        Some(DataType::Float64)
    } else if same_lowered(name, "utf8") || same_lowered(name, "string") || same_lowered(
        name,
        "varchar",
    ) || same_lowered(name, "text") {
        Some(DataType::Utf8)
    } else if same_lowered(name, "boolean") || same_lowered(name, "bool") {
        Some(DataType::Boolean)
    } else {
        None
    }
}

/// The operator that a token is between two operands.
fn infix_operator(t: &Token) -> (r: Option<BinaryOp>)
    ensures
        r == operator(t@),
{
    match t {
        Token::Keyword(Keyword::Or) => Some(BinaryOp::Or),
        Token::Keyword(Keyword::And) => Some(BinaryOp::And),
        Token::Eq => Some(BinaryOp::Eq),
        Token::NotEq => Some(BinaryOp::NotEq),
        Token::Lt => Some(BinaryOp::Lt),
        Token::LtEq => Some(BinaryOp::LtEq),
        Token::Gt => Some(BinaryOp::Gt),
        Token::GtEq => Some(BinaryOp::GtEq),
        Token::Plus => Some(BinaryOp::Add),
        Token::Minus => Some(BinaryOp::Sub),
        Token::Star => Some(BinaryOp::Mul),
        Token::Slash => Some(BinaryOp::Div),
        Token::Percent => Some(BinaryOp::Mod),
        _ => None,
    }
}

/// The binding powers of an operator.
fn infix_binding_power(op: BinaryOp) -> (r: (u8, u8))
    ensures
        (r.0 as int, r.1 as int) == binding(op),
{
    match op {
        BinaryOp::Or => (1, 2),
        BinaryOp::And => (3, 4),
        BinaryOp::Eq => (7, 8),
        BinaryOp::NotEq => (7, 8),
        BinaryOp::Lt => (7, 8),
        BinaryOp::LtEq => (7, 8),
        BinaryOp::Gt => (7, 8),
        BinaryOp::GtEq => (7, 8),
        BinaryOp::Add => (9, 10),
        BinaryOp::Sub => (9, 10),
        BinaryOp::Mul => (11, 12),
        BinaryOp::Div => (11, 12),
        BinaryOp::Mod => (11, 12),
    }
}

/// Tokens, and how far they have been read.
pub struct Parser {
    tokens: Vec<Spanned<Token>>,
    position: usize,
}

impl Parser {
    pub closed spec fn tokens(&self) -> Tokens {
        token_views(self.tokens@)
    }

    /// The token that is next.
    pub closed spec fn place(&self) -> int {
        self.position as int
    }

    #[verifier::type_invariant]
    spec fn wf(&self) -> bool {
        &&& ends_in_eof(token_views(self.tokens@))
        &&& self.position < self.tokens@.len()
    }

    /// A parser of tokens. Where they lack an end, they end behind the last.
    pub fn new(tokens: Vec<Spanned<Token>>) -> (r: Parser)
        ensures
            r.tokens() == ended(token_views(tokens@)),
            r.place() == 0,
    {
        let mut tokens = tokens;
        let ghost ts = token_views(tokens@);
        let n: usize = tokens.len();
        let at: usize = if n == 0 {
            0
        } else {
            tokens[n - 1].span.end
        };
        if n == 0 || !tokens[n - 1].value.is_mark(Mark::Eof) {
            tokens.push(Spanned { value: Token::Eof, span: Span::empty(at) });
            assert(token_views(tokens@) =~= ended(ts));
        }
        Parser { tokens, position: 0 }
    }

    /// Reads a statement to the end.
    ///
    /// # Errors
    /// A syntax error at the first token that does not fit.
    pub fn parse_statement(&mut self) -> (r: Result<Statement, BasaltError>)
        ensures
            final(self).tokens() == old(self).tokens(),
            match r {
                Ok(s) => statement_at(old(self).tokens(), old(self).place()) == Ok::<
                    (SelectView, int),
                    ErrorKind,
                >((s@, final(self).place())),
                Err(e) => statement_at(old(self).tokens(), old(self).place()) == Err::<
                    (SelectView, int),
                    ErrorKind,
                >(e@),
            },
    {
        proof {
            use_type_invariant(&*self);
        }
        let p: usize = self.position;
        if !self.at(p).is_keyword(Keyword::Select) {
            return Err(self.wrong(p, "expected SELECT statement"));
        }
        let (select, q) = match self.parse_select(p) {
            Ok(x) => x,
            Err(e) => {
                return Err(e);
            },
        };
        let end: usize = if self.at(q).is_mark(Mark::Semicolon) {
            self.after(q)
        } else {
            q
        };
        if !self.at(end).is_mark(Mark::Eof) {
            return Err(self.wrong(end, "expected EOF"));
        }
        let last: usize = self.after(end);
        self.position = last;
        Ok(Statement::Select(select))
    }

    /// Reads an expression, as far as its operators bind no less than `min_bp`.
    ///
    /// # Errors
    /// A syntax error at the first token that does not fit.
    pub fn parse_expr(&mut self, min_bp: u8) -> (r: Result<Expr, BasaltError>)
        ensures
            final(self).tokens() == old(self).tokens(),
            match r {
                Ok(e) => expr_at(old(self).tokens(), old(self).place(), min_bp as int) == Ok::<
                    (AstView, int),
                    ErrorKind,
                >((e@, final(self).place())),
                Err(k) => expr_at(old(self).tokens(), old(self).place(), min_bp as int) == Err::<
                    (AstView, int),
                    ErrorKind,
                >(k@),
            },
    {
        proof {
            use_type_invariant(&*self);
        }
        let p: usize = self.position;
        match self.expr(p, min_bp) {
            Ok((e, q)) => {
                self.position = q;
                Ok(e)
            },
            Err(k) => Err(k),
        }
    }

    fn at(&self, p: usize) -> (r: &Token)
        requires
            p < self.tokens().len(),
        ensures
            r@ == self.tokens()[p as int].0,
    {
        &self.tokens[p].value
    }

    fn after(&self, p: usize) -> (r: usize)
        requires
            p < self.tokens().len(),
        ensures
            r == after(self.tokens(), p as int),
            r < self.tokens().len(),
            self.tokens()[p as int].0 != TokenView::Mark(Mark::Eof) ==> r == p + 1,
    {
        proof {
            use_type_invariant(self);
        }
        if p < self.tokens.len() - 1 {
            p + 1
        } else {
            p
        }
    }

    fn wrong(&self, p: usize, what: &str) -> (e: BasaltError)
        requires
            p < self.tokens().len(),
        ensures
            e@ == found_at(self.tokens(), p as int, what@),
    {
        let mut message = what.to_owned();
        message.append(", found ");
        let found = self.tokens[p].value.describe();
        message.append(found.as_str());
        BasaltError::Syntax { span: self.tokens[p].span, message }
    }

    fn unusable(&self, p: usize, problem: &str, text: &str) -> (e: BasaltError)
        requires
            p < self.tokens().len(),
        ensures
            e@ == unusable_at(self.tokens(), p as int, problem@, text@),
    {
        let mut message = problem.to_owned();
        message.append(" '");
        message.append(text);
        message.append("'");
        BasaltError::Syntax { span: self.tokens[p].span, message }
    }

    fn expect_mark(&self, p: usize, m: Mark) -> (r: Result<usize, BasaltError>)
        requires
            p < self.tokens().len(),
            m != Mark::Eof,
        ensures
            match r {
                Ok(q) => expected(self.tokens(), p as int, TokenView::Mark(m)) == Ok::<
                    int,
                    ErrorKind,
                >(q as int) && q == p + 1 && q < self.tokens().len(),
                Err(e) => expected(self.tokens(), p as int, TokenView::Mark(m)) == Err::<
                    int,
                    ErrorKind,
                >(e@),
            },
    {
        if self.at(p).is_mark(m) {
            Ok(self.after(p))
        } else {
            let mut what = "expected ".to_owned();
            what.append(m.text());
            Err(self.wrong(p, what.as_str()))
        }
    }

    fn expect_keyword(&self, p: usize, k: Keyword) -> (r: Result<usize, BasaltError>)
        requires
            p < self.tokens().len(),
        ensures
            match r {
                Ok(q) => expected(self.tokens(), p as int, TokenView::Keyword(k)) == Ok::<
                    int,
                    ErrorKind,
                >(q as int) && q == p + 1 && q < self.tokens().len(),
                Err(e) => expected(self.tokens(), p as int, TokenView::Keyword(k)) == Err::<
                    int,
                    ErrorKind,
                >(e@),
            },
    {
        if self.at(p).is_keyword(k) {
            Ok(self.after(p))
        } else {
            let mut what = "expected ".to_owned();
            what.append(k.name());
            Err(self.wrong(p, what.as_str()))
        }
    }

    fn expect_identifier(&self, p: usize) -> (r: Result<(String, usize), BasaltError>)
        requires
            p < self.tokens().len(),
        ensures
            match r {
                Ok((s, q)) => name_at(self.tokens(), p as int) == Ok::<(Seq<char>, int), ErrorKind>(
                    (s@, q as int),
                ) && q == p + 1 && q < self.tokens().len(),
                Err(e) => name_at(self.tokens(), p as int) == Err::<(Seq<char>, int), ErrorKind>(
                    e@,
                ),
            },
    {
        match self.at(p) {
            Token::Identifier(s) => Ok((s.clone(), self.after(p))),
            _ => Err(self.wrong(p, "expected identifier")),
        }
    }

    fn parse_data_type(&self, p: usize) -> (r: Result<(DataType, usize), BasaltError>)
        requires
            p < self.tokens().len(),
        ensures
            match r {
                Ok((t, q)) => type_at(self.tokens(), p as int) == Ok::<(DataType, int), ErrorKind>(
                    (t, q as int),
                ) && q < self.tokens().len(),
                Err(e) => type_at(self.tokens(), p as int) == Err::<(DataType, int), ErrorKind>(
                    e@,
                ),
            },
    {
        match self.at(p) {
            Token::Identifier(s) => match find_type(s.as_str()) {
                Some(t) => Ok((t, self.after(p))),
                None => Err(self.unusable(p, "unknown data type", s.as_str())),
            },
            Token::Keyword(k) => if *k == Keyword::True || *k == Keyword::False || *k
                == Keyword::Null {
                let mut message = "expected data type, found keyword ".to_owned();
                message.append(k.name());
                Err(BasaltError::Syntax { span: self.tokens[p].span, message })
            } else {
                let name = lower_text(k.name());
                Err(self.unusable(p, "unknown data type keyword", name.as_str()))
            },
            _ => Err(self.wrong(p, "expected data type name")),
        }
    }

    fn expr(&self, p: usize, power: u8) -> (r: Result<(Expr, usize), BasaltError>)
        requires
            p < self.tokens().len(),
        ensures
            ast_outcome(r) == expr_at(self.tokens(), p as int, power as int),
            moved(r, p as int, self.tokens().len() as int),
        decreases self.tokens().len() - p, 2int,
    {
        let (first, q) = match self.parse_prefix(p) {
            Ok(x) => x,
            Err(e) => {
                return Err(e);
            },
        };
        let ghost ts = self.tokens();
        let ghost whole = expr_at(ts, p as int, power as int);
        let mut left = first;
        let mut at: usize = q;
        loop
            invariant
                ts == self.tokens(),
                p < at < ts.len(),
                climbed(ts, at as int, left@, power as int) == whole,
                whole == expr_at(ts, p as int, power as int),
            decreases ts.len() - at,
        {
            let token = self.at(at);
            if token.is_keyword(Keyword::Is) {
                if IS_NULL < power {
                    return Ok((left, at));
                }
                let next: usize = self.after(at);
                match self.null_test(next) {
                    Ok((negated, end)) => {
                        left = Expr::IsNull { expr: Box::new(left), negated };
                        at = end;
                    },
                    Err(e) => {
                        return Err(e);
                    },
                }
            } else {
                match infix_operator(token) {
                    None => {
                        return Ok((left, at));
                    },
                    Some(op) => {
                        let (left_bp, right_bp): (u8, u8) = infix_binding_power(op);
                        if left_bp < power {
                            return Ok((left, at));
                        }
                        let next: usize = self.after(at);
                        match self.expr(next, right_bp) {
                            Ok((right, end)) => {
                                left = Expr::Binary {
                                    left: Box::new(left),
                                    op,
                                    right: Box::new(right),
                                };
                                at = end;
                            },
                            Err(e) => {
                                return Err(e);
                            },
                        }
                    },
                }
            }
        }
    }

    fn null_test(&self, p: usize) -> (r: Result<(bool, usize), BasaltError>)
        requires
            p < self.tokens().len(),
        ensures
            match r {
                Ok((negated, q)) => null_test_at(self.tokens(), p as int) == Ok::<
                    (bool, int),
                    ErrorKind,
                >((negated, q as int)) && p < q < self.tokens().len(),
                Err(e) => null_test_at(self.tokens(), p as int) == Err::<(bool, int), ErrorKind>(
                    e@,
                ),
            },
    {
        let negated = self.at(p).is_keyword(Keyword::Not);
        let q: usize = if negated {
            self.after(p)
        } else {
            p
        };
        match self.expect_keyword(q, Keyword::Null) {
            Ok(end) => Ok((negated, end)),
            Err(e) => Err(e),
        }
    }

    fn parse_prefix(&self, p: usize) -> (r: Result<(Expr, usize), BasaltError>)
        requires
            p < self.tokens().len(),
        ensures
            ast_outcome(r) == prefix_at(self.tokens(), p as int),
            moved(r, p as int, self.tokens().len() as int),
        decreases self.tokens().len() - p, 1int,
    {
        let token = self.at(p);
        let next: usize = self.after(p);
        match token {
            Token::Identifier(s) => Ok((Expr::Identifier(s.clone()), next)),
            Token::Number(s) => match number_literal(s) {
                Some(l) => Ok((Expr::Literal(l), next)),
                None => {
                    let chars = chars_of(s.as_str());
                    let problem = if contains_char(&chars, '.') || contains_char(&chars, 'e')
                        || contains_char(&chars, 'E') {
                        "invalid float literal"
                    } else {
                        "invalid integer literal"
                    };
                    Err(self.unusable(p, problem, s.as_str()))
                },
            },
            Token::String(s) => Ok((Expr::Literal(Literal::String(s.clone())), next)),
            Token::Keyword(Keyword::True) => Ok((Expr::Literal(Literal::Boolean(true)), next)),
            Token::Keyword(Keyword::False) => Ok((Expr::Literal(Literal::Boolean(false)), next)),
            Token::Keyword(Keyword::Null) => Ok((Expr::Literal(Literal::Null), next)),
            Token::Minus => match self.expr(next, SIGN) {
                Ok((e, q)) => Ok((Expr::Unary { op: UnaryOp::Neg, expr: Box::new(e) }, q)),
                Err(e) => Err(e),
            },
            Token::Keyword(Keyword::Not) => match self.expr(next, NOT) {
                Ok((e, q)) => Ok((Expr::Unary { op: UnaryOp::Not, expr: Box::new(e) }, q)),
                Err(e) => Err(e),
            },
            Token::Plus => self.expr(next, SIGN),
            Token::LParen => match self.expr(next, 0) {
                Ok((e, q)) => match self.expect_mark(q, Mark::RParen) {
                    Ok(end) => Ok((Expr::Nested(Box::new(e)), end)),
                    Err(e) => Err(e),
                },
                Err(e) => Err(e),
            },
            Token::Keyword(Keyword::Cast) => self.cast(next),
            _ => Err(self.wrong(p, "expected expression")),
        }
    }

    fn cast(&self, p: usize) -> (r: Result<(Expr, usize), BasaltError>)
        requires
            p < self.tokens().len(),
        ensures
            ast_outcome(r) == cast_at(self.tokens(), p as int),
            moved(r, p as int, self.tokens().len() as int),
        decreases self.tokens().len() - p, 3int,
    {
        let a: usize = match self.expect_mark(p, Mark::LParen) {
            Ok(q) => q,
            Err(e) => {
                return Err(e);
            },
        };
        let (inner, b) = match self.expr(a, 0) {
            Ok(x) => x,
            Err(e) => {
                return Err(e);
            },
        };
        let c: usize = match self.expect_keyword(b, Keyword::As) {
            Ok(q) => q,
            Err(e) => {
                return Err(e);
            },
        };
        let (to, d) = match self.parse_data_type(c) {
            Ok(x) => x,
            Err(e) => {
                return Err(e);
            },
        };
        match self.expect_mark(d, Mark::RParen) {
            Ok(end) => Ok((Expr::Cast { expr: Box::new(inner), to }, end)),
            Err(e) => Err(e),
        }
    }

    fn alias(&self, p: usize) -> (r: Result<(Option<String>, usize), BasaltError>)
        requires
            p < self.tokens().len(),
        ensures
            match r {
                Ok((s, q)) => alias_at(self.tokens(), p as int) == Ok::<
                    (Option<Seq<char>>, int),
                    ErrorKind,
                >((optional_text(s), q as int)) && p <= q < self.tokens().len(),
                Err(e) => alias_at(self.tokens(), p as int) == Err::<
                    (Option<Seq<char>>, int),
                    ErrorKind,
                >(e@),
            },
    {
        if self.at(p).is_keyword(Keyword::As) {
            match self.expect_identifier(self.after(p)) {
                Ok((s, q)) => Ok((Some(s), q)),
                Err(e) => Err(e),
            }
        } else {
            match self.at(p) {
                Token::Identifier(s) => Ok((Some(s.clone()), self.after(p))),
                _ => Ok((None, p)),
            }
        }
    }

    fn item(&self, p: usize) -> (r: Result<(SelectItem, usize), BasaltError>)
        requires
            p < self.tokens().len(),
        ensures
            match r {
                Ok((x, q)) => item_at(self.tokens(), p as int) == Ok::<(ItemView, int), ErrorKind>(
                    (x@, q as int),
                ) && p < q < self.tokens().len(),
                Err(e) => item_at(self.tokens(), p as int) == Err::<(ItemView, int), ErrorKind>(
                    e@,
                ),
            },
    {
        if self.at(p).is_mark(Mark::Star) {
            return Ok((SelectItem::Wildcard, self.after(p)));
        }
        match self.expr(p, 0) {
            Err(e) => Err(e),
            Ok((expr, q)) => match self.alias(q) {
                Err(e) => Err(e),
                Ok((alias, end)) => Ok((SelectItem::Expr { expr, alias }, end)),
            },
        }
    }

    /// Projections with commas between them.
    fn parse_projections(&self, p: usize) -> (r: Result<(Vec<SelectItem>, usize), BasaltError>)
        requires
            p < self.tokens().len(),
        ensures
            match r {
                Ok((v, q)) => items_at(self.tokens(), p as int, seq![]) == Ok::<
                    (Seq<ItemView>, int),
                    ErrorKind,
                >((item_views(v@), q as int)) && q < self.tokens().len(),
                Err(e) => items_at(self.tokens(), p as int, seq![]) == Err::<
                    (Seq<ItemView>, int),
                    ErrorKind,
                >(e@),
            },
    {
        let ghost ts = self.tokens();
        let mut out: Vec<SelectItem> = Vec::new();
        let mut at: usize = p;
        assert(item_views(out@) =~= seq![]);
        loop
            invariant
                ts == self.tokens(),
                at < ts.len(),
                items_at(ts, at as int, item_views(out@)) == items_at(ts, p as int, seq![]),
            decreases ts.len() - at,
        {
            let (item, q) = match self.item(at) {
                Ok(x) => x,
                Err(e) => {
                    return Err(e);
                },
            };
            let ghost was = item_views(out@);
            out.push(item);
            assert(item_views(out@) =~= was.push(item@));
            if !self.at(q).is_mark(Mark::Comma) {
                return Ok((out, q));
            }
            at = self.after(q);
        }
    }

    fn sort_key(&self, p: usize) -> (r: Result<(OrderByExpr, usize), BasaltError>)
        requires
            p < self.tokens().len(),
        ensures
            match r {
                Ok((x, q)) => sort_key_at(self.tokens(), p as int) == Ok::<
                    ((AstView, bool), int),
                    ErrorKind,
                >(((x.expr@, x.asc), q as int)) && p < q < self.tokens().len(),
                Err(e) => sort_key_at(self.tokens(), p as int) == Err::<
                    ((AstView, bool), int),
                    ErrorKind,
                >(e@),
            },
    {
        match self.expr(p, 0) {
            Err(e) => Err(e),
            Ok((expr, q)) => if self.at(q).is_keyword(Keyword::Asc) {
                Ok((OrderByExpr { expr, asc: true }, self.after(q)))
            } else if self.at(q).is_keyword(Keyword::Desc) {
                Ok((OrderByExpr { expr, asc: false }, self.after(q)))
            } else {
                Ok((OrderByExpr { expr, asc: true }, q))
            },
        }
    }

    /// Sort keys with commas between them.
    fn parse_order_by(&self, p: usize) -> (r: Result<(Vec<OrderByExpr>, usize), BasaltError>)
        requires
            p < self.tokens().len(),
        ensures
            match r {
                Ok((v, q)) => sort_keys_at(self.tokens(), p as int, seq![]) == Ok::<
                    (Seq<(AstView, bool)>, int),
                    ErrorKind,
                >((order_views(v@), q as int)) && q < self.tokens().len(),
                Err(e) => sort_keys_at(self.tokens(), p as int, seq![]) == Err::<
                    (Seq<(AstView, bool)>, int),
                    ErrorKind,
                >(e@),
            },
    {
        let ghost ts = self.tokens();
        let mut out: Vec<OrderByExpr> = Vec::new();
        let mut at: usize = p;
        assert(order_views(out@) =~= seq![]);
        loop
            invariant
                ts == self.tokens(),
                at < ts.len(),
                sort_keys_at(ts, at as int, order_views(out@)) == sort_keys_at(
                    ts,
                    p as int,
                    seq![],
                ),
            decreases ts.len() - at,
        {
            let (key, q) = match self.sort_key(at) {
                Ok(x) => x,
                Err(e) => {
                    return Err(e);
                },
            };
            let ghost was = order_views(out@);
            let ghost one = (key.expr@, key.asc);
            out.push(key);
            assert(order_views(out@) =~= was.push(one));
            if !self.at(q).is_mark(Mark::Comma) {
                return Ok((out, q));
            }
            at = self.after(q);
        }
    }

    fn limit(&self, p: usize) -> (r: Result<(Option<u64>, usize), BasaltError>)
        requires
            p < self.tokens().len(),
        ensures
            match r {
                Ok((n, q)) => limit_at(self.tokens(), p as int) == Ok::<
                    (Option<u64>, int),
                    ErrorKind,
                >((n, q as int)) && q < self.tokens().len(),
                Err(e) => limit_at(self.tokens(), p as int) == Err::<
                    (Option<u64>, int),
                    ErrorKind,
                >(e@),
            },
    {
        if !self.at(p).is_keyword(Keyword::Limit) {
            return Ok((None, p));
        }
        let q: usize = self.after(p);
        match self.at(q) {
            Token::Number(s) => match parse_u64(s.as_str()) {
                Some(n) => Ok((Some(n), self.after(q))),
                None => Err(self.unusable(q, "invalid limit number", s.as_str())),
            },
            _ => Err(self.wrong(q, "expected number for LIMIT")),
        }
    }

    /// A query.
    fn parse_select(&self, p: usize) -> (r: Result<(SelectStatement, usize), BasaltError>)
        requires
            p < self.tokens().len(),
        ensures
            match r {
                Ok((s, q)) => select_at(self.tokens(), p as int) == Ok::<
                    (SelectView, int),
                    ErrorKind,
                >((s@, q as int)) && q < self.tokens().len(),
                Err(e) => select_at(self.tokens(), p as int) == Err::<(SelectView, int), ErrorKind>(
                    e@,
                ),
            },
    {
        let a: usize = match self.expect_keyword(p, Keyword::Select) {
            Ok(q) => q,
            Err(e) => {
                return Err(e);
            },
        };
        let (projections, b) = match self.parse_projections(a) {
            Ok(x) => x,
            Err(e) => {
                return Err(e);
            },
        };
        let c: usize = match self.expect_keyword(b, Keyword::From) {
            Ok(q) => q,
            Err(e) => {
                return Err(e);
            },
        };
        let (name, d) = match self.expect_identifier(c) {
            Ok(x) => x,
            Err(e) => {
                return Err(e);
            },
        };
        let (alias, e) = match self.alias(d) {
            Ok(x) => x,
            Err(e) => {
                return Err(e);
            },
        };
        let (selection, f) = if self.at(e).is_keyword(Keyword::Where) {
            match self.expr(self.after(e), 0) {
                Ok((x, q)) => (Some(x), q),
                Err(k) => {
                    return Err(k);
                },
            }
        } else {
            (None, e)
        };
        let (order_by, g) = if self.at(f).is_keyword(Keyword::OrderBy) {
            match self.parse_order_by(self.after(f)) {
                Ok(x) => x,
                Err(k) => {
                    return Err(k);
                },
            }
        } else {
            let none: Vec<OrderByExpr> = Vec::new();
            assert(order_views(none@) =~= seq![]);
            (none, f)
        };
        match self.limit(g) {
            Ok((limit, end)) => Ok(
                (
                    SelectStatement {
                        projections,
                        from: TableRef { name, alias },
                        selection,
                        order_by,
                        limit,
                    },
                    end,
                ),
            ),
            Err(k) => Err(k),
        }
    }
}

} // verus!
