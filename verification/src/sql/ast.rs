//! Syntax trees: what a statement says, before names and types are looked up.

use vstd::prelude::*;

use crate::float64::Float64;
use crate::types::coercion::{BinaryOp, UnaryOp};
use crate::types::data_type::DataType;
use crate::types::value::ValueView;

verus! {

#[derive(Debug, Clone, PartialEq)]
pub enum Statement {
    Select(SelectStatement),
}

#[derive(Debug, Clone, PartialEq)]
pub struct SelectStatement {
    pub projections: Vec<SelectItem>,
    pub from: TableRef,
    /// The `WHERE` clause.
    pub selection: Option<Expr>,
    pub order_by: Vec<OrderByExpr>,
    pub limit: Option<u64>,
}

#[derive(Debug, Clone, PartialEq)]
pub enum SelectItem {
    /// `*`.
    Wildcard,
    Expr { expr: Expr, alias: Option<String> },
}

#[derive(Debug, Clone, PartialEq)]
pub struct TableRef {
    pub name: String,
    pub alias: Option<String>,
}

#[derive(Debug, Clone, PartialEq)]
pub struct OrderByExpr {
    pub expr: Expr,
    pub asc: bool,
}

#[allow(inconsistent_fields)]
#[derive(Debug, PartialEq)]
pub enum Expr {
    /// A column by its name.
    Identifier(String),
    Literal(Literal),
    Binary { left: Box<Expr>, op: BinaryOp, right: Box<Expr> },
    Unary { op: UnaryOp, expr: Box<Expr> },
    Cast { expr: Box<Expr>, to: DataType },
    /// `IS NULL`, or `IS NOT NULL`.
    IsNull { expr: Box<Expr>, negated: bool },
    /// An expression in parentheses.
    Nested(Box<Expr>),
}

#[derive(Debug, PartialEq)]
pub enum Literal {
    Integer(i64),
    Float(Float64),
    String(String),
    Boolean(bool),
    Null,
}

/// The model of an expression.
#[allow(inconsistent_fields)]
pub enum AstView {
    Identifier(Seq<char>),
    Literal(ValueView),
    Binary { left: Box<AstView>, op: BinaryOp, right: Box<AstView> },
    Unary { op: UnaryOp, expr: Box<AstView> },
    Cast { expr: Box<AstView>, to: DataType },
    IsNull { expr: Box<AstView>, negated: bool },
    Nested(Box<AstView>),
}

/// The model of a projection; `None` for `*`.
pub type ItemView = Option<(AstView, Option<Seq<char>>)>;

/// The model of a query.
pub struct SelectView {
    pub projections: Seq<ItemView>,
    pub table: Seq<char>,
    pub table_alias: Option<Seq<char>>,
    pub selection: Option<AstView>,
    pub order_by: Seq<(AstView, bool)>,
    pub limit: Option<u64>,
}

/// The model of an optional text.
pub open spec fn optional_text(s: Option<String>) -> Option<Seq<char>> {
    match s {
        Some(t) => Some(t@),
        None => None,
    }
}

impl Literal {
    pub open spec fn view(&self) -> ValueView {
        match self {
            Literal::Integer(n) => ValueView::Int64(*n),
            Literal::Float(x) => ValueView::Float64(*x),
            Literal::String(s) => ValueView::Utf8(s@),
            Literal::Boolean(b) => ValueView::Boolean(*b),
            Literal::Null => ValueView::Null,
        }
    }

    pub fn copy(&self) -> (r: Literal)
        ensures
            r@ == self@,
    {
        match self {
            Literal::Integer(n) => Literal::Integer(*n),
            Literal::Float(x) => Literal::Float(*x),
            Literal::String(s) => Literal::String(s.clone()),
            Literal::Boolean(b) => Literal::Boolean(*b),
            Literal::Null => Literal::Null,
        }
    }
}

impl Clone for Literal {
    fn clone(&self) -> (r: Literal)
        ensures
            r@ == self@,
    {
        self.copy()
    }
}

impl Expr {
    pub open spec fn view(&self) -> AstView
        decreases self,
    {
        match self {
            Expr::Identifier(s) => AstView::Identifier(s@),
            Expr::Literal(l) => AstView::Literal(l@),
            Expr::Binary { left, op, right } => AstView::Binary {
                left: Box::new(left.view()),
                op: *op,
                right: Box::new(right.view()),
            },
            Expr::Unary { op, expr } => AstView::Unary { op: *op, expr: Box::new(expr.view()) },
            Expr::Cast { expr, to } => AstView::Cast { expr: Box::new(expr.view()), to: *to },
            Expr::IsNull { expr, negated } => AstView::IsNull {
                expr: Box::new(expr.view()),
                negated: *negated,
            },
            Expr::Nested(inner) => AstView::Nested(Box::new(inner.view())),
        }
    }

    pub fn copy(&self) -> (r: Expr)
        ensures
            r@ == self@,
        decreases self,
    {
        match self {
            Expr::Identifier(s) => Expr::Identifier(s.clone()),
            Expr::Literal(l) => Expr::Literal(l.copy()),
            Expr::Binary { left, op, right } => Expr::Binary {
                left: Box::new(left.copy()),
                op: *op,
                right: Box::new(right.copy()),
            },
            Expr::Unary { op, expr } => Expr::Unary { op: *op, expr: Box::new(expr.copy()) },
            Expr::Cast { expr, to } => Expr::Cast { expr: Box::new(expr.copy()), to: *to },
            Expr::IsNull { expr, negated } => Expr::IsNull {
                expr: Box::new(expr.copy()),
                negated: *negated,
            },
            Expr::Nested(inner) => Expr::Nested(Box::new(inner.copy())),
        }
    }
}

impl Clone for Expr {
    fn clone(&self) -> (r: Expr)
        ensures
            r@ == self@,
    {
        self.copy()
    }
}

impl SelectItem {
    pub open spec fn view(&self) -> ItemView {
        match self {
            SelectItem::Wildcard => None,
            SelectItem::Expr { expr, alias } => Some((expr@, optional_text(*alias))),
        }
    }
}

/// The models of projections.
pub open spec fn item_views(v: Seq<SelectItem>) -> Seq<ItemView> {
    Seq::new(v.len(), |i: int| v[i]@)
}

/// The models of sort keys.
pub open spec fn order_views(v: Seq<OrderByExpr>) -> Seq<(AstView, bool)> {
    Seq::new(v.len(), |i: int| (v[i].expr@, v[i].asc))
}

/// The model of an optional expression.
pub open spec fn optional_expr(e: Option<Expr>) -> Option<AstView> {
    match e {
        Some(x) => Some(x@),
        None => None,
    }
}

impl SelectStatement {
    pub open spec fn view(&self) -> SelectView {
        SelectView {
            projections: item_views(self.projections@),
            table: self.from.name@,
            table_alias: optional_text(self.from.alias),
            selection: optional_expr(self.selection),
            order_by: order_views(self.order_by@),
            limit: self.limit,
        }
    }
}

impl Statement {
    pub open spec fn view(&self) -> SelectView {
        match self {
            Statement::Select(s) => s@,
        }
    }
}

} // verus!
