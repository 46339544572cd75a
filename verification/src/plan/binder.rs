//! Binding: names become column positions, casts become explicit, and the
//! types of a query are checked.

use vstd::prelude::*;

use crate::error::{BasaltError, ErrorKind};
use crate::expr::expr::{binary, expr_nullable, expr_type, Expr, ExprView};
use crate::sql::ast;
use crate::sql::ast::{item_views, order_views, AstView, ItemView, SelectView};
use crate::text::{decimal, decimal_text};
use crate::types::coercion::{coerce_binary, coercion, UnaryOp};
use crate::types::data_type::DataType;
use crate::types::schema::{field_views, first_named, names_distinct, Field, FieldView, Schema};
use crate::types::value::{Value, ValueView};

verus! {

/// A bound expression with the name of its output column.
#[derive(Debug, PartialEq)]
pub struct BoundProjection {
    pub expr: Expr,
    pub output_name: String,
}

/// A bound sort key.
#[derive(Debug, PartialEq)]
pub struct BoundOrderBy {
    pub expr: Expr,
    pub asc: bool,
}

/// A query whose names and types are resolved.
#[derive(Debug, PartialEq)]
pub struct BoundQuery {
    /// The name of the table read.
    pub source: String,
    pub projections: Vec<BoundProjection>,
    /// The `WHERE` clause.
    pub filter: Option<Expr>,
    pub order_by: Vec<BoundOrderBy>,
    pub limit: Option<usize>,
    /// The schema of the result.
    pub output_schema: Schema,
}

/// The model of a bound query.
#[verifier::ext_equal]
pub struct BoundView {
    pub source: Seq<char>,
    pub projections: Seq<(ExprView, Seq<char>)>,
    pub filter: Option<ExprView>,
    pub order_by: Seq<(ExprView, bool)>,
    pub limit: Option<usize>,
    pub output: Seq<FieldView>,
}

/// The models of projections.
pub open spec fn projection_views(v: Seq<BoundProjection>) -> Seq<(ExprView, Seq<char>)> {
    Seq::new(v.len(), |i: int| (v[i].expr@, v[i].output_name@))
}

/// The models of sort keys.
pub open spec fn sort_views(v: Seq<BoundOrderBy>) -> Seq<(ExprView, bool)> {
    Seq::new(v.len(), |i: int| (v[i].expr@, v[i].asc))
}

impl BoundQuery {
    pub open spec fn view(&self) -> BoundView {
        BoundView {
            source: self.source@,
            projections: projection_views(self.projections@),
            filter: match self.filter {
                Some(f) => Some(f@),
                None => None,
            },
            order_by: sort_views(self.order_by@),
            limit: self.limit,
            output: self.output_schema@,
        }
    }
}

// ---------------------------------------------------------------------------
// What a query means over a schema

/// The column of a schema at a position.
pub open spec fn schema_column(schema: Seq<FieldView>, i: int) -> ExprView {
    ExprView::Column {
        index: i as usize,
        data_type: schema[i].data_type,
        nullable: schema[i].nullable,
    }
}

/// An expression, cast where a type is given.
pub open spec fn cast_if(e: ExprView, to: Option<DataType>) -> ExprView {
    match to {
        Some(t) => ExprView::Cast { expr: Box::new(e), to: t },
        None => e,
    }
}

/// `left op right` with the casts that the operand types need; a type error
/// where an operand has no type, or the types do not fit the operator.
pub open spec fn joined_by(
    left: ExprView,
    op: crate::types::coercion::BinaryOp,
    right: ExprView,
) -> Result<ExprView, ErrorKind> {
    match (expr_type(left), expr_type(right)) {
        (Some(l), Some(r)) => match coercion(op, l, r) {
            Some(plan) => Ok(
                binary(cast_if(left, plan.lhs_cast), op, cast_if(right, plan.rhs_cast)),
            ),
            None => Err(ErrorKind::Type),
        },
        _ => Err(ErrorKind::Type),
    }
}

/// The bound form of an expression; the leftmost fault decides the error.
pub open spec fn bound(schema: Seq<FieldView>, e: AstView) -> Result<ExprView, ErrorKind>
    decreases e,
{
    match e {
        AstView::Identifier(name) => match first_named(schema, name) {
            Some(i) => Ok(schema_column(schema, i)),
            None => Err(ErrorKind::UnknownColumn(name)),
        },
        AstView::Literal(v) => Ok(ExprView::Literal(v)),
        AstView::Binary { left, op, right } => match bound(schema, *left) {
            Err(k) => Err(k),
            Ok(l) => match bound(schema, *right) {
                Err(k) => Err(k),
                Ok(r) => joined_by(l, op, r),
            },
        },
        AstView::Unary { op, expr } => match bound(schema, *expr) {
            Err(k) => Err(k),
            Ok(x) => {
                let whole = ExprView::Unary { op, expr: Box::new(x) };
                if expr_type(whole) is Some {
                    Ok(whole)
                } else {
                    Err(ErrorKind::Type)
                }
            },
        },
        AstView::Cast { expr, to } => match bound(schema, *expr) {
            Err(k) => Err(k),
            Ok(x) => Ok(ExprView::Cast { expr: Box::new(x), to }),
        },
        AstView::IsNull { expr, negated } => match bound(schema, *expr) {
            Err(k) => Err(k),
            Ok(x) => Ok(
                if negated {
                    ExprView::IsNotNull(Box::new(x))
                } else {
                    ExprView::IsNull(Box::new(x))
                },
            ),
        },
        AstView::Nested(inner) => bound(schema, *inner),
    }
}

/// Every column of a schema under its own name.
pub open spec fn all_columns(schema: Seq<FieldView>) -> Seq<(ExprView, Seq<char>)> {
    Seq::new(schema.len(), |i: int| (schema_column(schema, i), schema[i].name))
}

/// The name of the `i`th projection: its alias, else the column's own name,
/// else `expr_` and its position.
pub open spec fn output_name(e: AstView, alias: Option<Seq<char>>, i: int) -> Seq<char> {
    match (alias, e) {
        (Some(a), _) => a,
        (None, AstView::Identifier(name)) => name,
        _ => "expr_"@ + decimal_text(i as nat),
    }
}

/// The bound forms of projections, `*` spelled out.
pub open spec fn bound_items(schema: Seq<FieldView>, items: Seq<ItemView>) -> Result<
    Seq<(ExprView, Seq<char>)>,
    ErrorKind,
>
    decreases items.len(),
{
    if items.len() == 0 {
        Ok(seq![])
    } else {
        match bound_items(schema, items.drop_last()) {
            Err(k) => Err(k),
            Ok(before) => match items.last() {
                None => Ok(before + all_columns(schema)),
                Some((e, alias)) => match bound(schema, e) {
                    Err(k) => Err(k),
                    Ok(x) => Ok(before.push((x, output_name(e, alias, items.len() - 1)))),
                },
            },
        }
    }
}

/// The bound form of a `WHERE` clause, which has to be boolean.
pub open spec fn bound_filter(schema: Seq<FieldView>, selection: Option<AstView>) -> Result<
    Option<ExprView>,
    ErrorKind,
> {
    match selection {
        None => Ok(None),
        Some(e) => match bound(schema, e) {
            Err(k) => Err(k),
            Ok(x) => if expr_type(x) == Some(DataType::Boolean) {
                Ok(Some(x))
            } else {
                Err(ErrorKind::Type)
            },
        },
    }
}

/// The bound forms of sort keys.
pub open spec fn bound_keys(schema: Seq<FieldView>, keys: Seq<(AstView, bool)>) -> Result<
    Seq<(ExprView, bool)>,
    ErrorKind,
>
    decreases keys.len(),
{
    if keys.len() == 0 {
        Ok(seq![])
    } else {
        match bound_keys(schema, keys.drop_last()) {
            Err(k) => Err(k),
            Ok(before) => match bound(schema, keys.last().0) {
                Err(k) => Err(k),
                Ok(x) => Ok(before.push((x, keys.last().1))),
            },
        }
    }
}

/// The columns that projections give, where each has a type.
pub open spec fn output_fields(projections: Seq<(ExprView, Seq<char>)>) -> Seq<FieldView> {
    Seq::new(
        projections.len(),
        |i: int|
            (FieldView {
                name: projections[i].1,
                data_type: expr_type(projections[i].0)->Some_0,
                nullable: expr_nullable(projections[i].0),
            }),
    )
}

/// Whether every projection has a type.
pub open spec fn all_typed(projections: Seq<(ExprView, Seq<char>)>) -> bool {
    forall|i: int| 0 <= i < projections.len() ==> expr_type((#[trigger] projections[i]).0) is Some
}

/// The bound form of a query. Projections are bound first, then the filter,
/// then the sort keys; the output schema comes last.
pub open spec fn bound_select(schema: Seq<FieldView>, s: SelectView) -> Result<
    BoundView,
    ErrorKind,
> {
    match bound_items(schema, s.projections) {
        Err(k) => Err(k),
        Ok(projections) => match bound_filter(schema, s.selection) {
            Err(k) => Err(k),
            Ok(filter) => match bound_keys(schema, s.order_by) {
                Err(k) => Err(k),
                Ok(order_by) => if !all_typed(projections) {
                    Err(ErrorKind::Type)
                } else if !names_distinct(output_fields(projections)) {
                    Err(ErrorKind::Internal)
                } else {
                    Ok(
                        BoundView {
                            source: s.table,
                            projections,
                            filter,
                            order_by,
                            limit: match s.limit {
                                Some(n) => Some(n as usize),
                                None => None,
                            },
                            output: output_fields(projections),
                        },
                    )
                },
            },
        },
    }
}

// ---------------------------------------------------------------------------
// Laws

/// Whether the columns of an expression are those of a schema, and both
/// operands of every operator have one type.
pub open spec fn resolved(schema: Seq<FieldView>, e: ExprView) -> bool
    decreases e,
{
    match e {
        ExprView::Column { index, data_type, nullable } => index < schema.len()
            && schema[index as int].data_type == data_type && schema[index as int].nullable
            == nullable,
        ExprView::Literal(v) => true,
        ExprView::Binary { left, op, right } => resolved(schema, *left) && resolved(schema, *right)
            && expr_type(*left) is Some && expr_type(*left) == expr_type(*right),
        ExprView::Unary { op, expr } => resolved(schema, *expr) && expr_type(*expr) is Some,
        ExprView::Cast { expr, to } => resolved(schema, *expr),
        ExprView::IsNull(inner) => resolved(schema, *inner),
        ExprView::IsNotNull(inner) => resolved(schema, *inner),
    }
}

pub proof fn lemma_first_named(fields: Seq<FieldView>, name: Seq<char>)
    ensures
        match first_named(fields, name) {
            Some(i) => 0 <= i < fields.len() && fields[i].name == name && forall|j: int|
                0 <= j < i ==> (#[trigger] fields[j]).name != name,
            None => forall|j: int| 0 <= j < fields.len() ==> (#[trigger] fields[j]).name != name,
        },
    decreases fields.len(),
{
    if fields.len() > 0 && fields[0].name != name {
        let rest = fields.skip(1);
        lemma_first_named(rest, name);
        assert forall|j: int| 1 <= j < fields.len() implies #[trigger] fields[j] == rest[j - 1] by {
        }
    }
}

/// A bound expression refers to columns of the schema by position, type and
/// nullability; its operators never mix operand types; and it has a type,
/// unless it is a bare `NULL`.
pub proof fn bound_expressions_are_resolved(schema: Seq<FieldView>, e: AstView)
    requires
        schema.len() <= usize::MAX,
    ensures
        bound(schema, e) matches Ok(x) ==> resolved(schema, x) && (x
            == ExprView::Literal(ValueView::Null) || expr_type(x) is Some),
    decreases e,
{
    reveal_with_fuel(expr_type, 2);
    reveal_with_fuel(resolved, 3);
    match e {
        AstView::Identifier(name) => {
            lemma_first_named(schema, name);
        },
        AstView::Literal(v) => {},
        AstView::Binary { left, op, right } => {
            bound_expressions_are_resolved(schema, *left);
            bound_expressions_are_resolved(schema, *right);
        },
        AstView::Unary { op, expr } => {
            bound_expressions_are_resolved(schema, *expr);
        },
        AstView::Cast { expr, to } => {
            bound_expressions_are_resolved(schema, *expr);
        },
        AstView::IsNull { expr, negated } => {
            bound_expressions_are_resolved(schema, *expr);
        },
        AstView::Nested(inner) => {
            bound_expressions_are_resolved(schema, *inner);
        },
    }
}

/// A bound query gives one output column for each projection, with its name,
/// type and nullability; no two have one name; and its filter is boolean.
pub proof fn bound_queries_fit_their_schema(schema: Seq<FieldView>, s: SelectView)
    ensures
        bound_select(schema, s) matches Ok(q) ==> {
            &&& q.output.len() == q.projections.len()
            &&& forall|i: int|
                0 <= i < q.output.len() ==> {
                    let (e, name) = q.projections[i];
                    &&& (#[trigger] q.output[i]).name == name
                    &&& expr_type(e) == Some(q.output[i].data_type)
                    &&& q.output[i].nullable == expr_nullable(e)
                }
            &&& names_distinct(q.output)
            &&& q.filter matches Some(f) ==> expr_type(f) == Some(DataType::Boolean)
        },
{
}

/// `SELECT *` gives back the schema it reads, where its names are distinct.
pub proof fn a_wildcard_keeps_the_schema(schema: Seq<FieldView>, s: SelectView)
    requires
        s.projections == seq![None::<(AstView, Option<Seq<char>>)>],
        names_distinct(schema),
    ensures
        bound_select(schema, s) matches Ok(q) ==> q.output == schema,
{
    let items = s.projections;
    assert(items.drop_last() =~= seq![]);
    assert(bound_items(schema, items.drop_last()) == Ok::<
        Seq<(ExprView, Seq<char>)>,
        ErrorKind,
    >(seq![]));
    let all = all_columns(schema);
    assert(Seq::<(ExprView, Seq<char>)>::empty() + all =~= all);
    assert(bound_items(schema, items) == Ok::<Seq<(ExprView, Seq<char>)>, ErrorKind>(all));
    assert forall|i: int| 0 <= i < schema.len() implies #[trigger] output_fields(all)[i]
        == schema[i] by {
        assert(all[i] == (schema_column(schema, i), schema[i].name));
    }
    assert(output_fields(all) =~= schema);
}

// ---------------------------------------------------------------------------
// The binder

/// Binds queries over one schema.
pub struct Binder<'a> {
    schema: &'a Schema,
}

impl<'a> Binder<'a> {
    pub closed spec fn schema(&self) -> Seq<FieldView> {
        self.schema@
    }

    pub fn new(schema: &'a Schema) -> (r: Binder<'a>)
        ensures
            r.schema() == schema@,
    {
        Binder { schema }
    }

    /// Binds a statement.
    ///
    /// # Errors
    /// The name of an unknown column; a type error where operands do not fit;
    /// an internal error where two output columns have one name.
    pub fn bind_statement(&self, stmt: &ast::Statement) -> (r: Result<BoundQuery, BasaltError>)
        ensures
            match r {
                Ok(q) => bound_select(self.schema(), stmt@) == Ok::<BoundView, ErrorKind>(q@),
                Err(e) => bound_select(self.schema(), stmt@) == Err::<BoundView, ErrorKind>(e@),
            },
    {
        match stmt {
            ast::Statement::Select(select) => self.bind_select(select),
        }
    }

    fn bind_select(&self, select: &ast::SelectStatement) -> (r: Result<BoundQuery, BasaltError>)
        ensures
            match r {
                Ok(q) => bound_select(self.schema(), select@) == Ok::<BoundView, ErrorKind>(q@),
                Err(e) => bound_select(self.schema(), select@) == Err::<BoundView, ErrorKind>(e@),
            },
    {
        let projections = match self.bind_items(&select.projections) {
            Ok(p) => p,
            Err(e) => {
                return Err(e);
            },
        };
        let filter = match &select.selection {
            None => None,
            Some(selection) => match self.bind_expr(selection) {
                Err(e) => {
                    return Err(e);
                },
                Ok(x) => match x.data_type() {
                    Err(e) => {
                        return Err(e);
                    },
                    Ok(t) => {
                        if t != DataType::Boolean {
                            return Err(
                                BasaltError::type_of(
                                    "WHERE clause must evaluate to Boolean, found ",
                                    t.name(),
                                ),
                            );
                        }
                        Some(x)
                    },
                },
            },
        };
        let order_by = match self.bind_keys(&select.order_by) {
            Ok(v) => v,
            Err(e) => {
                return Err(e);
            },
        };
        let limit = match select.limit {
            Some(n) => Some(
                #[verifier::truncate]
                (n as usize),
            ),
            None => None,
        };
        let fields = match projected_fields(&projections) {
            Ok(f) => f,
            Err(e) => {
                return Err(e);
            },
        };
        let output_schema = match Schema::new(fields) {
            Ok(s) => s,
            Err(e) => {
                return Err(e);
            },
        };
        Ok(
            BoundQuery {
                source: select.from.name.clone(),
                projections,
                filter,
                order_by,
                limit,
                output_schema,
            },
        )
    }

    fn bind_items(&self, items: &Vec<ast::SelectItem>) -> (r: Result<
        Vec<BoundProjection>,
        BasaltError,
    >)
        ensures
            match r {
                Ok(v) => bound_items(self.schema(), item_views(items@)) == Ok::<
                    Seq<(ExprView, Seq<char>)>,
                    ErrorKind,
                >(projection_views(v@)),
                Err(e) => bound_items(self.schema(), item_views(items@)) == Err::<
                    Seq<(ExprView, Seq<char>)>,
                    ErrorKind,
                >(e@),
            },
    {
        let ghost schema = self.schema();
        let ghost views = item_views(items@);
        let mut out: Vec<BoundProjection> = Vec::new();
        let mut i: usize = 0;
        assert(views.take(0) =~= seq![]);
        assert(projection_views(out@) =~= seq![]);
        while i < items.len()
            invariant
                i <= items@.len(),
                schema == self.schema(),
                views == item_views(items@),
                bound_items(schema, views.take(i as int)) == Ok::<
                    Seq<(ExprView, Seq<char>)>,
                    ErrorKind,
                >(projection_views(out@)),
            decreases items@.len() - i,
        {
            let ghost was = projection_views(out@);
            proof {
                assert(views.take(i + 1).drop_last() =~= views.take(i as int));
                assert(views.take(i + 1).last() == items@[i as int]@);
            }
            match &items[i] {
                ast::SelectItem::Wildcard => {
                    self.push_all_columns(&mut out);
                    assert(projection_views(out@) =~= was + all_columns(schema));
                },
                ast::SelectItem::Expr { expr, alias } => {
                    let bound_expr = match self.bind_expr(expr) {
                        Ok(x) => x,
                        Err(e) => {
                            proof {
                                lemma_items_error(schema, views, i + 1);
                            }
                            return Err(e);
                        },
                    };
                    let name = name_of(expr, alias, i);
                    let ghost one = (bound_expr@, name@);
                    out.push(BoundProjection { expr: bound_expr, output_name: name });
                    assert(projection_views(out@) =~= was.push(one));
                },
            }
            i = i + 1;
        }
        assert(views.take(i as int) =~= views);
        Ok(out)
    }

    fn push_all_columns(&self, out: &mut Vec<BoundProjection>)
        ensures
            projection_views(final(out)@) == projection_views(old(out)@) + all_columns(
                self.schema(),
            ),
    {
        let ghost before = projection_views(out@);
        let ghost all = all_columns(self.schema());
        let fields = self.schema.fields();
        let mut index: usize = 0;
        assert(projection_views(out@) =~= before + all.take(0));
        while index < fields.len()
            invariant
                index <= fields@.len(),
                field_views(fields@) == self.schema(),
                all == all_columns(self.schema()),
                projection_views(out@) == before + all.take(index as int),
            decreases fields@.len() - index,
        {
            let ghost was = projection_views(out@);
            let field = &fields[index];
            assert(self.schema()[index as int] == field@);
            let expr = Expr::Column {
                index,
                data_type: field.data_type,
                nullable: field.nullable,
            };
            let ghost one = (expr@, field.name@);
            out.push(BoundProjection { expr, output_name: field.name.clone() });
            proof {
                assert(one == all[index as int]);
                assert(projection_views(out@) =~= was.push(one));
                assert(before + all.take(index + 1) =~= (before + all.take(index as int)).push(
                    all[index as int],
                ));
            }
            index = index + 1;
        }
        assert(all.take(index as int) =~= all);
    }

    fn bind_keys(&self, keys: &Vec<ast::OrderByExpr>) -> (r: Result<
        Vec<BoundOrderBy>,
        BasaltError,
    >)
        ensures
            match r {
                Ok(v) => bound_keys(self.schema(), order_views(keys@)) == Ok::<
                    Seq<(ExprView, bool)>,
                    ErrorKind,
                >(sort_views(v@)),
                Err(e) => bound_keys(self.schema(), order_views(keys@)) == Err::<
                    Seq<(ExprView, bool)>,
                    ErrorKind,
                >(e@),
            },
    {
        let ghost schema = self.schema();
        let ghost views = order_views(keys@);
        let mut out: Vec<BoundOrderBy> = Vec::new();
        let mut i: usize = 0;
        assert(views.take(0) =~= seq![]);
        assert(sort_views(out@) =~= seq![]);
        while i < keys.len()
            invariant
                i <= keys@.len(),
                schema == self.schema(),
                views == order_views(keys@),
                bound_keys(schema, views.take(i as int)) == Ok::<
                    Seq<(ExprView, bool)>,
                    ErrorKind,
                >(sort_views(out@)),
            decreases keys@.len() - i,
        {
            let ghost was = sort_views(out@);
            proof {
                assert(views.take(i + 1).drop_last() =~= views.take(i as int));
                assert(views.take(i + 1).last() == (keys@[i as int].expr@, keys@[i as int].asc));
            }
            let expr = match self.bind_expr(&keys[i].expr) {
                Ok(x) => x,
                Err(e) => {
                    proof {
                        lemma_keys_error(schema, views, i + 1);
                    }
                    return Err(e);
                },
            };
            let ghost one = (expr@, keys@[i as int].asc);
            out.push(BoundOrderBy { expr, asc: keys[i].asc });
            assert(sort_views(out@) =~= was.push(one));
            i = i + 1;
        }
        assert(views.take(i as int) =~= views);
        Ok(out)
    }

    /// Binds an expression.
    ///
    /// # Errors
    /// The name of an unknown column, or a type error where operands do not
    /// fit their operator.
    pub fn bind_expr(&self, expr: &ast::Expr) -> (r: Result<Expr, BasaltError>)
        ensures
            match r {
                Ok(x) => bound(self.schema(), expr@) == Ok::<ExprView, ErrorKind>(x@),
                Err(e) => bound(self.schema(), expr@) == Err::<ExprView, ErrorKind>(e@),
            },
        decreases expr,
    {
        match expr {
            ast::Expr::Identifier(name) => match self.schema.index_of(name.as_str()) {
                None => Err(BasaltError::UnknownColumn { name: name.clone() }),
                Some(index) => {
                    let field = &self.schema.fields()[index];
                    Ok(
                        Expr::Column {
                            index,
                            data_type: field.data_type,
                            nullable: field.nullable,
                        },
                    )
                },
            },
            ast::Expr::Literal(l) => Ok(Expr::Literal(literal_value(l))),
            ast::Expr::Binary { left, op, right } => {
                let l = match self.bind_expr(left) {
                    Ok(x) => x,
                    Err(e) => {
                        return Err(e);
                    },
                };
                let r = match self.bind_expr(right) {
                    Ok(x) => x,
                    Err(e) => {
                        return Err(e);
                    },
                };
                let lhs_type = match l.data_type() {
                    Ok(t) => t,
                    Err(e) => {
                        return Err(e);
                    },
                };
                let rhs_type = match r.data_type() {
                    Ok(t) => t,
                    Err(e) => {
                        return Err(e);
                    },
                };
                let plan = match coerce_binary(*op, lhs_type, rhs_type) {
                    Ok(p) => p,
                    Err(e) => {
                        return Err(e);
                    },
                };
                Ok(
                    Expr::Binary {
                        left: Box::new(with_cast(l, plan.lhs_cast)),
                        op: *op,
                        right: Box::new(with_cast(r, plan.rhs_cast)),
                    },
                )
            },
            ast::Expr::Unary { op, expr: inner } => {
                let x = match self.bind_expr(inner) {
                    Ok(x) => x,
                    Err(e) => {
                        return Err(e);
                    },
                };
                let t = match x.data_type() {
                    Ok(t) => t,
                    Err(e) => {
                        return Err(e);
                    },
                };
                match op {
                    UnaryOp::Neg => {
                        if !t.is_numeric() {
                            return Err(
                                BasaltError::type_of("cannot negate non-numeric type ", t.name()),
                            );
                        }
                    },
                    UnaryOp::Not => {
                        if t != DataType::Boolean {
                            return Err(
                                BasaltError::type_of(
                                    "cannot logically invert non-boolean type ",
                                    t.name(),
                                ),
                            );
                        }
                    },
                }
                Ok(Expr::Unary { op: *op, expr: Box::new(x) })
            },
            ast::Expr::Cast { expr: inner, to } => match self.bind_expr(inner) {
                Ok(x) => Ok(Expr::Cast { expr: Box::new(x), to: *to }),
                Err(e) => Err(e),
            },
            ast::Expr::IsNull { expr: inner, negated } => match self.bind_expr(inner) {
                Ok(x) => if *negated {
                    Ok(Expr::IsNotNull(Box::new(x)))
                } else {
                    Ok(Expr::IsNull(Box::new(x)))
                },
                Err(e) => Err(e),
            },
            ast::Expr::Nested(inner) => self.bind_expr(inner),
        }
    }
}

/// A fault among the first projections is the fault of all of them.
proof fn lemma_items_error(schema: Seq<FieldView>, items: Seq<ItemView>, n: int)
    requires
        0 <= n <= items.len(),
        bound_items(schema, items.take(n)) is Err,
    ensures
        bound_items(schema, items) == bound_items(schema, items.take(n)),
    decreases items.len() - n,
{
    if n == items.len() {
        assert(items.take(n) =~= items);
    } else {
        assert(items.take(n + 1).drop_last() =~= items.take(n));
        lemma_items_error(schema, items, n + 1);
    }
}

/// A fault among the first sort keys is the fault of all of them.
proof fn lemma_keys_error(schema: Seq<FieldView>, keys: Seq<(AstView, bool)>, n: int)
    requires
        0 <= n <= keys.len(),
        bound_keys(schema, keys.take(n)) is Err,
    ensures
        bound_keys(schema, keys) == bound_keys(schema, keys.take(n)),
    decreases keys.len() - n,
{
    if n == keys.len() {
        assert(keys.take(n) =~= keys);
    } else {
        assert(keys.take(n + 1).drop_last() =~= keys.take(n));
        lemma_keys_error(schema, keys, n + 1);
    }
}

fn literal_value(l: &ast::Literal) -> (r: Value)
    ensures
        r@ == l@,
{
    match l {
        ast::Literal::Integer(n) => Value::Int64(*n),
        ast::Literal::Float(x) => Value::Float64(*x),
        ast::Literal::String(s) => Value::Utf8(s.clone()),
        ast::Literal::Boolean(b) => Value::Boolean(*b),
        ast::Literal::Null => Value::Null,
    }
}

fn with_cast(e: Expr, to: Option<DataType>) -> (r: Expr)
    ensures
        r@ == cast_if(e@, to),
{
    match to {
        Some(t) => Expr::Cast { expr: Box::new(e), to: t },
        None => e,
    }
}

/// The output name of the `i`th projection.
fn name_of(expr: &ast::Expr, alias: &Option<String>, i: usize) -> (r: String)
    ensures
        r@ == output_name(expr@, ast::optional_text(*alias), i as int),
{
    match alias {
        Some(a) => a.clone(),
        None => match expr {
            ast::Expr::Identifier(name) => name.clone(),
            _ => {
                let mut name = "expr_".to_owned();
                let number = decimal(i as u64);
                name.append(number.as_str());
                name
            },
        },
    }
}

/// The output columns of projections.
///
/// # Errors
/// A type error where a projection has no type.
fn projected_fields(projections: &Vec<BoundProjection>) -> (r: Result<Vec<Field>, BasaltError>)
    ensures
        match r {
            Ok(f) => all_typed(projection_views(projections@)) && field_views(f@) == output_fields(
                projection_views(projections@),
            ),
            Err(e) => e@ == ErrorKind::Type && !all_typed(projection_views(projections@)),
        },
{
    let ghost views = projection_views(projections@);
    let mut fields: Vec<Field> = Vec::new();
    let mut i: usize = 0;
    while i < projections.len()
        invariant
            i <= projections@.len(),
            fields@.len() == i,
            views == projection_views(projections@),
            forall|k: int|
                0 <= k < i ==> expr_type((#[trigger] views[k]).0) is Some && fields@[k]@
                    == output_fields(views)[k],
        decreases projections@.len() - i,
    {
        let p = &projections[i];
        assert(views[i as int] == (p.expr@, p.output_name@));
        match p.expr.data_type() {
            Err(e) => {
                assert(expr_type(views[i as int].0) is None);
                return Err(e);
            },
            Ok(t) => {
                let nullable = p.expr.nullable();
                fields.push(Field::new(p.output_name.as_str(), t, nullable));
                assert(fields@[i as int]@ == output_fields(views)[i as int]);
            },
        }
        i = i + 1;
    }
    assert forall|k: int| 0 <= k < views.len() implies #[trigger] field_views(fields@)[k]
        == output_fields(views)[k] by {
        assert(expr_type(views[k].0) is Some);
    }
    assert(field_views(fields@) =~= output_fields(views));
    Ok(fields)
}

} // verus!
