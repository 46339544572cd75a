//! What queries mean: the value of a syntax tree on a row, and the parts of a
//! query that binding keeps.

use vstd::prelude::*;

use crate::error::ErrorKind;
use crate::expr::expr::{
    eval, evaluation_respects_types, expr_type, row_conforms, ExprView,
};
use crate::float64::Float64;
use crate::plan::binder::{bound, bound_items, bound_keys, bound_select, lemma_first_named};
use crate::sql::ast::{AstView, ItemView, SelectView};
use crate::text::decimal_text;
use crate::types::coercion::BinaryOp;
use crate::types::schema::{first_named, FieldView};
use crate::types::value::{binary_value, cast_value, unary_value, ValueView};

verus! {

/// Whether a column is the first of its name.
pub open spec fn column_named(schema: Seq<FieldView>, name: Seq<char>, i: int) -> bool {
    &&& 0 <= i < schema.len()
    &&& schema[i].name == name
    &&& forall|j: int| 0 <= j < i ==> (#[trigger] schema[j]).name != name
}

/// An operator between two values, an integer taken as a double where the other
/// is one.
pub open spec fn operate(op: BinaryOp, a: ValueView, b: ValueView) -> Result<
    ValueView,
    ErrorKind,
> {
    match (a, b) {
        (ValueView::Int64(n), ValueView::Float64(y)) => binary_value(
            op,
            ValueView::Float64(Float64::spec_from_int(n as int)),
            b,
        ),
        (ValueView::Float64(x), ValueView::Int64(n)) => binary_value(
            op,
            a,
            ValueView::Float64(Float64::spec_from_int(n as int)),
        ),
        _ => binary_value(op, a, b),
    }
}

/// The value of a syntax tree on a row: names are columns, operators take the
/// values of their operands from left to right, and parentheses only group.
pub open spec fn meaning(schema: Seq<FieldView>, e: AstView, row: Seq<ValueView>) -> Result<
    ValueView,
    ErrorKind,
>
    decreases e,
{
    match e {
        AstView::Identifier(name) => Ok(
            row[choose|i: int| #[trigger] column_named(schema, name, i)],
        ),
        AstView::Literal(v) => Ok(v),
        AstView::Binary { left, op, right } => match meaning(schema, *left, row) {
            Err(k) => Err(k),
            Ok(a) => match meaning(schema, *right, row) {
                Err(k) => Err(k),
                Ok(b) => operate(op, a, b),
            },
        },
        AstView::Unary { op, expr } => match meaning(schema, *expr, row) {
            Err(k) => Err(k),
            Ok(a) => unary_value(op, a),
        },
        AstView::Cast { expr, to } => match meaning(schema, *expr, row) {
            Err(k) => Err(k),
            Ok(a) => cast_value(a, to),
        },
        AstView::IsNull { expr, negated } => match meaning(schema, *expr, row) {
            Err(k) => Err(k),
            Ok(a) => Ok(ValueView::Boolean((a == ValueView::Null) != negated)),
        },
        AstView::Nested(inner) => meaning(schema, *inner, row),
    }
}

/// Whether a row is one of a table with a schema.
pub open spec fn row_of_schema(schema: Seq<FieldView>, row: Seq<ValueView>) -> bool {
    &&& row.len() == schema.len()
    &&& forall|i: int|
        0 <= i < schema.len() ==> {
            &&& (#[trigger] row[i]).fits(schema[i].data_type)
            &&& !schema[i].nullable ==> row[i] != ValueView::Null
        }
}

proof fn lemma_conforms(schema: Seq<FieldView>, e: AstView, row: Seq<ValueView>)
    requires
        schema.len() <= usize::MAX,
        row_of_schema(schema, row),
    ensures
        bound(schema, e) matches Ok(x) ==> row_conforms(x, row),
    decreases e,
{
    reveal_with_fuel(row_conforms, 3);
    match e {
        AstView::Identifier(name) => {
            lemma_first_named(schema, name);
            if let Some(i) = first_named(schema, name) {
                assert(row[i].fits(schema[i].data_type));
            }
        },
        AstView::Literal(v) => {},
        AstView::Binary { left, op, right } => {
            lemma_conforms(schema, *left, row);
            lemma_conforms(schema, *right, row);
        },
        AstView::Unary { op, expr } => {
            lemma_conforms(schema, *expr, row);
        },
        AstView::Cast { expr, to } => {
            lemma_conforms(schema, *expr, row);
        },
        AstView::IsNull { expr, negated } => {
            lemma_conforms(schema, *expr, row);
        },
        AstView::Nested(inner) => {
            lemma_conforms(schema, *inner, row);
        },
    }
}

/// A bound expression has, on every row of the schema, the value that its
/// syntax tree means there.
pub proof fn bound_expressions_mean_what_they_say(
    schema: Seq<FieldView>,
    e: AstView,
    row: Seq<ValueView>,
)
    requires
        schema.len() <= usize::MAX,
        row_of_schema(schema, row),
    ensures
        bound(schema, e) matches Ok(x) ==> eval(x, row) == meaning(schema, e, row),
    decreases e,
{
    reveal_with_fuel(eval, 3);
    match e {
        AstView::Identifier(name) => {
            lemma_first_named(schema, name);
            if let Some(i) = first_named(schema, name) {
                assert(column_named(schema, name, i));
                let j = choose|j: int| #[trigger] column_named(schema, name, j);
                assert(schema[i].name == name && schema[j].name == name);
                assert(i == j);
            }
        },
        AstView::Literal(v) => {},
        AstView::Binary { left, op, right } => {
            bound_expressions_mean_what_they_say(schema, *left, row);
            bound_expressions_mean_what_they_say(schema, *right, row);
            lemma_conforms(schema, *left, row);
            lemma_conforms(schema, *right, row);
            if let (Ok(l), Ok(r)) = (bound(schema, *left), bound(schema, *right)) {
                if expr_type(l) is Some && eval(l, row) is Ok {
                    evaluation_respects_types(l, row);
                }
                if expr_type(r) is Some && eval(r, row) is Ok {
                    evaluation_respects_types(r, row);
                }
            }
        },
        AstView::Unary { op, expr } => {
            bound_expressions_mean_what_they_say(schema, *expr, row);
        },
        AstView::Cast { expr, to } => {
            bound_expressions_mean_what_they_say(schema, *expr, row);
        },
        AstView::IsNull { expr, negated } => {
            bound_expressions_mean_what_they_say(schema, *expr, row);
        },
        AstView::Nested(inner) => {
            bound_expressions_mean_what_they_say(schema, *inner, row);
        },
    }
}

/// The bound form of `e IS NULL` is true exactly on the rows where that of `e`
/// is null, and that of `e IS NOT NULL` exactly where it is not.
pub proof fn null_tests_tell_nulls(
    schema: Seq<FieldView>,
    e: AstView,
    negated: bool,
    row: Seq<ValueView>,
)
    requires
        bound(schema, e) is Ok,
        eval(bound(schema, e)->Ok_0, row) is Ok,
    ensures
        ({
            let test = bound(schema, AstView::IsNull { expr: Box::new(e), negated });
            let v = eval(bound(schema, e)->Ok_0, row)->Ok_0;
            &&& test is Ok
            &&& eval(test->Ok_0, row) == Ok::<ValueView, ErrorKind>(
                ValueView::Boolean(
                    if negated {
                        v != ValueView::Null
                    } else {
                        v == ValueView::Null
                    },
                ),
            )
        }),
{
    reveal_with_fuel(eval, 2);
    reveal_with_fuel(bound, 2);
}

/// Whether a name occurs in an expression.
pub open spec fn names_in(e: AstView, name: Seq<char>) -> bool
    decreases e,
{
    match e {
        AstView::Identifier(n) => n == name,
        AstView::Literal(v) => false,
        AstView::Binary { left, op, right } => names_in(*left, name) || names_in(*right, name),
        AstView::Unary { op, expr } => names_in(*expr, name),
        AstView::Cast { expr, to } => names_in(*expr, name),
        AstView::IsNull { expr, negated } => names_in(*expr, name),
        AstView::Nested(inner) => names_in(*inner, name),
    }
}

/// An expression is bound only where every name in it is that of a column; a
/// column that is reported as unknown is named in it and is none of the
/// schema's; and nothing else goes wrong but types.
pub proof fn names_have_to_be_columns(schema: Seq<FieldView>, e: AstView, name: Seq<char>)
    ensures
        match bound(schema, e) {
            Ok(x) => names_in(e, name) ==> exists|i: int| #[trigger] column_named(schema, name, i),
            Err(ErrorKind::UnknownColumn(n)) => names_in(e, n) && forall|i: int|
                0 <= i < schema.len() ==> (#[trigger] schema[i]).name != n,
            Err(k) => k == ErrorKind::Type,
        },
    decreases e,
{
    match e {
        AstView::Identifier(n) => {
            lemma_first_named(schema, n);
            if let Some(i) = first_named(schema, n) {
                assert(column_named(schema, n, i));
            }
        },
        AstView::Literal(v) => {},
        AstView::Binary { left, op, right } => {
            names_have_to_be_columns(schema, *left, name);
            names_have_to_be_columns(schema, *right, name);
        },
        AstView::Unary { op, expr } => {
            names_have_to_be_columns(schema, *expr, name);
        },
        AstView::Cast { expr, to } => {
            names_have_to_be_columns(schema, *expr, name);
        },
        AstView::IsNull { expr, negated } => {
            names_have_to_be_columns(schema, *expr, name);
        },
        AstView::Nested(inner) => {
            names_have_to_be_columns(schema, *inner, name);
        },
    }
}

/// A projection more gives the columns before it and then its own: all columns
/// of the schema in order for `*`, each under its name; else one column, named
/// by the alias, by the column that it is, or by its number.
pub proof fn projections_come_in_order(
    schema: Seq<FieldView>,
    items: Seq<ItemView>,
    item: ItemView,
)
    requires
        schema.len() <= usize::MAX,
        bound_items(schema, items.push(item)) is Ok,
    ensures
        ({
            let before = bound_items(schema, items);
            let after = bound_items(schema, items.push(item))->Ok_0;
            &&& before is Ok
            &&& after.len() >= before->Ok_0.len()
            &&& after.take(before->Ok_0.len() as int) == before->Ok_0
            &&& match item {
                None => {
                    &&& after.len() == before->Ok_0.len() + schema.len()
                    &&& forall|i: int|
                        0 <= i < schema.len() ==> {
                            let (e, name) = #[trigger] after[before->Ok_0.len() + i];
                            &&& name == schema[i].name
                            &&& e == (ExprView::Column {
                                index: i as usize,
                                data_type: schema[i].data_type,
                                nullable: schema[i].nullable,
                            })
                        }
                },
                Some((e, alias)) => {
                    &&& after.len() == before->Ok_0.len() + 1
                    &&& bound(schema, e) == Ok::<ExprView, ErrorKind>(after.last().0)
                    &&& after.last().1 == (if alias is Some {
                        alias->Some_0
                    } else if e is Identifier {
                        e->Identifier_0
                    } else {
                        "expr_"@ + decimal_text(items.len())
                    })
                },
            }
        }),
        bound_items(schema, Seq::empty()) == Ok::<Seq<(ExprView, Seq<char>)>, ErrorKind>(
            Seq::empty(),
        ),
{
    let all = items.push(item);
    assert(all.drop_last() =~= items);
    assert(all.last() == item);
    let before = bound_items(schema, items)->Ok_0;
    let after = bound_items(schema, all)->Ok_0;
    assert(after.take(before.len() as int) =~= before);
}

/// Sort keys keep their order and their direction.
pub proof fn sort_keys_keep_their_direction(schema: Seq<FieldView>, keys: Seq<(AstView, bool)>)
    ensures
        bound_keys(schema, keys) matches Ok(v) ==> {
            &&& v.len() == keys.len()
            &&& forall|i: int|
                0 <= i < keys.len() ==> {
                    &&& (#[trigger] v[i]).1 == keys[i].1
                    &&& bound(schema, keys[i].0) == Ok::<ExprView, ErrorKind>(v[i].0)
                }
        },
    decreases keys.len(),
{
    if keys.len() > 0 {
        sort_keys_keep_their_direction(schema, keys.drop_last());
        if let Ok(v) = bound_keys(schema, keys) {
            let before = bound_keys(schema, keys.drop_last())->Ok_0;
            assert forall|i: int| 0 <= i < keys.len() implies (#[trigger] v[i]).1 == keys[i].1
                && bound(schema, keys[i].0) == Ok::<ExprView, ErrorKind>(v[i].0) by {
                if i < before.len() {
                    assert(v[i] == before[i]);
                    assert(keys.drop_last()[i] == keys[i]);
                }
            }
        }
    }
}

/// A bound query reads the table of the statement, with its limit, its
/// condition, its sort keys and its projections.
pub proof fn bound_queries_keep_their_parts(schema: Seq<FieldView>, s: SelectView)
    ensures
        bound_select(schema, s) matches Ok(q) ==> {
            &&& q.source == s.table
            &&& q.limit is Some <==> s.limit is Some
            &&& s.limit matches Some(n) ==> n <= usize::MAX ==> q.limit->Some_0 == n
            &&& q.filter is Some <==> s.selection is Some
            &&& s.selection matches Some(e) ==> bound(schema, e) == Ok::<ExprView, ErrorKind>(
                q.filter->Some_0,
            )
            &&& bound_keys(schema, s.order_by) == Ok::<Seq<(ExprView, bool)>, ErrorKind>(
                q.order_by,
            )
            &&& bound_items(schema, s.projections) == Ok::<
                Seq<(ExprView, Seq<char>)>,
                ErrorKind,
            >(q.projections)
        },
{
}

} // verus!
