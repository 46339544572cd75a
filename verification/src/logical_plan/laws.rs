//! The schemas that plans are built with.

use vstd::prelude::*;

use crate::error::ErrorKind;
use crate::expr::expr::{expr_nullable, expr_type, ExprView};
use crate::logical_plan::builder::{
    aggregate_field, aggregate_fields, group_name, join_fields, named_fields,
};
use crate::logical_plan::plan::{AggregateKind, AggregateView, JoinType};
use crate::text::decimal_text;
use crate::types::data_type::DataType;
use crate::types::schema::{first_named, FieldView};

verus! {

/// A name finds the first field that bears it, and nothing where none does.
pub proof fn names_find_the_first_field(fields: Seq<FieldView>, name: Seq<char>)
    ensures
        match first_named(fields, name) {
            Some(i) => 0 <= i < fields.len() && fields[i].name == name && forall|j: int|
                0 <= j < i ==> (#[trigger] fields[j]).name != name,
            None => forall|j: int| 0 <= j < fields.len() ==> (#[trigger] fields[j]).name != name,
        },
    decreases fields.len(),
{
    if fields.len() > 0 && fields[0].name != name {
        let rest = fields.skip(1);
        names_find_the_first_field(rest, name);
        assert forall|j: int|
            0 < j < fields.len() && (first_named(rest, name) matches Some(i) ==> j < i + 1) implies (
        #[trigger] fields[j]).name != name by {
            assert(rest[j - 1] == fields[j]);
        }
    }
}

/// The fields of a projection bear the names given, in their order, with the
/// types of the expressions.
pub proof fn projected_fields_are_named(exprs: Seq<ExprView>, names: Seq<Seq<char>>, n: nat)
    requires
        n <= exprs.len(),
        n <= names.len(),
    ensures
        match named_fields(exprs, names, n) {
            Ok(fields) => fields.len() == n && forall|i: int|
                0 <= i < n ==> {
                    &&& (#[trigger] fields[i]).name == names[i]
                    &&& expr_type(exprs[i]) == Some(fields[i].data_type)
                    &&& fields[i].nullable == expr_nullable(exprs[i])
                },
            Err(k) => k == ErrorKind::Type && exists|i: int|
                0 <= i < n && expr_type(#[trigger] exprs[i]) is None,
        },
    decreases n,
{
    if n > 0 {
        projected_fields_are_named(exprs, names, (n - 1) as nat);
        match named_fields(exprs, names, n) {
            Ok(fields) => {},
            Err(k) => {
                if named_fields(exprs, names, (n - 1) as nat) is Ok {
                    assert(expr_type(exprs[n - 1]) is None);
                } else {
                    let i = choose|i: int| 0 <= i < n - 1 && expr_type(#[trigger] exprs[i]) is None;
                    assert(expr_type(exprs[i]) is None);
                }
            },
        }
    }
}

/// An aggregate bears its own name. A count is an integer and never null, with
/// or without an argument. An average is a double; a sum, a least and a greatest
/// value have the type of what they are taken of; all of these may be null.
/// Only numbers are added up, and only rows are counted without an argument.
pub proof fn aggregates_have_their_types(a: AggregateView, e: ExprView, t: DataType)
    requires
        expr_type(e) == Some(t),
    ensures
        aggregate_field(a) matches Ok(f) ==> f.name == a.output_name,
        a.kind == AggregateKind::Count && (a.arg is None || a.arg == Some(e)) ==> (aggregate_field(
            a,
        ) matches Ok(f) && f.data_type == DataType::Int64 && !f.nullable),
        a.arg is None && a.kind != AggregateKind::Count ==> aggregate_field(a) == Err::<
            FieldView,
            ErrorKind,
        >(ErrorKind::Type),
        a.arg == Some(e) && a.kind == AggregateKind::Avg ==> match aggregate_field(a) {
            Ok(f) => f.data_type == DataType::Float64 && f.nullable && (t == DataType::Int64 || t
                == DataType::Float64),
            Err(k) => k == ErrorKind::Type && t != DataType::Int64 && t != DataType::Float64,
        },
        a.arg == Some(e) && a.kind == AggregateKind::Sum ==> match aggregate_field(a) {
            Ok(f) => f.data_type == t && f.nullable && (t == DataType::Int64 || t
                == DataType::Float64),
            Err(k) => k == ErrorKind::Type && t != DataType::Int64 && t != DataType::Float64,
        },
        a.arg == Some(e) && (a.kind == AggregateKind::Min || a.kind == AggregateKind::Max) ==> (
        aggregate_field(a) matches Ok(f) && f.data_type == t && f.nullable),
{
}

/// The fields of aggregates come in their order.
pub proof fn aggregates_come_in_order(aggs: Seq<AggregateView>, n: nat)
    requires
        n <= aggs.len(),
        aggregate_fields(aggs, n) is Ok,
    ensures
        aggregate_fields(aggs, n)->Ok_0.len() == n,
        forall|i: int|
            0 <= i < n ==> aggregate_field(#[trigger] aggs[i]) == Ok::<FieldView, ErrorKind>(
                aggregate_fields(aggs, n)->Ok_0[i],
            ),
    decreases n,
{
    if n > 0 {
        aggregates_come_in_order(aggs, (n - 1) as nat);
        let before = aggregate_fields(aggs, (n - 1) as nat)->Ok_0;
        let now = aggregate_fields(aggs, n)->Ok_0;
        assert forall|i: int| 0 <= i < n implies aggregate_field(#[trigger] aggs[i]) == Ok::<
            FieldView,
            ErrorKind,
        >(now[i]) by {
            if i < n - 1 {
                assert(now[i] == before[i]);
            }
        }
    }
}

/// A grouping column keeps its name; what is grouped by otherwise is named by
/// its number.
pub proof fn grouping_columns_keep_their_names(
    index: usize,
    t: DataType,
    nullable: bool,
    i: nat,
    input: Seq<FieldView>,
    e: ExprView,
)
    requires
        index < input.len(),
    ensures
        !(e is Column) ==> group_name(e, i as int, input) == "group_"@ + decimal_text(i),
        group_name(ExprView::Column { index, data_type: t, nullable }, i as int, input)
            == input[index as int].name,
{
}

/// Whether a join of a type puts out columns of its left side.
pub open spec fn shows_left(t: JoinType) -> bool {
    !(t == JoinType::RightSemi) && !(t == JoinType::RightAnti)
}

/// Whether a join of a type puts out columns of its right side.
pub open spec fn shows_right(t: JoinType) -> bool {
    !(t == JoinType::LeftSemi) && !(t == JoinType::LeftAnti)
}

/// A join puts out the columns of its left side and behind them those of its
/// right; a semi or anti join those of the one side that it is named after.
/// Every column keeps its name and type. Where rows of the other side are kept
/// without a partner, a column may be null; else only where it might before.
pub proof fn joins_put_out_their_sides(
    left: Seq<FieldView>,
    right: Seq<FieldView>,
    t: JoinType,
    i: int,
)
    ensures
        ({
            let n = if shows_left(t) {
                left.len()
            } else {
                0
            };
            let m = if shows_right(t) {
                right.len()
            } else {
                0
            };
            let out = join_fields(left, right, t);
            &&& out.len() == n + m
            &&& 0 <= i < n ==> {
                &&& out[i].name == left[i].name
                &&& out[i].data_type == left[i].data_type
                &&& out[i].nullable <==> left[i].nullable || t == JoinType::Right || t
                    == JoinType::Full
            }
            &&& 0 <= i < m ==> {
                &&& out[n + i].name == right[i].name
                &&& out[n + i].data_type == right[i].data_type
                &&& out[n + i].nullable <==> right[i].nullable || t == JoinType::Left || t
                    == JoinType::Full
            }
        }),
{
}

} // verus!
