//! Builds logical plans step by step, deriving schemas on the way.

use std::sync::Arc;
use vstd::prelude::*;

use crate::error::{BasaltError, ErrorKind};
use crate::expr::expr::{expr_nullable, expr_type, expr_views, Expr, ExprView};
use crate::logical_plan::plan::{
    aggregate_views, option_view, pair_views, plan_schema, sort_expr_views, AggregateFunction,
    AggregateKind, AggregateView, JoinType, LogicalPlan, PlanView, SortExpr, TableSource,
};
use crate::types::data_type::DataType;
use crate::types::schema::{
    concat_schemas, field_views, nullable_fields, nullable_schema, Field, FieldView, Schema,
    SchemaRef,
};

verus! {

/// The field of an expression under a name.
pub open spec fn named_field(name: Seq<char>, e: ExprView) -> FieldView {
    FieldView { name, data_type: expr_type(e)->0, nullable: expr_nullable(e) }
}

/// The fields of the first `n` expressions under their names; a type error
/// where one has no type.
pub open spec fn named_fields(exprs: Seq<ExprView>, names: Seq<Seq<char>>, n: nat) -> Result<
    Seq<FieldView>,
    ErrorKind,
>
    decreases n,
{
    if n == 0 {
        Ok(seq![])
    } else {
        match named_fields(exprs, names, (n - 1) as nat) {
            Err(k) => Err(k),
            Ok(done) => if expr_type(exprs[n - 1]) is None {
                Err(ErrorKind::Type)
            } else {
                Ok(done.push(named_field(names[n - 1], exprs[n - 1])))
            },
        }
    }
}

/// The output of an aggregate over an argument of type `t`: counts are whole
/// and never null, averages are floating point, and the rest keep the
/// argument's type.
pub open spec fn aggregate_field(a: AggregateView) -> Result<FieldView, ErrorKind> {
    match a.arg {
        None => if a.kind == AggregateKind::Count {
            Ok(FieldView { name: a.output_name, data_type: DataType::Int64, nullable: false })
        } else {
            Err(ErrorKind::Type)
        },
        Some(e) => match expr_type(e) {
            None => Err(ErrorKind::Type),
            Some(t) => match a.kind {
                AggregateKind::Count => Ok(
                    FieldView { name: a.output_name, data_type: DataType::Int64, nullable: false },
                ),
                AggregateKind::Avg => if t.spec_is_numeric() {
                    Ok(
                        FieldView {
                            name: a.output_name,
                            data_type: DataType::Float64,
                            nullable: true,
                        },
                    )
                } else {
                    Err(ErrorKind::Type)
                },
                AggregateKind::Sum => if t.spec_is_numeric() {
                    Ok(FieldView { name: a.output_name, data_type: t, nullable: true })
                } else {
                    Err(ErrorKind::Type)
                },
                _ => Ok(FieldView { name: a.output_name, data_type: t, nullable: true }),
            },
        },
    }
}

/// The fields of the first `n` aggregates, or the first error.
pub open spec fn aggregate_fields(aggs: Seq<AggregateView>, n: nat) -> Result<
    Seq<FieldView>,
    ErrorKind,
>
    decreases n,
{
    if n == 0 {
        Ok(seq![])
    } else {
        match aggregate_fields(aggs, (n - 1) as nat) {
            Err(k) => Err(k),
            Ok(done) => match aggregate_field(aggs[n - 1]) {
                Err(k) => Err(k),
                Ok(f) => Ok(done.push(f)),
            },
        }
    }
}

/// The name of the `i`th group: that of the input column it is, else a
/// numbered one.
pub open spec fn group_name(e: ExprView, i: int, input: Seq<FieldView>) -> Seq<char> {
    match e {
        ExprView::Column { index, data_type, nullable } => if index < input.len() {
            input[index as int].name
        } else {
            "group_"@ + crate::text::decimal_text(i as nat)
        },
        _ => "group_"@ + crate::text::decimal_text(i as nat),
    }
}

/// The names of groups.
pub open spec fn group_names(exprs: Seq<ExprView>, input: Seq<FieldView>) -> Seq<Seq<char>> {
    Seq::new(exprs.len(), |i: int| group_name(exprs[i], i, input))
}

/// The columns a join puts out: the semi and anti joins keep one side only, and
/// the columns of a side that an outer join may fill with nulls may hold nulls.
pub open spec fn join_fields(left: Seq<FieldView>, right: Seq<FieldView>, t: JoinType) -> Seq<
    FieldView,
> {
    match t {
        JoinType::Inner => left + right,
        JoinType::Left => left + nullable_fields(right),
        JoinType::Right => nullable_fields(left) + right,
        JoinType::Full => nullable_fields(left) + nullable_fields(right),
        JoinType::LeftSemi => left,
        JoinType::LeftAnti => left,
        JoinType::RightSemi => right,
        JoinType::RightAnti => right,
    }
}

proof fn lemma_named_error(exprs: Seq<ExprView>, names: Seq<Seq<char>>, m: nat, n: nat)
    requires
        m <= n,
        named_fields(exprs, names, m) is Err,
    ensures
        named_fields(exprs, names, n) == named_fields(exprs, names, m),
    decreases n - m,
{
    if m < n {
        lemma_named_error(exprs, names, m, (n - 1) as nat);
    }
}

proof fn lemma_aggregate_error(aggs: Seq<AggregateView>, m: nat, n: nat)
    requires
        m <= n,
        aggregate_fields(aggs, m) is Err,
    ensures
        aggregate_fields(aggs, n) == aggregate_fields(aggs, m),
    decreases n - m,
{
    if m < n {
        lemma_aggregate_error(aggs, m, (n - 1) as nat);
    }
}

/// The views of names.
pub open spec fn name_views(names: Seq<String>) -> Seq<Seq<char>> {
    Seq::new(names.len(), |i: int| names[i]@)
}

/// The fields of expressions under names.
fn fields_of(exprs: &Vec<Expr>, names: &Vec<String>) -> (r: Result<Vec<Field>, BasaltError>)
    requires
        exprs@.len() == names@.len(),
    ensures
        match r {
            Ok(v) => named_fields(expr_views(exprs@), name_views(names@), exprs@.len()) == Ok::<
                Seq<FieldView>,
                ErrorKind,
            >(field_views(v@)),
            Err(e) => named_fields(expr_views(exprs@), name_views(names@), exprs@.len()) == Err::<
                Seq<FieldView>,
                ErrorKind,
            >(e@),
        },
{
    let ghost ev = expr_views(exprs@);
    let ghost nv = name_views(names@);
    let mut out: Vec<Field> = Vec::new();
    let mut i: usize = 0;
    assert(field_views(out@) =~= seq![]);
    while i < exprs.len()
        invariant
            i <= exprs@.len(),
            exprs@.len() == names@.len(),
            ev == expr_views(exprs@),
            nv == name_views(names@),
            named_fields(ev, nv, i as nat) == Ok::<Seq<FieldView>, ErrorKind>(field_views(out@)),
        decreases exprs@.len() - i,
    {
        proof {
            assert(ev[i as int] == exprs@[i as int]@);
            assert(nv[i as int] == names@[i as int]@);
        }
        match exprs[i].data_type() {
            Err(e) => {
                proof {
                    lemma_named_error(ev, nv, (i + 1) as nat, ev.len());
                }
                return Err(e);
            },
            Ok(t) => {
                let ghost was = field_views(out@);
                let f = Field {
                    name: names[i].clone(),
                    data_type: t,
                    nullable: exprs[i].nullable(),
                };
                out.push(f);
                assert(field_views(out@) =~= was.push(named_field(nv[i as int], ev[i as int])));
            },
        }
        i = i + 1;
    }
    Ok(out)
}

/// The field of one aggregate's output.
fn field_of_aggregate(a: &AggregateFunction) -> (r: Result<Field, BasaltError>)
    ensures
        match r {
            Ok(f) => aggregate_field(a@) == Ok::<FieldView, ErrorKind>(f@),
            Err(e) => aggregate_field(a@) == Err::<FieldView, ErrorKind>(e@),
        },
{
    let data_type = match &a.arg {
        None => {
            if matches!(a.kind, AggregateKind::Count) {
                return Ok(
                    Field {
                        name: a.output_name.clone(),
                        data_type: DataType::Int64,
                        nullable: false,
                    },
                );
            }
            return Err(BasaltError::type_error("only COUNT takes no argument"));
        },
        Some(e) => match e.data_type() {
            Ok(t) => t,
            Err(e) => {
                return Err(e);
            },
        },
    };
    let numeric = data_type.is_numeric();
    let (output, nullable) = match a.kind {
        AggregateKind::Count => (DataType::Int64, false),
        AggregateKind::Avg => {
            if !numeric {
                return Err(BasaltError::type_of("cannot average values of type ", data_type.name()));
            }
            (DataType::Float64, true)
        },
        AggregateKind::Sum => {
            if !numeric {
                return Err(BasaltError::type_of("cannot sum values of type ", data_type.name()));
            }
            (data_type, true)
        },
        _ => (data_type, true),
    };
    Ok(Field { name: a.output_name.clone(), data_type: output, nullable })
}

pub struct LogicalPlanBuilder {
    plan: Arc<LogicalPlan>,
}

impl LogicalPlanBuilder {
    pub closed spec fn view(&self) -> PlanView {
        self.plan@
    }

    /// Starts from a table.
    pub fn scan(table_name: &str, source: TableSource) -> (r: LogicalPlanBuilder)
        ensures
            r@ == (PlanView::TableScan {
                table_name: table_name@,
                source: source@,
                projection: None,
                filters: seq![],
                schema: source@.schema(),
            }),
    {
        let schema = source.schema();
        let filters: Vec<Expr> = Vec::new();
        assert(expr_views(filters@) =~= seq![]);
        LogicalPlanBuilder {
            plan: Arc::new(
                LogicalPlan::TableScan {
                    table_name: table_name.to_owned(),
                    source,
                    projection: None,
                    filters,
                    schema,
                },
            ),
        }
    }

    pub fn filter(self, predicate: Expr) -> (r: LogicalPlanBuilder)
        ensures
            r@ == (PlanView::Filter { input: Box::new(self@), predicate: predicate@ }),
    {
        LogicalPlanBuilder {
            plan: Arc::new(LogicalPlan::Filter { input: self.plan, predicate }),
        }
    }

    /// Computes expressions under names.
    ///
    /// # Errors
    /// An internal error unless there is one name per expression; a type error
    /// where an expression has no type.
    pub fn project(self, exprs: Vec<Expr>, names: Vec<String>) -> (r: Result<
        LogicalPlanBuilder,
        BasaltError,
    >)
        ensures
            ({
                let ev = expr_views(exprs@);
                let fields = named_fields(ev, name_views(names@), ev.len());
                match r {
                    Ok(b) => exprs@.len() == names@.len() && fields is Ok && b@ == (
                    PlanView::Projection {
                        input: Box::new(self@),
                        exprs: ev,
                        schema: fields->Ok_0,
                    }),
                    Err(e) => if exprs@.len() != names@.len() {
                        e@ == ErrorKind::Internal
                    } else {
                        fields == Err::<Seq<FieldView>, ErrorKind>(e@)
                    },
                }
            }),
    {
        if exprs.len() != names.len() {
            return Err(
                BasaltError::internal_with("a projection got ", names.len(), " names"),
            );
        }
        match fields_of(&exprs, &names) {
            Err(e) => Err(e),
            Ok(fields) => {
                let schema: SchemaRef = Arc::new(Schema::new_allow_duplicate_names(fields));
                Ok(
                    LogicalPlanBuilder {
                        plan: Arc::new(
                            LogicalPlan::Projection { input: self.plan, exprs, schema },
                        ),
                    },
                )
            },
        }
    }

    pub fn limit(self, skip: usize, fetch: Option<usize>) -> (r: LogicalPlanBuilder)
        ensures
            r@ == (PlanView::Limit { input: Box::new(self@), skip, fetch }),
    {
        LogicalPlanBuilder {
            plan: Arc::new(LogicalPlan::Limit { input: self.plan, skip, fetch }),
        }
    }

    pub fn sort(self, exprs: Vec<SortExpr>) -> (r: LogicalPlanBuilder)
        ensures
            r@ == (PlanView::Sort { input: Box::new(self@), exprs: sort_expr_views(exprs@) }),
    {
        LogicalPlanBuilder { plan: Arc::new(LogicalPlan::Sort { input: self.plan, exprs }) }
    }

    /// Groups and aggregates.
    ///
    /// # Errors
    /// A type error where a group has no type or an aggregate cannot take its
    /// argument.
    pub fn aggregate(self, group_expr: Vec<Expr>, aggr_expr: Vec<AggregateFunction>) -> (r: Result<
        LogicalPlanBuilder,
        BasaltError,
    >)
        ensures
            ({
                let ev = expr_views(group_expr@);
                let av = aggregate_views(aggr_expr@);
                let groups = named_fields(ev, group_names(ev, plan_schema(self@)), ev.len());
                let aggs = aggregate_fields(av, av.len());
                match r {
                    Ok(b) => groups is Ok && aggs is Ok && b@ == (PlanView::Aggregate {
                        input: Box::new(self@),
                        group_expr: ev,
                        aggr_expr: av,
                        schema: groups->Ok_0 + aggs->Ok_0,
                    }),
                    Err(e) => if groups is Err {
                        groups == Err::<Seq<FieldView>, ErrorKind>(e@)
                    } else {
                        aggs == Err::<Seq<FieldView>, ErrorKind>(e@)
                    },
                }
            }),
    {
        let ghost ev = expr_views(group_expr@);
        let ghost av = aggregate_views(aggr_expr@);
        let ghost input_schema = plan_schema(self@);
        let input = self.plan.schema();
        let mut names: Vec<String> = Vec::new();
        let mut i: usize = 0;
        while i < group_expr.len()
            invariant
                i <= group_expr@.len(),
                ev == expr_views(group_expr@),
                input@ == input_schema,
                names@.len() == i,
                forall|k: int|
                    0 <= k < i ==> (#[trigger] names@[k])@ == group_names(ev, input_schema)[k],
            decreases group_expr@.len() - i,
        {
            assert(ev[i as int] == group_expr@[i as int]@);
            let mut name = "group_".to_owned();
            let number = crate::text::decimal(i as u64);
            vstd::string::StringExecFns::append(&mut name, number.as_str());
            match &group_expr[i] {
                Expr::Column { index, data_type, nullable } => match input.field(*index) {
                    Some(f) => {
                        name = f.name.clone();
                    },
                    None => {},
                },
                _ => {},
            }
            names.push(name);
            i = i + 1;
        }
        assert(name_views(names@) =~= group_names(ev, input_schema));
        let groups = match fields_of(&group_expr, &names) {
            Ok(v) => v,
            Err(e) => {
                return Err(e);
            },
        };
        let ghost group_part = field_views(groups@);
        let mut fields = groups;
        let mut i: usize = 0;
        let ghost mut agg_part: Seq<FieldView> = seq![];
        assert(field_views(fields@) =~= group_part + agg_part);
        while i < aggr_expr.len()
            invariant
                i <= aggr_expr@.len(),
                av == aggregate_views(aggr_expr@),
                aggregate_fields(av, i as nat) == Ok::<Seq<FieldView>, ErrorKind>(agg_part),
                field_views(fields@) == group_part + agg_part,
                ev == expr_views(group_expr@),
                named_fields(ev, group_names(ev, input_schema), ev.len()) == Ok::<
                    Seq<FieldView>,
                    ErrorKind,
                >(group_part),
                input_schema == plan_schema(self@),
            decreases aggr_expr@.len() - i,
        {
            assert(av[i as int] == aggr_expr@[i as int]@);
            match field_of_aggregate(&aggr_expr[i]) {
                Err(e) => {
                    proof {
                        lemma_aggregate_error(av, (i + 1) as nat, av.len());
                    }
                    return Err(e);
                },
                Ok(f) => {
                    let ghost was = field_views(fields@);
                    fields.push(f);
                    proof {
                        agg_part = agg_part.push(f@);
                        assert(field_views(fields@) =~= was.push(f@));
                        assert(field_views(fields@) =~= group_part + agg_part);
                    }
                },
            }
            i = i + 1;
        }
        let schema: SchemaRef = Arc::new(Schema::new_allow_duplicate_names(fields));
        Ok(
            LogicalPlanBuilder {
                plan: Arc::new(
                    LogicalPlan::Aggregate { input: self.plan, group_expr, aggr_expr, schema },
                ),
            },
        )
    }

    /// Joins with another plan.
    ///
    /// # Errors
    /// A type error where a key has no type, or where the two keys of a pair
    /// differ in type.
    pub fn join(
        self,
        right: Arc<LogicalPlan>,
        on: Vec<(Expr, Expr)>,
        filter: Option<Expr>,
        join_type: JoinType,
    ) -> (r: Result<LogicalPlanBuilder, BasaltError>)
        ensures
            match r {
                Ok(b) => keys_typed(pair_views(on@)) && b@ == (PlanView::Join {
                    left: Box::new(self@),
                    right: Box::new(right@),
                    on: pair_views(on@),
                    filter: option_view(filter),
                    join_type,
                    schema: join_fields(plan_schema(self@), plan_schema(right@), join_type),
                }),
                Err(e) => e@ == ErrorKind::Type && !keys_typed(pair_views(on@)),
            },
    {
        let ghost pv = pair_views(on@);
        let mut i: usize = 0;
        while i < on.len()
            invariant
                i <= on@.len(),
                pv == pair_views(on@),
                forall|k: int|
                    0 <= k < i ==> expr_type((#[trigger] pv[k]).0) is Some && expr_type(pv[k].0)
                        == expr_type(pv[k].1),
            decreases on@.len() - i,
        {
            assert(pv[i as int] == (on@[i as int].0@, on@[i as int].1@));
            match (on[i].0.data_type(), on[i].1.data_type()) {
                (Ok(l), Ok(r)) => {
                    if l != r {
                        return Err(BasaltError::type_error("join keys differ in type"));
                    }
                },
                _ => {
                    return Err(BasaltError::type_error("a join key has no type"));
                },
            }
            i = i + 1;
        }
        let left_schema = self.plan.schema();
        let right_schema = right.schema();
        let schema: SchemaRef = match join_type {
            JoinType::Inner => Arc::new(concat_schemas(left_schema, right_schema)),
            JoinType::Left => Arc::new(
                concat_schemas(left_schema, &nullable_schema(right_schema)),
            ),
            JoinType::Right => Arc::new(
                concat_schemas(&nullable_schema(left_schema), right_schema),
            ),
            JoinType::Full => Arc::new(
                concat_schemas(&nullable_schema(left_schema), &nullable_schema(right_schema)),
            ),
            JoinType::LeftSemi => crate::array::share(left_schema),
            JoinType::LeftAnti => crate::array::share(left_schema),
            JoinType::RightSemi => crate::array::share(right_schema),
            JoinType::RightAnti => crate::array::share(right_schema),
        };
        Ok(
            LogicalPlanBuilder {
                plan: Arc::new(
                    LogicalPlan::Join { left: self.plan, right, on, filter, join_type, schema },
                ),
            },
        )
    }

    pub fn build(self) -> (r: Arc<LogicalPlan>)
        ensures
            r@ == self@,
    {
        self.plan
    }
}

/// Whether the two keys of every pair have a type, and the same.
pub open spec fn keys_typed(on: Seq<(ExprView, ExprView)>) -> bool {
    forall|k: int|
        0 <= k < on.len() ==> expr_type((#[trigger] on[k]).0) is Some && expr_type(on[k].0)
            == expr_type(on[k].1)
}

} // verus!
