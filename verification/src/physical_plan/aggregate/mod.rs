//! Aggregation. The operator reads its whole input before it produces its one
//! batch, since a group is complete only when every row has been seen. Without
//! grouping expressions there is a single set of accumulators and no hashing.

pub mod accumulator;
pub mod group_keys;
pub mod hash_table;
pub mod key_index;
pub mod key_laws;
pub mod laws;
pub mod meaning;
pub mod rows;

use std::sync::Arc;
use vstd::prelude::*;

use crate::array::{share, Array, ArrayRef, ArrayView};
use crate::batch::{array_views, batch_of, columns_fit, BatchView, ColumnarBatch};
use crate::error::{BasaltError, ErrorKind};
use crate::logical_plan::plan::AggregateKind;
use crate::physical_expr::expr::{share_exprs, PhysicalExprRef, PhysicalExprView};
use crate::physical_plan::aggregate::accumulator::{
    accumulate, aggregate_output, fresh, Accumulator, AccumulatorFactory, AccumulatorView,
};
use crate::physical_plan::aggregate::group_keys::column_rows;
use crate::physical_plan::aggregate::hash_table::{
    all_outputs, fold_batch, state_views, typed, GroupedHashAggregator, GroupsView,
};
use crate::physical_plan::plan::{
    eval_all, eval_rows, evaluate_all, evaluate_rows, exec_children, exec_schema, expr_list,
    item_view, plan_views, rebuilt, run, stream_view, BatchStream, ExecView, ExecutionPlan,
    ExecutionPlanRef,
};
use crate::scalar::ScalarValue;
use crate::types::data_type::DataType;
use crate::types::schema::{FieldView, SchemaRef};
use crate::types::value::{Value, ValueView};

verus! {

/// The lesser of two lengths.
pub open spec fn lesser(a: nat, b: nat) -> nat {
    if a < b {
        a
    } else {
        b
    }
}

/// One factory per aggregate that has a kind, an argument type and an argument.
pub open spec fn aggregate_factories(
    kinds: Seq<AggregateKind>,
    types: Seq<DataType>,
    args: Seq<Option<PhysicalExprView>>,
) -> Seq<AccumulatorFactory> {
    Seq::new(
        lesser(lesser(kinds.len(), types.len()), args.len()),
        |i: int|
            AccumulatorFactory { kind: kinds[i], data_type: types[i], is_star: args[i] is None },
    )
}

/// A column that stands for the rows of a batch: the first, or nulls when
/// there is none.
pub open spec fn carrier(b: BatchView) -> ArrayView {
    if b.columns.len() > 0 {
        b.columns[0]
    } else {
        ArrayView {
            data_type: DataType::Int64,
            values: Seq::new(b.num_rows, |i: int| ValueView::Null),
        }
    }
}

/// The argument columns of the first `n` aggregates, or the first error.
pub open spec fn argument_columns(args: Seq<Option<PhysicalExprView>>, b: BatchView, n: nat) -> Result<
    Seq<ArrayView>,
    ErrorKind,
>
    decreases n,
{
    if n == 0 {
        Ok(seq![])
    } else {
        match argument_columns(args, b, (n - 1) as nat) {
            Err(k) => Err(k),
            Ok(done) => match args[n - 1] {
                None => Ok(done.push(carrier(b))),
                Some(e) => match eval_rows(e, b) {
                    Err(k) => Err(k),
                    Ok(a) => Ok(done.push(a)),
                },
            },
        }
    }
}

/// The first `n` states after a batch, or the first error.
pub open spec fn flat_update(states: Seq<AccumulatorView>, columns: Seq<ArrayView>, n: nat) -> Result<
    Seq<AccumulatorView>,
    ErrorKind,
>
    decreases n,
{
    if n == 0 {
        Ok(seq![])
    } else {
        match flat_update(states, columns, (n - 1) as nat) {
            Err(k) => Err(k),
            Ok(done) => match accumulate(states[n - 1], columns[n - 1]) {
                Err(k) => Err(k),
                Ok(s) => Ok(done.push(s)),
            },
        }
    }
}

/// The states of an ungrouped aggregation after a stream; batches without
/// rows are passed over.
pub open spec fn flat_after(
    args: Seq<Option<PhysicalExprView>>,
    start: Seq<AccumulatorView>,
    items: Seq<Result<BatchView, ErrorKind>>,
) -> Result<Seq<AccumulatorView>, ErrorKind>
    decreases items.len(),
{
    if items.len() == 0 {
        Ok(start)
    } else {
        match flat_after(args, start, items.drop_last()) {
            Err(k) => Err(k),
            Ok(states) => match items.last() {
                Err(k) => Err(k),
                Ok(b) => if b.num_rows == 0 {
                    Ok(states)
                } else {
                    match argument_columns(args, b, args.len()) {
                        Err(k) => Err(k),
                        Ok(columns) => flat_update(states, columns, states.len()),
                    }
                },
            },
        }
    }
}

/// The table of a grouped aggregation after a stream.
pub open spec fn groups_after(
    group_exprs: Seq<PhysicalExprView>,
    args: Seq<Option<PhysicalExprView>>,
    start: GroupsView,
    items: Seq<Result<BatchView, ErrorKind>>,
) -> Result<GroupsView, ErrorKind>
    decreases items.len(),
{
    if items.len() == 0 {
        Ok(start)
    } else {
        match groups_after(group_exprs, args, start, items.drop_last()) {
            Err(k) => Err(k),
            Ok(table) => match items.last() {
                Err(k) => Err(k),
                Ok(b) => if b.num_rows == 0 {
                    Ok(table)
                } else {
                    match argument_columns(args, b, args.len()) {
                        Err(k) => Err(k),
                        Ok(columns) => match eval_all(group_exprs, b, group_exprs.len()) {
                            Err(k) => Err(k),
                            Ok(keys) => fold_batch(table, keys, columns),
                        },
                    }
                },
            },
        }
    }
}

/// The table before any batch.
pub open spec fn no_groups(types: Seq<DataType>, factories: Seq<AccumulatorFactory>) -> GroupsView {
    GroupsView {
        types,
        factories,
        groups: Seq::empty(),
        states: Seq::new(factories.len(), |a: int| Seq::<AccumulatorView>::empty()),
    }
}

/// The one-row columns of the first `n` aggregates; an internal error where an
/// output is not of its field's type.
pub open spec fn flat_columns(states: Seq<AccumulatorView>, schema: Seq<FieldView>, n: nat) -> Result<
    Seq<ArrayView>,
    ErrorKind,
>
    decreases n,
{
    if n == 0 {
        Ok(seq![])
    } else {
        match flat_columns(states, schema, (n - 1) as nat) {
            Err(k) => Err(k),
            Ok(done) => match aggregate_output(states[n - 1]) {
                Err(k) => Err(k),
                Ok((t, v)) => if t == schema[n - 1].data_type {
                    Ok(done.push(ArrayView { data_type: t, values: seq![v] }))
                } else {
                    Err(ErrorKind::Internal)
                },
            },
        }
    }
}

/// The values of typed scalars.
pub open spec fn untyped(v: Seq<(DataType, ValueView)>) -> Seq<ValueView> {
    Seq::new(v.len(), |i: int| v[i].1)
}

/// Whether every scalar is of a type.
pub open spec fn all_typed(v: Seq<(DataType, ValueView)>, t: DataType) -> bool {
    forall|i: int| 0 <= i < v.len() ==> (#[trigger] v[i]).0 == t
}

/// The column of group values at position `c`.
pub open spec fn group_column(t: GroupsView, c: int) -> ArrayView {
    ArrayView {
        data_type: t.types[c],
        values: Seq::new(t.groups.len(), |g: int| t.groups[g][c]),
    }
}

/// The columns of the first `n` aggregates, under the fields behind `from`.
pub open spec fn output_part(
    outs: Seq<Seq<(DataType, ValueView)>>,
    schema: Seq<FieldView>,
    from: nat,
    n: nat,
) -> Seq<ArrayView> {
    Seq::new(
        n,
        |a: int|
            ArrayView { data_type: schema[from + a].data_type, values: untyped(outs[a]) },
    )
}

/// The columns of a finished table: the group values, then the aggregates. An
/// internal error when the schema is shorter than the groups or an output is
/// not of its field's type.
pub open spec fn group_columns(
    t: GroupsView,
    outs: Seq<Seq<(DataType, ValueView)>>,
    schema: Seq<FieldView>,
) -> Result<Seq<ArrayView>, ErrorKind> {
    if schema.len() < t.types.len() {
        Err(ErrorKind::Internal)
    } else {
        let n = lesser(outs.len(), (schema.len() - t.types.len()) as nat);
        if forall|a: int|
            0 <= a < n ==> all_typed(#[trigger] outs[a], schema[t.types.len() + a].data_type) {
            Ok(
                Seq::new(t.types.len(), |c: int| group_column(t, c)) + output_part(
                    outs,
                    schema,
                    t.types.len(),
                    n,
                ),
            )
        } else {
            Err(ErrorKind::Internal)
        }
    }
}

/// Columns as the one batch of a stream; an internal error unless they fit.
pub open spec fn single_batch(schema: Seq<FieldView>, columns: Seq<ArrayView>) -> Result<
    Seq<Result<BatchView, ErrorKind>>,
    ErrorKind,
> {
    if columns_fit(schema, columns) {
        Ok(seq![Ok(batch_of(schema, columns))])
    } else {
        Err(ErrorKind::Internal)
    }
}

/// What an aggregation produces from a stream.
pub open spec fn run_aggregate(
    group_exprs: Seq<PhysicalExprView>,
    group_types: Seq<DataType>,
    args: Seq<Option<PhysicalExprView>>,
    kinds: Seq<AggregateKind>,
    arg_types: Seq<DataType>,
    schema: Seq<FieldView>,
    items: Seq<Result<BatchView, ErrorKind>>,
) -> Result<Seq<Result<BatchView, ErrorKind>>, ErrorKind> {
    let factories = aggregate_factories(kinds, arg_types, args);
    if group_exprs.len() == 0 {
        match flat_after(args, Seq::new(factories.len(), |i: int| fresh(factories[i])), items) {
            Err(k) => Err(k),
            Ok(states) => match flat_columns(states, schema, lesser(states.len(), schema.len())) {
                Err(k) => Err(k),
                Ok(columns) => single_batch(schema, columns),
            },
        }
    } else {
        match groups_after(group_exprs, args, no_groups(group_types, factories), items) {
            Err(k) => Err(k),
            Ok(t) => match all_outputs(t.states, t.states.len()) {
                Err(k) => Err(k),
                Ok(outs) => match group_columns(t, outs, schema) {
                    Err(k) => Err(k),
                    Ok(columns) => single_batch(schema, columns),
                },
            },
        }
    }
}

// ---------------------------------------------------------------------------
// Facts

proof fn lemma_arguments_error(args: Seq<Option<PhysicalExprView>>, b: BatchView, m: nat, n: nat)
    requires
        m <= n,
        argument_columns(args, b, m) is Err,
    ensures
        argument_columns(args, b, n) == argument_columns(args, b, m),
    decreases n - m,
{
    if m < n {
        lemma_arguments_error(args, b, m, (n - 1) as nat);
    }
}

proof fn lemma_flat_update_error(
    states: Seq<AccumulatorView>,
    columns: Seq<ArrayView>,
    m: nat,
    n: nat,
)
    requires
        m <= n,
        flat_update(states, columns, m) is Err,
    ensures
        flat_update(states, columns, n) == flat_update(states, columns, m),
    decreases n - m,
{
    if m < n {
        lemma_flat_update_error(states, columns, m, (n - 1) as nat);
    }
}

proof fn lemma_flat_update_len(states: Seq<AccumulatorView>, columns: Seq<ArrayView>, n: nat)
    requires
        flat_update(states, columns, n) is Ok,
    ensures
        flat_update(states, columns, n)->Ok_0.len() == n,
    decreases n,
{
    if n > 0 {
        lemma_flat_update_len(states, columns, (n - 1) as nat);
    }
}

proof fn lemma_flat_columns_error(
    states: Seq<AccumulatorView>,
    schema: Seq<FieldView>,
    m: nat,
    n: nat,
)
    requires
        m <= n,
        flat_columns(states, schema, m) is Err,
    ensures
        flat_columns(states, schema, n) == flat_columns(states, schema, m),
    decreases n - m,
{
    if m < n {
        lemma_flat_columns_error(states, schema, m, (n - 1) as nat);
    }
}

proof fn lemma_flat_after_error(
    args: Seq<Option<PhysicalExprView>>,
    start: Seq<AccumulatorView>,
    items: Seq<Result<BatchView, ErrorKind>>,
    m: int,
)
    requires
        0 <= m <= items.len(),
        flat_after(args, start, items.take(m)) is Err,
    ensures
        flat_after(args, start, items) == flat_after(args, start, items.take(m)),
    decreases items.len() - m,
{
    if m < items.len() {
        assert(items.take(m + 1).drop_last() =~= items.take(m));
        lemma_flat_after_error(args, start, items, m + 1);
    } else {
        assert(items.take(m) =~= items);
    }
}

proof fn lemma_groups_after_error(
    group_exprs: Seq<PhysicalExprView>,
    args: Seq<Option<PhysicalExprView>>,
    start: GroupsView,
    items: Seq<Result<BatchView, ErrorKind>>,
    m: int,
)
    requires
        0 <= m <= items.len(),
        groups_after(group_exprs, args, start, items.take(m)) is Err,
    ensures
        groups_after(group_exprs, args, start, items) == groups_after(
            group_exprs,
            args,
            start,
            items.take(m),
        ),
    decreases items.len() - m,
{
    if m < items.len() {
        assert(items.take(m + 1).drop_last() =~= items.take(m));
        lemma_groups_after_error(group_exprs, args, start, items, m + 1);
    } else {
        assert(items.take(m) =~= items);
    }
}

// ---------------------------------------------------------------------------
// The operator

/// A column that stands for the rows of a batch.
fn row_count_carrier(batch: &ColumnarBatch) -> (r: ArrayRef)
    ensures
        r@ == carrier(batch@),
        r@.values.len() == batch@.num_rows,
{
    let n: usize = batch.num_rows();
    match batch.column(0) {
        Some(a) => {
            assert(batch@.columns[0].values.len() == batch@.num_rows);
            share(a)
        },
        None => Arc::new(crate::array::repeat_value(&Value::Null, DataType::Int64, n)),
    }
}

/// A column of scalars.
///
/// # Errors
/// An internal error unless every scalar is of the column's type.
pub fn scalars_to_array(values: &Vec<ScalarValue>, data_type: DataType) -> (r: Result<
    ArrayRef,
    BasaltError,
>)
    ensures
        match r {
            Ok(a) => all_typed(typed(values@), data_type) && a@ == (ArrayView {
                data_type,
                values: untyped(typed(values@)),
            }),
            Err(e) => e@ == ErrorKind::Internal && !all_typed(typed(values@), data_type),
        },
{
    let mut out = Array::empty(data_type);
    let ghost all = typed(values@);
    let mut i: usize = 0;
    assert(out@.values =~= untyped(all).take(0));
    while i < values.len()
        invariant
            i <= values@.len(),
            all == typed(values@),
            out@.data_type == data_type,
            out@.values == untyped(all).take(i as int),
            forall|k: int| 0 <= k < i ==> (#[trigger] all[k]).0 == data_type,
        decreases values@.len() - i,
    {
        assert(all[i as int] == (values@[i as int].spec_data_type(), values@[i as int]@));
        if values[i].data_type() != data_type {
            return Err(
                BasaltError::internal_with("aggregate output ", i, " has an unexpected type"),
            );
        }
        out.push(values[i].to_value());
        assert(untyped(all).take(i + 1) =~= untyped(all).take(i as int).push(all[i as int].1));
        i = i + 1;
    }
    assert(untyped(all).take(i as int) =~= untyped(all));
    Ok(Arc::new(out))
}

#[derive(Debug)]
pub struct AggregateExec {
    pub input: ExecutionPlanRef,
    pub group_exprs: Vec<PhysicalExprRef>,
    pub group_types: Vec<DataType>,
    /// `None` for a count of rows.
    pub agg_arg_exprs: Vec<Option<PhysicalExprRef>>,
    pub agg_kinds: Vec<AggregateKind>,
    /// The type of each aggregate's argument.
    pub agg_arg_types: Vec<DataType>,
    pub schema: SchemaRef,
}

/// The model of an optional expression.
pub open spec fn optional_expr(e: Option<PhysicalExprRef>) -> Option<PhysicalExprView> {
    match e {
        Some(e) => Some(e@),
        None => None,
    }
}

fn copy_types(v: &Vec<DataType>) -> (r: Vec<DataType>)
    ensures
        r@ == v@,
{
    let mut out: Vec<DataType> = Vec::new();
    let mut i: usize = 0;
    while i < v.len()
        invariant
            i <= v@.len(),
            out@ == v@.take(i as int),
        decreases v@.len() - i,
    {
        out.push(v[i]);
        assert(v@.take(i + 1) =~= v@.take(i as int).push(v@[i as int]));
        i = i + 1;
    }
    assert(out@ =~= v@);
    out
}

impl AggregateExec {
    pub open spec fn arg_views(&self) -> Seq<Option<PhysicalExprView>> {
        Seq::new(self.agg_arg_exprs@.len(), |i: int| optional_expr(self.agg_arg_exprs@[i]))
    }

    pub open spec fn node(&self) -> ExecView {
        ExecView::Aggregate {
            input: Box::new(self.input@),
            group_exprs: expr_list(self.group_exprs@),
            group_types: self.group_types@,
            agg_args: self.arg_views(),
            agg_kinds: self.agg_kinds@,
            agg_arg_types: self.agg_arg_types@,
            schema: self.schema@,
        }
    }

    pub fn new(
        input: ExecutionPlanRef,
        group_exprs: Vec<PhysicalExprRef>,
        group_types: Vec<DataType>,
        agg_arg_exprs: Vec<Option<PhysicalExprRef>>,
        agg_kinds: Vec<AggregateKind>,
        agg_arg_types: Vec<DataType>,
        schema: SchemaRef,
    ) -> (r: AggregateExec)
        ensures
            r == (AggregateExec {
                input,
                group_exprs,
                group_types,
                agg_arg_exprs,
                agg_kinds,
                agg_arg_types,
                schema,
            }),
    {
        AggregateExec {
            input,
            group_exprs,
            group_types,
            agg_arg_exprs,
            agg_kinds,
            agg_arg_types,
            schema,
        }
    }

    fn build_factories(&self) -> (r: Vec<AccumulatorFactory>)
        ensures
            r@ == aggregate_factories(self.agg_kinds@, self.agg_arg_types@, self.arg_views()),
    {
        let mut out: Vec<AccumulatorFactory> = Vec::new();
        let ghost want = aggregate_factories(
            self.agg_kinds@,
            self.agg_arg_types@,
            self.arg_views(),
        );
        let mut i: usize = 0;
        while i < self.agg_kinds.len() && i < self.agg_arg_types.len() && i
            < self.agg_arg_exprs.len()
            invariant
                i <= want.len(),
                want == aggregate_factories(
                    self.agg_kinds@,
                    self.agg_arg_types@,
                    self.arg_views(),
                ),
                out@ == want.take(i as int),
            decreases want.len() - i,
        {
            let is_star = self.agg_arg_exprs[i].is_none();
            out.push(AccumulatorFactory::new(self.agg_kinds[i], self.agg_arg_types[i], is_star));
            assert(want.take(i + 1) =~= want.take(i as int).push(want[i as int]));
            i = i + 1;
        }
        assert(out@ =~= want);
        out
    }

    /// The argument column of each aggregate over a batch.
    fn arguments(&self, batch: &ColumnarBatch) -> (r: Result<Vec<ArrayRef>, BasaltError>)
        ensures
            match r {
                Ok(v) => {
                    &&& argument_columns(self.arg_views(), batch@, self.agg_arg_exprs@.len())
                        == Ok::<Seq<ArrayView>, ErrorKind>(array_views(v@))
                    &&& v@.len() == self.agg_arg_exprs@.len()
                    &&& forall|i: int|
                        0 <= i < v@.len() ==> (#[trigger] v@[i])@.values.len() == batch@.num_rows
                },
                Err(e) => argument_columns(self.arg_views(), batch@, self.agg_arg_exprs@.len())
                    == Err::<Seq<ArrayView>, ErrorKind>(e@),
            },
    {
        let ghost args = self.arg_views();
        let mut out: Vec<ArrayRef> = Vec::new();
        let mut i: usize = 0;
        assert(array_views(out@) =~= seq![]);
        while i < self.agg_arg_exprs.len()
            invariant
                i <= self.agg_arg_exprs@.len(),
                args == self.arg_views(),
                out@.len() == i,
                argument_columns(args, batch@, i as nat) == Ok::<Seq<ArrayView>, ErrorKind>(
                    array_views(out@),
                ),
                forall|k: int|
                    0 <= k < out@.len() ==> (#[trigger] out@[k])@.values.len() == batch@.num_rows,
            decreases self.agg_arg_exprs@.len() - i,
        {
            assert(args[i as int] == optional_expr(self.agg_arg_exprs@[i as int]));
            let ghost was = array_views(out@);
            match &self.agg_arg_exprs[i] {
                None => {
                    let a = row_count_carrier(batch);
                    out.push(a);
                    assert(array_views(out@) =~= was.push(a@));
                },
                Some(e) => match evaluate_rows(e, batch) {
                    Ok(a) => {
                        out.push(a);
                        assert(array_views(out@) =~= was.push(a@));
                    },
                    Err(k) => {
                        proof {
                            lemma_arguments_error(args, batch@, (i + 1) as nat, args.len());
                        }
                        return Err(k);
                    },
                },
            }
            i = i + 1;
        }
        Ok(out)
    }

    pub fn schema(&self) -> (r: SchemaRef)
        ensures
            r@ == exec_schema(self.node()),
    {
        share(&self.schema)
    }

    pub fn children(&self) -> (r: Vec<ExecutionPlanRef>)
        ensures
            plan_views(r@) == exec_children(self.node()),
    {
        let mut v: Vec<ExecutionPlanRef> = Vec::new();
        v.push(share(&self.input));
        assert(plan_views(v@) =~= seq![self.input@]);
        v
    }

    /// # Errors
    /// An internal error unless there is exactly one child.
    pub fn with_new_children(&self, children: Vec<ExecutionPlanRef>) -> (r: Result<
        ExecutionPlanRef,
        BasaltError,
    >)
        ensures
            rebuilt(self.node(), plan_views(children@), r),
    {
        if children.len() != 1 {
            return Err(
                BasaltError::internal_with(
                    "AggregateExec takes exactly 1 child, got ",
                    children.len(),
                    "",
                ),
            );
        }
        assert(plan_views(children@)[0] == children@[0]@);
        let mut args: Vec<Option<PhysicalExprRef>> = Vec::new();
        let mut i: usize = 0;
        while i < self.agg_arg_exprs.len()
            invariant
                i <= self.agg_arg_exprs@.len(),
                args@ == self.agg_arg_exprs@.take(i as int),
            decreases self.agg_arg_exprs@.len() - i,
        {
            let arg = match &self.agg_arg_exprs[i] {
                Some(e) => Some(share(e)),
                None => None,
            };
            args.push(arg);
            assert(self.agg_arg_exprs@.take(i + 1) =~= self.agg_arg_exprs@.take(i as int).push(
                self.agg_arg_exprs@[i as int],
            ));
            i = i + 1;
        }
        let mut kinds: Vec<AggregateKind> = Vec::new();
        let mut i: usize = 0;
        while i < self.agg_kinds.len()
            invariant
                i <= self.agg_kinds@.len(),
                kinds@ == self.agg_kinds@.take(i as int),
            decreases self.agg_kinds@.len() - i,
        {
            kinds.push(self.agg_kinds[i]);
            assert(self.agg_kinds@.take(i + 1) =~= self.agg_kinds@.take(i as int).push(
                self.agg_kinds@[i as int],
            ));
            i = i + 1;
        }
        let r = AggregateExec::new(
            share(&children[0]),
            share_exprs(&self.group_exprs),
            copy_types(&self.group_types),
            args,
            kinds,
            copy_types(&self.agg_arg_types),
            share(&self.schema),
        );
        proof {
            assert(r.arg_views() =~= self.arg_views());
            assert(r.agg_kinds@ =~= self.agg_kinds@);
        }
        Ok(Arc::new(ExecutionPlan::Aggregate(r)))
    }

    /// Aggregates the whole input.
    pub fn execute(&self, partition: usize) -> (r: Result<BatchStream, BasaltError>)
        ensures
            match r {
                Ok(s) => run(self.node(), partition) == Ok::<
                    Seq<Result<BatchView, ErrorKind>>,
                    ErrorKind,
                >(stream_view(s@)),
                Err(e) => run(self.node(), partition) == Err::<
                    Seq<Result<BatchView, ErrorKind>>,
                    ErrorKind,
                >(e@),
            },
        decreases self, 1int,
    {
        let input = match self.input.execute(partition) {
            Ok(s) => s,
            Err(e) => {
                return Err(e);
            },
        };
        let columns = if self.group_exprs.len() == 0 {
            self.execute_flat(&input)
        } else {
            self.execute_grouped(&input)
        };
        match columns {
            Err(e) => Err(e),
            Ok(columns) => match ColumnarBatch::try_new(share(&self.schema), columns) {
                Err(e) => Err(e),
                Ok(b) => {
                    let mut out: BatchStream = Vec::new();
                    out.push(Ok(b));
                    assert(stream_view(out@) =~= seq![Ok(b@)]);
                    Ok(out)
                },
            },
        }
    }

    /// The columns without grouping.
    fn execute_flat(&self, input: &BatchStream) -> (r: Result<Vec<ArrayRef>, BasaltError>)
        ensures
            ({
                let factories = aggregate_factories(
                    self.agg_kinds@,
                    self.agg_arg_types@,
                    self.arg_views(),
                );
                let want = match flat_after(
                    self.arg_views(),
                    Seq::new(factories.len(), |i: int| fresh(factories[i])),
                    stream_view(input@),
                ) {
                    Err(k) => Err(k),
                    Ok(states) => flat_columns(
                        states,
                        self.schema@,
                        lesser(states.len(), self.schema@.len()),
                    ),
                };
                match r {
                    Ok(v) => want == Ok::<Seq<ArrayView>, ErrorKind>(array_views(v@)),
                    Err(e) => want == Err::<Seq<ArrayView>, ErrorKind>(e@),
                }
            }),
    {
        let ghost items = stream_view(input@);
        let ghost args = self.arg_views();
        let factories = self.build_factories();
        let ghost start = Seq::new(factories@.len(), |i: int| fresh(factories@[i]));
        let mut accs: Vec<Accumulator> = Vec::new();
        let mut i: usize = 0;
        while i < factories.len()
            invariant
                i <= factories@.len(),
                start == Seq::new(factories@.len(), |i: int| fresh(factories@[i])),
                accs@.len() == i,
                forall|k: int| 0 <= k < i ==> (#[trigger] accs@[k])@ == start[k],
            decreases factories@.len() - i,
        {
            accs.push(factories[i].make());
            i = i + 1;
        }
        let mut i: usize = 0;
        proof {
            assert(state_views(accs@) =~= start);
            assert(items.take(0) =~= seq![]);
        }
        while i < input.len()
            invariant
                i <= input@.len(),
                items == stream_view(input@),
                args == self.arg_views(),
                accs@.len() <= args.len(),
                factories@ == aggregate_factories(
                    self.agg_kinds@,
                    self.agg_arg_types@,
                    self.arg_views(),
                ),
                start == Seq::new(factories@.len(), |i: int| fresh(factories@[i])),
                flat_after(args, start, items.take(i as int)) == Ok::<
                    Seq<AccumulatorView>,
                    ErrorKind,
                >(state_views(accs@)),
            decreases input@.len() - i,
        {
            proof {
                assert(items.take(i + 1).drop_last() =~= items.take(i as int));
                assert(items.take(i + 1).last() == item_view(input@[i as int]));
            }
            match &input[i] {
                Err(e) => {
                    proof {
                        lemma_flat_after_error(args, start, items, i + 1);
                    }
                    return Err(e.copy());
                },
                Ok(batch) => {
                    if batch.num_rows() != 0 {
                        match self.arguments(batch) {
                            Err(e) => {
                                proof {
                                    lemma_flat_after_error(args, start, items, i + 1);
                                }
                                return Err(e);
                            },
                            Ok(columns) => match update_flat(&mut accs, &columns) {
                                Err(e) => {
                                    proof {
                                        lemma_flat_after_error(args, start, items, i + 1);
                                    }
                                    return Err(e);
                                },
                                Ok(_) => {
                                    assert(batch@.num_rows != 0);
                                },
                            },
                        }
                    }
                },
            }
            i = i + 1;
        }
        assert(items.take(i as int) =~= items);
        let ghost states = state_views(accs@);
        let fields = self.schema.fields();
        let mut out: Vec<ArrayRef> = Vec::new();
        let mut c: usize = 0;
        assert(array_views(out@) =~= seq![]);
        while c < accs.len() && c < fields.len()
            invariant
                c <= accs@.len(),
                c <= fields@.len(),
                fields@.len() == self.schema@.len(),
                forall|k: int| 0 <= k < fields@.len() ==> (#[trigger] fields@[k])@ == self.schema@[k],
                states == state_views(accs@),
                flat_columns(states, self.schema@, c as nat) == Ok::<Seq<ArrayView>, ErrorKind>(
                    array_views(out@),
                ),
                flat_after(args, start, items) == Ok::<Seq<AccumulatorView>, ErrorKind>(states),
                items == stream_view(input@),
                args == self.arg_views(),
                start == Seq::new(factories@.len(), |i: int| fresh(factories@[i])),
                factories@ == aggregate_factories(
                    self.agg_kinds@,
                    self.agg_arg_types@,
                    self.arg_views(),
                ),
            decreases accs@.len() - c,
        {
            proof {
                assert(states[c as int] == accs@[c as int]@);
                assert(fields@[c as int]@ == self.schema@[c as int]);
            }
            let ghost total = lesser(states.len(), self.schema@.len());
            match accs[c].evaluate() {
                Err(e) => {
                    proof {
                        lemma_flat_columns_error(states, self.schema@, (c + 1) as nat, total);
                    }
                    return Err(e);
                },
                Ok(v) => {
                    let mut one: Vec<ScalarValue> = Vec::new();
                    one.push(v);
                    assert(typed(one@)[0] == (v.spec_data_type(), v@));
                    match scalars_to_array(&one, fields[c].data_type) {
                        Err(e) => {
                            proof {
                                lemma_flat_columns_error(
                                    states,
                                    self.schema@,
                                    (c + 1) as nat,
                                    total,
                                );
                            }
                            return Err(e);
                        },
                        Ok(a) => {
                            let ghost was = array_views(out@);
                            out.push(a);
                            proof {
                                assert(untyped(typed(one@)) =~= seq![v@]);
                                assert(array_views(out@) =~= was.push(a@));
                            }
                        },
                    }
                },
            }
            c = c + 1;
        }
        Ok(out)
    }

    /// The columns with grouping.
    fn execute_grouped(&self, input: &BatchStream) -> (r: Result<Vec<ArrayRef>, BasaltError>)
        requires
            self.group_exprs@.len() > 0,
        ensures
            ({
                let factories = aggregate_factories(
                    self.agg_kinds@,
                    self.agg_arg_types@,
                    self.arg_views(),
                );
                let want = match groups_after(
                    expr_list(self.group_exprs@),
                    self.arg_views(),
                    no_groups(self.group_types@, factories),
                    stream_view(input@),
                ) {
                    Err(k) => Err(k),
                    Ok(t) => match all_outputs(t.states, t.states.len()) {
                        Err(k) => Err(k),
                        Ok(outs) => group_columns(t, outs, self.schema@),
                    },
                };
                match r {
                    Ok(v) => want == Ok::<Seq<ArrayView>, ErrorKind>(array_views(v@)),
                    Err(e) => want == Err::<Seq<ArrayView>, ErrorKind>(e@),
                }
            }),
    {
        let ghost items = stream_view(input@);
        let ghost args = self.arg_views();
        let ghost exprs = expr_list(self.group_exprs@);
        let factories = self.build_factories();
        let ghost start = no_groups(self.group_types@, factories@);
        let mut table = GroupedHashAggregator::new(copy_types(&self.group_types), factories);
        let mut i: usize = 0;
        proof {
            assert(table@ == start);
            assert(items.take(0) =~= seq![]);
        }
        while i < input.len()
            invariant
                i <= input@.len(),
                items == stream_view(input@),
                args == self.arg_views(),
                exprs == expr_list(self.group_exprs@),
                exprs.len() > 0,
                start == no_groups(
                    self.group_types@,
                    aggregate_factories(self.agg_kinds@, self.agg_arg_types@, self.arg_views()),
                ),
                table.wf(),
                groups_after(exprs, args, start, items.take(i as int)) == Ok::<
                    GroupsView,
                    ErrorKind,
                >(table@),
                table@.types == self.group_types@,
            decreases input@.len() - i,
        {
            proof {
                assert(items.take(i + 1).drop_last() =~= items.take(i as int));
                assert(items.take(i + 1).last() == item_view(input@[i as int]));
            }
            match &input[i] {
                Err(e) => {
                    proof {
                        lemma_groups_after_error(exprs, args, start, items, i + 1);
                    }
                    return Err(e.copy());
                },
                Ok(batch) => {
                    if batch.num_rows() != 0 {
                        let columns = match self.arguments(batch) {
                            Ok(v) => v,
                            Err(e) => {
                                proof {
                                    lemma_groups_after_error(exprs, args, start, items, i + 1);
                                }
                                return Err(e);
                            },
                        };
                        let keys = match evaluate_all(&self.group_exprs, batch) {
                            Ok(v) => v,
                            Err(e) => {
                                proof {
                                    lemma_groups_after_error(exprs, args, start, items, i + 1);
                                }
                                return Err(e);
                            },
                        };
                        assert(column_rows(array_views(keys@)) == batch@.num_rows) by {
                            assert(keys@[0]@.values.len() == batch@.num_rows);
                        }
                        match table.update_batch(&keys, &columns) {
                            Ok(_) => {},
                            Err(e) => {
                                proof {
                                    lemma_groups_after_error(exprs, args, start, items, i + 1);
                                }
                                return Err(e);
                            },
                        }
                    }
                },
            }
            i = i + 1;
        }
        assert(items.take(i as int) =~= items);
        let ghost t = table@;
        let (rows, aggs) = match table.finish() {
            Ok(pair) => pair,
            Err(e) => {
                return Err(e);
            },
        };
        let ghost outs = Seq::new(aggs@.len(), |a: int| typed(aggs@[a]@));
        let width: usize = self.group_types.len();
        let fields = self.schema.fields();
        if fields.len() < width {
            return Err(
                BasaltError::internal_with("the schema lacks fields for ", width, " groups"),
            );
        }
        let mut out: Vec<ArrayRef> = Vec::new();
        let ghost group_part = Seq::new(t.types.len(), |c: int| group_column(t, c));
        let mut c: usize = 0;
        assert(array_views(out@) =~= group_part.take(0));
        while c < width
            invariant
                c <= width,
                width == t.types.len(),
                t.types == self.group_types@,
                group_part == Seq::new(t.types.len(), |c: int| group_column(t, c)),
                rows@.len() == t.groups.len(),
                forall|g: int|
                    0 <= g < rows@.len() ==> typed(#[trigger] rows@[g]@) == Seq::new(
                        t.types.len(),
                        |c: int| (t.types[c], t.groups[g][c]),
                    ),
                array_views(out@) == group_part.take(c as int),
            decreases width - c,
        {
            let mut column = Array::empty(self.group_types[c]);
            let mut g: usize = 0;
            let ghost want = group_column(t, c as int);
            assert(column@.values =~= want.values.take(0));
            while g < rows.len()
                invariant
                    g <= rows@.len(),
                    c < width,
                    width == t.types.len(),
                    rows@.len() == t.groups.len(),
                    forall|g: int|
                        0 <= g < rows@.len() ==> typed(#[trigger] rows@[g]@) == Seq::new(
                            t.types.len(),
                            |c: int| (t.types[c], t.groups[g][c]),
                        ),
                    want == group_column(t, c as int),
                    column@.data_type == t.types[c as int],
                    column@.values == want.values.take(g as int),
                decreases rows@.len() - g,
            {
                proof {
                    let row = rows@[g as int]@;
                    assert(typed(row).len() == t.types.len());
                    assert(typed(row)[c as int] == (t.types[c as int], t.groups[g as int][c as int]));
                }
                column.push(rows[g][c].to_value());
                assert(want.values.take(g + 1) =~= want.values.take(g as int).push(
                    want.values[g as int],
                ));
                g = g + 1;
            }
            assert(want.values.take(g as int) =~= want.values);
            let ghost was = array_views(out@);
            out.push(Arc::new(column));
            proof {
                assert(array_views(out@) =~= was.push(want));
                assert(group_part.take(c + 1) =~= group_part.take(c as int).push(want));
            }
            c = c + 1;
        }
        assert(group_part.take(c as int) =~= group_part);
        let ghost n = lesser(outs.len(), (self.schema@.len() - t.types.len()) as nat);
        let ghost agg_part = output_part(outs, self.schema@, t.types.len(), n);
        let mut a: usize = 0;
        assert(array_views(out@) =~= group_part + agg_part.take(0));
        while a < aggs.len() && a < fields.len() - width
            invariant
                a <= n,
                width == t.types.len(),
                width <= fields@.len(),
                fields@.len() == self.schema@.len(),
                forall|k: int| 0 <= k < fields@.len() ==> (#[trigger] fields@[k])@ == self.schema@[k],
                outs == Seq::new(aggs@.len(), |a: int| typed(aggs@[a]@)),
                n == lesser(outs.len(), (self.schema@.len() - t.types.len()) as nat),
                agg_part == output_part(outs, self.schema@, t.types.len(), n),
                array_views(out@) == group_part + agg_part.take(a as int),
                forall|k: int|
                    0 <= k < a ==> all_typed(
                        #[trigger] outs[k],
                        self.schema@[t.types.len() + k].data_type,
                    ),
                group_columns(t, outs, self.schema@) is Ok <==> forall|k: int|
                    0 <= k < n ==> all_typed(
                        #[trigger] outs[k],
                        self.schema@[t.types.len() + k].data_type,
                    ),
                group_columns(t, outs, self.schema@) is Err ==> group_columns(
                    t,
                    outs,
                    self.schema@,
                ) == Err::<Seq<ArrayView>, ErrorKind>(ErrorKind::Internal),
                groups_after(
                    expr_list(self.group_exprs@),
                    self.arg_views(),
                    start,
                    stream_view(input@),
                ) == Ok::<GroupsView, ErrorKind>(t),
                all_outputs(t.states, t.states.len()) == Ok::<
                    Seq<Seq<(DataType, ValueView)>>,
                    ErrorKind,
                >(outs),
                start == no_groups(
                    self.group_types@,
                    aggregate_factories(self.agg_kinds@, self.agg_arg_types@, self.arg_views()),
                ),
            decreases aggs@.len() - a,
        {
            let field = &fields[width + a];
            assert(fields@[width + a]@ == self.schema@[width + a]);
            assert(outs[a as int] == typed(aggs@[a as int]@));
            match scalars_to_array(&aggs[a], field.data_type) {
                Err(e) => {
                    assert(!all_typed(outs[a as int], self.schema@[t.types.len() + a].data_type));
                    return Err(e);
                },
                Ok(column) => {
                    let ghost was = array_views(out@);
                    out.push(column);
                    proof {
                        assert(array_views(out@) =~= was.push(column@));
                        assert(column@ == agg_part[a as int]);
                        assert(group_part + agg_part.take(a + 1) =~= (group_part + agg_part.take(
                            a as int,
                        )).push(agg_part[a as int]));
                    }
                },
            }
            a = a + 1;
        }
        assert(agg_part.take(a as int) =~= agg_part);
        Ok(out)
    }
}

/// Folds argument columns into accumulators, one each.
fn update_flat(accs: &mut Vec<Accumulator>, columns: &Vec<ArrayRef>) -> (r: Result<(), BasaltError>)
    requires
        old(accs)@.len() <= columns@.len(),
    ensures
        final(accs)@.len() == old(accs)@.len(),
        match r {
            Ok(_) => flat_update(
                state_views(old(accs)@),
                array_views(columns@),
                old(accs)@.len(),
            ) == Ok::<Seq<AccumulatorView>, ErrorKind>(state_views(final(accs)@)),
            Err(e) => flat_update(
                state_views(old(accs)@),
                array_views(columns@),
                old(accs)@.len(),
            ) == Err::<Seq<AccumulatorView>, ErrorKind>(e@),
        },
{
    let ghost before = state_views(accs@);
    let ghost views = array_views(columns@);
    let mut c: usize = 0;
    assert(state_views(accs@).take(0) =~= seq![]);
    while c < accs.len()
        invariant
            c <= accs@.len(),
            accs@.len() == before.len(),
            accs@.len() == old(accs)@.len(),
            accs@.len() <= columns@.len(),
            before == state_views(old(accs)@),
            views == array_views(columns@),
            flat_update(before, views, c as nat) == Ok::<Seq<AccumulatorView>, ErrorKind>(
                state_views(accs@).take(c as int),
            ),
            forall|k: int| c <= k < accs@.len() ==> (#[trigger] accs@[k])@ == before[k],
        decreases accs@.len() - c,
    {
        let mut one: Vec<ArrayRef> = Vec::new();
        one.push(share(&columns[c]));
        let ghost was = state_views(accs@);
        proof {
            assert(accs@[c as int]@ == before[c as int]);
            assert(views[c as int] == columns@[c as int]@);
        }
        match accs[c].update_batch(&one) {
            Ok(_) => {
                proof {
                    let now = state_views(accs@);
                    assert(now.take(c + 1) =~= was.take(c as int).push(now[c as int]));
                }
            },
            Err(e) => {
                proof {
                    lemma_flat_update_error(before, views, (c + 1) as nat, before.len());
                }
                return Err(e);
            },
        }
        c = c + 1;
    }
    assert(state_views(accs@).take(c as int) =~= state_views(accs@));
    Ok(())
}

} // verus!
