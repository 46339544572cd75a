//! The nested loop join, for predicates that no hash can serve. It takes time
//! proportional to the product of both sides' rows, and does inner joins only.
//! Each build row is set against the whole probe side at once.

use std::sync::Arc;
use vstd::prelude::*;

use crate::array::{share, ArrayRef};
use crate::batch::{array_views, batch_of, columns_fit, BatchView, ColumnarBatch};
use crate::compute::indices_below;
use crate::error::{BasaltError, ErrorKind};
use crate::physical_expr::expr::{PhysicalExprRef, PhysicalExprView};
use crate::physical_plan::aggregate::single_batch;
use crate::physical_plan::join::hash_join::{
    build_indices, build_side, join_columns, joined_columns, pairs_below, probe_indices, probe_side,
};
use crate::physical_plan::plan::{
    eval_rows, evaluate_rows, exec_children, exec_schema, materialize, plan_views, push_taken,
    rebuilt, run, stream_view, take_columns, BatchStream, ExecView, ExecutionPlan,
    ExecutionPlanRef,
};
use crate::types::data_type::DataType;
use crate::types::schema::{FieldView, SchemaRef};
use crate::types::value::{Value, ValueView};

verus! {

/// Build row `i` beside every probe row.
pub open spec fn broadcast_columns(b: BatchView, p: BatchView, i: int) -> Seq<
    crate::array::ArrayView,
> {
    take_columns(b.columns, Seq::new(p.num_rows, |k: int| Some(i as usize))) + p.columns
}

/// The predicate's value for build row `i` and each probe row.
pub open spec fn match_mask(
    b: BatchView,
    p: BatchView,
    predicate: PhysicalExprView,
    schema: Seq<FieldView>,
    i: int,
) -> Result<Seq<ValueView>, ErrorKind> {
    let columns = broadcast_columns(b, p, i);
    if !columns_fit(schema, columns) {
        Err(ErrorKind::Internal)
    } else {
        match eval_rows(predicate, batch_of(schema, columns)) {
            Err(k) => Err(k),
            Ok(a) => if a.data_type != DataType::Boolean {
                Err(ErrorKind::Type)
            } else {
                Ok(a.values)
            },
        }
    }
}

/// The pairs of a build row with those of the first `n` probe rows whose mask
/// is true.
pub open spec fn true_pairs(mask: Seq<ValueView>, build: int, n: nat) -> Seq<(usize, usize)>
    decreases n,
{
    if n == 0 {
        seq![]
    } else {
        let before = true_pairs(mask, build, (n - 1) as nat);
        if mask[n - 1] == ValueView::Boolean(true) {
            before.push((build as usize, (n - 1) as usize))
        } else {
            before
        }
    }
}

/// The pairs of the first `n` build rows that the predicate holds for, or the
/// first error.
pub open spec fn nested_pairs(
    b: BatchView,
    p: BatchView,
    predicate: PhysicalExprView,
    schema: Seq<FieldView>,
    n: nat,
) -> Result<Seq<(usize, usize)>, ErrorKind>
    decreases n,
{
    if n == 0 {
        Ok(seq![])
    } else {
        match nested_pairs(b, p, predicate, schema, (n - 1) as nat) {
            Err(k) => Err(k),
            Ok(before) => match match_mask(b, p, predicate, schema, n - 1) {
                Err(k) => Err(k),
                Ok(mask) => Ok(before + true_pairs(mask, n - 1, p.num_rows)),
            },
        }
    }
}

/// What a nested loop join produces from its two sides. The predicate is not
/// evaluated when a side is empty.
pub open spec fn run_nested_loop(
    b: BatchView,
    p: BatchView,
    predicate: PhysicalExprView,
    schema: Seq<FieldView>,
) -> Result<Seq<Result<BatchView, ErrorKind>>, ErrorKind> {
    let found = if b.num_rows > 0 && p.num_rows > 0 {
        nested_pairs(b, p, predicate, schema, b.num_rows)
    } else {
        Ok(seq![])
    };
    match found {
        Err(k) => Err(k),
        Ok(pairs) => single_batch(
            schema,
            joined_columns(b, p, build_side(pairs), probe_side(pairs)),
        ),
    }
}

proof fn lemma_nested_error(
    b: BatchView,
    p: BatchView,
    predicate: PhysicalExprView,
    schema: Seq<FieldView>,
    m: nat,
    n: nat,
)
    requires
        m <= n,
        nested_pairs(b, p, predicate, schema, m) is Err,
    ensures
        nested_pairs(b, p, predicate, schema, n) == nested_pairs(b, p, predicate, schema, m),
    decreases n - m,
{
    if m < n {
        lemma_nested_error(b, p, predicate, schema, m, (n - 1) as nat);
    }
}

#[derive(Debug)]
pub struct NestedLoopJoinExec {
    pub build: ExecutionPlanRef,
    pub probe: ExecutionPlanRef,
    /// Over the columns of the build side followed by those of the probe side.
    pub predicate: PhysicalExprRef,
    pub schema: SchemaRef,
}

impl NestedLoopJoinExec {
    pub open spec fn node(&self) -> ExecView {
        ExecView::NestedLoopJoin {
            build: Box::new(self.build@),
            probe: Box::new(self.probe@),
            predicate: self.predicate@,
            schema: self.schema@,
        }
    }

    pub fn new(
        build: ExecutionPlanRef,
        probe: ExecutionPlanRef,
        predicate: PhysicalExprRef,
        schema: SchemaRef,
    ) -> (r: NestedLoopJoinExec)
        ensures
            r == (NestedLoopJoinExec { build, probe, predicate, schema }),
    {
        NestedLoopJoinExec { build, probe, predicate, schema }
    }

    pub fn schema(&self) -> (r: SchemaRef)
        ensures
            r@ == exec_schema(self.node()),
    {
        share(&self.schema)
    }

    pub fn children(&self) -> (r: Vec<ExecutionPlanRef>)
        ensures
            plan_views(r@) == exec_children(self.node()),
    {
        let mut v: Vec<ExecutionPlanRef> = Vec::new();
        v.push(share(&self.build));
        v.push(share(&self.probe));
        assert(plan_views(v@) =~= seq![self.build@, self.probe@]);
        v
    }

    /// # Errors
    /// An internal error unless there are exactly two children.
    pub fn with_new_children(&self, children: Vec<ExecutionPlanRef>) -> (r: Result<
        ExecutionPlanRef,
        BasaltError,
    >)
        ensures
            rebuilt(self.node(), plan_views(children@), r),
    {
        if children.len() != 2 {
            return Err(
                BasaltError::internal_with(
                    "NestedLoopJoinExec takes exactly 2 children, got ",
                    children.len(),
                    "",
                ),
            );
        }
        proof {
            assert(plan_views(children@)[0] == children@[0]@);
            assert(plan_views(children@)[1] == children@[1]@);
        }
        Ok(
            Arc::new(
                ExecutionPlan::NestedLoopJoin(
                    NestedLoopJoinExec::new(
                        share(&children[0]),
                        share(&children[1]),
                        share(&self.predicate),
                        share(&self.schema),
                    ),
                ),
            ),
        )
    }

    /// The predicate's values for one build row.
    fn mask_of(&self, build: &ColumnarBatch, probe: &ColumnarBatch, row: usize) -> (r: Result<
        ArrayRef,
        BasaltError,
    >)
        requires
            row < build@.num_rows,
        ensures
            match r {
                Ok(a) => match_mask(build@, probe@, self.predicate@, self.schema@, row as int)
                    == Ok::<Seq<ValueView>, ErrorKind>(a@.values) && a@.values.len()
                    == probe@.num_rows,
                Err(e) => match_mask(build@, probe@, self.predicate@, self.schema@, row as int)
                    == Err::<Seq<ValueView>, ErrorKind>(e@),
            },
    {
        let pn: usize = probe.num_rows();
        let mut index: Vec<Option<usize>> = Vec::new();
        let mut i: usize = 0;
        while i < pn
            invariant
                i <= pn,
                index@.len() == i,
                forall|k: int| 0 <= k < i ==> #[trigger] index@[k] == Some(row),
            decreases pn - i,
        {
            index.push(Some(row));
            i = i + 1;
        }
        assert(index@ =~= Seq::new(probe@.num_rows, |k: int| Some(row)));
        let mut columns: Vec<ArrayRef> = Vec::new();
        assert(array_views(columns@) =~= seq![]);
        let width: usize = build.num_columns();
        push_taken(&mut columns, build, &index);
        let ghost left = take_columns(build@.columns, index@);
        let n: usize = probe.num_columns();
        let mut c: usize = 0;
        assert(array_views(columns@) =~= left + probe@.columns.take(0));
        while c < n
            invariant
                c <= n,
                n == probe@.columns.len(),
                array_views(columns@) == left + probe@.columns.take(c as int),
            decreases n - c,
        {
            match probe.column(c) {
                Some(a) => {
                    let ghost was = array_views(columns@);
                    columns.push(share(a));
                    proof {
                        assert(array_views(columns@) =~= was.push(a@));
                        assert(left + probe@.columns.take(c + 1) =~= (left + probe@.columns.take(
                            c as int,
                        )).push(a@));
                    }
                },
                None => {
                    assert(false);
                },
            }
            c = c + 1;
        }
        assert(probe@.columns.take(c as int) =~= probe@.columns);
        let combined = match ColumnarBatch::try_new(share(&self.schema), columns) {
            Ok(b) => b,
            Err(e) => {
                return Err(e);
            },
        };
        assert(combined@.num_rows == probe@.num_rows) by {
            assert(build@.columns.len() > 0);
            assert(combined@.columns[0] == left[0]);
        }
        let matched = match evaluate_rows(&self.predicate, &combined) {
            Ok(a) => a,
            Err(e) => {
                return Err(e);
            },
        };
        if matched.data_type() != DataType::Boolean {
            return Err(
                BasaltError::type_of(
                    "a join predicate must be boolean, found ",
                    matched.data_type().name(),
                ),
            );
        }
        Ok(matched)
    }

    /// Joins the two sides.
    pub fn execute(&self, partition: usize) -> (r: Result<BatchStream, BasaltError>)
        ensures
            match r {
                Ok(s) => run(self.node(), partition) == Ok::<
                    Seq<Result<BatchView, ErrorKind>>,
                    ErrorKind,
                >(stream_view(s@)),
                Err(e) => run(self.node(), partition) == Err::<
                    Seq<Result<BatchView, ErrorKind>>,
                    ErrorKind,
                >(e@),
            },
        decreases self, 1int,
    {
        let build = match materialize(&self.build, partition) {
            Ok(b) => b,
            Err(e) => {
                return Err(e);
            },
        };
        let probe = match materialize(&self.probe, partition) {
            Ok(b) => b,
            Err(e) => {
                return Err(e);
            },
        };
        let bn: usize = build.num_rows();
        let pn: usize = probe.num_rows();
        let ghost pred = self.predicate@;
        let ghost sch = self.schema@;
        let mut pairs: Vec<(usize, usize)> = Vec::new();
        if bn > 0 && pn > 0 {
            let mut b: usize = 0;
            while b < bn
                invariant
                    b <= bn,
                    bn == build@.num_rows,
                    pn == probe@.num_rows,
                    bn > 0,
                    pn > 0,
                    pred == self.predicate@,
                    sch == self.schema@,
                    nested_pairs(build@, probe@, pred, sch, b as nat) == Ok::<
                        Seq<(usize, usize)>,
                        ErrorKind,
                    >(pairs@),
                    pairs_below(pairs@, bn as nat, pn as nat),
                    run(self.node(), partition) == run_nested_loop(build@, probe@, pred, sch),
                decreases bn - b,
            {
                let mask = match self.mask_of(&build, &probe, b) {
                    Ok(m) => m,
                    Err(e) => {
                        proof {
                            lemma_nested_error(
                                build@,
                                probe@,
                                pred,
                                sch,
                                (b + 1) as nat,
                                bn as nat,
                            );
                        }
                        return Err(e);
                    },
                };
                let ghost before = pairs@;
                let mut p: usize = 0;
                assert(before + true_pairs(mask@.values, b as int, 0) =~= before);
                while p < pn
                    invariant
                        p <= pn,
                        b < bn,
                        mask@.values.len() == pn,
                        pairs@ == before + true_pairs(mask@.values, b as int, p as nat),
                        pairs_below(pairs@, bn as nat, pn as nat),
                    decreases pn - p,
                {
                    let ghost was = pairs@;
                    if matches!(mask.value(p), Value::Boolean(true)) {
                        pairs.push((b, p));
                        assert(pairs@ =~= before + true_pairs(
                            mask@.values,
                            b as int,
                            (p + 1) as nat,
                        ));
                    }
                    p = p + 1;
                }
                b = b + 1;
            }
        }
        let build_rows = build_indices(&pairs);
        let probe_rows = probe_indices(&pairs);
        proof {
            assert(indices_below(build_rows@, build@.num_rows));
            assert(indices_below(probe_rows@, probe@.num_rows));
        }
        let columns = join_columns(&build, &probe, &build_rows, &probe_rows);
        match ColumnarBatch::try_new(share(&self.schema), columns) {
            Err(e) => Err(e),
            Ok(b) => {
                let mut out: BatchStream = Vec::new();
                out.push(Ok(b));
                assert(stream_view(out@) =~= seq![Ok(b@)]);
                Ok(out)
            },
        }
    }
}

} // verus!
