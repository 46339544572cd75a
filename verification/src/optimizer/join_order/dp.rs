//! The best join order, by dynamic programming over sets of relations: the best
//! plan for a set joins the best plans for the two parts of one of its splits.
//! A split that no edge crosses would be a cross product and is not considered.

use std::collections::HashMap;
use std::sync::Arc;
use vstd::prelude::*;

use crate::array::share;
use crate::error::{BasaltError, ErrorKind};
use crate::expr::expr::{Expr, ExprView};
use crate::float64::Float64;
use crate::logical_plan::plan::{pair_views, plan_schema, JoinType, LogicalPlan, PlanView};
use crate::optimizer::cardinality::column_pairs;
use crate::optimizer::cardinality::join_card::{join_cardinality, join_estimate};
use crate::optimizer::cost::model::{combined, free, weighed, Cost, CostWeights};
use crate::optimizer::cost::operators::{hash_join_cost, hash_join_estimate};
use crate::optimizer::join_order::graph::{
    first_relations, fits, full_set, holds, is_single, lemma_has_ops, lemma_has_single,
    lemma_member, lemma_next_part, lemma_single_is_whole, lemma_split, linked, links_between,
    member, next_part, part_of, rest, single, singleton, splits, GraphView, JoinEdge, JoinGraph,
    RelationSet,
};
use crate::statistics::{
    column_stats_views, copy_column_stats, ColumnStatistics, ColumnStatsView, Precision,
    TableStatistics, TableStatsView,
};
use crate::types::schema::{field_views, Field, FieldView, Schema};

pub use crate::optimizer::join_order::dpccp::DpccpJoinOptimizer;
pub use crate::optimizer::join_order::subsets::enumerate_connected_subsets;

verus! {

broadcast use vstd::std_specs::hash::group_hash_axioms;

// ---------------------------------------------------------------------------
// Candidates

/// A plan for a set of relations, with what the next join on top of it needs to
/// know.
pub struct PlanCandidate {
    pub plan: Arc<LogicalPlan>,
    pub cost: Cost,
    pub cardinality: Precision<usize>,
    /// For each output column its relation and its place there.
    pub column_order: Vec<(usize, usize)>,
    /// For each output column what is known of it.
    pub column_statistics: Vec<ColumnStatistics>,
}

/// The model of a candidate.
pub struct CandidateView {
    pub plan: PlanView,
    pub cost: Cost,
    pub cardinality: Precision<usize>,
    pub column_order: Seq<(usize, usize)>,
    pub columns: Seq<ColumnStatsView>,
}

impl PlanCandidate {
    pub open spec fn view(&self) -> CandidateView {
        CandidateView {
            plan: self.plan@,
            cost: self.cost,
            cardinality: self.cardinality,
            column_order: self.column_order@,
            columns: column_stats_views(self.column_statistics@),
        }
    }

    pub fn copy(&self) -> (r: PlanCandidate)
        ensures
            r@ == self@,
    {
        PlanCandidate {
            plan: share(&self.plan),
            cost: self.cost,
            cardinality: self.cardinality,
            column_order: copy_order(&self.column_order),
            column_statistics: copy_column_stats(&self.column_statistics),
        }
    }
}

impl Clone for PlanCandidate {
    fn clone(&self) -> (r: PlanCandidate)
        ensures
            r@ == self@,
    {
        self.copy()
    }
}

fn copy_order(v: &Vec<(usize, usize)>) -> (r: Vec<(usize, usize)>)
    ensures
        r@ == v@,
{
    let mut out: Vec<(usize, usize)> = Vec::new();
    let mut i: usize = 0;
    assert(v@.take(0) =~= seq![]);
    while i < v.len()
        invariant
            i <= v@.len(),
            out@ == v@.take(i as int),
        decreases v@.len() - i,
    {
        out.push(v[i]);
        assert(v@.take(i + 1) =~= v@.take(i as int).push(v@[i as int]));
        i = i + 1;
    }
    assert(v@.take(i as int) =~= v@);
    out
}

/// The number of columns of a relation.
pub open spec fn width(g: GraphView, r: int) -> int {
    plan_schema(g.relations[r].plan).len() as int
}

/// A relation by itself.
pub open spec fn base(g: GraphView, i: int) -> CandidateView {
    CandidateView {
        plan: g.relations[i].plan,
        cost: free(),
        cardinality: g.relations[i].stats.num_rows,
        column_order: Seq::new(width(g, i) as nat, |c: int| (i as usize, c as usize)),
        columns: g.relations[i].stats.columns,
    }
}

/// Whether a candidate's columns are columns of the graph's relations.
pub open spec fn candidate_ok(g: GraphView, c: CandidateView) -> bool {
    forall|k: int|
        0 <= k < c.column_order.len() ==> {
            &&& (#[trigger] c.column_order[k]).0 < g.relations.len()
            &&& c.column_order[k].1 < width(g, c.column_order[k].0 as int)
        }
}

/// The relations of the first `n` columns.
pub open spec fn relations_of(order: Seq<(usize, usize)>, n: nat) -> RelationSet
    decreases n,
{
    if n == 0 {
        0
    } else {
        relations_of(order, (n - 1) as nat) | single(order[n - 1].0 as int)
    }
}

/// Where a relation's column stands among the first `n`.
pub open spec fn place_of(order: Seq<(usize, usize)>, c: (usize, usize), n: nat) -> Option<int>
    decreases n,
{
    if n == 0 {
        None
    } else {
        match place_of(order, c, (n - 1) as nat) {
            Some(i) => Some(i),
            None => if order[n - 1] == c {
                Some(n - 1)
            } else {
                None
            },
        }
    }
}

/// The field of a relation's column.
pub open spec fn field_of(g: GraphView, c: (usize, usize)) -> FieldView {
    plan_schema(g.relations[c.0 as int].plan)[c.1 as int]
}

/// A column of a candidate as an expression.
pub open spec fn column_of(g: GraphView, c: (usize, usize), at: int) -> ExprView {
    ExprView::Column {
        index: at as usize,
        data_type: field_of(g, c).data_type,
        nullable: field_of(g, c).nullable,
    }
}

/// An edge as a pair of keys over the two candidates' columns.
pub open spec fn key_of(g: GraphView, e: JoinEdge, l: CandidateView, r: CandidateView) -> Result<
    (ExprView, ExprView),
    ErrorKind,
> {
    let a = (e.left_relation, e.left_column);
    let b = (e.right_relation, e.right_column);
    match (
        place_of(l.column_order, a, l.column_order.len()),
        place_of(r.column_order, b, r.column_order.len()),
    ) {
        (Some(i), Some(j)) => Ok((column_of(g, a, i), column_of(g, b, j))),
        _ => Err(ErrorKind::Internal),
    }
}

/// The first `n` edges as keys.
pub open spec fn keys_of(
    g: GraphView,
    edges: Seq<JoinEdge>,
    l: CandidateView,
    r: CandidateView,
    n: nat,
) -> Result<Seq<(ExprView, ExprView)>, ErrorKind>
    decreases n,
{
    if n == 0 {
        Ok(seq![])
    } else {
        match keys_of(g, edges, l, r, (n - 1) as nat) {
            Err(k) => Err(k),
            Ok(before) => match key_of(g, edges[n - 1], l, r) {
                Err(k) => Err(k),
                Ok(pair) => Ok(before.push(pair)),
            },
        }
    }
}

/// What a row count is taken to be where it is not known: the bits of 1000.
pub const UNKNOWN_ROWS: u64 = 0x408F_4000_0000_0000;

/// The bytes a column is taken to be wide: the bits of 8.
pub const COLUMN_WIDTH: u64 = 0x4020_0000_0000_0000;

/// A row count as a double.
pub open spec fn rows_of(p: Precision<usize>) -> Float64 {
    match p.value() {
        Some(n) => Float64::spec_from_int(n as int),
        None => Float64 { bits: UNKNOWN_ROWS },
    }
}

/// A candidate's statistics.
pub open spec fn stats_of(c: CandidateView) -> TableStatsView {
    TableStatsView {
        num_rows: c.cardinality,
        total_byte_size: Precision::Absent,
        columns: c.columns,
    }
}

/// The edges between two candidates.
pub open spec fn edges_of(g: GraphView, l: CandidateView, r: CandidateView) -> Seq<JoinEdge> {
    links_between(
        g.edges,
        relations_of(l.column_order, l.column_order.len()),
        relations_of(r.column_order, r.column_order.len()),
        g.edges.len(),
    )
}

/// Two candidates joined on keys.
pub open spec fn joined_on(
    g: GraphView,
    l: CandidateView,
    r: CandidateView,
    on: Seq<(ExprView, ExprView)>,
) -> CandidateView {
    let rows = join_estimate(
        stats_of(l),
        stats_of(r),
        column_pairs(on, on.len()),
        JoinType::Inner,
    );
    let order = l.column_order + r.column_order;
    CandidateView {
        plan: PlanView::Join {
            left: Box::new(l.plan),
            right: Box::new(r.plan),
            on,
            filter: None,
            join_type: JoinType::Inner,
            schema: Seq::new(order.len(), |k: int| field_of(g, order[k])),
        },
        cost: combined(
            combined(l.cost, r.cost),
            hash_join_estimate(
                rows_of(l.cardinality),
                rows_of(r.cardinality),
                rows_of(rows),
                Float64::spec_from_int(l.column_order.len() as int).spec_mul(
                    Float64 { bits: COLUMN_WIDTH },
                ),
            ),
        ),
        cardinality: rows,
        column_order: order,
        columns: l.columns + r.columns,
    }
}

/// Two candidates joined on every edge between them.
pub open spec fn joined(g: GraphView, l: CandidateView, r: CandidateView) -> Result<
    CandidateView,
    ErrorKind,
> {
    let edges = edges_of(g, l, r);
    if edges.len() == 0 {
        Err(ErrorKind::Internal)
    } else {
        match keys_of(g, edges, l, r, edges.len()) {
            Err(k) => Err(k),
            Ok(on) => Ok(joined_on(g, l, r, on)),
        }
    }
}

// ---------------------------------------------------------------------------
// The best candidate

/// The cheaper of two candidates, the first where neither is.
pub open spec fn cheaper(
    w: CostWeights,
    a: Option<CandidateView>,
    b: Option<CandidateView>,
) -> Option<CandidateView> {
    match (a, b) {
        (_, None) => a,
        (None, Some(_)) => b,
        (Some(x), Some(y)) => if weighed(y.cost, w).num_lt(weighed(x.cost, w)) {
            b
        } else {
            a
        },
    }
}

/// Two candidates joined, where both are there and can be joined.
pub open spec fn joined_option(
    g: GraphView,
    l: Option<CandidateView>,
    r: Option<CandidateView>,
) -> Option<CandidateView> {
    match (l, r) {
        (Some(x), Some(y)) => match joined(g, x, y) {
            Ok(c) => Some(c),
            Err(k) => None,
        },
        _ => None,
    }
}

/// The best candidates for the two parts of a split, joined. Of the two ways to
/// write a split one is considered.
pub open spec fn split_candidate(
    g: GraphView,
    w: CostWeights,
    s: RelationSet,
    a: RelationSet,
) -> Option<CandidateView>
    decreases s, 0int,
{
    if splits(a, s) && a < rest(s, a) && linked(g.edges, a, rest(s, a)) {
        proof {
            lemma_split(a, s);
        }
        joined_option(g, best(g, w, a), best(g, w, rest(s, a)))
    } else {
        None
    }
}

/// The cheapest of a candidate and those of the splits from `sub` downwards.
pub open spec fn best_among(
    g: GraphView,
    w: CostWeights,
    s: RelationSet,
    sub: RelationSet,
    so_far: Option<CandidateView>,
) -> Option<CandidateView>
    decreases s, sub as int,
{
    if sub == 0 || !splits(sub, s) {
        so_far
    } else {
        proof {
            lemma_next_part(s, sub, 0);
        }
        best_among(
            g,
            w,
            s,
            next_part(s, sub),
            cheaper(w, so_far, split_candidate(g, w, s, sub)),
        )
    }
}

/// The best candidate for a set: the relation itself where there is one; else
/// the cheapest join of the best candidates for the parts of a split. `None`
/// where only a cross product would join them all.
pub open spec fn best(g: GraphView, w: CostWeights, s: RelationSet) -> Option<CandidateView>
    decreases s, u64::MAX + 1,
{
    if is_single(s) {
        if member(s) < g.relations.len() {
            Some(base(g, member(s)))
        } else {
            None
        }
    } else if s == 0 {
        None
    } else {
        best_among(g, w, s, next_part(s, s), None)
    }
}

// ---------------------------------------------------------------------------
// The optimizer

pub struct DpJoinOptimizer<'a> {
    pub graph: &'a JoinGraph,
    pub weights: &'a CostWeights,
}

/// The outcome of joining.
pub open spec fn candidate_outcome(r: Result<PlanCandidate, BasaltError>) -> Result<
    CandidateView,
    ErrorKind,
> {
    match r {
        Ok(c) => Ok(c@),
        Err(e) => Err(e@),
    }
}

/// The model of a candidate, where there is one.
pub open spec fn candidate_view(c: Option<PlanCandidate>) -> Option<CandidateView> {
    match c {
        Some(x) => Some(x@),
        None => None,
    }
}

pub proof fn lemma_place_of(order: Seq<(usize, usize)>, c: (usize, usize), n: nat)
    requires
        n <= order.len(),
    ensures
        match place_of(order, c, n) {
            Some(i) => 0 <= i < n && order[i] == c,
            None => forall|i: int| 0 <= i < n ==> #[trigger] order[i] != c,
        },
    decreases n,
{
    if n > 0 {
        lemma_place_of(order, c, (n - 1) as nat);
    }
}

proof fn lemma_place_found(order: Seq<(usize, usize)>, c: (usize, usize), m: nat, n: nat)
    requires
        m <= n,
        place_of(order, c, m) is Some,
    ensures
        place_of(order, c, n) == place_of(order, c, m),
    decreases n - m,
{
    if m < n {
        lemma_place_found(order, c, m, (n - 1) as nat);
    }
}

proof fn lemma_keys_error(
    g: GraphView,
    edges: Seq<JoinEdge>,
    l: CandidateView,
    r: CandidateView,
    m: nat,
    n: nat,
)
    requires
        m <= n,
        keys_of(g, edges, l, r, m) is Err,
    ensures
        keys_of(g, edges, l, r, n) == keys_of(g, edges, l, r, m),
    decreases n - m,
{
    if m < n {
        lemma_keys_error(g, edges, l, r, m, (n - 1) as nat);
    }
}

pub proof fn lemma_keys_are_columns(
    g: GraphView,
    edges: Seq<JoinEdge>,
    l: CandidateView,
    r: CandidateView,
    n: nat,
)
    requires
        keys_of(g, edges, l, r, n) is Ok,
    ensures
        ({
            let on = keys_of(g, edges, l, r, n)->Ok_0;
            &&& on.len() == n
            &&& column_pairs(on, on.len()).len() == n
            &&& forall|i: int|
                0 <= i < n ==> (#[trigger] on[i]).0 is Column && on[i].1 is Column
                    && column_pairs(on, on.len())[i] == (on[i].0->index, on[i].1->index)
        }),
    decreases n,
{
    if n > 0 {
        let m = (n - 1) as nat;
        lemma_keys_are_columns(g, edges, l, r, m);
        let before = keys_of(g, edges, l, r, m)->Ok_0;
        let on = keys_of(g, edges, l, r, n)->Ok_0;
        let pair = key_of(g, edges[m as int], l, r)->Ok_0;
        assert(on == before.push(pair));
        lemma_pairs_of_prefix(before, on, m);
    }
}

proof fn lemma_pairs_of_prefix(
    a: Seq<(ExprView, ExprView)>,
    b: Seq<(ExprView, ExprView)>,
    n: nat,
)
    requires
        n <= a.len(),
        n <= b.len(),
        forall|i: int| 0 <= i < n ==> #[trigger] a[i] == b[i],
    ensures
        column_pairs(a, n) == column_pairs(b, n),
    decreases n,
{
    if n > 0 {
        lemma_pairs_of_prefix(a, b, (n - 1) as nat);
        assert(a[n - 1] == b[n - 1]);
    }
}

impl<'a> DpJoinOptimizer<'a> {
    pub fn new(graph: &'a JoinGraph, weights: &'a CostWeights) -> (r: DpJoinOptimizer<'a>)
        ensures
            r.graph == graph,
            r.weights == weights,
    {
        DpJoinOptimizer { graph, weights }
    }

    /// A relation by itself.
    pub fn base_candidate(&self, i: usize) -> (r: PlanCandidate)
        requires
            i < self.graph@.relations.len(),
        ensures
            r@ == base(self.graph@, i as int),
            candidate_ok(self.graph@, r@),
    {
        let relation = &self.graph.relations[i];
        assert(self.graph@.relations[i as int] == relation@);
        let num_cols: usize = relation.plan.schema().len();
        let mut order: Vec<(usize, usize)> = Vec::new();
        let mut c: usize = 0;
        while c < num_cols
            invariant
                c <= num_cols,
                order@.len() == c,
                forall|k: int| 0 <= k < c ==> #[trigger] order@[k] == (i, k as usize),
            decreases num_cols - c,
        {
            order.push((i, c));
            c = c + 1;
        }
        let out = PlanCandidate {
            plan: share(&relation.plan),
            cost: Cost::zero(),
            cardinality: relation.stats.num_rows,
            column_order: order,
            column_statistics: copy_column_stats(&relation.stats.column_statistics),
        };
        assert(out@.column_order =~= base(self.graph@, i as int).column_order);
        out
    }

    /// An edge as a pair of keys over the two candidates' columns.
    fn edge_to_columns(&self, edge: &JoinEdge, left: &PlanCandidate, right: &PlanCandidate) -> (r:
        Result<(Expr, Expr), BasaltError>)
        requires
            candidate_ok(self.graph@, left@),
            candidate_ok(self.graph@, right@),
        ensures
            match r {
                Ok((a, b)) => key_of(self.graph@, *edge, left@, right@) == Ok::<
                    (ExprView, ExprView),
                    ErrorKind,
                >((a@, b@)),
                Err(e) => key_of(self.graph@, *edge, left@, right@) == Err::<
                    (ExprView, ExprView),
                    ErrorKind,
                >(e@),
            },
    {
        let a: (usize, usize) = (edge.left_relation, edge.left_column);
        let b: (usize, usize) = (edge.right_relation, edge.right_column);
        let i: usize = match position(&left.column_order, a) {
            Some(i) => i,
            None => {
                return Err(
                    BasaltError::internal("a join edge refers to a column not in the left subset"),
                );
            },
        };
        let j: usize = match position(&right.column_order, b) {
            Some(j) => j,
            None => {
                return Err(
                    BasaltError::internal("a join edge refers to a column not in the right subset"),
                );
            },
        };
        proof {
            lemma_place_of(left@.column_order, a, left@.column_order.len());
            lemma_place_of(right@.column_order, b, right@.column_order.len());
            assert(left@.column_order[i as int] == a);
            assert(right@.column_order[j as int] == b);
        }
        Ok((self.column(a, i), self.column(b, j)))
    }

    fn column(&self, c: (usize, usize), at: usize) -> (r: Expr)
        requires
            c.0 < self.graph@.relations.len(),
            c.1 < width(self.graph@, c.0 as int),
        ensures
            r@ == column_of(self.graph@, c, at as int),
    {
        assert(self.graph@.relations[c.0 as int] == self.graph.relations@[c.0 as int]@);
        let fields = self.graph.relations[c.0].plan.schema().fields();
        let field = &fields[c.1];
        Expr::Column { index: at, data_type: field.data_type, nullable: field.nullable }
    }

    /// Joins two candidates on every edge between them.
    ///
    /// # Errors
    /// An internal error where there is none, or where an edge refers to a
    /// column that its relation does not have.
    pub fn build_join(&self, left: &PlanCandidate, right: &PlanCandidate) -> (r: Result<
        PlanCandidate,
        BasaltError,
    >)
        requires
            fits(self.graph@),
            candidate_ok(self.graph@, left@),
            candidate_ok(self.graph@, right@),
        ensures
            candidate_outcome(r) == joined(self.graph@, left@, right@),
            r matches Ok(c) ==> candidate_ok(self.graph@, c@),
    {
        let ghost g = self.graph@;
        let left_mask = mask_of(&left.column_order, self.graph);
        let right_mask = mask_of(&right.column_order, self.graph);
        let edges = self.graph.edges_between(left_mask, right_mask);
        if edges.len() == 0 {
            return Err(BasaltError::internal("no join edge between these subsets"));
        }
        let mut on: Vec<(Expr, Expr)> = Vec::new();
        let mut pairs: Vec<(usize, usize)> = Vec::new();
        let mut i: usize = 0;
        assert(pair_views(on@) =~= seq![]);
        while i < edges.len()
            invariant
                i <= edges@.len(),
                g == self.graph@,
                edges@ == edges_of(g, left@, right@),
                edges@.len() > 0,
                candidate_ok(g, left@),
                candidate_ok(g, right@),
                keys_of(g, edges@, left@, right@, i as nat) == Ok::<
                    Seq<(ExprView, ExprView)>,
                    ErrorKind,
                >(pair_views(on@)),
                on@.len() == i,
                pairs@ == column_pairs(pair_views(on@), i as nat),
            decreases edges@.len() - i,
        {
            match self.edge_to_columns(&edges[i], left, right) {
                Ok((a, b)) => {
                    let ghost was = pair_views(on@);
                    match (&a, &b) {
                        (
                            Expr::Column { index: x, data_type: t, nullable: p },
                            Expr::Column { index: y, data_type: u, nullable: q },
                        ) => {
                            pairs.push((*x, *y));
                        },
                        _ => {},
                    }
                    on.push((a, b));
                    proof {
                        assert(pair_views(on@) =~= was.push((a@, b@)));
                        lemma_pairs_of_prefix(was, pair_views(on@), i as nat);
                    }
                },
                Err(e) => {
                    proof {
                        lemma_keys_error(
                            g,
                            edges@,
                            left@,
                            right@,
                            (i + 1) as nat,
                            edges@.len(),
                        );
                    }
                    return Err(e);
                },
            }
            i = i + 1;
        }
        proof {
            lemma_keys_are_columns(g, edges@, left@, right@, edges@.len());
            assert(pair_views(on@).len() == edges@.len());
        }
        let left_stats = TableStatistics {
            num_rows: left.cardinality,
            total_byte_size: Precision::Absent,
            column_statistics: copy_column_stats(&left.column_statistics),
        };
        let right_stats = TableStatistics {
            num_rows: right.cardinality,
            total_byte_size: Precision::Absent,
            column_statistics: copy_column_stats(&right.column_statistics),
        };
        assert(left_stats@ == stats_of(left@));
        assert(right_stats@ == stats_of(right@));
        let cardinality = join_cardinality(&left_stats, &right_stats, &pairs, JoinType::Inner);
        let row_width = Float64::from_u64(left.column_order.len() as u64).mul(
            Float64::from_bits(COLUMN_WIDTH),
        );
        let join_cost = hash_join_cost(
            rows_as_double(left.cardinality),
            rows_as_double(right.cardinality),
            rows_as_double(cardinality),
            row_width,
        );
        let cost = left.cost.combine(&right.cost).combine(&join_cost);
        let ghost order = left@.column_order + right@.column_order;
        let mut column_order = copy_order(&left.column_order);
        let mut k: usize = 0;
        assert(left@.column_order + right@.column_order.take(0) =~= left@.column_order);
        while k < right.column_order.len()
            invariant
                k <= right@.column_order.len(),
                column_order@ == left@.column_order + right@.column_order.take(k as int),
            decreases right@.column_order.len() - k,
        {
            column_order.push(right.column_order[k]);
            assert(left@.column_order + right@.column_order.take(k + 1) =~= (left@.column_order
                + right@.column_order.take(k as int)).push(right@.column_order[k as int]));
            k = k + 1;
        }
        assert(right@.column_order.take(k as int) =~= right@.column_order);
        let column_statistics = append_stats(&left.column_statistics, &right.column_statistics);
        let mut fields: Vec<Field> = Vec::new();
        let mut k: usize = 0;
        proof {
            assert forall|q: int| 0 <= q < order.len() implies {
                &&& (#[trigger] order[q]).0 < g.relations.len()
                &&& order[q].1 < width(g, order[q].0 as int)
            } by {
                let n = left@.column_order.len();
                if q < n {
                    assert(order[q] == left@.column_order[q]);
                } else {
                    assert(order[q] == right@.column_order[q - n]);
                }
            }
        }
        while k < column_order.len()
            invariant
                k <= column_order@.len(),
                g == self.graph@,
                column_order@ == order,
                forall|q: int|
                    0 <= q < order.len() ==> {
                        &&& (#[trigger] order[q]).0 < g.relations.len()
                        &&& order[q].1 < width(g, order[q].0 as int)
                    },
                fields@.len() == k,
                forall|q: int| 0 <= q < k ==> (#[trigger] fields@[q])@ == field_of(g, order[q]),
            decreases column_order@.len() - k,
        {
            let (rel, col): (usize, usize) = column_order[k];
            assert(order[k as int] == (rel, col));
            assert(g.relations[rel as int] == self.graph.relations@[rel as int]@);
            let own = self.graph.relations[rel].plan.schema().fields();
            fields.push(own[col].copy());
            k = k + 1;
        }
        let ghost fv = Seq::new(order.len(), |q: int| field_of(g, order[q]));
        assert(field_views(fields@) =~= fv);
        let schema = Arc::new(Schema::new_allow_duplicate_names(fields));
        let plan = LogicalPlan::Join {
            left: share(&left.plan),
            right: share(&right.plan),
            on,
            filter: None,
            join_type: JoinType::Inner,
            schema,
        };
        assert(plan@ == (PlanView::Join {
            left: Box::new(left@.plan),
            right: Box::new(right@.plan),
            on: pair_views(on@),
            filter: None,
            join_type: JoinType::Inner,
            schema: fv,
        }));
        let out = PlanCandidate {
            plan: Arc::new(plan),
            cost,
            cardinality,
            column_order,
            column_statistics,
        };
        assert(out@ == joined_on(g, left@, right@, pair_views(on@)));
        Ok(out)
    }

    /// The cheapest join of the best candidates for the parts of a split.
    fn best_split(&self, memo: &HashMap<RelationSet, PlanCandidate>, s: RelationSet) -> (r: Option<
        PlanCandidate,
    >)
        requires
            fits(self.graph@),
            s != 0,
            memo_ok(self.graph@, *self.weights, memo@, s as int),
        ensures
            candidate_view(r) == best_among(
                self.graph@,
                *self.weights,
                s,
                next_part(s, s),
                None,
            ),
            r matches Some(c) ==> candidate_ok(self.graph@, c@),
    {
        let ghost g = self.graph@;
        let ghost w = *self.weights;
        proof {
            lemma_next_part(s, s, 0);
        }
        let mut best: Option<PlanCandidate> = None;
        let mut s1: u64 = (s - 1) & s;
        while s1 != 0
            invariant
                fits(g),
                g == self.graph@,
                w == *self.weights,
                memo_ok(g, w, memo@, s as int),
                part_of(s1, s),
                s1 < s,
                best_among(g, w, s, s1, candidate_view(best)) == best_among(
                    g,
                    w,
                    s,
                    next_part(s, s),
                    None,
                ),
                best matches Some(c) ==> candidate_ok(g, c@),
            decreases s1,
        {
            let s2: u64 = s & !s1;
            proof {
                lemma_split(s1, s);
                lemma_next_part(s, s1, 0);
            }
            let ghost before = candidate_view(best);
            if s1 < s2 && self.graph.is_connected(s1, s2) {
                match (memo.get(&s1), memo.get(&s2)) {
                    (Some(c1), Some(c2)) => match self.build_join(c1, c2) {
                        Ok(candidate) => {
                            let better = match &best {
                                None => true,
                                Some(b) => candidate.cost.total(self.weights).lt_num(
                                    b.cost.total(self.weights),
                                ),
                            };
                            if better {
                                best = Some(candidate);
                            }
                        },
                        Err(_) => {},
                    },
                    _ => {},
                }
            }
            assert(candidate_view(best) == cheaper(w, before, split_candidate(g, w, s, s1)));
            s1 = (s1 - 1) & s;
        }
        best
    }

    /// The best plan that joins all relations.
    ///
    /// # Errors
    /// An internal error where there are no relations, and where only a cross
    /// product would join them all.
    pub fn optimize(&self) -> (r: Result<PlanCandidate, BasaltError>)
        requires
            fits(self.graph@),
        ensures
            match r {
                Ok(c) => best(
                    self.graph@,
                    *self.weights,
                    first_relations(self.graph@.relations.len() as int),
                ) == Some(c@),
                Err(e) => e@ == ErrorKind::Internal && best(
                    self.graph@,
                    *self.weights,
                    first_relations(self.graph@.relations.len() as int),
                ) is None,
            },
    {
        let ghost g = self.graph@;
        let ghost w = *self.weights;
        let n: usize = self.graph.num_relations();
        let full = full_set(n);
        if n == 0 {
            proof {
                assert forall|i: int| 0 <= i < 64 implies (#[trigger] holds(full, i) <==> holds(
                    0,
                    i,
                )) by {
                    lemma_has_ops(0, 0, i);
                }
                crate::optimizer::join_order::graph::lemma_same_set(full, 0);
                if is_single(0) {
                    lemma_has_single(member(0), member(0));
                }
            }
            return Err(BasaltError::internal("cannot join zero relations"));
        }
        let mut memo = self.base_candidates();
        let mut s: u64 = 0;
        while s < full
            invariant
                fits(g),
                g == self.graph@,
                w == *self.weights,
                singles_known(g, memo@),
                memo_ok(g, w, memo@, s as int + 1),
            decreases full - s,
        {
            s = s + 1;
            if !memo.contains_key(&s) {
                let ghost was = memo@;
                let found = self.best_split(&memo, s);
                proof {
                    lemma_unknown_single(g, w, memo@, s);
                }
                match found {
                    Some(c) => {
                        memo.insert(s, c);
                        assert(memo@ =~= was.insert(s, c));
                    },
                    None => {},
                }
            }
        }
        match memo.get(&full) {
            Some(c) => Ok(c.copy()),
            None => Err(
                BasaltError::internal(
                    "join graph is disconnected: no join order avoids a cross product",
                ),
            ),
        }
    }

    /// The relations by themselves.
    pub(crate) fn base_candidates(&self) -> (memo: HashMap<RelationSet, PlanCandidate>)
        requires
            fits(self.graph@),
        ensures
            singles_known(self.graph@, memo@),
            memo_ok(self.graph@, *self.weights, memo@, 1),
            forall|m: RelationSet| #[trigger] memo@.contains_key(m) ==> is_single(m),
    {
        let ghost g = self.graph@;
        let n: usize = self.graph.num_relations();
        let mut memo: HashMap<RelationSet, PlanCandidate> = HashMap::new();
        let mut i: usize = 0;
        while i < n
            invariant
                i <= n,
                n == g.relations.len(),
                n <= 64,
                g == self.graph@,
                forall|k: int| 0 <= k < i ==> memo@.contains_key(#[trigger] single(k)),
                forall|m: RelationSet| #[trigger]
                    memo@.contains_key(m) ==> {
                        &&& is_single(m)
                        &&& member(m) < i
                        &&& memo@[m]@ == base(g, member(m))
                        &&& candidate_ok(g, memo@[m]@)
                    },
            decreases n - i,
        {
            let c = self.base_candidate(i);
            let key = singleton(i);
            proof {
                lemma_member(i as int);
            }
            memo.insert(key, c);
            i = i + 1;
        }
        proof {
            assert forall|m: RelationSet| m < 1 implies best(g, *self.weights, m) is None by {
                if is_single(m) {
                    lemma_has_single(member(m), member(m));
                    assert(false);
                }
            }
        }
        memo
    }
}

/// Whether the best candidates found so far are right, and those of all sets
/// below `upto` are there.
pub open spec fn memo_ok(
    g: GraphView,
    w: CostWeights,
    memo: Map<RelationSet, PlanCandidate>,
    upto: int,
) -> bool {
    &&& forall|m: RelationSet| #[trigger]
        memo.contains_key(m) ==> best(g, w, m) == Some(memo[m]@) && candidate_ok(g, memo[m]@)
    &&& forall|m: RelationSet|
        m < upto && (#[trigger] best(g, w, m)) is Some ==> memo.contains_key(m)
}

/// Whether every relation by itself is there.
pub open spec fn singles_known(g: GraphView, memo: Map<RelationSet, PlanCandidate>) -> bool {
    forall|k: int| 0 <= k < g.relations.len() ==> memo.contains_key(#[trigger] single(k))
}

proof fn lemma_unknown_single(
    g: GraphView,
    w: CostWeights,
    memo: Map<RelationSet, PlanCandidate>,
    s: RelationSet,
)
    requires
        g.relations.len() <= 64,
        singles_known(g, memo),
        !memo.contains_key(s),
        s != 0,
    ensures
        best(g, w, s) == best_among(g, w, s, next_part(s, s), None),
{
    if is_single(s) {
        lemma_single_is_whole(member(s), 0);
        assert(s == single(member(s)));
    }
}

fn position(order: &Vec<(usize, usize)>, c: (usize, usize)) -> (r: Option<usize>)
    ensures
        match r {
            Some(i) => place_of(order@, c, order@.len()) == Some(i as int),
            None => place_of(order@, c, order@.len()) is None,
        },
{
    let mut i: usize = 0;
    while i < order.len()
        invariant
            i <= order@.len(),
            place_of(order@, c, i as nat) is None,
        decreases order@.len() - i,
    {
        if order[i].0 == c.0 && order[i].1 == c.1 {
            proof {
                lemma_place_found(order@, c, (i + 1) as nat, order@.len());
            }
            return Some(i);
        }
        i = i + 1;
    }
    None
}

/// The relations of a candidate's columns.
fn mask_of(order: &Vec<(usize, usize)>, graph: &JoinGraph) -> (r: RelationSet)
    requires
        fits(graph@),
        forall|k: int|
            0 <= k < order@.len() ==> (#[trigger] order@[k]).0 < graph@.relations.len(),
    ensures
        r == relations_of(order@, order@.len()),
{
    let mut mask: u64 = 0;
    let mut i: usize = 0;
    while i < order.len()
        invariant
            i <= order@.len(),
            graph@.relations.len() <= 64,
            forall|k: int|
                0 <= k < order@.len() ==> (#[trigger] order@[k]).0 < graph@.relations.len(),
            mask == relations_of(order@, i as nat),
        decreases order@.len() - i,
    {
        mask = mask | singleton(order[i].0);
        i = i + 1;
    }
    mask
}

fn rows_as_double(p: Precision<usize>) -> (r: Float64)
    ensures
        r == rows_of(p),
{
    match p.get_value() {
        Some(n) => Float64::from_u64(*n as u64),
        None => Float64::from_bits(UNKNOWN_ROWS),
    }
}

fn append_stats(a: &Vec<ColumnStatistics>, b: &Vec<ColumnStatistics>) -> (r: Vec<ColumnStatistics>)
    ensures
        column_stats_views(r@) == column_stats_views(a@) + column_stats_views(b@),
{
    let ghost av = column_stats_views(a@);
    let ghost bv = column_stats_views(b@);
    let mut out = copy_column_stats(a);
    let mut i: usize = 0;
    assert(av + bv.take(0) =~= av);
    while i < b.len()
        invariant
            i <= b@.len(),
            bv == column_stats_views(b@),
            column_stats_views(out@) == av + bv.take(i as int),
        decreases b@.len() - i,
    {
        let ghost was = column_stats_views(out@);
        out.push(b[i].copy());
        proof {
            assert(column_stats_views(out@) =~= was.push(bv[i as int]));
            assert(av + bv.take(i + 1) =~= (av + bv.take(i as int)).push(bv[i as int]));
        }
        i = i + 1;
    }
    assert(bv.take(i as int) =~= bv);
    out
}

} // verus!
