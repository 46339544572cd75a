//! What a join of two candidates holds: its keys, its columns and its cost, in
//! terms of the edges and relations of the graph.

use vstd::prelude::*;

use crate::error::ErrorKind;
use crate::expr::expr::ExprView;
use crate::float64::{lemma_eight_is_an_integer, lemma_thousand_is_an_integer, LIMIT};
use crate::float_laws::integers_multiply;
use crate::logical_plan::plan::{plan_schema, JoinType};
use crate::optimizer::cardinality::column_pairs;
use crate::optimizer::cardinality::join_card::join_estimate;
use crate::optimizer::cost::laws::{
    charge, costs_add_up, count, hash_joins_hold_the_build_side, most, whole,
};
use crate::optimizer::join_order::dp::{
    base, edges_of, joined, key_of, keys_of, lemma_place_of, relations_of, rows_of,
    stats_of, width, CandidateView,
};
use crate::optimizer::join_order::graph::{leads, links_between, reversed, GraphView, JoinEdge, RelationSet};
use crate::optimizer::join_order::laws::lemma_relations_of;
use crate::statistics::Precision;

verus! {

/// Whether one of the columns of an order belongs to a relation.
pub open spec fn reads(order: Seq<(usize, usize)>, relation: usize) -> bool {
    exists|k: int| 0 <= k < order.len() && (#[trigger] order[k]).0 == relation
}

/// Whether an expression is the column of an order that is a relation's column.
pub open spec fn names(e: ExprView, order: Seq<(usize, usize)>, relation: usize, column: usize) -> bool {
    e matches ExprView::Column { index, data_type, nullable } && index < order.len() && order[index as int] == (
        relation,
        column,
    )
}

/// Whether a pair of keys compares what an edge does, read one way or the other.
pub open spec fn compares(
    on: (ExprView, ExprView),
    e: JoinEdge,
    l: Seq<(usize, usize)>,
    r: Seq<(usize, usize)>,
) -> bool {
    ||| names(on.0, l, e.left_relation, e.left_column) && names(
        on.1,
        r,
        e.right_relation,
        e.right_column,
    )
    ||| names(on.0, l, e.right_relation, e.right_column) && names(
        on.1,
        r,
        e.left_relation,
        e.left_column,
    )
}

/// Whether an edge has an end on either side.
pub open spec fn crosses(e: JoinEdge, l: Seq<(usize, usize)>, r: Seq<(usize, usize)>) -> bool {
    ||| reads(l, e.left_relation) && reads(r, e.right_relation)
    ||| reads(l, e.right_relation) && reads(r, e.left_relation)
}

/// Whether the columns of a candidate are those of relations that a set can
/// hold, and no more than can be numbered.
pub open spec fn numbered(c: CandidateView) -> bool {
    &&& forall|k: int| 0 <= k < c.column_order.len() ==> (#[trigger] c.column_order[k]).0 < 64
    &&& c.column_order.len() <= usize::MAX
}

proof fn lemma_links_are_crossings(
    edges: Seq<JoinEdge>,
    a: RelationSet,
    b: RelationSet,
    n: nat,
)
    requires
        n <= edges.len(),
    ensures
        forall|i: int|
            0 <= i < links_between(edges, a, b, n).len() ==> exists|k: int|
                0 <= k < n && (#[trigger] links_between(edges, a, b, n)[i] == #[trigger] edges[k]
                    || links_between(edges, a, b, n)[i] == reversed(edges[k])),
        forall|k: int|
            0 <= k < n && (leads(#[trigger] edges[k], a, b) || leads(reversed(edges[k]), a, b))
                ==> exists|i: int|
                0 <= i < links_between(edges, a, b, n).len() && (#[trigger] links_between(
                    edges,
                    a,
                    b,
                    n,
                )[i] == edges[k] || links_between(edges, a, b, n)[i] == reversed(edges[k])),
    decreases n,
{
    if n > 0 {
        let m = (n - 1) as nat;
        lemma_links_are_crossings(edges, a, b, m);
        let before = links_between(edges, a, b, m);
        let now = links_between(edges, a, b, n);
        let e = edges[m as int];
        assert forall|i: int| 0 <= i < now.len() implies exists|k: int|
            0 <= k < n && (#[trigger] now[i] == #[trigger] edges[k] || now[i] == reversed(
                edges[k],
            )) by {
            if i < before.len() {
                assert(now[i] == before[i]);
            } else {
                assert(now[i] == edges[m as int] || now[i] == reversed(edges[m as int]));
            }
        }
        assert forall|k: int|
            0 <= k < n && (leads(#[trigger] edges[k], a, b) || leads(
                reversed(edges[k]),
                a,
                b,
            )) implies exists|i: int|
            0 <= i < now.len() && (#[trigger] now[i] == edges[k] || now[i] == reversed(
                edges[k],
            )) by {
            if k < m {
                let i = choose|i: int|
                    0 <= i < before.len() && (#[trigger] before[i] == edges[k] || before[i]
                        == reversed(edges[k]));
                assert(now[i] == before[i]);
            } else {
                assert(now[before.len() as int] == e || now[before.len() as int] == reversed(e));
            }
        }
    }
}

proof fn lemma_keys(
    g: GraphView,
    edges: Seq<JoinEdge>,
    l: CandidateView,
    r: CandidateView,
    n: nat,
)
    requires
        n <= edges.len(),
        keys_of(g, edges, l, r, n) is Ok,
    ensures
        keys_of(g, edges, l, r, n)->Ok_0.len() == n,
        forall|i: int|
            0 <= i < n ==> key_of(g, edges[i], l, r) == Ok::<_, ErrorKind>(
                #[trigger] keys_of(g, edges, l, r, n)->Ok_0[i],
            ),
    decreases n,
{
    if n > 0 {
        let m = (n - 1) as nat;
        lemma_keys(g, edges, l, r, m);
        let before = keys_of(g, edges, l, r, m)->Ok_0;
        assert(keys_of(g, edges, l, r, n)->Ok_0 == before.push(key_of(g, edges[m as int], l, r)->Ok_0));
    }
}

proof fn lemma_key_names(g: GraphView, e: JoinEdge, l: CandidateView, r: CandidateView)
    requires
        numbered(l),
        numbered(r),
        key_of(g, e, l, r) is Ok,
    ensures
        names(key_of(g, e, l, r)->Ok_0.0, l.column_order, e.left_relation, e.left_column),
        names(key_of(g, e, l, r)->Ok_0.1, r.column_order, e.right_relation, e.right_column),
{
    lemma_place_of(l.column_order, (e.left_relation, e.left_column), l.column_order.len());
    lemma_place_of(r.column_order, (e.right_relation, e.right_column), r.column_order.len());
}

/// Two candidates are joined on the edges between them: every edge that crosses
/// from one to the other is compared by a pair of keys, the left one a column
/// of the left candidate and the right one of the right, and every pair of keys
/// compares such an edge.
pub proof fn joins_compare_every_edge_between(g: GraphView, l: CandidateView, r: CandidateView)
    requires
        numbered(l),
        numbered(r),
        joined(g, l, r) is Ok,
    ensures
        ({
            let on = joined(g, l, r)->Ok_0.plan->on;
            &&& forall|k: int|
                0 <= k < g.edges.len() && crosses(
                    #[trigger] g.edges[k],
                    l.column_order,
                    r.column_order,
                ) ==> exists|i: int|
                    0 <= i < on.len() && compares(
                        #[trigger] on[i],
                        g.edges[k],
                        l.column_order,
                        r.column_order,
                    )
            &&& forall|i: int|
                0 <= i < on.len() ==> exists|k: int|
                    0 <= k < g.edges.len() && compares(
                        #[trigger] on[i],
                        #[trigger] g.edges[k],
                        l.column_order,
                        r.column_order,
                    )
        }),
{
    let x = l.column_order;
    let y = r.column_order;
    let a = relations_of(x, x.len());
    let b = relations_of(y, y.len());
    let edges = edges_of(g, l, r);
    let on = joined(g, l, r)->Ok_0.plan->on;
    lemma_links_are_crossings(g.edges, a, b, g.edges.len());
    lemma_keys(g, edges, l, r, edges.len());
    assert forall|k: int| 0 <= k < g.edges.len() && crosses(#[trigger] g.edges[k], x, y) implies exists|
        i: int,
    | 0 <= i < on.len() && compares(#[trigger] on[i], g.edges[k], x, y) by {
        let e = g.edges[k];
        lemma_relations_of(x, x.len(), e.left_relation as int);
        lemma_relations_of(x, x.len(), e.right_relation as int);
        lemma_relations_of(y, y.len(), e.left_relation as int);
        lemma_relations_of(y, y.len(), e.right_relation as int);
        if reads(x, e.left_relation) && reads(y, e.right_relation) {
            let p = choose|p: int| 0 <= p < x.len() && (#[trigger] x[p]).0 == e.left_relation;
            let q = choose|q: int| 0 <= q < y.len() && (#[trigger] y[q]).0 == e.right_relation;
            assert(x[p].0 as int == e.left_relation as int);
            assert(y[q].0 as int == e.right_relation as int);
            assert(leads(e, a, b));
        } else {
            let p = choose|p: int| 0 <= p < x.len() && (#[trigger] x[p]).0 == e.right_relation;
            let q = choose|q: int| 0 <= q < y.len() && (#[trigger] y[q]).0 == e.left_relation;
            assert(x[p].0 as int == e.right_relation as int);
            assert(y[q].0 as int == e.left_relation as int);
            assert(leads(reversed(e), a, b));
        }
        let i = choose|i: int|
            0 <= i < edges.len() && (#[trigger] edges[i] == e || edges[i] == reversed(e));
        assert(key_of(g, edges[i], l, r) == Ok::<_, ErrorKind>(on[i]));
        lemma_key_names(g, edges[i], l, r);
        assert(compares(on[i], e, x, y));
    }
    assert forall|i: int| 0 <= i < on.len() implies exists|k: int|
        0 <= k < g.edges.len() && compares(#[trigger] on[i], #[trigger] g.edges[k], x, y) by {
        assert(key_of(g, edges[i], l, r) == Ok::<_, ErrorKind>(on[i]));
        lemma_key_names(g, edges[i], l, r);
        let k = choose|k: int|
            0 <= k < g.edges.len() && (edges[i] == #[trigger] g.edges[k] || edges[i] == reversed(
                g.edges[k],
            ));
        assert(compares(on[i], g.edges[k], x, y));
    }
}

/// A join puts out the columns of its left side and behind them those of its
/// right, each under the field that it has in its relation and with what is
/// known of it. Nothing but the keys is a condition.
pub proof fn joins_put_out_both_sides(g: GraphView, l: CandidateView, r: CandidateView, k: int)
    requires
        joined(g, l, r) is Ok,
        0 <= k < l.column_order.len() + r.column_order.len(),
    ensures
        ({
            let c = joined(g, l, r)->Ok_0;
            let n = l.column_order.len();
            let from = if k < n {
                l.column_order[k]
            } else {
                r.column_order[k - n]
            };
            &&& *c.plan->Join_left == l.plan
            &&& *c.plan->Join_right == r.plan
            &&& c.plan->Join_filter is None
            &&& c.plan->Join_join_type == JoinType::Inner
            &&& c.column_order.len() == n + r.column_order.len()
            &&& c.column_order[k] == from
            &&& plan_schema(c.plan).len() == c.column_order.len()
            &&& plan_schema(c.plan)[k] == plan_schema(g.relations[from.0 as int].plan)[from.1 as int]
            &&& c.columns.len() == l.columns.len() + r.columns.len()
            &&& forall|i: int| 0 <= i < l.columns.len() ==> (#[trigger] c.columns[i]) == l.columns[i]
            &&& forall|i: int|
                0 <= i < r.columns.len() ==> (#[trigger] c.columns[l.columns.len() + i])
                    == r.columns[i]
        }),
{
}

/// A relation by itself costs nothing, has the rows of its statistics, and puts
/// out its columns in their order.
pub proof fn relations_are_read_as_they_are(g: GraphView, i: usize, k: usize)
    requires
        i < g.relations.len(),
        k < width(g, i as int),
    ensures
        base(g, i as int).plan == g.relations[i as int].plan,
        base(g, i as int).cost == charge(0, 0, 0, 0),
        base(g, i as int).cardinality == g.relations[i as int].stats.num_rows,
        base(g, i as int).columns == g.relations[i as int].stats.columns,
        base(g, i as int).column_order.len() == plan_schema(g.relations[i as int].plan).len(),
        base(g, i as int).column_order[k as int] == (i, k),
{
}

proof fn lemma_pairs(on: Seq<(ExprView, ExprView)>, n: nat)
    requires
        n <= on.len(),
        forall|i: int| 0 <= i < n ==> (#[trigger] on[i]).0 is Column && on[i].1 is Column,
    ensures
        column_pairs(on, n).len() == n,
        forall|i: int|
            0 <= i < n ==> (#[trigger] column_pairs(on, n)[i]) == (
                on[i].0->Column_index,
                on[i].1->Column_index,
            ),
    decreases n,
{
    if n > 0 {
        lemma_pairs(on, (n - 1) as nat);
    }
}

/// A join is expected to give the rows of an inner join of its sides on all of
/// its keys.
pub proof fn joins_are_expected_to_match_on_every_key(
    g: GraphView,
    l: CandidateView,
    r: CandidateView,
    pairs: Seq<(usize, usize)>,
)
    requires
        joined(g, l, r) is Ok,
        pairs.len() == joined(g, l, r)->Ok_0.plan->on.len(),
        forall|i: int|
            0 <= i < pairs.len() ==> (#[trigger] pairs[i]) == (
                joined(g, l, r)->Ok_0.plan->on[i].0->Column_index,
                joined(g, l, r)->Ok_0.plan->on[i].1->Column_index,
            ),
    ensures
        joined(g, l, r)->Ok_0.cardinality == join_estimate(
            stats_of(l),
            stats_of(r),
            pairs,
            JoinType::Inner,
        ),
        stats_of(l).num_rows == l.cardinality,
        stats_of(l).columns == l.columns,
{
    let on = joined(g, l, r)->Ok_0.plan->on;
    let edges = edges_of(g, l, r);
    lemma_keys(g, edges, l, r, edges.len());
    assert forall|i: int| 0 <= i < on.len() implies (#[trigger] on[i]).0 is Column
        && on[i].1 is Column by {
        assert(key_of(g, edges[i], l, r) == Ok::<_, ErrorKind>(on[i]));
    }
    lemma_pairs(on, on.len());
    assert(column_pairs(on, on.len()) =~= pairs);
}

/// A row count; a thousand where it is not known.
pub open spec fn rows_taken(p: Precision<usize>) -> int {
    match p.value() {
        Some(n) => n as int,
        None => 1000,
    }
}

/// A join costs what its sides cost and the steps of a hash join beside: one
/// for each row of the left side, one for each of the right and one for each
/// that comes out. It holds the rows of the left side, eight bytes a column, or
/// what one of its sides holds where that is more.
pub proof fn joins_cost_their_rows(
    g: GraphView,
    l: CandidateView,
    r: CandidateView,
    io: int,
    cpu: int,
    memory: int,
    network: int,
    io2: int,
    cpu2: int,
    memory2: int,
    network2: int,
)
    requires
        joined(g, l, r) is Ok,
        l.cost == charge(io, cpu, memory, network),
        r.cost == charge(io2, cpu2, memory2, network2),
        0 <= io && 0 <= io2 && count(io + io2),
        0 <= cpu && 0 <= cpu2,
        count(memory) && count(memory2),
        0 <= network && 0 <= network2 && count(network + network2),
        l.column_order.len() * 8 < LIMIT,
        rows_taken(l.cardinality) * (l.column_order.len() * 8) < LIMIT,
        cpu + cpu2 + rows_taken(l.cardinality) + rows_taken(r.cardinality) + rows_taken(
            joined(g, l, r)->Ok_0.cardinality,
        ) < LIMIT,
    ensures
        joined(g, l, r)->Ok_0.cost == charge(
            io + io2,
            cpu + cpu2 + rows_taken(l.cardinality) + rows_taken(r.cardinality) + rows_taken(
                joined(g, l, r)->Ok_0.cardinality,
            ),
            most(most(memory, memory2), rows_taken(l.cardinality) * (l.column_order.len() * 8)),
            network + network2,
        ),
{
    let a = rows_taken(l.cardinality);
    let b = rows_taken(r.cardinality);
    let c = rows_taken(joined(g, l, r)->Ok_0.cardinality);
    let w = l.column_order.len() * 8;
    lemma_thousand_is_an_integer();
    lemma_eight_is_an_integer();
    assert(rows_of(l.cardinality) == whole(a));
    assert(rows_of(r.cardinality) == whole(b));
    assert(rows_of(joined(g, l, r)->Ok_0.cardinality) == whole(c));
    integers_multiply(l.column_order.len() as int, 8);
    assert(a * w >= 0) by (nonlinear_arith)
        requires
            a >= 0,
            w >= 0,
    ;
    hash_joins_hold_the_build_side(a, b, c, w as int);
    costs_add_up(io, cpu, memory, network, io2, cpu2, memory2, network2);
    costs_add_up(
        io + io2,
        cpu + cpu2,
        most(memory, memory2),
        network + network2,
        0,
        a + b + c,
        a * w,
        0,
    );
}

} // verus!
