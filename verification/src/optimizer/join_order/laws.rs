//! What holds of the plans that join ordering finds.

use vstd::prelude::*;

use crate::optimizer::cost::model::{weighed, CostWeights};
use crate::optimizer::join_order::dp::{
    base, best, best_among, cheaper, edges_of, joined, key_of, keys_of, lemma_place_of,
    relations_of, split_candidate, width, CandidateView,
};
use crate::optimizer::join_order::graph::{
    connected, connection_is_symmetric, edges_between_are_turned, first_relations, holds,
    is_single, leads, lemma_first_relations, lemma_has_ops, lemma_has_single, lemma_least,
    lemma_member, lemma_next_part, lemma_part_has, lemma_part_is_smaller, lemma_part_of,
    lemma_single_is_whole, lemma_split, lemma_whole, linked, links, links_between, member,
    next_part, part_of, rest, reversed, single, size, splits, unions_of_linked_sets_are_connected,
    GraphView, JoinEdge, RelationSet,
};

verus! {

/// Whether the ends of an edge are columns of relations of a graph.
pub open spec fn edge_valid(g: GraphView, e: JoinEdge) -> bool {
    &&& e.left_relation < g.relations.len()
    &&& e.right_relation < g.relations.len()
    &&& e.left_column < width(g, e.left_relation as int)
    &&& e.right_column < width(g, e.right_relation as int)
}

/// Whether a graph's edges are between columns of its relations.
pub open spec fn edges_valid(g: GraphView) -> bool {
    forall|k: int| 0 <= k < g.edges.len() ==> edge_valid(g, #[trigger] g.edges[k])
}

/// Whether columns are exactly those of a set of relations, each once.
pub open spec fn covers(g: GraphView, order: Seq<(usize, usize)>, s: RelationSet) -> bool {
    &&& order.no_duplicates()
    &&& forall|r: usize, c: usize| #[trigger]
        order.contains((r, c)) <==> {
            &&& holds(s, r as int)
            &&& r < g.relations.len()
            &&& c < width(g, r as int)
        }
}

pub proof fn lemma_base_covers(g: GraphView, i: int)
    requires
        g.relations.len() <= 64,
        0 <= i < g.relations.len(),
        width(g, i) <= usize::MAX,
    ensures
        covers(g, base(g, i).column_order, single(i)),
{
    let order = base(g, i).column_order;
    assert forall|r: usize, c: usize| #[trigger] order.contains((r, c)) <==> {
        &&& holds(single(i), r as int)
        &&& r < g.relations.len()
        &&& c < width(g, r as int)
    } by {
        lemma_has_single(i, r as int);
        if r == i && c < width(g, i) {
            assert(order[c as int] == (r, c));
        }
    }
}

pub proof fn lemma_joined_covers(
    g: GraphView,
    x: Seq<(usize, usize)>,
    y: Seq<(usize, usize)>,
    a: RelationSet,
    s: RelationSet,
)
    requires
        splits(a, s),
        covers(g, x, a),
        covers(g, y, rest(s, a)),
    ensures
        covers(g, x + y, s),
{
    let b = rest(s, a);
    let z = x + y;
    lemma_split(a, s);
    assert forall|r: usize, c: usize| #[trigger] z.contains((r, c)) <==> {
        &&& holds(s, r as int)
        &&& r < g.relations.len()
        &&& c < width(g, r as int)
    } by {
        lemma_has_ops(a, b, r as int);
        if z.contains((r, c)) {
            let k = choose|k: int| 0 <= k < z.len() && z[k] == (r, c);
            if k < x.len() {
                assert(x[k] == (r, c));
                assert(x.contains((r, c)));
            } else {
                assert(y[k - x.len()] == (r, c));
                assert(y.contains((r, c)));
            }
        }
        if x.contains((r, c)) {
            let k = choose|k: int| 0 <= k < x.len() && x[k] == (r, c);
            assert(z[k] == (r, c));
        }
        if y.contains((r, c)) {
            let k = choose|k: int| 0 <= k < y.len() && y[k] == (r, c);
            assert(z[x.len() + k] == (r, c));
        }
    }
    assert forall|i: int, j: int| 0 <= i < z.len() && 0 <= j < z.len() && i != j implies z[i]
        != z[j] by {
        if i < x.len() && j < x.len() {
            assert(z[i] == x[i] && z[j] == x[j]);
        } else if i >= x.len() && j >= x.len() {
            assert(z[i] == y[i - x.len()] && z[j] == y[j - x.len()]);
        } else {
            let p = if i < x.len() {
                i
            } else {
                j
            };
            let q = if i < x.len() {
                j - x.len()
            } else {
                i - x.len()
            };
            let (r, c) = x[p];
            assert(x.contains((r, c)));
            let (t, d) = y[q];
            assert(y.contains((t, d)));
            lemma_has_ops(a, b, r as int);
            lemma_has_ops(0, 0, r as int);
        }
    }
}

/// Whether the widths of a graph's relations are counts.
pub open spec fn widths_fit(g: GraphView) -> bool {
    forall|i: int| 0 <= i < g.relations.len() ==> #[trigger] width(g, i) <= usize::MAX
}

proof fn lemma_among_covers(
    g: GraphView,
    w: CostWeights,
    s: RelationSet,
    sub: RelationSet,
    so_far: Option<CandidateView>,
)
    requires
        g.relations.len() <= 64,
        widths_fit(g),
        so_far matches Some(c) ==> covers(g, c.column_order, s),
    ensures
        best_among(g, w, s, sub, so_far) matches Some(c) ==> covers(g, c.column_order, s),
    decreases s, sub as int,
{
    if sub != 0 && splits(sub, s) {
        lemma_next_part(s, sub, 0);
        lemma_split(sub, s);
        if split_candidate(g, w, s, sub) is Some {
            best_covers_its_set(g, w, sub);
            best_covers_its_set(g, w, rest(s, sub));
            let l = best(g, w, sub)->0;
            let r = best(g, w, rest(s, sub))->0;
            lemma_joined_covers(g, l.column_order, r.column_order, sub, s);
        }
        lemma_among_covers(
            g,
            w,
            s,
            next_part(s, sub),
            cheaper(w, so_far, split_candidate(g, w, s, sub)),
        );
    }
}

/// The best plan for a set puts out every column of every relation of the set,
/// each once.
pub proof fn best_covers_its_set(g: GraphView, w: CostWeights, s: RelationSet)
    requires
        g.relations.len() <= 64,
        widths_fit(g),
        best(g, w, s) is Some,
    ensures
        covers(g, best(g, w, s)->0.column_order, s),
    decreases s, u64::MAX + 1,
{
    if is_single(s) {
        lemma_base_covers(g, member(s));
    } else {
        lemma_among_covers(g, w, s, next_part(s, s), None);
    }
}

// ---------------------------------------------------------------------------
// Which sets can be joined

pub proof fn lemma_relations_of(order: Seq<(usize, usize)>, n: nat, u: int)
    requires
        n <= order.len(),
        forall|k: int| 0 <= k < order.len() ==> (#[trigger] order[k]).0 < 64,
    ensures
        holds(relations_of(order, n), u) <==> exists|k: int|
            0 <= k < n && (#[trigger] order[k]).0 == u,
    decreases n,
{
    lemma_has_ops(0, 0, u);
    if n > 0 {
        let m = (n - 1) as nat;
        lemma_relations_of(order, m, u);
        lemma_has_ops(relations_of(order, m), single(order[m as int].0 as int), u);
        lemma_has_single(order[m as int].0 as int, u);
        if holds(relations_of(order, m), u) {
            let k = choose|k: int| 0 <= k < m && (#[trigger] order[k]).0 == u;
            assert(order[k].0 == u);
        }
        if exists|k: int| 0 <= k < n && (#[trigger] order[k]).0 == u {
            let k = choose|k: int| 0 <= k < n && (#[trigger] order[k]).0 == u;
            if k < m {
                assert(order[k].0 == u);
            }
        }
    }
}

proof fn lemma_links_are_edges(g: GraphView, a: RelationSet, b: RelationSet, n: nat, i: int)
    requires
        edges_valid(g),
        n <= g.edges.len(),
        0 <= i < links_between(g.edges, a, b, n).len(),
    ensures
        edge_valid(g, links_between(g.edges, a, b, n)[i]),
    decreases n,
{
    if n > 0 {
        let m = (n - 1) as nat;
        let before = links_between(g.edges, a, b, m);
        assert(edge_valid(g, g.edges[m as int]));
        if i < before.len() {
            lemma_links_are_edges(g, a, b, m, i);
        }
    }
}

proof fn lemma_keys_exist(
    g: GraphView,
    edges: Seq<JoinEdge>,
    l: CandidateView,
    r: CandidateView,
    n: nat,
)
    requires
        n <= edges.len(),
        forall|i: int|
            0 <= i < edges.len() ==> key_of(g, #[trigger] edges[i], l, r) is Ok,
    ensures
        keys_of(g, edges, l, r, n) is Ok,
    decreases n,
{
    if n > 0 {
        lemma_keys_exist(g, edges, l, r, (n - 1) as nat);
        assert(key_of(g, edges[n - 1], l, r) is Ok);
    }
}

/// Plans for two sets with an edge between them can be joined.
pub proof fn linked_plans_can_be_joined(
    g: GraphView,
    l: CandidateView,
    r: CandidateView,
    a: RelationSet,
    b: RelationSet,
)
    requires
        g.relations.len() <= 64,
        edges_valid(g),
        covers(g, l.column_order, a),
        covers(g, r.column_order, b),
        linked(g.edges, a, b),
    ensures
        joined(g, l, r) is Ok,
{
    let x = l.column_order;
    let y = r.column_order;
    let p = relations_of(x, x.len());
    let q = relations_of(y, y.len());
    assert forall|k: int| 0 <= k < x.len() implies (#[trigger] x[k]).0 < 64 && holds(
        a,
        x[k].0 as int,
    ) by {
        assert(x.contains((x[k].0, x[k].1)));
    }
    assert forall|k: int| 0 <= k < y.len() implies (#[trigger] y[k]).0 < 64 && holds(
        b,
        y[k].0 as int,
    ) by {
        assert(y.contains((y[k].0, y[k].1)));
    }
    let k = choose|k: int| 0 <= k < g.edges.len() && links(#[trigger] g.edges[k], a, b);
    let e = if leads(g.edges[k], a, b) {
        g.edges[k]
    } else {
        reversed(g.edges[k])
    };
    assert(edge_valid(g, g.edges[k]));
    assert(leads(e, a, b) && edge_valid(g, e));
    assert(x.contains((e.left_relation, e.left_column)));
    let i = choose|i: int| 0 <= i < x.len() && x[i] == (e.left_relation, e.left_column);
    assert(x[i].0 == e.left_relation);
    lemma_relations_of(x, x.len(), e.left_relation as int);
    assert(y.contains((e.right_relation, e.right_column)));
    let j = choose|j: int| 0 <= j < y.len() && y[j] == (e.right_relation, e.right_column);
    assert(y[j].0 == e.right_relation);
    lemma_relations_of(y, y.len(), e.right_relation as int);
    assert(links(g.edges[k], p, q));
    assert(g.edges.take(g.edges.len() as int) =~= g.edges);
    edges_between_are_turned(g.edges, p, q, g.edges.len());
    let edges = edges_of(g, l, r);
    assert forall|i: int| 0 <= i < edges.len() implies key_of(g, #[trigger] edges[i], l, r) is Ok by {
        let d = edges[i];
        lemma_links_are_edges(g, p, q, g.edges.len(), i);
        assert(leads(d, p, q));
        lemma_relations_of(x, x.len(), d.left_relation as int);
        let m = choose|m: int| 0 <= m < x.len() && (#[trigger] x[m]).0 == d.left_relation;
        assert(holds(a, x[m].0 as int));
        assert(x.contains((d.left_relation, d.left_column)));
        lemma_place_of(x, (d.left_relation, d.left_column), x.len());
        lemma_relations_of(y, y.len(), d.right_relation as int);
        let m = choose|m: int| 0 <= m < y.len() && (#[trigger] y[m]).0 == d.right_relation;
        assert(holds(b, y[m].0 as int));
        assert(y.contains((d.right_relation, d.right_column)));
        lemma_place_of(y, (d.right_relation, d.right_column), y.len());
    }
    lemma_keys_exist(g, edges, l, r, edges.len());
}

proof fn lemma_among_keeps(
    g: GraphView,
    w: CostWeights,
    s: RelationSet,
    sub: RelationSet,
    so_far: Option<CandidateView>,
)
    requires
        so_far is Some,
    ensures
        best_among(g, w, s, sub, so_far) is Some,
    decreases sub,
{
    if sub != 0 && splits(sub, s) {
        lemma_next_part(s, sub, 0);
        lemma_among_keeps(
            g,
            w,
            s,
            next_part(s, sub),
            cheaper(w, so_far, split_candidate(g, w, s, sub)),
        );
    }
}

proof fn lemma_among_finds(
    g: GraphView,
    w: CostWeights,
    s: RelationSet,
    sub: RelationSet,
    so_far: Option<CandidateView>,
    a: RelationSet,
)
    requires
        part_of(sub, s),
        sub < s,
        splits(a, s),
        a <= sub,
        split_candidate(g, w, s, a) is Some,
    ensures
        best_among(g, w, s, sub, so_far) is Some,
    decreases sub,
{
    lemma_next_part(s, sub, a);
    let next = cheaper(w, so_far, split_candidate(g, w, s, sub));
    if a == sub {
        lemma_among_keeps(g, w, s, next_part(s, sub), next);
    } else {
        lemma_among_finds(g, w, s, next_part(s, sub), next, a);
    }
}

proof fn lemma_split_gives_best(g: GraphView, w: CostWeights, s: RelationSet, a: RelationSet)
    requires
        g.relations.len() <= 64,
        widths_fit(g),
        edges_valid(g),
        splits(a, s),
        linked(g.edges, a, rest(s, a)),
        best(g, w, a) is Some,
        best(g, w, rest(s, a)) is Some,
    ensures
        best(g, w, s) is Some,
{
    lemma_split(a, s);
    let b = rest(s, a);
    let x = if a < b {
        a
    } else {
        b
    };
    let y = rest(s, x);
    lemma_split(x, s);
    connection_is_symmetric(g.edges, a, b);
    lemma_whole(a, a);
    best_covers_its_set(g, w, x);
    best_covers_its_set(g, w, y);
    linked_plans_can_be_joined(g, best(g, w, x)->0, best(g, w, y)->0, x, y);
    assert(split_candidate(g, w, s, x) is Some);
    if is_single(s) {
        lemma_single_is_whole(member(s), a);
    }
    lemma_next_part(s, s, x);
    lemma_whole(s, s);
    lemma_among_finds(g, w, s, next_part(s, s), None, x);
}

/// A relation that an edge leads to from a set, and that is in another set.
pub proof fn lemma_crossing(edges: Seq<JoinEdge>, a: RelationSet, b: RelationSet) -> (v: int)
    requires
        linked(edges, a, b),
    ensures
        holds(b, v),
        linked(edges, a, single(v)),
{
    let k = choose|k: int| 0 <= k < edges.len() && links(#[trigger] edges[k], a, b);
    let e = edges[k];
    let v = if leads(e, a, b) {
        e.right_relation as int
    } else {
        e.left_relation as int
    };
    lemma_has_single(v, v);
    assert(links(e, a, single(v)));
    v
}

proof fn lemma_grow(g: GraphView, w: CostWeights, s: RelationSet, t: RelationSet)
    requires
        g.relations.len() <= 64,
        widths_fit(g),
        edges_valid(g),
        connected(g.edges, s),
        part_of(s, first_relations(g.relations.len() as int)),
        part_of(t, s),
        t != 0,
        best(g, w, t) is Some,
    ensures
        best(g, w, s) is Some,
    decreases size(s) - size(t),
{
    if t != s {
        assert(splits(t, s));
        let v = lemma_crossing(g.edges, t, rest(s, t));
        let next = lemma_grown(g.edges, s, t, v);
        lemma_part_has(rest(s, t), s, v);
        lemma_part_has(s, first_relations(g.relations.len() as int), v);
        lemma_first_relations(g.relations.len() as int, v);
        lemma_member(v);
        assert(best(g, w, single(v)) is Some);
        lemma_split_gives_best(g, w, next, t);
        lemma_grow(g, w, s, next);
    }
}

/// A set grown by a relation next to it.
pub proof fn lemma_grown(
    edges: Seq<JoinEdge>,
    s: RelationSet,
    t: RelationSet,
    v: int,
) -> (next: RelationSet)
    requires
        splits(t, s),
        holds(rest(s, t), v),
    ensures
        next == t | single(v),
        next != 0,
        part_of(next, s),
        splits(t, next),
        rest(next, t) == single(v),
        size(next) > size(t),
        size(next) <= size(s),
        part_of(rest(s, t), s),
{
    let next = t | single(v);
    let k = v as u64;
    let one = single(v);
    lemma_has_single(v, v);
    lemma_split(t, s);
    assert(t & s == t && ((s & !t) >> k) & 1u64 == 1u64 && k < 64 && one == 1u64 << k ==> {
        &&& (t | one) & s == t | one
        &&& t & (t | one) == t
        &&& t != (t | one)
        &&& (t | one) & !t == one
        &&& (t | one) != 0
    }) by (bit_vector)
        requires
            k < 64,
            one == 1u64 << k,
            t & s == t,
            ((s & !t) >> k) & 1u64 == 1u64,
    ;
    lemma_part_is_smaller(t, next);
    lemma_part_is_smaller(next, s);
    next
}

proof fn lemma_among_connected(
    g: GraphView,
    w: CostWeights,
    s: RelationSet,
    sub: RelationSet,
    so_far: Option<CandidateView>,
)
    requires
        so_far is Some ==> connected(g.edges, s),
    ensures
        best_among(g, w, s, sub, so_far) is Some ==> connected(g.edges, s),
    decreases s, sub as int,
{
    if sub != 0 && splits(sub, s) {
        lemma_next_part(s, sub, 0);
        lemma_split(sub, s);
        if split_candidate(g, w, s, sub) is Some {
            lemma_best_connected(g, w, sub);
            lemma_best_connected(g, w, rest(s, sub));
            unions_of_linked_sets_are_connected(g.edges, sub, rest(s, sub));
        }
        lemma_among_connected(
            g,
            w,
            s,
            next_part(s, sub),
            cheaper(w, so_far, split_candidate(g, w, s, sub)),
        );
    }
}

proof fn lemma_best_connected(g: GraphView, w: CostWeights, s: RelationSet)
    ensures
        best(g, w, s) is Some ==> connected(g.edges, s),
    decreases s, u64::MAX + 1,
{
    if is_single(s) {
        lemma_single_connected(g.edges, member(s));
    } else {
        lemma_among_connected(g, w, s, next_part(s, s), None);
    }
}

pub proof fn lemma_single_connected(edges: Seq<JoinEdge>, i: int)
    requires
        0 <= i < 64,
    ensures
        connected(edges, single(i)),
{
    lemma_has_single(i, i);
    assert forall|a: RelationSet| #[trigger] splits(a, single(i)) implies false by {
        lemma_single_is_whole(i, a);
    }
}

/// There is a plan for a set of relations, without a cross product, exactly
/// when the set is connected.
pub proof fn plans_exist_for_connected_sets(g: GraphView, w: CostWeights, s: RelationSet)
    requires
        g.relations.len() <= 64,
        widths_fit(g),
        edges_valid(g),
        part_of(s, first_relations(g.relations.len() as int)),
    ensures
        best(g, w, s) is Some <==> connected(g.edges, s),
{
    lemma_best_connected(g, w, s);
    if connected(g.edges, s) {
        let i = lemma_least(s);
        lemma_part_has(s, first_relations(g.relations.len() as int), i);
        lemma_first_relations(g.relations.len() as int, i);
        lemma_member(i);
        lemma_has_single(i, i);
        assert forall|j: int| 0 <= j < 64 && #[trigger] holds(single(i), j) implies holds(s, j) by {
            lemma_has_single(i, j);
        }
        lemma_part_of(single(i), s);
        lemma_grow(g, w, s, single(i));
    }
}

// ---------------------------------------------------------------------------
// Which plan is found

proof fn lemma_among_is_cheapest(
    g: GraphView,
    w: CostWeights,
    s: RelationSet,
    sub: RelationSet,
    so_far: Option<CandidateView>,
    x: CandidateView,
)
    requires
        part_of(sub, s),
        sub < s,
    ensures
        best_among(g, w, s, sub, so_far) matches Some(c) ==> {
            &&& so_far matches Some(y) ==> c == y || weighed(c.cost, w).num_lt(weighed(y.cost, w))
            &&& forall|a: RelationSet|
                #![trigger split_candidate(g, w, s, a)]
                splits(a, s) && a <= sub && split_candidate(g, w, s, a) == Some(x) ==> !weighed(
                    x.cost,
                    w,
                ).num_lt(weighed(c.cost, w))
        },
    decreases sub,
{
    if sub != 0 && splits(sub, s) {
        lemma_next_part(s, sub, 0);
        let here = split_candidate(g, w, s, sub);
        let next = cheaper(w, so_far, here);
        lemma_among_is_cheapest(g, w, s, next_part(s, sub), next, x);
        match best_among(g, w, s, sub, so_far) {
            Some(c) => {
                assert forall|a: RelationSet|
                    #![trigger split_candidate(g, w, s, a)]
                    splits(a, s) && a <= sub && split_candidate(g, w, s, a) == Some(
                        x,
                    ) implies !weighed(x.cost, w).num_lt(weighed(c.cost, w)) by {
                    if a != sub {
                        lemma_next_part(s, sub, a);
                    }
                }
            },
            None => {},
        }
    }
}

/// No split of a set gives a cheaper plan than the one found.
pub proof fn no_split_is_cheaper(
    g: GraphView,
    w: CostWeights,
    s: RelationSet,
    a: RelationSet,
)
    requires
        best(g, w, s) is Some,
        splits(a, s),
        split_candidate(g, w, s, a) is Some,
    ensures
        !weighed(split_candidate(g, w, s, a)->0.cost, w).num_lt(
            weighed(best(g, w, s)->0.cost, w),
        ),
{
    if is_single(s) {
        lemma_single_is_whole(member(s), a);
    }
    lemma_split(a, s);
    lemma_next_part(s, s, a);
    lemma_whole(s, s);
    lemma_among_is_cheapest(
        g,
        w,
        s,
        next_part(s, s),
        None,
        split_candidate(g, w, s, a)->0,
    );
}

/// Every join of a plan found has a key: there are no cross products.
pub proof fn joins_have_keys(g: GraphView, l: CandidateView, r: CandidateView)
    requires
        joined(g, l, r) is Ok,
    ensures
        joined(g, l, r)->Ok_0.plan is Join,
        joined(g, l, r)->Ok_0.plan->on.len() > 0,
        joined(g, l, r)->Ok_0.plan->Join_join_type == crate::logical_plan::plan::JoinType::Inner,
{
    let edges = edges_of(g, l, r);
    crate::optimizer::join_order::dp::lemma_keys_are_columns(g, edges, l, r, edges.len());
}

} // verus!
