//! Where the plan found stands among all the trees that join the same
//! relations.

use vstd::prelude::*;

use crate::optimizer::cost::model::{free, weighed, CostWeights};
use crate::optimizer::join_order::dp::{
    base, best, best_among, cheaper, joined_option, split_candidate, CandidateView,
};
use crate::optimizer::join_order::dpccp::{
    ccp, ccp_among, ccp_candidate, ccp_plans_exist_for_connected_sets, no_listed_split_is_cheaper,
};
use crate::optimizer::join_order::graph::{
    connected, first_relations, fits, holds, is_single, lemma_first_relations, lemma_has_single,
    lemma_member, lemma_next_part, lemma_part_of, lemma_part_of_part, lemma_single_is_whole, lemma_split, lemma_whole,
    linked, member, next_part, part_of, rest, single, splits, unions_of_linked_sets_are_connected,
    GraphView, RelationSet,
};
use crate::optimizer::join_order::greedy::{apart, chosen_order, greedily};
use crate::optimizer::join_order::laws::{
    covers, edge_valid, edges_valid, lemma_base_covers, lemma_joined_covers,
    lemma_single_connected, linked_plans_can_be_joined, no_split_is_cheaper,
    plans_exist_for_connected_sets, widths_fit,
};
use crate::optimizer::join_order::subsets::{
    ordered_sets, ordered_sets_are_the_connected_ones,
};

verus! {

/// A way to join relations, two at a time.
pub enum JoinTree {
    Leaf(int),
    Node(Box<JoinTree>, Box<JoinTree>),
}

/// Two trees joined.
pub open spec fn node(l: JoinTree, r: JoinTree) -> JoinTree {
    JoinTree::Node(Box::new(l), Box::new(r))
}

/// The number of relations that a tree joins.
pub open spec fn leaves(t: JoinTree) -> nat
    decreases t,
{
    match t {
        JoinTree::Leaf(i) => 1,
        JoinTree::Node(l, r) => leaves(*l) + leaves(*r),
    }
}

/// The relations that a tree joins.
pub open spec fn relations_in(t: JoinTree) -> RelationSet
    decreases t,
{
    match t {
        JoinTree::Leaf(i) => single(i),
        JoinTree::Node(l, r) => relations_in(*l) | relations_in(*r),
    }
}

/// Whether a tree joins relations of a graph, each once and without a cross
/// product. Unless the sides may stand either way, the lesser set stands first
/// in every join.
pub open spec fn well_joined(g: GraphView, t: JoinTree, either: bool) -> bool
    decreases t,
{
    match t {
        JoinTree::Leaf(i) => 0 <= i < g.relations.len(),
        JoinTree::Node(l, r) => {
            let a = relations_in(*l);
            let b = relations_in(*r);
            &&& well_joined(g, *l, either)
            &&& well_joined(g, *r, either)
            &&& a & b == 0
            &&& either || a < b
            &&& linked(g.edges, a, b)
        },
    }
}

/// The plan that a tree stands for.
pub open spec fn plan_of(g: GraphView, t: JoinTree) -> Option<CandidateView>
    decreases t,
{
    match t {
        JoinTree::Leaf(i) => Some(base(g, i)),
        JoinTree::Node(l, r) => joined_option(g, plan_of(g, *l), plan_of(g, *r)),
    }
}

/// Whether a graph is one that join ordering takes.
pub open spec fn graph_ok(g: GraphView) -> bool {
    g.relations.len() <= 64 && widths_fit(g) && edges_valid(g)
}

/// Whether the plan of a tree weighs no more than that of another.
pub open spec fn no_dearer(g: GraphView, w: CostWeights, t: JoinTree, u: JoinTree) -> bool {
    weighed(plan_of(g, t)->0.cost, w).num_le(weighed(plan_of(g, u)->0.cost, w))
}

/// Whether trees keep their order by weight when they are joined: within a set,
/// trees over the same relations that weigh no more than others are joined to a
/// tree that weighs no more than the others joined.
pub open spec fn optimal_substructure(
    g: GraphView,
    w: CostWeights,
    s: RelationSet,
    either: bool,
) -> bool {
    forall|l: JoinTree, r: JoinTree, x: JoinTree, y: JoinTree|
        {
            &&& well_joined(g, node(l, r), either)
            &&& well_joined(g, node(x, y), either)
            &&& relations_in(l) == relations_in(x)
            &&& relations_in(r) == relations_in(y)
            &&& part_of(relations_in(node(l, r)), s)
            &&& no_dearer(g, w, l, x)
            &&& no_dearer(g, w, r, y)
        } ==> #[trigger] no_dearer(g, w, node(l, r), node(x, y))
}

proof fn lemma_halves(a: RelationSet, b: RelationSet, all: RelationSet)
    requires
        a & b == 0,
        a != 0,
        b != 0,
    ensures
        splits(a, a | b),
        rest(a | b, a) == b,
        part_of(b, a | b),
        part_of(a, all) && part_of(b, all) ==> part_of(a | b, all),
{
    assert(a & b == 0 && a != 0 && b != 0 ==> {
        &&& a & (a | b) == a
        &&& a != a | b
        &&& (a | b) & !a == b
        &&& b & (a | b) == b
        &&& (a & all == a && b & all == b ==> (a | b) & all == a | b)
    }) by (bit_vector);
}

/// Every tree has a plan, with the columns of its relations.
proof fn lemma_tree(g: GraphView, t: JoinTree, either: bool)
    requires
        graph_ok(g),
        well_joined(g, t, either),
    ensures
        relations_in(t) != 0,
        part_of(relations_in(t), first_relations(g.relations.len() as int)),
        connected(g.edges, relations_in(t)),
        plan_of(g, t) is Some,
        covers(g, plan_of(g, t)->0.column_order, relations_in(t)),
        leaves(t) >= 1,
    decreases t,
{
    let all = first_relations(g.relations.len() as int);
    match t {
        JoinTree::Leaf(i) => {
            lemma_has_single(i, i);
            lemma_base_covers(g, i);
            lemma_single_connected(g.edges, i);
            assert forall|j: int| 0 <= j < 64 && #[trigger] holds(single(i), j) implies holds(
                all,
                j,
            ) by {
                lemma_has_single(i, j);
                lemma_first_relations(g.relations.len() as int, j);
            }
            lemma_part_of(single(i), all);
        },
        JoinTree::Node(l, r) => {
            lemma_tree(g, *l, either);
            lemma_tree(g, *r, either);
            let a = relations_in(*l);
            let b = relations_in(*r);
            lemma_halves(a, b, all);
            unions_of_linked_sets_are_connected(g.edges, a, b);
            let x = plan_of(g, *l)->0;
            let y = plan_of(g, *r)->0;
            linked_plans_can_be_joined(g, x, y, a, b);
            lemma_joined_covers(g, x.column_order, y.column_order, a, a | b);
        },
    }
}

proof fn lemma_among_splits(
    g: GraphView,
    w: CostWeights,
    s: RelationSet,
    sub: RelationSet,
    so_far: Option<CandidateView>,
) -> (a: RelationSet)
    requires
        best_among(g, w, s, sub, so_far) is Some,
        best_among(g, w, s, sub, so_far) != so_far,
    ensures
        splits(a, s),
        split_candidate(g, w, s, a) == best_among(g, w, s, sub, so_far),
    decreases sub,
{
    lemma_next_part(s, sub, 0);
    let here = split_candidate(g, w, s, sub);
    let next = cheaper(w, so_far, here);
    let found = best_among(g, w, s, next_part(s, sub), next);
    if found == next {
        sub
    } else {
        lemma_among_splits(g, w, s, next_part(s, sub), next)
    }
}

/// What is found for more than one relation is the join of what is found for
/// the parts of some split.
proof fn lemma_best_splits(g: GraphView, w: CostWeights, s: RelationSet) -> (a: RelationSet)
    requires
        best(g, w, s) is Some,
        !is_single(s),
    ensures
        splits(a, s),
        split_candidate(g, w, s, a) == best(g, w, s),
{
    lemma_among_splits(g, w, s, next_part(s, s), None)
}

/// The plan found for a set is that of a tree.
pub proof fn plans_found_are_trees(g: GraphView, w: CostWeights, s: RelationSet) -> (t: JoinTree)
    requires
        graph_ok(g),
        best(g, w, s) is Some,
    ensures
        well_joined(g, t, false),
        relations_in(t) == s,
        plan_of(g, t) == best(g, w, s),
    decreases s,
{
    if is_single(s) {
        lemma_has_single(member(s), member(s));
        JoinTree::Leaf(member(s))
    } else {
        let a = lemma_best_splits(g, w, s);
        lemma_split(a, s);
        let l = plans_found_are_trees(g, w, a);
        let r = plans_found_are_trees(g, w, rest(s, a));
        let t = node(l, r);
        assert(relations_in(t) == relations_in(l) | relations_in(r));
        assert(plan_of(g, t) == joined_option(g, plan_of(g, l), plan_of(g, r)));
        t
    }
}

/// Where trees keep their order by weight, every weight is a number.
proof fn lemma_weights_are_numbers(
    g: GraphView,
    w: CostWeights,
    s: RelationSet,
    t: JoinTree,
    either: bool,
)
    requires
        graph_ok(g),
        well_joined(g, t, either),
        part_of(relations_in(t), s),
        !weighed(free(), w).is_nan(),
        optimal_substructure(g, w, s, either),
    ensures
        no_dearer(g, w, t, t),
    decreases t,
{
    match t {
        JoinTree::Leaf(i) => {},
        JoinTree::Node(l, r) => {
            let a = relations_in(*l);
            let b = relations_in(*r);
            lemma_tree(g, *l, either);
            lemma_tree(g, *r, either);
            lemma_halves(a, b, s);
            lemma_part_of_part(a, a | b, s);
            lemma_part_of_part(b, a | b, s);
            lemma_weights_are_numbers(g, w, s, *l, either);
            lemma_weights_are_numbers(g, w, s, *r, either);
            assert(t == node(*l, *r));
            assert(no_dearer(g, w, node(*l, *r), node(*l, *r)));
        },
    }
}

/// Where trees keep their order by weight when they are joined, no tree over a
/// set weighs less than the plan found for it.
pub proof fn no_tree_weighs_less(g: GraphView, w: CostWeights, t: JoinTree)
    requires
        graph_ok(g),
        well_joined(g, t, false),
        !weighed(free(), w).is_nan(),
        optimal_substructure(g, w, relations_in(t), false),
    ensures
        best(g, w, relations_in(t)) matches Some(c) && weighed(c.cost, w).num_le(
            weighed(plan_of(g, t)->0.cost, w),
        ),
{
    lemma_whole(relations_in(t), relations_in(t));
    lemma_no_tree_weighs_less(g, w, relations_in(t), t);
}

proof fn lemma_no_tree_weighs_less(g: GraphView, w: CostWeights, s: RelationSet, t: JoinTree)
    requires
        graph_ok(g),
        well_joined(g, t, false),
        part_of(relations_in(t), s),
        !weighed(free(), w).is_nan(),
        optimal_substructure(g, w, s, false),
    ensures
        best(g, w, relations_in(t)) matches Some(c) && weighed(c.cost, w).num_le(
            weighed(plan_of(g, t)->0.cost, w),
        ),
    decreases t,
{
    match t {
        JoinTree::Leaf(i) => {
            lemma_member(i);
        },
        JoinTree::Node(l, r) => {
            let a = relations_in(*l);
            let b = relations_in(*r);
            let both = a | b;
            lemma_tree(g, t, false);
            lemma_tree(g, *l, false);
            lemma_tree(g, *r, false);
            lemma_halves(a, b, s);
            lemma_part_of_part(a, both, s);
            lemma_part_of_part(b, both, s);
            lemma_no_tree_weighs_less(g, w, s, *l);
            lemma_no_tree_weighs_less(g, w, s, *r);
            let p = plans_found_are_trees(g, w, a);
            let q = plans_found_are_trees(g, w, b);
            let u = node(p, q);
            assert(well_joined(g, u, false) && relations_in(u) == both);
            assert(t == node(*l, *r));
            assert(no_dearer(g, w, node(p, q), node(*l, *r)));
            lemma_tree(g, u, false);
            assert(plan_of(g, u) == joined_option(g, plan_of(g, p), plan_of(g, q)));
            assert(split_candidate(g, w, both, a) == plan_of(g, u));
            plans_exist_for_connected_sets(g, w, both);
            no_split_is_cheaper(g, w, both, a);
            let v = plans_found_are_trees(g, w, both);
            lemma_weights_are_numbers(g, w, s, v, false);
        },
    }
}

/// A set of two relations is split one way, the lesser first.
proof fn lemma_pair_splits(i: int, j: int, a: RelationSet)
    requires
        0 <= i < 64,
        0 <= j < 64,
        single(i) & single(j) == 0,
        single(i) < single(j),
        splits(a, single(i) | single(j)),
        a < rest(single(i) | single(j), a),
    ensures
        a == single(i),
{
    let x = i as u64;
    let y = j as u64;
    lemma_has_single(i, i);
    lemma_has_single(j, j);
    lemma_halves(single(i), single(j), 0);
    lemma_split(single(i), single(i) | single(j));
    assert(a & (1u64 << x | 1u64 << y) == a ==> a == 0 || a == 1u64 << x || a == 1u64 << y || a
        == 1u64 << x | 1u64 << y) by (bit_vector)
        requires
            x < 64,
            y < 64,
    ;
}

proof fn lemma_pair_has_one_tree(g: GraphView, w: CostWeights, i: int, j: int)
    requires
        graph_ok(g),
        well_joined(g, node(JoinTree::Leaf(i), JoinTree::Leaf(j)), false),
    ensures
        best(g, w, single(i) | single(j)) == joined_option(g, Some(base(g, i)), Some(base(g, j))),
{
    let l = JoinTree::Leaf(i);
    let r = JoinTree::Leaf(j);
    let s = single(i) | single(j);
    assert(well_joined(g, l, false) && well_joined(g, r, false));
    assert(relations_in(l) == single(i) && relations_in(r) == single(j));
    lemma_tree(g, node(l, r), false);
    assert(relations_in(node(l, r)) == s);
    plans_exist_for_connected_sets(g, w, s);
    lemma_has_single(i, i);
    lemma_has_single(j, j);
    lemma_halves(single(i), single(j), s);
    if is_single(s) {
        lemma_single_is_whole(member(s), single(i));
    }
    let a = lemma_best_splits(g, w, s);
    lemma_pair_splits(i, j, a);
    lemma_member(i);
    lemma_member(j);
}

/// Up to two relations can be joined in one way.
proof fn lemma_pairs_have_one_tree(g: GraphView, w: CostWeights, t: JoinTree)
    requires
        graph_ok(g),
        well_joined(g, t, false),
        leaves(t) <= 2,
    ensures
        best(g, w, relations_in(t)) == plan_of(g, t),
{
    match t {
        JoinTree::Leaf(i) => {
            lemma_member(i);
        },
        JoinTree::Node(l, r) => {
            lemma_tree(g, *l, false);
            lemma_tree(g, *r, false);
            match (*l, *r) {
                (JoinTree::Leaf(i), JoinTree::Leaf(j)) => {
                    assert(t == node(JoinTree::Leaf(i), JoinTree::Leaf(j)));
                    lemma_pair_has_one_tree(g, w, i, j);
                },
                (JoinTree::Node(a, b), _) => {
                    lemma_tree(g, *a, false);
                    lemma_tree(g, *b, false);
                },
                (_, JoinTree::Node(a, b)) => {
                    lemma_tree(g, *a, false);
                    lemma_tree(g, *b, false);
                },
            }
        },
    }
}

/// No tree over up to three relations weighs less than the plan found for them,
/// whatever the weights.
pub proof fn no_tree_of_three_weighs_less(g: GraphView, w: CostWeights, t: JoinTree)
    requires
        graph_ok(g),
        well_joined(g, t, false),
        leaves(t) <= 3,
    ensures
        best(g, w, relations_in(t)) matches Some(c) && !weighed(plan_of(g, t)->0.cost, w).num_lt(
            weighed(c.cost, w),
        ),
{
    lemma_tree(g, t, false);
    plans_exist_for_connected_sets(g, w, relations_in(t));
    match t {
        JoinTree::Leaf(i) => {
            lemma_member(i);
        },
        JoinTree::Node(l, r) => {
            let a = relations_in(*l);
            let b = relations_in(*r);
            lemma_tree(g, *l, false);
            lemma_tree(g, *r, false);
            lemma_pairs_have_one_tree(g, w, *l);
            lemma_pairs_have_one_tree(g, w, *r);
            lemma_halves(a, b, a | b);
            assert(split_candidate(g, w, a | b, a) == plan_of(g, t));
            no_split_is_cheaper(g, w, a | b, a);
        },
    }
}

// ---------------------------------------------------------------------------
// Among connected sets only

proof fn lemma_ccp_among_splits(
    g: GraphView,
    w: CostWeights,
    list: Seq<RelationSet>,
    s: RelationSet,
    i: nat,
    so_far: Option<CandidateView>,
) -> (a: RelationSet)
    requires
        ccp_among(g, w, list, s, i, so_far) is Some,
        ccp_among(g, w, list, s, i, so_far) != so_far,
    ensures
        ccp_candidate(g, w, list, s, a) == ccp_among(g, w, list, s, i, so_far),
    decreases list.len() - i,
{
    let here = ccp_candidate(g, w, list, s, list[i as int]);
    let next = cheaper(w, so_far, here);
    let found = ccp_among(g, w, list, s, i + 1, next);
    if found == next {
        list[i as int]
    } else {
        lemma_ccp_among_splits(g, w, list, s, i + 1, next)
    }
}

/// The plan found for a set among the connected ones is that of a tree.
pub proof fn ccp_plans_are_trees(
    g: GraphView,
    w: CostWeights,
    list: Seq<RelationSet>,
    s: RelationSet,
) -> (t: JoinTree)
    requires
        graph_ok(g),
        ccp(g, w, list, s) is Some,
    ensures
        well_joined(g, t, true),
        relations_in(t) == s,
        plan_of(g, t) == ccp(g, w, list, s),
    decreases s,
{
    if is_single(s) {
        lemma_has_single(member(s), member(s));
        JoinTree::Leaf(member(s))
    } else {
        let a = lemma_ccp_among_splits(g, w, list, s, 0, None);
        lemma_split(a, s);
        let l = ccp_plans_are_trees(g, w, list, a);
        let r = ccp_plans_are_trees(g, w, list, rest(s, a));
        let t = node(l, r);
        assert(relations_in(t) == relations_in(l) | relations_in(r));
        assert(plan_of(g, t) == joined_option(g, plan_of(g, l), plan_of(g, r)));
        t
    }
}

/// Where trees keep their order by weight when they are joined, no tree over a
/// set, its joins written either way, weighs less than the plan found for it
/// among the connected sets.
pub proof fn no_tree_weighs_less_than_ccp(g: GraphView, w: CostWeights, t: JoinTree)
    requires
        graph_ok(g),
        well_joined(g, t, true),
        !weighed(free(), w).is_nan(),
        optimal_substructure(g, w, relations_in(t), true),
    ensures
        ccp(g, w, ordered_sets(g), relations_in(t)) matches Some(c) && weighed(c.cost, w).num_le(
            weighed(plan_of(g, t)->0.cost, w),
        ),
{
    assert forall|k: int| 0 <= k < g.edges.len() implies (#[trigger] g.edges[k]).left_relation < 64
        && g.edges[k].right_relation < 64 by {
        assert(edge_valid(g, g.edges[k]));
    }
    lemma_whole(relations_in(t), relations_in(t));
    lemma_no_tree_weighs_less_than_ccp(g, w, relations_in(t), t);
}

proof fn lemma_no_tree_weighs_less_than_ccp(
    g: GraphView,
    w: CostWeights,
    s: RelationSet,
    t: JoinTree,
)
    requires
        fits(g),
        graph_ok(g),
        well_joined(g, t, true),
        part_of(relations_in(t), s),
        !weighed(free(), w).is_nan(),
        optimal_substructure(g, w, s, true),
    ensures
        ccp(g, w, ordered_sets(g), relations_in(t)) matches Some(c) && weighed(c.cost, w).num_le(
            weighed(plan_of(g, t)->0.cost, w),
        ),
    decreases t,
{
    let list = ordered_sets(g);
    match t {
        JoinTree::Leaf(i) => {
            lemma_member(i);
        },
        JoinTree::Node(l, r) => {
            let a = relations_in(*l);
            let b = relations_in(*r);
            let both = a | b;
            lemma_tree(g, t, true);
            lemma_tree(g, *l, true);
            lemma_tree(g, *r, true);
            lemma_halves(a, b, s);
            lemma_part_of_part(a, both, s);
            lemma_part_of_part(b, both, s);
            lemma_no_tree_weighs_less_than_ccp(g, w, s, *l);
            lemma_no_tree_weighs_less_than_ccp(g, w, s, *r);
            let p = ccp_plans_are_trees(g, w, list, a);
            let q = ccp_plans_are_trees(g, w, list, b);
            let u = node(p, q);
            assert(well_joined(g, u, true) && relations_in(u) == both);
            assert(t == node(*l, *r));
            assert(no_dearer(g, w, node(p, q), node(*l, *r)));
            lemma_tree(g, u, true);
            assert(plan_of(g, u) == joined_option(g, plan_of(g, p), plan_of(g, q)));
            assert(ccp_candidate(g, w, list, both, a) == plan_of(g, u));
            ccp_plans_exist_for_connected_sets(g, w, both);
            ordered_sets_are_the_connected_ones(g, a);
            no_listed_split_is_cheaper(g, w, list, both, a);
            let v = ccp_plans_are_trees(g, w, list, both);
            lemma_weights_are_numbers(g, w, s, v, true);
        },
    }
}

/// Up to a number of relations the order chosen is one that no other beats:
/// where trees keep their order by weight when they are joined, no tree over all
/// the relations weighs less. Beyond that number the order is made greedily, by
/// joining at each step the pair with the fewest rows.
pub proof fn small_graphs_get_the_best_order(
    g: GraphView,
    w: CostWeights,
    threshold: int,
    t: JoinTree,
)
    requires
        graph_ok(g),
        well_joined(g, t, true),
        relations_in(t) == first_relations(g.relations.len() as int),
        !weighed(free(), w).is_nan(),
        optimal_substructure(g, w, relations_in(t), true),
    ensures
        g.relations.len() <= threshold ==> (chosen_order(g, w, threshold) matches Ok(c) && weighed(
            c.cost,
            w,
        ).num_le(weighed(plan_of(g, t)->0.cost, w))),
        g.relations.len() > threshold ==> chosen_order(g, w, threshold) == greedily(g, apart(g)),
{
    no_tree_weighs_less_than_ccp(g, w, t);
}

/// Of two plans the one that weighs less is taken, and of two that weigh the
/// same the first; a plan is better than none.
pub proof fn the_first_of_equal_plans_stays(w: CostWeights, a: CandidateView, b: CandidateView)
    ensures
        weighed(b.cost, w).num_lt(weighed(a.cost, w)) ==> cheaper(w, Some(a), Some(b)) == Some(b),
        weighed(a.cost, w).num_le(weighed(b.cost, w)) ==> cheaper(w, Some(a), Some(b)) == Some(a),
        cheaper(w, Some(a), None) == Some(a),
        cheaper(w, None, Some(b)) == Some(b),
        cheaper(w, None, None) is None,
{
}

} // verus!
