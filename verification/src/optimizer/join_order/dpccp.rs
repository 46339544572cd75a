//! The best join order, looking only at connected sets of relations.

use std::collections::HashMap;
use vstd::prelude::*;

use crate::error::{BasaltError, ErrorKind};
use crate::optimizer::cost::model::{weighed, CostWeights};
use crate::optimizer::join_order::dp::{
    base, candidate_ok, candidate_view, cheaper, joined_option, singles_known, CandidateView,
    DpJoinOptimizer, PlanCandidate,
};
use crate::optimizer::join_order::graph::{
    connected, first_relations, fits, full_set, holds, is_single, lemma_first_relations,
    lemma_has_ops, lemma_has_single, lemma_least, lemma_member, lemma_part_has,
    lemma_part_is_smaller, lemma_part_of, lemma_part_of_part, lemma_same_set,
    lemma_single_is_whole, lemma_split, linked, member, part_of, rest, single, size, splits,
    unions_of_linked_sets_are_connected, GraphView, JoinGraph, RelationSet,
};
use crate::optimizer::join_order::laws::{
    covers, edges_valid, lemma_base_covers, lemma_crossing, lemma_grown, lemma_joined_covers,
    lemma_single_connected, linked_plans_can_be_joined, widths_fit,
};
use crate::optimizer::join_order::subsets::{
    enumerate_connected_subsets, ordered_sets, ordered_sets_are_the_connected_ones, sizes_ascend,
    sort_by_size,
};

verus! {

broadcast use vstd::std_specs::hash::group_hash_axioms;

/// The candidates for the two parts of a split, joined.
pub open spec fn ccp_candidate(
    g: GraphView,
    w: CostWeights,
    list: Seq<RelationSet>,
    s: RelationSet,
    a: RelationSet,
) -> Option<CandidateView>
    decreases s, 0int,
{
    if splits(a, s) && linked(g.edges, a, rest(s, a)) {
        proof {
            lemma_split(a, s);
        }
        joined_option(g, ccp(g, w, list, a), ccp(g, w, list, rest(s, a)))
    } else {
        None
    }
}

/// The cheapest of a candidate and those of the splits from the `i`th set of
/// the list on.
pub open spec fn ccp_among(
    g: GraphView,
    w: CostWeights,
    list: Seq<RelationSet>,
    s: RelationSet,
    i: nat,
    so_far: Option<CandidateView>,
) -> Option<CandidateView>
    decreases s, list.len() - i,
{
    if i >= list.len() {
        so_far
    } else {
        ccp_among(
            g,
            w,
            list,
            s,
            i + 1,
            cheaper(w, so_far, ccp_candidate(g, w, list, s, list[i as int])),
        )
    }
}

/// The best candidate for a set of the list, whose splits are into a set of the
/// list and the rest.
pub open spec fn ccp(
    g: GraphView,
    w: CostWeights,
    list: Seq<RelationSet>,
    s: RelationSet,
) -> Option<CandidateView>
    decreases s, list.len() + 1,
{
    if is_single(s) {
        if member(s) < g.relations.len() {
            Some(base(g, member(s)))
        } else {
            None
        }
    } else if !list.contains(s) {
        None
    } else {
        ccp_among(g, w, list, s, 0, None)
    }
}

/// Whether the best candidates found so far are right, and those of the first
/// `n` sets of the list are there.
pub open spec fn found(
    g: GraphView,
    w: CostWeights,
    list: Seq<RelationSet>,
    memo: Map<RelationSet, PlanCandidate>,
    n: int,
) -> bool {
    &&& singles_known(g, memo)
    &&& forall|m: RelationSet| #[trigger]
        memo.contains_key(m) ==> ccp(g, w, list, m) == Some(memo[m]@) && candidate_ok(g, memo[m]@)
    &&& forall|k: int|
        0 <= k < n && ccp(g, w, list, #[trigger] list[k]) is Some ==> memo.contains_key(list[k])
}

proof fn lemma_found_parts(
    g: GraphView,
    w: CostWeights,
    list: Seq<RelationSet>,
    memo: Map<RelationSet, PlanCandidate>,
    n: int,
    a: RelationSet,
)
    requires
        sizes_ascend(list),
        0 <= n < list.len(),
        found(g, w, list, memo, n),
        splits(a, list[n]),
    ensures
        ccp(g, w, list, a) is Some ==> memo.contains_key(a),
{
    if ccp(g, w, list, a) is Some && !is_single(a) {
        let k = choose|k: int| 0 <= k < list.len() && list[k] == a;
        lemma_part_is_smaller(a, list[n]);
        if k >= n {
            assert(size(list[n]) <= size(list[k]));
        }
        assert(memo.contains_key(list[k]));
    }
}

proof fn lemma_single_has_no_candidate(
    g: GraphView,
    w: CostWeights,
    list: Seq<RelationSet>,
    s: RelationSet,
    i: nat,
)
    requires
        is_single(s),
    ensures
        ccp_among(g, w, list, s, i, None) is None,
    decreases list.len() - i,
{
    if i < list.len() {
        lemma_single_is_whole(member(s), list[i as int]);
        assert(s == single(member(s)));
        assert(ccp_candidate(g, w, list, s, list[i as int]) is None);
        lemma_single_has_no_candidate(g, w, list, s, i + 1);
    }
}

pub struct DpccpJoinOptimizer<'a> {
    inner: DpJoinOptimizer<'a>,
}

impl<'a> DpccpJoinOptimizer<'a> {
    pub closed spec fn graph(&self) -> GraphView {
        self.inner.graph@
    }

    pub closed spec fn weights(&self) -> CostWeights {
        *self.inner.weights
    }

    pub fn new(graph: &'a JoinGraph, weights: &'a CostWeights) -> (r: DpccpJoinOptimizer<'a>)
        ensures
            r.graph() == graph@,
            r.weights() == *weights,
    {
        DpccpJoinOptimizer { inner: DpJoinOptimizer::new(graph, weights) }
    }

    /// The best plan for a set of the list.
    fn best_pair(
        &self,
        list: &Vec<RelationSet>,
        memo: &HashMap<RelationSet, PlanCandidate>,
        n: usize,
    ) -> (r: Option<PlanCandidate>)
        requires
            fits(self.graph()),
            sizes_ascend(list@),
            n < list@.len(),
            found(self.graph(), self.weights(), list@, memo@, n as int),
        ensures
            candidate_view(r) == ccp_among(
                self.graph(),
                self.weights(),
                list@,
                list@[n as int],
                0,
                None,
            ),
            r matches Some(c) ==> candidate_ok(self.graph(), c@),
    {
        let ghost g = self.graph();
        let ghost w = self.weights();
        let s: u64 = list[n];
        let mut best: Option<PlanCandidate> = None;
        let mut i: usize = 0;
        while i < list.len()
            invariant
                i <= list@.len(),
                n < list@.len(),
                s == list@[n as int],
                g == self.inner.graph@,
                w == *self.inner.weights,
                fits(g),
                sizes_ascend(list@),
                found(g, w, list@, memo@, n as int),
                ccp_among(g, w, list@, s, i as nat, candidate_view(best)) == ccp_among(
                    g,
                    w,
                    list@,
                    s,
                    0,
                    None,
                ),
                best matches Some(c) ==> candidate_ok(g, c@),
            decreases list@.len() - i,
        {
            let s1: u64 = list[i];
            let ghost before = candidate_view(best);
            if s1 != s && s1 & s == s1 && s1 != 0 {
                let s2: u64 = s & !s1;
                proof {
                    lemma_split(s1, s);
                    lemma_found_parts(g, w, list@, memo@, n as int, s1);
                    lemma_found_parts(g, w, list@, memo@, n as int, s2);
                }
                match (memo.get(&s1), memo.get(&s2)) {
                    (Some(c1), Some(c2)) => {
                        if self.inner.graph.is_connected(s1, s2) {
                            match self.inner.build_join(c1, c2) {
                                Ok(candidate) => {
                                    let better = match &best {
                                        None => true,
                                        Some(b) => candidate.cost.total(self.inner.weights).lt_num(
                                            b.cost.total(self.inner.weights),
                                        ),
                                    };
                                    if better {
                                        best = Some(candidate);
                                    }
                                },
                                Err(_) => {},
                            }
                        }
                    },
                    _ => {},
                }
            }
            assert(candidate_view(best) == cheaper(
                w,
                before,
                ccp_candidate(g, w, list@, s, s1),
            ));
            i = i + 1;
        }
        best
    }

    /// The best plan that joins all relations.
    ///
    /// # Errors
    /// An internal error where there are no relations, and where only a cross
    /// product would join them all.
    pub fn optimize(&self) -> (r: Result<PlanCandidate, BasaltError>)
        requires
            fits(self.graph()),
        ensures
            match r {
                Ok(c) => ccp(
                    self.graph(),
                    self.weights(),
                    ordered_sets(self.graph()),
                    first_relations(self.graph().relations.len() as int),
                ) == Some(c@),
                Err(e) => e@ == ErrorKind::Internal && ccp(
                    self.graph(),
                    self.weights(),
                    ordered_sets(self.graph()),
                    first_relations(self.graph().relations.len() as int),
                ) is None,
            },
    {
        let ghost g = self.graph();
        let ghost w = self.weights();
        let n: usize = self.inner.graph.num_relations();
        let full = full_set(n);
        let subsets = enumerate_connected_subsets(self.inner.graph);
        let list = sort_by_size(&subsets);
        proof {
            ordered_sets_are_the_connected_ones(g, 0);
            if is_single(0) {
                lemma_has_single(member(0), member(0));
            }
        }
        if n == 0 {
            proof {
                assert forall|i: int| 0 <= i < 64 implies (#[trigger] holds(full, i) <==> holds(
                    0,
                    i,
                )) by {
                    lemma_has_ops(0, 0, i);
                }
                lemma_same_set(full, 0);
            }
            return Err(BasaltError::internal("cannot join zero relations"));
        }
        let mut memo = self.inner.base_candidates();
        let mut i: usize = 0;
        proof {
            assert forall|m: RelationSet| #[trigger] memo@.contains_key(m) implies ccp(
                g,
                w,
                list@,
                m,
            ) == Some(memo@[m]@) && candidate_ok(g, memo@[m]@) by {
                assert(is_single(m));
            }
        }
        while i < list.len()
            invariant
                i <= list@.len(),
                g == self.graph(),
                w == self.weights(),
                fits(g),
                sizes_ascend(list@),
                found(g, w, list@, memo@, i as int),
            decreases list@.len() - i,
        {
            let s: u64 = list[i];
            if !memo.contains_key(&s) {
                let ghost was = memo@;
                let best = self.best_pair(&list, &memo, i);
                proof {
                    assert(list@.contains(s));
                    if is_single(s) {
                        lemma_single_has_no_candidate(g, w, list@, s, 0);
                        if member(s) < g.relations.len() {
                            assert(was.contains_key(single(member(s))));
                        }
                    }
                }
                match best {
                    Some(c) => {
                        memo.insert(s, c);
                        assert(memo@ =~= was.insert(s, c));
                    },
                    None => {},
                }
            }
            i = i + 1;
        }
        match memo.get(&full) {
            Some(c) => Ok(c.copy()),
            None => {
                proof {
                    if ccp(g, w, list@, full) is Some {
                        if is_single(full) {
                            assert(memo@.contains_key(single(member(full))));
                        } else {
                            let k = choose|k: int| 0 <= k < list@.len() && list@[k] == full;
                            assert(memo@.contains_key(list@[k]));
                        }
                    }
                }
                Err(
                    BasaltError::internal(
                        "join graph is disconnected: no join order avoids a cross product",
                    ),
                )
            },
        }
    }
}

// ---------------------------------------------------------------------------
// What is found

proof fn lemma_ccp_among_covers(
    g: GraphView,
    w: CostWeights,
    list: Seq<RelationSet>,
    s: RelationSet,
    i: nat,
    so_far: Option<CandidateView>,
)
    requires
        g.relations.len() <= 64,
        widths_fit(g),
        so_far matches Some(c) ==> covers(g, c.column_order, s) && connected(g.edges, s),
    ensures
        ccp_among(g, w, list, s, i, so_far) matches Some(c) ==> covers(g, c.column_order, s)
            && connected(g.edges, s),
    decreases s, list.len() - i,
{
    if i < list.len() {
        let a = list[i as int];
        if ccp_candidate(g, w, list, s, a) is Some {
            lemma_split(a, s);
            ccp_covers_its_set(g, w, list, a);
            ccp_covers_its_set(g, w, list, rest(s, a));
            let l = ccp(g, w, list, a)->0;
            let r = ccp(g, w, list, rest(s, a))->0;
            lemma_joined_covers(g, l.column_order, r.column_order, a, s);
            unions_of_linked_sets_are_connected(g.edges, a, rest(s, a));
        }
        lemma_ccp_among_covers(
            g,
            w,
            list,
            s,
            i + 1,
            cheaper(w, so_far, ccp_candidate(g, w, list, s, a)),
        );
    }
}

/// The best plan for a set puts out every column of every relation of the set,
/// each once, and the set is connected.
pub proof fn ccp_covers_its_set(
    g: GraphView,
    w: CostWeights,
    list: Seq<RelationSet>,
    s: RelationSet,
)
    requires
        g.relations.len() <= 64,
        widths_fit(g),
        ccp(g, w, list, s) is Some,
    ensures
        covers(g, ccp(g, w, list, s)->0.column_order, s),
        connected(g.edges, s),
    decreases s, list.len() + 1,
{
    if is_single(s) {
        lemma_base_covers(g, member(s));
        lemma_single_connected(g.edges, member(s));
    } else {
        lemma_ccp_among_covers(g, w, list, s, 0, None);
    }
}

proof fn lemma_ccp_keeps(
    g: GraphView,
    w: CostWeights,
    list: Seq<RelationSet>,
    s: RelationSet,
    i: nat,
    so_far: Option<CandidateView>,
)
    requires
        so_far is Some,
    ensures
        ccp_among(g, w, list, s, i, so_far) is Some,
    decreases list.len() - i,
{
    if i < list.len() {
        lemma_ccp_keeps(
            g,
            w,
            list,
            s,
            i + 1,
            cheaper(w, so_far, ccp_candidate(g, w, list, s, list[i as int])),
        );
    }
}

proof fn lemma_ccp_finds(
    g: GraphView,
    w: CostWeights,
    list: Seq<RelationSet>,
    s: RelationSet,
    i: nat,
    so_far: Option<CandidateView>,
    k: int,
)
    requires
        i <= k < list.len(),
        ccp_candidate(g, w, list, s, list[k]) is Some,
    ensures
        ccp_among(g, w, list, s, i, so_far) is Some,
    decreases list.len() - i,
{
    let next = cheaper(w, so_far, ccp_candidate(g, w, list, s, list[i as int]));
    if i == k {
        lemma_ccp_keeps(g, w, list, s, i + 1, next);
    } else {
        lemma_ccp_finds(g, w, list, s, i + 1, next, k);
    }
}

proof fn lemma_ccp_grow(g: GraphView, w: CostWeights, s: RelationSet, t: RelationSet)
    requires
        fits(g),
        widths_fit(g),
        edges_valid(g),
        connected(g.edges, s),
        part_of(s, first_relations(g.relations.len() as int)),
        part_of(t, s),
        t != 0,
        ccp(g, w, ordered_sets(g), t) is Some,
    ensures
        ccp(g, w, ordered_sets(g), s) is Some,
    decreases size(s) - size(t),
{
    if t != s {
        let list = ordered_sets(g);
        let all = first_relations(g.relations.len() as int);
        assert(splits(t, s));
        let v = lemma_crossing(g.edges, t, rest(s, t));
        let next = lemma_grown(g.edges, s, t, v);
        lemma_part_has(rest(s, t), s, v);
        lemma_part_has(s, all, v);
        lemma_first_relations(g.relations.len() as int, v);
        lemma_member(v);
        lemma_single_connected(g.edges, v);
        ccp_covers_its_set(g, w, list, t);
        ccp_covers_its_set(g, w, list, single(v));
        unions_of_linked_sets_are_connected(g.edges, t, single(v));
        linked_plans_can_be_joined(
            g,
            ccp(g, w, list, t)->0,
            ccp(g, w, list, single(v))->0,
            t,
            single(v),
        );
        lemma_part_of_part(next, s, all);
        lemma_part_of_part(t, s, all);
        ordered_sets_are_the_connected_ones(g, t);
        ordered_sets_are_the_connected_ones(g, next);
        if is_single(next) {
            lemma_single_is_whole(member(next), t);
        }
        assert(ccp_candidate(g, w, list, next, t) is Some);
        let k = choose|k: int| 0 <= k < list.len() && list[k] == t;
        lemma_ccp_finds(g, w, list, next, 0, None, k);
        lemma_ccp_grow(g, w, s, next);
    }
}

proof fn lemma_ccp_cheapest(
    g: GraphView,
    w: CostWeights,
    list: Seq<RelationSet>,
    s: RelationSet,
    i: nat,
    so_far: Option<CandidateView>,
    k: int,
)
    ensures
        ccp_among(g, w, list, s, i, so_far) matches Some(c) ==> {
            &&& so_far matches Some(y) ==> c == y || weighed(c.cost, w).num_lt(weighed(y.cost, w))
            &&& i <= k < list.len() ==> (ccp_candidate(g, w, list, s, list[k]) matches Some(x)
                ==> !weighed(x.cost, w).num_lt(weighed(c.cost, w)))
        },
    decreases list.len() - i,
{
    if i < list.len() {
        let here = ccp_candidate(g, w, list, s, list[i as int]);
        lemma_ccp_cheapest(g, w, list, s, i + 1, cheaper(w, so_far, here), k);
    }
}

/// No split of a connected set into a set of the list and the rest gives a
/// cheaper plan than the one found.
pub proof fn no_listed_split_is_cheaper(
    g: GraphView,
    w: CostWeights,
    list: Seq<RelationSet>,
    s: RelationSet,
    a: RelationSet,
)
    requires
        ccp(g, w, list, s) is Some,
        list.contains(a),
        ccp_candidate(g, w, list, s, a) is Some,
    ensures
        !weighed(ccp_candidate(g, w, list, s, a)->0.cost, w).num_lt(
            weighed(ccp(g, w, list, s)->0.cost, w),
        ),
{
    if is_single(s) {
        lemma_single_is_whole(member(s), a);
    }
    let k = choose|k: int| 0 <= k < list.len() && list[k] == a;
    lemma_ccp_cheapest(g, w, list, s, 0, None, k);
}

/// There is a plan for a set of relations, without a cross product, exactly
/// when the set is connected.
pub proof fn ccp_plans_exist_for_connected_sets(g: GraphView, w: CostWeights, s: RelationSet)
    requires
        fits(g),
        widths_fit(g),
        edges_valid(g),
        part_of(s, first_relations(g.relations.len() as int)),
    ensures
        ccp(g, w, ordered_sets(g), s) is Some <==> connected(g.edges, s),
{
    if ccp(g, w, ordered_sets(g), s) is Some {
        ccp_covers_its_set(g, w, ordered_sets(g), s);
    }
    if connected(g.edges, s) {
        let i = lemma_least(s);
        lemma_part_has(s, first_relations(g.relations.len() as int), i);
        lemma_first_relations(g.relations.len() as int, i);
        lemma_member(i);
        lemma_has_single(i, i);
        assert forall|j: int| 0 <= j < 64 && #[trigger] holds(single(i), j) implies holds(s, j) by {
            lemma_has_single(i, j);
        }
        lemma_part_of(single(i), s);
        lemma_ccp_grow(g, w, s, single(i));
    }
}

} // verus!
