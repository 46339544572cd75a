//! A join order found step by step: the two sets whose join is expected to be
//! the smallest are joined, until one is left. There is no guarantee that the
//! order is the best, but the work is polynomial where the search for the best
//! is exponential.

use vstd::prelude::*;

use crate::error::{BasaltError, ErrorKind};
use crate::optimizer::cost::model::CostWeights;
use crate::optimizer::join_order::dp::{
    base, candidate_ok, candidate_outcome, joined, CandidateView, DpJoinOptimizer, PlanCandidate,
};
use crate::optimizer::join_order::dpccp::{ccp, DpccpJoinOptimizer};
use crate::optimizer::join_order::graph::{
    connected, first_relations, fits, holds, lemma_first_relations, lemma_has_ops,
    lemma_has_single, lemma_least, lemma_linked_grows, lemma_part_of, lemma_same_set, linked, rest,
    single, singleton, splits, unions_of_linked_sets_are_connected, GraphView, JoinGraph,
    RelationSet,
};
use crate::optimizer::join_order::laws::{
    covers, edges_valid, lemma_base_covers, lemma_crossing, lemma_joined_covers,
    lemma_single_connected, linked_plans_can_be_joined, widths_fit,
};
use crate::optimizer::join_order::subsets::ordered_sets;
use crate::statistics::Precision;

verus! {

/// Sets of relations, each with its plan.
pub type Forest = Seq<(RelationSet, CandidateView)>;

/// Every relation by itself.
pub open spec fn apart(g: GraphView) -> Forest {
    Seq::new(g.relations.len(), |i: int| (single(i), base(g, i)))
}

/// Two of the sets, joined.
pub open spec fn pair_candidate(g: GraphView, f: Forest, i: int, j: int) -> Option<CandidateView> {
    if linked(g.edges, f[i].0, f[j].0) {
        match joined(g, f[i].1, f[j].1) {
            Ok(c) => Some(c),
            Err(k) => None,
        }
    } else {
        None
    }
}

/// A row count for comparing: one that is not known comes last.
pub open spec fn rows_or_most(p: Precision<usize>) -> usize {
    match p.value() {
        Some(n) => n,
        None => usize::MAX,
    }
}

/// A pair of sets, with their join.
pub type Pick = Option<(int, int, CandidateView)>;

/// The pair with the smaller join, the first where neither is smaller.
pub open spec fn smaller(so_far: Pick, i: int, j: int, c: Option<CandidateView>) -> Pick {
    match (so_far, c) {
        (_, None) => so_far,
        (None, Some(x)) => Some((i, j, x)),
        (Some(b), Some(x)) => if rows_or_most(x.cardinality) < rows_or_most(b.2.cardinality) {
            Some((i, j, x))
        } else {
            so_far
        },
    }
}

/// The pair with the smallest join, of a pair and those from `(i, j)` on.
pub open spec fn smallest(g: GraphView, f: Forest, i: nat, j: nat, so_far: Pick) -> Pick
    decreases f.len() - i, f.len() - j,
{
    if i >= f.len() {
        so_far
    } else if j >= f.len() {
        smallest(g, f, i + 1, i + 2, so_far)
    } else {
        smallest(
            g,
            f,
            i,
            j + 1,
            smaller(so_far, i as int, j as int, pair_candidate(g, f, i as int, j as int)),
        )
    }
}

/// Two sets replaced by their union.
pub open spec fn merged(f: Forest, i: int, j: int, c: CandidateView) -> Forest {
    f.remove(j).remove(i).push((f[i].0 | f[j].0, c))
}

/// The plan that is left when the smallest join is made again and again.
pub open spec fn greedily(g: GraphView, f: Forest) -> Result<CandidateView, ErrorKind>
    decreases f.len(),
{
    if f.len() == 0 {
        Err(ErrorKind::Internal)
    } else if f.len() == 1 {
        Ok(f[0].1)
    } else {
        match smallest(g, f, 0, 1, None) {
            None => Err(ErrorKind::Internal),
            Some((i, j, c)) => if 0 <= i < j < f.len() {
                greedily(g, merged(f, i, j, c))
            } else {
                Err(ErrorKind::Internal)
            },
        }
    }
}

proof fn lemma_smallest_is_a_pair(g: GraphView, f: Forest, i: nat, j: nat, so_far: Pick)
    requires
        i < j,
        so_far matches Some(p) ==> 0 <= p.0 < p.1 < f.len() && pair_candidate(g, f, p.0, p.1)
            == Some(p.2),
    ensures
        smallest(g, f, i, j, so_far) matches Some(p) ==> 0 <= p.0 < p.1 < f.len()
            && pair_candidate(g, f, p.0, p.1) == Some(p.2),
    decreases f.len() - i, f.len() - j,
{
    if i < f.len() {
        if j >= f.len() {
            lemma_smallest_is_a_pair(g, f, i + 1, i + 2, so_far);
        } else {
            lemma_smallest_is_a_pair(
                g,
                f,
                i,
                j + 1,
                smaller(so_far, i as int, j as int, pair_candidate(g, f, i as int, j as int)),
            );
        }
    }
}

proof fn lemma_smallest_keeps(g: GraphView, f: Forest, i: nat, j: nat, so_far: Pick)
    requires
        so_far is Some,
    ensures
        smallest(g, f, i, j, so_far) is Some,
    decreases f.len() - i, f.len() - j,
{
    if i < f.len() {
        if j >= f.len() {
            lemma_smallest_keeps(g, f, i + 1, i + 2, so_far);
        } else {
            lemma_smallest_keeps(
                g,
                f,
                i,
                j + 1,
                smaller(so_far, i as int, j as int, pair_candidate(g, f, i as int, j as int)),
            );
        }
    }
}

proof fn lemma_smallest_finds(g: GraphView, f: Forest, j: nat, so_far: Pick, k: int)
    requires
        0 < j <= k < f.len(),
        pair_candidate(g, f, 0, k) is Some,
    ensures
        smallest(g, f, 0, j, so_far) is Some,
    decreases f.len() - j,
{
    let next = smaller(so_far, 0, j as int, pair_candidate(g, f, 0, j as int));
    if j == k {
        lemma_smallest_keeps(g, f, 0, j + 1, next);
    } else {
        lemma_smallest_finds(g, f, j + 1, next, k);
    }
}

// ---------------------------------------------------------------------------
// What is found

/// Whether sets are connected parts of a whole, apart from each other, with
/// plans for them.
pub open spec fn parts_of_whole(g: GraphView, f: Forest, s: RelationSet) -> bool {
    &&& forall|k: int|
        0 <= k < f.len() ==> {
            &&& connected(g.edges, (#[trigger] f[k]).0)
            &&& covers(g, f[k].1.column_order, f[k].0)
        }
    &&& forall|k: int, m: int|
        0 <= k < m < f.len() ==> (#[trigger] f[k]).0 & (#[trigger] f[m]).0 == 0
    &&& forall|i: int|
        0 <= i < 64 ==> (#[trigger] holds(s, i) <==> exists|k: int|
            0 <= k < f.len() && holds((#[trigger] f[k]).0, i))
}

proof fn lemma_apart(g: GraphView)
    requires
        fits(g),
        widths_fit(g),
    ensures
        parts_of_whole(g, apart(g), first_relations(g.relations.len() as int)),
{
    let f = apart(g);
    let n = g.relations.len() as int;
    let s = first_relations(n);
    assert forall|k: int| 0 <= k < f.len() implies {
        &&& connected(g.edges, (#[trigger] f[k]).0)
        &&& covers(g, f[k].1.column_order, f[k].0)
    } by {
        lemma_single_connected(g.edges, k);
        lemma_base_covers(g, k);
    }
    assert forall|k: int, m: int| 0 <= k < m < f.len() implies (#[trigger] f[k]).0
        & (#[trigger] f[m]).0 == 0 by {
        assert forall|i: int| 0 <= i < 64 implies (#[trigger] holds(f[k].0 & f[m].0, i) <==> holds(
            0,
            i,
        )) by {
            lemma_has_ops(f[k].0, f[m].0, i);
            lemma_has_single(k, i);
            lemma_has_single(m, i);
        }
        lemma_same_set(f[k].0 & f[m].0, 0);
    }
    assert forall|i: int| 0 <= i < 64 implies (#[trigger] holds(s, i) <==> exists|k: int|
        0 <= k < f.len() && holds((#[trigger] f[k]).0, i)) by {
        lemma_first_relations(n, i);
        if i < n {
            lemma_has_single(i, i);
            assert(holds(f[i].0, i));
        }
        if exists|k: int| 0 <= k < f.len() && holds((#[trigger] f[k]).0, i) {
            let k = choose|k: int| 0 <= k < f.len() && holds((#[trigger] f[k]).0, i);
            lemma_has_single(k, i);
        }
    }
}

proof fn lemma_merged(g: GraphView, f: Forest, s: RelationSet, i: int, j: int, c: CandidateView)
    requires
        parts_of_whole(g, f, s),
        0 <= i < j < f.len(),
        pair_candidate(g, f, i, j) == Some(c),
    ensures
        parts_of_whole(g, merged(f, i, j, c), s),
        merged(f, i, j, c).len() == f.len() - 1,
{
    let a = f[i].0;
    let b = f[j].0;
    let u = a | b;
    let h = f.remove(j).remove(i);
    let m = merged(f, i, j, c);
    unions_of_linked_sets_are_connected(g.edges, a, b);
    assert(a & b == 0);
    assert(a & b == 0 && a != 0 && b != 0 ==> a & (a | b) == a && a != (a | b) && (a | b) & !a == b)
        by (bit_vector);
    lemma_joined_covers(g, f[i].1.column_order, f[j].1.column_order, a, u);
    let back = |k: int|
        if k < i {
            k
        } else if k < j - 1 {
            k + 1
        } else {
            k + 2
        };
    assert forall|k: int| 0 <= k < h.len() implies #[trigger] h[k] == f[back(k)] by {}
    assert forall|k: int| 0 <= k < m.len() implies {
        &&& connected(g.edges, (#[trigger] m[k]).0)
        &&& covers(g, m[k].1.column_order, m[k].0)
    } by {
        if k < h.len() {
            assert(m[k] == f[back(k)]);
        }
    }
    assert forall|p: int, q: int| 0 <= p < q < m.len() implies (#[trigger] m[p]).0
        & (#[trigger] m[q]).0 == 0 by {
        let x = back(p);
        assert(m[p] == f[x]);
        if q < h.len() {
            assert(m[q] == f[back(q)]);
        } else {
            let y = f[x].0;
            assert(y & a == 0 && y & b == 0) by {
                if x < i {
                    assert(f[x].0 & f[i].0 == 0);
                } else {
                    assert(f[i].0 & f[x].0 == 0);
                    assert(a & y == 0 ==> y & a == 0) by (bit_vector);
                }
                if x < j {
                    assert(f[x].0 & f[j].0 == 0);
                } else {
                    assert(f[j].0 & f[x].0 == 0);
                    assert(b & y == 0 ==> y & b == 0) by (bit_vector);
                }
            }
            assert(y & a == 0 && y & b == 0 ==> y & (a | b) == 0) by (bit_vector);
        }
    }
    assert forall|v: int| 0 <= v < 64 implies (#[trigger] holds(s, v) <==> exists|k: int|
        0 <= k < m.len() && holds((#[trigger] m[k]).0, v)) by {
        lemma_has_ops(a, b, v);
        if holds(s, v) {
            let k = choose|k: int| 0 <= k < f.len() && holds((#[trigger] f[k]).0, v);
            if k == i || k == j {
                assert(holds(m[h.len() as int].0, v));
            } else {
                let q = if k < i {
                    k
                } else if k < j {
                    k - 1
                } else {
                    k - 2
                };
                assert(back(q) == k);
                assert(m[q] == f[k]);
                assert(holds(m[q].0, v));
            }
        }
        if exists|k: int| 0 <= k < m.len() && holds((#[trigger] m[k]).0, v) {
            let k = choose|k: int| 0 <= k < m.len() && holds((#[trigger] m[k]).0, v);
            if k < h.len() {
                assert(m[k] == f[back(k)]);
                assert(holds(f[back(k)].0, v));
            } else if holds(a, v) {
                assert(holds(f[i].0, v));
            } else {
                assert(holds(f[j].0, v));
            }
        }
    }
}

proof fn lemma_some_pair(g: GraphView, f: Forest, s: RelationSet)
    requires
        fits(g),
        edges_valid(g),
        parts_of_whole(g, f, s),
        f.len() >= 2,
        connected(g.edges, s),
    ensures
        smallest(g, f, 0, 1, None) is Some,
{
    let a = f[0].0;
    assert forall|i: int| 0 <= i < 64 && #[trigger] holds(a, i) implies holds(s, i) by {
        assert(holds(f[0].0, i));
    }
    lemma_part_of(a, s);
    assert(connected(g.edges, f[1].0));
    let x = lemma_least(f[1].0);
    assert(f[0].0 & f[1].0 == 0);
    lemma_has_ops(f[0].0, f[1].0, x);
    lemma_has_ops(0, 0, x);
    assert(holds(s, x));
    assert(splits(a, s));
    let v = lemma_crossing(g.edges, a, rest(s, a));
    lemma_has_ops(s, a, v);
    let k = choose|k: int| 0 <= k < f.len() && holds((#[trigger] f[k]).0, v);
    let b = f[k].0;
    assert forall|i: int| 0 <= i < 64 && #[trigger] holds(single(v), i) implies holds(b, i) by {
        lemma_has_single(v, i);
    }
    lemma_part_of(single(v), b);
    crate::optimizer::join_order::graph::lemma_whole(a, a);
    lemma_linked_grows(g.edges, a, single(v), a, b);
    linked_plans_can_be_joined(g, f[0].1, f[k].1, a, b);
    lemma_smallest_finds(g, f, 1, None, k);
}

proof fn lemma_greedily(g: GraphView, f: Forest, s: RelationSet)
    requires
        fits(g),
        widths_fit(g),
        edges_valid(g),
        parts_of_whole(g, f, s),
        f.len() > 0,
    ensures
        greedily(g, f) is Ok <==> connected(g.edges, s),
        greedily(g, f) matches Ok(c) ==> covers(g, c.column_order, s),
    decreases f.len(),
{
    if f.len() == 1 {
        assert forall|i: int| 0 <= i < 64 implies (#[trigger] holds(s, i) <==> holds(f[0].0, i)) by {
            if holds(f[0].0, i) {
                assert(holds(f[0].0, i));
            }
        }
        lemma_same_set(s, f[0].0);
        assert(connected(g.edges, f[0].0));
    } else {
        lemma_smallest_is_a_pair(g, f, 0, 1, None);
        if connected(g.edges, s) {
            lemma_some_pair(g, f, s);
        }
        match smallest(g, f, 0, 1, None) {
            Some((i, j, c)) => {
                lemma_merged(g, f, s, i, j, c);
                lemma_greedily(g, merged(f, i, j, c), s);
            },
            None => {},
        }
    }
}

/// The greedy order joins every relation, puts out each of their columns once,
/// and is found exactly when the relations are connected.
pub proof fn greedy_plans_exist_for_connected_graphs(g: GraphView)
    requires
        fits(g),
        widths_fit(g),
        edges_valid(g),
        g.relations.len() > 0,
    ensures
        greedily(g, apart(g)) is Ok <==> connected(
            g.edges,
            first_relations(g.relations.len() as int),
        ),
        greedily(g, apart(g)) matches Ok(c) ==> covers(
            g,
            c.column_order,
            first_relations(g.relations.len() as int),
        ),
{
    lemma_apart(g);
    lemma_greedily(g, apart(g), first_relations(g.relations.len() as int));
}

/// Whether a join is expected to give no more rows than another: a count that
/// is not known is taken to be the greatest there is.
pub open spec fn no_more_rows(c: CandidateView, d: CandidateView) -> bool {
    match (c.cardinality.value(), d.cardinality.value()) {
        (Some(x), Some(y)) => x <= y,
        (None, Some(y)) => y == usize::MAX,
        (_, None) => true,
    }
}

/// Of two joins the one with fewer rows is taken, and of two with as many the
/// first; a join is better than none, and a count that is not known is the
/// greatest.
pub proof fn the_first_of_equal_joins_stays(
    i: int,
    j: int,
    a: CandidateView,
    k: int,
    l: int,
    b: CandidateView,
)
    ensures
        !no_more_rows(a, b) ==> smaller(Some((i, j, a)), k, l, Some(b)) == Some((k, l, b)),
        no_more_rows(a, b) ==> smaller(Some((i, j, a)), k, l, Some(b)) == Some((i, j, a)),
        smaller(Some((i, j, a)), k, l, None) == Some((i, j, a)),
        smaller(None, k, l, Some(b)) == Some((k, l, b)),
{
}

proof fn lemma_smallest_is_least(
    g: GraphView,
    f: Forest,
    i: nat,
    j: nat,
    so_far: Pick,
    k: int,
    m: int,
)
    requires
        i < j,
        0 <= k < m < f.len(),
    ensures
        so_far matches Some(b) ==> {
            &&& smallest(g, f, i, j, so_far) is Some
            &&& no_more_rows(smallest(g, f, i, j, so_far)->Some_0.2, b.2)
        },
        (k > i || (k == i && m >= j)) && pair_candidate(g, f, k, m) is Some ==> {
            &&& smallest(g, f, i, j, so_far) is Some
            &&& no_more_rows(
                smallest(g, f, i, j, so_far)->Some_0.2,
                pair_candidate(g, f, k, m)->Some_0,
            )
        },
    decreases f.len() - i, f.len() - j,
{
    if i < f.len() {
        if j >= f.len() {
            lemma_smallest_is_least(g, f, i + 1, i + 2, so_far, k, m);
        } else {
            let next = smaller(so_far, i as int, j as int, pair_candidate(g, f, i as int, j as int));
            lemma_smallest_is_least(g, f, i, j + 1, next, k, m);
        }
    }
}

/// Each greedy step makes the join that is expected to be the smallest. Of
/// several sets with their plans, two that an edge links are replaced by their
/// union and the join of their plans; no other two that are linked and can be
/// joined would give fewer rows, where a count that is not known is taken to be
/// the greatest. Where no two can be joined there is no order.
pub proof fn greedy_steps_make_the_smallest_join(g: GraphView, f: Forest)
    requires
        f.len() >= 2,
    ensures
        (forall|k: int, m: int|
            0 <= k < m < f.len() && linked(g.edges, (#[trigger] f[k]).0, (#[trigger] f[m]).0)
                ==> joined(g, f[k].1, f[m].1) is Err) ==> greedily(g, f) == Err::<
            CandidateView,
            ErrorKind,
        >(ErrorKind::Internal),
        (exists|k: int, m: int|
            0 <= k < m < f.len() && linked(g.edges, (#[trigger] f[k]).0, (#[trigger] f[m]).0)
                && joined(g, f[k].1, f[m].1) is Ok) ==> exists|i: int, j: int|
            {
                &&& 0 <= i < j < f.len()
                &&& linked(g.edges, (#[trigger] f[i]).0, (#[trigger] f[j]).0)
                &&& joined(g, f[i].1, f[j].1) is Ok
                &&& greedily(g, f) == greedily(
                    g,
                    f.remove(j).remove(i).push(
                        (f[i].0 | f[j].0, joined(g, f[i].1, f[j].1)->Ok_0),
                    ),
                )
                &&& forall|k: int, m: int|
                    0 <= k < m < f.len() && linked(
                        g.edges,
                        (#[trigger] f[k]).0,
                        (#[trigger] f[m]).0,
                    ) && joined(g, f[k].1, f[m].1) is Ok ==> no_more_rows(
                        joined(g, f[i].1, f[j].1)->Ok_0,
                        joined(g, f[k].1, f[m].1)->Ok_0,
                    )
            },
{
    let pick = smallest(g, f, 0, 1, None);
    lemma_smallest_is_a_pair(g, f, 0, 1, None);
    assert forall|k: int, m: int|
        0 <= k < m < f.len() && linked(g.edges, (#[trigger] f[k]).0, (#[trigger] f[m]).0)
            && joined(g, f[k].1, f[m].1) is Ok implies pick is Some && no_more_rows(
        pick->Some_0.2,
        joined(g, f[k].1, f[m].1)->Ok_0,
    ) by {
        lemma_smallest_is_least(g, f, 0, 1, None, k, m);
    }
    if let Some((i, j, c)) = pick {
        assert(linked(g.edges, f[i].0, f[j].0));
        assert(joined(g, f[i].1, f[j].1) == Ok::<CandidateView, ErrorKind>(c));
        assert(greedily(g, f) == greedily(g, merged(f, i, j, c)));
    }
}

/// The greedy order starts from every relation by itself, and one set that is
/// left is the answer.
pub proof fn greedy_orders_start_from_the_relations(g: GraphView, x: (RelationSet, CandidateView))
    ensures
        apart(g).len() == g.relations.len(),
        forall|i: int|
            0 <= i < g.relations.len() ==> {
                &&& (#[trigger] apart(g)[i]).0 == single(i)
                &&& apart(g)[i].1.plan == g.relations[i].plan
                &&& apart(g)[i].1.cardinality == g.relations[i].stats.num_rows
            },
        greedily(g, seq![x]) == Ok::<CandidateView, ErrorKind>(x.1),
        greedily(g, Seq::empty()) is Err,
{
}

// ---------------------------------------------------------------------------
// The algorithm

/// The models of sets with their plans.
pub open spec fn forest_view(v: Seq<(RelationSet, PlanCandidate)>) -> Forest {
    Seq::new(v.len(), |i: int| (v[i].0, v[i].1@))
}

/// Whether the plans are over columns of the graph's relations.
pub open spec fn plans_ok(g: GraphView, f: Forest) -> bool {
    forall|k: int| 0 <= k < f.len() ==> candidate_ok(g, (#[trigger] f[k]).1)
}

/// The model of a pick.
pub open spec fn pick_view(p: Option<(usize, usize, PlanCandidate)>) -> Pick {
    match p {
        Some((i, j, c)) => Some((i as int, j as int, c@)),
        None => None,
    }
}

fn rows_to_compare(p: Precision<usize>) -> (r: usize)
    ensures
        r == rows_or_most(p),
{
    match p.get_value() {
        Some(n) => *n,
        None => usize::MAX,
    }
}

/// The pair with the smallest join.
fn smallest_pair(opt: &DpJoinOptimizer, current: &Vec<(RelationSet, PlanCandidate)>) -> (r: Option<
    (usize, usize, PlanCandidate),
>)
    requires
        fits(opt.graph@),
        plans_ok(opt.graph@, forest_view(current@)),
    ensures
        pick_view(r) == smallest(opt.graph@, forest_view(current@), 0, 1, None),
        r matches Some((i, j, c)) ==> i < j < current@.len() && candidate_ok(opt.graph@, c@),
{
    let ghost g = opt.graph@;
    let ghost f = forest_view(current@);
    let n: usize = current.len();
    let mut best: Option<(usize, usize, PlanCandidate)> = None;
    let mut i: usize = 0;
    while i < n
        invariant
            n == current@.len(),
            i <= n,
            g == opt.graph@,
            f == forest_view(current@),
            fits(g),
            plans_ok(g, f),
            smallest(g, f, i as nat, (i + 1) as nat, pick_view(best)) == smallest(g, f, 0, 1, None),
            best matches Some((p, q, c)) ==> p < q < n && candidate_ok(g, c@),
        decreases n - i,
    {
        let mut j: usize = i + 1;
        while j < n
            invariant
                n == current@.len(),
                i < n,
                i < j <= n,
                g == opt.graph@,
                f == forest_view(current@),
                fits(g),
                plans_ok(g, f),
                smallest(g, f, i as nat, j as nat, pick_view(best)) == smallest(g, f, 0, 1, None),
                best matches Some((p, q, c)) ==> p < q < n && candidate_ok(g, c@),
            decreases n - j,
        {
            let ghost before = pick_view(best);
            assert(f[i as int] == (current@[i as int].0, current@[i as int].1@));
            assert(f[j as int] == (current@[j as int].0, current@[j as int].1@));
            assert(candidate_ok(g, f[i as int].1) && candidate_ok(g, f[j as int].1));
            if opt.graph.is_connected(current[i].0, current[j].0) {
                match opt.build_join(&current[i].1, &current[j].1) {
                    Ok(candidate) => {
                        let better = match &best {
                            None => true,
                            Some(b) => rows_to_compare(candidate.cardinality) < rows_to_compare(
                                b.2.cardinality,
                            ),
                        };
                        if better {
                            best = Some((i, j, candidate));
                        }
                    },
                    Err(_) => {},
                }
            }
            assert(pick_view(best) == smaller(
                before,
                i as int,
                j as int,
                pair_candidate(g, f, i as int, j as int),
            ));
            j = j + 1;
        }
        i = i + 1;
    }
    best
}

/// A join order found step by step.
///
/// # Errors
/// An internal error where there are no relations, and where only a cross
/// product would join them all.
pub fn greedy_operator_ordering(graph: &JoinGraph, weights: &CostWeights) -> (r: Result<
    PlanCandidate,
    BasaltError,
>)
    requires
        fits(graph@),
    ensures
        candidate_outcome(r) == greedily(graph@, apart(graph@)),
{
    let ghost g = graph@;
    let n: usize = graph.num_relations();
    if n == 0 {
        return Err(BasaltError::internal("cannot join zero relations"));
    }
    let opt = DpJoinOptimizer::new(graph, weights);
    let mut current: Vec<(RelationSet, PlanCandidate)> = Vec::new();
    let mut i: usize = 0;
    while i < n
        invariant
            i <= n,
            n == g.relations.len(),
            g == graph@,
            fits(g),
            opt.graph@ == g,
            current@.len() == i,
            forall|k: int|
                0 <= k < i ==> (#[trigger] current@[k]).0 == single(k) && current@[k].1@ == base(
                    g,
                    k,
                ) && candidate_ok(g, current@[k].1@),
        decreases n - i,
    {
        current.push((singleton(i), opt.base_candidate(i)));
        i = i + 1;
    }
    assert(forest_view(current@) =~= apart(g));
    while current.len() > 1
        invariant
            g == graph@,
            fits(g),
            opt.graph@ == g,
            current@.len() > 0,
            plans_ok(g, forest_view(current@)),
            greedily(g, forest_view(current@)) == greedily(g, apart(g)),
        decreases current@.len(),
    {
        let ghost f = forest_view(current@);
        match smallest_pair(&opt, &current) {
            None => {
                return Err(
                    BasaltError::internal(
                        "join graph is disconnected: no join order avoids a cross product",
                    ),
                );
            },
            Some((i, j, candidate)) => {
                let (s2, c2) = current.remove(j);
                let (s1, c1) = current.remove(i);
                current.push((s1 | s2, candidate));
                proof {
                    let next = forest_view(current@);
                    assert(next =~= merged(f, i as int, j as int, candidate@));
                    assert forall|k: int| 0 <= k < next.len() implies candidate_ok(
                        g,
                        (#[trigger] next[k]).1,
                    ) by {
                        let last = next.len() - 1;
                        if k < last {
                            let q = if k < i {
                                k
                            } else if k < j - 1 {
                                k + 1
                            } else {
                                k + 2
                            };
                            assert(next[k] == f[q]);
                        }
                    }
                }
            },
        }
    }
    assert(forest_view(current@)[0] == (current@[0].0, current@[0].1@));
    Ok(current[0].1.copy())
}

/// The number of relations up to which the best order is searched for.
pub const DEFAULT_EXACT_THRESHOLD: usize = 12;

/// The best join order for up to `threshold` relations, and a greedy one for
/// more.
pub open spec fn chosen_order(g: GraphView, w: CostWeights, threshold: int) -> Result<
    CandidateView,
    ErrorKind,
> {
    if g.relations.len() <= threshold {
        match ccp(g, w, ordered_sets(g), first_relations(g.relations.len() as int)) {
            Some(c) => Ok(c),
            None => Err(ErrorKind::Internal),
        }
    } else {
        greedily(g, apart(g))
    }
}

/// The best join order for up to `threshold` relations, and a greedy one for
/// more.
///
/// # Errors
/// An internal error where there are no relations, and where only a cross
/// product would join them all.
pub fn optimize_join_order(graph: &JoinGraph, weights: &CostWeights, threshold: usize) -> (r:
    Result<PlanCandidate, BasaltError>)
    requires
        fits(graph@),
    ensures
        candidate_outcome(r) == chosen_order(graph@, *weights, threshold as int),
{
    if graph.num_relations() <= threshold {
        DpccpJoinOptimizer::new(graph, weights).optimize()
    } else {
        greedy_operator_ordering(graph, weights)
    }
}

} // verus!
