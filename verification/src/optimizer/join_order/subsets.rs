//! The connected sets of relations of a join graph. Each grows out of its least
//! relation by steps to neighbours, so that a set that is not connected is never
//! looked at.

use vstd::prelude::*;

use crate::optimizer::join_order::graph::{
    connected, first_relations, fits, full_set, holds, lemma_first_relations, lemma_has_ops,
    lemma_has_single, lemma_least, lemma_part_has, lemma_part_of, lemma_part_of_part,
    lemma_same_set, lemma_whole, links, neighbors_are_next_to, neighbors_of, part_of,
    parts_are_enumerated, parts_from, rest, set_size, single, singleton, size, splits,
    unions_of_linked_sets_are_connected, GraphView, JoinEdge, JoinGraph, RelationSet,
};
use crate::optimizer::join_order::laws::{lemma_crossing, lemma_single_connected};

verus! {

/// A set together with each of some parts.
pub open spec fn grown_by(s: RelationSet, parts: Seq<RelationSet>) -> Seq<RelationSet> {
    Seq::new(parts.len(), |i: int| s | parts[i])
}

/// The neighbours that a set may grow by.
pub open spec fn frontier(edges: Seq<JoinEdge>, s: RelationSet, forbidden: RelationSet) -> RelationSet {
    neighbors_of(edges, s) & !forbidden
}

pub proof fn lemma_disjoint(n: RelationSet, forbidden: RelationSet)
    ensures
        (n & !forbidden) & forbidden == 0,
        part_of(n & !forbidden, n),
{
    assert((n & !forbidden) & forbidden == 0 && (n & !forbidden) & n == n & !forbidden) by (bit_vector);
}

pub proof fn lemma_forbidden_grows(f: RelationSet, forbidden: RelationSet)
    requires
        f & forbidden == 0,
        f != 0,
    ensures
        forbidden | f > forbidden,
{
    assert(f & forbidden == 0 && f != 0 ==> forbidden | f > forbidden) by (bit_vector);
}

/// The sets that grow out of `s` without the forbidden relations.
pub open spec fn grown(edges: Seq<JoinEdge>, s: RelationSet, forbidden: RelationSet) -> Seq<
    RelationSet,
>
    decreases u64::MAX - forbidden, 0int,
{
    let f = frontier(edges, s, forbidden);
    if f == 0 || forbidden | f <= forbidden {
        seq![]
    } else {
        let parts = parts_from(f, f);
        grown_by(s, parts) + grown_further(edges, s, parts, forbidden | f, parts.len())
    }
}

/// The sets that grow out of `s` together with each of the first `n` parts.
pub open spec fn grown_further(
    edges: Seq<JoinEdge>,
    s: RelationSet,
    parts: Seq<RelationSet>,
    forbidden: RelationSet,
    n: nat,
) -> Seq<RelationSet>
    decreases u64::MAX - forbidden, n + 1,
{
    if n == 0 {
        seq![]
    } else {
        grown_further(edges, s, parts, forbidden, (n - 1) as nat) + grown(
            edges,
            s | parts[n - 1],
            forbidden,
        )
    }
}

/// The connected sets whose least relation is one of the first `n`.
pub open spec fn connected_sets(edges: Seq<JoinEdge>, n: nat) -> Seq<RelationSet>
    decreases n,
{
    if n == 0 {
        seq![]
    } else {
        connected_sets(edges, (n - 1) as nat) + seq![single(n - 1)] + grown(
            edges,
            single(n - 1),
            first_relations(n as int),
        )
    }
}

fn append(out: &mut Vec<RelationSet>, s: RelationSet, parts: &Vec<RelationSet>)
    ensures
        final(out)@ == old(out)@ + grown_by(s, parts@),
{
    let ghost before = out@;
    let ghost all = grown_by(s, parts@);
    let mut i: usize = 0;
    assert(before + all.take(0) =~= before);
    while i < parts.len()
        invariant
            i <= parts@.len(),
            all == grown_by(s, parts@),
            out@ == before + all.take(i as int),
        decreases parts@.len() - i,
    {
        out.push(s | parts[i]);
        assert(before + all.take(i + 1) =~= (before + all.take(i as int)).push(all[i as int]));
        i = i + 1;
    }
    assert(all.take(i as int) =~= all);
}

fn enumerate_csg_rec(
    graph: &JoinGraph,
    s: RelationSet,
    forbidden: RelationSet,
    result: &mut Vec<RelationSet>,
)
    requires
        fits(graph@),
    ensures
        final(result)@ == old(result)@ + grown(graph@.edges, s, forbidden),
    decreases u64::MAX - forbidden,
{
    let ghost start = result@;
    let f: u64 = graph.neighbors(s) & !forbidden;
    if f == 0 {
        assert(start + grown(graph@.edges, s, forbidden) =~= start);
        return;
    }
    proof {
        let n = neighbors_of(graph@.edges, s);
        lemma_disjoint(n, forbidden);
        lemma_forbidden_grows(f, forbidden);
    }
    let parts = JoinGraph::all_nonempty_submasks(f);
    append(result, s, &parts);
    let new_forbidden: u64 = forbidden | f;
    let ghost middle = result@;
    let mut i: usize = 0;
    assert(middle + grown_further(graph@.edges, s, parts@, new_forbidden, 0) =~= middle);
    while i < parts.len()
        invariant
            i <= parts@.len(),
            fits(graph@),
            new_forbidden > forbidden,
            result@ == middle + grown_further(graph@.edges, s, parts@, new_forbidden, i as nat),
        decreases parts@.len() - i,
    {
        enumerate_csg_rec(graph, s | parts[i], new_forbidden, result);
        assert(result@ =~= middle + grown_further(
            graph@.edges,
            s,
            parts@,
            new_forbidden,
            (i + 1) as nat,
        ));
        i = i + 1;
    }
    assert(result@ =~= start + grown(graph@.edges, s, forbidden));
}

/// The connected sets of a graph.
pub fn enumerate_connected_subsets(graph: &JoinGraph) -> (r: Vec<RelationSet>)
    requires
        fits(graph@),
    ensures
        r@ == connected_sets(graph@.edges, graph@.relations.len()),
{
    let n: usize = graph.num_relations();
    let mut result: Vec<RelationSet> = Vec::new();
    let mut v: usize = 0;
    while v < n
        invariant
            v <= n,
            n == graph@.relations.len(),
            fits(graph@),
            result@ == connected_sets(graph@.edges, v as nat),
        decreases n - v,
    {
        let seed = singleton(v);
        let ghost was = result@;
        result.push(seed);
        enumerate_csg_rec(graph, seed, full_set(v + 1), &mut result);
        assert(result@ =~= connected_sets(graph@.edges, (v + 1) as nat));
        v = v + 1;
    }
    result
}

// ---------------------------------------------------------------------------
// What is enumerated

proof fn lemma_grown_connected(edges: Seq<JoinEdge>, s: RelationSet, e: RelationSet)
    requires
        edges_fit(edges),
        connected(edges, s),
        part_of(e, neighbors_of(edges, s)),
    ensures
        connected(edges, s | e),
    decreases e,
{
    if e == 0 {
        lemma_whole(s, s);
    } else {
        let i = lemma_least(e);
        let k = i as u64;
        let one = single(i);
        let n = neighbors_of(edges, s);
        let less = e & !one;
        assert(k < 64 && one == 1u64 << k && (e >> k) & 1u64 == 1u64 && e & n == e ==> {
            &&& (e & !one) & n == e & !one
            &&& (e & !one) < e
            &&& (s | (e & !one)) | one == s | e
            &&& s & (s | (e & !one)) == s
        }) by (bit_vector)
            requires
                k < 64,
                one == 1u64 << k,
                (e >> k) & 1u64 == 1u64,
                e & n == e,
        ;
        lemma_grown_connected(edges, s, less);
        lemma_part_has(e, n, i);
        neighbors_are_next_to(edges, s, i);
        lemma_single_connected(edges, i);
        lemma_whole(one, one);
        crate::optimizer::join_order::graph::lemma_linked_grows(edges, s, one, s | less, one);
        unions_of_linked_sets_are_connected(edges, s | less, one);
    }
}

/// Whether the ends of edges fit into a set.
pub open spec fn edges_fit(edges: Seq<JoinEdge>) -> bool {
    forall|k: int|
        0 <= k < edges.len() ==> (#[trigger] edges[k]).left_relation < 64
            && edges[k].right_relation < 64
}

proof fn lemma_grown_sound(
    edges: Seq<JoinEdge>,
    s: RelationSet,
    forbidden: RelationSet,
    t: RelationSet,
)
    requires
        edges_fit(edges),
        connected(edges, s),
        grown(edges, s, forbidden).contains(t),
    ensures
        connected(edges, t),
    decreases u64::MAX - forbidden, 0int,
{
    let f = frontier(edges, s, forbidden);
    let n = neighbors_of(edges, s);
    if f != 0 && forbidden | f > forbidden {
        let parts = parts_from(f, f);
        let first = grown_by(s, parts);
        let more = grown_further(edges, s, parts, forbidden | f, parts.len());
        let all = first + more;
        let i = choose|i: int| 0 <= i < all.len() && all[i] == t;
        lemma_whole(f, f);
        assert forall|k: int| 0 <= k < parts.len() implies connected(
            edges,
            s | #[trigger] parts[k],
        ) by {
            let e = parts[k];
            assert(parts.contains(e));
            parts_are_enumerated(f, f, e);
            lemma_disjoint(n, forbidden);
            lemma_part_of_part(e, f, n);
            lemma_grown_connected(edges, s, e);
        }
        if i < first.len() {
            assert(first[i] == s | parts[i]);
        } else {
            assert(more[i - first.len()] == t);
            lemma_further_sound(edges, s, parts, forbidden | f, parts.len(), t);
        }
    }
}

proof fn lemma_further_sound(
    edges: Seq<JoinEdge>,
    s: RelationSet,
    parts: Seq<RelationSet>,
    forbidden: RelationSet,
    n: nat,
    t: RelationSet,
)
    requires
        edges_fit(edges),
        n <= parts.len(),
        forall|k: int| 0 <= k < parts.len() ==> connected(edges, s | #[trigger] parts[k]),
        grown_further(edges, s, parts, forbidden, n).contains(t),
    ensures
        connected(edges, t),
    decreases u64::MAX - forbidden, n + 1,
{
    if n > 0 {
        let before = grown_further(edges, s, parts, forbidden, (n - 1) as nat);
        let here = grown(edges, s | parts[n - 1], forbidden);
        let all = before + here;
        let i = choose|i: int| 0 <= i < all.len() && all[i] == t;
        if i < before.len() {
            assert(before[i] == t);
            lemma_further_sound(edges, s, parts, forbidden, (n - 1) as nat, t);
        } else {
            assert(here[i - before.len()] == t);
            assert(connected(edges, s | parts[n - 1]));
            lemma_grown_sound(edges, s | parts[n - 1], forbidden, t);
        }
    }
}

/// Every set enumerated is connected.
pub proof fn enumerated_sets_are_connected(edges: Seq<JoinEdge>, n: nat, t: RelationSet)
    requires
        edges_fit(edges),
        n <= 64,
        connected_sets(edges, n).contains(t),
    ensures
        connected(edges, t),
    decreases n,
{
    if n > 0 {
        let before = connected_sets(edges, (n - 1) as nat);
        let seed = single(n - 1);
        let more = grown(edges, seed, first_relations(n as int));
        let all = before + seq![seed] + more;
        let i = choose|i: int| 0 <= i < all.len() && all[i] == t;
        lemma_single_connected(edges, n - 1);
        if i < before.len() {
            assert(before[i] == t);
            enumerated_sets_are_connected(edges, (n - 1) as nat, t);
        } else if i > before.len() {
            assert(more[i - before.len() - 1] == t);
            lemma_grown_sound(edges, seed, first_relations(n as int), t);
        }
    }
}

/// Whether the ends of edges are among the first `n` relations.
pub open spec fn edges_among(edges: Seq<JoinEdge>, n: nat) -> bool {
    forall|k: int|
        0 <= k < edges.len() ==> (#[trigger] edges[k]).left_relation < n
            && edges[k].right_relation < n
}

/// Neighbours are ends of edges.
proof fn lemma_neighbors_among(edges: Seq<JoinEdge>, n: nat, s: RelationSet)
    requires
        edges_among(edges, n),
        n <= 64,
    ensures
        part_of(neighbors_of(edges, s), first_relations(n as int)),
{
    let all = neighbors_of(edges, s);
    assert forall|i: int| 0 <= i < 64 && #[trigger] holds(all, i) implies holds(
        first_relations(n as int),
        i,
    ) by {
        neighbors_are_next_to(edges, s, i);
        lemma_first_relations(n as int, i);
        let k = choose|k: int| 0 <= k < edges.len() && links(#[trigger] edges[k], s, single(i));
        lemma_has_single(i, edges[k].left_relation as int);
        lemma_has_single(i, edges[k].right_relation as int);
    }
    lemma_part_of(all, first_relations(n as int));
}

proof fn lemma_grown_among(
    edges: Seq<JoinEdge>,
    n: nat,
    s: RelationSet,
    forbidden: RelationSet,
    t: RelationSet,
)
    requires
        edges_among(edges, n),
        n <= 64,
        part_of(s, first_relations(n as int)),
        grown(edges, s, forbidden).contains(t),
    ensures
        part_of(t, first_relations(n as int)),
    decreases u64::MAX - forbidden, 0int,
{
    let u = first_relations(n as int);
    let f = frontier(edges, s, forbidden);
    if f != 0 && forbidden | f > forbidden {
        let parts = parts_from(f, f);
        let first = grown_by(s, parts);
        let more = grown_further(edges, s, parts, forbidden | f, parts.len());
        let all = first + more;
        let i = choose|i: int| 0 <= i < all.len() && all[i] == t;
        lemma_whole(f, f);
        lemma_neighbors_among(edges, n, s);
        lemma_disjoint(neighbors_of(edges, s), forbidden);
        lemma_part_of_part(f, neighbors_of(edges, s), u);
        assert forall|k: int| 0 <= k < parts.len() implies part_of(s | #[trigger] parts[k], u) by {
            let e = parts[k];
            assert(parts.contains(e));
            parts_are_enumerated(f, f, e);
            lemma_part_of_part(e, f, u);
            assert(s & u == s && e & u == e ==> (s | e) & u == s | e) by (bit_vector);
        }
        if i < first.len() {
            assert(first[i] == s | parts[i]);
        } else {
            assert(more[i - first.len()] == t);
            lemma_further_among(edges, n, s, parts, forbidden | f, parts.len(), t);
        }
    }
}

proof fn lemma_further_among(
    edges: Seq<JoinEdge>,
    n: nat,
    s: RelationSet,
    parts: Seq<RelationSet>,
    forbidden: RelationSet,
    m: nat,
    t: RelationSet,
)
    requires
        edges_among(edges, n),
        n <= 64,
        m <= parts.len(),
        forall|k: int|
            0 <= k < parts.len() ==> part_of(s | #[trigger] parts[k], first_relations(n as int)),
        grown_further(edges, s, parts, forbidden, m).contains(t),
    ensures
        part_of(t, first_relations(n as int)),
    decreases u64::MAX - forbidden, m + 1,
{
    if m > 0 {
        let before = grown_further(edges, s, parts, forbidden, (m - 1) as nat);
        let here = grown(edges, s | parts[m - 1], forbidden);
        let all = before + here;
        let i = choose|i: int| 0 <= i < all.len() && all[i] == t;
        if i < before.len() {
            assert(before[i] == t);
            lemma_further_among(edges, n, s, parts, forbidden, (m - 1) as nat, t);
        } else {
            assert(here[i - before.len()] == t);
            assert(part_of(s | parts[m - 1], first_relations(n as int)));
            lemma_grown_among(edges, n, s | parts[m - 1], forbidden, t);
        }
    }
}

/// Every set enumerated out of the first `m` of `n` relations lies among the
/// `n`, where the edges do.
proof fn lemma_enumerated_among(edges: Seq<JoinEdge>, n: nat, m: nat, t: RelationSet)
    requires
        edges_among(edges, n),
        m <= n <= 64,
        connected_sets(edges, m).contains(t),
    ensures
        part_of(t, first_relations(n as int)),
    decreases m,
{
    if m > 0 {
        let before = connected_sets(edges, (m - 1) as nat);
        let seed = single(m - 1);
        let more = grown(edges, seed, first_relations(m as int));
        let all = before + seq![seed] + more;
        let i = choose|i: int| 0 <= i < all.len() && all[i] == t;
        assert forall|j: int| 0 <= j < 64 && #[trigger] holds(seed, j) implies holds(
            first_relations(n as int),
            j,
        ) by {
            lemma_has_single(m - 1, j);
            lemma_first_relations(n as int, j);
        }
        lemma_part_of(seed, first_relations(n as int));
        if i < before.len() {
            assert(before[i] == t);
            lemma_enumerated_among(edges, n, (m - 1) as nat, t);
        } else if i > before.len() {
            assert(more[i - before.len() - 1] == t);
            lemma_grown_among(edges, n, seed, first_relations(m as int), t);
        }
    }
}

/// Every set enumerated lies among the relations of the graph, where its edges
/// do: it names no relation that the graph does not have.
pub proof fn enumerated_sets_lie_among_the_relations(
    edges: Seq<JoinEdge>,
    n: nat,
    t: RelationSet,
)
    requires
        edges_among(edges, n),
        n <= 64,
        connected_sets(edges, n).contains(t),
    ensures
        part_of(t, first_relations(n as int)),
{
    lemma_enumerated_among(edges, n, n, t);
}

proof fn lemma_further_contains(
    edges: Seq<JoinEdge>,
    s: RelationSet,
    parts: Seq<RelationSet>,
    forbidden: RelationSet,
    n: nat,
    k: int,
    t: RelationSet,
)
    requires
        0 <= k < n,
        n <= parts.len(),
        grown(edges, s | parts[k], forbidden).contains(t),
    ensures
        grown_further(edges, s, parts, forbidden, n).contains(t),
    decreases n,
{
    let before = grown_further(edges, s, parts, forbidden, (n - 1) as nat);
    let here = grown(edges, s | parts[n - 1], forbidden);
    let all = before + here;
    if k == n - 1 {
        let i = choose|i: int| 0 <= i < here.len() && here[i] == t;
        assert(all[before.len() + i] == t);
    } else {
        lemma_further_contains(edges, s, parts, forbidden, (n - 1) as nat, k, t);
        let i = choose|i: int| 0 <= i < before.len() && before[i] == t;
        assert(all[i] == t);
    }
}

proof fn lemma_grown_complete(
    edges: Seq<JoinEdge>,
    s: RelationSet,
    forbidden: RelationSet,
    t: RelationSet,
)
    requires
        edges_fit(edges),
        connected(edges, t),
        splits(s, t),
        rest(t, s) & forbidden == 0,
        part_of(s, forbidden),
    ensures
        grown(edges, s, forbidden).contains(t),
    decreases u64::MAX - forbidden,
{
    let n = neighbors_of(edges, s);
    let f = frontier(edges, s, forbidden);
    let d = rest(t, s);
    let v = lemma_crossing(edges, s, d);
    lemma_has_ops(t, s, v);
    neighbors_are_next_to(edges, s, v);
    lemma_has_ops(n, forbidden, v);
    lemma_has_ops(d, forbidden, v);
    lemma_has_ops(0, 0, v);
    assert(holds(f, v));
    let e = t & f;
    lemma_has_ops(t, f, v);
    assert(holds(e, v));
    if f == 0 || e == 0 {
        lemma_has_ops(0, 0, v);
    }
    lemma_disjoint(n, forbidden);
    lemma_forbidden_grows(f, forbidden);
    let parts = parts_from(f, f);
    lemma_whole(f, f);
    assert((t & f) & f == t & f && t & f <= f) by (bit_vector);
    parts_are_enumerated(f, f, e);
    let k = choose|k: int| 0 <= k < parts.len() && parts[k] == e;
    let first = grown_by(s, parts);
    let more = grown_further(edges, s, parts, forbidden | f, parts.len());
    let all = first + more;
    assert(grown(edges, s, forbidden) == all);
    let next = s | e;
    if next == t {
        assert(all[k] == t);
    } else {
        assert(s & t == s && (t & !s) & forbidden == 0 && e == t & f && s & forbidden == s && f
            & forbidden == 0 && e != 0 && (s | e) != t && s != 0 ==> {
            &&& (s | e) & t == s | e
            &&& (s | e) != 0
            &&& (t & !(s | e)) & (forbidden | f) == 0
            &&& (s | e) & (forbidden | f) == s | e
        }) by (bit_vector)
            requires
                s & t == s,
                (t & !s) & forbidden == 0,
                e == t & f,
                s & forbidden == s,
                f & forbidden == 0,
                e != 0,
                (s | e) != t,
                s != 0,
        ;
        lemma_grown_complete(edges, next, forbidden | f, t);
        lemma_further_contains(edges, s, parts, forbidden | f, parts.len(), k, t);
        let i = choose|i: int| 0 <= i < more.len() && more[i] == t;
        assert(all[first.len() + i] == t);
    }
}

/// Every connected set is enumerated.
pub proof fn connected_sets_are_enumerated(edges: Seq<JoinEdge>, n: nat, t: RelationSet)
    requires
        edges_fit(edges),
        n <= 64,
        connected(edges, t),
        part_of(t, first_relations(n as int)),
    ensures
        connected_sets(edges, n).contains(t),
    decreases n,
{
    let v = lemma_least(t);
    lemma_part_has(t, first_relations(n as int), v);
    lemma_first_relations(n as int, v);
    let before = connected_sets(edges, (n - 1) as nat);
    let seed = single(n - 1);
    let forbidden = first_relations(n as int);
    let more = grown(edges, seed, forbidden);
    let all = before + seq![seed] + more;
    if v < n - 1 {
        lemma_rest_of_enumeration(edges, n, t, v);
    } else {
        lemma_from_seed(edges, t, v);
        if t == seed {
            assert(all[before.len() as int] == t);
        } else {
            let i = choose|i: int| 0 <= i < more.len() && more[i] == t;
            assert(all[before.len() + 1 + i] == t);
        }
    }
}

proof fn lemma_from_seed(edges: Seq<JoinEdge>, t: RelationSet, v: int)
    requires
        edges_fit(edges),
        connected(edges, t),
        holds(t, v),
        forall|j: int| 0 <= j < v ==> !#[trigger] holds(t, j),
    ensures
        t != single(v) ==> grown(edges, single(v), first_relations(v + 1)).contains(t),
{
    let seed = single(v);
    let forbidden = first_relations(v + 1);
    lemma_has_single(v, v);
    if t != seed {
        assert forall|j: int| 0 <= j < 64 && #[trigger] holds(seed, j) implies holds(t, j) by {
            lemma_has_single(v, j);
        }
        lemma_part_of(seed, t);
        assert forall|j: int| 0 <= j < 64 && #[trigger] holds(seed, j) implies holds(
            forbidden,
            j,
        ) by {
            lemma_has_single(v, j);
            lemma_first_relations(v + 1, j);
        }
        lemma_part_of(seed, forbidden);
        let d = rest(t, seed);
        assert forall|j: int| 0 <= j < 64 implies (#[trigger] holds(d & forbidden, j) <==> holds(
            0,
            j,
        )) by {
            lemma_has_ops(d, forbidden, j);
            lemma_has_ops(t, seed, j);
            lemma_has_ops(0, 0, j);
            lemma_has_single(v, j);
            lemma_first_relations(v + 1, j);
        }
        lemma_same_set(d & forbidden, 0);
        lemma_grown_complete(edges, seed, forbidden, t);
    }
}

proof fn lemma_rest_of_enumeration(edges: Seq<JoinEdge>, n: nat, t: RelationSet, v: int)
    requires
        edges_fit(edges),
        n <= 64,
        connected(edges, t),
        holds(t, v),
        forall|j: int| 0 <= j < v ==> !#[trigger] holds(t, j),
        v < n,
    ensures
        connected_sets(edges, n).contains(t),
    decreases n,
{
    let before = connected_sets(edges, (n - 1) as nat);
    let seed = single(n - 1);
    let more = grown(edges, seed, first_relations(n as int));
    let all = before + seq![seed] + more;
    if v < n - 1 {
        lemma_rest_of_enumeration(edges, (n - 1) as nat, t, v);
        let i = choose|i: int| 0 <= i < before.len() && before[i] == t;
        assert(all[i] == t);
    } else {
        lemma_from_seed(edges, t, v);
        if t == seed {
            assert(all[before.len() as int] == t);
        } else {
            let i = choose|i: int| 0 <= i < more.len() && more[i] == t;
            assert(all[before.len() + 1 + i] == t);
        }
    }
}

// ---------------------------------------------------------------------------
// Sets by size

/// Those of the first `n` sets that have `k` relations.
pub open spec fn of_size(list: Seq<RelationSet>, k: int, n: nat) -> Seq<RelationSet>
    decreases n,
{
    if n == 0 {
        seq![]
    } else {
        let before = of_size(list, k, (n - 1) as nat);
        if size(list[n - 1]) == k {
            before.push(list[n - 1])
        } else {
            before
        }
    }
}

/// The sets with at most `k` relations, the smallest first.
pub open spec fn by_size(list: Seq<RelationSet>, k: nat) -> Seq<RelationSet>
    decreases k,
{
    if k == 0 {
        seq![]
    } else {
        by_size(list, (k - 1) as nat) + of_size(list, k as int, list.len())
    }
}

/// A list without repetitions of a set right behind itself.
pub open spec fn without_repeats(list: Seq<RelationSet>, n: nat) -> Seq<RelationSet>
    decreases n,
{
    if n == 0 {
        seq![]
    } else {
        let before = without_repeats(list, (n - 1) as nat);
        if before.len() > 0 && before.last() == list[n - 1] {
            before
        } else {
            before.push(list[n - 1])
        }
    }
}

/// The connected sets of a graph, the smallest first.
pub open spec fn ordered_sets(g: GraphView) -> Seq<RelationSet> {
    let sorted = by_size(connected_sets(g.edges, g.relations.len()), 64);
    without_repeats(sorted, sorted.len())
}

/// Whether sets come in the order of their sizes.
pub open spec fn sizes_ascend(list: Seq<RelationSet>) -> bool {
    forall|p: int, q: int|
        0 <= p < q < list.len() ==> size(#[trigger] list[p]) <= size(#[trigger] list[q])
}

proof fn lemma_of_size(list: Seq<RelationSet>, k: int, n: nat)
    requires
        n <= list.len(),
    ensures
        forall|i: int|
            0 <= i < of_size(list, k, n).len() ==> size(#[trigger] of_size(list, k, n)[i]) == k
                && list.contains(of_size(list, k, n)[i]),
        forall|i: int|
            0 <= i < n && size(#[trigger] list[i]) == k ==> of_size(list, k, n).contains(list[i]),
    decreases n,
{
    if n > 0 {
        let m = (n - 1) as nat;
        lemma_of_size(list, k, m);
        let before = of_size(list, k, m);
        let all = of_size(list, k, n);
        assert forall|i: int| 0 <= i < all.len() implies size(#[trigger] all[i]) == k
            && list.contains(all[i]) by {
            if i < before.len() {
                assert(all[i] == before[i]);
            } else {
                assert(list[m as int] == all[i]);
            }
        }
        assert forall|i: int| 0 <= i < n && size(#[trigger] list[i]) == k implies all.contains(
            list[i],
        ) by {
            if i < m {
                let j = choose|j: int| 0 <= j < before.len() && before[j] == list[i];
                assert(all[j] == list[i]);
            } else {
                assert(all[before.len() as int] == list[i]);
            }
        }
    }
}

proof fn lemma_by_size(list: Seq<RelationSet>, k: nat)
    ensures
        sizes_ascend(by_size(list, k)),
        forall|i: int|
            0 <= i < by_size(list, k).len() ==> size(#[trigger] by_size(list, k)[i]) <= k
                && list.contains(by_size(list, k)[i]),
        forall|i: int|
            0 <= i < list.len() && 1 <= size(#[trigger] list[i]) <= k ==> by_size(
                list,
                k,
            ).contains(list[i]),
    decreases k,
{
    if k > 0 {
        let m = (k - 1) as nat;
        lemma_by_size(list, m);
        lemma_of_size(list, k as int, list.len());
        let a = by_size(list, m);
        let b = of_size(list, k as int, list.len());
        let all = a + b;
        assert(by_size(list, k) == all);
        assert forall|p: int, q: int| 0 <= p < q < all.len() implies size(#[trigger] all[p])
            <= size(#[trigger] all[q]) by {
            if q < a.len() {
                assert(all[p] == a[p] && all[q] == a[q]);
            } else {
                assert(all[q] == b[q - a.len()]);
                if p < a.len() {
                    assert(all[p] == a[p]);
                } else {
                    assert(all[p] == b[p - a.len()]);
                }
            }
        }
        assert forall|i: int| 0 <= i < all.len() implies size(#[trigger] all[i]) <= k
            && list.contains(all[i]) by {
            if i < a.len() {
                assert(all[i] == a[i]);
            } else {
                assert(all[i] == b[i - a.len()]);
            }
        }
        assert forall|i: int| 0 <= i < list.len() && 1 <= size(#[trigger] list[i])
            <= k implies all.contains(list[i]) by {
            if size(list[i]) <= m {
                let j = choose|j: int| 0 <= j < a.len() && a[j] == list[i];
                assert(all[j] == list[i]);
            } else {
                let j = choose|j: int| 0 <= j < b.len() && b[j] == list[i];
                assert(all[a.len() + j] == list[i]);
            }
        }
    }
}

proof fn lemma_without_repeats(list: Seq<RelationSet>, n: nat)
    requires
        sizes_ascend(list),
        n <= list.len(),
    ensures
        sizes_ascend(without_repeats(list, n)),
        forall|i: int|
            0 <= i < without_repeats(list, n).len() ==> list.take(n as int).contains(
                #[trigger] without_repeats(list, n)[i],
            ),
        forall|i: int| 0 <= i < n ==> without_repeats(list, n).contains(#[trigger] list[i]),
    decreases n,
{
    if n > 0 {
        let m = (n - 1) as nat;
        lemma_without_repeats(list, m);
        let before = without_repeats(list, m);
        let all = without_repeats(list, n);
        let short = list.take(m as int);
        let long = list.take(n as int);
        assert forall|i: int| 0 <= i < all.len() implies long.contains(#[trigger] all[i]) by {
            if i < before.len() {
                assert(all[i] == before[i]);
                let j = choose|j: int| 0 <= j < short.len() && short[j] == before[i];
                assert(long[j] == all[i]);
            } else {
                assert(long[m as int] == all[i]);
            }
        }
        assert forall|i: int| 0 <= i < n implies all.contains(#[trigger] list[i]) by {
            if i < m {
                let j = choose|j: int| 0 <= j < before.len() && before[j] == list[i];
                assert(all[j] == list[i]);
            } else {
                assert(all[all.len() - 1] == list[i]);
            }
        }
        assert forall|p: int, q: int| 0 <= p < q < all.len() implies size(#[trigger] all[p])
            <= size(#[trigger] all[q]) by {
            if q < before.len() {
                assert(all[p] == before[p] && all[q] == before[q]);
            } else {
                assert(all[p] == before[p]);
                let j = choose|j: int| 0 <= j < short.len() && short[j] == before[p];
                assert(list[j] == all[p]);
                assert(list[m as int] == all[q]);
            }
        }
    }
}

pub proof fn lemma_size_bound(s: RelationSet)
    ensures
        s != 0 ==> size(s) >= 1,
        size(s) >= 0,
    decreases s,
{
    if s != 0 {
        lemma_size_bound(s / 2);
        if s % 2 == 0 {
            assert(s / 2 != 0);
        }
    }
}

/// The ordered list holds exactly the connected sets, the smallest first.
pub proof fn ordered_sets_are_the_connected_ones(g: GraphView, t: RelationSet)
    requires
        fits(g),
    ensures
        sizes_ascend(ordered_sets(g)),
        ordered_sets(g).contains(t) ==> connected(g.edges, t),
        ordered_sets(g).contains(t) && edges_among(g.edges, g.relations.len()) ==> part_of(
            t,
            first_relations(g.relations.len() as int),
        ),
        connected(g.edges, t) && part_of(t, first_relations(g.relations.len() as int))
            ==> ordered_sets(g).contains(t),
{
    let list = connected_sets(g.edges, g.relations.len());
    let sorted = by_size(list, 64);
    lemma_by_size(list, 64);
    lemma_without_repeats(sorted, sorted.len());
    assert(sorted.take(sorted.len() as int) =~= sorted);
    let all = ordered_sets(g);
    if all.contains(t) {
        let i = choose|i: int| 0 <= i < all.len() && all[i] == t;
        assert(sorted.contains(all[i]));
        let j = choose|j: int| 0 <= j < sorted.len() && sorted[j] == t;
        assert(list.contains(sorted[j]));
        enumerated_sets_are_connected(g.edges, g.relations.len(), t);
        if edges_among(g.edges, g.relations.len()) {
            enumerated_sets_lie_among_the_relations(g.edges, g.relations.len(), t);
        }
    }
    if connected(g.edges, t) && part_of(t, first_relations(g.relations.len() as int)) {
        connected_sets_are_enumerated(g.edges, g.relations.len(), t);
        let i = choose|i: int| 0 <= i < list.len() && list[i] == t;
        lemma_size_bound(t);
        lemma_size_limit(t);
        assert(sorted.contains(list[i]));
        let j = choose|j: int| 0 <= j < sorted.len() && sorted[j] == t;
        assert(all.contains(sorted[j]));
    }
}

/// The size of a set below `2^k` is at most `k`.
proof fn lemma_size_below(s: RelationSet, k: nat)
    requires
        s < vstd::arithmetic::power2::pow2(k),
    ensures
        size(s) <= k,
    decreases k,
{
    if k == 0 {
        vstd::arithmetic::power2::lemma2_to64();
    } else {
        vstd::arithmetic::power2::lemma_pow2_unfold(k);
        if s != 0 {
            lemma_size_below(s / 2, (k - 1) as nat);
        }
    }
}

proof fn lemma_size_limit(s: RelationSet)
    ensures
        size(s) <= 64,
{
    vstd::arithmetic::power2::lemma2_to64();
    vstd::arithmetic::power2::lemma2_to64_rest();
    lemma_size_below(s, 64);
}

/// The connected sets of a graph, the smallest first.
pub fn sort_by_size(list: &Vec<RelationSet>) -> (r: Vec<RelationSet>)
    ensures
        ({
            let sorted = by_size(list@, 64);
            r@ == without_repeats(sorted, sorted.len())
        }),
{
    let mut sorted: Vec<RelationSet> = Vec::new();
    let mut k: usize = 0;
    while k < 64
        invariant
            k <= 64,
            sorted@ == by_size(list@, k as nat),
        decreases 64 - k,
    {
        let ghost before = sorted@;
        let mut i: usize = 0;
        assert(before + of_size(list@, k + 1, 0) =~= before);
        while i < list.len()
            invariant
                i <= list@.len(),
                k < 64,
                sorted@ == before + of_size(list@, k + 1, i as nat),
            decreases list@.len() - i,
        {
            if set_size(list[i]) == k + 1 {
                sorted.push(list[i]);
                assert(before + of_size(list@, k + 1, i as nat).push(list@[i as int]) =~= (before
                    + of_size(list@, k + 1, i as nat)).push(list@[i as int]));
            }
            i = i + 1;
        }
        k = k + 1;
    }
    let mut out: Vec<RelationSet> = Vec::new();
    let mut i: usize = 0;
    while i < sorted.len()
        invariant
            i <= sorted@.len(),
            out@ == without_repeats(sorted@, i as nat),
        decreases sorted@.len() - i,
    {
        let n: usize = out.len();
        if n == 0 || out[n - 1] != sorted[i] {
            out.push(sorted[i]);
        }
        i = i + 1;
    }
    out
}

} // verus!
