//! That no connected set of relations is looked at twice. What a set may not
//! grow by marks where the sets that grow out of it come from.

use vstd::prelude::*;
use vstd::seq_lib::lemma_no_dup_in_concat;

use crate::optimizer::join_order::graph::{
    first_relations, holds, lemma_first_relations, lemma_has_ops, lemma_has_single, lemma_same_set,
    lemma_whole, neighbors_of, part_of, parts_are_enumerated, parts_from, single, JoinEdge,
    RelationSet,
};
use crate::optimizer::join_order::subsets::{
    connected_sets, frontier, grown, grown_by, grown_further, lemma_disjoint, lemma_forbidden_grows,
};

verus! {

/// Where a set that grew by one step is marked.
proof fn lemma_step(s: RelationSet, e: RelationSet, f: RelationSet, forbidden: RelationSet)
    requires
        part_of(s, forbidden),
        part_of(e, f),
        f & forbidden == 0,
        e != 0,
    ensures
        (s | e) & forbidden == s,
        s | e != s,
        e & s == 0,
        part_of(s | e, forbidden | f),
{
    assert({
        &&& (s | e) & forbidden == s
        &&& s | e != s
        &&& e & s == 0
        &&& (s | e) & (forbidden | f) == s | e
    }) by (bit_vector)
        requires
            s & forbidden == s,
            e & f == e,
            f & forbidden == 0,
            e != 0,
    ;
}

/// Where a set that grew on from such a step is marked.
proof fn lemma_later_step(
    t: RelationSet,
    s: RelationSet,
    e: RelationSet,
    f: RelationSet,
    forbidden: RelationSet,
)
    requires
        t & (forbidden | f) == s | e,
        (s | e) & forbidden == s,
        s | e != s,
        part_of(s, forbidden),
    ensures
        t & forbidden == s,
        t != s,
{
    assert(t & forbidden == s && t != s) by (bit_vector)
        requires
            t & (forbidden | f) == s | e,
            (s | e) & forbidden == s,
            s | e != s,
            s & forbidden == s,
    ;
}

proof fn lemma_same_step(s: RelationSet, a: RelationSet, b: RelationSet)
    requires
        a & s == 0,
        b & s == 0,
        s | a == s | b,
    ensures
        a == b,
{
    assert(a == b) by (bit_vector)
        requires
            a & s == 0,
            b & s == 0,
            s | a == s | b,
    ;
}

/// A set that grew out of `s` meets what was forbidden in `s` alone, and is
/// not `s`.
proof fn lemma_grown_marked(
    edges: Seq<JoinEdge>,
    s: RelationSet,
    forbidden: RelationSet,
    t: RelationSet,
)
    requires
        part_of(s, forbidden),
        grown(edges, s, forbidden).contains(t),
    ensures
        t & forbidden == s,
        t != s,
    decreases u64::MAX - forbidden, 0int,
{
    let f = frontier(edges, s, forbidden);
    if f != 0 && forbidden | f > forbidden {
        let parts = parts_from(f, f);
        let first = grown_by(s, parts);
        let more = grown_further(edges, s, parts, forbidden | f, parts.len());
        let all = first + more;
        let i = choose|i: int| 0 <= i < all.len() && all[i] == t;
        lemma_parts(edges, s, forbidden);
        if i < first.len() {
            assert(t == s | parts[i]);
        } else {
            assert(more[i - first.len()] == t);
            let k = lemma_further_marked(edges, s, parts, forbidden | f, parts.len(), t);
            lemma_later_step(t, s, parts[k], f, forbidden);
        }
    }
}

/// The parts that a set grows by.
proof fn lemma_parts(edges: Seq<JoinEdge>, s: RelationSet, forbidden: RelationSet)
    requires
        part_of(s, forbidden),
        frontier(edges, s, forbidden) != 0,
    ensures
        ({
            let f = frontier(edges, s, forbidden);
            let parts = parts_from(f, f);
            &&& forbidden | f > forbidden
            &&& parts.no_duplicates()
            &&& forall|k: int|
                0 <= k < parts.len() ==> {
                    &&& (s | #[trigger] parts[k]) & forbidden == s
                    &&& s | parts[k] != s
                    &&& parts[k] & s == 0
                    &&& part_of(s | parts[k], forbidden | f)
                }
        }),
{
    let f = frontier(edges, s, forbidden);
    let parts = parts_from(f, f);
    lemma_disjoint(neighbors_of(edges, s), forbidden);
    lemma_forbidden_grows(f, forbidden);
    lemma_whole(f, f);
    parts_are_enumerated(f, f, 0);
    assert forall|k: int| 0 <= k < parts.len() implies {
        &&& (s | #[trigger] parts[k]) & forbidden == s
        &&& s | parts[k] != s
        &&& parts[k] & s == 0
        &&& part_of(s | parts[k], forbidden | f)
    } by {
        assert(parts.contains(parts[k]));
        parts_are_enumerated(f, f, parts[k]);
        lemma_step(s, parts[k], f, forbidden);
    }
    assert forall|i: int, j: int| 0 <= i < parts.len() && 0 <= j < parts.len() && i != j implies
        parts[i] != parts[j] by {
        if i < j {
            assert(parts[i] > parts[j]);
        } else {
            assert(parts[j] > parts[i]);
        }
    }
}

/// A set that grew on shows by which part it did.
proof fn lemma_further_marked(
    edges: Seq<JoinEdge>,
    s: RelationSet,
    parts: Seq<RelationSet>,
    forbidden: RelationSet,
    n: nat,
    t: RelationSet,
) -> (k: int)
    requires
        n <= parts.len(),
        forall|k: int| 0 <= k < parts.len() ==> part_of(s | #[trigger] parts[k], forbidden),
        grown_further(edges, s, parts, forbidden, n).contains(t),
    ensures
        0 <= k < n,
        t & forbidden == s | parts[k],
        t != s | parts[k],
    decreases u64::MAX - forbidden, n + 1,
{
    if n == 0 {
        0
    } else {
        let before = grown_further(edges, s, parts, forbidden, (n - 1) as nat);
        let here = grown(edges, s | parts[n - 1], forbidden);
        let all = before + here;
        let i = choose|i: int| 0 <= i < all.len() && all[i] == t;
        if i < before.len() {
            assert(before[i] == t);
            lemma_further_marked(edges, s, parts, forbidden, (n - 1) as nat, t)
        } else {
            assert(here[i - before.len()] == t);
            assert(part_of(s | parts[n - 1], forbidden));
            lemma_grown_marked(edges, s | parts[n - 1], forbidden, t);
            n - 1
        }
    }
}

proof fn lemma_grown_once(edges: Seq<JoinEdge>, s: RelationSet, forbidden: RelationSet)
    requires
        part_of(s, forbidden),
    ensures
        grown(edges, s, forbidden).no_duplicates(),
    decreases u64::MAX - forbidden, 0int,
{
    let f = frontier(edges, s, forbidden);
    if f != 0 && forbidden | f > forbidden {
        let parts = parts_from(f, f);
        let first = grown_by(s, parts);
        let more = grown_further(edges, s, parts, forbidden | f, parts.len());
        lemma_parts(edges, s, forbidden);
        lemma_further_once(edges, s, parts, forbidden | f, parts.len());
        assert forall|i: int, j: int| 0 <= i < first.len() && 0 <= j < first.len() && i != j implies
            first[i] != first[j] by {
            if s | parts[i] == s | parts[j] {
                lemma_same_step(s, parts[i], parts[j]);
            }
        }
        assert forall|i: int, j: int| 0 <= i < first.len() && 0 <= j < more.len() implies first[i]
            != more[j] by {
            let t = more[j];
            assert(more.contains(t));
            let k = lemma_further_marked(edges, s, parts, forbidden | f, parts.len(), t);
            assert(first[i] == s | parts[i]);
            assert(part_of(s | parts[i], forbidden | f));
        }
        lemma_no_dup_in_concat(first, more);
    }
}

proof fn lemma_further_once(
    edges: Seq<JoinEdge>,
    s: RelationSet,
    parts: Seq<RelationSet>,
    forbidden: RelationSet,
    n: nat,
)
    requires
        n <= parts.len(),
        parts.no_duplicates(),
        forall|k: int|
            0 <= k < parts.len() ==> part_of(s | #[trigger] parts[k], forbidden) && parts[k] & s
                == 0,
    ensures
        grown_further(edges, s, parts, forbidden, n).no_duplicates(),
    decreases u64::MAX - forbidden, n + 1,
{
    if n > 0 {
        let m = (n - 1) as nat;
        let e = parts[m as int];
        let before = grown_further(edges, s, parts, forbidden, m);
        let here = grown(edges, s | e, forbidden);
        lemma_further_once(edges, s, parts, forbidden, m);
        assert(part_of(s | e, forbidden) && e & s == 0);
        lemma_grown_once(edges, s | e, forbidden);
        assert forall|i: int, j: int| 0 <= i < before.len() && 0 <= j < here.len() implies before[i]
            != here[j] by {
            if before[i] == here[j] {
                let t = here[j];
                assert(before.contains(before[i]));
                assert(here.contains(t));
                let k = lemma_further_marked(edges, s, parts, forbidden, m, t);
                lemma_grown_marked(edges, s | e, forbidden, t);
                lemma_same_step(s, parts[k], e);
            }
        }
        lemma_no_dup_in_concat(before, here);
    }
}

proof fn lemma_seed(v: int)
    requires
        0 <= v < 64,
    ensures
        part_of(single(v), first_relations(v + 1)),
{
    let s = single(v);
    let f = first_relations(v + 1);
    assert forall|i: int| 0 <= i < 64 implies (#[trigger] holds(s & f, i) <==> holds(s, i)) by {
        lemma_has_ops(s, f, i);
        lemma_has_single(v, i);
        lemma_first_relations(v + 1, i);
    }
    lemma_same_set(s & f, s);
}

/// An enumerated set shows from which relation it grew.
proof fn lemma_least_seed(edges: Seq<JoinEdge>, n: nat, t: RelationSet) -> (v: int)
    requires
        n <= 64,
        connected_sets(edges, n).contains(t),
    ensures
        0 <= v < n,
        t & first_relations(v + 1) == single(v),
    decreases n,
{
    if n == 0 {
        0
    } else {
        let before = connected_sets(edges, (n - 1) as nat);
        let seed = single(n - 1);
        let more = grown(edges, seed, first_relations(n as int));
        let all = before + seq![seed] + more;
        let i = choose|i: int| 0 <= i < all.len() && all[i] == t;
        lemma_seed(n - 1);
        if i < before.len() {
            assert(before[i] == t);
            lemma_least_seed(edges, (n - 1) as nat, t)
        } else {
            if i > before.len() {
                assert(more[i - before.len() - 1] == t);
                lemma_grown_marked(edges, seed, first_relations(n as int), t);
            }
            n - 1
        }
    }
}

/// Sets that grew from two relations are two sets.
proof fn lemma_two_seeds(t: RelationSet, v: int, w: int)
    requires
        0 <= v < w < 64,
        t & first_relations(v + 1) == single(v),
    ensures
        t & first_relations(w + 1) != single(w),
{
    lemma_has_ops(t, first_relations(v + 1), v);
    lemma_has_ops(t, first_relations(w + 1), v);
    lemma_first_relations(v + 1, v);
    lemma_first_relations(w + 1, v);
    lemma_has_single(v, v);
    lemma_has_single(w, v);
}

/// No connected set is enumerated twice.
pub proof fn no_set_is_enumerated_twice(edges: Seq<JoinEdge>, n: nat)
    requires
        n <= 64,
    ensures
        connected_sets(edges, n).no_duplicates(),
    decreases n,
{
    if n > 0 {
        let m = (n - 1) as nat;
        let before = connected_sets(edges, m);
        let seed = single(n - 1);
        let forbidden = first_relations(n as int);
        let more = grown(edges, seed, forbidden);
        no_set_is_enumerated_twice(edges, m);
        lemma_seed(n - 1);
        lemma_grown_once(edges, seed, forbidden);
        let here = seq![seed];
        assert forall|i: int, j: int| 0 <= i < before.len() && 0 <= j < here.len() implies before[i]
            != here[j] by {
            assert(before.contains(before[i]));
            let v = lemma_least_seed(edges, m, before[i]);
            lemma_two_seeds(before[i], v, n - 1);
        }
        lemma_no_dup_in_concat(before, here);
        let so_far = before + here;
        assert forall|i: int, j: int| 0 <= i < so_far.len() && 0 <= j < more.len() implies so_far[i]
            != more[j] by {
            assert(more.contains(more[j]));
            lemma_grown_marked(edges, seed, forbidden, more[j]);
            if i < before.len() {
                assert(so_far[i] == before[i]);
                assert(before.contains(before[i]));
                let v = lemma_least_seed(edges, m, before[i]);
                lemma_two_seeds(before[i], v, n - 1);
            } else {
                assert(so_far[i] == seed);
            }
        }
        lemma_no_dup_in_concat(so_far, more);
    }
}

} // verus!
