//! The join graph: relations, and the equalities between their columns.
//! A set of relations is a bit mask, so that unions, intersections and the
//! enumeration of subsets are single instructions.

use std::sync::Arc;
use vstd::prelude::*;

use crate::logical_plan::plan::{LogicalPlan, PlanView};
use crate::statistics::{TableStatistics, TableStatsView};

verus! {

/// A set of relations: bit `i` stands for relation `i`.
pub type RelationSet = u64;

// ---------------------------------------------------------------------------
// Sets

/// Whether a relation is in a set.
pub open spec fn holds(s: RelationSet, i: int) -> bool {
    0 <= i < 64 && (s >> (i as u64)) & 1u64 == 1u64
}

/// Whether a set is part of another.
pub open spec fn part_of(a: RelationSet, b: RelationSet) -> bool {
    a & b == a
}

/// What a part leaves of a set.
pub open spec fn rest(s: RelationSet, a: RelationSet) -> RelationSet {
    s & !a
}

/// Whether a set is part of another, neither empty nor the whole.
pub open spec fn splits(a: RelationSet, s: RelationSet) -> bool {
    part_of(a, s) && a != 0 && a != s
}

/// The set of one relation.
pub open spec fn single(i: int) -> RelationSet {
    1u64 << (i as u64)
}

/// The number of relations in a set.
pub open spec fn size(s: RelationSet) -> int
    decreases s,
{
    if s == 0 {
        0
    } else {
        s % 2 + size(s / 2)
    }
}

pub proof fn lemma_split(a: RelationSet, s: RelationSet)
    requires
        splits(a, s),
    ensures
        splits(rest(s, a), s),
        rest(s, rest(s, a)) == a,
        a < s,
        rest(s, a) < s,
        a | rest(s, a) == s,
        a & rest(s, a) == 0,
{
    assert(a & s == a && a != 0 && a != s ==> {
        &&& (s & !a) & s == (s & !a)
        &&& (s & !a) != 0
        &&& (s & !a) != s
        &&& (s & !(s & !a)) == a
        &&& a < s
        &&& (s & !a) < s
        &&& a | (s & !a) == s
        &&& a & (s & !a) == 0
    }) by (bit_vector);
}

pub proof fn lemma_whole(s: RelationSet, x: RelationSet)
    ensures
        part_of(s, s),
        part_of(x, s) ==> x <= s,
        x & 0 == 0,
        s | 0 == s,
{
    assert(s & s == s && (x & s == x ==> x <= s) && x & 0 == 0 && s | 0 == s) by (bit_vector);
}

pub proof fn lemma_part_of_part(a: RelationSet, b: RelationSet, c: RelationSet)
    requires
        part_of(a, b),
        part_of(b, c),
    ensures
        part_of(a, c),
{
    assert(a & b == a && b & c == b ==> a & c == a) by (bit_vector);
}

/// The lowest bit of a set and of its half, and the highest of the half.
proof fn lemma_ends(s: RelationSet)
    ensures
        (s >> 0u64) & 1u64 == s % 2,
        ((s / 2) >> 63u64) & 1u64 == 0,
{
    assert((s >> 0u64) & 1u64 == s % 2 && ((s / 2) >> 63u64) & 1u64 == 0) by (bit_vector);
}

pub proof fn lemma_has_ops(a: RelationSet, b: RelationSet, i: int)
    ensures
        holds(a & b, i) <==> holds(a, i) && holds(b, i),
        holds(a | b, i) <==> holds(a, i) || holds(b, i),
        holds(a & !b, i) <==> holds(a, i) && !holds(b, i),
        !holds(0, i),
{
    if 0 <= i < 64 {
        let k = i as u64;
        assert({
            &&& ((a & b) >> k) & 1u64 == 1u64 <==> (a >> k) & 1u64 == 1u64 && (b >> k) & 1u64
                == 1u64
            &&& ((a | b) >> k) & 1u64 == 1u64 <==> (a >> k) & 1u64 == 1u64 || (b >> k) & 1u64
                == 1u64
            &&& ((a & !b) >> k) & 1u64 == 1u64 <==> (a >> k) & 1u64 == 1u64 && (b >> k) & 1u64
                != 1u64
            &&& (0u64 >> k) & 1u64 == 0u64
        }) by (bit_vector)
            requires
                k < 64,
        ;
    }
}

pub proof fn lemma_has_single(i: int, j: int)
    requires
        0 <= i < 64,
    ensures
        holds(single(i), j) <==> i == j,
        single(i) != 0,
{
    let k = i as u64;
    let m = if 0 <= j < 64 {
        j as u64
    } else {
        0
    };
    assert((1u64 << k) != 0 && (((1u64 << k) >> m) & 1u64 == 1u64 <==> k == m)) by (bit_vector)
        requires
            k < 64,
            m < 64,
    ;
}

proof fn lemma_has_half(s: RelationSet, i: int)
    requires
        0 <= i < 63,
    ensures
        holds(s / 2, i) <==> holds(s, i + 1),
{
    let k = i as u64;
    let m = (i + 1) as u64;
    assert(k < 63 && m == k + 1 ==> ((s / 2) >> k) & 1u64 == (s >> m) & 1u64) by (bit_vector);
}

/// A set is determined by what is in it.
pub proof fn lemma_same_set(a: RelationSet, b: RelationSet)
    requires
        forall|i: int| 0 <= i < 64 ==> (#[trigger] holds(a, i) <==> holds(b, i)),
    ensures
        a == b,
    decreases a + b,
{
    if a != 0 || b != 0 {
        assert forall|i: int| 0 <= i < 64 implies (#[trigger] holds(a / 2, i) <==> holds(b / 2, i)) by {
            if i < 63 {
                lemma_has_half(a, i);
                lemma_has_half(b, i);
                assert(holds(a, i + 1) <==> holds(b, i + 1));
            } else {
                lemma_ends(a);
                lemma_ends(b);
            }
        }
        lemma_same_set(a / 2, b / 2);
        assert(holds(a, 0) <==> holds(b, 0));
        lemma_ends(a);
        lemma_ends(b);
    }
}

/// A set that is not empty has a least relation.
pub proof fn lemma_least(s: RelationSet) -> (i: int)
    requires
        s != 0,
    ensures
        holds(s, i),
        forall|j: int| 0 <= j < i ==> !#[trigger] holds(s, j),
    decreases s,
{
    lemma_ends(s);
    if s % 2 == 1 {
        0
    } else {
        let k = lemma_least(s / 2);
        lemma_has_half(s, k);
        assert forall|j: int| 0 <= j < k + 1 implies !#[trigger] holds(s, j) by {
            if j > 0 {
                lemma_has_half(s, j - 1);
                assert(!holds(s / 2, j - 1));
            }
        }
        k + 1
    }
}

pub proof fn lemma_part_has(a: RelationSet, b: RelationSet, i: int)
    requires
        part_of(a, b),
        holds(a, i),
    ensures
        holds(b, i),
{
    lemma_has_ops(a, b, i);
}

pub proof fn lemma_part_of(a: RelationSet, b: RelationSet)
    requires
        forall|i: int| 0 <= i < 64 && #[trigger] holds(a, i) ==> holds(b, i),
    ensures
        part_of(a, b),
{
    assert forall|i: int| 0 <= i < 64 implies (#[trigger] holds(a & b, i) <==> holds(a, i)) by {
        lemma_has_ops(a, b, i);
    }
    lemma_same_set(a & b, a);
}

/// A part that is not the whole is smaller.
pub proof fn lemma_part_is_smaller(a: RelationSet, b: RelationSet)
    requires
        part_of(a, b),
    ensures
        size(a) <= size(b),
        a != b ==> size(a) < size(b),
        size(a) >= 0,
    decreases b,
{
    if b == 0 {
        lemma_whole(0, a);
    } else {
        assert(a & b == a ==> (a / 2) & (b / 2) == a / 2 && a % 2 <= b % 2) by (bit_vector);
        lemma_part_is_smaller(a / 2, b / 2);
        if a == 0 {
            assert(size(a / 2) == 0);
        }
    }
}

pub proof fn lemma_single_size(i: int)
    requires
        0 <= i < 64,
    ensures
        size(single(i)) == 1,
    decreases i,
{
    lemma_has_single(i, i);
    let k = i as u64;
    reveal_with_fuel(size, 2);
    if i == 0 {
        assert(1u64 << 0u64 == 1u64) by (bit_vector);
    } else {
        let m = (i - 1) as u64;
        assert(0 < k < 64 && m == k - 1 ==> (1u64 << k) / 2 == 1u64 << m && (1u64 << k) % 2 == 0)
            by (bit_vector);
        lemma_single_size(i - 1);
    }
}

/// Whether a set has exactly one relation.
pub open spec fn is_single(s: RelationSet) -> bool {
    exists|i: int| 0 <= i < 64 && s == #[trigger] single(i)
}

/// The relation of a set of one.
pub open spec fn member(s: RelationSet) -> int {
    choose|i: int| 0 <= i < 64 && s == #[trigger] single(i)
}

pub proof fn lemma_member(i: int)
    requires
        0 <= i < 64,
    ensures
        is_single(single(i)),
        member(single(i)) == i,
{
    let k = member(single(i));
    assert(single(i) == single(i));
    lemma_has_single(i, k);
    lemma_has_single(k, k);
}

/// The set of one relation.
pub fn singleton(i: usize) -> (r: RelationSet)
    requires
        i < 64,
    ensures
        r == single(i as int),
        forall|j: int| #[trigger] holds(r, j) <==> j == i,
{
    let r: u64 = 1u64 << (i as u64);
    proof {
        assert forall|j: int| #[trigger] holds(r, j) <==> j == i by {
            lemma_has_single(i as int, j);
        }
    }
    r
}

/// The set of the first `n` relations.
pub open spec fn first_relations(n: int) -> RelationSet {
    if n >= 64 {
        u64::MAX
    } else {
        ((1u64 << (n as u64)) - 1) as u64
    }
}

pub proof fn lemma_first_relations(n: int, i: int)
    requires
        n >= 0,
    ensures
        holds(first_relations(n), i) <==> 0 <= i < n && i < 64,
{
    if 0 <= i < 64 {
        let k = i as u64;
        if n >= 64 {
            assert(k < 64 ==> (0xFFFF_FFFF_FFFF_FFFFu64 >> k) & 1u64 == 1u64) by (bit_vector);
        } else {
            let m = n as u64;
            assert(m < 64 && k < 64 ==> (((((1u64 << m) - 1) as u64) >> k) & 1u64 == 1u64 <==> k
                < m)) by (bit_vector);
        }
    }
}

/// The set of the first `n` relations.
pub fn full_set(n: usize) -> (r: RelationSet)
    ensures
        r == first_relations(n as int),
        forall|i: int| #[trigger] holds(r, i) <==> 0 <= i < n && i < 64,
{
    let r: u64 = if n >= 64 {
        u64::MAX
    } else {
        let m: u64 = n as u64;
        proof {
            assert(m < 64 ==> (1u64 << m) >= 1) by (bit_vector);
        }
        (1u64 << m) - 1
    };
    proof {
        assert forall|i: int| #[trigger] holds(r, i) <==> 0 <= i < n && i < 64 by {
            lemma_first_relations(n as int, i);
        }
    }
    r
}

/// The number of relations in a set.
pub fn set_size(s: RelationSet) -> (r: usize)
    ensures
        r == size(s),
        r <= 64,
{
    let mut rest: u64 = s;
    let mut n: usize = 0;
    let mut steps: usize = 0;
    assert(s >> 0u64 == s) by (bit_vector);
    while rest > 0
        invariant
            n + size(rest) == size(s),
            n <= steps <= 64,
            steps < 64 ==> rest == s >> (steps as u64),
            steps == 64 ==> rest == 0,
        decreases rest,
    {
        let ghost k = steps as u64;
        proof {
            assert((k < 63 ==> (s >> k) / 2 == s >> ((k + 1) as u64)) && (s >> 63u64) / 2 == 0)
                by (bit_vector);
        }
        n = n + (rest % 2) as usize;
        rest = rest / 2;
        steps = steps + 1;
    }
    n
}

// ---------------------------------------------------------------------------
// Parts of a set

/// The greatest part of a set below `sub`.
pub open spec fn next_part(s: RelationSet, sub: RelationSet) -> RelationSet {
    ((sub - 1) as u64) & s
}

pub proof fn lemma_next_part(s: RelationSet, sub: RelationSet, x: RelationSet)
    requires
        sub > 0,
    ensures
        part_of(next_part(s, sub), s),
        next_part(s, sub) < sub,
        part_of(x, s) && part_of(sub, s) && x < sub ==> x <= next_part(s, sub),
{
    assert({
        &&& (((sub - 1) as u64) & s) & s == ((sub - 1) as u64) & s
        &&& (((sub - 1) as u64) & s) < sub
        &&& x & s == x && sub & s == sub && x < sub ==> x <= (((sub - 1) as u64) & s)
    }) by (bit_vector)
        requires
            sub > 0,
    ;
}

/// The parts of a set from `sub` downwards, without the empty one.
pub open spec fn parts_from(s: RelationSet, sub: RelationSet) -> Seq<RelationSet>
    decreases sub,
{
    if sub == 0 {
        seq![]
    } else {
        proof {
            lemma_next_part(s, sub, 0);
        }
        seq![sub] + parts_from(s, next_part(s, sub))
    }
}

/// The parts from `sub` downwards are all the parts up to `sub`, each once,
/// in descending order.
pub proof fn parts_are_enumerated(s: RelationSet, sub: RelationSet, x: RelationSet)
    requires
        part_of(sub, s),
    ensures
        parts_from(s, sub).contains(x) <==> part_of(x, s) && 0 < x <= sub,
        forall|i: int, j: int|
            0 <= i < j < parts_from(s, sub).len() ==> #[trigger] parts_from(s, sub)[i]
                > #[trigger] parts_from(s, sub)[j],
        forall|i: int|
            0 <= i < parts_from(s, sub).len() ==> 0 < #[trigger] parts_from(s, sub)[i] <= sub,
    decreases sub,
{
    let all = parts_from(s, sub);
    if sub != 0 {
        lemma_next_part(s, sub, x);
        let next = next_part(s, sub);
        let tail = parts_from(s, next);
        parts_are_enumerated(s, next, x);
        assert(all =~= seq![sub] + tail);
        assert forall|i: int, j: int| 0 <= i < j < all.len() implies #[trigger] all[i]
            > #[trigger] all[j] by {
            assert(all[j] == tail[j - 1]);
            if i > 0 {
                assert(all[i] == tail[i - 1]);
            }
        }
        assert forall|i: int| 0 <= i < all.len() implies 0 < #[trigger] all[i] <= sub by {
            if i > 0 {
                assert(all[i] == tail[i - 1]);
            }
        }
        if all.contains(x) {
            let i = choose|i: int| 0 <= i < all.len() && all[i] == x;
            if i > 0 {
                assert(tail[i - 1] == x);
            }
        }
        if part_of(x, s) && 0 < x <= sub {
            if x == sub {
                assert(all[0] == x);
            } else {
                let i = choose|i: int| 0 <= i < tail.len() && tail[i] == x;
                assert(all[i + 1] == x);
            }
        }
    }
}

// ---------------------------------------------------------------------------
// The graph

/// A relation: the plan that produces it, and what is known of it.
pub struct RelationNode {
    pub plan: Arc<LogicalPlan>,
    pub stats: Arc<TableStatistics>,
}

/// An equality between a column of one relation and a column of another, each
/// counted within its own relation.
#[derive(Clone, Copy, Debug)]
pub struct JoinEdge {
    pub left_relation: usize,
    pub left_column: usize,
    pub right_relation: usize,
    pub right_column: usize,
}

pub struct JoinGraph {
    pub relations: Vec<RelationNode>,
    pub edges: Vec<JoinEdge>,
}

/// The model of a relation.
pub struct RelationView {
    pub plan: PlanView,
    pub stats: TableStatsView,
}

/// The model of a join graph.
pub struct GraphView {
    pub relations: Seq<RelationView>,
    pub edges: Seq<JoinEdge>,
}

/// An edge seen from its other end.
pub open spec fn reversed(e: JoinEdge) -> JoinEdge {
    JoinEdge {
        left_relation: e.right_relation,
        left_column: e.right_column,
        right_relation: e.left_relation,
        right_column: e.left_column,
    }
}

/// Whether an edge leads from one set to another as it stands.
pub open spec fn leads(e: JoinEdge, a: RelationSet, b: RelationSet) -> bool {
    holds(a, e.left_relation as int) && holds(b, e.right_relation as int)
}

/// Whether an edge connects two sets, in either direction.
pub open spec fn links(e: JoinEdge, a: RelationSet, b: RelationSet) -> bool {
    leads(e, a, b) || leads(reversed(e), a, b)
}

/// Whether some edge connects two sets.
pub open spec fn linked(edges: Seq<JoinEdge>, a: RelationSet, b: RelationSet) -> bool {
    exists|k: int| 0 <= k < edges.len() && links(#[trigger] edges[k], a, b)
}

/// The edges among the first `n` that connect two sets, each turned so that
/// its left end is in the first.
pub open spec fn links_between(
    edges: Seq<JoinEdge>,
    a: RelationSet,
    b: RelationSet,
    n: nat,
) -> Seq<JoinEdge>
    decreases n,
{
    if n == 0 {
        seq![]
    } else {
        let before = links_between(edges, a, b, (n - 1) as nat);
        let e = edges[n - 1];
        if leads(e, a, b) {
            before.push(e)
        } else if leads(reversed(e), a, b) {
            before.push(reversed(e))
        } else {
            before
        }
    }
}

/// The far ends of those of the first `n` edges that start in a set.
pub open spec fn far_ends(edges: Seq<JoinEdge>, s: RelationSet, n: nat) -> RelationSet
    decreases n,
{
    if n == 0 {
        0
    } else {
        let e = edges[n - 1];
        (far_ends(edges, s, (n - 1) as nat) | (if holds(s, e.left_relation as int) {
            single(e.right_relation as int)
        } else {
            0
        })) | (if holds(s, e.right_relation as int) {
            single(e.left_relation as int)
        } else {
            0
        })
    }
}

/// The relations next to a set.
pub open spec fn neighbors_of(edges: Seq<JoinEdge>, s: RelationSet) -> RelationSet {
    far_ends(edges, s, edges.len()) & !s
}

/// Whether a relation is next to a set: not in it, but connected to it.
pub open spec fn next_to(edges: Seq<JoinEdge>, s: RelationSet, i: int) -> bool {
    !holds(s, i) && linked(edges, s, single(i))
}

/// Whether a set is connected: however it is split, some edge crosses.
pub open spec fn connected(edges: Seq<JoinEdge>, s: RelationSet) -> bool {
    s != 0 && forall|a: RelationSet| #[trigger] splits(a, s) ==> linked(edges, a, rest(s, a))
}

/// Connection works in both directions.
pub proof fn connection_is_symmetric(edges: Seq<JoinEdge>, a: RelationSet, b: RelationSet)
    ensures
        linked(edges, a, b) == linked(edges, b, a),
{
    if linked(edges, a, b) {
        let k = choose|k: int| 0 <= k < edges.len() && links(#[trigger] edges[k], a, b);
        assert(links(edges[k], b, a));
    }
    if linked(edges, b, a) {
        let k = choose|k: int| 0 <= k < edges.len() && links(#[trigger] edges[k], b, a);
        assert(links(edges[k], a, b));
    }
}

/// Sets that contain connected sets are connected.
pub proof fn lemma_linked_grows(
    edges: Seq<JoinEdge>,
    a: RelationSet,
    b: RelationSet,
    c: RelationSet,
    d: RelationSet,
)
    requires
        linked(edges, a, b),
        part_of(a, c),
        part_of(b, d),
    ensures
        linked(edges, c, d),
{
    let k = choose|k: int| 0 <= k < edges.len() && links(#[trigger] edges[k], a, b);
    let e = edges[k];
    if leads(e, a, b) {
        lemma_part_has(a, c, e.left_relation as int);
        lemma_part_has(b, d, e.right_relation as int);
    } else {
        lemma_part_has(a, c, e.right_relation as int);
        lemma_part_has(b, d, e.left_relation as int);
    }
    assert(links(e, c, d));
}

/// What connects two sets: every edge handed out starts in the first set and
/// ends in the second, and there is one exactly when the sets are connected.
pub proof fn edges_between_are_turned(
    edges: Seq<JoinEdge>,
    a: RelationSet,
    b: RelationSet,
    n: nat,
)
    requires
        n <= edges.len(),
    ensures
        forall|i: int|
            0 <= i < links_between(edges, a, b, n).len() ==> leads(
                #[trigger] links_between(edges, a, b, n)[i],
                a,
                b,
            ),
        links_between(edges, a, b, n).len() > 0 <==> linked(edges.take(n as int), a, b),
    decreases n,
{
    if n > 0 {
        let m = (n - 1) as nat;
        edges_between_are_turned(edges, a, b, m);
        let short = edges.take(m as int);
        let long = edges.take(n as int);
        assert(long =~= short.push(edges[m as int]));
        if linked(short, a, b) {
            let k = choose|k: int| 0 <= k < short.len() && links(#[trigger] short[k], a, b);
            assert(links(long[k], a, b));
        }
        if links(edges[m as int], a, b) {
            assert(links(long[m as int], a, b));
        }
        if linked(long, a, b) {
            let k = choose|k: int| 0 <= k < long.len() && links(#[trigger] long[k], a, b);
            if k < m {
                assert(links(short[k], a, b));
            }
        }
    }
}

proof fn lemma_far_ends(edges: Seq<JoinEdge>, s: RelationSet, n: nat, i: int)
    requires
        n <= edges.len(),
        forall|k: int|
            0 <= k < edges.len() ==> (#[trigger] edges[k]).left_relation < 64
                && edges[k].right_relation < 64,
    ensures
        holds(far_ends(edges, s, n), i) <==> 0 <= i < 64 && exists|q: int|
            0 <= q < n && links(#[trigger] edges[q], s, single(i)),
    decreases n,
{
    lemma_has_ops(0, 0, i);
    if n > 0 {
        let m = (n - 1) as nat;
        lemma_far_ends(edges, s, m, i);
        let e = edges[m as int];
        let was = far_ends(edges, s, m);
        let add_right = if holds(s, e.left_relation as int) {
            single(e.right_relation as int)
        } else {
            0
        };
        let add_left = if holds(s, e.right_relation as int) {
            single(e.left_relation as int)
        } else {
            0
        };
        lemma_has_ops(was | add_right, add_left, i);
        lemma_has_ops(was, add_right, i);
        lemma_has_single(e.left_relation as int, i);
        lemma_has_single(e.right_relation as int, i);
        if 0 <= i < 64 {
            lemma_has_single(i, e.left_relation as int);
            lemma_has_single(i, e.right_relation as int);
            if holds(was, i) {
                let q = choose|q: int| 0 <= q < m && links(#[trigger] edges[q], s, single(i));
                assert(links(edges[q], s, single(i)));
            }
            if links(e, s, single(i)) {
                assert(links(edges[m as int], s, single(i)));
            }
            if exists|q: int| 0 <= q < n && links(#[trigger] edges[q], s, single(i)) {
                let q = choose|q: int| 0 <= q < n && links(#[trigger] edges[q], s, single(i));
                if q < m {
                    assert(holds(was, i));
                }
            }
        }
    }
}

/// The neighbours of a set are the relations next to it.
pub proof fn neighbors_are_next_to(edges: Seq<JoinEdge>, s: RelationSet, i: int)
    requires
        forall|k: int|
            0 <= k < edges.len() ==> (#[trigger] edges[k]).left_relation < 64
                && edges[k].right_relation < 64,
    ensures
        holds(neighbors_of(edges, s), i) <==> 0 <= i < 64 && next_to(edges, s, i),
{
    lemma_far_ends(edges, s, edges.len(), i);
    lemma_has_ops(far_ends(edges, s, edges.len()), s, i);
}

/// A set of one relation cannot be split.
pub proof fn lemma_single_is_whole(i: int, a: RelationSet)
    requires
        0 <= i < 64,
    ensures
        !splits(a, single(i)),
        next_part(single(i), single(i)) == 0,
{
    let k = i as u64;
    assert({
        &&& a & (1u64 << k) == a ==> a == 0 || a == (1u64 << k)
        &&& ((((1u64 << k) - 1) as u64) & (1u64 << k)) == 0
    }) by (bit_vector)
        requires
            k < 64,
    ;
}

/// Two connected sets with an edge between them are connected together.
pub proof fn unions_of_linked_sets_are_connected(
    edges: Seq<JoinEdge>,
    a: RelationSet,
    b: RelationSet,
)
    requires
        connected(edges, a),
        connected(edges, b),
        linked(edges, a, b),
    ensures
        connected(edges, a | b),
{
    let s = a | b;
    assert(a != 0 ==> a | b != 0) by (bit_vector);
    assert forall|x: RelationSet| #[trigger] splits(x, s) implies linked(edges, x, rest(s, x)) by {
        let y = rest(s, x);
        lemma_split(x, s);
        let xa = x & a;
        let ya = y & a;
        let xb = x & b;
        let yb = y & b;
        assert(x & (a | b) == x && y == (a | b) & !x ==> {
            &&& (x & a) & a == x & a
            &&& a & !(x & a) == y & a
            &&& (x & a) & x == x & a
            &&& (y & a) & y == y & a
            &&& (x & b) & b == x & b
            &&& b & !(x & b) == y & b
            &&& (x & b) & x == x & b
            &&& (y & b) & y == y & b
            &&& (x & a == 0 ==> a & y == a)
            &&& (x & b == 0 ==> b & y == b)
            &&& (x & a == a ==> a & x == a && y & a == 0)
            &&& (x & b == b ==> b & x == b && y & b == 0)
            &&& (x & a == 0 && x & b == 0 ==> x == 0)
            &&& (x & a == a && x & b == b ==> y == 0)
        }) by (bit_vector)
            requires
                x & (a | b) == x,
                y == (a | b) & !x,
        ;
        if splits(xa, a) {
            lemma_linked_grows(edges, xa, ya, x, y);
        } else if splits(xb, b) {
            lemma_linked_grows(edges, xb, yb, x, y);
        } else if xa == 0 {
            connection_is_symmetric(edges, a, b);
            lemma_linked_grows(edges, b, a, x, y);
        } else {
            lemma_linked_grows(edges, a, b, x, y);
        }
    }
}

/// The relations of a graph, at most as many as a set can hold, and the edges
/// between them.
pub open spec fn fits(g: GraphView) -> bool {
    &&& g.relations.len() <= 64
    &&& forall|k: int|
        0 <= k < g.edges.len() ==> (#[trigger] g.edges[k]).left_relation < 64
            && g.edges[k].right_relation < 64
}

impl RelationNode {
    pub open spec fn view(&self) -> RelationView {
        RelationView { plan: self.plan@, stats: self.stats@ }
    }
}

/// The models of relations.
pub open spec fn relation_views(v: Seq<RelationNode>) -> Seq<RelationView> {
    Seq::new(v.len(), |i: int| v[i]@)
}

impl JoinGraph {
    pub open spec fn view(&self) -> GraphView {
        GraphView { relations: relation_views(self.relations@), edges: self.edges@ }
    }

    pub fn new(relations: Vec<RelationNode>, edges: Vec<JoinEdge>) -> (r: JoinGraph)
        ensures
            r@ == (GraphView { relations: relation_views(relations@), edges: edges@ }),
    {
        JoinGraph { relations, edges }
    }

    pub fn num_relations(&self) -> (r: usize)
        ensures
            r == self@.relations.len(),
    {
        self.relations.len()
    }

    /// Whether some edge connects two sets, in either direction.
    pub fn is_connected(&self, s1: RelationSet, s2: RelationSet) -> (r: bool)
        requires
            fits(self@),
        ensures
            r == linked(self@.edges, s1, s2),
    {
        let mut i: usize = 0;
        while i < self.edges.len()
            invariant
                fits(self@),
                i <= self.edges@.len(),
                forall|k: int| 0 <= k < i ==> !links(#[trigger] self@.edges[k], s1, s2),
            decreases self.edges@.len() - i,
        {
            let e = self.edges[i];
            assert(self@.edges[i as int] == e);
            if contains(s1, e.left_relation) && contains(s2, e.right_relation) {
                assert(links(self@.edges[i as int], s1, s2));
                return true;
            }
            if contains(s1, e.right_relation) && contains(s2, e.left_relation) {
                assert(links(self@.edges[i as int], s1, s2));
                return true;
            }
            i = i + 1;
        }
        false
    }

    /// The edges that connect two sets, each turned so that its left end is in
    /// the first.
    pub fn edges_between(&self, s1: RelationSet, s2: RelationSet) -> (r: Vec<JoinEdge>)
        requires
            fits(self@),
        ensures
            r@ == links_between(self@.edges, s1, s2, self@.edges.len()),
    {
        let mut out: Vec<JoinEdge> = Vec::new();
        let mut i: usize = 0;
        while i < self.edges.len()
            invariant
                fits(self@),
                i <= self.edges@.len(),
                out@ == links_between(self@.edges, s1, s2, i as nat),
            decreases self.edges@.len() - i,
        {
            let e = self.edges[i];
            assert(self@.edges[i as int] == e);
            if contains(s1, e.left_relation) && contains(s2, e.right_relation) {
                out.push(e);
            } else if contains(s1, e.right_relation) && contains(s2, e.left_relation) {
                out.push(
                    JoinEdge {
                        left_relation: e.right_relation,
                        left_column: e.right_column,
                        right_relation: e.left_relation,
                        right_column: e.left_column,
                    },
                );
            }
            i = i + 1;
        }
        out
    }

    /// The relations next to a set.
    pub fn neighbors(&self, s: RelationSet) -> (r: RelationSet)
        requires
            fits(self@),
        ensures
            r == neighbors_of(self@.edges, s),
            forall|i: int| #[trigger] holds(r, i) <==> 0 <= i < 64 && next_to(self@.edges, s, i),
    {
        let ghost edges = self@.edges;
        let mut out: u64 = 0;
        let mut k: usize = 0;
        while k < self.edges.len()
            invariant
                fits(self@),
                edges == self@.edges,
                k <= self.edges@.len(),
                out == far_ends(edges, s, k as nat),
            decreases self.edges@.len() - k,
        {
            let e = self.edges[k];
            assert(edges[k as int] == e);
            let l = singleton(e.left_relation);
            let r = singleton(e.right_relation);
            let add_right: u64 = if contains(s, e.left_relation) {
                r
            } else {
                0
            };
            let add_left: u64 = if contains(s, e.right_relation) {
                l
            } else {
                0
            };
            out = (out | add_right) | add_left;
            k = k + 1;
        }
        proof {
            assert forall|i: int| #[trigger] holds(out & !s, i) <==> 0 <= i < 64 && next_to(
                edges,
                s,
                i,
            ) by {
                neighbors_are_next_to(edges, s, i);
            }
        }
        out & !s
    }

    /// The parts of a set, without the empty one and the whole, in descending
    /// order.
    pub fn sub_masks(s: RelationSet) -> (r: Vec<RelationSet>)
        ensures
            s != 0 ==> r@ == parts_from(s, next_part(s, s)),
            s == 0 ==> r@ == Seq::<RelationSet>::empty(),
            forall|x: RelationSet| #[trigger] r@.contains(x) <==> splits(x, s),
    {
        if s == 0 {
            assert forall|x: RelationSet| #[trigger] splits(x, s) implies false by {
                lemma_whole(0, x);
            }
            return Vec::new();
        }
        proof {
            lemma_next_part(s, s, 0);
        }
        let first: u64 = (s - 1) & s;
        let out = collect_parts(s, first);
        proof {
            assert forall|x: RelationSet| #[trigger] out@.contains(x) <==> splits(x, s) by {
                parts_are_enumerated(s, first, x);
                lemma_next_part(s, s, x);
                lemma_whole(s, x);
            }
        }
        out
    }

    /// The parts of a set, without the empty one, in descending order.
    pub fn all_nonempty_submasks(s: RelationSet) -> (r: Vec<RelationSet>)
        ensures
            r@ == parts_from(s, s),
            forall|x: RelationSet| #[trigger] r@.contains(x) <==> part_of(x, s) && x != 0,
    {
        proof {
            lemma_whole(s, s);
        }
        let out = collect_parts(s, s);
        proof {
            assert forall|x: RelationSet| #[trigger] out@.contains(x) <==> part_of(x, s) && x
                != 0 by {
                parts_are_enumerated(s, s, x);
                lemma_whole(s, x);
            }
        }
        out
    }
}

/// Whether a relation is in a set.
pub fn contains(s: RelationSet, i: usize) -> (r: bool)
    requires
        i < 64,
    ensures
        r == holds(s, i as int),
{
    (s >> (i as u64)) & 1u64 == 1u64
}

fn collect_parts(s: RelationSet, from: RelationSet) -> (r: Vec<RelationSet>)
    requires
        part_of(from, s),
    ensures
        r@ == parts_from(s, from),
{
    let mut out: Vec<RelationSet> = Vec::new();
    let mut sub: u64 = from;
    while sub != 0
        invariant
            out@ + parts_from(s, sub) == parts_from(s, from),
        decreases sub,
    {
        proof {
            lemma_next_part(s, sub, 0);
            assert(out@ + parts_from(s, sub) =~= out@.push(sub) + parts_from(s, next_part(s, sub)));
        }
        out.push(sub);
        sub = (sub - 1) & s;
    }
    assert(out@ + parts_from(s, 0) =~= out@);
    out
}

} // verus!
