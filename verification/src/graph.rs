//! The mathematical model of reachability over the entry graph.
//!
//! The entry set is modelled as a map from bibkey to entry view; each of the
//! two relations induces a directed graph over that map.  Reachability,
//! walk length and the breadth-first eccentricity (the greatest shortest
//! distance over all reachable keys) are defined here, together with the
//! lemmas the traversal proofs need.

use vstd::prelude::*;

use crate::models::BibView;
use crate::models::Relation;

verus! {

/// One directed edge: `u` is present in the map and lists `k` under `rel`.
pub open spec fn step(
    m: Map<Seq<char>, BibView>,
    rel: Relation,
    u: Seq<char>,
    k: Seq<char>,
) -> bool {
    m.contains_key(u) && m[u].edges(rel).contains(k)
}

/// There is a walk of exactly `n` edges from `start` to `k` under `rel`.
pub open spec fn path_of_len(
    m: Map<Seq<char>, BibView>,
    rel: Relation,
    start: Seq<char>,
    k: Seq<char>,
    n: nat,
) -> bool
    decreases n,
{
    if n == 0 {
        k == start
    } else {
        exists|u: Seq<char>|
            path_of_len(m, rel, start, u, (n - 1) as nat) && #[trigger] step(m, rel, u, k)
    }
}

/// `k` is reachable from `start` by a walk of at least one edge.
pub open spec fn reaches(
    m: Map<Seq<char>, BibView>,
    rel: Relation,
    start: Seq<char>,
    k: Seq<char>,
) -> bool {
    exists|n: nat| 1 <= n && #[trigger] path_of_len(m, rel, start, k, n)
}

/// The transitive closure of `start` under `rel`: every key reachable by a
/// nonempty walk.  `start` itself belongs to it exactly when it lies on a
/// cycle.
pub open spec fn reach_set(
    m: Map<Seq<char>, BibView>,
    rel: Relation,
    start: Seq<char>,
) -> Set<Seq<char>> {
    Set::new(|k: Seq<char>| reaches(m, rel, start, k))
}

/// No walk from `start` to `k` is shorter than `d` edges (among nonempty walks).
pub open spec fn no_shorter(
    m: Map<Seq<char>, BibView>,
    rel: Relation,
    start: Seq<char>,
    k: Seq<char>,
    d: nat,
) -> bool {
    forall|j: nat| 1 <= j < d ==> !#[trigger] path_of_len(m, rel, start, k, j)
}

/// The shortest nonempty walk from `start` to `k` has exactly `d` edges.
pub open spec fn at_dist(
    m: Map<Seq<char>, BibView>,
    rel: Relation,
    start: Seq<char>,
    k: Seq<char>,
    d: nat,
) -> bool {
    1 <= d && path_of_len(m, rel, start, k, d) && no_shorter(m, rel, start, k, d)
}

/// `k` can be reached from `start` by a nonempty walk of at most `d` edges.
pub open spec fn within(
    m: Map<Seq<char>, BibView>,
    rel: Relation,
    start: Seq<char>,
    k: Seq<char>,
    d: nat,
) -> bool {
    exists|n: nat| 1 <= n <= d && #[trigger] path_of_len(m, rel, start, k, n)
}

/// `d` is the eccentricity of `start` under `rel`: every reachable key has a
/// walk of at most `d` edges, and, unless `d` is zero, some reachable key has
/// no walk shorter than `d`.
pub open spec fn is_ecc(
    m: Map<Seq<char>, BibView>,
    rel: Relation,
    start: Seq<char>,
    d: nat,
) -> bool {
    &&& forall|k: Seq<char>| #[trigger] reaches(m, rel, start, k) ==> within(m, rel, start, k, d)
    &&& (d == 0 || exists|k: Seq<char>| #[trigger] at_dist(m, rel, start, k, d))
}

/// Some reachable key has no walk of at most `b` edges.
pub open spec fn exceeds(
    m: Map<Seq<char>, BibView>,
    rel: Relation,
    start: Seq<char>,
    b: nat,
) -> bool {
    exists|k: Seq<char>| #[trigger] reaches(m, rel, start, k) && !within(m, rel, start, k, b)
}

/// The eccentricity of `start` under `rel`; well defined whenever some depth
/// satisfies [`is_ecc`], which [`lemma_ecc_unique`] shows is then unique.
pub open spec fn ecc_of(m: Map<Seq<char>, BibView>, rel: Relation, start: Seq<char>) -> nat {
    choose|d: nat| is_ecc(m, rel, start, d)
}

/// At most one depth can be the eccentricity.
pub proof fn lemma_ecc_unique(
    m: Map<Seq<char>, BibView>,
    rel: Relation,
    start: Seq<char>,
    d1: nat,
    d2: nat,
)
    requires
        is_ecc(m, rel, start, d1),
        is_ecc(m, rel, start, d2),
    ensures
        d1 == d2,
{
    if d1 < d2 {
        let k = choose|k: Seq<char>| #[trigger] at_dist(m, rel, start, k, d2);
        assert(path_of_len(m, rel, start, k, d2));
        assert(reaches(m, rel, start, k));
        let n = choose|n: nat| 1 <= n <= d1 && #[trigger] path_of_len(m, rel, start, k, n);
        assert(!path_of_len(m, rel, start, k, n));
    }
    if d2 < d1 {
        let k = choose|k: Seq<char>| #[trigger] at_dist(m, rel, start, k, d1);
        assert(path_of_len(m, rel, start, k, d1));
        assert(reaches(m, rel, start, k));
        let n = choose|n: nat| 1 <= n <= d2 && #[trigger] path_of_len(m, rel, start, k, n);
        assert(!path_of_len(m, rel, start, k, n));
    }
}

/// Whenever some depth is the eccentricity, `ecc_of` equals it.
pub proof fn lemma_ecc_of_is(m: Map<Seq<char>, BibView>, rel: Relation, start: Seq<char>, d: nat)
    requires
        is_ecc(m, rel, start, d),
    ensures
        ecc_of(m, rel, start) == d,
{
    let e = ecc_of(m, rel, start);
    assert(is_ecc(m, rel, start, e));
    lemma_ecc_unique(m, rel, start, e, d);
}

/// The set `c` absorbs every edge of the graph that leaves `start` or a
/// member of `c`.
pub open spec fn edge_closed(
    m: Map<Seq<char>, BibView>,
    rel: Relation,
    start: Seq<char>,
    c: Set<Seq<char>>,
) -> bool {
    &&& forall|k: Seq<char>| #[trigger] step(m, rel, start, k) ==> c.contains(k)
    &&& forall|u: Seq<char>, k: Seq<char>|
        c.contains(u) && #[trigger] step(m, rel, u, k) ==> c.contains(k)
}

/// An edge-closed set contains every key reachable from `start`.
pub proof fn lemma_closed_complete(
    m: Map<Seq<char>, BibView>,
    rel: Relation,
    start: Seq<char>,
    c: Set<Seq<char>>,
    k: Seq<char>,
    n: nat,
)
    requires
        edge_closed(m, rel, start, c),
        1 <= n,
        path_of_len(m, rel, start, k, n),
    ensures
        c.contains(k),
    decreases n,
{
    let u = choose|u: Seq<char>|
        path_of_len(m, rel, start, u, (n - 1) as nat) && #[trigger] step(m, rel, u, k);
    if n == 1 {
        assert(u == start);
    } else {
        lemma_closed_complete(m, rel, start, c, u, (n - 1) as nat);
    }
}

/// A walk of one edge is exactly an edge out of `start`.
pub proof fn lemma_path_one(m: Map<Seq<char>, BibView>, rel: Relation, start: Seq<char>, k: Seq<char>)
    ensures
        path_of_len(m, rel, start, k, 1) <==> step(m, rel, start, k),
{
    if path_of_len(m, rel, start, k, 1) {
        let u = choose|u: Seq<char>|
            path_of_len(m, rel, start, u, 0) && #[trigger] step(m, rel, u, k);
        assert(u == start);
    }
    if step(m, rel, start, k) {
        assert(path_of_len(m, rel, start, start, 0));
    }
}

/// `w` lists the keys of a directed walk: consecutive keys are joined by
/// edges.
pub open spec fn is_walk(m: Map<Seq<char>, BibView>, rel: Relation, w: Seq<Seq<char>>) -> bool {
    forall|i: int| 0 <= i < w.len() - 1 ==> step(m, rel, w[i], #[trigger] w[i + 1])
}

/// A walk of `n` edges realising `path_of_len`.
pub proof fn lemma_path_to_walk(
    m: Map<Seq<char>, BibView>,
    rel: Relation,
    start: Seq<char>,
    k: Seq<char>,
    n: nat,
) -> (w: Seq<Seq<char>>)
    requires
        path_of_len(m, rel, start, k, n),
    ensures
        w.len() == n + 1,
        w[0] == start,
        w.last() == k,
        is_walk(m, rel, w),
    decreases n,
{
    if n == 0 {
        let w = seq![start];
        w
    } else {
        let u = choose|u: Seq<char>|
            path_of_len(m, rel, start, u, (n - 1) as nat) && #[trigger] step(m, rel, u, k);
        let w0 = lemma_path_to_walk(m, rel, start, u, (n - 1) as nat);
        let w = w0.push(k);
        assert(w[0] == w0[0]);
        assert forall|i: int| 0 <= i < w.len() - 1 implies step(m, rel, w[i], #[trigger] w[i + 1]) by {
            if i < w0.len() - 1 {
                assert(w[i] == w0[i] && w[i + 1] == w0[i + 1]);
                assert(step(m, rel, w0[i], w0[i + 1]));
            } else {
                assert(w[i] == w0.last() && w[i + 1] == k);
            }
        }
        w
    }
}

/// Every walk realises `path_of_len` between its endpoints.
pub proof fn lemma_walk_to_path(m: Map<Seq<char>, BibView>, rel: Relation, w: Seq<Seq<char>>)
    requires
        is_walk(m, rel, w),
        w.len() >= 1,
    ensures
        path_of_len(m, rel, w[0], w.last(), (w.len() - 1) as nat),
    decreases w.len(),
{
    if w.len() > 1 {
        let w0 = w.drop_last();
        assert forall|i: int| 0 <= i < w0.len() - 1 implies step(m, rel, w0[i], #[trigger] w0[i
            + 1]) by {
            assert(step(m, rel, w[i], w[i + 1]));
        }
        lemma_walk_to_path(m, rel, w0);
        let i = w.len() - 2;
        assert(step(m, rel, w[i], w[i + 1]));
        lemma_path_step(m, rel, w[0], w0.last(), w.last(), (w.len() - 2) as nat);
    }
}

/// A shortest walk is simple: its keys repeat at most at the two endpoints.
/// So the depth the engine reports never grows with cycle length; it is
/// realised by, and bounded by, a simple walk.
pub proof fn lemma_shortest_walk_simple(
    m: Map<Seq<char>, BibView>,
    rel: Relation,
    start: Seq<char>,
    k: Seq<char>,
    d: nat,
) -> (w: Seq<Seq<char>>)
    requires
        at_dist(m, rel, start, k, d),
    ensures
        w.len() == d + 1,
        w[0] == start,
        w.last() == k,
        is_walk(m, rel, w),
        forall|i: int, j: int| 0 <= i < j <= d && !(i == 0 && j == d) ==> w[i] != w[j],
{
    let w = lemma_path_to_walk(m, rel, start, k, d);
    assert forall|i: int, j: int| 0 <= i < j <= d && !(i == 0 && j == d) implies w[i] != w[j] by {
        if w[i] == w[j] {
            let w2 = w.take(i + 1) + w.skip(j + 1);
            assert(w2.len() == i + 1 + (d + 1 - (j + 1)));
            let len2 = w2.len();
            assert forall|x: int| 0 <= x < len2 - 1 implies step(m, rel, w2[x], #[trigger] w2[x
                + 1]) by {
                if x < i {
                    assert(w2[x] == w[x] && w2[x + 1] == w[x + 1]);
                    assert(step(m, rel, w[x], w[x + 1]));
                } else if x == i {
                    assert(w2[x] == w[i]);
                    assert(w2[x + 1] == w[j + 1]);
                    assert(step(m, rel, w[j], w[j + 1]));
                } else {
                    assert(w2[x] == w[j + x - i]);
                    assert(w2[x + 1] == w[j + x - i + 1]);
                    assert(step(m, rel, w[j + x - i], w[j + x - i + 1]));
                }
            }
            lemma_walk_to_path(m, rel, w2);
            assert(w2[0] == w[0]);
            if j < d {
                assert(w2.last() == w[d as int]);
            } else {
                assert(w2.last() == w[i]);
            }
            let shorter = (len2 - 1) as nat;
            assert(path_of_len(m, rel, start, k, shorter));
            assert(1 <= shorter < d);
            assert(!path_of_len(m, rel, start, k, shorter));
        }
    }
    w
}

/// Extending a walk by one edge.
pub proof fn lemma_path_step(
    m: Map<Seq<char>, BibView>,
    rel: Relation,
    start: Seq<char>,
    u: Seq<char>,
    k: Seq<char>,
    n: nat,
)
    requires
        path_of_len(m, rel, start, u, n),
        step(m, rel, u, k),
    ensures
        path_of_len(m, rel, start, k, n + 1),
{
}

} // verus!
