//! General properties of the closure engine, stated and proved once over
//! the specification the executable functions are verified against.

use vstd::prelude::*;

use crate::graph::at_dist;
use crate::graph::ecc_of;
use crate::graph::is_ecc;
use crate::graph::lemma_ecc_of_is;
use crate::graph::path_of_len;
use crate::graph::reach_set;
use crate::graph::reaches;
use crate::graph::step;
use crate::graph::within;
use crate::models::BibView;
use crate::models::ClosedView;
use crate::models::Relation;
use crate::store::index_of;
use crate::text::key_set;
use crate::text::lemma_sorted_key_seq;
use crate::text::strictly_sorted;
use crate::text::lemma_lex_sorted_ms;
use crate::text::lemma_lex_total_ordering;
use crate::text::lex_leq;
use crate::text::lex_sorted_ms;
use crate::text::sorted_key_seq;
use crate::text::trim_spec;
use crate::text::trimmed_survivors;
use crate::transitive_closure::closed_view;
use crate::transitive_closure::closure_items;
use crate::transitive_closure::closure_text;

verus! {

/// The trimmed survivor items of any key sequence exclude the entry's own
/// key: the serialization drops it.
proof fn lemma_survivors_exclude(ks: Seq<Seq<char>>, k: Seq<char>)
    ensures
        !trimmed_survivors(ks, k).contains(k),
    decreases ks.len(),
{
    if ks.len() > 0 {
        lemma_survivors_exclude(ks.drop_last(), k);
        let pre = trimmed_survivors(ks.drop_last(), k);
        let t = trim_spec(ks.last());
        if t.len() > 0 && t != k {
            if trimmed_survivors(ks, k).contains(k) {
                let i = choose|i: int| 0 <= i < pre.push(t).len() && pre.push(t)[i] == k;
                if i < pre.len() {
                    assert(pre[i] == k);
                    assert(pre.contains(k));
                } else {
                    assert(t == k);
                }
            }
        }
    }
}

/// A key never appears among its own serialized closure items, whatever the
/// graph or the key sequence gathered: the serialization drops the entry's
/// own key.
pub proof fn lemma_own_key_excluded(ks: Seq<Seq<char>>, k: Seq<char>)
    ensures
        !trimmed_survivors(ks, k).contains(k),
        !lex_sorted_ms(trimmed_survivors(ks, k)).contains(k),
{
    lemma_survivors_exclude(ks, k);
    let s = trimmed_survivors(ks, k);
    lemma_lex_total_ordering();
    let q = s.sort_by(lex_leq());
    s.lemma_sort_by_ensures(lex_leq());
    lemma_lex_sorted_ms(s, q);
}

/// A key never appears in its own closure items, whatever the graph.
pub proof fn lemma_own_key_excluded_record(m: Map<Seq<char>, BibView>, rel: Relation, k: Seq<char>)
    ensures
        !closure_items(m, rel, k).contains(k),
{
    lemma_own_key_excluded(sorted_key_seq(crate::graph::reach_set(m, rel, k)), k);
}

/// From a key without outgoing edges no nonempty walk leaves.
proof fn lemma_no_edges_no_path(
    m: Map<Seq<char>, BibView>,
    rel: Relation,
    start: Seq<char>,
    t: Seq<char>,
    n: nat,
)
    requires
        m.contains_key(start) ==> m[start].edges(rel).len() == 0,
        1 <= n,
    ensures
        !path_of_len(m, rel, start, t, n),
    decreases n,
{
    if path_of_len(m, rel, start, t, n) {
        let u = choose|u: Seq<char>|
            path_of_len(m, rel, start, u, (n - 1) as nat) && #[trigger] step(m, rel, u, t);
        if n == 1 {
            assert(u == start);
        } else {
            lemma_no_edges_no_path(m, rel, start, u, (n - 1) as nat);
        }
    }
}

/// An entry without edges under `rel` reaches nothing: its closure text is
/// empty and its eccentricity is zero.
pub proof fn lemma_rel_empty(m: Map<Seq<char>, BibView>, rel: Relation, k: Seq<char>)
    requires
        m.contains_key(k),
        m[k].edges(rel).len() == 0,
    ensures
        closure_text(m, rel, k) == Seq::<char>::empty(),
        ecc_of(m, rel, k) == 0,
{
    assert forall|t: Seq<char>| !#[trigger] reaches(m, rel, k, t) by {
        if reaches(m, rel, k, t) {
            let n = choose|n: nat| 1 <= n && #[trigger] path_of_len(m, rel, k, t, n);
            lemma_no_edges_no_path(m, rel, k, t, n);
            assert(false);
        }
    }
    assert(reach_set(m, rel, k) =~= Set::<Seq<char>>::empty());
    assert(strictly_sorted(Seq::<Seq<char>>::empty()));
    assert(key_set(Seq::<Seq<char>>::empty()) =~= Set::<Seq<char>>::empty());
    lemma_sorted_key_seq(Set::<Seq<char>>::empty(), Seq::<Seq<char>>::empty());
    assert(trimmed_survivors(Seq::<Seq<char>>::empty(), k) == Seq::<Seq<char>>::empty());
    assert(vstd::relations::sorted_by(Seq::<Seq<char>>::empty(), lex_leq()));
    lemma_lex_sorted_ms(Seq::<Seq<char>>::empty(), Seq::<Seq<char>>::empty());
    assert(is_ecc(m, rel, k, 0));
    lemma_ecc_of_is(m, rel, k, 0);
}

/// An entry with no edges under either relation has both serialized
/// closures empty, a success status, and no depth explored.
pub proof fn lemma_no_edges_closure(m: Map<Seq<char>, BibView>, k: Seq<char>)
    requires
        m.contains_key(k),
        m[k].further_references.len() == 0,
        m[k].depends_on.len() == 0,
    ensures
        closed_view(m, k).further_references_closed == Seq::<char>::empty(),
        closed_view(m, k).depends_on_closed == Seq::<char>::empty(),
        closed_view(m, k).status == "success"@,
        closed_view(m, k).max_depth_reached == 0,
{
    lemma_rel_empty(m, Relation::FurtherReferences, k);
    lemma_rel_empty(m, Relation::DependsOn, k);
}

/// Along a pure self-loop every nonempty walk stays at the key itself.
proof fn lemma_self_loop_only(
    m: Map<Seq<char>, BibView>,
    rel: Relation,
    k: Seq<char>,
    t: Seq<char>,
    n: nat,
)
    requires
        m.contains_key(k),
        m[k].edges(rel) == seq![k],
        1 <= n,
        path_of_len(m, rel, k, t, n),
    ensures
        t == k,
    decreases n,
{
    let u = choose|u: Seq<char>|
        path_of_len(m, rel, k, u, (n - 1) as nat) && #[trigger] step(m, rel, u, t);
    if n == 1 {
        assert(u == k);
    } else {
        lemma_self_loop_only(m, rel, k, u, (n - 1) as nat);
    }
    assert(m[k].edges(rel).contains(t));
    let i = choose|i: int| 0 <= i < m[k].edges(rel).len() && m[k].edges(rel)[i] == t;
    assert(seq![k][i] == t);
}

/// A key whose only edge under `rel` points at itself reaches exactly
/// itself, at eccentricity one.
pub proof fn lemma_self_loop(m: Map<Seq<char>, BibView>, rel: Relation, k: Seq<char>)
    requires
        m.contains_key(k),
        m[k].edges(rel) == seq![k],
    ensures
        ecc_of(m, rel, k) == 1,
        reach_set(m, rel, k) == Set::<Seq<char>>::empty().insert(k),
{
    assert(seq![k][0] == k);
    assert(m[k].edges(rel).contains(k));
    assert(step(m, rel, k, k));
    assert(path_of_len(m, rel, k, k, 0));
    crate::graph::lemma_path_step(m, rel, k, k, k, 0);
    assert(path_of_len(m, rel, k, k, 1));
    assert(is_ecc(m, rel, k, 1)) by {
        assert forall|t: Seq<char>| #[trigger] reaches(m, rel, k, t) implies within(
            m,
            rel,
            k,
            t,
            1,
        ) by {
            let n = choose|n: nat| 1 <= n && #[trigger] path_of_len(m, rel, k, t, n);
            lemma_self_loop_only(m, rel, k, t, n);
        }
        assert(at_dist(m, rel, k, k, 1));
    }
    lemma_ecc_of_is(m, rel, k, 1);
    assert(reach_set(m, rel, k) =~= Set::<Seq<char>>::empty().insert(k)) by {
        assert forall|t: Seq<char>| #[trigger] reach_set(m, rel, k).contains(t) implies t == k by {
            let n = choose|n: nat| 1 <= n && #[trigger] path_of_len(m, rel, k, t, n);
            lemma_self_loop_only(m, rel, k, t, n);
        }
        assert(reaches(m, rel, k, k));
    }
}

/// An entry that references only itself under both relations never appears
/// in its own closure and reports a depth of exactly one.
pub proof fn lemma_self_loop_record(m: Map<Seq<char>, BibView>, k: Seq<char>)
    requires
        m.contains_key(k),
        m[k].further_references == seq![k],
        m[k].depends_on == seq![k],
    ensures
        closed_view(m, k).max_depth_reached == 1,
        !closure_items(m, Relation::FurtherReferences, k).contains(k),
        !closure_items(m, Relation::DependsOn, k).contains(k),
{
    lemma_self_loop(m, Relation::FurtherReferences, k);
    lemma_self_loop(m, Relation::DependsOn, k);
    lemma_own_key_excluded_record(m, Relation::FurtherReferences, k);
    lemma_own_key_excluded_record(m, Relation::DependsOn, k);
}

/// Where every reachable key is reached only by walks of a single length
/// (as in a simple chain), the reported depth is the length of the longest
/// walk from the start.  With walks of differing lengths to one key, the
/// reported depth is the greatest shortest distance instead.
pub proof fn lemma_depth_is_longest_walk(
    m: Map<Seq<char>, BibView>,
    rel: Relation,
    start: Seq<char>,
    d: nat,
)
    requires
        is_ecc(m, rel, start, d),
        forall|t: Seq<char>, n1: nat, n2: nat|
            1 <= n1 && 1 <= n2 && #[trigger] path_of_len(m, rel, start, t, n1)
                && #[trigger] path_of_len(m, rel, start, t, n2) ==> n1 == n2,
    ensures
        forall|t: Seq<char>, n: nat|
            1 <= n && #[trigger] path_of_len(m, rel, start, t, n) ==> n <= d,
        (exists|t: Seq<char>| #[trigger] reaches(m, rel, start, t)) ==> (exists|
            t: Seq<char>,
            n: nat,
        |
            n == d && #[trigger] path_of_len(m, rel, start, t, n)),
{
    assert forall|t: Seq<char>, n: nat|
        1 <= n && #[trigger] path_of_len(m, rel, start, t, n) implies n <= d by {
        assert(reaches(m, rel, start, t));
        assert(within(m, rel, start, t, d));
        let n2 = choose|n2: nat| 1 <= n2 <= d && #[trigger] path_of_len(m, rel, start, t, n2);
        assert(n == n2);
    }
    if exists|t: Seq<char>| #[trigger] reaches(m, rel, start, t) {
        let t0 = choose|t: Seq<char>| #[trigger] reaches(m, rel, start, t);
        if d == 0 {
            assert(within(m, rel, start, t0, 0));
            let n = choose|n: nat| 1 <= n <= 0 && #[trigger] path_of_len(m, rel, start, t0, n);
            assert(false);
        } else {
            let w = choose|w: Seq<char>| #[trigger] at_dist(m, rel, start, w, d);
            assert(path_of_len(m, rel, start, w, d));
        }
    }
}

/// The greatest depth the engine reports is realised by a simple walk: a
/// walk of exactly that many edges from the start whose keys repeat at most
/// at its two endpoints.  The depth is therefore bounded by the longest
/// simple walk, never by the length of a cycle.
pub proof fn lemma_depth_realised_by_simple_walk(
    m: Map<Seq<char>, BibView>,
    rel: Relation,
    start: Seq<char>,
    d: nat,
) -> (r: (Seq<char>, Seq<Seq<char>>))
    requires
        is_ecc(m, rel, start, d),
        d >= 1,
    ensures
        r.1.len() == d + 1,
        r.1[0] == start,
        r.1.last() == r.0,
        crate::graph::is_walk(m, rel, r.1),
        forall|i: int, j: int| 0 <= i < j <= d && !(i == 0 && j == d) ==> r.1[i] != r.1[j],
{
    let k = choose|k: Seq<char>| #[trigger] at_dist(m, rel, start, k, d);
    let w = crate::graph::lemma_shortest_walk_simple(m, rel, start, k, d);
    (k, w)
}

/// The reported depth never exceeds the number of distinct reachable keys:
/// the simple walk realising it visits that many distinct keys, so cycles
/// cannot inflate it.
pub proof fn lemma_depth_le_reach_count(
    m: Map<Seq<char>, BibView>,
    rel: Relation,
    start: Seq<char>,
    d: nat,
)
    requires
        is_ecc(m, rel, start, d),
        reach_set(m, rel, start).finite(),
    ensures
        d <= reach_set(m, rel, start).len(),
{
    if d >= 1 {
        let k = choose|k: Seq<char>| #[trigger] at_dist(m, rel, start, k, d);
        let w = crate::graph::lemma_shortest_walk_simple(m, rel, start, k, d);
        let tail = w.subrange(1, d as int + 1);
        assert(tail.len() == d);
        assert(tail.no_duplicates()) by {
            assert forall|i: int, j: int|
                0 <= i < tail.len() && 0 <= j < tail.len() && i != j implies tail[i] != tail[j] by {
                assert(tail[i] == w[i + 1] && tail[j] == w[j + 1]);
            }
        }
        assert forall|i: int| 0 <= i < tail.len() implies reach_set(m, rel, start).contains(
            #[trigger] tail[i],
        ) by {
            let p = w.take(i + 2);
            assert forall|x: int| 0 <= x < p.len() - 1 implies step(m, rel, p[x], #[trigger] p[x
                + 1]) by {
                assert(p[x] == w[x] && p[x + 1] == w[x + 1]);
                assert(crate::graph::is_walk(m, rel, w));
                assert(step(m, rel, w[x], w[x + 1]));
            }
            crate::graph::lemma_walk_to_path(m, rel, p);
            assert(p[0] == start && p.last() == w[i + 1]);
            assert(path_of_len(m, rel, start, tail[i], (i + 1) as nat));
            assert(reaches(m, rel, start, tail[i]));
        }
        tail.unique_seq_to_set();
        assert(tail.to_set().subset_of(reach_set(m, rel, start))) by {
            assert forall|t: Seq<char>| tail.to_set().contains(t) implies reach_set(
                m,
                rel,
                start,
            ).contains(t) by {
                assert(tail.contains(t));
                let i = choose|i: int| 0 <= i < tail.len() && tail[i] == t;
                assert(reach_set(m, rel, start).contains(tail[i]));
            }
        }
        vstd::set_lib::lemma_len_subset(tail.to_set(), reach_set(m, rel, start));
    }
}

/// Computing the closures twice over the same immutable input yields
/// identical records: the result is a function of the entry sequence alone.
pub proof fn lemma_idempotent(s: Seq<BibView>, r1: Seq<ClosedView>, r2: Seq<ClosedView>)
    requires
        r1.len() == s.len(),
        r2.len() == s.len(),
        forall|i: int|
            0 <= i < s.len() ==> #[trigger] r1[i] == closed_view(index_of(s), s[i].bibkey),
        forall|i: int|
            0 <= i < s.len() ==> #[trigger] r2[i] == closed_view(index_of(s), s[i].bibkey),
    ensures
        r1 == r2,
{
    assert(r1 =~= r2);
}

} // verus!
