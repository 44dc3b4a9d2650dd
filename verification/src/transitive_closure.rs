//! The closure engine: cycle-safe breadth-first traversal of one relation,
//! shared by the per-entry mode and the depth-bounded mode.
//!
//! The traversal walks the graph level by level.  A key enters the closure
//! the first time it is discovered, and only then is it queued for
//! expansion, which is the single mechanism that makes cycles harmless.
//! The level number of the last nonempty level is the eccentricity of the
//! start key, reported as the greatest depth reached.

use vstd::prelude::*;

use crate::graph::at_dist;
use crate::graph::ecc_of;
use crate::graph::edge_closed;
use crate::graph::exceeds;
use crate::graph::is_ecc;
use crate::graph::lemma_closed_complete;
use crate::graph::lemma_ecc_of_is;
use crate::graph::lemma_path_one;
use crate::graph::lemma_path_step;
use crate::graph::path_of_len;
use crate::graph::reach_set;
use crate::graph::reaches;
use crate::graph::step;
use crate::graph::within;
use crate::models::BibView;
use crate::models::ClosedView;
use crate::models::Relation;
use crate::models::RustedBibEntry;
use crate::models::TransitivelyClosedBibEntry;
use crate::store::index_of;
use crate::store::EntryStore;
use crate::text::insert_sorted;
use crate::text::join_commas;
use crate::text::join_keys;
use crate::text::key_set;
use crate::text::lemma_sorted_key_seq;
use crate::text::lex_sorted_ms;
use crate::text::serialize_keys;
use crate::text::sorted_key_seq;
use crate::text::strictly_sorted;
use crate::text::trimmed_survivors;

verus! {

/// Pushing extends membership by exactly the pushed key.
proof fn lemma_push_contains(q: Seq<Seq<char>>, x: Seq<char>, t: Seq<char>)
    ensures
        q.push(x).contains(t) <==> q.contains(t) || t == x,
{
    if q.push(x).contains(t) {
        let i = choose|i: int| 0 <= i < q.push(x).len() && q.push(x)[i] == t;
        if i < q.len() {
            assert(q[i] == t);
        }
    }
    if q.contains(t) {
        let i = choose|i: int| 0 <= i < q.len() && q[i] == t;
        assert(q.push(x)[i] == t);
    }
    if t == x {
        assert(q.push(x)[q.len() as int] == t);
    }
}

/// Membership of `x` among the strings of `v`.
fn contains_str(v: &Vec<String>, x: &String) -> (r: bool)
    ensures
        r == v.deep_view().contains(x@),
{
    let mut j: usize = 0;
    while j < v.len()
        invariant
            0 <= j <= v@.len(),
            forall|i: int| 0 <= i < j ==> v.deep_view()[i] != x@,
        decreases v@.len() - j,
    {
        if v[j].eq(x) {
            assert(v.deep_view()[j as int] == x@);
            return true;
        }
        j = j + 1;
    }
    false
}

/// The edge list of `e` under `rel`.
fn edges_vec<'a>(e: &'a RustedBibEntry, rel: Relation) -> (r: &'a Vec<String>)
    ensures
        r.deep_view() == e@.edges(rel),
{
    match rel {
        Relation::FurtherReferences => &e.further_references,
        Relation::DependsOn => &e.depends_on,
    }
}

/// Breadth-first closure of `start` under `rel` over the store's graph.
///
/// Returns the discovered keys (the transitive closure, including `start`
/// itself when it lies on a cycle), the greatest level explored, and, in
/// bounded mode, whether some reachable key lies beyond the bound, in which
/// case the traversal is abandoned and the closure comes back empty.
#[verifier::loop_isolation(false)]
#[verifier::rlimit(60)]
fn bfs_closure(store: &EntryStore, start: &String, rel: Relation, bound: Option<usize>) -> (r: (
    Vec<String>,
    usize,
    bool,
))
    ensures
        r.2 ==> r.0@.len() == 0 && r.1 == 0 && (match bound {
            Some(b) => exceeds(store@, rel, start@, b as nat),
            None => false,
        }),
        !r.2 ==> key_set(r.0.deep_view()) == reach_set(store@, rel, start@) && is_ecc(
            store@,
            rel,
            start@,
            r.1 as nat,
        ) && (match bound {
            Some(b) => !exceeds(store@, rel, start@, b as nat),
            None => true,
        }),
{
    let ghost m = store@;
    let mut closure: Vec<String> = Vec::new();
    let mut frontier: Vec<String> = Vec::new();
    frontier.push(start.clone());
    let mut depth: usize = 0;
    while frontier.len() > 0
        invariant
            depth == 0 ==> closure.deep_view().len() == 0 && (frontier.deep_view().len() > 0
                ==> frontier.deep_view().len() == 1 && frontier.deep_view()[0] == start@),
            depth >= 1 && frontier.deep_view().len() > 0 ==> forall|t: Seq<char>|
                #![trigger frontier.deep_view().contains(t)]
                #![trigger at_dist(m, rel, start@, t, depth as nat)]
                frontier.deep_view().contains(t) <==> at_dist(m, rel, start@, t, depth as nat),
            forall|t: Seq<char>|
                #![trigger closure.deep_view().contains(t)]
                #![trigger within(m, rel, start@, t, depth as nat)]
                closure.deep_view().contains(t) <==> within(m, rel, start@, t, depth as nat),
            depth >= 1 ==> exists|k: Seq<char>| #[trigger] at_dist(m, rel, start@, k, depth as nat),
            frontier.deep_view().len() == 0 ==> forall|k: Seq<char>|
                #[trigger] reaches(m, rel, start@, k) ==> closure.deep_view().contains(k),
            depth <= closure.len(),
            match bound {
                Some(b) => depth <= b,
                None => true,
            },
        decreases usize::MAX - closure.len(), frontier.len(),
    {
        let ghost c0 = closure.deep_view();
        let ghost fdv = frontier.deep_view();
        let mut next: Vec<String> = Vec::new();
        let mut f: usize = 0;
        while f < frontier.len()
            invariant
                0 <= f <= frontier.len(),
                closure.deep_view().len() == c0.len() + next.deep_view().len(),
                forall|t: Seq<char>| #[trigger]
                    closure.deep_view().contains(t) <==> c0.contains(t)
                        || next.deep_view().contains(t),
                forall|t: Seq<char>| #[trigger]
                    next.deep_view().contains(t) ==> at_dist(
                        m,
                        rel,
                        start@,
                        t,
                        (depth + 1) as nat,
                    ) && !c0.contains(t),
                forall|jj: int, t: Seq<char>|
                    0 <= jj < f && m.contains_key(fdv[jj]) && #[trigger] m[fdv[jj]].edges(
                        rel,
                    ).contains(t) ==> closure.deep_view().contains(t),
            decreases frontier.len() - f,
        {
            let u = &frontier[f];
            assert(fdv[f as int] == u@);
            match store.lookup(u) {
                None => {
                    assert(!m.contains_key(fdv[f as int]));
                },
                Some(e) => {
                    let edges = edges_vec(e, rel);
                    let ghost edv = edges.deep_view();
                    assert(edv == m[u@].edges(rel));
                    let mut g: usize = 0;
                    while g < edges.len()
                        invariant
                            0 <= g <= edges.len(),
                            edv == edges.deep_view(),
                            closure.deep_view().len() == c0.len() + next.deep_view().len(),
                            forall|t: Seq<char>| #[trigger]
                                closure.deep_view().contains(t) <==> c0.contains(t)
                                    || next.deep_view().contains(t),
                            forall|t: Seq<char>| #[trigger]
                                next.deep_view().contains(t) ==> at_dist(
                                    m,
                                    rel,
                                    start@,
                                    t,
                                    (depth + 1) as nat,
                                ) && !c0.contains(t),
                            forall|jj: int, t: Seq<char>|
                                0 <= jj < f && m.contains_key(fdv[jj]) && #[trigger] m[fdv[jj]].edges(
                                    rel,
                                ).contains(t) ==> closure.deep_view().contains(t),
                            forall|gg: int|
                                0 <= gg < g ==> closure.deep_view().contains(#[trigger] edv[gg]),
                        decreases edges.len() - g,
                    {
                        let v = &edges[g];
                        assert(edv[g as int] == v@);
                        let fresh = !contains_str(&closure, v);
                        if fresh {
                            let ghost t = v@;
                            proof {
                                // A walk to `v` through the expanded key.
                                assert(m[u@].edges(rel).contains(t));
                                if depth == 0 {
                                    assert(u@ == start@);
                                    assert(path_of_len(m, rel, start@, start@, 0));
                                    lemma_path_step(m, rel, start@, start@, t, 0);
                                } else {
                                    assert(fdv.contains(fdv[f as int]));
                                    assert(at_dist(m, rel, start@, u@, depth as nat));
                                    lemma_path_step(m, rel, start@, u@, t, depth as nat);
                                }
                                // No shorter walk, else `v` would be closed already.
                                assert forall|j: nat| 1 <= j < depth + 1 implies !path_of_len(
                                    m,
                                    rel,
                                    start@,
                                    t,
                                    j,
                                ) by {
                                    if path_of_len(m, rel, start@, t, j) {
                                        assert(within(m, rel, start@, t, depth as nat));
                                    }
                                }
                                assert(at_dist(m, rel, start@, t, (depth + 1) as nat));
                            }
                            let ghost cdb = closure.deep_view();
                            let ghost ndb = next.deep_view();
                            closure.push(v.clone());
                            next.push(v.clone());
                            proof {
                                assert(closure.deep_view() =~= cdb.push(t));
                                assert(next.deep_view() =~= ndb.push(t));
                                assert forall|t2: Seq<char>|
                                    #![trigger closure.deep_view().contains(t2)]
                                    #![trigger next.deep_view().contains(t2)]
                                    (closure.deep_view().contains(t2) <==> cdb.contains(t2) || t2
                                        == t) && (next.deep_view().contains(t2) <==> ndb.contains(
                                        t2,
                                    ) || t2 == t) by {
                                    lemma_push_contains(cdb, t, t2);
                                    lemma_push_contains(ndb, t, t2);
                                }
                            }
                        }
                        g = g + 1;
                    }
                },
            }
            f = f + 1;
        }
        // The gathered level is exactly the set of keys at distance depth + 1.
        proof {
            assert forall|t: Seq<char>| #[trigger]
                at_dist(m, rel, start@, t, (depth + 1) as nat) implies next.deep_view().contains(
                t,
            ) by {
                assert(path_of_len(m, rel, start@, t, (depth + 1) as nat));
                let u = choose|u: Seq<char>|
                    path_of_len(m, rel, start@, u, ((depth + 1) as nat - 1) as nat) && #[trigger] step(
                        m,
                        rel,
                        u,
                        t,
                    );
                assert(path_of_len(m, rel, start@, u, depth as nat));
                assert(!within(m, rel, start@, t, depth as nat));
                assert(!c0.contains(t));
                if depth == 0 {
                    assert(u == start@);
                    assert(fdv[0] == start@);
                    assert(m[fdv[0]].edges(rel).contains(t));
                    assert(closure.deep_view().contains(t));
                } else {
                    if exists|j: nat| 1 <= j < depth && #[trigger] path_of_len(m, rel, start@, u, j) {
                        let j = choose|j: nat|
                            1 <= j < depth && #[trigger] path_of_len(m, rel, start@, u, j);
                        lemma_path_step(m, rel, start@, u, t, j);
                        assert(within(m, rel, start@, t, depth as nat));
                        assert(false);
                    } else {
                        assert(at_dist(m, rel, start@, u, depth as nat));
                        assert(fdv.contains(u));
                        let jj = choose|jj: int| 0 <= jj < fdv.len() && fdv[jj] == u;
                        assert(m[fdv[jj]].edges(rel).contains(t));
                        assert(closure.deep_view().contains(t));
                    }
                }
            }
        }
        if next.len() > 0 {
            let stop = match bound {
                Some(b) => depth == b,
                None => false,
            };
            if stop {
                proof {
                    let t0 = next.deep_view()[0];
                    assert(next.deep_view().contains(t0));
                    assert(at_dist(m, rel, start@, t0, (depth + 1) as nat));
                    assert(path_of_len(m, rel, start@, t0, (depth + 1) as nat));
                    assert(reaches(m, rel, start@, t0));
                    assert forall|n: nat| 1 <= n <= depth implies !path_of_len(
                        m,
                        rel,
                        start@,
                        t0,
                        n,
                    ) by {}
                    assert(!within(m, rel, start@, t0, depth as nat));
                    assert(exceeds(m, rel, start@, depth as nat));
                }
                return (Vec::new(), 0, true);
            }
            proof {
                assert(closure.len() >= depth + 1);
                // Every key within the new level is closed, and conversely.
                assert forall|t: Seq<char>|
                    #![trigger closure.deep_view().contains(t)]
                    #![trigger within(m, rel, start@, t, (depth + 1) as nat)]
                    closure.deep_view().contains(t) <==> within(
                        m,
                        rel,
                        start@,
                        t,
                        (depth + 1) as nat,
                    ) by {
                    if closure.deep_view().contains(t) {
                        if c0.contains(t) {
                            assert(within(m, rel, start@, t, depth as nat));
                            let n = choose|n: nat|
                                1 <= n <= depth && #[trigger] path_of_len(m, rel, start@, t, n);
                            assert(1 <= n <= depth + 1);
                            assert(within(m, rel, start@, t, (depth + 1) as nat));
                        } else {
                            assert(next.deep_view().contains(t));
                            assert(at_dist(m, rel, start@, t, (depth + 1) as nat));
                            assert(within(m, rel, start@, t, (depth + 1) as nat));
                        }
                    }
                    if within(m, rel, start@, t, (depth + 1) as nat) {
                        let n = choose|n: nat|
                            1 <= n <= depth + 1 && #[trigger] path_of_len(m, rel, start@, t, n);
                        if n <= depth {
                            assert(within(m, rel, start@, t, depth as nat));
                            assert(c0.contains(t));
                        } else {
                            if within(m, rel, start@, t, depth as nat) {
                                assert(c0.contains(t));
                            } else {
                                assert forall|j: nat| 1 <= j < depth + 1 implies !path_of_len(
                                    m,
                                    rel,
                                    start@,
                                    t,
                                    j,
                                ) by {
                                    if path_of_len(m, rel, start@, t, j) {
                                        assert(within(m, rel, start@, t, depth as nat));
                                    }
                                }
                                assert(at_dist(m, rel, start@, t, (depth + 1) as nat));
                                assert(next.deep_view().contains(t));
                            }
                        }
                        assert(closure.deep_view().contains(t));
                    }
                }
                let t0 = next.deep_view()[0];
                assert(next.deep_view().contains(t0));
                assert(at_dist(m, rel, start@, t0, (depth + 1) as nat));
            }
            depth = depth + 1;
        } else {
            proof {
                // Nothing new was found: the closure absorbs every edge, so
                // it already holds everything reachable.
                let cs = key_set(closure.deep_view());
                assert forall|k: Seq<char>| #[trigger]
                    step(m, rel, start@, k) implies cs.contains(k) by {
                    lemma_path_one(m, rel, start@, k);
                    if depth == 0 {
                        assert(m[fdv[0]].edges(rel).contains(k));
                        assert(closure.deep_view().contains(k));
                    } else {
                        assert(within(m, rel, start@, k, depth as nat));
                        assert(closure.deep_view().contains(k));
                    }
                }
                assert forall|u: Seq<char>, k: Seq<char>|
                    cs.contains(u) && #[trigger] step(m, rel, u, k) implies cs.contains(k) by {
                    assert(closure.deep_view().contains(u));
                    assert(within(m, rel, start@, u, depth as nat));
                    let n = choose|n: nat|
                        1 <= n <= depth && #[trigger] path_of_len(m, rel, start@, u, n);
                    lemma_path_step(m, rel, start@, u, k, n);
                    if n + 1 <= depth {
                        assert(within(m, rel, start@, k, depth as nat));
                        assert(closure.deep_view().contains(k));
                    } else {
                        assert(n == depth);
                        if exists|j: nat| 1 <= j < depth && #[trigger] path_of_len(m, rel, start@, u, j) {
                            let j = choose|j: nat|
                                1 <= j < depth && #[trigger] path_of_len(m, rel, start@, u, j);
                            lemma_path_step(m, rel, start@, u, k, j);
                            assert(within(m, rel, start@, k, depth as nat));
                            assert(closure.deep_view().contains(k));
                        } else {
                            assert(at_dist(m, rel, start@, u, depth as nat));
                            assert(fdv.contains(u));
                            let jj = choose|jj: int| 0 <= jj < fdv.len() && fdv[jj] == u;
                            assert(m[fdv[jj]].edges(rel).contains(k));
                            assert(closure.deep_view().contains(k));
                        }
                    }
                }
                assert(edge_closed(m, rel, start@, cs));
                assert forall|k: Seq<char>| #[trigger]
                    reaches(m, rel, start@, k) implies closure.deep_view().contains(k) by {
                    let n = choose|n: nat| 1 <= n && #[trigger] path_of_len(m, rel, start@, k, n);
                    lemma_closed_complete(m, rel, start@, cs, k, n);
                }
            }
        }
        frontier = next;
    }
    proof {
        assert(key_set(closure.deep_view()) =~= reach_set(m, rel, start@)) by {
            assert forall|t: Seq<char>| #[trigger]
                key_set(closure.deep_view()).contains(t) implies reach_set(m, rel, start@).contains(
                t,
            ) by {
                assert(closure.deep_view().contains(t));
                assert(within(m, rel, start@, t, depth as nat));
                let n = choose|n: nat|
                    1 <= n <= depth && #[trigger] path_of_len(m, rel, start@, t, n);
                assert(reaches(m, rel, start@, t));
            }
            assert forall|t: Seq<char>| #[trigger]
                reach_set(m, rel, start@).contains(t) implies key_set(
                closure.deep_view(),
            ).contains(t) by {
                assert(reaches(m, rel, start@, t));
                assert(closure.deep_view().contains(t));
            }
        }
        assert(is_ecc(m, rel, start@, depth as nat)) by {
            assert forall|k: Seq<char>| #[trigger] reaches(m, rel, start@, k) implies within(
                m,
                rel,
                start@,
                k,
                depth as nat,
            ) by {
                assert(closure.deep_view().contains(k));
            }
        }
        match bound {
            Some(b) => {
                assert(!exceeds(m, rel, start@, b as nat)) by {
                    if exceeds(m, rel, start@, b as nat) {
                        let k = choose|k: Seq<char>| #[trigger]
                            reaches(m, rel, start@, k) && !within(m, rel, start@, k, b as nat);
                        assert(within(m, rel, start@, k, depth as nat));
                        let n = choose|n: nat|
                            1 <= n <= depth && #[trigger] path_of_len(m, rel, start@, k, n);
                        assert(1 <= n <= b);
                        assert(within(m, rel, start@, k, b as nat));
                    }
                }
            },
            None => {},
        }
    }
    (closure, depth, false)
}

/// The serialized items of the closure of `key` under `rel`: one trimmed
/// item per reachable key, blanks and `key` itself dropped, items that trim
/// to the same text each kept, in lexicographic order.
pub open spec fn closure_items(m: Map<Seq<char>, BibView>, rel: Relation, key: Seq<char>) -> Seq<
    Seq<char>,
> {
    lex_sorted_ms(trimmed_survivors(sorted_key_seq(reach_set(m, rel, key)), key))
}

/// The closure text of `key` under `rel`: its serialized items,
/// comma-joined.
pub open spec fn closure_text(m: Map<Seq<char>, BibView>, rel: Relation, key: Seq<char>) -> Seq<
    char,
> {
    join_commas(closure_items(m, rel, key))
}

/// The distinct keys of `v`, in lexicographic order.
#[verifier::loop_isolation(false)]
fn sort_raw(v: &Vec<String>) -> (r: Vec<String>)
    ensures
        strictly_sorted(r.deep_view()),
        key_set(r.deep_view()) == key_set(v.deep_view()),
{
    let ghost dv = v.deep_view();
    let mut out: Vec<String> = Vec::new();
    let mut i: usize = 0;
    proof {
        assert(key_set(out.deep_view()) =~= key_set(dv.take(0)));
    }
    while i < v.len()
        invariant
            0 <= i <= v.len(),
            strictly_sorted(out.deep_view()),
            key_set(out.deep_view()) == key_set(dv.take(i as int)),
        decreases v.len() - i,
    {
        let ghost s1 = key_set(dv.take(i as int));
        let ghost s2 = key_set(dv.take(i + 1));
        proof {
            assert(dv[i as int] == v@[i as int]@);
            assert(forall|jj: int| 0 <= jj < i + 1 ==> dv.take(i + 1)[jj] == dv[jj]);
            assert(forall|jj: int| 0 <= jj < i ==> dv.take(i as int)[jj] == dv[jj]);
            assert(s2 =~= s1.insert(dv[i as int])) by {
                assert forall|t: Seq<char>| s2.contains(t) implies s1.insert(
                    dv[i as int],
                ).contains(t) by {
                    let jj = choose|jj: int|
                        0 <= jj < dv.take(i + 1).len() && #[trigger] dv.take(i + 1)[jj] == t;
                    if jj < i {
                        assert(dv.take(i as int).contains(t));
                    }
                }
                assert forall|t: Seq<char>| s1.insert(dv[i as int]).contains(t) implies s2.contains(
                    t,
                ) by {
                    if s1.contains(t) {
                        let jj = choose|jj: int|
                            0 <= jj < dv.take(i as int).len() && #[trigger] dv.take(
                                i as int,
                            )[jj] == t;
                        assert(dv.take(i + 1)[jj] == t);
                    } else {
                        assert(dv.take(i + 1)[i as int] == t);
                    }
                    assert(dv.take(i + 1).contains(t));
                }
            }
        }
        insert_sorted(&mut out, v[i].clone());
        i = i + 1;
    }
    proof {
        assert(dv.take(v@.len() as int) =~= dv);
    }
    out
}

/// The result record for a key present in the store.
pub open spec fn success_view(m: Map<Seq<char>, BibView>, key: Seq<char>) -> ClosedView {
    let e = m[key];
    let d1 = ecc_of(m, Relation::FurtherReferences, key);
    let d2 = ecc_of(m, Relation::DependsOn, key);
    ClosedView {
        id: e.id,
        bibkey: e.bibkey,
        title: e.title,
        notes: e.notes,
        crossref: e.crossref,
        further_note: e.further_note,
        further_references: join_commas(e.further_references),
        depends_on: join_commas(e.depends_on),
        further_references_closed: closure_text(m, Relation::FurtherReferences, key),
        depends_on_closed: closure_text(m, Relation::DependsOn, key),
        max_depth_reached: if d1 >= d2 {
            d1
        } else {
            d2
        },
        status: "success"@,
        error_message: Seq::empty(),
    }
}

/// The result record for a key absent from the store: an error carried as
/// data, never a fault.
pub open spec fn error_view(key: Seq<char>) -> ClosedView {
    ClosedView {
        id: "missing"@,
        bibkey: key,
        title: "missing"@,
        notes: "missing"@,
        crossref: "missing"@,
        further_note: "missing"@,
        further_references: Seq::empty(),
        depends_on: Seq::empty(),
        further_references_closed: Seq::empty(),
        depends_on_closed: Seq::empty(),
        max_depth_reached: 0,
        status: "error"@,
        error_message: "Bibkey not found in the provided array of bibentries"@,
    }
}

/// What `t_close` returns for `key` over the store `m`.
pub open spec fn closed_view(m: Map<Seq<char>, BibView>, key: Seq<char>) -> ClosedView {
    if m.contains_key(key) {
        success_view(m, key)
    } else {
        error_view(key)
    }
}

/// The per-call cache from bibkey to its computed result record, scoped to
/// one computation pass over one store.
pub struct ClosureMemo {
    pub entries: Vec<(String, TransitivelyClosedBibEntry)>,
}

impl ClosureMemo {
    /// Whether a record for `key` is cached.
    pub open spec fn has(self, key: Seq<char>) -> bool {
        exists|i: int| 0 <= i < self.entries@.len() && (#[trigger] self.entries@[i]).0@ == key
    }

    /// Every cached record is the record the engine would compute.
    pub open spec fn wf(self, m: Map<Seq<char>, BibView>) -> bool {
        forall|i: int|
            0 <= i < self.entries@.len() ==> ((#[trigger] self.entries@[i]).1@ == closed_view(
                m,
                self.entries@[i].0@,
            ) && (m.contains_key(self.entries@[i].0@) ==> is_ecc(
                m,
                Relation::FurtherReferences,
                self.entries@[i].0@,
                ecc_of(m, Relation::FurtherReferences, self.entries@[i].0@),
            ) && is_ecc(
                m,
                Relation::DependsOn,
                self.entries@[i].0@,
                ecc_of(m, Relation::DependsOn, self.entries@[i].0@),
            ) && reach_set(m, Relation::FurtherReferences, self.entries@[i].0@).finite()
                && reach_set(m, Relation::DependsOn, self.entries@[i].0@).finite()))
    }

    /// A fresh, empty memo, valid for any store.
    pub fn new() -> (r: ClosureMemo)
        ensures
            forall|m: Map<Seq<char>, BibView>| #[trigger] r.wf(m),
            r.entries@.len() == 0,
    {
        ClosureMemo { entries: Vec::new() }
    }

    /// The cached record for `key`, if one is present.
    fn get(&self, key: &String) -> (r: Option<&TransitivelyClosedBibEntry>)
        ensures
            match r {
                Some(rec) => exists|i: int|
                    0 <= i < self.entries@.len() && (#[trigger] self.entries@[i]).0@ == key@
                        && self.entries@[i].1 == *rec,
                None => !self.has(key@),
            },
    {
        let mut j: usize = 0;
        while j < self.entries.len()
            invariant
                0 <= j <= self.entries@.len(),
                forall|i: int| 0 <= i < j ==> (#[trigger] self.entries@[i]).0@ != key@,
            decreases self.entries@.len() - j,
        {
            if self.entries[j].0.eq(key) {
                return Some(&self.entries[j].1);
            }
            j = j + 1;
        }
        None
    }
}

/// Computes the transitively closed record for `bibkey`: both relations'
/// closures serialized, the greater of their breadth-first depths, and a
/// success status; or an error record when the key is absent from the
/// store.  Results are cached in `memo` and returned verbatim on repeats.
#[verifier::loop_isolation(false)]
pub fn t_close(bibkey: &String, store: &EntryStore, memo: &mut ClosureMemo) -> (r: TransitivelyClosedBibEntry)
    requires
        old(memo).wf(store@),
    ensures
        final(memo).wf(store@),
        r@ == closed_view(store@, bibkey@),
        !store@.contains_key(bibkey@) ==> final(memo).entries@ == old(memo).entries@,
        store@.contains_key(bibkey@) && old(memo).has(bibkey@) ==> final(memo).entries@
            == old(memo).entries@ && (exists|i: int|
            0 <= i < old(memo).entries@.len() && (#[trigger] old(memo).entries@[i]).0@ == bibkey@
                && old(memo).entries@[i].1@ == r@),
        store@.contains_key(bibkey@) && !old(memo).has(bibkey@) ==> final(memo).entries@.len()
            == old(memo).entries@.len() + 1 && final(memo).entries@.drop_last()
            == old(memo).entries@ && final(memo).entries@.last().0@ == bibkey@
            && final(memo).entries@.last().1@ == r@,
        store@.contains_key(bibkey@) ==> is_ecc(
            store@,
            Relation::FurtherReferences,
            bibkey@,
            ecc_of(store@, Relation::FurtherReferences, bibkey@),
        ) && is_ecc(
            store@,
            Relation::DependsOn,
            bibkey@,
            ecc_of(store@, Relation::DependsOn, bibkey@),
        ) && reach_set(store@, Relation::FurtherReferences, bibkey@).finite() && reach_set(
            store@,
            Relation::DependsOn,
            bibkey@,
        ).finite(),
{
    let ghost m = store@;
    let looked_up = store.lookup(bibkey);
    match looked_up {
        None => {
            TransitivelyClosedBibEntry {
                id: "missing".to_owned(),
                bibkey: bibkey.clone(),
                title: "missing".to_owned(),
                notes: "missing".to_owned(),
                crossref: "missing".to_owned(),
                further_note: "missing".to_owned(),
                further_references: String::new(),
                depends_on: String::new(),
                further_references_closed: String::new(),
                depends_on_closed: String::new(),
                max_depth_reached: 0,
                status: "error".to_owned(),
                error_message: "Bibkey not found in the provided array of bibentries".to_owned(),
            }
        },
        Some(e) => {
            let cached = memo.get(bibkey);
            match cached {
                Some(rec) => {
                    let out = rec.clone();
                    return out;
                },
                None => {},
            }
            let fr = bfs_closure(store, bibkey, Relation::FurtherReferences, None);
            let dr = bfs_closure(store, bibkey, Relation::DependsOn, None);
            let fr_sorted = sort_raw(&fr.0);
            let dr_sorted = sort_raw(&dr.0);
            proof {
                lemma_ecc_of_is(m, Relation::FurtherReferences, bibkey@, fr.1 as nat);
                lemma_ecc_of_is(m, Relation::DependsOn, bibkey@, dr.1 as nat);
                lemma_sorted_key_seq(
                    reach_set(m, Relation::FurtherReferences, bibkey@),
                    fr_sorted.deep_view(),
                );
                lemma_sorted_key_seq(
                    reach_set(m, Relation::DependsOn, bibkey@),
                    dr_sorted.deep_view(),
                );
                assert(key_set(fr.0.deep_view()) =~= fr.0.deep_view().to_set());
                assert(key_set(dr.0.deep_view()) =~= dr.0.deep_view().to_set());
                vstd::seq_lib::seq_to_set_is_finite(fr.0.deep_view());
                vstd::seq_lib::seq_to_set_is_finite(dr.0.deep_view());
            }
            let frs = serialize_keys(&fr_sorted, bibkey);
            let drs = serialize_keys(&dr_sorted, bibkey);
            let md = if fr.1 >= dr.1 {
                fr.1
            } else {
                dr.1
            };
            let rec = TransitivelyClosedBibEntry {
                id: e.id.clone(),
                bibkey: e.bibkey.clone(),
                title: e.title.clone(),
                notes: e.notes.clone(),
                crossref: e.crossref.clone(),
                further_note: e.further_note.clone(),
                further_references: join_keys(&e.further_references),
                depends_on: join_keys(&e.depends_on),
                further_references_closed: frs,
                depends_on_closed: drs,
                max_depth_reached: md,
                status: "success".to_owned(),
                error_message: String::new(),
            };
            assert(rec@ == success_view(m, bibkey@));
            let ghost memo0 = memo.entries@;
            memo.entries.push((bibkey.clone(), rec.clone()));
            proof {
                assert(memo.entries@.drop_last() =~= memo0);
                assert forall|i: int| 0 <= i < memo.entries@.len() implies ((
                #[trigger] memo.entries@[i]).1@ == closed_view(m, memo.entries@[i].0@) && (
                m.contains_key(memo.entries@[i].0@) ==> is_ecc(
                    m,
                    Relation::FurtherReferences,
                    memo.entries@[i].0@,
                    ecc_of(m, Relation::FurtherReferences, memo.entries@[i].0@),
                ) && is_ecc(
                    m,
                    Relation::DependsOn,
                    memo.entries@[i].0@,
                    ecc_of(m, Relation::DependsOn, memo.entries@[i].0@),
                ))) by {
                    if i < memo0.len() {
                        assert(memo.entries@[i] == memo0[i]);
                    }
                }
            }
            rec
        },
    }
}

/// Computes one closed record per input entry, in input order, sharing one
/// memo across the batch: repeated bibkeys get the first computed record
/// verbatim.
#[verifier::loop_isolation(false)]
pub fn compute_transitive_closures(entries: Vec<RustedBibEntry>) -> (r: Vec<
    TransitivelyClosedBibEntry,
>)
    ensures
        r@.len() == entries@.len(),
        forall|i: int|
            0 <= i < entries@.len() ==> (#[trigger] r@[i])@ == closed_view(
                index_of(entries.deep_view()),
                entries.deep_view()[i].bibkey,
            ),
{
    let store = EntryStore::new(entries);
    let mut memo = ClosureMemo::new();
    let mut out: Vec<TransitivelyClosedBibEntry> = Vec::new();
    let mut i: usize = 0;
    while i < store.entries.len()
        invariant
            0 <= i <= store.entries@.len(),
            memo.wf(store@),
            out@.len() == i,
            forall|j: int|
                0 <= j < i ==> (#[trigger] out@[j])@ == closed_view(
                    store@,
                    store.entries.deep_view()[j].bibkey,
                ),
        decreases store.entries@.len() - i,
    {
        let key = &store.entries[i].bibkey;
        assert(key@ == store.entries.deep_view()[i as int].bibkey);
        let rec = t_close(key, &store, &mut memo);
        out.push(rec);
        i = i + 1;
    }
    out
}

/// Every entry whose bibkey already occurred earlier in the sequence: the
/// second and later occurrences, in input order.
pub open spec fn duplicates_of(s: Seq<BibView>) -> Seq<BibView>
    decreases s.len(),
{
    if s.len() == 0 {
        Seq::empty()
    } else {
        let pre = duplicates_of(s.drop_last());
        if exists|j: int| 0 <= j < s.len() - 1 && (#[trigger] s[j]).bibkey == s.last().bibkey {
            pre.push(s.last())
        } else {
            pre
        }
    }
}

/// Returns the entries whose bibkey was already seen earlier in the input,
/// preserving input order; the first occurrence of each key is not reported.
#[verifier::loop_isolation(false)]
pub fn find_all_repeated_bibentries(entries: Vec<RustedBibEntry>) -> (r: Vec<RustedBibEntry>)
    ensures
        r.deep_view() == duplicates_of(entries.deep_view()),
{
    let mut seen: Vec<String> = Vec::new();
    let mut out: Vec<RustedBibEntry> = Vec::new();
    let mut i: usize = 0;
    let ghost edv = entries.deep_view();
    while i < entries.len()
        invariant
            0 <= i <= entries@.len(),
            forall|t: Seq<char>| #[trigger]
                seen.deep_view().contains(t) <==> (exists|j: int|
                    0 <= j < i && (#[trigger] edv[j]).bibkey == t),
            out.deep_view() == duplicates_of(edv.take(i as int)),
        decreases entries@.len() - i,
    {
        proof {
            assert(edv.take(i + 1).drop_last() =~= edv.take(i as int));
            assert(edv.take(i + 1).last() == edv[i as int]);
            assert(forall|j: int| 0 <= j < i ==> edv.take(i + 1)[j] == edv[j]);
        }
        let dup = contains_str(&seen, &entries[i].bibkey);
        proof {
            assert(entries[i as int].bibkey@ == edv[i as int].bibkey);
            if dup {
                let j = choose|j: int| 0 <= j < i && (#[trigger] edv[j]).bibkey == edv[i as int].bibkey;
                assert((edv.take(i + 1)[j]).bibkey == edv.take(i + 1).last().bibkey);
            } else {
                assert forall|j: int|
                    0 <= j < i implies (#[trigger] edv.take(i + 1)[j]).bibkey != edv.take(
                    i + 1,
                ).last().bibkey by {
                    if edv[j].bibkey == edv[i as int].bibkey {
                        assert(seen.deep_view().contains(edv[j].bibkey));
                    }
                }
            }
        }
        if dup {
            let ghost odv = out.deep_view();
            out.push(entries[i].clone());
            proof {
                assert(out.deep_view() =~= odv.push(edv[i as int]));
            }
        }
        let ghost sdv = seen.deep_view();
        seen.push(entries[i].bibkey.clone());
        proof {
            assert forall|t: Seq<char>| #[trigger]
                seen.deep_view().contains(t) <==> (sdv.contains(t) || t == edv[i as int].bibkey) by {
                lemma_push_contains(sdv, edv[i as int].bibkey, t);
                assert(seen.deep_view() =~= sdv.push(edv[i as int].bibkey));
            }
        }
        i = i + 1;
    }
    proof {
        assert(edv.take(entries@.len() as int) =~= edv);
    }
    out
}

/// The depth-bounded closure of `k`: empty when some reachable key lies
/// beyond `b` edges (signalling potential unbounded structure), otherwise
/// the reach set without `k` itself.
pub open spec fn bounded_result(
    m: Map<Seq<char>, BibView>,
    rel: Relation,
    k: Seq<char>,
    b: nat,
) -> Set<Seq<char>> {
    if exceeds(m, rel, k, b) {
        Set::empty()
    } else {
        reach_set(m, rel, k).remove(k)
    }
}

/// The distinct bibkeys of the entry sequence, in first-occurrence order.
pub open spec fn first_keys(s: Seq<BibView>) -> Seq<Seq<char>>
    decreases s.len(),
{
    if s.len() == 0 {
        Seq::empty()
    } else {
        let pre = first_keys(s.drop_last());
        if pre.contains(s.last().bibkey) {
            pre
        } else {
            pre.push(s.last().bibkey)
        }
    }
}

/// Whether some pair of `v` carries the key.
fn contains_pair_key(v: &Vec<(String, Vec<String>)>, key: &String) -> (r: bool)
    ensures
        r == (exists|j: int| 0 <= j < v@.len() && (#[trigger] v@[j]).0@ == key@),
{
    let mut j: usize = 0;
    while j < v.len()
        invariant
            0 <= j <= v@.len(),
            forall|i: int| 0 <= i < j ==> (#[trigger] v@[i]).0@ != key@,
        decreases v@.len() - j,
    {
        if v[j].0.eq(key) {
            assert(v@[j as int].0@ == key@);
            return true;
        }
        j = j + 1;
    }
    false
}

/// The gathered keys other than `key`, in lexicographic order.
#[verifier::loop_isolation(false)]
fn sorted_minus(closure: &Vec<String>, key: &String) -> (r: Vec<String>)
    ensures
        r.deep_view() == sorted_key_seq(key_set(closure.deep_view()).remove(key@)),
{
    let ghost cdv = closure.deep_view();
    let mut out: Vec<String> = Vec::new();
    let mut j: usize = 0;
    proof {
        assert(key_set(out.deep_view()) =~= key_set(cdv.take(0)).remove(key@));
    }
    while j < closure.len()
        invariant
            0 <= j <= closure.len(),
            crate::text::strictly_sorted(out.deep_view()),
            key_set(out.deep_view()) == key_set(cdv.take(j as int)).remove(key@),
        decreases closure.len() - j,
    {
        let ghost s1 = key_set(cdv.take(j as int)).remove(key@);
        let ghost s2 = key_set(cdv.take(j + 1)).remove(key@);
        proof {
            assert(cdv[j as int] == closure@[j as int]@);
            assert(forall|jj: int| 0 <= jj < j + 1 ==> cdv.take(j + 1)[jj] == cdv[jj]);
            assert(forall|jj: int| 0 <= jj < j ==> cdv.take(j as int)[jj] == cdv[jj]);
            assert forall|t: Seq<char>| s2.contains(t) implies s1.insert(cdv[j as int]).contains(
                t,
            ) by {
                let jj = choose|jj: int|
                    0 <= jj < cdv.take(j + 1).len() && #[trigger] cdv.take(j + 1)[jj] == t;
                if jj < j {
                    assert(cdv.take(j as int).contains(t));
                }
            }
            assert forall|t: Seq<char>|
                s1.contains(t) || (t == cdv[j as int] && t != key@) implies s2.contains(t) by {
                if s1.contains(t) {
                    let jj = choose|jj: int|
                        0 <= jj < cdv.take(j as int).len() && #[trigger] cdv.take(
                            j as int,
                        )[jj] == t;
                    assert(cdv.take(j + 1)[jj] == t);
                } else {
                    assert(cdv.take(j + 1)[j as int] == t);
                }
                assert(cdv.take(j + 1).contains(t));
            }
        }
        if !closure[j].eq(key) {
            crate::text::insert_sorted(&mut out, closure[j].clone());
            proof {
                assert(s2 =~= s1.insert(cdv[j as int]));
            }
        } else {
            proof {
                assert(s2 =~= s1);
            }
        }
        j = j + 1;
    }
    proof {
        assert(cdv.take(closure@.len() as int) =~= cdv);
        crate::text::lemma_sorted_key_seq(key_set(cdv).remove(key@), out.deep_view());
    }
    out
}

/// The depth-bounded mode over a whole store: for each distinct bibkey, in
/// first-occurrence order, the raw bounded closure set of each relation,
/// serialized in lexicographic order; one shared memo per relation, realised
/// as the result mapping itself, keeps every key computed once.
#[verifier::loop_isolation(false)]
pub fn compute_closures_bounded(store: &EntryStore, max_depth: usize) -> (r: (
    Vec<(String, Vec<String>)>,
    Vec<(String, Vec<String>)>,
))
    ensures
        r.0@.len() == first_keys(store.entries.deep_view()).len(),
        r.1@.len() == first_keys(store.entries.deep_view()).len(),
        forall|i: int|
            0 <= i < r.0@.len() ==> (#[trigger] r.0@[i]).0@ == first_keys(
                store.entries.deep_view(),
            )[i] && r.0@[i].1.deep_view() == sorted_key_seq(
                bounded_result(
                    store@,
                    Relation::FurtherReferences,
                    r.0@[i].0@,
                    max_depth as nat,
                ),
            ),
        forall|i: int|
            0 <= i < r.1@.len() ==> (#[trigger] r.1@[i]).0@ == first_keys(
                store.entries.deep_view(),
            )[i] && r.1@[i].1.deep_view() == sorted_key_seq(
                bounded_result(store@, Relation::DependsOn, r.1@[i].0@, max_depth as nat),
            ),
{
    let ghost m = store@;
    let ghost edv = store.entries.deep_view();
    let mut out0: Vec<(String, Vec<String>)> = Vec::new();
    let mut out1: Vec<(String, Vec<String>)> = Vec::new();
    let mut i: usize = 0;
    while i < store.entries.len()
        invariant
            0 <= i <= store.entries@.len(),
            out0@.len() == first_keys(edv.take(i as int)).len(),
            out1@.len() == out0@.len(),
            forall|j: int|
                0 <= j < out0@.len() ==> (#[trigger] out0@[j]).0@ == first_keys(
                    edv.take(i as int),
                )[j] && out0@[j].1.deep_view() == sorted_key_seq(
                    bounded_result(m, Relation::FurtherReferences, out0@[j].0@, max_depth as nat),
                ),
            forall|j: int|
                0 <= j < out1@.len() ==> (#[trigger] out1@[j]).0@ == first_keys(
                    edv.take(i as int),
                )[j] && out1@[j].1.deep_view() == sorted_key_seq(
                    bounded_result(m, Relation::DependsOn, out1@[j].0@, max_depth as nat),
                ),
        decreases store.entries@.len() - i,
    {
        let ghost fk = first_keys(edv.take(i as int));
        proof {
            assert(edv.take(i + 1).drop_last() =~= edv.take(i as int));
            assert(edv.take(i + 1).last() == edv[i as int]);
        }
        let key = &store.entries[i].bibkey;
        assert(key@ == edv[i as int].bibkey);
        let hit = contains_pair_key(&out0, key);
        proof {
            if hit {
                let j = choose|j: int| 0 <= j < out0@.len() && (#[trigger] out0@[j]).0@ == key@;
                assert(fk[j] == key@);
                assert(fk.contains(key@));
            } else {
                if fk.contains(key@) {
                    let j = choose|j: int| 0 <= j < fk.len() && fk[j] == key@;
                    assert(out0@[j].0@ == key@);
                    assert(false);
                }
            }
        }
        if !hit {
            let fr = bfs_closure(store, key, Relation::FurtherReferences, Some(max_depth));
            let dr = bfs_closure(store, key, Relation::DependsOn, Some(max_depth));
            let v0 = if fr.2 {
                let e: Vec<String> = Vec::new();
                proof {
                    assert(key_set(e.deep_view()) =~= Set::<Seq<char>>::empty());
                    crate::text::lemma_sorted_key_seq(Set::empty(), e.deep_view());
                }
                e
            } else {
                sorted_minus(&fr.0, key)
            };
            let v1 = if dr.2 {
                let e: Vec<String> = Vec::new();
                proof {
                    assert(key_set(e.deep_view()) =~= Set::<Seq<char>>::empty());
                    crate::text::lemma_sorted_key_seq(Set::empty(), e.deep_view());
                }
                e
            } else {
                sorted_minus(&dr.0, key)
            };
            out0.push((key.clone(), v0));
            out1.push((key.clone(), v1));
        }
        i = i + 1;
    }
    proof {
        assert(edv.take(store.entries@.len() as int) =~= edv);
    }
    (out0, out1)
}

} // verus!
