//! Key text handling: trimming, lexicographic order, canonical sorted key
//! sequences, and comma-joined serialization.
//!
//! Closure sets have no inherent order, so the serialized form fixes one by
//! policy: the trimmed keys are emitted in strictly increasing lexicographic
//! order (by Unicode scalar value), which makes the output a function of the
//! set alone.

use vstd::prelude::*;
use vstd::string::*;

verus! {

/// The whitespace characters that key trimming strips.
pub open spec fn is_ws(c: char) -> bool {
    c == ' ' || c == '\t' || c == '\n' || c == '\r'
}

/// `s` without its leading whitespace.
pub open spec fn trim_front(s: Seq<char>) -> Seq<char>
    decreases s.len(),
{
    if s.len() > 0 && is_ws(s[0]) {
        trim_front(s.drop_first())
    } else {
        s
    }
}

/// `s` without its trailing whitespace.
pub open spec fn trim_back(s: Seq<char>) -> Seq<char>
    decreases s.len(),
{
    if s.len() > 0 && is_ws(s.last()) {
        trim_back(s.drop_last())
    } else {
        s
    }
}

/// `s` without leading and trailing whitespace.
pub open spec fn trim_spec(s: Seq<char>) -> Seq<char> {
    trim_back(trim_front(s))
}

proof fn lemma_trim_front_skip(s: Seq<char>, a: int)
    requires
        0 <= a <= s.len(),
        forall|j: int| 0 <= j < a ==> is_ws(s[j]),
        a == s.len() || !is_ws(s[a]),
    ensures
        trim_front(s) == s.skip(a),
    decreases a,
{
    if a == 0 {
        assert(s.skip(0) =~= s);
    } else {
        assert(is_ws(s[0]));
        let t = s.drop_first();
        assert(forall|j: int| 0 <= j < a - 1 ==> is_ws(t[j]));
        lemma_trim_front_skip(t, a - 1);
        assert(t.skip(a - 1) =~= s.skip(a));
    }
}

proof fn lemma_trim_back_take(s: Seq<char>, b: int)
    requires
        0 <= b <= s.len(),
        forall|j: int| b <= j < s.len() ==> is_ws(s[j]),
        b == 0 || !is_ws(s[b - 1]),
    ensures
        trim_back(s) == s.take(b),
    decreases s.len() - b,
{
    if b == s.len() {
        if s.len() > 0 {
            assert(!is_ws(s.last()));
        }
        assert(s.take(b) =~= s);
    } else {
        assert(is_ws(s.last()));
        let t = s.drop_last();
        assert(forall|j: int| b <= j < t.len() ==> is_ws(t[j]));
        lemma_trim_back_take(t, b);
        assert(t.take(b) =~= s.take(b));
    }
}

/// Whether `c` is whitespace for key trimming.
pub fn is_ws_char(c: char) -> (r: bool)
    ensures
        r == is_ws(c),
{
    c == ' ' || c == '\t' || c == '\n' || c == '\r'
}

/// Returns `s` with leading and trailing whitespace removed.
pub fn trim_key(s: &String) -> (r: String)
    ensures
        r@ == trim_spec(s@),
{
    let st = s.as_str();
    let n = st.unicode_len();
    let mut a: usize = 0;
    while a < n && is_ws_char(st.get_char(a))
        invariant
            st@ == s@,
            n == s@.len(),
            0 <= a <= n,
            forall|j: int| 0 <= j < a ==> is_ws(s@[j]),
        decreases n - a,
    {
        a = a + 1;
    }
    proof {
        lemma_trim_front_skip(s@, a as int);
    }
    let mut b: usize = n;
    while b > a && is_ws_char(st.get_char(b - 1))
        invariant
            st@ == s@,
            n == s@.len(),
            0 <= a <= b <= n,
            forall|j: int| b <= j < n ==> is_ws(s@[j]),
        decreases b,
    {
        b = b - 1;
    }
    let r = st.substring_char(a, b).to_owned();
    proof {
        let t = s@.skip(a as int);
        assert(forall|j: int| b - a <= j < t.len() ==> is_ws(t[j]));
        if b > a {
            assert(!is_ws(t[b - a - 1]));
        }
        lemma_trim_back_take(t, b - a);
        assert(t.take(b - a) =~= s@.subrange(a as int, b as int));
    }
    r
}

/// Lexicographic order on character sequences, by Unicode scalar value.
pub open spec fn lex_le(a: Seq<char>, b: Seq<char>) -> bool
    decreases a.len(),
{
    if a.len() == 0 {
        true
    } else if b.len() == 0 {
        false
    } else if a[0] < b[0] {
        true
    } else if b[0] < a[0] {
        false
    } else {
        lex_le(a.drop_first(), b.drop_first())
    }
}

/// Strict lexicographic order.
pub open spec fn lex_lt(a: Seq<char>, b: Seq<char>) -> bool {
    lex_le(a, b) && a != b
}

pub proof fn lemma_lex_total(a: Seq<char>, b: Seq<char>)
    ensures
        lex_le(a, b) || lex_le(b, a),
    decreases a.len(),
{
    if a.len() > 0 && b.len() > 0 && !(a[0] < b[0]) && !(b[0] < a[0]) {
        lemma_lex_total(a.drop_first(), b.drop_first());
    }
}

pub proof fn lemma_lex_antisym(a: Seq<char>, b: Seq<char>)
    requires
        lex_le(a, b),
        lex_le(b, a),
    ensures
        a == b,
    decreases a.len(),
{
    if a.len() == 0 {
        assert(b.len() == 0);
        assert(a =~= b);
    } else {
        assert(b.len() > 0);
        if a[0] < b[0] {
            assert(!lex_le(b, a));
        }
        if b[0] < a[0] {
            assert(!lex_le(a, b));
        }
        assert(a[0] == b[0]);
        lemma_lex_antisym(a.drop_first(), b.drop_first());
        assert(a =~= b) by {
            assert(forall|i: int|
                1 <= i < a.len() ==> a[i] == a.drop_first()[i - 1] && b[i] == b.drop_first()[i
                    - 1]);
        }
    }
}

pub proof fn lemma_lex_trans(a: Seq<char>, b: Seq<char>, c: Seq<char>)
    requires
        lex_le(a, b),
        lex_le(b, c),
    ensures
        lex_le(a, c),
    decreases a.len(),
{
    if a.len() > 0 {
        assert(b.len() > 0);
        assert(c.len() > 0);
        if !(a[0] < b[0]) && !(b[0] < a[0]) && !(b[0] < c[0]) && !(c[0] < b[0]) {
            lemma_lex_trans(a.drop_first(), b.drop_first(), c.drop_first());
        }
    }
}

pub proof fn lemma_lex_lt_trans(a: Seq<char>, b: Seq<char>, c: Seq<char>)
    requires
        lex_lt(a, b),
        lex_lt(b, c),
    ensures
        lex_lt(a, c),
{
    lemma_lex_trans(a, b, c);
    if a == c {
        lemma_lex_antisym(a, b);
    }
}

/// Decides `lex_le` on two strings.
pub fn str_le(a: &String, b: &String) -> (r: bool)
    ensures
        r == lex_le(a@, b@),
{
    let sa = a.as_str();
    let sb = b.as_str();
    let an = sa.unicode_len();
    let bn = sb.unicode_len();
    let mut i: usize = 0;
    proof {
        assert(a@.skip(0) =~= a@);
        assert(b@.skip(0) =~= b@);
    }
    while i < an && i < bn
        invariant
            sa@ == a@,
            sb@ == b@,
            an == a@.len(),
            bn == b@.len(),
            0 <= i <= an,
            0 <= i <= bn,
            lex_le(a@, b@) == lex_le(a@.skip(i as int), b@.skip(i as int)),
        decreases an - i,
    {
        let ca = sa.get_char(i);
        let cb = sb.get_char(i);
        proof {
            let ta = a@.skip(i as int);
            let tb = b@.skip(i as int);
            assert(ta[0] == a@[i as int] && tb[0] == b@[i as int]);
            assert(ta.drop_first() =~= a@.skip(i + 1));
            assert(tb.drop_first() =~= b@.skip(i + 1));
        }
        if ca < cb {
            return true;
        }
        if cb < ca {
            return false;
        }
        i = i + 1;
    }
    proof {
        if i == an {
            assert(a@.skip(i as int).len() == 0);
        } else {
            assert(b@.skip(i as int).len() == 0);
            assert(a@.skip(i as int).len() > 0);
        }
    }
    an <= bn
}

/// Decides `lex_lt` on two strings.
pub fn str_lt(a: &String, b: &String) -> (r: bool)
    ensures
        r == lex_lt(a@, b@),
{
    let le = str_le(a, b);
    let eq = a.eq(b);
    le && !eq
}

/// The keys of `q`, as a set.
pub open spec fn key_set(q: Seq<Seq<char>>) -> Set<Seq<char>> {
    Set::new(|t: Seq<char>| q.contains(t))
}

/// Every key of `q` is strictly below every later one.
pub open spec fn strictly_sorted(q: Seq<Seq<char>>) -> bool {
    forall|i: int, j: int| 0 <= i < j < q.len() ==> lex_lt(#[trigger] q[i], #[trigger] q[j])
}

/// The one strictly sorted sequence whose keys form the set `s`; see
/// [`lemma_sorted_key_seq`].
pub open spec fn sorted_key_seq(s: Set<Seq<char>>) -> Seq<Seq<char>> {
    choose|q: Seq<Seq<char>>| strictly_sorted(q) && key_set(q) == s
}

/// Two strictly sorted sequences with the same key set are equal.
pub proof fn lemma_sorted_unique(q1: Seq<Seq<char>>, q2: Seq<Seq<char>>)
    requires
        strictly_sorted(q1),
        strictly_sorted(q2),
        key_set(q1) == key_set(q2),
    ensures
        q1 == q2,
    decreases q1.len(),
{
    if q1.len() == 0 {
        if q2.len() > 0 {
            assert(q2.contains(q2[0]));
            assert(key_set(q1).contains(q2[0]));
        }
        assert(q1 =~= q2);
    } else if q2.len() == 0 {
        assert(q1.contains(q1[0]));
        assert(key_set(q2).contains(q1[0]));
    } else {
        assert(q1.contains(q1[0]));
        assert(key_set(q2).contains(q1[0]));
        let j = choose|j: int| 0 <= j < q2.len() && q2[j] == q1[0];
        assert(q2.contains(q2[0]));
        assert(key_set(q1).contains(q2[0]));
        let i = choose|i: int| 0 <= i < q1.len() && q1[i] == q2[0];
        if j > 0 && i > 0 {
            assert(lex_lt(q2[0], q2[j]));
            assert(lex_lt(q1[0], q1[i]));
            lemma_lex_antisym(q1[0], q2[0]);
            assert(false);
        }
        assert(q1[0] == q2[0]);
        let t1 = q1.drop_first();
        let t2 = q2.drop_first();
        assert(forall|i: int| 1 <= i < q1.len() ==> t1[i - 1] == q1[i]);
        assert(forall|i: int| 1 <= i < q2.len() ==> t2[i - 1] == q2[i]);
        assert(strictly_sorted(t1));
        assert(strictly_sorted(t2));
        assert(key_set(t1) == key_set(t2)) by {
            assert forall|t: Seq<char>| key_set(t1).contains(t) implies key_set(
                t2,
            ).contains(t) by {
                lemma_tail_contains(q1, t);
                assert(key_set(q1).contains(t));
                assert(key_set(q2).contains(t));
                lemma_tail_contains_rev(q2, t);
            }
            assert forall|t: Seq<char>| key_set(t2).contains(t) implies key_set(
                t1,
            ).contains(t) by {
                lemma_tail_contains(q2, t);
                assert(key_set(q2).contains(t));
                assert(key_set(q1).contains(t));
                lemma_tail_contains_rev(q1, t);
            }
            assert(key_set(t1) =~= key_set(t2));
        }
        lemma_sorted_unique(t1, t2);
        assert(q1 =~= q2);
    }
}

/// A key of the tail of a sorted sequence is a key of the whole other than
/// the head.
proof fn lemma_tail_contains(q: Seq<Seq<char>>, t: Seq<char>)
    requires
        strictly_sorted(q),
        q.len() > 0,
        q.drop_first().contains(t),
    ensures
        q.contains(t),
        t != q[0],
{
    let i = choose|i: int| 0 <= i < q.drop_first().len() && q.drop_first()[i] == t;
    assert(q[i + 1] == t);
    assert(lex_lt(q[0], q[i + 1]));
}

/// A key of a sorted sequence other than its head is a key of the tail.
proof fn lemma_tail_contains_rev(q: Seq<Seq<char>>, t: Seq<char>)
    requires
        q.len() > 0,
        q.contains(t),
        t != q[0],
    ensures
        q.drop_first().contains(t),
{
    let i = choose|i: int| 0 <= i < q.len() && q[i] == t;
    assert(q.drop_first()[i - 1] == t);
}

/// Any strictly sorted arrangement of the set `s` is `sorted_key_seq(s)`.
pub proof fn lemma_sorted_key_seq(s: Set<Seq<char>>, q: Seq<Seq<char>>)
    requires
        strictly_sorted(q),
        key_set(q) == s,
    ensures
        sorted_key_seq(s) == q,
{
    let w = sorted_key_seq(s);
    assert(strictly_sorted(w) && key_set(w) == s);
    lemma_sorted_unique(w, q);
}

/// The keys joined with a comma between neighbours.
pub open spec fn join_commas(q: Seq<Seq<char>>) -> Seq<char>
    decreases q.len(),
{
    if q.len() == 0 {
        Seq::empty()
    } else if q.len() == 1 {
        q[0]
    } else {
        join_commas(q.drop_last()) + seq![','] + q.last()
    }
}

/// Joins the strings of `v` with commas.
pub fn join_keys(v: &Vec<String>) -> (r: String)
    ensures
        r@ == join_commas(v.deep_view()),
{
    let mut r = String::new();
    let mut i: usize = 0;
    proof {
        reveal_strlit(",");
    }
    while i < v.len()
        invariant
            0 <= i <= v@.len(),
            r@ == join_commas(v.deep_view().take(i as int)),
        decreases v@.len() - i,
    {
        if i > 0 {
            r.append(",");
            proof {
                reveal_strlit(",");
                assert(","@ =~= seq![',']);
            }
        }
        r.append(v[i].as_str());
        proof {
            let dv = v.deep_view();
            assert(dv.take(i + 1).drop_last() =~= dv.take(i as int));
            assert(dv.take(i + 1).last() == dv[i as int]);
            assert(dv[i as int] == v@[i as int]@);
        }
        i = i + 1;
    }
    proof {
        assert(v.deep_view().take(v@.len() as int) =~= v.deep_view());
    }
    r
}

/// The first position of `out` whose key is not lexicographically below `key`.
fn lower_bound(out: &Vec<String>, key: &String) -> (p: usize)
    ensures
        0 <= p <= out@.len(),
        forall|i: int| 0 <= i < p ==> lex_lt(#[trigger] out@[i]@, key@),
        p < out@.len() ==> !lex_lt(out@[p as int]@, key@),
{
    let mut p: usize = 0;
    while p < out.len()
        invariant
            0 <= p <= out@.len(),
            forall|i: int| 0 <= i < p ==> lex_lt(#[trigger] out@[i]@, key@),
        decreases out@.len() - p,
    {
        let below = str_lt(&out[p], key);
        if !below {
            return p;
        }
        p = p + 1;
    }
    p
}

/// Inserts `key` into the strictly sorted vector `out`, keeping it sorted
/// and without duplicates.
pub fn insert_sorted(out: &mut Vec<String>, key: String)
    requires
        strictly_sorted(old(out).deep_view()),
    ensures
        strictly_sorted(final(out).deep_view()),
        key_set(final(out).deep_view()) == key_set(old(out).deep_view()).insert(key@),
{
    let ghost dv0 = out.deep_view();
    let p = lower_bound(out, &key);
    proof {
        assert(forall|i: int| 0 <= i < out@.len() ==> dv0[i] == out@[i]@);
    }
    if p < out.len() && out[p] == key {
        proof {
            assert(dv0[p as int] == key@);
            assert(key_set(dv0).contains(key@));
            assert(key_set(dv0).insert(key@) =~= key_set(dv0));
        }
        return ;
    }
    proof {
        if p < dv0.len() {
            lemma_lex_total(dv0[p as int], key@);
            assert(lex_lt(key@, dv0[p as int]));
        }
    }
    out.insert(p, key);
    proof {
        let dv = out.deep_view();
        assert(dv.len() == dv0.len() + 1);
        assert(forall|i: int| 0 <= i < p ==> dv[i] == dv0[i]);
        assert(dv[p as int] == key@);
        assert(forall|i: int| p < i < dv.len() ==> dv[i] == dv0[i - 1]);
        assert forall|i: int, j: int| 0 <= i < j < dv.len() implies lex_lt(
            #[trigger] dv[i],
            #[trigger] dv[j],
        ) by {
            if i < p && j == p {
                assert(lex_lt(dv0[i], key@));
            } else if i == p && j > p {
                if j - 1 > p {
                    assert(lex_lt(dv0[p as int], dv0[j - 1]));
                    lemma_lex_lt_trans(key@, dv0[p as int], dv0[j - 1]);
                }
            } else if i < p && j > p {
                if j - 1 == p {
                    assert(lex_lt(dv0[i], key@));
                } else {
                    assert(lex_lt(dv0[i], dv0[j - 1]));
                }
            } else if i > p && j > p {
                assert(lex_lt(dv0[i - 1], dv0[j - 1]));
            }
        }
        assert(key_set(dv) =~= key_set(dv0).insert(key@)) by {
            assert forall|t: Seq<char>| key_set(dv).contains(t) implies key_set(dv0).insert(
                key@,
            ).contains(t) by {
                let i = choose|i: int| 0 <= i < dv.len() && dv[i] == t;
                if i < p {
                    assert(dv0[i] == t);
                    assert(dv0.contains(t));
                } else if i > p {
                    assert(dv0[i - 1] == t);
                    assert(dv0.contains(t));
                }
            }
            assert forall|t: Seq<char>| key_set(dv0).insert(key@).contains(t) implies key_set(
                dv,
            ).contains(t) by {
                if t == key@ {
                    assert(dv[p as int] == t);
                    assert(dv.contains(t));
                } else {
                    let i = choose|i: int| 0 <= i < dv0.len() && dv0[i] == t;
                    if i < p {
                        assert(dv[i] == t);
                    } else {
                        assert(dv[i + 1] == t);
                    }
                    assert(dv.contains(t));
                }
            }
        }
    }
}

/// The lexicographic order as a relation value.
pub open spec fn lex_leq() -> spec_fn(Seq<char>, Seq<char>) -> bool {
    |a: Seq<char>, b: Seq<char>| lex_le(a, b)
}

/// The lexicographic order is a total order.
pub proof fn lemma_lex_total_ordering()
    ensures
        vstd::relations::total_ordering(lex_leq()),
{
    let r = lex_leq();
    assert forall|x: Seq<char>| #[trigger] r(x, x) by {
        lemma_lex_total(x, x);
    }
    assert forall|x: Seq<char>, y: Seq<char>| #[trigger] r(x, y) && #[trigger] r(y, x) implies x
        == y by {
        lemma_lex_antisym(x, y);
    }
    assert forall|x: Seq<char>, y: Seq<char>, z: Seq<char>|
        #[trigger] r(x, y) && #[trigger] r(y, z) implies r(x, z) by {
        lemma_lex_trans(x, y, z);
    }
    assert forall|x: Seq<char>, y: Seq<char>| #[trigger] r(x, y) || #[trigger] r(y, x) by {
        lemma_lex_total(x, y);
    }
}

/// The one lexicographically ordered arrangement of the items of `s`, every
/// occurrence kept; see [`lemma_lex_sorted_ms`].
pub open spec fn lex_sorted_ms(s: Seq<Seq<char>>) -> Seq<Seq<char>> {
    choose|q: Seq<Seq<char>>|
        vstd::relations::sorted_by(q, lex_leq()) && q.to_multiset() == s.to_multiset()
}

/// Any ordered arrangement of the items of `s` is `lex_sorted_ms(s)`.
pub proof fn lemma_lex_sorted_ms(s: Seq<Seq<char>>, q: Seq<Seq<char>>)
    requires
        vstd::relations::sorted_by(q, lex_leq()),
        q.to_multiset() == s.to_multiset(),
    ensures
        lex_sorted_ms(s) == q,
{
    let w = lex_sorted_ms(s);
    assert(vstd::relations::sorted_by(w, lex_leq()) && w.to_multiset() == s.to_multiset());
    lemma_lex_total_ordering();
    vstd::seq_lib::lemma_sorted_unique(w, q, lex_leq());
    assert(w =~= q);
}

/// One trimmed item per key of `ks`, in order, dropping items that are
/// blank or equal to the entry's own key `raw`; items that trim to the same
/// text each stay.
pub open spec fn trimmed_survivors(ks: Seq<Seq<char>>, raw: Seq<char>) -> Seq<Seq<char>>
    decreases ks.len(),
{
    if ks.len() == 0 {
        Seq::empty()
    } else {
        let pre = trimmed_survivors(ks.drop_last(), raw);
        let t = trim_spec(ks.last());
        if t.len() > 0 && t != raw {
            pre.push(t)
        } else {
            pre
        }
    }
}

/// Inserts `key` into the ordered vector `out`, keeping every occurrence.
pub fn insert_sorted_dup(out: &mut Vec<String>, key: String)
    requires
        vstd::relations::sorted_by(old(out).deep_view(), lex_leq()),
    ensures
        vstd::relations::sorted_by(final(out).deep_view(), lex_leq()),
        final(out).deep_view().to_multiset() == old(out).deep_view().to_multiset().insert(key@),
{
    let ghost dv0 = out.deep_view();
    let p = lower_bound(out, &key);
    proof {
        assert(forall|i: int| 0 <= i < out@.len() ==> dv0[i] == out@[i]@);
        if p < dv0.len() {
            lemma_lex_total(dv0[p as int], key@);
            lemma_lex_total(key@, key@);
            assert(lex_le(key@, dv0[p as int]));
        }
    }
    out.insert(p, key);
    proof {
        let dv = out.deep_view();
        assert(dv =~= dv0.insert(p as int, key@));
        vstd::seq_lib::to_multiset_insert(dv0, p as int, key@);
        assert(dv.len() == dv0.len() + 1);
        assert(forall|i: int| 0 <= i < p ==> dv[i] == dv0[i]);
        assert(dv[p as int] == key@);
        assert(forall|i: int| p < i < dv.len() ==> dv[i] == dv0[i - 1]);
        let r = lex_leq();
        assert forall|i: int, j: int| 0 <= i < j < dv.len() implies #[trigger] r(
            dv[i],
            dv[j],
        ) by {
            if j < p {
                assert(r(dv0[i], dv0[j]));
            } else if i < p && j == p {
                assert(lex_lt(dv0[i], key@));
            } else if i == p && j > p {
                if j - 1 > p {
                    assert(r(dv0[p as int], dv0[j - 1]));
                    lemma_lex_trans(key@, dv0[p as int], dv0[j - 1]);
                }
            } else if i < p && j > p {
                if j - 1 == p {
                    assert(lex_lt(dv0[i], key@));
                } else {
                    assert(r(dv0[i], dv0[j - 1]));
                }
            } else if i > p && j > p {
                assert(r(dv0[i - 1], dv0[j - 1]));
            }
        }
    }
}

/// Serializes the gathered keys: each trimmed, blanks and the entry's own
/// key dropped, the surviving items (every occurrence kept) joined in
/// lexicographic order.
pub fn serialize_keys(keys: &Vec<String>, bibkey: &String) -> (r: String)
    ensures
        r@ == join_commas(lex_sorted_ms(trimmed_survivors(keys.deep_view(), bibkey@))),
{
    let mut out: Vec<String> = Vec::new();
    let mut i: usize = 0;
    proof {
        assert(keys.deep_view().take(0) =~= Seq::<Seq<char>>::empty());
        assert(out.deep_view() =~= Seq::<Seq<char>>::empty());
    }
    while i < keys.len()
        invariant
            0 <= i <= keys.len(),
            vstd::relations::sorted_by(out.deep_view(), lex_leq()),
            out.deep_view().to_multiset() == trimmed_survivors(
                keys.deep_view().take(i as int),
                bibkey@,
            ).to_multiset(),
        decreases keys.len() - i,
    {
        let ghost kdv = keys.deep_view();
        let ghost raw = bibkey@;
        let ghost pre = trimmed_survivors(kdv.take(i as int), raw);
        let ghost cur = trimmed_survivors(kdv.take(i + 1), raw);
        let t = trim_key(&keys[i]);
        let ghost tv = trim_spec(kdv[i as int]);
        proof {
            assert(kdv[i as int] == keys@[i as int]@);
            assert(t@ == tv);
            assert(kdv.take(i + 1).drop_last() =~= kdv.take(i as int));
            assert(kdv.take(i + 1).last() == kdv[i as int]);
        }
        let keep = !t.as_str().is_empty() && !t.eq(bibkey);
        if keep {
            insert_sorted_dup(&mut out, t);
            proof {
                assert(cur == pre.push(tv));
                vstd::seq_lib::to_multiset_build(pre, tv);
            }
        } else {
            proof {
                assert(cur == pre);
            }
        }
        i = i + 1;
    }
    proof {
        assert(keys.deep_view().take(keys@.len() as int) =~= keys.deep_view());
        lemma_lex_sorted_ms(trimmed_survivors(keys.deep_view(), bibkey@), out.deep_view());
    }
    join_keys(&out)
}

} // verus!
