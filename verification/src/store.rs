//! The entry store: an immutable snapshot of the input entries with a
//! last-write-wins index from bibkey to entry.

use vstd::prelude::*;

use crate::models::BibView;
use crate::models::RustedBibEntry;

verus! {

/// The last-write-wins index of a sequence of entry views: when two entries
/// share a bibkey, the later one is indexed.
pub open spec fn index_of(s: Seq<BibView>) -> Map<Seq<char>, BibView>
    decreases s.len(),
{
    if s.len() == 0 {
        Map::empty()
    } else {
        index_of(s.drop_last()).insert(s.last().bibkey, s.last())
    }
}

/// The index maps `k` to the last entry whose bibkey is `k`.
pub proof fn lemma_index_last(s: Seq<BibView>, k: Seq<char>, i: int)
    requires
        0 <= i < s.len(),
        s[i].bibkey == k,
        forall|j: int| i < j < s.len() ==> s[j].bibkey != k,
    ensures
        index_of(s).contains_key(k),
        index_of(s)[k] == s[i],
    decreases s.len(),
{
    if i == s.len() - 1 {
    } else {
        let t = s.drop_last();
        assert(forall|j: int| i < j < t.len() ==> t[j].bibkey != k);
        lemma_index_last(t, k, i);
    }
}

/// A key no entry carries is not in the index.
pub proof fn lemma_index_none(s: Seq<BibView>, k: Seq<char>)
    requires
        forall|j: int| 0 <= j < s.len() ==> s[j].bibkey != k,
    ensures
        !index_of(s).contains_key(k),
    decreases s.len(),
{
    if s.len() > 0 {
        lemma_index_none(s.drop_last(), k);
    }
}

/// An immutable snapshot of the input entries for one computation pass.
/// Its view is the bibkey index over the entry sequence.
pub struct EntryStore {
    pub entries: Vec<RustedBibEntry>,
}

impl View for EntryStore {
    type V = Map<Seq<char>, BibView>;

    open spec fn view(&self) -> Map<Seq<char>, BibView> {
        index_of(self.entries.deep_view())
    }
}

impl DeepView for RustedBibEntry {
    type V = BibView;

    open spec fn deep_view(&self) -> BibView {
        self.view()
    }
}

impl EntryStore {
    /// Builds the store over the given entries; no validation is performed,
    /// and an empty sequence yields an empty index.
    pub fn new(entries: Vec<RustedBibEntry>) -> (s: EntryStore)
        ensures
            s.entries@ == entries@,
            s@ == index_of(entries.deep_view()),
    {
        EntryStore { entries }
    }

    /// Looks the key up in the index: the last entry carrying `key`, or
    /// `None` when no entry does.
    pub fn lookup<'a>(&'a self, key: &String) -> (r: Option<&'a RustedBibEntry>)
        ensures
            match r {
                Some(e) => self@.contains_key(key@) && e@ == self@[key@],
                None => !self@.contains_key(key@),
            },
    {
        let ghost s = self.entries.deep_view();
        let mut i: usize = self.entries.len();
        while i > 0
            invariant
                0 <= i <= self.entries@.len(),
                s == self.entries.deep_view(),
                forall|j: int| i <= j < s.len() ==> s[j].bibkey != key@,
            decreases i,
        {
            i = i - 1;
            if self.entries[i].bibkey.eq(key) {
                proof {
                    assert(s[i as int] == self.entries@[i as int]@);
                    lemma_index_last(s, key@, i as int);
                }
                return Some(&self.entries[i]);
            }
            proof {
                assert(s[i as int] == self.entries@[i as int]@);
            }
        }
        proof {
            lemma_index_none(s, key@);
        }
        None
    }
}

} // verus!
