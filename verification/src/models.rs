//! The bibliographic record types and their mathematical views.

use vstd::prelude::*;

verus! {

/// The textual key that identifies an entry; the sole graph-node identity.
pub type Bibkey = String;

/// The two independent edge relations over the entry set.
#[derive(Clone, Copy, PartialEq, Eq, Structural, Debug)]
pub enum Relation {
    FurtherReferences,
    DependsOn,
}

/// Mathematical view of a [`RustedBibEntry`].
pub struct BibView {
    pub id: Seq<char>,
    pub bibkey: Seq<char>,
    pub title: Seq<char>,
    pub notes: Seq<char>,
    pub crossref: Seq<char>,
    pub further_note: Seq<char>,
    pub further_references: Seq<Seq<char>>,
    pub depends_on: Seq<Seq<char>>,
}

impl BibView {
    /// The outgoing edge list of this entry under the chosen relation.
    pub open spec fn edges(self, rel: Relation) -> Seq<Seq<char>> {
        match rel {
            Relation::FurtherReferences => self.further_references,
            Relation::DependsOn => self.depends_on,
        }
    }
}

/// A bibliographic record: free-text metadata plus the two edge lists.
#[derive(Debug)]
pub struct RustedBibEntry {
    pub id: String,
    pub bibkey: Bibkey,
    pub title: String,
    pub notes: String,
    pub crossref: String,
    pub further_note: String,
    pub further_references: Vec<String>,
    pub depends_on: Vec<String>,
}

impl View for RustedBibEntry {
    type V = BibView;

    open spec fn view(&self) -> BibView {
        BibView {
            id: self.id@,
            bibkey: self.bibkey@,
            title: self.title@,
            notes: self.notes@,
            crossref: self.crossref@,
            further_note: self.further_note@,
            further_references: self.further_references.deep_view(),
            depends_on: self.depends_on.deep_view(),
        }
    }
}

impl Clone for RustedBibEntry {
    fn clone(&self) -> (r: Self)
        ensures
            r@ == self@,
    {
        let fr = clone_string_vec(&self.further_references);
        let dep = clone_string_vec(&self.depends_on);
        RustedBibEntry {
            id: self.id.clone(),
            bibkey: self.bibkey.clone(),
            title: self.title.clone(),
            notes: self.notes.clone(),
            crossref: self.crossref.clone(),
            further_note: self.further_note.clone(),
            further_references: fr,
            depends_on: dep,
        }
    }
}

/// Clones a vector of strings, preserving its deep view exactly.
pub fn clone_string_vec(v: &Vec<String>) -> (r: Vec<String>)
    ensures
        r.deep_view() == v.deep_view(),
        r@.len() == v@.len(),
{
    let mut r: Vec<String> = Vec::new();
    let mut i: usize = 0;
    while i < v.len()
        invariant
            0 <= i <= v.len(),
            r@.len() == i,
            forall|j: int| 0 <= j < i ==> r@[j]@ == v@[j]@,
        decreases v.len() - i,
    {
        r.push(v[i].clone());
        i = i + 1;
    }
    proof {
        assert(r.deep_view() =~= v.deep_view());
    }
    r
}

/// Mathematical view of a [`TransitivelyClosedBibEntry`].
pub struct ClosedView {
    pub id: Seq<char>,
    pub bibkey: Seq<char>,
    pub title: Seq<char>,
    pub notes: Seq<char>,
    pub crossref: Seq<char>,
    pub further_note: Seq<char>,
    pub further_references: Seq<char>,
    pub depends_on: Seq<char>,
    pub further_references_closed: Seq<char>,
    pub depends_on_closed: Seq<char>,
    pub max_depth_reached: nat,
    pub status: Seq<char>,
    pub error_message: Seq<char>,
}

/// The result record: the entry's display attributes, the serialized
/// transitive closures of both relations, the greatest breadth-first depth
/// explored, and a status with an error message for failed lookups.
#[derive(Debug)]
pub struct TransitivelyClosedBibEntry {
    pub id: String,
    pub bibkey: Bibkey,
    pub title: String,
    pub notes: String,
    pub crossref: String,
    pub further_note: String,
    pub further_references: String,
    pub depends_on: String,
    pub further_references_closed: String,
    pub depends_on_closed: String,
    pub max_depth_reached: usize,
    pub status: String,
    pub error_message: String,
}

impl View for TransitivelyClosedBibEntry {
    type V = ClosedView;

    open spec fn view(&self) -> ClosedView {
        ClosedView {
            id: self.id@,
            bibkey: self.bibkey@,
            title: self.title@,
            notes: self.notes@,
            crossref: self.crossref@,
            further_note: self.further_note@,
            further_references: self.further_references@,
            depends_on: self.depends_on@,
            further_references_closed: self.further_references_closed@,
            depends_on_closed: self.depends_on_closed@,
            max_depth_reached: self.max_depth_reached as nat,
            status: self.status@,
            error_message: self.error_message@,
        }
    }
}

impl Clone for TransitivelyClosedBibEntry {
    fn clone(&self) -> (r: Self)
        ensures
            r@ == self@,
    {
        TransitivelyClosedBibEntry {
            id: self.id.clone(),
            bibkey: self.bibkey.clone(),
            title: self.title.clone(),
            notes: self.notes.clone(),
            crossref: self.crossref.clone(),
            further_note: self.further_note.clone(),
            further_references: self.further_references.clone(),
            depends_on: self.depends_on.clone(),
            further_references_closed: self.further_references_closed.clone(),
            depends_on_closed: self.depends_on_closed.clone(),
            max_depth_reached: self.max_depth_reached,
            status: self.status.clone(),
            error_message: self.error_message.clone(),
        }
    }
}

} // verus!
