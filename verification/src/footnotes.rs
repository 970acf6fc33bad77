//! Footnotes and endnotes (`word/footnotes.xml`, `word/endnotes.xml`).

use vstd::prelude::*;

use crate::opc::{first_match, lemma_first_match_at, lemma_first_match_none};
use crate::text::CT_P;

pub mod notes_xml;

verus! {

/// A single footnote or endnote.
#[derive(Debug, Clone, PartialEq)]
pub struct CT_Footnote {
    /// Matches the `w:id` of the reference in the document body.
    pub id: i32,
    pub paragraphs: Vec<CT_P>,
}

/// The notes of a footnotes or endnotes part.
#[derive(Debug, Clone, PartialEq)]
pub struct CT_Footnotes {
    pub footnotes: Vec<CT_Footnote>,
    /// The separator and continuation items (ids 0 and -1) kept verbatim.
    pub separators: Vec<Vec<u8>>,
}

/// The predicate "has id `id`".
pub open spec fn note_has_id(id: i32) -> spec_fn(CT_Footnote) -> bool {
    |f: CT_Footnote| f.id == id
}

impl CT_Footnotes {
    /// No notes and no separators.
    pub fn new() -> (r: Self)
        ensures
            r.footnotes@.len() == 0,
            r.separators@.len() == 0,
    {
        CT_Footnotes { footnotes: Vec::new(), separators: Vec::new() }
    }

    /// The first note with the given id.
    pub fn get_by_id(&self, id: i32) -> (r: Option<&CT_Footnote>)
        ensures
            r matches Some(f) ==> first_match(self.footnotes@, note_has_id(id)) matches Some(i)
                && *f == self.footnotes@[i],
            r is None ==> first_match(self.footnotes@, note_has_id(id)) is None,
    {
        let mut i: usize = 0;
        while i < self.footnotes.len()
            invariant
                i <= self.footnotes@.len(),
                forall|j: int| 0 <= j < i ==> !note_has_id(id)(#[trigger] self.footnotes@[j]),
            decreases self.footnotes@.len() - i,
        {
            if self.footnotes[i].id == id {
                proof { lemma_first_match_at(self.footnotes@, note_has_id(id), i as int); }
                return Some(&self.footnotes[i]);
            }
            i = i + 1;
        }
        proof { lemma_first_match_none(self.footnotes@, note_has_id(id)); }
        None
    }
}

} // verus!
