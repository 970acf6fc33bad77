//! Bookmarks: `w:bookmarkStart` / `w:bookmarkEnd` and REF fields to them.

use vstd::prelude::*;

use crate::chars::{decimal, push_decimal, push_str, string_into_bytes, to_owned_string, utf8};
use crate::namespace::W_NS;

verus! {

/// A bookmark: an id and a name.
#[derive(Debug, Clone, PartialEq)]
pub struct CT_Bookmark {
    pub id: u32,
    pub name: String,
}

/// The text of a bookmark's start element.
pub open spec fn bookmark_start_text(id: u32, name: Seq<char>) -> Seq<char> {
    "<w:bookmarkStart w:id=\""@ + decimal(id as nat) + "\" w:name=\""@ + name + "\" xmlns:w=\""@
        + W_NS@ + "\"/>"@
}

/// The text of a bookmark's end element.
pub open spec fn bookmark_end_text(id: u32) -> Seq<char> {
    "<w:bookmarkEnd w:id=\""@ + decimal(id as nat) + "\" xmlns:w=\""@ + W_NS@ + "\"/>"@
}

/// The text of a REF field to the bookmark `name`: begin, instruction,
/// separate, the name as the field result, end — each in its own run.
pub open spec fn cross_reference_text(name: Seq<char>) -> Seq<char> {
    let open_run = "<w:r xmlns:w=\""@ + W_NS@ + "\">"@;
    open_run + "<w:fldChar w:fldCharType=\"begin\"/></w:r>"@ + open_run
        + "<w:instrText xml:space=\"preserve\"> REF "@ + name + " \\h </w:instrText></w:r>"@
        + open_run + "<w:fldChar w:fldCharType=\"separate\"/></w:r>"@ + open_run
        + "<w:t xml:space=\"preserve\">"@ + name + "</w:t></w:r>"@ + open_run
        + "<w:fldChar w:fldCharType=\"end\"/></w:r>"@
}

/// Appends `<w:r xmlns:w="…">`.
fn push_run_open(s: &mut String)
    ensures
        final(s)@ == old(s)@ + "<w:r xmlns:w=\""@ + W_NS@ + "\">"@,
{
    push_str(s, "<w:r xmlns:w=\"");
    push_str(s, W_NS);
    push_str(s, "\">");
}

impl CT_Bookmark {
    /// A bookmark with the given id and name.
    pub fn new(id: u32, name: &str) -> (r: Self)
        ensures
            r.id == id,
            r.name@ == name@,
    {
        CT_Bookmark { id, name: to_owned_string(name) }
    }

    /// Raw XML bytes for `<w:bookmarkStart>` (insert before the content).
    pub fn start_xml(&self) -> (r: Vec<u8>)
        ensures
            r@ == utf8(bookmark_start_text(self.id, self.name@)),
    {
        let mut s = String::new();
        push_str(&mut s, "<w:bookmarkStart w:id=\"");
        push_decimal(&mut s, self.id as u64);
        push_str(&mut s, "\" w:name=\"");
        push_str(&mut s, self.name.as_str());
        push_str(&mut s, "\" xmlns:w=\"");
        push_str(&mut s, W_NS);
        push_str(&mut s, "\"/>");
        proof { assert(s@ =~= bookmark_start_text(self.id, self.name@)); }
        string_into_bytes(s)
    }

    /// Raw XML bytes for `<w:bookmarkEnd>` (insert after the content).
    pub fn end_xml(&self) -> (r: Vec<u8>)
        ensures
            r@ == utf8(bookmark_end_text(self.id)),
    {
        let mut s = String::new();
        push_str(&mut s, "<w:bookmarkEnd w:id=\"");
        push_decimal(&mut s, self.id as u64);
        push_str(&mut s, "\" xmlns:w=\"");
        push_str(&mut s, W_NS);
        push_str(&mut s, "\"/>");
        proof { assert(s@ =~= bookmark_end_text(self.id)); }
        string_into_bytes(s)
    }

    /// Raw XML bytes for a REF field referencing this bookmark, showing the
    /// bookmark name as its placeholder result.
    pub fn cross_reference_xml(&self) -> (r: Vec<u8>)
        ensures
            r@ == utf8(cross_reference_text(self.name@)),
    {
        let mut s = String::new();
        push_run_open(&mut s);
        push_str(&mut s, "<w:fldChar w:fldCharType=\"begin\"/></w:r>");
        push_run_open(&mut s);
        push_str(&mut s, "<w:instrText xml:space=\"preserve\"> REF ");
        push_str(&mut s, self.name.as_str());
        push_str(&mut s, " \\h </w:instrText></w:r>");
        push_run_open(&mut s);
        push_str(&mut s, "<w:fldChar w:fldCharType=\"separate\"/></w:r>");
        push_run_open(&mut s);
        push_str(&mut s, "<w:t xml:space=\"preserve\">");
        push_str(&mut s, self.name.as_str());
        push_str(&mut s, "</w:t></w:r>");
        push_run_open(&mut s);
        push_str(&mut s, "<w:fldChar w:fldCharType=\"end\"/></w:r>");
        proof { assert(s@ =~= cross_reference_text(self.name@)); }
        string_into_bytes(s)
    }
}

} // verus!
