//! Text content elements: `CT_P` (paragraph), `CT_R` (run), `CT_Text`.

use vstd::prelude::*;

use crate::chars::{push_char, push_str, str_chars, to_owned_string};
use crate::drawing::CT_Drawing;
use crate::properties::{CT_PPr, CT_RPr};

pub mod text_xml;
pub mod text_read;

verus! {

/// `CT_Text` — The text content of a run, with optional xml:space="preserve".
#[derive(Debug, Clone, PartialEq)]
pub struct CT_Text {
    pub text: String,
    pub preserve_space: bool,
}

/// Whether whitespace at either end of `s` must be preserved: it starts or
/// ends with a space.
pub open spec fn needs_preserve(s: Seq<char>) -> bool {
    s.len() > 0 && (s[0] == ' ' || s[s.len() - 1] == ' ')
}

/// Whether a character sequence starts or ends with a space.
pub fn edge_space(s: &[char]) -> (r: bool)
    ensures
        r == needs_preserve(s@),
{
    s.len() > 0 && (s[0] == ' ' || s[s.len() - 1] == ' ')
}

impl CT_Text {
    /// Text content; whitespace is marked to be preserved when the text starts
    /// or ends with a space.
    pub fn new(text: &str) -> (r: Self)
        ensures
            r.text@ == text@,
            r.preserve_space == needs_preserve(text@),
    {
        let cs = str_chars(text);
        CT_Text { text: to_owned_string(text), preserve_space: edge_space(cs.as_slice()) }
    }
}

/// Types of simple fields.
#[derive(Debug, Clone, PartialEq)]
pub enum FieldType {
    /// Current page number (PAGE field).
    Page,
    /// Total number of pages (NUMPAGES field).
    NumPages,
    /// Any other field instruction.
    Other(String),
}

/// Content that can appear inside a run.
#[derive(Debug, Clone, PartialEq)]
pub enum RunContent {
    Text(CT_Text),
    Tab,
    Break(BreakType),
    Drawing(CT_Drawing),
    /// A simple field (from `<w:fldSimple>`).
    Field { field_type: FieldType },
    /// A footnote reference (`<w:footnoteReference w:id="..."/>`).
    FootnoteRef { id: i32 },
    /// An endnote reference (`<w:endnoteReference w:id="..."/>`).
    EndnoteRef { id: i32 },
}

/// Types of breaks.
#[derive(Debug, Clone, Copy, PartialEq, Eq, Structural)]
pub enum BreakType {
    Line,
    Page,
    Column,
}

/// `CT_R` — A run of text with uniform formatting.
#[derive(Debug, Clone, PartialEq)]
pub struct CT_R {
    pub properties: Option<CT_RPr>,
    pub content: Vec<RunContent>,
    /// Unknown child elements captured as raw XML.
    pub extra_xml: Vec<Vec<u8>>,
}

/// The plain text one content item contributes: its characters for text, a
/// tab character for a tab, a newline for any break, nothing otherwise.
pub open spec fn content_text(c: RunContent) -> Seq<char> {
    match c {
        RunContent::Text(t) => t.text@,
        RunContent::Tab => seq!['\t'],
        RunContent::Break(_) => seq!['\n'],
        _ => Seq::empty(),
    }
}

/// The plain text of a sequence of content items, in order.
pub open spec fn run_text(items: Seq<RunContent>) -> Seq<char>
    decreases items.len(),
{
    if items.len() == 0 {
        Seq::empty()
    } else {
        run_text(items.drop_last()) + content_text(items.last())
    }
}

/// The plain text of a sequence of runs, concatenated in order.
pub open spec fn runs_text(runs: Seq<CT_R>) -> Seq<char>
    decreases runs.len(),
{
    if runs.len() == 0 {
        Seq::empty()
    } else {
        runs_text(runs.drop_last()) + run_text(runs.last().content@)
    }
}

impl CT_R {
    /// A run with no properties holding `text`.
    pub fn new(text: &str) -> (r: Self)
        ensures
            r.properties is None,
            r.content@.len() == 1,
            r.content@[0] matches RunContent::Text(t) && t.text@ == text@
                && t.preserve_space == needs_preserve(text@),
            r.extra_xml@.len() == 0,
    {
        let mut content = Vec::new();
        content.push(RunContent::Text(CT_Text::new(text)));
        CT_R { properties: None, content, extra_xml: Vec::new() }
    }

    /// Get the combined text of all text content in this run.
    pub fn text(&self) -> (r: String)
        ensures
            r@ == run_text(self.content@),
    {
        let mut result = String::new();
        let mut i: usize = 0;
        while i < self.content.len()
            invariant
                i <= self.content@.len(),
                result@ == run_text(self.content@.subrange(0, i as int)),
            decreases self.content@.len() - i,
        {
            proof {
                assert(self.content@.subrange(0, i + 1).drop_last()
                    =~= self.content@.subrange(0, i as int));
            }
            match &self.content[i] {
                RunContent::Text(t) => push_str(&mut result, t.text.as_str()),
                RunContent::Tab => push_char(&mut result, '\t'),
                RunContent::Break(_) => push_char(&mut result, '\n'),
                _ => {},
            }
            i = i + 1;
        }
        proof { assert(self.content@.subrange(0, i as int) =~= self.content@); }
        result
    }
}

/// A hyperlink span that wraps a range of runs.
#[derive(Debug, Clone, PartialEq)]
pub struct HyperlinkSpan {
    /// The relationship ID for the hyperlink target.
    pub rel_id: Option<String>,
    /// Optional anchor within the document (for internal links).
    pub anchor: Option<String>,
    /// Index of the first run in the hyperlink (inclusive).
    pub run_start: usize,
    /// Index of the last run in the hyperlink (exclusive).
    pub run_end: usize,
}

/// `CT_P` — A paragraph element containing runs and properties.
#[derive(Debug, Clone, PartialEq)]
pub struct CT_P {
    pub properties: Option<CT_PPr>,
    pub runs: Vec<CT_R>,
    /// Hyperlink spans referencing ranges of runs.
    pub hyperlinks: Vec<HyperlinkSpan>,
    /// Unknown child elements captured as raw XML with their insertion position (run index).
    pub extra_xml: Vec<(usize, Vec<u8>)>,
}

impl CT_P {
    /// An empty paragraph.
    pub fn new() -> (r: Self)
        ensures
            r.properties is None,
            r.runs@.len() == 0,
            r.hyperlinks@.len() == 0,
            r.extra_xml@.len() == 0,
    {
        CT_P { properties: None, runs: Vec::new(), hyperlinks: Vec::new(), extra_xml: Vec::new() }
    }

    /// Get the combined text of all runs in this paragraph.
    pub fn text(&self) -> (r: String)
        ensures
            r@ == runs_text(self.runs@),
    {
        let mut result = String::new();
        let mut i: usize = 0;
        while i < self.runs.len()
            invariant
                i <= self.runs@.len(),
                result@ == runs_text(self.runs@.subrange(0, i as int)),
            decreases self.runs@.len() - i,
        {
            proof {
                assert(self.runs@.subrange(0, i + 1).drop_last() =~= self.runs@.subrange(0, i as int));
            }
            let t = self.runs[i].text();
            push_str(&mut result, t.as_str());
            i = i + 1;
        }
        proof { assert(self.runs@.subrange(0, i as int) =~= self.runs@); }
        result
    }

    /// Add a run with the given text.
    pub fn add_run(&mut self, text: &str) -> (r: &mut CT_R)
        ensures
            final(self).runs@ == old(self).runs@.push(*final(r)),
            r.properties is None,
            r.content@.len() == 1,
            r.content@[0] matches RunContent::Text(t) && t.text@ == text@,
            final(self).properties == old(self).properties,
            final(self).hyperlinks == old(self).hyperlinks,
            final(self).extra_xml == old(self).extra_xml,
    {
        self.runs.push(CT_R::new(text));
        let n = self.runs.len() - 1;
        &mut self.runs[n]
    }
}

} // verus!
