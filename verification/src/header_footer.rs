//! Header and footer elements: `CT_HdrFtr`, `HdrFtrType`, `HdrFtrRef`.

use vstd::prelude::*;

use crate::chars::{push_char, push_str, str_eq};
use crate::text::{runs_text, CT_P};

pub mod hdr_ftr_xml;

verus! {

/// `CT_HdrFtr` — Content of a header or footer part.
#[derive(Debug, Clone, PartialEq)]
pub struct CT_HdrFtr {
    pub paragraphs: Vec<CT_P>,
    /// Extra namespace declarations captured from the root element.
    pub extra_namespaces: Vec<(String, String)>,
    /// Unknown child elements captured as raw XML.
    pub extra_xml: Vec<Vec<u8>>,
}

/// The texts of the paragraphs, joined with newlines.
pub open spec fn paras_text(ps: Seq<CT_P>) -> Seq<char>
    decreases ps.len(),
{
    if ps.len() == 0 {
        Seq::empty()
    } else if ps.len() == 1 {
        runs_text(ps[0].runs@)
    } else {
        paras_text(ps.drop_last()) + seq!['\n'] + runs_text(ps.last().runs@)
    }
}

/// The texts of `ps`, joined with newlines.
pub fn join_paragraph_texts(ps: &Vec<CT_P>) -> (r: String)
    ensures
        r@ == paras_text(ps@),
{
    let mut out = String::new();
    let mut i: usize = 0;
    while i < ps.len()
        invariant
            i <= ps@.len(),
            out@ == paras_text(ps@.subrange(0, i as int)),
        decreases ps@.len() - i,
    {
        proof {
            assert(ps@.subrange(0, i + 1).drop_last() =~= ps@.subrange(0, i as int));
        }
        if i > 0 {
            push_char(&mut out, '\n');
        }
        let t = ps[i].text();
        push_str(&mut out, t.as_str());
        i = i + 1;
    }
    proof { assert(ps@.subrange(0, i as int) =~= ps@); }
    out
}

impl CT_HdrFtr {
    /// An empty header or footer.
    pub fn new() -> (r: Self)
        ensures
            r.paragraphs@.len() == 0,
            r.extra_namespaces@.len() == 0,
            r.extra_xml@.len() == 0,
    {
        CT_HdrFtr { paragraphs: Vec::new(), extra_namespaces: Vec::new(), extra_xml: Vec::new() }
    }

    /// Get the combined text of all paragraphs, one line per paragraph.
    pub fn text(&self) -> (r: String)
        ensures
            r@ == paras_text(self.paragraphs@),
    {
        join_paragraph_texts(&self.paragraphs)
    }
}

/// Header/footer reference type in section properties.
#[derive(Debug, Clone, Copy, PartialEq, Eq, Structural)]
pub enum HdrFtrType {
    /// Default header/footer
    Default,
    /// First page header/footer
    First,
    /// Even page header/footer
    Even,
}

/// The attribute value naming each header/footer type.
pub open spec fn hdr_ftr_name(t: HdrFtrType) -> Seq<char> {
    match t {
        HdrFtrType::Default => "default"@,
        HdrFtrType::First => "first"@,
        HdrFtrType::Even => "even"@,
    }
}

/// The type an attribute value names; any other value means `Default`.
pub open spec fn hdr_ftr_parse(s: Seq<char>) -> HdrFtrType {
    if s == "first"@ {
        HdrFtrType::First
    } else if s == "even"@ {
        HdrFtrType::Even
    } else {
        HdrFtrType::Default
    }
}

impl HdrFtrType {
    /// Parses an attribute value; unknown values mean `Default`.
    pub fn from_str(s: &str) -> (r: Self)
        ensures
            r == hdr_ftr_parse(s@),
    {
        if str_eq(s, "first") {
            HdrFtrType::First
        } else if str_eq(s, "even") {
            HdrFtrType::Even
        } else {
            HdrFtrType::Default
        }
    }

    /// The attribute value for this type.
    pub fn to_str(self) -> (r: &'static str)
        ensures
            r@ == hdr_ftr_name(self),
    {
        match self {
            HdrFtrType::Default => "default",
            HdrFtrType::First => "first",
            HdrFtrType::Even => "even",
        }
    }
}

/// Parsing the attribute value of a header/footer type gives it back.
pub proof fn lemma_hdr_ftr_round_trip(t: HdrFtrType)
    ensures
        hdr_ftr_parse(hdr_ftr_name(t)) == t,
{
    reveal_strlit("default");
    reveal_strlit("first");
    reveal_strlit("even");
    assert("default"@.len() == 7);
    assert("default"@[0] == 'd');
    assert("default"@[1] == 'e');
    assert("default"@[2] == 'f');
    assert("first"@.len() == 5);
    assert("first"@[0] == 'f');
    assert("first"@[1] == 'i');
    assert("first"@[2] == 'r');
    assert("even"@.len() == 4);
    assert("even"@[0] == 'e');
    assert("even"@[1] == 'v');
    assert("even"@[2] == 'e');
}

/// A header or footer reference (stored in section properties).
#[derive(Debug, Clone, PartialEq)]
pub struct HdrFtrRef {
    /// The type (default, first, even)
    pub hdr_ftr_type: HdrFtrType,
    /// Relationship ID
    pub rel_id: String,
}

} // verus!
