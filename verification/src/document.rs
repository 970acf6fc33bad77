//! The document body: `CT_Document`, `CT_Body`, `BodyContent`, `CT_SectPr`.

use vstd::prelude::*;

use crate::chars::{i32_string, signed_decimal, to_owned_string};
use crate::header_footer::{hdr_ftr_name, HdrFtrRef};
use crate::xml::{
    attr_views, element, emit_element, emit_empty_attrs, empty_tag_attrs, opt_i32_attr, push_attr,
    push_opt_i32_attr,
};
use crate::table::CT_Tbl;
use crate::text::CT_P;
use crate::units::Twips;

verus! {

/// `CT_SectPr` — Section properties (page geometry and header/footer references).
#[derive(Debug, Clone, PartialEq)]
pub struct CT_SectPr {
    /// Page width (pgSz/@w:w)
    pub page_width: Option<Twips>,
    /// Page height (pgSz/@w:h)
    pub page_height: Option<Twips>,
    /// Top margin (pgMar/@w:top)
    pub margin_top: Option<Twips>,
    /// Bottom margin (pgMar/@w:bottom)
    pub margin_bottom: Option<Twips>,
    /// Left margin (pgMar/@w:left)
    pub margin_left: Option<Twips>,
    /// Right margin (pgMar/@w:right)
    pub margin_right: Option<Twips>,
    /// Header references (headerReference)
    pub header_refs: Vec<HdrFtrRef>,
    /// Footer references (footerReference)
    pub footer_refs: Vec<HdrFtrRef>,
}

/// A block-level item of the body.
#[derive(Debug, PartialEq)]
pub enum BodyContent {
    /// A paragraph.
    Paragraph(CT_P),
    /// A table.
    Table(CT_Tbl),
    /// Unknown block content preserved verbatim.
    RawXml(Vec<u8>),
}

/// `CT_Body` — the block-level content of the document.
#[derive(Debug, PartialEq)]
pub struct CT_Body {
    pub content: Vec<BodyContent>,
    /// Final section properties (sectPr)
    pub sect_pr: Option<CT_SectPr>,
}

impl CT_Body {
    /// An empty body.
    pub fn new() -> (r: Self)
        ensures
            r.content@.len() == 0,
            r.sect_pr is None,
    {
        CT_Body { content: Vec::new(), sect_pr: None }
    }

    /// Appends a paragraph at the end of the body.
    pub fn add_paragraph(&mut self, p: CT_P)
        ensures
            final(self).content@ == old(self).content@.push(BodyContent::Paragraph(p)),
            final(self).sect_pr == old(self).sect_pr,
    {
        self.content.push(BodyContent::Paragraph(p));
    }
}

/// `CT_Document` — the main document part.
#[derive(Debug, PartialEq)]
pub struct CT_Document {
    pub body: CT_Body,
}

impl CT_Document {
    /// A document with an empty body.
    pub fn new() -> (r: Self)
        ensures
            r.body.content@.len() == 0,
            r.body.sect_pr is None,
    {
        CT_Document { body: CT_Body::new() }
    }
}

/// The number of a length, if it is set.
pub open spec fn twips_value(t: Option<Twips>) -> Option<i32> {
    match t {
        Some(x) => Some(x.0),
        None => None,
    }
}

/// The number of a length, if it is set.
pub fn twips_opt(t: Option<Twips>) -> (r: Option<i32>)
    ensures
        r == twips_value(t),
{
    match t {
        Some(x) => Some(x.0),
        None => None,
    }
}

/// A header or footer reference element named `tag`: its type and
/// relationship id.
pub open spec fn hdr_ftr_ref_xml(tag: Seq<char>, r: HdrFtrRef) -> Seq<u8> {
    empty_tag_attrs(tag, seq![("w:type"@, hdr_ftr_name(r.hdr_ftr_type)), ("r:id"@, r.rel_id@)])
}

/// Header or footer references, each as an element named `tag`.
pub open spec fn hdr_ftr_refs_xml(tag: Seq<char>, s: Seq<HdrFtrRef>) -> Seq<u8>
    decreases s.len(),
{
    if s.len() == 0 {
        Seq::empty()
    } else {
        hdr_ftr_refs_xml(tag, s.drop_last()) + hdr_ftr_ref_xml(tag, s.last())
    }
}

/// The page size element, if a dimension is set.
pub open spec fn pg_sz_xml(s: CT_SectPr) -> Seq<u8> {
    if s.page_width is Some || s.page_height is Some {
        empty_tag_attrs(
            "w:pgSz"@,
            opt_i32_attr("w:w"@, twips_value(s.page_width)) + opt_i32_attr("w:h"@, twips_value(s.page_height)),
        )
    } else {
        Seq::empty()
    }
}

/// The page margins element, if a margin is set.
pub open spec fn pg_mar_xml(s: CT_SectPr) -> Seq<u8> {
    if s.margin_top is Some || s.margin_right is Some || s.margin_bottom is Some || s.margin_left is Some {
        empty_tag_attrs(
            "w:pgMar"@,
            opt_i32_attr("w:top"@, twips_value(s.margin_top)) + opt_i32_attr("w:right"@, twips_value(s.margin_right))
                + opt_i32_attr("w:bottom"@, twips_value(s.margin_bottom))
                + opt_i32_attr("w:left"@, twips_value(s.margin_left)),
        )
    } else {
        Seq::empty()
    }
}

/// The XML of section properties: header references, footer references,
/// page size and page margins.
pub open spec fn sect_pr_xml(s: CT_SectPr) -> Seq<u8> {
    element(
        "w:sectPr"@,
        hdr_ftr_refs_xml("w:headerReference"@, s.header_refs@) + hdr_ftr_refs_xml("w:footerReference"@, s.footer_refs@)
            + pg_sz_xml(s) + pg_mar_xml(s),
    )
}

/// Append header or footer references.
fn write_hdr_ftr_refs(out: &mut Vec<u8>, tag: &str, refs: &Vec<HdrFtrRef>)
    ensures
        final(out)@ == old(out)@ + hdr_ftr_refs_xml(tag@, refs@),
{
    let ghost o = out@;
    let mut i: usize = 0;
    proof { assert(refs@.take(0) =~= Seq::<HdrFtrRef>::empty()); }
    while i < refs.len()
        invariant
            i <= refs@.len(),
            out@ == o + hdr_ftr_refs_xml(tag@, refs@.take(i as int)),
        decreases refs@.len() - i,
    {
        let mut attrs: Vec<(String, String)> = Vec::new();
        push_attr(&mut attrs, "w:type", to_owned_string(refs[i].hdr_ftr_type.to_str()));
        push_attr(&mut attrs, "r:id", refs[i].rel_id.clone());
        proof {
            assert(attr_views(attrs@) =~= seq![
                ("w:type"@, hdr_ftr_name(refs@[i as int].hdr_ftr_type)),
                ("r:id"@, refs@[i as int].rel_id@),
            ]);
        }
        emit_empty_attrs(out, tag, attrs);
        proof {
            assert(refs@.take(i + 1).drop_last() =~= refs@.take(i as int));
            assert(out@ =~= o + hdr_ftr_refs_xml(tag@, refs@.take(i + 1)));
        }
        i = i + 1;
    }
    proof { assert(refs@.take(i as int) =~= refs@); }
}

impl CT_SectPr {
    /// Append these section properties as a `w:sectPr` element.
    pub fn to_xml(&self, out: &mut Vec<u8>)
        ensures
            final(out)@ == old(out)@ + sect_pr_xml(*self),
    {
        let mut body: Vec<u8> = Vec::new();
        write_hdr_ftr_refs(&mut body, "w:headerReference", &self.header_refs);
        proof { assert(body@ =~= hdr_ftr_refs_xml("w:headerReference"@, self.header_refs@)); }
        write_hdr_ftr_refs(&mut body, "w:footerReference", &self.footer_refs);
        if self.page_width.is_some() || self.page_height.is_some() {
            let mut attrs: Vec<(String, String)> = Vec::new();
            push_opt_i32_attr(&mut attrs, "w:w", twips_opt(self.page_width));
            proof { assert(attr_views(attrs@) =~= opt_i32_attr("w:w"@, twips_value(self.page_width))); }
            push_opt_i32_attr(&mut attrs, "w:h", twips_opt(self.page_height));
            emit_empty_attrs(&mut body, "w:pgSz", attrs);
        } else {
            proof { assert(body@ =~= body@ + pg_sz_xml(*self)); }
        }
        if self.margin_top.is_some() || self.margin_right.is_some() || self.margin_bottom.is_some()
            || self.margin_left.is_some() {
            let mut attrs: Vec<(String, String)> = Vec::new();
            push_opt_i32_attr(&mut attrs, "w:top", twips_opt(self.margin_top));
            proof { assert(attr_views(attrs@) =~= opt_i32_attr("w:top"@, twips_value(self.margin_top))); }
            push_opt_i32_attr(&mut attrs, "w:right", twips_opt(self.margin_right));
            push_opt_i32_attr(&mut attrs, "w:bottom", twips_opt(self.margin_bottom));
            push_opt_i32_attr(&mut attrs, "w:left", twips_opt(self.margin_left));
            emit_empty_attrs(&mut body, "w:pgMar", attrs);
        } else {
            proof { assert(body@ =~= body@ + pg_mar_xml(*self)); }
        }
        emit_element(out, "w:sectPr", &body);
    }
}

} // verus!
