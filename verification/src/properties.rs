//! Paragraph properties (`CT_PPr`) and run properties (`CT_RPr`), with the
//! overlay used for style inheritance.

use vstd::prelude::*;

use crate::borders::{pbdr_xml, tabs_xml, CT_PBdr, CT_Tabs};
use crate::chars::clone_opt_string;
use crate::document::CT_SectPr;
use crate::header_footer::HdrFtrRef;
use crate::shared::{highlight_name, jc_name, underline_name, ST_HighlightColor, ST_Jc, ST_Underline};
use crate::xml::{
    attr_views, element, element_attrs, emit_element, emit_element_attrs, emit_empty, emit_empty_attr,
    emit_empty_attrs, empty_tag, empty_tag_attr, empty_tag_attrs, extra_bytes, opt_attr, opt_flag_attr,
    opt_i32_attr, opt_toggle_xml, opt_u32_attr, opt_val_i32_xml, opt_val_u32_xml, opt_val_xml, push_attr,
    push_opt_attr, push_opt_flag_attr, push_opt_i32_attr, push_opt_u32_attr, write_extra, write_opt_toggle,
    write_opt_val, write_opt_val_i32, write_opt_val_u32,
};
use crate::document::{sect_pr_xml, twips_opt, twips_value};
use crate::chars::decimal;
use crate::units::{HalfPoint, Twips};

verus! {

/// `CT_Shd` — Shading/background fill.
#[derive(Debug, Clone, PartialEq)]
pub struct CT_Shd {
    /// Shading pattern (e.g. "clear", "solid", "horzStripe")
    pub val: String,
    /// Foreground color hex
    pub color: Option<String>,
    /// Background fill color hex
    pub fill: Option<String>,
}

/// A copy of an optional shading.
pub fn clone_opt_shd(s: &Option<CT_Shd>) -> (r: Option<CT_Shd>)
    ensures
        r == *s,
{
    match s {
        Some(x) => Some(CT_Shd {
            val: x.val.clone(),
            color: clone_opt_string(&x.color),
            fill: clone_opt_string(&x.fill),
        }),
        None => None,
    }
}

/// Whether two optional tab-stop lists hold the same stops.
pub open spec fn tabs_eq(a: Option<CT_Tabs>, b: Option<CT_Tabs>) -> bool {
    match (a, b) {
        (Some(x), Some(y)) => x.tabs@ == y.tabs@,
        (None, None) => true,
        _ => false,
    }
}

/// `b` where it is set, else a copy of `a`.
pub fn overlay_copy<T: Copy>(a: Option<T>, b: Option<T>) -> (r: Option<T>)
    ensures
        r == overlay(a, b),
{
    if b.is_some() { b } else { a }
}

/// A copy of `b` where it is set, else a copy of `a`.
pub fn overlay_string(a: &Option<String>, b: &Option<String>) -> (r: Option<String>)
    ensures
        r == overlay(*a, *b),
{
    if b.is_some() { clone_opt_string(b) } else { clone_opt_string(a) }
}

/// `b` where it is set, else `a`.
pub open spec fn overlay<T>(a: Option<T>, b: Option<T>) -> Option<T> {
    if b is Some { b } else { a }
}

/// The bytes of each raw XML piece of an optional list.
pub open spec fn raws_of(o: Option<Vec<Vec<u8>>>) -> Option<Seq<Seq<u8>>> {
    match o {
        Some(v) => Some(Seq::new(v@.len(), |i: int| v@[i]@)),
        None => None,
    }
}

/// A copy of an optional list of raw XML pieces.
pub fn clone_raws(o: &Option<Vec<Vec<u8>>>) -> (r: Option<Vec<Vec<u8>>>)
    ensures
        raws_of(r) == raws_of(*o),
{
    match o {
        Some(v) => {
            let mut out: Vec<Vec<u8>> = Vec::new();
            let mut i: usize = 0;
            while i < v.len()
                invariant
                    i <= v@.len(),
                    out@.len() == i,
                    forall|k: int| 0 <= k < i ==> #[trigger] out@[k]@ == v@[k]@,
                decreases v@.len() - i,
            {
                let mut b: Vec<u8> = Vec::new();
                let src = &v[i];
                let mut j: usize = 0;
                while j < src.len()
                    invariant
                        j <= src@.len(),
                        b@ == src@.take(j as int),
                    decreases src@.len() - j,
                {
                    b.push(src[j]);
                    proof { assert(b@ =~= src@.take(j + 1)); }
                    j = j + 1;
                }
                proof { assert(b@ =~= src@); }
                out.push(b);
                i = i + 1;
            }
            proof { assert(raws_of(Some(out)) =~~= raws_of(Some(*v))); }
            Some(out)
        },
        None => None,
    }
}

/// Two optional section breaks with the same page geometry and the same
/// header and footer references.
pub open spec fn sect_same(a: Option<CT_SectPr>, b: Option<CT_SectPr>) -> bool {
    match (a, b) {
        (Some(x), Some(y)) => {
            &&& x.page_width == y.page_width && x.page_height == y.page_height
            &&& x.margin_top == y.margin_top && x.margin_bottom == y.margin_bottom
            &&& x.margin_left == y.margin_left && x.margin_right == y.margin_right
            &&& x.header_refs@ == y.header_refs@ && x.footer_refs@ == y.footer_refs@
        },
        (None, None) => true,
        _ => false,
    }
}

/// A copy of a list of header or footer references.
fn clone_refs(v: &Vec<HdrFtrRef>) -> (r: Vec<HdrFtrRef>)
    ensures
        r@ == v@,
{
    let mut out: Vec<HdrFtrRef> = Vec::new();
    let mut i: usize = 0;
    while i < v.len()
        invariant
            i <= v@.len(),
            out@ == v@.take(i as int),
        decreases v@.len() - i,
    {
        let id = v[i].rel_id.clone();
        out.push(HdrFtrRef { hdr_ftr_type: v[i].hdr_ftr_type, rel_id: id });
        proof { assert(out@ =~= v@.take(i + 1)); }
        i = i + 1;
    }
    proof { assert(out@ =~= v@); }
    out
}

/// A copy of an optional section break.
pub fn clone_sect_pr(o: &Option<CT_SectPr>) -> (r: Option<CT_SectPr>)
    ensures
        sect_same(r, *o),
{
    match o {
        Some(x) => Some(CT_SectPr {
            page_width: x.page_width,
            page_height: x.page_height,
            margin_top: x.margin_top,
            margin_bottom: x.margin_bottom,
            margin_left: x.margin_left,
            margin_right: x.margin_right,
            header_refs: clone_refs(&x.header_refs),
            footer_refs: clone_refs(&x.footer_refs),
        }),
        None => None,
    }
}

/// Two run property sets alike in everything: the typed properties, the
/// raw XML, and the revision mark with its author, date and previous
/// properties.
pub open spec fn rpr_same(a: CT_RPr, b: CT_RPr) -> bool
    decreases a,
{
    &&& a.same_formatting(b)
    &&& raws_of(a.extra_xml) == raws_of(b.extra_xml)
    &&& match (a.rpr_change, b.rpr_change) {
        (Some(x), Some(y)) => x.author == y.author && x.date == y.date && rpr_same(*x.previous, *y.previous),
        (None, None) => true,
        _ => false,
    }
}

/// Two optional run property sets alike in everything.
pub open spec fn opt_rpr_same(a: Option<CT_RPr>, b: Option<CT_RPr>) -> bool {
    match (a, b) {
        (Some(x), Some(y)) => rpr_same(x, y),
        (None, None) => true,
        _ => false,
    }
}

/// Two paragraph property sets alike in everything: the typed properties,
/// the paragraph-mark run properties, the section break, the raw XML and
/// the revision mark.
pub open spec fn ppr_same(a: CT_PPr, b: CT_PPr) -> bool
    decreases a,
{
    &&& a.same_formatting(b)
    &&& opt_rpr_same(a.rpr, b.rpr)
    &&& sect_same(a.sect_pr, b.sect_pr)
    &&& raws_of(a.extra_xml) == raws_of(b.extra_xml)
    &&& match (a.ppr_change, b.ppr_change) {
        (Some(x), Some(y)) => x.author == y.author && x.date == y.date && ppr_same(*x.previous, *y.previous),
        (None, None) => true,
        _ => false,
    }
}

/// A copy of optional run properties.
pub fn clone_opt_rpr(o: &Option<CT_RPr>) -> (r: Option<CT_RPr>)
    ensures
        opt_rpr_same(r, *o),
        match (r, *o) {
            (Some(x), Some(y)) => x.same_formatting(y),
            (None, None) => true,
            _ => false,
        },
{
    match o {
        Some(x) => Some(x.clone()),
        None => None,
    }
}

/// A copy of an optional run revision mark.
pub fn clone_rpr_change(o: &Option<Box<RPrChange>>) -> (r: Option<Box<RPrChange>>)
    ensures
        match (r, *o) {
            (Some(x), Some(y)) => x.author == y.author && x.date == y.date && rpr_same(*x.previous, *y.previous),
            (None, None) => true,
            _ => false,
        },
    decreases *o, 0nat,
{
    match o {
        Some(c) => Some(Box::new(RPrChange { author: c.author.clone(), date: c.date.clone(), previous: Box::new((*c.previous).clone()) })),
        None => None,
    }
}

/// A copy of an optional paragraph revision mark.
pub fn clone_ppr_change(o: &Option<Box<PPrChange>>) -> (r: Option<Box<PPrChange>>)
    ensures
        match (r, *o) {
            (Some(x), Some(y)) => x.author == y.author && x.date == y.date && ppr_same(*x.previous, *y.previous),
            (None, None) => true,
            _ => false,
        },
    decreases *o, 0nat,
{
    match o {
        Some(c) => Some(Box::new(PPrChange { author: c.author.clone(), date: c.date.clone(), previous: Box::new((*c.previous).clone()) })),
        None => None,
    }
}

/// `CT_PPr` — Paragraph properties.
#[derive(Debug, PartialEq)]
pub struct CT_PPr {
    /// Paragraph style ID (pStyle)
    pub style_id: Option<String>,
    /// Justification (jc)
    pub jc: Option<ST_Jc>,
    /// Space before paragraph in twips (spacing/@w:before)
    pub space_before: Option<Twips>,
    /// Space after paragraph in twips (spacing/@w:after)
    pub space_after: Option<Twips>,
    /// Line spacing in twips (spacing/@w:line)
    pub line_spacing: Option<Twips>,
    /// Line spacing rule (spacing/@w:lineRule): "auto", "exact", "atLeast"
    pub line_rule: Option<String>,
    /// Space before auto-spacing (spacing/@w:beforeAutospacing)
    pub before_autospacing: Option<bool>,
    /// Space after auto-spacing (spacing/@w:afterAutospacing)
    pub after_autospacing: Option<bool>,
    /// Left indentation in twips (ind/@w:left)
    pub ind_left: Option<Twips>,
    /// Right indentation in twips (ind/@w:right)
    pub ind_right: Option<Twips>,
    /// First line indent in twips (ind/@w:firstLine)
    pub ind_first_line: Option<Twips>,
    /// Hanging indent in twips (ind/@w:hanging)
    pub ind_hanging: Option<Twips>,
    /// Keep with next paragraph (keepNext)
    pub keep_next: Option<bool>,
    /// Keep lines together (keepLines)
    pub keep_lines: Option<bool>,
    /// Page break before (pageBreakBefore)
    pub page_break_before: Option<bool>,
    /// Widow/orphan control (widowControl)
    pub widow_control: Option<bool>,
    /// Suppress auto-hyphens (suppressAutoHyphens)
    pub suppress_auto_hyphens: Option<bool>,
    /// Outline level 0-8 (outlineLvl)
    pub outline_lvl: Option<u32>,
    /// Paragraph borders (pBdr)
    pub borders: Option<CT_PBdr>,
    /// Tab stops (tabs)
    pub tabs: Option<CT_Tabs>,
    /// Paragraph shading (shd)
    pub shading: Option<CT_Shd>,
    /// Run properties for the paragraph mark (rPr)
    pub rpr: Option<CT_RPr>,
    /// Numbering level (numPr/ilvl)
    pub num_ilvl: Option<u32>,
    /// Numbering ID (numPr/numId)
    pub num_id: Option<u32>,
    /// Section properties embedded in paragraph (section break)
    pub sect_pr: Option<CT_SectPr>,
    /// Drop cap: number of lines to span (2-4 typical). Generates w:framePr.
    pub drop_cap_lines: Option<u32>,
    /// Formatting-revision mark (pPrChange): author/date + previous para props.
    pub ppr_change: Option<Box<PPrChange>>,
    /// Extra raw XML elements to include in pPr serialization.
    pub extra_xml: Option<Vec<Vec<u8>>>,
}

/// A paragraph-formatting revision (`w:pPrChange`): who/when + previous props.
#[derive(Debug, Default, PartialEq)]
pub struct PPrChange {
    pub author: String,
    pub date: String,
    pub previous: Box<CT_PPr>,
}

/// The properties that result from laying `other` over `base`: every field
/// that `other` sets replaces the one in `base`; the remaining fields keep
/// `base`'s value.
pub open spec fn ppr_merged(base: CT_PPr, other: CT_PPr) -> CT_PPr {
    CT_PPr {
        style_id: overlay(base.style_id, other.style_id),
        jc: overlay(base.jc, other.jc),
        space_before: overlay(base.space_before, other.space_before),
        space_after: overlay(base.space_after, other.space_after),
        line_spacing: overlay(base.line_spacing, other.line_spacing),
        line_rule: overlay(base.line_rule, other.line_rule),
        before_autospacing: overlay(base.before_autospacing, other.before_autospacing),
        after_autospacing: overlay(base.after_autospacing, other.after_autospacing),
        ind_left: overlay(base.ind_left, other.ind_left),
        ind_right: overlay(base.ind_right, other.ind_right),
        ind_first_line: overlay(base.ind_first_line, other.ind_first_line),
        ind_hanging: overlay(base.ind_hanging, other.ind_hanging),
        keep_next: overlay(base.keep_next, other.keep_next),
        keep_lines: overlay(base.keep_lines, other.keep_lines),
        page_break_before: overlay(base.page_break_before, other.page_break_before),
        widow_control: overlay(base.widow_control, other.widow_control),
        suppress_auto_hyphens: overlay(base.suppress_auto_hyphens, other.suppress_auto_hyphens),
        outline_lvl: overlay(base.outline_lvl, other.outline_lvl),
        borders: overlay(base.borders, other.borders),
        tabs: overlay(base.tabs, other.tabs),
        shading: overlay(base.shading, other.shading),
        rpr: overlay(base.rpr, other.rpr),
        num_ilvl: overlay(base.num_ilvl, other.num_ilvl),
        num_id: overlay(base.num_id, other.num_id),
        sect_pr: overlay(base.sect_pr, other.sect_pr),
        drop_cap_lines: overlay(base.drop_cap_lines, other.drop_cap_lines),
        ppr_change: overlay(base.ppr_change, other.ppr_change),
        extra_xml: overlay(base.extra_xml, other.extra_xml),
    }
}

/// Whether no paragraph property is set.
pub open spec fn ppr_is_empty(p: CT_PPr) -> bool {
    p.style_id is None
            && p.jc is None
            && p.space_before is None
            && p.space_after is None
            && p.line_spacing is None
            && p.line_rule is None
            && p.before_autospacing is None
            && p.after_autospacing is None
            && p.ind_left is None
            && p.ind_right is None
            && p.ind_first_line is None
            && p.ind_hanging is None
            && p.keep_next is None
            && p.keep_lines is None
            && p.page_break_before is None
            && p.widow_control is None
            && p.suppress_auto_hyphens is None
            && p.outline_lvl is None
            && p.borders is None
            && p.tabs is None
            && p.shading is None
            && p.rpr is None
            && p.num_ilvl is None
            && p.num_id is None
            && p.sect_pr is None
            && p.drop_cap_lines is None
            && p.ppr_change is None
            && p.extra_xml is None
}

/// Paragraph properties with nothing set.
pub open spec fn ppr_none() -> CT_PPr {
    CT_PPr {
        style_id: None,
        jc: None,
        space_before: None,
        space_after: None,
        line_spacing: None,
        line_rule: None,
        before_autospacing: None,
        after_autospacing: None,
        ind_left: None,
        ind_right: None,
        ind_first_line: None,
        ind_hanging: None,
        keep_next: None,
        keep_lines: None,
        page_break_before: None,
        widow_control: None,
        suppress_auto_hyphens: None,
        outline_lvl: None,
        borders: None,
        tabs: None,
        shading: None,
        rpr: None,
        num_ilvl: None,
        num_id: None,
        sect_pr: None,
        drop_cap_lines: None,
        ppr_change: None,
        extra_xml: None,
    }
}

impl Default for CT_PPr {
    fn default() -> (r: Self)
        ensures
            ppr_is_empty(r),
            r == ppr_none(),
    {
        CT_PPr {
            style_id: None,
            jc: None,
            space_before: None,
            space_after: None,
            line_spacing: None,
            line_rule: None,
            before_autospacing: None,
            after_autospacing: None,
            ind_left: None,
            ind_right: None,
            ind_first_line: None,
            ind_hanging: None,
            keep_next: None,
            keep_lines: None,
            page_break_before: None,
            widow_control: None,
            suppress_auto_hyphens: None,
            outline_lvl: None,
            borders: None,
            tabs: None,
            shading: None,
            rpr: None,
            num_ilvl: None,
            num_id: None,
            sect_pr: None,
            drop_cap_lines: None,
            ppr_change: None,
            extra_xml: None,
        }
    }
}

impl CT_PPr {
    /// Whether no property is set (nothing to serialize).
    pub fn is_empty(&self) -> (r: bool)
        ensures
            r == ppr_is_empty(*self),
    {
        self.style_id.is_none()
            && self.jc.is_none()
            && self.space_before.is_none()
            && self.space_after.is_none()
            && self.line_spacing.is_none()
            && self.line_rule.is_none()
            && self.before_autospacing.is_none()
            && self.after_autospacing.is_none()
            && self.ind_left.is_none()
            && self.ind_right.is_none()
            && self.ind_first_line.is_none()
            && self.ind_hanging.is_none()
            && self.keep_next.is_none()
            && self.keep_lines.is_none()
            && self.page_break_before.is_none()
            && self.widow_control.is_none()
            && self.suppress_auto_hyphens.is_none()
            && self.outline_lvl.is_none()
            && self.borders.is_none()
            && self.tabs.is_none()
            && self.shading.is_none()
            && self.rpr.is_none()
            && self.num_ilvl.is_none()
            && self.num_id.is_none()
            && self.sect_pr.is_none()
            && self.drop_cap_lines.is_none()
            && self.ppr_change.is_none()
            && self.extra_xml.is_none()
    }

    /// Merge another CT_PPr into this one: every field that `other` sets
    /// overrides (as a copy); the others are kept. Used for style
    /// inheritance.
    #[verifier::rlimit(50)]
    pub fn merge_from(&mut self, other: &CT_PPr)
        ensures
            ppr_same(*final(self), ppr_merged(*old(self), *other)),
    {
        *self = CT_PPr {
            style_id: overlay_string(&self.style_id, &other.style_id),
            jc: overlay_copy(self.jc, other.jc),
            space_before: overlay_copy(self.space_before, other.space_before),
            space_after: overlay_copy(self.space_after, other.space_after),
            line_spacing: overlay_copy(self.line_spacing, other.line_spacing),
            line_rule: overlay_string(&self.line_rule, &other.line_rule),
            before_autospacing: overlay_copy(self.before_autospacing, other.before_autospacing),
            after_autospacing: overlay_copy(self.after_autospacing, other.after_autospacing),
            ind_left: overlay_copy(self.ind_left, other.ind_left),
            ind_right: overlay_copy(self.ind_right, other.ind_right),
            ind_first_line: overlay_copy(self.ind_first_line, other.ind_first_line),
            ind_hanging: overlay_copy(self.ind_hanging, other.ind_hanging),
            keep_next: overlay_copy(self.keep_next, other.keep_next),
            keep_lines: overlay_copy(self.keep_lines, other.keep_lines),
            page_break_before: overlay_copy(self.page_break_before, other.page_break_before),
            widow_control: overlay_copy(self.widow_control, other.widow_control),
            suppress_auto_hyphens: overlay_copy(self.suppress_auto_hyphens, other.suppress_auto_hyphens),
            outline_lvl: overlay_copy(self.outline_lvl, other.outline_lvl),
            borders: match &other.borders { Some(b) => Some(b.duplicate()), None => match &self.borders { Some(b) => Some(b.duplicate()), None => None } },
            tabs: match &other.tabs { Some(t) => Some(t.duplicate()), None => match &self.tabs { Some(t) => Some(t.duplicate()), None => None } },
            shading: if other.shading.is_some() { clone_opt_shd(&other.shading) } else { clone_opt_shd(&self.shading) },
            rpr: if other.rpr.is_some() { clone_opt_rpr(&other.rpr) } else { clone_opt_rpr(&self.rpr) },
            num_ilvl: overlay_copy(self.num_ilvl, other.num_ilvl),
            num_id: overlay_copy(self.num_id, other.num_id),
            sect_pr: if other.sect_pr.is_some() { clone_sect_pr(&other.sect_pr) } else { clone_sect_pr(&self.sect_pr) },
            drop_cap_lines: overlay_copy(self.drop_cap_lines, other.drop_cap_lines),
            ppr_change: if other.ppr_change.is_some() {
                clone_ppr_change(&other.ppr_change)
            } else {
                clone_ppr_change(&self.ppr_change)
            },
            extra_xml: if other.extra_xml.is_some() { clone_raws(&other.extra_xml) } else { clone_raws(&self.extra_xml) },
        };
    }
}

/// `CT_RPr` — Run properties.
#[derive(Debug, PartialEq)]
pub struct CT_RPr {
    /// Character style ID (rStyle)
    pub style_id: Option<String>,
    /// Font name for ASCII range (rFonts/@w:ascii)
    pub font_ascii: Option<String>,
    /// Font name for high-ANSI range (rFonts/@w:hAnsi)
    pub font_hansi: Option<String>,
    /// Font name for East Asian text (rFonts/@w:eastAsia)
    pub font_east_asia: Option<String>,
    /// Font name for complex script (rFonts/@w:cs)
    pub font_cs: Option<String>,
    /// Theme font for ASCII range (rFonts/@w:asciiTheme), e.g. "minorHAnsi"
    pub font_ascii_theme: Option<String>,
    /// Theme font for hAnsi range (rFonts/@w:hAnsiTheme)
    pub font_hansi_theme: Option<String>,
    /// Bold (b)
    pub bold: Option<bool>,
    /// Bold complex script (bCs)
    pub bold_cs: Option<bool>,
    /// Italic (i)
    pub italic: Option<bool>,
    /// Italic complex script (iCs)
    pub italic_cs: Option<bool>,
    /// Underline type (u)
    pub underline: Option<ST_Underline>,
    /// Strikethrough (strike)
    pub strike: Option<bool>,
    /// Double strikethrough (dstrike)
    pub dstrike: Option<bool>,
    /// Font size in half-points (sz)
    pub sz: Option<HalfPoint>,
    /// Complex-script font size in half-points (szCs)
    pub sz_cs: Option<HalfPoint>,
    /// Text color as hex string, e.g. "FF0000" (color/@w:val)
    pub color: Option<String>,
    /// Color theme reference (color/@w:themeColor)
    pub color_theme: Option<String>,
    /// Highlight color (highlight)
    pub highlight: Option<ST_HighlightColor>,
    /// All caps (caps)
    pub caps: Option<bool>,
    /// Small caps (smallCaps)
    pub small_caps: Option<bool>,
    /// Superscript/subscript (vertAlign)
    pub vert_align: Option<String>,
    /// Character spacing in twips (spacing/@w:val)
    pub spacing: Option<Twips>,
    /// Character width scale in percent (w/@w:val)
    pub width_scale: Option<u32>,
    /// Text position (raised/lowered) in half-points (position/@w:val)
    pub position: Option<i32>,
    /// Run shading (shd)
    pub shading: Option<CT_Shd>,
    /// Vanish/hidden text (vanish)
    pub vanish: Option<bool>,
    /// Kerning threshold in half-points (kern/@w:val).
    pub kern: Option<u32>,
    /// Ligatures (w14:ligatures/@w14:val): "none", "standard", "all", etc.
    pub ligatures: Option<String>,
    /// Proofing language (lang/@w:val), e.g. "en-US", "fr-FR".
    pub lang: Option<String>,
    /// Formatting-revision mark (rPrChange): author/date + previous run props.
    pub rpr_change: Option<Box<RPrChange>>,
    /// Extra raw XML for w14 effects (shadow, glow, outline, reflection, textFill)
    pub extra_xml: Option<Vec<Vec<u8>>>,
}

/// A run-formatting revision (`w:rPrChange`): who/when, plus the previous props.
#[derive(Debug, Default, PartialEq)]
pub struct RPrChange {
    pub author: String,
    pub date: String,
    /// The run properties as they were before this change.
    pub previous: Box<CT_RPr>,
}

/// The properties that result from laying `other` over `base`: every field
/// that `other` sets replaces the one in `base`; the remaining fields keep
/// `base`'s value.
pub open spec fn rpr_merged(base: CT_RPr, other: CT_RPr) -> CT_RPr {
    CT_RPr {
        style_id: overlay(base.style_id, other.style_id),
        font_ascii: overlay(base.font_ascii, other.font_ascii),
        font_hansi: overlay(base.font_hansi, other.font_hansi),
        font_east_asia: overlay(base.font_east_asia, other.font_east_asia),
        font_cs: overlay(base.font_cs, other.font_cs),
        font_ascii_theme: overlay(base.font_ascii_theme, other.font_ascii_theme),
        font_hansi_theme: overlay(base.font_hansi_theme, other.font_hansi_theme),
        bold: overlay(base.bold, other.bold),
        bold_cs: overlay(base.bold_cs, other.bold_cs),
        italic: overlay(base.italic, other.italic),
        italic_cs: overlay(base.italic_cs, other.italic_cs),
        underline: overlay(base.underline, other.underline),
        strike: overlay(base.strike, other.strike),
        dstrike: overlay(base.dstrike, other.dstrike),
        sz: overlay(base.sz, other.sz),
        sz_cs: overlay(base.sz_cs, other.sz_cs),
        color: overlay(base.color, other.color),
        color_theme: overlay(base.color_theme, other.color_theme),
        highlight: overlay(base.highlight, other.highlight),
        caps: overlay(base.caps, other.caps),
        small_caps: overlay(base.small_caps, other.small_caps),
        vert_align: overlay(base.vert_align, other.vert_align),
        spacing: overlay(base.spacing, other.spacing),
        width_scale: overlay(base.width_scale, other.width_scale),
        position: overlay(base.position, other.position),
        shading: overlay(base.shading, other.shading),
        vanish: overlay(base.vanish, other.vanish),
        kern: overlay(base.kern, other.kern),
        ligatures: overlay(base.ligatures, other.ligatures),
        lang: overlay(base.lang, other.lang),
        rpr_change: overlay(base.rpr_change, other.rpr_change),
        extra_xml: overlay(base.extra_xml, other.extra_xml),
    }
}

/// Whether no run property is set.
pub open spec fn rpr_is_empty(p: CT_RPr) -> bool {
    p.style_id is None
            && p.font_ascii is None
            && p.font_hansi is None
            && p.font_east_asia is None
            && p.font_cs is None
            && p.font_ascii_theme is None
            && p.font_hansi_theme is None
            && p.bold is None
            && p.bold_cs is None
            && p.italic is None
            && p.italic_cs is None
            && p.underline is None
            && p.strike is None
            && p.dstrike is None
            && p.sz is None
            && p.sz_cs is None
            && p.color is None
            && p.color_theme is None
            && p.highlight is None
            && p.caps is None
            && p.small_caps is None
            && p.vert_align is None
            && p.spacing is None
            && p.width_scale is None
            && p.position is None
            && p.shading is None
            && p.vanish is None
            && p.kern is None
            && p.ligatures is None
            && p.lang is None
            && p.rpr_change is None
            && p.extra_xml is None
}

/// Run properties with nothing set.
pub open spec fn rpr_none() -> CT_RPr {
    CT_RPr {
        style_id: None,
        font_ascii: None,
        font_hansi: None,
        font_east_asia: None,
        font_cs: None,
        font_ascii_theme: None,
        font_hansi_theme: None,
        bold: None,
        bold_cs: None,
        italic: None,
        italic_cs: None,
        underline: None,
        strike: None,
        dstrike: None,
        sz: None,
        sz_cs: None,
        color: None,
        color_theme: None,
        highlight: None,
        caps: None,
        small_caps: None,
        vert_align: None,
        spacing: None,
        width_scale: None,
        position: None,
        shading: None,
        vanish: None,
        kern: None,
        ligatures: None,
        lang: None,
        rpr_change: None,
        extra_xml: None,
    }
}

impl Default for CT_RPr {
    fn default() -> (r: Self)
        ensures
            rpr_is_empty(r),
            r == rpr_none(),
    {
        CT_RPr {
            style_id: None,
            font_ascii: None,
            font_hansi: None,
            font_east_asia: None,
            font_cs: None,
            font_ascii_theme: None,
            font_hansi_theme: None,
            bold: None,
            bold_cs: None,
            italic: None,
            italic_cs: None,
            underline: None,
            strike: None,
            dstrike: None,
            sz: None,
            sz_cs: None,
            color: None,
            color_theme: None,
            highlight: None,
            caps: None,
            small_caps: None,
            vert_align: None,
            spacing: None,
            width_scale: None,
            position: None,
            shading: None,
            vanish: None,
            kern: None,
            ligatures: None,
            lang: None,
            rpr_change: None,
            extra_xml: None,
        }
    }
}

impl CT_RPr {
    /// Whether no property is set (nothing to serialize).
    pub fn is_empty(&self) -> (r: bool)
        ensures
            r == rpr_is_empty(*self),
    {
        self.style_id.is_none()
            && self.font_ascii.is_none()
            && self.font_hansi.is_none()
            && self.font_east_asia.is_none()
            && self.font_cs.is_none()
            && self.font_ascii_theme.is_none()
            && self.font_hansi_theme.is_none()
            && self.bold.is_none()
            && self.bold_cs.is_none()
            && self.italic.is_none()
            && self.italic_cs.is_none()
            && self.underline.is_none()
            && self.strike.is_none()
            && self.dstrike.is_none()
            && self.sz.is_none()
            && self.sz_cs.is_none()
            && self.color.is_none()
            && self.color_theme.is_none()
            && self.highlight.is_none()
            && self.caps.is_none()
            && self.small_caps.is_none()
            && self.vert_align.is_none()
            && self.spacing.is_none()
            && self.width_scale.is_none()
            && self.position.is_none()
            && self.shading.is_none()
            && self.vanish.is_none()
            && self.kern.is_none()
            && self.ligatures.is_none()
            && self.lang.is_none()
            && self.rpr_change.is_none()
            && self.extra_xml.is_none()
    }

    /// Merge another CT_RPr into this one: every field that `other` sets
    /// overrides (as a copy); the others are kept. Used for style
    /// inheritance.
    #[verifier::rlimit(50)]
    pub fn merge_from(&mut self, other: &CT_RPr)
        ensures
            rpr_same(*final(self), rpr_merged(*old(self), *other)),
    {
        *self = CT_RPr {
            style_id: overlay_string(&self.style_id, &other.style_id),
            font_ascii: overlay_string(&self.font_ascii, &other.font_ascii),
            font_hansi: overlay_string(&self.font_hansi, &other.font_hansi),
            font_east_asia: overlay_string(&self.font_east_asia, &other.font_east_asia),
            font_cs: overlay_string(&self.font_cs, &other.font_cs),
            font_ascii_theme: overlay_string(&self.font_ascii_theme, &other.font_ascii_theme),
            font_hansi_theme: overlay_string(&self.font_hansi_theme, &other.font_hansi_theme),
            bold: overlay_copy(self.bold, other.bold),
            bold_cs: overlay_copy(self.bold_cs, other.bold_cs),
            italic: overlay_copy(self.italic, other.italic),
            italic_cs: overlay_copy(self.italic_cs, other.italic_cs),
            underline: overlay_copy(self.underline, other.underline),
            strike: overlay_copy(self.strike, other.strike),
            dstrike: overlay_copy(self.dstrike, other.dstrike),
            sz: overlay_copy(self.sz, other.sz),
            sz_cs: overlay_copy(self.sz_cs, other.sz_cs),
            color: overlay_string(&self.color, &other.color),
            color_theme: overlay_string(&self.color_theme, &other.color_theme),
            highlight: overlay_copy(self.highlight, other.highlight),
            caps: overlay_copy(self.caps, other.caps),
            small_caps: overlay_copy(self.small_caps, other.small_caps),
            vert_align: overlay_string(&self.vert_align, &other.vert_align),
            spacing: overlay_copy(self.spacing, other.spacing),
            width_scale: overlay_copy(self.width_scale, other.width_scale),
            position: overlay_copy(self.position, other.position),
            shading: if other.shading.is_some() { clone_opt_shd(&other.shading) } else { clone_opt_shd(&self.shading) },
            vanish: overlay_copy(self.vanish, other.vanish),
            kern: overlay_copy(self.kern, other.kern),
            ligatures: overlay_string(&self.ligatures, &other.ligatures),
            lang: overlay_string(&self.lang, &other.lang),
            rpr_change: if other.rpr_change.is_some() {
                clone_rpr_change(&other.rpr_change)
            } else {
                clone_rpr_change(&self.rpr_change)
            },
            extra_xml: if other.extra_xml.is_some() { clone_raws(&other.extra_xml) } else { clone_raws(&self.extra_xml) },
        };
    }
}

impl Clone for CT_PPr {
    /// A copy: every property, the revision mark and the raw XML.
    fn clone(&self) -> (r: Self)
        ensures
            r.same_formatting(*self),
            ppr_same(r, *self),
        decreases self, 1nat,
    {
        CT_PPr {
            style_id: clone_opt_string(&self.style_id),
            jc: self.jc,
            space_before: self.space_before,
            space_after: self.space_after,
            line_spacing: self.line_spacing,
            line_rule: clone_opt_string(&self.line_rule),
            before_autospacing: self.before_autospacing,
            after_autospacing: self.after_autospacing,
            ind_left: self.ind_left,
            ind_right: self.ind_right,
            ind_first_line: self.ind_first_line,
            ind_hanging: self.ind_hanging,
            keep_next: self.keep_next,
            keep_lines: self.keep_lines,
            page_break_before: self.page_break_before,
            widow_control: self.widow_control,
            suppress_auto_hyphens: self.suppress_auto_hyphens,
            outline_lvl: self.outline_lvl,
            borders: match &self.borders { Some(b) => Some(b.duplicate()), None => None },
            tabs: match &self.tabs { Some(t) => Some(t.duplicate()), None => None },
            shading: clone_opt_shd(&self.shading),
            rpr: clone_opt_rpr(&self.rpr),
            num_ilvl: self.num_ilvl,
            num_id: self.num_id,
            sect_pr: clone_sect_pr(&self.sect_pr),
            drop_cap_lines: self.drop_cap_lines,
            ppr_change: clone_ppr_change(&self.ppr_change),
            extra_xml: clone_raws(&self.extra_xml),
        }
    }
}

impl CT_PPr {
    /// Whether two property sets agree on every typed property (the raw XML,
    /// revision marks and section break are not compared).
    pub open spec fn same_formatting(self, other: Self) -> bool {
        &&& self.style_id == other.style_id
        &&& self.jc == other.jc
        &&& self.space_before == other.space_before
        &&& self.space_after == other.space_after
        &&& self.line_spacing == other.line_spacing
        &&& self.line_rule == other.line_rule
        &&& self.before_autospacing == other.before_autospacing
        &&& self.after_autospacing == other.after_autospacing
        &&& self.ind_left == other.ind_left
        &&& self.ind_right == other.ind_right
        &&& self.ind_first_line == other.ind_first_line
        &&& self.ind_hanging == other.ind_hanging
        &&& self.keep_next == other.keep_next
        &&& self.keep_lines == other.keep_lines
        &&& self.page_break_before == other.page_break_before
        &&& self.widow_control == other.widow_control
        &&& self.suppress_auto_hyphens == other.suppress_auto_hyphens
        &&& self.outline_lvl == other.outline_lvl
        &&& self.borders == other.borders
        &&& tabs_eq(self.tabs, other.tabs)
        &&& self.shading == other.shading
        &&& self.num_ilvl == other.num_ilvl
        &&& self.num_id == other.num_id
        &&& self.drop_cap_lines == other.drop_cap_lines
        &&& (other.rpr matches Some(x) ==> self.rpr matches Some(y) && y.same_formatting(x))
        &&& (other.rpr is None ==> self.rpr is None)
    }
}

impl Clone for CT_RPr {
    /// A copy: every property, the revision mark and the raw XML.
    fn clone(&self) -> (r: Self)
        ensures
            r.same_formatting(*self),
            rpr_same(r, *self),
        decreases self, 1nat,
    {
        CT_RPr {
            style_id: clone_opt_string(&self.style_id),
            font_ascii: clone_opt_string(&self.font_ascii),
            font_hansi: clone_opt_string(&self.font_hansi),
            font_east_asia: clone_opt_string(&self.font_east_asia),
            font_cs: clone_opt_string(&self.font_cs),
            font_ascii_theme: clone_opt_string(&self.font_ascii_theme),
            font_hansi_theme: clone_opt_string(&self.font_hansi_theme),
            bold: self.bold,
            bold_cs: self.bold_cs,
            italic: self.italic,
            italic_cs: self.italic_cs,
            underline: self.underline,
            strike: self.strike,
            dstrike: self.dstrike,
            sz: self.sz,
            sz_cs: self.sz_cs,
            color: clone_opt_string(&self.color),
            color_theme: clone_opt_string(&self.color_theme),
            highlight: self.highlight,
            caps: self.caps,
            small_caps: self.small_caps,
            vert_align: clone_opt_string(&self.vert_align),
            spacing: self.spacing,
            width_scale: self.width_scale,
            position: self.position,
            shading: clone_opt_shd(&self.shading),
            vanish: self.vanish,
            kern: self.kern,
            ligatures: clone_opt_string(&self.ligatures),
            lang: clone_opt_string(&self.lang),
            rpr_change: clone_rpr_change(&self.rpr_change),
            extra_xml: clone_raws(&self.extra_xml),
        }
    }
}

impl CT_RPr {
    /// Whether two property sets agree on every typed property (the raw XML,
    /// revision marks and section break are not compared).
    pub open spec fn same_formatting(self, other: Self) -> bool {
        &&& self.style_id == other.style_id
        &&& self.font_ascii == other.font_ascii
        &&& self.font_hansi == other.font_hansi
        &&& self.font_east_asia == other.font_east_asia
        &&& self.font_cs == other.font_cs
        &&& self.font_ascii_theme == other.font_ascii_theme
        &&& self.font_hansi_theme == other.font_hansi_theme
        &&& self.bold == other.bold
        &&& self.bold_cs == other.bold_cs
        &&& self.italic == other.italic
        &&& self.italic_cs == other.italic_cs
        &&& self.underline == other.underline
        &&& self.strike == other.strike
        &&& self.dstrike == other.dstrike
        &&& self.sz == other.sz
        &&& self.sz_cs == other.sz_cs
        &&& self.color == other.color
        &&& self.color_theme == other.color_theme
        &&& self.highlight == other.highlight
        &&& self.caps == other.caps
        &&& self.small_caps == other.small_caps
        &&& self.vert_align == other.vert_align
        &&& self.spacing == other.spacing
        &&& self.width_scale == other.width_scale
        &&& self.position == other.position
        &&& self.shading == other.shading
        &&& self.vanish == other.vanish
        &&& self.kern == other.kern
        &&& self.ligatures == other.ligatures
        &&& self.lang == other.lang
    }
}

} // verus!

verus! {

/// Overlaying is associative.
pub proof fn lemma_overlay_assoc<T>(a: Option<T>, b: Option<T>, c: Option<T>)
    ensures
        overlay(overlay(a, b), c) == overlay(a, overlay(b, c)),
{
}

/// Laying paragraph properties that set nothing over `base` leaves `base` as it is.
pub proof fn lemma_ppr_merge_empty(base: CT_PPr, e: CT_PPr)
    requires
        ppr_is_empty(e),
    ensures
        ppr_merged(base, e) == base,
{
}

/// Laying the same paragraph properties over twice is the same as once.
pub proof fn lemma_ppr_merge_idempotent(base: CT_PPr, o: CT_PPr)
    ensures
        ppr_merged(ppr_merged(base, o), o) == ppr_merged(base, o),
{
}

/// Laying `b` then `c` over `a` is the same as laying over `a` the result of
/// laying `c` over `b`: a style chain can be applied one style at a time.
pub proof fn lemma_ppr_merge_assoc(a: CT_PPr, b: CT_PPr, c: CT_PPr)
    ensures
        ppr_merged(ppr_merged(a, b), c) == ppr_merged(a, ppr_merged(b, c)),
{
    lemma_overlay_assoc(a.style_id, b.style_id, c.style_id);
    lemma_overlay_assoc(a.jc, b.jc, c.jc);
    lemma_overlay_assoc(a.space_before, b.space_before, c.space_before);
    lemma_overlay_assoc(a.space_after, b.space_after, c.space_after);
    lemma_overlay_assoc(a.line_spacing, b.line_spacing, c.line_spacing);
    lemma_overlay_assoc(a.line_rule, b.line_rule, c.line_rule);
    lemma_overlay_assoc(a.before_autospacing, b.before_autospacing, c.before_autospacing);
    lemma_overlay_assoc(a.after_autospacing, b.after_autospacing, c.after_autospacing);
    lemma_overlay_assoc(a.ind_left, b.ind_left, c.ind_left);
    lemma_overlay_assoc(a.ind_right, b.ind_right, c.ind_right);
    lemma_overlay_assoc(a.ind_first_line, b.ind_first_line, c.ind_first_line);
    lemma_overlay_assoc(a.ind_hanging, b.ind_hanging, c.ind_hanging);
    lemma_overlay_assoc(a.keep_next, b.keep_next, c.keep_next);
    lemma_overlay_assoc(a.keep_lines, b.keep_lines, c.keep_lines);
    lemma_overlay_assoc(a.page_break_before, b.page_break_before, c.page_break_before);
    lemma_overlay_assoc(a.widow_control, b.widow_control, c.widow_control);
    lemma_overlay_assoc(a.suppress_auto_hyphens, b.suppress_auto_hyphens, c.suppress_auto_hyphens);
    lemma_overlay_assoc(a.outline_lvl, b.outline_lvl, c.outline_lvl);
    lemma_overlay_assoc(a.borders, b.borders, c.borders);
    lemma_overlay_assoc(a.tabs, b.tabs, c.tabs);
    lemma_overlay_assoc(a.shading, b.shading, c.shading);
    lemma_overlay_assoc(a.num_ilvl, b.num_ilvl, c.num_ilvl);
    lemma_overlay_assoc(a.num_id, b.num_id, c.num_id);
    let l = ppr_merged(ppr_merged(a, b), c);
    let r = ppr_merged(a, ppr_merged(b, c));
    assert(l == r);
}

/// Laying run properties that set nothing over `base` leaves `base` as it is.
pub proof fn lemma_rpr_merge_empty(base: CT_RPr, e: CT_RPr)
    requires
        rpr_is_empty(e),
    ensures
        rpr_merged(base, e) == base,
{
}

/// Laying the same run properties over twice is the same as once.
pub proof fn lemma_rpr_merge_idempotent(base: CT_RPr, o: CT_RPr)
    ensures
        rpr_merged(rpr_merged(base, o), o) == rpr_merged(base, o),
{
}

/// Laying `b` then `c` over `a` equals laying over `a` the overlay of `c` on `b`.
pub proof fn lemma_rpr_merge_assoc(a: CT_RPr, b: CT_RPr, c: CT_RPr)
    ensures
        rpr_merged(rpr_merged(a, b), c) == rpr_merged(a, rpr_merged(b, c)),
{
    lemma_overlay_assoc(a.style_id, b.style_id, c.style_id);
    lemma_overlay_assoc(a.font_ascii, b.font_ascii, c.font_ascii);
    lemma_overlay_assoc(a.font_hansi, b.font_hansi, c.font_hansi);
    lemma_overlay_assoc(a.font_east_asia, b.font_east_asia, c.font_east_asia);
    lemma_overlay_assoc(a.font_cs, b.font_cs, c.font_cs);
    lemma_overlay_assoc(a.font_ascii_theme, b.font_ascii_theme, c.font_ascii_theme);
    lemma_overlay_assoc(a.font_hansi_theme, b.font_hansi_theme, c.font_hansi_theme);
    lemma_overlay_assoc(a.bold, b.bold, c.bold);
    lemma_overlay_assoc(a.bold_cs, b.bold_cs, c.bold_cs);
    lemma_overlay_assoc(a.italic, b.italic, c.italic);
    lemma_overlay_assoc(a.italic_cs, b.italic_cs, c.italic_cs);
    lemma_overlay_assoc(a.underline, b.underline, c.underline);
    lemma_overlay_assoc(a.strike, b.strike, c.strike);
    lemma_overlay_assoc(a.dstrike, b.dstrike, c.dstrike);
    lemma_overlay_assoc(a.sz, b.sz, c.sz);
    lemma_overlay_assoc(a.sz_cs, b.sz_cs, c.sz_cs);
    lemma_overlay_assoc(a.color, b.color, c.color);
    lemma_overlay_assoc(a.color_theme, b.color_theme, c.color_theme);
    lemma_overlay_assoc(a.highlight, b.highlight, c.highlight);
    lemma_overlay_assoc(a.caps, b.caps, c.caps);
    lemma_overlay_assoc(a.small_caps, b.small_caps, c.small_caps);
    lemma_overlay_assoc(a.vert_align, b.vert_align, c.vert_align);
    lemma_overlay_assoc(a.spacing, b.spacing, c.spacing);
    lemma_overlay_assoc(a.width_scale, b.width_scale, c.width_scale);
    lemma_overlay_assoc(a.position, b.position, c.position);
    lemma_overlay_assoc(a.shading, b.shading, c.shading);
    lemma_overlay_assoc(a.vanish, b.vanish, c.vanish);
    lemma_overlay_assoc(a.lang, b.lang, c.lang);
    let l = rpr_merged(rpr_merged(a, b), c);
    let r = rpr_merged(a, rpr_merged(b, c));
    assert(l == r);
}

/// The attributes of a shading: pattern, then color and fill where set.
pub open spec fn shd_attrs(s: CT_Shd) -> Seq<(Seq<char>, Seq<char>)> {
    seq![("w:val"@, s.val@)] + opt_attr("w:color"@, s.color) + opt_attr("w:fill"@, s.fill)
}

/// A shading, if there is one, as an empty element named `tag`.
pub open spec fn opt_shd_xml(tag: Seq<char>, s: Option<CT_Shd>) -> Seq<u8> {
    match s {
        Some(x) => empty_tag_attrs(tag, shd_attrs(x)),
        None => Seq::empty(),
    }
}

impl CT_Shd {
    /// Append this shading as an empty element named `tag`.
    pub fn write_xml(&self, out: &mut Vec<u8>, tag: &str)
        ensures
            final(out)@ == old(out)@ + empty_tag_attrs(tag@, shd_attrs(*self)),
    {
        let mut attrs: Vec<(String, String)> = Vec::new();
        push_attr(&mut attrs, "w:val", self.val.clone());
        push_opt_attr(&mut attrs, "w:color", &self.color);
        push_opt_attr(&mut attrs, "w:fill", &self.fill);
        proof { assert(attr_views(attrs@) =~= shd_attrs(*self)); }
        emit_empty_attrs(out, tag, attrs);
    }
}

/// Append a shading named `tag` if there is one.
fn write_opt_shd(out: &mut Vec<u8>, tag: &str, s: &Option<CT_Shd>)
    ensures
        final(out)@ == old(out)@ + opt_shd_xml(tag@, *s),
{
    match s {
        Some(x) => x.write_xml(out, tag),
        None => {
            proof { assert(out@ =~= old(out)@ + opt_shd_xml(tag@, *s)); }
        },
    }
}

/// The number of a half-point size, if it is set.
pub open spec fn half_points_value(h: Option<HalfPoint>) -> Option<u32> {
    match h {
        Some(x) => Some(x.0),
        None => None,
    }
}

/// The number of a half-point size, if it is set.
fn half_points_opt(h: Option<HalfPoint>) -> (r: Option<u32>)
    ensures
        r == half_points_value(h),
{
    match h {
        Some(x) => Some(x.0),
        None => None,
    }
}

/// Whether any font is set.
pub open spec fn has_fonts(r: CT_RPr) -> bool {
    r.font_ascii is Some || r.font_hansi is Some || r.font_east_asia is Some || r.font_cs is Some
        || r.font_ascii_theme is Some || r.font_hansi_theme is Some
}

/// The font attributes that are set.
pub open spec fn fonts_attrs(r: CT_RPr) -> Seq<(Seq<char>, Seq<char>)> {
    opt_attr("w:ascii"@, r.font_ascii) + opt_attr("w:hAnsi"@, r.font_hansi) + opt_attr("w:eastAsia"@, r.font_east_asia)
        + opt_attr("w:cs"@, r.font_cs) + opt_attr("w:asciiTheme"@, r.font_ascii_theme)
        + opt_attr("w:hAnsiTheme"@, r.font_hansi_theme)
}

/// The run fonts element, if a font is set.
pub open spec fn fonts_xml(r: CT_RPr) -> Seq<u8> {
    if has_fonts(r) {
        empty_tag_attrs("w:rFonts"@, fonts_attrs(r))
    } else {
        Seq::empty()
    }
}

/// The color element, if a color or theme color is set: the color (black
/// when only a theme color is set), then the theme color.
pub open spec fn color_xml(r: CT_RPr) -> Seq<u8> {
    if r.color is Some || r.color_theme is Some {
        empty_tag_attrs(
            "w:color"@,
            seq![("w:val"@, match r.color { Some(c) => c@, None => "000000"@ })]
                + opt_attr("w:themeColor"@, r.color_theme),
        )
    } else {
        Seq::empty()
    }
}

/// The underline element, if set.
pub open spec fn underline_xml(u: Option<ST_Underline>) -> Seq<u8> {
    match u {
        Some(x) => empty_tag_attr("w:u"@, "w:val"@, underline_name(x)),
        None => Seq::empty(),
    }
}

/// The highlight element, if set.
pub open spec fn highlight_xml(h: Option<ST_HighlightColor>) -> Seq<u8> {
    match h {
        Some(x) => empty_tag_attr("w:highlight"@, "w:val"@, highlight_name(x)),
        None => Seq::empty(),
    }
}

/// The ligatures element (Word 2010 namespace), if set.
pub open spec fn ligatures_xml(l: Option<String>) -> Seq<u8> {
    match l {
        Some(x) => empty_tag_attr("w14:ligatures"@, "w14:val"@, x@),
        None => Seq::empty(),
    }
}

/// Style, fonts and toggles of run properties.
pub open spec fn rpr_head(r: CT_RPr) -> Seq<u8> {
    opt_val_xml("w:rStyle"@, r.style_id) + fonts_xml(r) + opt_toggle_xml("w:b"@, r.bold)
        + opt_toggle_xml("w:bCs"@, r.bold_cs) + opt_toggle_xml("w:i"@, r.italic)
        + opt_toggle_xml("w:iCs"@, r.italic_cs) + opt_toggle_xml("w:caps"@, r.caps)
        + opt_toggle_xml("w:smallCaps"@, r.small_caps) + opt_toggle_xml("w:vanish"@, r.vanish)
        + opt_toggle_xml("w:strike"@, r.strike) + opt_toggle_xml("w:dstrike"@, r.dstrike)
}

/// Color, spacing, scale, position and sizes of run properties.
pub open spec fn rpr_mid(r: CT_RPr) -> Seq<u8> {
    color_xml(r) + opt_val_i32_xml("w:spacing"@, twips_value(r.spacing)) + opt_val_u32_xml("w:w"@, r.width_scale)
        + opt_val_i32_xml("w:position"@, r.position) + opt_val_u32_xml("w:sz"@, half_points_value(r.sz))
        + opt_val_u32_xml("w:szCs"@, half_points_value(r.sz_cs))
}

/// Underline, highlight, vertical alignment, shading, kerning, ligatures,
/// language and the preserved extra elements of run properties.
pub open spec fn rpr_tail(r: CT_RPr) -> Seq<u8> {
    underline_xml(r.underline) + highlight_xml(r.highlight) + opt_val_xml("w:vertAlign"@, r.vert_align)
        + opt_shd_xml("w:shd"@, r.shading) + opt_val_u32_xml("w:kern"@, r.kern) + ligatures_xml(r.ligatures)
        + opt_val_xml("w:lang"@, r.lang) + extra_bytes(r.extra_xml)
}

/// The XML of run properties: nothing when none is set, else a `w:rPr`
/// element with the properties in a fixed order and, last, the revision
/// mark holding the previous properties (an empty `w:rPr` when those are
/// empty).
pub open spec fn rpr_xml(r: CT_RPr) -> Seq<u8>
    decreases r,
{
    if rpr_is_empty(r) {
        Seq::empty()
    } else {
        element(
            "w:rPr"@,
            rpr_head(r) + rpr_mid(r) + rpr_tail(r) + match r.rpr_change {
                Some(ch) => element_attrs(
                    "w:rPrChange"@,
                    seq![("w:author"@, ch.author@), ("w:date"@, ch.date@)],
                    if rpr_is_empty(*ch.previous) {
                        empty_tag("w:rPr"@)
                    } else {
                        rpr_xml(*ch.previous)
                    },
                ),
                None => Seq::empty(),
            },
        )
    }
}

/// Append the style, fonts and toggles of run properties.
fn write_rpr_head(out: &mut Vec<u8>, r: &CT_RPr)
    ensures
        final(out)@ == old(out)@ + rpr_head(*r),
{
    let mut b: Vec<u8> = Vec::new();
    write_opt_val(&mut b, "w:rStyle", &r.style_id);
    proof { assert(b@ =~= opt_val_xml("w:rStyle"@, r.style_id)); }
    if r.font_ascii.is_some() || r.font_hansi.is_some() || r.font_east_asia.is_some() || r.font_cs.is_some()
        || r.font_ascii_theme.is_some() || r.font_hansi_theme.is_some() {
        let mut attrs: Vec<(String, String)> = Vec::new();
        push_opt_attr(&mut attrs, "w:ascii", &r.font_ascii);
        proof { assert(attr_views(attrs@) =~= opt_attr("w:ascii"@, r.font_ascii)); }
        push_opt_attr(&mut attrs, "w:hAnsi", &r.font_hansi);
        push_opt_attr(&mut attrs, "w:eastAsia", &r.font_east_asia);
        push_opt_attr(&mut attrs, "w:cs", &r.font_cs);
        push_opt_attr(&mut attrs, "w:asciiTheme", &r.font_ascii_theme);
        push_opt_attr(&mut attrs, "w:hAnsiTheme", &r.font_hansi_theme);
        emit_empty_attrs(&mut b, "w:rFonts", attrs);
    } else {
        proof { assert(b@ =~= b@ + fonts_xml(*r)); }
    }
    write_opt_toggle(&mut b, "w:b", r.bold);
    write_opt_toggle(&mut b, "w:bCs", r.bold_cs);
    write_opt_toggle(&mut b, "w:i", r.italic);
    write_opt_toggle(&mut b, "w:iCs", r.italic_cs);
    write_opt_toggle(&mut b, "w:caps", r.caps);
    write_opt_toggle(&mut b, "w:smallCaps", r.small_caps);
    write_opt_toggle(&mut b, "w:vanish", r.vanish);
    write_opt_toggle(&mut b, "w:strike", r.strike);
    write_opt_toggle(&mut b, "w:dstrike", r.dstrike);
    crate::xml::emit_raw(out, &b);
}

/// Append the color, spacing, scale, position and sizes of run properties.
fn write_rpr_mid(out: &mut Vec<u8>, r: &CT_RPr)
    ensures
        final(out)@ == old(out)@ + rpr_mid(*r),
{
    let mut b: Vec<u8> = Vec::new();
    if r.color.is_some() || r.color_theme.is_some() {
        let mut attrs: Vec<(String, String)> = Vec::new();
        let c = match &r.color {
            Some(c) => c.clone(),
            None => crate::chars::to_owned_string("000000"),
        };
        let ghost cv = c@;
        push_attr(&mut attrs, "w:val", c);
        proof { assert(attr_views(attrs@) =~= seq![("w:val"@, cv)]); }
        push_opt_attr(&mut attrs, "w:themeColor", &r.color_theme);
        proof {
            assert(attr_views(attrs@) =~= seq![("w:val"@, match r.color { Some(c) => c@, None => "000000"@ })]
                + opt_attr("w:themeColor"@, r.color_theme));
        }
        emit_empty_attrs(&mut b, "w:color", attrs);
    }
    proof { assert(b@ =~= color_xml(*r)); }
    write_opt_val_i32(&mut b, "w:spacing", twips_opt(r.spacing));
    write_opt_val_u32(&mut b, "w:w", r.width_scale);
    write_opt_val_i32(&mut b, "w:position", r.position);
    write_opt_val_u32(&mut b, "w:sz", half_points_opt(r.sz));
    write_opt_val_u32(&mut b, "w:szCs", half_points_opt(r.sz_cs));
    crate::xml::emit_raw(out, &b);
}

/// Append the rest of the run properties, up to the preserved extra
/// elements.
fn write_rpr_tail(out: &mut Vec<u8>, r: &CT_RPr)
    ensures
        final(out)@ == old(out)@ + rpr_tail(*r),
{
    let mut b: Vec<u8> = Vec::new();
    match r.underline {
        Some(u) => emit_empty_attr(&mut b, "w:u", "w:val", u.to_str()),
        None => {},
    }
    proof { assert(b@ =~= underline_xml(r.underline)); }
    match r.highlight {
        Some(h) => emit_empty_attr(&mut b, "w:highlight", "w:val", h.to_str()),
        None => {
            proof { assert(b@ =~= b@ + highlight_xml(r.highlight)); }
        },
    }
    write_opt_val(&mut b, "w:vertAlign", &r.vert_align);
    write_opt_shd(&mut b, "w:shd", &r.shading);
    write_opt_val_u32(&mut b, "w:kern", r.kern);
    match &r.ligatures {
        Some(l) => emit_empty_attr(&mut b, "w14:ligatures", "w14:val", l.as_str()),
        None => {
            proof { assert(b@ =~= b@ + ligatures_xml(r.ligatures)); }
        },
    }
    write_opt_val(&mut b, "w:lang", &r.lang);
    write_extra(&mut b, &r.extra_xml);
    crate::xml::emit_raw(out, &b);
}

impl CT_RPr {
    /// Append these run properties as a `w:rPr` element; nothing when none
    /// is set.
    pub fn to_xml(&self, out: &mut Vec<u8>)
        ensures
            final(out)@ == old(out)@ + rpr_xml(*self),
        decreases self,
    {
        if self.is_empty() {
            proof { assert(out@ =~= old(out)@ + rpr_xml(*self)); }
            return;
        }
        let mut body: Vec<u8> = Vec::new();
        write_rpr_head(&mut body, self);
        proof { assert(body@ =~= rpr_head(*self)); }
        write_rpr_mid(&mut body, self);
        write_rpr_tail(&mut body, self);
        match &self.rpr_change {
            Some(ch) => {
                let mut inner: Vec<u8> = Vec::new();
                if ch.previous.is_empty() {
                    emit_empty(&mut inner, "w:rPr");
                    proof { assert(inner@ =~= empty_tag("w:rPr"@)); }
                } else {
                    ch.previous.to_xml(&mut inner);
                    proof { assert(inner@ =~= rpr_xml(*ch.previous)); }
                }
                let mut attrs: Vec<(String, String)> = Vec::new();
                push_attr(&mut attrs, "w:author", ch.author.clone());
                push_attr(&mut attrs, "w:date", ch.date.clone());
                proof { assert(attr_views(attrs@) =~= seq![("w:author"@, ch.author@), ("w:date"@, ch.date@)]); }
                emit_element_attrs(&mut body, "w:rPrChange", attrs, &inner);
            },
            None => {
                proof { assert(body@ =~= body@ + Seq::<u8>::empty()); }
            },
        }
        emit_element(out, "w:rPr", &body);
    }
}

/// Paragraph borders, if set and not empty.
pub open spec fn opt_pbdr_xml(b: Option<CT_PBdr>) -> Seq<u8> {
    match b {
        Some(x) => if x.top is None && x.bottom is None && x.left is None && x.right is None
            && x.between is None && x.bar is None {
            Seq::empty()
        } else {
            pbdr_xml(x)
        },
        None => Seq::empty(),
    }
}

/// The numbering element, if a level or a numbering id is set.
pub open spec fn num_pr_xml(p: CT_PPr) -> Seq<u8> {
    if p.num_id is Some || p.num_ilvl is Some {
        element("w:numPr"@, opt_val_u32_xml("w:ilvl"@, p.num_ilvl) + opt_val_u32_xml("w:numId"@, p.num_id))
    } else {
        Seq::empty()
    }
}

/// The spacing element, if a distance or an auto-spacing flag is set (the
/// line rule alone writes none).
pub open spec fn spacing_xml(p: CT_PPr) -> Seq<u8> {
    if p.space_before is Some || p.space_after is Some || p.line_spacing is Some
        || p.before_autospacing is Some || p.after_autospacing is Some {
        empty_tag_attrs(
            "w:spacing"@,
            opt_i32_attr("w:before"@, twips_value(p.space_before)) + opt_i32_attr("w:after"@, twips_value(p.space_after))
                + opt_i32_attr("w:line"@, twips_value(p.line_spacing)) + opt_attr("w:lineRule"@, p.line_rule)
                + opt_flag_attr("w:beforeAutospacing"@, p.before_autospacing)
                + opt_flag_attr("w:afterAutospacing"@, p.after_autospacing),
        )
    } else {
        Seq::empty()
    }
}

/// The indentation element, if an indentation is set.
pub open spec fn ind_xml(p: CT_PPr) -> Seq<u8> {
    if p.ind_left is Some || p.ind_right is Some || p.ind_first_line is Some || p.ind_hanging is Some {
        empty_tag_attrs(
            "w:ind"@,
            opt_i32_attr("w:left"@, twips_value(p.ind_left)) + opt_i32_attr("w:right"@, twips_value(p.ind_right))
                + opt_i32_attr("w:firstLine"@, twips_value(p.ind_first_line))
                + opt_i32_attr("w:hanging"@, twips_value(p.ind_hanging)),
        )
    } else {
        Seq::empty()
    }
}

/// The justification element, if set.
pub open spec fn jc_xml(j: Option<ST_Jc>) -> Seq<u8> {
    match j {
        Some(x) => empty_tag_attr("w:jc"@, "w:val"@, jc_name(x)),
        None => Seq::empty(),
    }
}

/// The frame element of a drop cap spanning `lines` lines.
pub open spec fn drop_cap_xml(lines: Option<u32>) -> Seq<u8> {
    match lines {
        Some(n) => empty_tag_attrs(
            "w:framePr"@,
            seq![
                ("w:dropCap"@, "drop"@),
                ("w:lines"@, decimal(n as nat)),
                ("w:wrap"@, "around"@),
                ("w:vAnchor"@, "text"@),
                ("w:hAnchor"@, "text"@),
            ],
        ),
        None => Seq::empty(),
    }
}

/// Style, keep and break toggles, borders, shading and tabs of paragraph
/// properties.
pub open spec fn ppr_head(p: CT_PPr) -> Seq<u8> {
    opt_val_xml("w:pStyle"@, p.style_id) + opt_toggle_xml("w:keepNext"@, p.keep_next)
        + opt_toggle_xml("w:keepLines"@, p.keep_lines) + opt_toggle_xml("w:pageBreakBefore"@, p.page_break_before)
        + opt_toggle_xml("w:widowControl"@, p.widow_control)
        + opt_toggle_xml("w:suppressAutoHyphens"@, p.suppress_auto_hyphens) + opt_pbdr_xml(p.borders)
        + opt_shd_xml("w:shd"@, p.shading) + match p.tabs {
            Some(t) => tabs_xml(t),
            None => Seq::empty(),
        }
}

/// Numbering, spacing, indentation, justification and outline level of
/// paragraph properties.
pub open spec fn ppr_mid(p: CT_PPr) -> Seq<u8> {
    num_pr_xml(p) + spacing_xml(p) + ind_xml(p) + jc_xml(p.jc) + opt_val_u32_xml("w:outlineLvl"@, p.outline_lvl)
}

/// The paragraph mark's run properties, the section break, the drop cap
/// frame and the preserved extra elements of paragraph properties.
pub open spec fn ppr_tail(p: CT_PPr) -> Seq<u8> {
    opt_rpr_xml(p.rpr) + opt_sect_pr_xml(p.sect_pr) + drop_cap_xml(p.drop_cap_lines) + extra_bytes(p.extra_xml)
}

/// Run properties, if there are any.
pub open spec fn opt_rpr_xml(r: Option<CT_RPr>) -> Seq<u8> {
    match r {
        Some(x) => rpr_xml(x),
        None => Seq::empty(),
    }
}

/// Section properties, if there are any.
pub open spec fn opt_sect_pr_xml(s: Option<CT_SectPr>) -> Seq<u8> {
    match s {
        Some(x) => sect_pr_xml(x),
        None => Seq::empty(),
    }
}

/// The XML of paragraph properties: nothing when none is set, else a
/// `w:pPr` element with the properties in a fixed order and, last, the
/// revision mark holding the previous properties (an empty `w:pPr` when
/// those are empty).
pub open spec fn ppr_xml(p: CT_PPr) -> Seq<u8>
    decreases p,
{
    if ppr_is_empty(p) {
        Seq::empty()
    } else {
        element(
            "w:pPr"@,
            ppr_head(p) + ppr_mid(p) + ppr_tail(p) + match p.ppr_change {
                Some(ch) => element_attrs(
                    "w:pPrChange"@,
                    seq![("w:author"@, ch.author@), ("w:date"@, ch.date@)],
                    if ppr_is_empty(*ch.previous) {
                        empty_tag("w:pPr"@)
                    } else {
                        ppr_xml(*ch.previous)
                    },
                ),
                None => Seq::empty(),
            },
        )
    }
}

/// Append the style, toggles, borders, shading and tabs of paragraph
/// properties.
fn write_ppr_head(out: &mut Vec<u8>, p: &CT_PPr)
    ensures
        final(out)@ == old(out)@ + ppr_head(*p),
{
    let mut b: Vec<u8> = Vec::new();
    write_opt_val(&mut b, "w:pStyle", &p.style_id);
    proof { assert(b@ =~= opt_val_xml("w:pStyle"@, p.style_id)); }
    write_opt_toggle(&mut b, "w:keepNext", p.keep_next);
    write_opt_toggle(&mut b, "w:keepLines", p.keep_lines);
    write_opt_toggle(&mut b, "w:pageBreakBefore", p.page_break_before);
    write_opt_toggle(&mut b, "w:widowControl", p.widow_control);
    write_opt_toggle(&mut b, "w:suppressAutoHyphens", p.suppress_auto_hyphens);
    match &p.borders {
        Some(x) => {
            if !x.is_empty() {
                x.to_xml(&mut b);
            } else {
                proof { assert(b@ =~= b@ + opt_pbdr_xml(p.borders)); }
            }
        },
        None => {
            proof { assert(b@ =~= b@ + opt_pbdr_xml(p.borders)); }
        },
    }
    write_opt_shd(&mut b, "w:shd", &p.shading);
    match &p.tabs {
        Some(t) => t.to_xml(&mut b),
        None => {
            proof { assert(b@ =~= b@ + Seq::<u8>::empty()); }
        },
    }
    crate::xml::emit_raw(out, &b);
}

/// Append the numbering, spacing, indentation, justification and outline
/// level of paragraph properties.
fn write_ppr_mid(out: &mut Vec<u8>, p: &CT_PPr)
    ensures
        final(out)@ == old(out)@ + ppr_mid(*p),
{
    let mut b: Vec<u8> = Vec::new();
    if p.num_id.is_some() || p.num_ilvl.is_some() {
        let mut inner: Vec<u8> = Vec::new();
        write_opt_val_u32(&mut inner, "w:ilvl", p.num_ilvl);
        proof { assert(inner@ =~= opt_val_u32_xml("w:ilvl"@, p.num_ilvl)); }
        write_opt_val_u32(&mut inner, "w:numId", p.num_id);
        emit_element(&mut b, "w:numPr", &inner);
    }
    proof { assert(b@ =~= num_pr_xml(*p)); }
    if p.space_before.is_some() || p.space_after.is_some() || p.line_spacing.is_some()
        || p.before_autospacing.is_some() || p.after_autospacing.is_some() {
        let mut attrs: Vec<(String, String)> = Vec::new();
        push_opt_i32_attr(&mut attrs, "w:before", twips_opt(p.space_before));
        proof { assert(attr_views(attrs@) =~= opt_i32_attr("w:before"@, twips_value(p.space_before))); }
        push_opt_i32_attr(&mut attrs, "w:after", twips_opt(p.space_after));
        push_opt_i32_attr(&mut attrs, "w:line", twips_opt(p.line_spacing));
        push_opt_attr(&mut attrs, "w:lineRule", &p.line_rule);
        push_opt_flag_attr(&mut attrs, "w:beforeAutospacing", p.before_autospacing);
        push_opt_flag_attr(&mut attrs, "w:afterAutospacing", p.after_autospacing);
        emit_empty_attrs(&mut b, "w:spacing", attrs);
    } else {
        proof { assert(b@ =~= b@ + spacing_xml(*p)); }
    }
    if p.ind_left.is_some() || p.ind_right.is_some() || p.ind_first_line.is_some() || p.ind_hanging.is_some() {
        let mut attrs: Vec<(String, String)> = Vec::new();
        push_opt_i32_attr(&mut attrs, "w:left", twips_opt(p.ind_left));
        proof { assert(attr_views(attrs@) =~= opt_i32_attr("w:left"@, twips_value(p.ind_left))); }
        push_opt_i32_attr(&mut attrs, "w:right", twips_opt(p.ind_right));
        push_opt_i32_attr(&mut attrs, "w:firstLine", twips_opt(p.ind_first_line));
        push_opt_i32_attr(&mut attrs, "w:hanging", twips_opt(p.ind_hanging));
        emit_empty_attrs(&mut b, "w:ind", attrs);
    } else {
        proof { assert(b@ =~= b@ + ind_xml(*p)); }
    }
    match p.jc {
        Some(j) => emit_empty_attr(&mut b, "w:jc", "w:val", j.to_str()),
        None => {
            proof { assert(b@ =~= b@ + jc_xml(p.jc)); }
        },
    }
    write_opt_val_u32(&mut b, "w:outlineLvl", p.outline_lvl);
    crate::xml::emit_raw(out, &b);
}

/// Append the paragraph mark's run properties, the section break, the drop
/// cap frame and the preserved extra elements.
fn write_ppr_tail(out: &mut Vec<u8>, p: &CT_PPr)
    ensures
        final(out)@ == old(out)@ + ppr_tail(*p),
{
    let mut b: Vec<u8> = Vec::new();
    match &p.rpr {
        Some(r) => r.to_xml(&mut b),
        None => {},
    }
    proof { assert(b@ =~= opt_rpr_xml(p.rpr)); }
    match &p.sect_pr {
        Some(sp) => sp.to_xml(&mut b),
        None => {
            proof { assert(b@ =~= b@ + Seq::<u8>::empty()); }
        },
    }
    match p.drop_cap_lines {
        Some(n) => {
            let mut attrs: Vec<(String, String)> = Vec::new();
            push_attr(&mut attrs, "w:dropCap", crate::chars::to_owned_string("drop"));
            push_attr(&mut attrs, "w:lines", crate::chars::u32_string(n));
            push_attr(&mut attrs, "w:wrap", crate::chars::to_owned_string("around"));
            push_attr(&mut attrs, "w:vAnchor", crate::chars::to_owned_string("text"));
            push_attr(&mut attrs, "w:hAnchor", crate::chars::to_owned_string("text"));
            proof {
                assert(attr_views(attrs@) =~= seq![
                    ("w:dropCap"@, "drop"@),
                    ("w:lines"@, decimal(n as nat)),
                    ("w:wrap"@, "around"@),
                    ("w:vAnchor"@, "text"@),
                    ("w:hAnchor"@, "text"@),
                ]);
            }
            emit_empty_attrs(&mut b, "w:framePr", attrs);
        },
        None => {
            proof { assert(b@ =~= b@ + drop_cap_xml(p.drop_cap_lines)); }
        },
    }
    write_extra(&mut b, &p.extra_xml);
    crate::xml::emit_raw(out, &b);
}

impl CT_PPr {
    /// Append these paragraph properties as a `w:pPr` element; nothing when
    /// none is set.
    pub fn to_xml(&self, out: &mut Vec<u8>)
        ensures
            final(out)@ == old(out)@ + ppr_xml(*self),
        decreases self,
    {
        if self.is_empty() {
            proof { assert(out@ =~= old(out)@ + ppr_xml(*self)); }
            return;
        }
        let mut body: Vec<u8> = Vec::new();
        write_ppr_head(&mut body, self);
        proof { assert(body@ =~= ppr_head(*self)); }
        write_ppr_mid(&mut body, self);
        write_ppr_tail(&mut body, self);
        match &self.ppr_change {
            Some(ch) => {
                let mut inner: Vec<u8> = Vec::new();
                if ch.previous.is_empty() {
                    emit_empty(&mut inner, "w:pPr");
                    proof { assert(inner@ =~= empty_tag("w:pPr"@)); }
                } else {
                    ch.previous.to_xml(&mut inner);
                    proof { assert(inner@ =~= ppr_xml(*ch.previous)); }
                }
                let mut attrs: Vec<(String, String)> = Vec::new();
                push_attr(&mut attrs, "w:author", ch.author.clone());
                push_attr(&mut attrs, "w:date", ch.date.clone());
                proof { assert(attr_views(attrs@) =~= seq![("w:author"@, ch.author@), ("w:date"@, ch.date@)]); }
                emit_element_attrs(&mut body, "w:pPrChange", attrs, &inner);
            },
            None => {
                proof { assert(body@ =~= body@ + Seq::<u8>::empty()); }
            },
        }
        emit_element(out, "w:pPr", &body);
    }
}

/// Run properties write nothing exactly when none is set.
pub proof fn lemma_rpr_xml_empty(r: CT_RPr)
    ensures
        (rpr_xml(r).len() == 0) == rpr_is_empty(r),
{
    if !rpr_is_empty(r) {
        crate::chars::lemma_utf8_len(seq!['<'] + "w:rPr"@ + seq!['>']);
    }
}

/// Paragraph properties write nothing exactly when none is set.
pub proof fn lemma_ppr_xml_empty(p: CT_PPr)
    ensures
        (ppr_xml(p).len() == 0) == ppr_is_empty(p),
{
    if !ppr_is_empty(p) {
        crate::chars::lemma_utf8_len(seq!['<'] + "w:pPr"@ + seq!['>']);
    }
}

} // verus!
