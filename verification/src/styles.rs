//! Style definitions: `CT_Styles`, `CT_Style`, `CT_DocDefaults`, `StyleType`.

use vstd::prelude::*;

use crate::borders::{CT_BorderEdge, CT_PBdr};
use crate::chars::{push_str, str_eq, to_owned_string};
use crate::error::OxmlError;
use crate::properties::{ppr_is_empty, rpr_is_empty, CT_PPr, CT_RPr};
use crate::shared::ST_Border;
use crate::units::{HalfPoint, Twips};

pub mod styles_xml;

verus! {

/// The type of a style.
#[derive(Debug, Clone, Copy, PartialEq, Eq, Structural)]
pub enum StyleType {
    Paragraph,
    Character,
    Table,
    Numbering,
}

/// The attribute value naming each style type.
pub open spec fn style_type_name(t: StyleType) -> Seq<char> {
    match t {
        StyleType::Paragraph => "paragraph"@,
        StyleType::Character => "character"@,
        StyleType::Table => "table"@,
        StyleType::Numbering => "numbering"@,
    }
}

/// The style type an attribute value names, if any.
pub open spec fn style_type_parse(s: Seq<char>) -> Option<StyleType> {
    if s == "paragraph"@ {
        Some(StyleType::Paragraph)
    } else if s == "character"@ {
        Some(StyleType::Character)
    } else if s == "table"@ {
        Some(StyleType::Table)
    } else if s == "numbering"@ {
        Some(StyleType::Numbering)
    } else {
        None
    }
}

/// Parsing the name of a style type gives it back.
pub proof fn lemma_style_type_round_trip(t: StyleType)
    ensures
        style_type_parse(style_type_name(t)) == Some(t),
{
    reveal_strlit("paragraph");
    reveal_strlit("character");
    reveal_strlit("table");
    reveal_strlit("numbering");
    assert("paragraph"@.len() == 9);
    assert("character"@.len() == 9);
    assert("table"@.len() == 5);
    assert("numbering"@.len() == 9);
    assert("paragraph"@[0] == 'p');
    assert("character"@[0] == 'c');
    assert("table"@[0] == 't');
    assert("numbering"@[0] == 'n');
}

impl StyleType {
    /// Parses a style type; any other value is an `InvalidValue` error whose
    /// message names the value.
    pub fn from_str(s: &str) -> (r: Result<Self, OxmlError>)
        ensures
            r matches Ok(t) ==> style_type_parse(s@) == Some(t),
            r is Err ==> style_type_parse(s@) is None,
            r matches Err(e) ==> e matches OxmlError::InvalidValue(m)
                && m@ == "invalid style type: "@ + s@,
    {
        if str_eq(s, "paragraph") {
            Ok(StyleType::Paragraph)
        } else if str_eq(s, "character") {
            Ok(StyleType::Character)
        } else if str_eq(s, "table") {
            Ok(StyleType::Table)
        } else if str_eq(s, "numbering") {
            Ok(StyleType::Numbering)
        } else {
            let mut m = to_owned_string("invalid style type: ");
            push_str(&mut m, s);
            Err(OxmlError::InvalidValue(m))
        }
    }

    /// The attribute value for this style type.
    pub fn to_str(self) -> (r: &'static str)
        ensures
            r@ == style_type_name(self),
    {
        match self {
            StyleType::Paragraph => "paragraph",
            StyleType::Character => "character",
            StyleType::Table => "table",
            StyleType::Numbering => "numbering",
        }
    }
}

/// `CT_Style` — A single style definition.
#[derive(Debug, Clone, PartialEq)]
pub struct CT_Style {
    pub style_id: String,
    pub style_type: StyleType,
    pub name: Option<String>,
    pub based_on: Option<String>,
    pub next_style: Option<String>,
    pub is_default: bool,
    pub ppr: Option<CT_PPr>,
    pub rpr: Option<CT_RPr>,
    /// Unknown style children preserved verbatim for round-trip fidelity.
    pub extra_xml: Option<Vec<Vec<u8>>>,
}

/// `CT_DocDefaults` — Document-level default properties.
#[derive(Debug, Clone, PartialEq)]
pub struct CT_DocDefaults {
    pub rpr: Option<CT_RPr>,
    pub ppr: Option<CT_PPr>,
}

/// `CT_Styles` — The styles part (word/styles.xml).
#[derive(Debug, Clone, PartialEq)]
pub struct CT_Styles {
    pub doc_defaults: Option<CT_DocDefaults>,
    pub styles: Vec<CT_Style>,
    /// Unknown top-level children preserved for round-trip (latentStyles, …).
    pub extra_xml: Option<Vec<Vec<u8>>>,
}

/// Index of the first style with the given id.
pub open spec fn first_style_with_id(s: Seq<CT_Style>, id: Seq<char>) -> Option<int>
    decreases s.len(),
{
    if s.len() == 0 {
        None
    } else if s[0].style_id@ == id {
        Some(0)
    } else {
        match first_style_with_id(s.drop_first(), id) {
            Some(i) => Some(i + 1),
            None => None,
        }
    }
}

/// Index of the first default style of the given type.
pub open spec fn first_default_of(s: Seq<CT_Style>, t: StyleType) -> Option<int>
    decreases s.len(),
{
    if s.len() == 0 {
        None
    } else if s[0].style_type == t && s[0].is_default {
        Some(0)
    } else {
        match first_default_of(s.drop_first(), t) {
            Some(i) => Some(i + 1),
            None => None,
        }
    }
}

/// `first_style_with_id` names the first matching position, if any.
pub proof fn lemma_first_style_with_id(s: Seq<CT_Style>, id: Seq<char>)
    ensures
        first_style_with_id(s, id) matches Some(i) ==> 0 <= i < s.len() && s[i].style_id@ == id
            && forall|j: int| 0 <= j < i ==> s[j].style_id@ != id,
        first_style_with_id(s, id) is None ==> forall|j: int| 0 <= j < s.len() ==> s[j].style_id@ != id,
    decreases s.len(),
{
    if s.len() > 0 {
        lemma_first_style_with_id(s.drop_first(), id);
        assert forall|j: int| 1 <= j < s.len() implies s[j] == s.drop_first()[j - 1] by {}
    }
}

/// `first_default_of` names the first matching position, if any.
pub proof fn lemma_first_default_of(s: Seq<CT_Style>, t: StyleType)
    ensures
        first_default_of(s, t) matches Some(i) ==> 0 <= i < s.len() && s[i].style_type == t
            && s[i].is_default && forall|j: int| 0 <= j < i ==> !(s[j].style_type == t && s[j].is_default),
        first_default_of(s, t) is None ==> forall|j: int| 0 <= j < s.len()
            ==> !(s[j].style_type == t && s[j].is_default),
    decreases s.len(),
{
    if s.len() > 0 {
        lemma_first_default_of(s.drop_first(), t);
        assert forall|j: int| 1 <= j < s.len() implies s[j] == s.drop_first()[j - 1] by {}
    }
}

impl CT_Styles {
    /// A styles part with no defaults and no styles.
    pub fn new() -> (r: Self)
        ensures
            r.doc_defaults is None,
            r.styles@.len() == 0,
            r.extra_xml is None,
    {
        CT_Styles { doc_defaults: None, styles: Vec::new(), extra_xml: None }
    }

    /// Position of the first style with the given id.
    pub fn position_of(&self, style_id: &str) -> (r: Option<usize>)
        ensures
            r matches Some(i) ==> Some(i as int) == first_style_with_id(self.styles@, style_id@),
            r is None ==> first_style_with_id(self.styles@, style_id@) is None,
    {
        proof { lemma_first_style_with_id(self.styles@, style_id@); }
        let mut i: usize = 0;
        while i < self.styles.len()
            invariant
                i <= self.styles@.len(),
                forall|j: int| 0 <= j < i ==> self.styles@[j].style_id@ != style_id@,
                first_style_with_id(self.styles@, style_id@) matches Some(k) ==> i <= k,
            decreases self.styles@.len() - i,
        {
            proof { lemma_first_style_with_id(self.styles@, style_id@); }
            if str_eq(self.styles[i].style_id.as_str(), style_id) {
                return Some(i);
            }
            i = i + 1;
        }
        None
    }

    /// Find a style by its ID: the first one with that ID.
    pub fn get_by_id(&self, style_id: &str) -> (r: Option<&CT_Style>)
        ensures
            r matches Some(s) ==> first_style_with_id(self.styles@, style_id@) matches Some(i)
                && *s == self.styles@[i],
            r is None ==> first_style_with_id(self.styles@, style_id@) is None,
    {
        proof { lemma_first_style_with_id(self.styles@, style_id@); }
        match self.position_of(style_id) {
            Some(i) => Some(&self.styles[i]),
            None => None,
        }
    }

    /// Find the default style for a given type: the first one marked default.
    pub fn get_default(&self, style_type: StyleType) -> (r: Option<&CT_Style>)
        ensures
            r matches Some(s) ==> first_default_of(self.styles@, style_type) matches Some(i)
                && *s == self.styles@[i],
            r is None ==> first_default_of(self.styles@, style_type) is None,
    {
        proof { lemma_first_default_of(self.styles@, style_type); }
        let mut i: usize = 0;
        while i < self.styles.len()
            invariant
                i <= self.styles@.len(),
                forall|j: int| 0 <= j < i
                    ==> !(self.styles@[j].style_type == style_type && self.styles@[j].is_default),
                first_default_of(self.styles@, style_type) matches Some(k) ==> i <= k,
            decreases self.styles@.len() - i,
        {
            proof { lemma_first_default_of(self.styles@, style_type); }
            if self.styles[i].style_type == style_type && self.styles[i].is_default {
                return Some(&self.styles[i]);
            }
            i = i + 1;
        }
        None
    }
}

} // verus!

verus! {

/// Whether an optional string holds exactly `s`.
pub open spec fn opt_str_is(o: Option<String>, s: Seq<char>) -> bool {
    o matches Some(x) && x@ == s
}

/// Whether an optional string is absent exactly when `s` is, and otherwise
/// holds the same characters.
pub open spec fn opt_str_eq(o: Option<String>, s: Option<Seq<char>>) -> bool {
    match (o, s) {
        (Some(x), Some(y)) => x@ == y,
        (None, None) => true,
        _ => false,
    }
}

/// Run properties that set exactly: both theme fonts to `theme`, the
/// complex-script font, both sizes, bold, complex-script bold, both italic
/// flags, the color, the theme color and the character spacing given, and
/// nothing else.
pub open spec fn rpr_shape(
    r: CT_RPr,
    theme: Seq<char>,
    font_cs: Option<Seq<char>>,
    sz: Option<u32>,
    bold: Option<bool>,
    bold_cs: Option<bool>,
    italic: Option<bool>,
    color: Option<Seq<char>>,
    color_theme: Option<Seq<char>>,
    spacing: Option<i32>,
) -> bool {
    &&& opt_str_is(r.font_ascii_theme, theme)
    &&& opt_str_is(r.font_hansi_theme, theme)
    &&& opt_str_eq(r.font_cs, font_cs)
    &&& r.sz == (match sz { Some(v) => Some(HalfPoint(v)), None => None })
    &&& r.sz_cs == r.sz
    &&& r.bold == bold
    &&& r.bold_cs == bold_cs
    &&& r.italic == italic
    &&& r.italic_cs == italic
    &&& opt_str_eq(r.color, color)
    &&& opt_str_eq(r.color_theme, color_theme)
    &&& r.spacing == (match spacing { Some(v) => Some(Twips(v)), None => None })
    &&& rpr_is_empty(CT_RPr {
        font_ascii_theme: None,
        font_hansi_theme: None,
        font_cs: None,
        sz: None,
        sz_cs: None,
        bold: None,
        bold_cs: None,
        italic: None,
        italic_cs: None,
        color: None,
        color_theme: None,
        spacing: None,
        ..r
    })
}

/// Paragraph properties that set exactly: keep-with-next and keep-lines (when
/// `keep`), the spacing before/after, the line spacing and rule, the left and
/// right indents, the outline level and the borders given, and nothing else.
pub open spec fn ppr_shape(
    p: CT_PPr,
    keep: bool,
    before: Option<i32>,
    after: Option<i32>,
    line: Option<i32>,
    line_rule: Option<Seq<char>>,
    ind_left: Option<i32>,
    ind_right: Option<i32>,
    outline: Option<u32>,
) -> bool {
    &&& p.keep_next == (if keep { Some(true) } else { None })
    &&& p.keep_lines == p.keep_next
    &&& p.space_before == (match before { Some(v) => Some(Twips(v)), None => None })
    &&& p.space_after == (match after { Some(v) => Some(Twips(v)), None => None })
    &&& p.line_spacing == (match line { Some(v) => Some(Twips(v)), None => None })
    &&& opt_str_eq(p.line_rule, line_rule)
    &&& p.ind_left == (match ind_left { Some(v) => Some(Twips(v)), None => None })
    &&& p.ind_right == (match ind_right { Some(v) => Some(Twips(v)), None => None })
    &&& p.outline_lvl == outline
    &&& ppr_is_empty(CT_PPr {
        keep_next: None,
        keep_lines: None,
        space_before: None,
        space_after: None,
        line_spacing: None,
        line_rule: None,
        ind_left: None,
        ind_right: None,
        outline_lvl: None,
        borders: None,
        ..p
    })
}

/// The accent border edge of the intense quote: single, 1pt, 10pt spacing, accent blue.
pub open spec fn accent_edge(e: Option<CT_BorderEdge>) -> bool {
    e matches Some(x) && x.val == ST_Border::Single && x.sz == Some(8u32)
        && x.space == Some(10u32) && opt_str_is(x.color, "4472C4"@)
}

/// A paragraph style with the given identity.
pub open spec fn para_style_is(
    s: CT_Style,
    id: Seq<char>,
    name: Seq<char>,
    based_on: Option<Seq<char>>,
    next: Option<Seq<char>>,
) -> bool {
    &&& s.style_id@ == id
    &&& s.style_type == StyleType::Paragraph
    &&& opt_str_is(s.name, name)
    &&& opt_str_eq(s.based_on, based_on)
    &&& opt_str_eq(s.next_style, next)
    &&& !s.is_default
    &&& s.extra_xml is None
}

/// The default styles part: the document defaults and the thirteen built-in
/// paragraph styles, in order, with their properties.
pub open spec fn is_default_styles(r: CT_Styles) -> bool {
    let s = r.styles@;
    let maj = "majorHAnsi"@;
    let min = "minorHAnsi"@;
    let nrm = Some("Normal"@);
    &&& r.extra_xml is None
    &&& r.doc_defaults matches Some(d) && (d.rpr matches Some(x) && rpr_shape(x, min,
        Some("Times New Roman"@), Some(22), None, None, None, None, None, None))
        && (d.ppr matches Some(p) && ppr_shape(p, false, None, Some(160), Some(259), Some("auto"@),
        None, None, None) && p.borders is None)
    &&& s.len() == 13
    &&& s[0].style_id@ == "Normal"@ && s[0].style_type == StyleType::Paragraph
        && opt_str_is(s[0].name, "Normal"@) && s[0].based_on is None && s[0].next_style is None
        && s[0].is_default && s[0].ppr is None && s[0].rpr is None && s[0].extra_xml is None
    &&& para_style_is(s[1], "Title"@, "Title"@, nrm, nrm)
        && (s[1].ppr matches Some(p) && ppr_shape(p, false, None, Some(80), None, None, None, None, None) && p.borders is None)
        && (s[1].rpr matches Some(x) && rpr_shape(x, maj, None, Some(56), None, None, None, Some("000000"@), None, Some(-10i32)))
    &&& para_style_is(s[2], "Subtitle"@, "Subtitle"@, nrm, nrm)
        && (s[2].ppr matches Some(p) && ppr_shape(p, false, None, Some(160), None, None, None, None, None) && p.borders is None)
        && (s[2].rpr matches Some(x) && rpr_shape(x, min, None, Some(28), None, None, Some(true), Some("5A5A5A"@), None, None))
    &&& para_style_is(s[3], "Heading1"@, "heading 1"@, nrm, nrm)
        && (s[3].ppr matches Some(p) && ppr_shape(p, true, Some(240), Some(0), None, None, None, None, Some(0)) && p.borders is None)
        && (s[3].rpr matches Some(x) && rpr_shape(x, maj, None, Some(32), Some(true), Some(true), None, Some("2F5496"@), Some("accent1"@), None))
    &&& para_style_is(s[4], "Heading2"@, "heading 2"@, nrm, nrm)
        && (s[4].ppr matches Some(p) && ppr_shape(p, true, Some(160), Some(0), None, None, None, None, Some(1)) && p.borders is None)
        && (s[4].rpr matches Some(x) && rpr_shape(x, maj, None, Some(26), Some(true), Some(true), None, Some("2F5496"@), Some("accent1"@), None))
    &&& para_style_is(s[5], "Heading3"@, "heading 3"@, nrm, nrm)
        && (s[5].ppr matches Some(p) && ppr_shape(p, true, Some(160), Some(0), None, None, None, None, Some(2)) && p.borders is None)
        && (s[5].rpr matches Some(x) && rpr_shape(x, maj, None, Some(24), Some(true), Some(true), None, Some("1F3763"@), Some("accent1"@), None))
    &&& para_style_is(s[6], "Heading4"@, "heading 4"@, nrm, nrm)
        && (s[6].ppr matches Some(p) && ppr_shape(p, true, Some(80), Some(0), None, None, None, None, Some(3)) && p.borders is None)
        && (s[6].rpr matches Some(x) && rpr_shape(x, maj, None, Some(22), None, None, Some(true), Some("2F5496"@), Some("accent1"@), None))
    &&& para_style_is(s[7], "Heading5"@, "heading 5"@, nrm, nrm)
        && (s[7].ppr matches Some(p) && ppr_shape(p, true, Some(80), Some(0), None, None, None, None, Some(4)) && p.borders is None)
        && (s[7].rpr matches Some(x) && rpr_shape(x, maj, None, Some(22), None, None, None, Some("2F5496"@), Some("accent1"@), None))
    &&& para_style_is(s[8], "Heading6"@, "heading 6"@, nrm, nrm)
        && (s[8].ppr matches Some(p) && ppr_shape(p, true, Some(40), Some(0), None, None, None, None, Some(5)) && p.borders is None)
        && (s[8].rpr matches Some(x) && rpr_shape(x, maj, None, Some(22), None, None, Some(true), Some("1F3763"@), Some("accent1"@), None))
    &&& para_style_is(s[9], "Quote"@, "Quote"@, nrm, nrm)
        && (s[9].ppr matches Some(p) && ppr_shape(p, false, Some(200), Some(200), None, None, Some(720), Some(720), None) && p.borders is None)
        && (s[9].rpr matches Some(x) && rpr_shape(x, min, None, None, None, None, Some(true), Some("404040"@), None, None))
    &&& para_style_is(s[10], "IntenseQuote"@, "Intense Quote"@, nrm, nrm)
        && (s[10].ppr matches Some(p) && ppr_shape(p, false, Some(200), Some(200), None, None, Some(720), Some(720), None)
            && (p.borders matches Some(b) && accent_edge(b.top) && accent_edge(b.bottom) && b.left is None
                && b.right is None && b.between is None && b.bar is None))
        && (s[10].rpr matches Some(x) && rpr_shape(x, min, None, None, Some(true), None, Some(true), Some("4472C4"@), Some("accent1"@), None))
    &&& para_style_is(s[11], "ListParagraph"@, "List Paragraph"@, nrm, None)
        && (s[11].ppr matches Some(p) && ppr_shape(p, false, None, None, None, None, Some(720), None, None) && p.borders is None)
        && s[11].rpr is None
    &&& para_style_is(s[12], "Caption"@, "caption"@, nrm, nrm)
        && (s[12].ppr matches Some(p) && ppr_shape(p, false, None, Some(200), None, None, None, None, None) && p.borders is None)
        && (s[12].rpr matches Some(x) && rpr_shape(x, min, None, Some(18), None, None, Some(true), Some("44546A"@), None, None))
}

/// Run properties with both theme fonts set to `theme`.
fn theme_rpr(theme: &str) -> (r: CT_RPr)
    ensures
        rpr_shape(r, theme@, None, None, None, None, None, None, None, None),
{
    CT_RPr {
        font_ascii_theme: Some(to_owned_string(theme)),
        font_hansi_theme: Some(to_owned_string(theme)),
        ..CT_RPr::default()
    }
}

/// Run properties of a heading: major theme font, size, color, accent1 theme color.
fn heading_rpr(sz: u32, color: &str, bold: bool, italic: bool) -> (r: CT_RPr)
    ensures
        rpr_shape(r, "majorHAnsi"@, None, Some(sz), if bold { Some(true) } else { None },
            if bold { Some(true) } else { None }, if italic { Some(true) } else { None },
            Some(color@), Some("accent1"@), None),
{
    CT_RPr {
        sz: Some(HalfPoint(sz)),
        sz_cs: Some(HalfPoint(sz)),
        bold: if bold { Some(true) } else { None },
        bold_cs: if bold { Some(true) } else { None },
        italic: if italic { Some(true) } else { None },
        italic_cs: if italic { Some(true) } else { None },
        color: Some(to_owned_string(color)),
        color_theme: Some(to_owned_string("accent1")),
        ..theme_rpr("majorHAnsi")
    }
}

/// Paragraph properties of a heading: kept with the next paragraph and
/// together, with the given spacing and outline level.
fn heading_ppr(before: i32, after: i32, lvl: u32) -> (r: CT_PPr)
    ensures
        ppr_shape(r, true, Some(before), Some(after), None, None, None, None, Some(lvl)),
        r.borders is None,
{
    CT_PPr {
        keep_next: Some(true),
        keep_lines: Some(true),
        space_before: Some(Twips(before)),
        space_after: Some(Twips(after)),
        outline_lvl: Some(lvl),
        ..CT_PPr::default()
    }
}

/// A copy of an optional string slice as an owned string.
fn opt_owned(s: Option<&str>) -> (r: Option<String>)
    ensures
        opt_str_eq(r, match s { Some(x) => Some(x@), None => None }),
{
    match s {
        Some(x) => Some(to_owned_string(x)),
        None => None,
    }
}

/// A (non-default) paragraph style.
fn para_style(
    id: &str,
    name: &str,
    based: Option<&str>,
    next: Option<&str>,
    ppr: Option<CT_PPr>,
    rpr: Option<CT_RPr>,
) -> (r: CT_Style)
    ensures
        para_style_is(r, id@, name@, match based { Some(x) => Some(x@), None => None },
            match next { Some(x) => Some(x@), None => None }),
        r.ppr == ppr,
        r.rpr == rpr,
{
    CT_Style {
        style_id: to_owned_string(id),
        style_type: StyleType::Paragraph,
        name: Some(to_owned_string(name)),
        based_on: opt_owned(based),
        next_style: opt_owned(next),
        is_default: false,
        ppr,
        rpr,
        extra_xml: None,
    }
}

/// The accent border edge of the intense quote.
fn accent_border() -> (r: CT_BorderEdge)
    ensures
        accent_edge(Some(r)),
{
    CT_BorderEdge {
        val: ST_Border::Single,
        sz: Some(8),
        space: Some(10),
        color: Some(to_owned_string("4472C4")),
    }
}

impl CT_Styles {
    /// A complete default styles part for a new document: Normal, Title,
    /// Subtitle, Heading1-6, Quote, IntenseQuote, ListParagraph, Caption — wired
    /// to theme fonts, with outline levels on the headings.
    pub fn new_default() -> (r: Self)
        ensures
            is_default_styles(r),
    {
        let nrm = Some("Normal");
        let normal = CT_Style {
            style_id: to_owned_string("Normal"),
            style_type: StyleType::Paragraph,
            name: Some(to_owned_string("Normal")),
            based_on: None,
            next_style: None,
            is_default: true,
            ppr: None,
            rpr: None,
            extra_xml: None,
        };
        let title = para_style("Title", "Title", nrm, nrm,
            Some(CT_PPr { space_after: Some(Twips(80)), ..CT_PPr::default() }),
            Some(CT_RPr {
                sz: Some(HalfPoint(56)),
                sz_cs: Some(HalfPoint(56)),
                color: Some(to_owned_string("000000")),
                spacing: Some(Twips(-10)),
                ..theme_rpr("majorHAnsi")
            }));
        let subtitle = para_style("Subtitle", "Subtitle", nrm, nrm,
            Some(CT_PPr { space_after: Some(Twips(160)), ..CT_PPr::default() }),
            Some(CT_RPr {
                sz: Some(HalfPoint(28)),
                sz_cs: Some(HalfPoint(28)),
                italic: Some(true),
                italic_cs: Some(true),
                color: Some(to_owned_string("5A5A5A")),
                ..theme_rpr("minorHAnsi")
            }));
        let h1 = para_style("Heading1", "heading 1", nrm, nrm,
            Some(heading_ppr(240, 0, 0)), Some(heading_rpr(32, "2F5496", true, false)));
        let h2 = para_style("Heading2", "heading 2", nrm, nrm,
            Some(heading_ppr(160, 0, 1)), Some(heading_rpr(26, "2F5496", true, false)));
        let h3 = para_style("Heading3", "heading 3", nrm, nrm,
            Some(heading_ppr(160, 0, 2)), Some(heading_rpr(24, "1F3763", true, false)));
        let h4 = para_style("Heading4", "heading 4", nrm, nrm,
            Some(heading_ppr(80, 0, 3)), Some(heading_rpr(22, "2F5496", false, true)));
        let h5 = para_style("Heading5", "heading 5", nrm, nrm,
            Some(heading_ppr(80, 0, 4)), Some(heading_rpr(22, "2F5496", false, false)));
        let h6 = para_style("Heading6", "heading 6", nrm, nrm,
            Some(heading_ppr(40, 0, 5)), Some(heading_rpr(22, "1F3763", false, true)));
        let quote = para_style("Quote", "Quote", nrm, nrm,
            Some(CT_PPr {
                space_before: Some(Twips(200)),
                space_after: Some(Twips(200)),
                ind_left: Some(Twips(720)),
                ind_right: Some(Twips(720)),
                ..CT_PPr::default()
            }),
            Some(CT_RPr {
                italic: Some(true),
                italic_cs: Some(true),
                color: Some(to_owned_string("404040")),
                ..theme_rpr("minorHAnsi")
            }));
        let intense_quote = para_style("IntenseQuote", "Intense Quote", nrm, nrm,
            Some(CT_PPr {
                space_before: Some(Twips(200)),
                space_after: Some(Twips(200)),
                ind_left: Some(Twips(720)),
                ind_right: Some(Twips(720)),
                borders: Some(CT_PBdr {
                    bottom: Some(accent_border()),
                    top: Some(accent_border()),
                    left: None,
                    right: None,
                    between: None,
                    bar: None,
                }),
                ..CT_PPr::default()
            }),
            Some(CT_RPr {
                italic: Some(true),
                italic_cs: Some(true),
                bold: Some(true),
                color: Some(to_owned_string("4472C4")),
                color_theme: Some(to_owned_string("accent1")),
                ..theme_rpr("minorHAnsi")
            }));
        let list_paragraph = para_style("ListParagraph", "List Paragraph", nrm, None,
            Some(CT_PPr { ind_left: Some(Twips(720)), ..CT_PPr::default() }), None);
        let caption = para_style("Caption", "caption", nrm, nrm,
            Some(CT_PPr { space_after: Some(Twips(200)), ..CT_PPr::default() }),
            Some(CT_RPr {
                italic: Some(true),
                italic_cs: Some(true),
                sz: Some(HalfPoint(18)),
                sz_cs: Some(HalfPoint(18)),
                color: Some(to_owned_string("44546A")),
                ..theme_rpr("minorHAnsi")
            }));
        let doc_defaults = CT_DocDefaults {
            rpr: Some(CT_RPr {
                font_cs: Some(to_owned_string("Times New Roman")),
                sz: Some(HalfPoint(22)),
                sz_cs: Some(HalfPoint(22)),
                ..theme_rpr("minorHAnsi")
            }),
            ppr: Some(CT_PPr {
                space_after: Some(Twips(160)),
                line_spacing: Some(Twips(259)),
                line_rule: Some(to_owned_string("auto")),
                ..CT_PPr::default()
            }),
        };
        let mut styles: Vec<CT_Style> = Vec::new();
        styles.push(normal);
        styles.push(title);
        styles.push(subtitle);
        styles.push(h1);
        styles.push(h2);
        styles.push(h3);
        styles.push(h4);
        styles.push(h5);
        styles.push(h6);
        styles.push(quote);
        styles.push(intense_quote);
        styles.push(list_paragraph);
        styles.push(caption);
        CT_Styles { doc_defaults: Some(doc_defaults), styles, extra_xml: None }
    }
}

} // verus!
