//! Drawing elements for inline and anchor images: `CT_Drawing`, `CT_Inline`, `CT_Anchor`.

use vstd::prelude::*;

use crate::chars::{str_eq, to_owned_string};
use crate::units::Emu;

pub mod drawing_ns;
pub mod drawing_xml;
pub mod drawing_read;

verus! {

/// Horizontal relative-from for anchor positioning.
#[derive(Debug, Clone, Copy, PartialEq, Eq, Structural)]
pub enum ST_RelativeFromH {
    Page,
    Margin,
    Column,
    Character,
    LeftMargin,
    RightMargin,
    InsideMargin,
    OutsideMargin,
}

/// The attribute value naming each horizontal reference frame.
pub open spec fn rel_h_name(v: ST_RelativeFromH) -> Seq<char> {
    match v {
        ST_RelativeFromH::Page => "page"@,
        ST_RelativeFromH::Margin => "margin"@,
        ST_RelativeFromH::Column => "column"@,
        ST_RelativeFromH::Character => "character"@,
        ST_RelativeFromH::LeftMargin => "leftMargin"@,
        ST_RelativeFromH::RightMargin => "rightMargin"@,
        ST_RelativeFromH::InsideMargin => "insideMargin"@,
        ST_RelativeFromH::OutsideMargin => "outsideMargin"@,
    }
}

/// The horizontal reference frame an attribute value names; any other value
/// means `Column`.
pub open spec fn rel_h_parse(s: Seq<char>) -> ST_RelativeFromH {
    if s == "page"@ {
        ST_RelativeFromH::Page
    } else if s == "margin"@ {
        ST_RelativeFromH::Margin
    } else if s == "character"@ {
        ST_RelativeFromH::Character
    } else if s == "leftMargin"@ {
        ST_RelativeFromH::LeftMargin
    } else if s == "rightMargin"@ {
        ST_RelativeFromH::RightMargin
    } else if s == "insideMargin"@ {
        ST_RelativeFromH::InsideMargin
    } else if s == "outsideMargin"@ {
        ST_RelativeFromH::OutsideMargin
    } else {
        ST_RelativeFromH::Column
    }
}

impl ST_RelativeFromH {
    /// Parses an attribute value; unknown values mean `Column`.
    pub fn from_str(s: &str) -> (r: Self)
        ensures
            r == rel_h_parse(s@),
    {
        if str_eq(s, "page") {
            ST_RelativeFromH::Page
        } else if str_eq(s, "margin") {
            ST_RelativeFromH::Margin
        } else if str_eq(s, "character") {
            ST_RelativeFromH::Character
        } else if str_eq(s, "leftMargin") {
            ST_RelativeFromH::LeftMargin
        } else if str_eq(s, "rightMargin") {
            ST_RelativeFromH::RightMargin
        } else if str_eq(s, "insideMargin") {
            ST_RelativeFromH::InsideMargin
        } else if str_eq(s, "outsideMargin") {
            ST_RelativeFromH::OutsideMargin
        } else {
            ST_RelativeFromH::Column
        }
    }

    /// The attribute value for this reference frame.
    pub fn to_str(self) -> (r: &'static str)
        ensures
            r@ == rel_h_name(self),
    {
        match self {
            ST_RelativeFromH::Page => "page",
            ST_RelativeFromH::Margin => "margin",
            ST_RelativeFromH::Column => "column",
            ST_RelativeFromH::Character => "character",
            ST_RelativeFromH::LeftMargin => "leftMargin",
            ST_RelativeFromH::RightMargin => "rightMargin",
            ST_RelativeFromH::InsideMargin => "insideMargin",
            ST_RelativeFromH::OutsideMargin => "outsideMargin",
        }
    }
}

/// Parsing the attribute value of a horizontal reference frame gives that
/// frame back.
pub proof fn lemma_rel_h_round_trip(v: ST_RelativeFromH)
    ensures
        rel_h_parse(rel_h_name(v)) == v,
{
    reveal_strlit("page");
    reveal_strlit("margin");
    reveal_strlit("column");
    reveal_strlit("character");
    reveal_strlit("leftMargin");
    reveal_strlit("rightMargin");
    reveal_strlit("insideMargin");
    reveal_strlit("outsideMargin");
    assert("page"@.len() == 4);
    assert("page"@[0] == 'p');
    assert("page"@[1] == 'a');
    assert("page"@[2] == 'g');
    assert("margin"@.len() == 6);
    assert("margin"@[0] == 'm');
    assert("margin"@[1] == 'a');
    assert("margin"@[2] == 'r');
    assert("column"@.len() == 6);
    assert("column"@[0] == 'c');
    assert("column"@[1] == 'o');
    assert("column"@[2] == 'l');
    assert("character"@.len() == 9);
    assert("character"@[0] == 'c');
    assert("character"@[1] == 'h');
    assert("character"@[2] == 'a');
    assert("leftMargin"@.len() == 10);
    assert("leftMargin"@[0] == 'l');
    assert("leftMargin"@[1] == 'e');
    assert("leftMargin"@[2] == 'f');
    assert("rightMargin"@.len() == 11);
    assert("rightMargin"@[0] == 'r');
    assert("rightMargin"@[1] == 'i');
    assert("rightMargin"@[2] == 'g');
    assert("insideMargin"@.len() == 12);
    assert("insideMargin"@[0] == 'i');
    assert("insideMargin"@[1] == 'n');
    assert("insideMargin"@[2] == 's');
    assert("outsideMargin"@.len() == 13);
    assert("outsideMargin"@[0] == 'o');
    assert("outsideMargin"@[1] == 'u');
    assert("outsideMargin"@[2] == 't');
}

/// Vertical relative-from for anchor positioning.
#[derive(Debug, Clone, Copy, PartialEq, Eq, Structural)]
pub enum ST_RelativeFromV {
    Page,
    Margin,
    Paragraph,
    Line,
    TopMargin,
    BottomMargin,
    InsideMargin,
    OutsideMargin,
}

/// The attribute value naming each vertical reference frame.
pub open spec fn rel_v_name(v: ST_RelativeFromV) -> Seq<char> {
    match v {
        ST_RelativeFromV::Page => "page"@,
        ST_RelativeFromV::Margin => "margin"@,
        ST_RelativeFromV::Paragraph => "paragraph"@,
        ST_RelativeFromV::Line => "line"@,
        ST_RelativeFromV::TopMargin => "topMargin"@,
        ST_RelativeFromV::BottomMargin => "bottomMargin"@,
        ST_RelativeFromV::InsideMargin => "insideMargin"@,
        ST_RelativeFromV::OutsideMargin => "outsideMargin"@,
    }
}

/// The vertical reference frame an attribute value names; any other value
/// means `Paragraph`.
pub open spec fn rel_v_parse(s: Seq<char>) -> ST_RelativeFromV {
    if s == "page"@ {
        ST_RelativeFromV::Page
    } else if s == "margin"@ {
        ST_RelativeFromV::Margin
    } else if s == "line"@ {
        ST_RelativeFromV::Line
    } else if s == "topMargin"@ {
        ST_RelativeFromV::TopMargin
    } else if s == "bottomMargin"@ {
        ST_RelativeFromV::BottomMargin
    } else if s == "insideMargin"@ {
        ST_RelativeFromV::InsideMargin
    } else if s == "outsideMargin"@ {
        ST_RelativeFromV::OutsideMargin
    } else {
        ST_RelativeFromV::Paragraph
    }
}

impl ST_RelativeFromV {
    /// Parses an attribute value; unknown values mean `Paragraph`.
    pub fn from_str(s: &str) -> (r: Self)
        ensures
            r == rel_v_parse(s@),
    {
        if str_eq(s, "page") {
            ST_RelativeFromV::Page
        } else if str_eq(s, "margin") {
            ST_RelativeFromV::Margin
        } else if str_eq(s, "line") {
            ST_RelativeFromV::Line
        } else if str_eq(s, "topMargin") {
            ST_RelativeFromV::TopMargin
        } else if str_eq(s, "bottomMargin") {
            ST_RelativeFromV::BottomMargin
        } else if str_eq(s, "insideMargin") {
            ST_RelativeFromV::InsideMargin
        } else if str_eq(s, "outsideMargin") {
            ST_RelativeFromV::OutsideMargin
        } else {
            ST_RelativeFromV::Paragraph
        }
    }

    /// The attribute value for this reference frame.
    pub fn to_str(self) -> (r: &'static str)
        ensures
            r@ == rel_v_name(self),
    {
        match self {
            ST_RelativeFromV::Page => "page",
            ST_RelativeFromV::Margin => "margin",
            ST_RelativeFromV::Paragraph => "paragraph",
            ST_RelativeFromV::Line => "line",
            ST_RelativeFromV::TopMargin => "topMargin",
            ST_RelativeFromV::BottomMargin => "bottomMargin",
            ST_RelativeFromV::InsideMargin => "insideMargin",
            ST_RelativeFromV::OutsideMargin => "outsideMargin",
        }
    }
}

/// Parsing the attribute value of a vertical reference frame gives that
/// frame back.
pub proof fn lemma_rel_v_round_trip(v: ST_RelativeFromV)
    ensures
        rel_v_parse(rel_v_name(v)) == v,
{
    reveal_strlit("page");
    reveal_strlit("margin");
    reveal_strlit("paragraph");
    reveal_strlit("line");
    reveal_strlit("topMargin");
    reveal_strlit("bottomMargin");
    reveal_strlit("insideMargin");
    reveal_strlit("outsideMargin");
    assert("page"@.len() == 4);
    assert("page"@[0] == 'p');
    assert("page"@[1] == 'a');
    assert("page"@[2] == 'g');
    assert("margin"@.len() == 6);
    assert("margin"@[0] == 'm');
    assert("margin"@[1] == 'a');
    assert("margin"@[2] == 'r');
    assert("paragraph"@.len() == 9);
    assert("paragraph"@[0] == 'p');
    assert("paragraph"@[1] == 'a');
    assert("paragraph"@[2] == 'r');
    assert("line"@.len() == 4);
    assert("line"@[0] == 'l');
    assert("line"@[1] == 'i');
    assert("line"@[2] == 'n');
    assert("topMargin"@.len() == 9);
    assert("topMargin"@[0] == 't');
    assert("topMargin"@[1] == 'o');
    assert("topMargin"@[2] == 'p');
    assert("bottomMargin"@.len() == 12);
    assert("bottomMargin"@[0] == 'b');
    assert("bottomMargin"@[1] == 'o');
    assert("bottomMargin"@[2] == 't');
    assert("insideMargin"@.len() == 12);
    assert("insideMargin"@[0] == 'i');
    assert("insideMargin"@[1] == 'n');
    assert("insideMargin"@[2] == 's');
    assert("outsideMargin"@.len() == 13);
    assert("outsideMargin"@[0] == 'o');
    assert("outsideMargin"@[1] == 'u');
    assert("outsideMargin"@[2] == 't');
}

/// Wrapping type for anchored drawings.
#[derive(Debug, Clone, Copy, PartialEq, Eq, Structural)]
pub enum WrapType {
    WrapNone,
}

/// Optional picture features applied when constructing a drawing (rotation,
/// cropping, border, shadow, flips, alt-text title). Defaults are no-op.
#[derive(Debug, Clone, PartialEq)]
pub struct PicProps {
    /// Clockwise rotation in 60,000ths of a degree (a:xfrm@rot).
    pub rotation: Option<i32>,
    /// Horizontal flip.
    pub flip_h: bool,
    /// Vertical flip.
    pub flip_v: bool,
    /// Crop insets [left, top, right, bottom] in 1000ths of a percent (a:srcRect).
    pub crop: Option<[i32; 4]>,
    /// Solid border: (color hex, width in EMUs).
    pub border: Option<(String, i64)>,
    /// Outer shadow with the given hex color.
    pub shadow: Option<String>,
    /// Accessibility title (docPr@title), distinct from description.
    pub title: Option<String>,
}

/// The picture features of a bare picture: none.
pub open spec fn pic_props_none(p: PicProps) -> bool {
    &&& p.rotation is None
    &&& !p.flip_h
    &&& !p.flip_v
    &&& p.crop is None
    &&& p.border is None
    &&& p.shadow is None
    &&& p.title is None
}

impl Default for PicProps {
    fn default() -> (r: Self)
        ensures
            pic_props_none(r),
    {
        PicProps {
            rotation: None,
            flip_h: false,
            flip_v: false,
            crop: None,
            border: None,
            shadow: None,
            title: None,
        }
    }
}

/// `CT_Anchor` — An anchored (floating) drawing element.
#[derive(Debug, Clone, PartialEq)]
pub struct CT_Anchor {
    /// Whether the drawing is behind document text.
    pub behind_doc: bool,
    /// Horizontal position offset in EMUs.
    pub pos_h_offset: Emu,
    /// Horizontal relative-from.
    pub pos_h_relative_from: ST_RelativeFromH,
    /// Vertical position offset in EMUs.
    pub pos_v_offset: Emu,
    /// Vertical relative-from.
    pub pos_v_relative_from: ST_RelativeFromV,
    /// Width in EMUs.
    pub extent_cx: Emu,
    /// Height in EMUs.
    pub extent_cy: Emu,
    /// Wrapping type.
    pub wrap: WrapType,
    /// Relationship ID referencing the image part.
    pub embed_id: String,
    /// Z-order relative height.
    pub relative_height: u32,
    /// Optional description/alt text.
    pub description: Option<String>,
    /// Optional name.
    pub name: Option<String>,
    /// Optional picture features (rotation, crop, border, shadow, title).
    pub props: PicProps,
    /// Raw XML bytes for the entire wp:anchor element (round-trip preservation).
    pub raw_xml: Option<Vec<u8>>,
}

impl CT_Anchor {
    /// Create an anchor for a full-page background image: behind the text,
    /// at the page origin, sized to the page.
    pub fn background(embed_id: &str, page_width_emu: i64, page_height_emu: i64) -> (r: Self)
        ensures
            r.behind_doc,
            r.pos_h_offset == Emu(0),
            r.pos_h_relative_from == ST_RelativeFromH::Page,
            r.pos_v_offset == Emu(0),
            r.pos_v_relative_from == ST_RelativeFromV::Page,
            r.extent_cx == Emu(page_width_emu),
            r.extent_cy == Emu(page_height_emu),
            r.wrap == WrapType::WrapNone,
            r.embed_id@ == embed_id@,
            r.relative_height == 0,
            r.description matches Some(d) && d@ == "Background"@,
            r.name matches Some(n) && n@ == "Background"@,
            pic_props_none(r.props),
            r.raw_xml is None,
    {
        CT_Anchor {
            behind_doc: true,
            pos_h_offset: Emu(0),
            pos_h_relative_from: ST_RelativeFromH::Page,
            pos_v_offset: Emu(0),
            pos_v_relative_from: ST_RelativeFromV::Page,
            extent_cx: Emu(page_width_emu),
            extent_cy: Emu(page_height_emu),
            wrap: WrapType::WrapNone,
            embed_id: to_owned_string(embed_id),
            relative_height: 0,
            description: Some(to_owned_string("Background")),
            name: Some(to_owned_string("Background")),
            props: PicProps::default(),
            raw_xml: None,
        }
    }
}

/// `CT_Inline` — An inline drawing (image) element.
#[derive(Debug, Clone, PartialEq)]
pub struct CT_Inline {
    /// Width in EMUs
    pub extent_cx: Emu,
    /// Height in EMUs
    pub extent_cy: Emu,
    /// Relationship ID referencing the image part
    pub embed_id: String,
    /// Optional description/alt text
    pub description: Option<String>,
    /// Optional name
    pub name: Option<String>,
    /// Optional picture features (rotation, crop, border, shadow, title).
    pub props: PicProps,
    /// Raw XML bytes for the entire wp:inline element (round-trip preservation).
    pub raw_xml: Option<Vec<u8>>,
}

impl CT_Inline {
    /// An inline picture of the given size referencing `embed_id`.
    pub fn new(embed_id: &str, width_emu: i64, height_emu: i64) -> (r: Self)
        ensures
            r.extent_cx == Emu(width_emu),
            r.extent_cy == Emu(height_emu),
            r.embed_id@ == embed_id@,
            r.description is None,
            r.name is None,
            pic_props_none(r.props),
            r.raw_xml is None,
    {
        CT_Inline {
            extent_cx: Emu(width_emu),
            extent_cy: Emu(height_emu),
            embed_id: to_owned_string(embed_id),
            description: None,
            name: None,
            props: PicProps::default(),
            raw_xml: None,
        }
    }
}

/// `CT_Drawing` — A drawing element that wraps inline or anchor images.
#[derive(Debug, Clone, PartialEq)]
pub struct CT_Drawing {
    pub inline: Option<CT_Inline>,
    pub anchor: Option<CT_Anchor>,
}

impl CT_Drawing {
    /// A drawing holding an inline picture.
    pub fn inline(inline: CT_Inline) -> (r: Self)
        ensures
            r.inline == Some(inline),
            r.anchor is None,
    {
        CT_Drawing { inline: Some(inline), anchor: None }
    }

    /// A drawing holding an anchored picture.
    pub fn anchor(anchor: CT_Anchor) -> (r: Self)
        ensures
            r.inline is None,
            r.anchor == Some(anchor),
    {
        CT_Drawing { inline: None, anchor: Some(anchor) }
    }
}

} // verus!
