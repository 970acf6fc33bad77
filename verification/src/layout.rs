//! Inputs and errors of page layout, and the fonts bundled with it.

use vstd::prelude::*;

use crate::chars::push_str;
use crate::core_properties::CoreProperties;
use crate::document::CT_Document;
use crate::footnotes::CT_Footnotes;
use crate::header_footer::CT_HdrFtr;
use crate::numbering::CT_Numbering;
use crate::styles::CT_Styles;
use crate::theme::Theme;

verus! {

/// Image bytes and their MIME type.
#[derive(Debug, Clone)]
pub struct ImageData {
    /// Raw image bytes (PNG, JPEG, etc.).
    pub data: Vec<u8>,
    /// MIME content type (e.g., "image/png").
    pub content_type: String,
}

/// A font file: family name and bytes.
#[derive(Debug, Clone)]
pub struct FontFile {
    /// Font family name (e.g., "Calibri", "Arial").
    pub family: String,
    /// Raw font file bytes (TTF/OTF).
    pub data: Vec<u8>,
}

/// Everything needed to lay out a document. Parts held by relationship
/// or embed id are lists of (id, part), each id at most once.
pub struct LayoutInput {
    pub document: CT_Document,
    pub styles: CT_Styles,
    pub numbering: Option<CT_Numbering>,
    /// Header parts by relationship id.
    pub headers: Vec<(String, CT_HdrFtr)>,
    /// Footer parts by relationship id.
    pub footers: Vec<(String, CT_HdrFtr)>,
    /// Images by embed id.
    pub images: Vec<(String, ImageData)>,
    pub core_properties: Option<CoreProperties>,
    /// Hyperlink URLs by relationship id.
    pub hyperlink_urls: Vec<(String, String)>,
    pub footnotes: Option<CT_Footnotes>,
    pub endnotes: Option<CT_Footnotes>,
    pub theme: Option<Theme>,
    /// Font files, used before system fonts.
    pub fonts: Vec<FontFile>,
}

/// What can go wrong while laying out.
#[derive(Debug)]
pub enum LayoutError {
    FontNotFound(String),
    FontParse(String),
    Shaping(String),
    Layout(String),
}

/// The message of a layout error.
pub open spec fn layout_error_message(e: LayoutError) -> Seq<char> {
    match e {
        LayoutError::FontNotFound(s) => "font not found: "@ + s@,
        LayoutError::FontParse(s) => "font parsing error: "@ + s@,
        LayoutError::Shaping(s) => "shaping error: "@ + s@,
        LayoutError::Layout(s) => "layout error: "@ + s@,
    }
}

impl LayoutError {
    /// The error's message.
    pub fn message(&self) -> (r: String)
        ensures
            r@ == layout_error_message(*self),
    {
        let mut out = String::new();
        match self {
            LayoutError::FontNotFound(s) => {
                push_str(&mut out, "font not found: ");
                push_str(&mut out, s.as_str());
            },
            LayoutError::FontParse(s) => {
                push_str(&mut out, "font parsing error: ");
                push_str(&mut out, s.as_str());
            },
            LayoutError::Shaping(s) => {
                push_str(&mut out, "shaping error: ");
                push_str(&mut out, s.as_str());
            },
            LayoutError::Layout(s) => {
                push_str(&mut out, "layout error: ");
                push_str(&mut out, s.as_str());
            },
        }
        out
    }
}

/// The fonts bundled with the library, as (family, bytes). No font files
/// are bundled in this build, so the list is empty.
pub fn bundled_font_data() -> (r: Vec<(&'static str, &'static [u8])>)
    ensures
        r@.len() == 0,
{
    Vec::new()
}

} // verus!
