//! Well-known relationship type URIs.

use vstd::prelude::*;

verus! {

pub const DOCUMENT: &'static str =
    "http://schemas.openxmlformats.org/officeDocument/2006/relationships/officeDocument";

pub const STYLES: &'static str = "http://schemas.openxmlformats.org/officeDocument/2006/relationships/styles";

pub const NUMBERING: &'static str =
    "http://schemas.openxmlformats.org/officeDocument/2006/relationships/numbering";

pub const HEADER: &'static str = "http://schemas.openxmlformats.org/officeDocument/2006/relationships/header";

pub const FOOTER: &'static str = "http://schemas.openxmlformats.org/officeDocument/2006/relationships/footer";

pub const IMAGE: &'static str = "http://schemas.openxmlformats.org/officeDocument/2006/relationships/image";

pub const SETTINGS: &'static str =
    "http://schemas.openxmlformats.org/officeDocument/2006/relationships/settings";

pub const FONT_TABLE: &'static str =
    "http://schemas.openxmlformats.org/officeDocument/2006/relationships/fontTable";

pub const THEME: &'static str = "http://schemas.openxmlformats.org/officeDocument/2006/relationships/theme";

pub const HYPERLINK: &'static str =
    "http://schemas.openxmlformats.org/officeDocument/2006/relationships/hyperlink";

pub const FOOTNOTES: &'static str =
    "http://schemas.openxmlformats.org/officeDocument/2006/relationships/footnotes";

pub const ENDNOTES: &'static str =
    "http://schemas.openxmlformats.org/officeDocument/2006/relationships/endnotes";

pub const CHART: &'static str = "http://schemas.openxmlformats.org/officeDocument/2006/relationships/chart";

} // verus!
