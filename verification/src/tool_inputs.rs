//! Inputs of the document-editing tools a server offers.

use vstd::prelude::*;

verus! {

/// Create a document.
#[derive(Debug)]
pub struct CreateInput {
    pub title: Option<String>,
    /// "kdp:technical", "kdp:novel", or omit for blank
    pub format: Option<String>,
}

/// Refer to an open document.
#[derive(Debug)]
pub struct HandleInput {
    pub document_handle: String,
}

/// Open a document from a file.
#[derive(Debug)]
pub struct OpenInput {
    pub file_path: String,
}

/// Save a document to a file.
#[derive(Debug)]
pub struct SaveInput {
    pub document_handle: String,
    pub output_path: String,
}

/// Insert a paragraph.
#[derive(Debug)]
pub struct InsertParaInput {
    pub document_handle: String,
    pub index: usize,
    pub text: String,
    /// "Heading1", "Heading2", "Heading3", "BodyText", "BodyTextIndent", "ChapterNum",
    /// "TitlePage", "Subtitle", "Author", "Copyright"
    pub style: Option<String>,
    pub page_break_before: Option<bool>,
}

/// Insert a code block.
#[derive(Debug)]
pub struct CodeBlockInput {
    pub document_handle: String,
    pub index: usize,
    pub code: String,
    /// "rust", "python", "bash", "json", etc.
    pub language: Option<String>,
}

/// Insert a callout.
#[derive(Debug)]
pub struct CalloutInput {
    pub document_handle: String,
    pub index: usize,
    /// "tip", "warning", or "note"
    pub callout_type: String,
    pub text: String,
}

/// Insert a table.
#[derive(Debug)]
pub struct TableInput {
    pub document_handle: String,
    pub index: usize,
    pub rows: usize,
    pub cols: usize,
}

/// Set a table cell's text.
#[derive(Debug)]
pub struct CellInput {
    pub document_handle: String,
    pub row: usize,
    pub col: usize,
    pub text: String,
    /// Which table (0-based index among all tables in document)
    pub table_index: Option<usize>,
}

/// Insert a table of contents.
#[derive(Debug)]
pub struct TocInput {
    pub document_handle: String,
    pub index: usize,
}

/// Insert a scene break.
#[derive(Debug)]
pub struct SceneBreakInput {
    pub document_handle: String,
    pub index: usize,
    /// "asterisks", "diamond", or "blank"
    pub style: Option<String>,
}

/// Set header and footer text.
#[derive(Debug)]
pub struct HeaderFooterInput {
    pub document_handle: String,
    pub header: Option<String>,
    pub footer: Option<String>,
}

/// Export a document.
#[derive(Debug)]
pub struct ExportInput {
    pub document_handle: String,
}

} // verus!
