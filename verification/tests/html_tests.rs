use docxkit::document::{BodyContent, CT_Document};
use docxkit::html::{to_html_document, to_html_fragment, HtmlInput, HtmlOptions};
use docxkit::markdown::to_markdown;
use docxkit::properties::{CT_PPr, CT_RPr};
use docxkit::styles::CT_Styles;
use docxkit::table::{CT_Row, CT_Tbl, CT_Tc, CellContent};
use docxkit::text::{CT_P, CT_R};

fn simple_input(text: &str) -> HtmlInput {
    let mut doc = CT_Document::new();
    let mut p = CT_P::new();
    p.add_run(text);
    doc.body.add_paragraph(p);

    HtmlInput {
        document: doc,
        styles: CT_Styles::new_default(),
        numbering: None,
        images: Vec::new(),
        hyperlink_urls: Vec::new(),
    }
}

#[test]
fn html_document_basic() {
    let input = simple_input("Hello, World!");
    let html = to_html_document(&input, &HtmlOptions::default());
    assert!(html.contains("<!DOCTYPE html>"));
    assert!(html.contains("Hello, World!"));
    assert!(html.contains("<p"));
}

#[test]
fn html_fragment_basic() {
    let input = simple_input("Test paragraph");
    let html = to_html_fragment(&input, &HtmlOptions::default());
    assert!(html.contains("Test paragraph"));
    assert!(html.contains("<p"));
    assert!(!html.contains("<!DOCTYPE"));
}

#[test]
fn markdown_basic() {
    let input = simple_input("Test paragraph");
    let md = to_markdown(&input);
    assert!(md.contains("Test paragraph"));
}

#[test]
fn html_heading() {
    let mut doc = CT_Document::new();
    let mut p = CT_P::new();
    p.add_run("Chapter 1");
    p.properties = Some(CT_PPr { style_id: Some("Heading1".to_string()), ..Default::default() });
    doc.body.add_paragraph(p);

    let input = HtmlInput {
        document: doc,
        styles: CT_Styles::new_default(),
        numbering: None,
        images: Vec::new(),
        hyperlink_urls: Vec::new(),
    };

    let html = to_html_fragment(&input, &HtmlOptions::default());
    assert!(html.contains("<h1"));
    assert!(html.contains("Chapter 1"));
}

#[test]
fn html_table() {
    let mut doc = CT_Document::new();
    let mut tbl = CT_Tbl::new();
    let mut row = CT_Row::new();
    let mut cell = CT_Tc::new();
    let mut p = CT_P::new();
    p.add_run("Cell text");
    cell.content = vec![CellContent::Paragraph(p)];
    row.cells.push(cell);
    tbl.rows.push(row);
    doc.body.content.push(BodyContent::Table(tbl));

    let input = HtmlInput {
        document: doc,
        styles: CT_Styles::new_default(),
        numbering: None,
        images: Vec::new(),
        hyperlink_urls: Vec::new(),
    };

    let html = to_html_fragment(&input, &HtmlOptions::default());
    assert!(html.contains("<table"));
    assert!(html.contains("<td"));
    assert!(html.contains("Cell text"));
}

#[test]
fn markdown_heading() {
    let mut doc = CT_Document::new();
    let mut p = CT_P::new();
    p.add_run("Title");
    p.properties = Some(CT_PPr { style_id: Some("Heading1".to_string()), ..Default::default() });
    doc.body.add_paragraph(p);

    let input = HtmlInput {
        document: doc,
        styles: CT_Styles::new_default(),
        numbering: None,
        images: Vec::new(),
        hyperlink_urls: Vec::new(),
    };

    let md = to_markdown(&input);
    assert!(md.contains("# Title"));
}

#[test]
fn html_bold_italic() {
    let mut doc = CT_Document::new();
    let mut p = CT_P::new();
    let mut r = CT_R::new("bold text");
    r.properties = Some(CT_RPr { bold: Some(true), italic: Some(true), ..Default::default() });
    p.runs.push(r);
    doc.body.add_paragraph(p);

    let input = HtmlInput {
        document: doc,
        styles: CT_Styles::new_default(),
        numbering: None,
        images: Vec::new(),
        hyperlink_urls: Vec::new(),
    };

    let html = to_html_fragment(&input, &HtmlOptions::default());
    assert!(html.contains("<strong"));
    assert!(html.contains("<em"));
    assert!(html.contains("bold text"));
}
