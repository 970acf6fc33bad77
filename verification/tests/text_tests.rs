use docxkit::xml_read::{reader_from_bytes, read_event, ReadEvent};
use docxkit::properties::CT_RPr;
use docxkit::shared::ST_Jc;
use docxkit::text::text_read::parse_field_instruction;
use docxkit::text::{FieldType, HyperlinkSpan, RunContent, CT_P, CT_R};

fn parse_paragraph(xml: &str) -> CT_P {
    let full = format!("<w:p>{xml}</w:p>");
    let mut reader = reader_from_bytes(full.as_bytes(), true);
    loop {
        match read_event(&mut reader) {
            Ok(ReadEvent::Start(t)) if t.name == "w:p" => break,
            Ok(ReadEvent::Eof) => panic!("no paragraph"),
            _ => {}
        }
    }
    CT_P::from_xml(&mut reader).unwrap()
}

fn inner_xml(p: &CT_P) -> String {
    let mut out = Vec::new();
    p.to_xml(&mut out);
    let xml = String::from_utf8(out).unwrap();
    xml.strip_prefix("<w:p>").unwrap().strip_suffix("</w:p>").unwrap().to_string()
}

#[test]
fn parse_simple_paragraph() {
    let p = parse_paragraph(r#"<w:r><w:t>Hello World</w:t></w:r>"#);
    assert_eq!(p.text(), "Hello World");
    assert_eq!(p.runs.len(), 1);
}

#[test]
fn parse_paragraph_with_properties() {
    let p = parse_paragraph(r#"<w:pPr><w:jc w:val="center"/></w:pPr><w:r><w:t>Centered</w:t></w:r>"#);
    assert_eq!(p.text(), "Centered");
    assert!(p.properties.is_some());
    assert_eq!(p.properties.as_ref().unwrap().jc, Some(ST_Jc::Center));
}

#[test]
fn parse_run_with_formatting() {
    let p = parse_paragraph(r#"<w:r><w:rPr><w:b/><w:i/></w:rPr><w:t>Bold Italic</w:t></w:r>"#);
    let run = &p.runs[0];
    let rpr = run.properties.as_ref().unwrap();
    assert_eq!(rpr.bold, Some(true));
    assert_eq!(rpr.italic, Some(true));
}

#[test]
fn parse_multiple_runs() {
    let p = parse_paragraph(r#"<w:r><w:t>Hello </w:t></w:r><w:r><w:t>World</w:t></w:r>"#);
    assert_eq!(p.runs.len(), 2);
    assert_eq!(p.text(), "Hello World");
}

#[test]
fn parse_hyperlink() {
    let p = parse_paragraph(r#"<w:hyperlink r:id="rId5"><w:r><w:t>Click here</w:t></w:r></w:hyperlink>"#);
    assert_eq!(p.runs.len(), 1);
    assert_eq!(p.text(), "Click here");
    assert_eq!(p.hyperlinks.len(), 1);
    assert_eq!(p.hyperlinks[0].rel_id, Some("rId5".to_string()));
    assert_eq!(p.hyperlinks[0].run_start, 0);
    assert_eq!(p.hyperlinks[0].run_end, 1);
}

#[test]
fn parse_hyperlink_with_anchor() {
    let p = parse_paragraph(r#"<w:hyperlink w:anchor="section1"><w:r><w:t>Go to section</w:t></w:r></w:hyperlink>"#);
    assert_eq!(p.hyperlinks.len(), 1);
    assert_eq!(p.hyperlinks[0].anchor, Some("section1".to_string()));
    assert!(p.hyperlinks[0].rel_id.is_none());
}

#[test]
fn parse_hyperlink_multiple_runs() {
    let p = parse_paragraph(
        r#"<w:r><w:t>Before </w:t></w:r><w:hyperlink r:id="rId6"><w:r><w:t>link </w:t></w:r><w:r><w:rPr><w:b/></w:rPr><w:t>text</w:t></w:r></w:hyperlink><w:r><w:t> after</w:t></w:r>"#,
    );
    assert_eq!(p.runs.len(), 4);
    assert_eq!(p.text(), "Before link text after");
    assert_eq!(p.hyperlinks.len(), 1);
    assert_eq!(p.hyperlinks[0].run_start, 1);
    assert_eq!(p.hyperlinks[0].run_end, 3);
}

#[test]
fn round_trip_hyperlink() {
    let mut p = CT_P::new();
    p.add_run("Before ");
    p.add_run("link text");
    p.add_run(" after");
    p.hyperlinks.push(HyperlinkSpan { rel_id: Some("rId7".to_string()), anchor: None, run_start: 1, run_end: 2 });
    let parsed = parse_paragraph(&inner_xml(&p));
    assert_eq!(parsed.text(), "Before link text after");
    assert_eq!(parsed.hyperlinks.len(), 1);
    assert_eq!(parsed.hyperlinks[0].rel_id, Some("rId7".to_string()));
    assert_eq!(parsed.hyperlinks[0].run_start, 1);
    assert_eq!(parsed.hyperlinks[0].run_end, 2);
}

#[test]
fn parse_fld_simple_page() {
    let p = parse_paragraph(r#"<w:fldSimple w:instr=" PAGE "><w:r><w:t>1</w:t></w:r></w:fldSimple>"#);
    assert_eq!(p.runs.len(), 1);
    assert_eq!(p.runs[0].content.len(), 1);
    assert!(matches!(p.runs[0].content[0], RunContent::Field { field_type: FieldType::Page }));
}

#[test]
fn parse_fld_simple_numpages() {
    let p = parse_paragraph(r#"<w:fldSimple w:instr=" NUMPAGES \* MERGEFORMAT "><w:r><w:t>5</w:t></w:r></w:fldSimple>"#);
    assert_eq!(p.runs.len(), 1);
    assert!(matches!(p.runs[0].content[0], RunContent::Field { field_type: FieldType::NumPages }));
}

#[test]
fn parse_fld_simple_mixed_with_text() {
    let p = parse_paragraph(
        r#"<w:r><w:t>Page </w:t></w:r><w:fldSimple w:instr=" PAGE "><w:r><w:t>1</w:t></w:r></w:fldSimple><w:r><w:t> of </w:t></w:r><w:fldSimple w:instr=" NUMPAGES "><w:r><w:t>5</w:t></w:r></w:fldSimple>"#,
    );
    assert_eq!(p.runs.len(), 4);
    assert_eq!(p.text(), "Page  of ");
    assert!(matches!(p.runs[1].content[0], RunContent::Field { field_type: FieldType::Page }));
    assert!(matches!(p.runs[3].content[0], RunContent::Field { field_type: FieldType::NumPages }));
}

#[test]
fn round_trip_fld_simple() {
    let mut p = CT_P::new();
    p.add_run("Page ");
    p.runs.push(CT_R {
        properties: None,
        content: vec![RunContent::Field { field_type: FieldType::Page }],
        extra_xml: Vec::new(),
    });
    let parsed = parse_paragraph(&inner_xml(&p));
    assert_eq!(parsed.runs.len(), 2);
    assert!(matches!(parsed.runs[1].content[0], RunContent::Field { field_type: FieldType::Page }));
}

#[test]
fn round_trip_paragraph() {
    let mut p = CT_P::new();
    p.add_run("Hello ");
    let run = p.add_run("World");
    run.properties = Some(CT_RPr { bold: Some(true), ..Default::default() });
    let parsed = parse_paragraph(&inner_xml(&p));
    assert_eq!(parsed.text(), "Hello World");
    assert_eq!(parsed.runs.len(), 2);
    assert_eq!(parsed.runs[1].properties.as_ref().unwrap().bold, Some(true));
}

#[test]
fn parse_footnote_reference() {
    let p = parse_paragraph(r#"<w:r><w:t>Some text</w:t></w:r><w:r><w:footnoteReference w:id="1"/></w:r>"#);
    assert_eq!(p.runs.len(), 2);
    assert_eq!(p.runs[0].text(), "Some text");
    assert_eq!(p.runs[1].content.len(), 1);
    assert!(matches!(p.runs[1].content[0], RunContent::FootnoteRef { id: 1 }));
}

#[test]
fn parse_endnote_reference() {
    let p = parse_paragraph(r#"<w:r><w:endnoteReference w:id="3"/></w:r>"#);
    assert_eq!(p.runs.len(), 1);
    assert!(matches!(p.runs[0].content[0], RunContent::EndnoteRef { id: 3 }));
}

#[test]
fn round_trip_footnote_reference() {
    let mut p = CT_P::new();
    p.add_run("Text before");
    p.runs.push(CT_R { properties: None, content: vec![RunContent::FootnoteRef { id: 2 }], extra_xml: Vec::new() });
    p.add_run(" text after");
    let parsed = parse_paragraph(&inner_xml(&p));
    assert_eq!(parsed.runs.len(), 3);
    assert!(matches!(parsed.runs[1].content[0], RunContent::FootnoteRef { id: 2 }));
}

#[test]
fn run_text_entities_and_breaks() {
    let p = parse_paragraph(r#"<w:r><w:t xml:space="preserve">a &amp; b</w:t><w:tab/><w:br w:type="page"/><w:br/></w:r>"#);
    let r = &p.runs[0];
    assert_eq!(r.text(), "a & b\t\n\n");
    assert!(matches!(r.content[2], RunContent::Break(docxkit::text::BreakType::Page)));
    assert!(matches!(r.content[3], RunContent::Break(docxkit::text::BreakType::Line)));
}

#[test]
fn unknown_paragraph_children_kept_in_place() {
    let p = parse_paragraph(r#"<w:bookmarkStart w:id="0" w:name="b"/><w:r><w:t>x</w:t></w:r><w:ins w:id="1"><w:r><w:t>y</w:t></w:r></w:ins>"#);
    assert_eq!(p.runs.len(), 1);
    assert_eq!(p.extra_xml.len(), 2);
    assert_eq!(p.extra_xml[0].0, 0);
    assert_eq!(String::from_utf8(p.extra_xml[0].1.clone()).unwrap(), r#"<w:bookmarkStart w:id="0" w:name="b"/>"#);
    assert_eq!(p.extra_xml[1].0, 1);
}

#[test]
fn field_instruction_kinds() {
    assert!(matches!(parse_field_instruction(" page \\* MERGEFORMAT"), FieldType::Page));
    assert!(matches!(parse_field_instruction("NUMPAGES"), FieldType::NumPages));
    match parse_field_instruction("  DATE \\@ yyyy ") {
        FieldType::Other(s) => assert_eq!(s, "DATE \\@ yyyy"),
        _ => panic!("expected other"),
    }
}
