use docxkit::footnotes::{CT_Footnote, CT_Footnotes};
use docxkit::text::CT_P;

#[test]
fn parse_footnotes_xml() {
    let xml = br#"<?xml version="1.0" encoding="UTF-8" standalone="yes"?>
    <w:footnotes xmlns:w="http://schemas.openxmlformats.org/wordprocessingml/2006/main">
        <w:footnote w:id="0">
            <w:p><w:r><w:t>separator</w:t></w:r></w:p>
        </w:footnote>
        <w:footnote w:id="1">
            <w:p><w:r><w:t>First footnote text.</w:t></w:r></w:p>
        </w:footnote>
        <w:footnote w:id="2">
            <w:p><w:r><w:t>Second footnote.</w:t></w:r></w:p>
            <w:p><w:r><w:t>With two paragraphs.</w:t></w:r></w:p>
        </w:footnote>
    </w:footnotes>"#;

    let footnotes = CT_Footnotes::from_xml(xml).unwrap();
    assert_eq!(footnotes.footnotes.len(), 2);
    assert_eq!(footnotes.footnotes[0].id, 1);
    assert_eq!(footnotes.footnotes[0].paragraphs.len(), 1);
    assert_eq!(footnotes.footnotes[0].paragraphs[0].text(), "First footnote text.");
    assert_eq!(footnotes.footnotes[1].id, 2);
    assert_eq!(footnotes.footnotes[1].paragraphs.len(), 2);
}

#[test]
fn parse_endnotes_xml() {
    let xml = br#"<?xml version="1.0" encoding="UTF-8" standalone="yes"?>
    <w:endnotes xmlns:w="http://schemas.openxmlformats.org/wordprocessingml/2006/main">
        <w:endnote w:id="0">
            <w:p><w:r><w:t>separator</w:t></w:r></w:p>
        </w:endnote>
        <w:endnote w:id="1">
            <w:p><w:r><w:t>An endnote.</w:t></w:r></w:p>
        </w:endnote>
    </w:endnotes>"#;

    let endnotes = CT_Footnotes::from_xml(xml).unwrap();
    assert_eq!(endnotes.footnotes.len(), 1);
    assert_eq!(endnotes.footnotes[0].id, 1);
}

#[test]
fn round_trip_footnotes() {
    let mut fn1_para = CT_P::new();
    fn1_para.add_run("First footnote.");
    let mut fn2_para = CT_P::new();
    fn2_para.add_run("Second footnote.");

    let footnotes = CT_Footnotes {
        footnotes: vec![
            CT_Footnote { id: 1, paragraphs: vec![fn1_para] },
            CT_Footnote { id: 2, paragraphs: vec![fn2_para] },
        ],
        separators: vec![],
    };

    let xml = footnotes.to_xml_footnotes().unwrap();
    let parsed = CT_Footnotes::from_xml(&xml).unwrap();
    assert_eq!(parsed.footnotes.len(), 2);
    assert_eq!(parsed.footnotes[0].id, 1);
    assert_eq!(parsed.footnotes[0].paragraphs[0].text(), "First footnote.");
    assert_eq!(parsed.footnotes[1].id, 2);
    assert_eq!(parsed.footnotes[1].paragraphs[0].text(), "Second footnote.");
}

#[test]
fn preserves_separator_footnotes() {
    let xml = br#"<w:footnotes xmlns:w="http://schemas.openxmlformats.org/wordprocessingml/2006/main"><w:footnote w:type="separator" w:id="-1"><w:p><w:r><w:separator/></w:r></w:p></w:footnote><w:footnote w:type="continuationSeparator" w:id="0"><w:p><w:r><w:continuationSeparator/></w:r></w:p></w:footnote><w:footnote w:id="1"><w:p><w:r><w:t>Note.</w:t></w:r></w:p></w:footnote></w:footnotes>"#;
    let parsed = CT_Footnotes::from_xml(xml).unwrap();
    assert_eq!(parsed.footnotes.len(), 1);
    assert_eq!(parsed.separators.len(), 2);
    let out = String::from_utf8(parsed.to_xml_footnotes().unwrap()).unwrap();
    assert!(out.contains("w:separator"), "separator lost: {out}");
    assert!(out.contains("continuationSeparator"), "continuation lost: {out}");
}

#[test]
fn endnotes_exact_bytes() {
    let notes = CT_Footnotes { footnotes: vec![CT_Footnote { id: -3 + 10, paragraphs: vec![] }], separators: vec![] };
    let out = String::from_utf8(notes.to_xml_endnotes().unwrap()).unwrap();
    assert_eq!(
        out,
        "<?xml version=\"1.0\" encoding=\"UTF-8\" standalone=\"yes\"?><w:endnotes xmlns:w=\"http://schemas.openxmlformats.org/wordprocessingml/2006/main\" xmlns:r=\"http://schemas.openxmlformats.org/officeDocument/2006/relationships\"><w:endnote w:id=\"7\"></w:endnote></w:endnotes>"
    );
}
