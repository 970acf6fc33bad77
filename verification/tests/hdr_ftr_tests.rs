use docxkit::header_footer::CT_HdrFtr;
use docxkit::text::CT_P;

#[test]
fn round_trip_header() {
    let mut hdr = CT_HdrFtr::new();
    let mut p = CT_P::new();
    p.add_run("Page Header");
    hdr.paragraphs.push(p);

    let xml = hdr.to_xml_header().unwrap();
    let parsed = CT_HdrFtr::from_xml(&xml).unwrap();
    assert_eq!(parsed.paragraphs.len(), 1);
    assert_eq!(parsed.text(), "Page Header");
}

#[test]
fn round_trip_footer() {
    let mut ftr = CT_HdrFtr::new();
    let mut p = CT_P::new();
    p.add_run("Page Footer");
    ftr.paragraphs.push(p);

    let xml = ftr.to_xml_footer().unwrap();
    let parsed = CT_HdrFtr::from_xml(&xml).unwrap();
    assert_eq!(parsed.text(), "Page Footer");
}

#[test]
fn empty_header() {
    let hdr = CT_HdrFtr::new();
    let xml = hdr.to_xml_header().unwrap();
    let parsed = CT_HdrFtr::from_xml(&xml).unwrap();
    assert_eq!(parsed.paragraphs.len(), 0);
}

#[test]
fn empty_header_exact_bytes() {
    let hdr = CT_HdrFtr::new();
    let xml = String::from_utf8(hdr.to_xml_header().unwrap()).unwrap();
    assert_eq!(
        xml,
        "<?xml version=\"1.0\" encoding=\"UTF-8\" standalone=\"yes\"?><w:hdr xmlns:w=\"http://schemas.openxmlformats.org/wordprocessingml/2006/main\" xmlns:r=\"http://schemas.openxmlformats.org/officeDocument/2006/relationships\" xmlns:wp=\"http://schemas.openxmlformats.org/drawingml/2006/wordprocessingDrawing\"></w:hdr>"
    );
}

#[test]
fn header_keeps_extra_namespaces_only() {
    let xml = br#"<w:hdr xmlns:w="http://schemas.openxmlformats.org/wordprocessingml/2006/main" xmlns:r="R" xmlns:wp="WP" xmlns:w14="W14"><w:p><w:r><w:t>x</w:t></w:r></w:p><w:sdt/></w:hdr>"#;
    let parsed = CT_HdrFtr::from_xml(xml).unwrap();
    assert_eq!(
        parsed.extra_namespaces,
        vec![("xmlns:wp".to_string(), "WP".to_string()), ("xmlns:w14".to_string(), "W14".to_string())]
    );
    assert_eq!(parsed.extra_xml, vec![b"<w:sdt/>".to_vec()]);
    let out = String::from_utf8(parsed.to_xml_header().unwrap()).unwrap();
    assert_eq!(out.matches("xmlns:wp=").count(), 1);
    assert!(out.contains("xmlns:w14=\"W14\""));
}
