use docxkit::styles::CT_Styles;

#[test]
fn round_trip_styles() {
    let styles = CT_Styles::new_default();
    let xml = styles.to_xml().unwrap();
    let parsed = CT_Styles::from_xml(&xml).unwrap();

    assert_eq!(parsed.styles.len(), 13);
    assert!(parsed.doc_defaults.is_some());

    let normal = parsed.get_by_id("Normal").unwrap();
    assert_eq!(normal.name, Some("Normal".to_string()));
    assert!(normal.is_default);

    let h1 = parsed.get_by_id("Heading1").unwrap();
    assert_eq!(h1.based_on, Some("Normal".to_string()));
}

#[test]
fn style_preserves_unknown_children() {
    let xml = br#"<w:styles xmlns:w="http://schemas.openxmlformats.org/wordprocessingml/2006/main"><w:latentStyles w:defLockedState="0"><w:lsdException w:name="Normal"/></w:latentStyles><w:style w:type="paragraph" w:styleId="Quote"><w:name w:val="Quote"/><w:uiPriority w:val="29"/><w:qFormat/><w:link w:val="QuoteChar"/></w:style></w:styles>"#;
    let parsed = CT_Styles::from_xml(xml).unwrap();
    let out = String::from_utf8(parsed.to_xml().unwrap()).unwrap();
    assert!(out.contains("w:uiPriority"), "uiPriority lost: {out}");
    assert!(out.contains("w:qFormat"), "qFormat lost: {out}");
    assert!(out.contains(r#"w:val="QuoteChar""#), "link lost: {out}");
    assert!(out.contains("w:latentStyles"), "latentStyles lost: {out}");
}

#[test]
fn unknown_style_type_is_refused() {
    let xml = br#"<w:styles xmlns:w="x"><w:style w:type="bogus" w:styleId="S"/></w:styles>"#;
    // An empty style element is kept verbatim, not read.
    assert!(CT_Styles::from_xml(xml).is_ok());
    let xml2 = br#"<w:styles xmlns:w="x"><w:style w:type="bogus" w:styleId="S"><w:name w:val="S"/></w:style></w:styles>"#;
    assert!(CT_Styles::from_xml(xml2).is_err());
}

#[test]
fn style_exact_bytes() {
    let xml = br#"<w:styles xmlns:w="x"><w:style w:type="character" w:styleId="Em" w:default="true"><w:name w:val="Emphasis"/></w:style></w:styles>"#;
    let parsed = CT_Styles::from_xml(xml).unwrap();
    let s = &parsed.styles[0];
    assert!(s.is_default);
    let mut out = Vec::new();
    s.to_xml(&mut out);
    assert_eq!(
        String::from_utf8(out).unwrap(),
        "<w:style w:type=\"character\" w:styleId=\"Em\" w:default=\"1\"><w:name w:val=\"Emphasis\"/></w:style>"
    );
}
