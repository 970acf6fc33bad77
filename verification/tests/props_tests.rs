use docxkit::app_properties::AppProperties;
use docxkit::core_properties::CoreProperties;

#[test]
fn parse_core_properties() {
    let xml = br#"<?xml version="1.0" encoding="UTF-8" standalone="yes"?>
<cp:coreProperties xmlns:cp="http://schemas.openxmlformats.org/package/2006/metadata/core-properties"
                   xmlns:dc="http://purl.org/dc/elements/1.1/"
                   xmlns:dcterms="http://purl.org/dc/terms/"
                   xmlns:xsi="http://www.w3.org/2001/XMLSchema-instance">
  <dc:title>Test Document</dc:title>
  <dc:creator>John Doe</dc:creator>
  <dc:subject>Testing</dc:subject>
  <dc:description>A test document</dc:description>
  <cp:keywords>test, document</cp:keywords>
  <cp:lastModifiedBy>Jane Doe</cp:lastModifiedBy>
  <dcterms:created xsi:type="dcterms:W3CDTF">2024-01-15T10:30:00Z</dcterms:created>
  <dcterms:modified xsi:type="dcterms:W3CDTF">2024-06-20T14:00:00Z</dcterms:modified>
</cp:coreProperties>"#;

    let props = CoreProperties::from_xml(xml).unwrap();
    assert_eq!(props.title, Some("Test Document".to_string()));
    assert_eq!(props.creator, Some("John Doe".to_string()));
    assert_eq!(props.subject, Some("Testing".to_string()));
    assert_eq!(props.description, Some("A test document".to_string()));
    assert_eq!(props.keywords, Some("test, document".to_string()));
    assert_eq!(props.last_modified_by, Some("Jane Doe".to_string()));
    assert_eq!(props.created, Some("2024-01-15T10:30:00Z".to_string()));
    assert_eq!(props.modified, Some("2024-06-20T14:00:00Z".to_string()));
}

#[test]
fn round_trip_core_properties() {
    let props = CoreProperties {
        title: Some("My Title".to_string()),
        creator: Some("Author".to_string()),
        subject: None,
        description: None,
        keywords: Some("rust, docx".to_string()),
        last_modified_by: None,
        created: Some("2024-01-01T00:00:00Z".to_string()),
        modified: Some("2024-06-01T00:00:00Z".to_string()),
    };

    let xml = props.to_xml().unwrap();
    let parsed = CoreProperties::from_xml(&xml).unwrap();

    assert_eq!(parsed.title, props.title);
    assert_eq!(parsed.creator, props.creator);
    assert_eq!(parsed.keywords, props.keywords);
    assert_eq!(parsed.created, props.created);
    assert_eq!(parsed.modified, props.modified);
}

#[test]
fn core_properties_entities_and_layout() {
    let props = CoreProperties { title: Some("A & B".to_string()), ..Default::default() };
    let xml = String::from_utf8(props.to_xml().unwrap()).unwrap();
    assert!(xml.contains("\n  <dc:title>A &amp; B</dc:title>\n</cp:coreProperties>"), "{xml}");
    let parsed = CoreProperties::from_xml(xml.as_bytes()).unwrap();
    assert_eq!(parsed.title, Some("A & B".to_string()));
}

#[test]
fn round_trips() {
    let p = AppProperties {
        application: Some("zavora-docx".into()),
        company: Some("Zavora & Partners".into()),
        pages: Some(3),
        words: Some(120),
        ..Default::default()
    };
    let xml = p.to_xml().unwrap();
    let s = String::from_utf8(xml.clone()).unwrap();
    assert!(s.contains("<Company>Zavora &amp; Partners</Company>"), "{s}");
    assert!(s.contains("<Words>120</Words>"), "{s}");
    let parsed = AppProperties::from_xml(&xml).unwrap();
    assert_eq!(parsed.company.as_deref(), Some("Zavora & Partners"));
    assert_eq!(parsed.pages, Some(3));
}

#[test]
fn app_properties_exact_bytes() {
    let p = AppProperties { template: Some("Normal".into()), characters: Some(7), ..Default::default() };
    let s = String::from_utf8(p.to_xml().unwrap()).unwrap();
    assert_eq!(
        s,
        "<?xml version=\"1.0\" encoding=\"UTF-8\" standalone=\"yes\"?><Properties xmlns=\"http://schemas.openxmlformats.org/officeDocument/2006/extended-properties\"><Template>Normal</Template><Characters>7</Characters></Properties>"
    );
}
