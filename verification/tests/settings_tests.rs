use docxkit::settings::CT_Settings;
use docxkit::units::Twips;

#[test]
fn writes_typed_settings() {
    let s = CT_Settings { mirror_margins: true, default_tab_stop: Some(Twips(720)), zoom_percent: Some(150), ..Default::default() };
    let xml = String::from_utf8(s.to_bytes().unwrap()).unwrap();
    assert!(xml.contains("w:mirrorMargins"), "{xml}");
    assert!(xml.contains(r#"w:val="720""#), "{xml}");
    assert!(xml.contains(r#"w:percent="150""#), "{xml}");
}

#[test]
fn preserves_unknown_settings() {
    let xml = r#"<?xml version="1.0"?><w:settings xmlns:w="http://schemas.openxmlformats.org/wordprocessingml/2006/main"><w:mirrorMargins/><w:doNotExpandShiftReturn/></w:settings>"#;
    let s = CT_Settings::from_xml(xml.as_bytes()).unwrap();
    assert!(s.mirror_margins);
    let out = String::from_utf8(s.to_bytes().unwrap()).unwrap();
    assert!(out.contains("w:doNotExpandShiftReturn"), "lost unknown: {out}");
}

#[test]
fn round_trips_lang() {
    let xml = r#"<w:settings xmlns:w="http://schemas.openxmlformats.org/wordprocessingml/2006/main"><w:themeFontLang w:val="fr-FR"/></w:settings>"#;
    let s = CT_Settings::from_xml(xml.as_bytes()).unwrap();
    assert_eq!(s.theme_font_lang.as_ref().unwrap().val.as_deref(), Some("fr-FR"));
    let out = String::from_utf8(s.to_bytes().unwrap()).unwrap();
    assert!(out.contains(r#"w:val="fr-FR""#), "{out}");
}

#[test]
fn settings_exact_bytes() {
    let s = CT_Settings { track_changes: true, protection: Some("readOnly".into()), update_fields: true, ..Default::default() };
    let xml = String::from_utf8(s.to_bytes().unwrap()).unwrap();
    assert_eq!(
        xml,
        "<?xml version=\"1.0\" encoding=\"UTF-8\" standalone=\"yes\"?><w:settings xmlns:w=\"http://schemas.openxmlformats.org/wordprocessingml/2006/main\"><w:trackChanges/><w:documentProtection w:edit=\"readOnly\" w:enforcement=\"1\"/><w:updateFields w:val=\"true\"/></w:settings>"
    );
}

#[test]
fn bad_zoom_reads_as_none() {
    let xml = r#"<w:settings xmlns:w="x"><w:zoom w:percent="big"/><w:defaultTabStop w:val="-5"/></w:settings>"#;
    let s = CT_Settings::from_xml(xml.as_bytes()).unwrap();
    assert_eq!(s.zoom_percent, None);
    assert_eq!(s.default_tab_stop, Some(Twips(-5)));
    assert!(s.extra_xml.is_empty());
}
