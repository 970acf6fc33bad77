use docxkit::theme::Theme;

#[test]
fn parse_office_theme() {
    let xml = br#"<?xml version="1.0" encoding="UTF-8" standalone="yes"?>
<a:theme xmlns:a="http://schemas.openxmlformats.org/drawingml/2006/main" name="Office Theme">
  <a:themeElements>
    <a:clrScheme name="Office">
      <a:dk1><a:sysClr val="windowText" lastClr="000000"/></a:dk1>
      <a:lt1><a:sysClr val="window" lastClr="FFFFFF"/></a:lt1>
      <a:dk2><a:srgbClr val="44546A"/></a:dk2>
      <a:lt2><a:srgbClr val="E7E6E6"/></a:lt2>
      <a:accent1><a:srgbClr val="4472C4"/></a:accent1>
      <a:accent2><a:srgbClr val="ED7D31"/></a:accent2>
      <a:accent3><a:srgbClr val="A5A5A5"/></a:accent3>
      <a:accent4><a:srgbClr val="FFC000"/></a:accent4>
      <a:accent5><a:srgbClr val="5B9BD5"/></a:accent5>
      <a:accent6><a:srgbClr val="70AD47"/></a:accent6>
      <a:hlink><a:srgbClr val="0563C1"/></a:hlink>
      <a:folHlink><a:srgbClr val="954F72"/></a:folHlink>
    </a:clrScheme>
    <a:fontScheme name="Office">
      <a:majorFont>
        <a:latin typeface="Calibri Light"/>
        <a:ea typeface=""/>
        <a:cs typeface=""/>
      </a:majorFont>
      <a:minorFont>
        <a:latin typeface="Calibri"/>
        <a:ea typeface=""/>
        <a:cs typeface=""/>
      </a:minorFont>
    </a:fontScheme>
  </a:themeElements>
</a:theme>"#;

    let theme = Theme::from_xml(xml).unwrap();

    assert_eq!(theme.colors.dk1.as_deref(), Some("000000"));
    assert_eq!(theme.colors.lt1.as_deref(), Some("FFFFFF"));
    assert_eq!(theme.colors.dk2.as_deref(), Some("44546A"));
    assert_eq!(theme.colors.lt2.as_deref(), Some("E7E6E6"));
    assert_eq!(theme.colors.accent1.as_deref(), Some("4472C4"));
    assert_eq!(theme.colors.accent2.as_deref(), Some("ED7D31"));
    assert_eq!(theme.colors.hlink.as_deref(), Some("0563C1"));
    assert_eq!(theme.colors.fol_hlink.as_deref(), Some("954F72"));

    assert_eq!(theme.major_font.as_deref(), Some("Calibri Light"));
    assert_eq!(theme.minor_font.as_deref(), Some("Calibri"));
}

#[test]
fn sys_color_without_last_falls_back_to_val() {
    let xml = br#"<a:clrScheme><a:dk1><a:sysClr val="windowText"/></a:dk1><a:accent3/><a:lt1><a:scrgbClr r="0"/></a:lt1></a:clrScheme>"#;
    let theme = Theme::from_xml(xml).unwrap();
    assert_eq!(theme.colors.dk1.as_deref(), Some("windowText"));
    assert_eq!(theme.colors.lt1, None);
    assert_eq!(theme.colors.accent3, None);
    assert_eq!(theme.major_font, None);
}
