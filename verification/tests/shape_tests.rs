use docxkit::shapes::Shape;
use docxkit::units::Emu;

fn s(sh: &Shape) -> String {
    String::from_utf8(sh.to_run_bytes().unwrap()).unwrap()
}

#[test]
fn text_box_has_content() {
    let x = s(&Shape::text_box(Emu(2000000), Emu(1000000), vec!["Hello".into()]));
    assert!(x.contains("wps:wsp"), "{x}");
    assert!(x.contains(r#"txBox="1""#), "{x}");
    assert!(x.contains("<w:txbxContent>"), "{x}");
    assert!(x.contains("<w:t xml:space=\"preserve\">Hello</w:t>"), "{x}");
    assert!(x.contains(r#"prst="rect""#), "{x}");
}

#[test]
fn preset_shape_with_fill() {
    let mut sh = Shape::preset(Emu(900000), Emu(900000), "ellipse");
    sh.fill = Some("FFCC00".into());
    let x = s(&sh);
    assert!(x.contains(r#"prst="ellipse""#), "{x}");
    assert!(x.contains(r#"<a:srgbClr val="FFCC00"/>"#), "{x}");
    assert!(!x.contains("txBox"), "{x}");
}

#[test]
fn bare_shape_exact_properties() {
    let sh = Shape::preset(Emu(10), Emu(20), "rect");
    let x = s(&sh);
    let sppr = "<wps:spPr><a:xfrm><a:off x=\"0\" y=\"0\"/><a:ext cx=\"10\" cy=\"20\"/></a:xfrm><a:prstGeom prst=\"rect\"><a:avLst/></a:prstGeom></wps:spPr>";
    assert!(x.contains(sppr), "{x}");
    assert!(x.contains("<wps:cNvSpPr/>"), "{x}");
    assert!(x.contains("<wps:bodyPr rot=\"0\" anchor=\"t\"/></wps:wsp>"), "{x}");
    assert!(x.starts_with("<w:r><w:drawing><wp:inline "), "{x}");
}

#[test]
fn outline_written_with_width() {
    let x = s(&Shape::text_box(Emu(1), Emu(1), vec!["a < b".into()]));
    assert!(x.contains("<a:ln w=\"6350\"><a:solidFill><a:srgbClr val=\"000000\"/></a:solidFill></a:ln>"), "{x}");
    assert!(x.contains("a &lt; b"), "{x}");
}
