use docxkit::xml_read::{reader_from_bytes};
use docxkit::chars::{parse_i32_str, parse_u32_str};
use docxkit::document::CT_SectPr;
use docxkit::drawing::{CT_Drawing, CT_Inline};
use docxkit::error::OxmlError;
use docxkit::header_footer::{HdrFtrRef, HdrFtrType};
use docxkit::html::{base64_encode, escape_html};
use docxkit::math::{from_latex, MathNode};
use docxkit::namespace::matches_local_name;
use docxkit::properties::{CT_PPr, CT_RPr};
use docxkit::shared::{ST_Jc, ST_Underline};
use docxkit::style_resolver::resolve_paragraph_properties;
use docxkit::styles::{CT_Style, CT_Styles, StyleType};
use docxkit::text::{CT_P, CT_R, FieldType, HyperlinkSpan, RunContent};
use docxkit::theme::ThemeColors;
use docxkit::units::Twips;
use docxkit::xml_read::{read_event, ReadEvent};

fn math_xml(n: &MathNode) -> String {
    let mut out = Vec::new();
    n.write(&mut out);
    String::from_utf8(out).unwrap()
}

fn read_rpr(xml: &str) -> Result<CT_RPr, OxmlError> {
    let full = format!("<w:rPr>{xml}</w:rPr>");
    let mut reader = reader_from_bytes(full.as_bytes(), true);
    loop {
        match read_event(&mut reader) {
            Ok(ReadEvent::Start(t)) if matches_local_name(t.name.as_bytes(), b"rPr") => break,
            Ok(ReadEvent::Eof) => panic!("no rPr"),
            _ => {}
        }
    }
    CT_RPr::from_xml(&mut reader)
}

fn read_ppr(xml: &str) -> Result<CT_PPr, OxmlError> {
    let full = format!("<w:pPr>{xml}</w:pPr>");
    let mut reader = reader_from_bytes(full.as_bytes(), true);
    loop {
        match read_event(&mut reader) {
            Ok(ReadEvent::Start(t)) if matches_local_name(t.name.as_bytes(), b"pPr") => break,
            Ok(ReadEvent::Eof) => panic!("no pPr"),
            _ => {}
        }
    }
    CT_PPr::from_xml(&mut reader)
}

#[test]
fn latex_power_exact_omml() {
    let x = math_xml(&from_latex("x^2"));
    assert_eq!(
        x,
        "<m:sSup><m:e><m:r><m:t>x</m:t></m:r></m:e><m:sup><m:r><m:t>2</m:t></m:r></m:sup></m:sSup>"
    );
}

#[test]
fn latex_unknown_command_is_its_name() {
    let x = math_xml(&from_latex(r"\foo"));
    assert_eq!(x, "<m:r><m:t>foo</m:t></m:r>");
}

#[test]
fn latex_sqrt_with_degree_and_left_right() {
    let r = math_xml(&from_latex(r"\sqrt[3]{x}"));
    assert!(r.contains(r#"<m:degHide m:val="0"/>"#), "{r}");
    assert!(r.contains("<m:deg><m:r><m:t>3</m:t></m:r></m:deg>"), "{r}");
    let d = math_xml(&from_latex(r"\left[ a \right]"));
    assert!(d.contains(r#"<m:begChr m:val="["/>"#), "{d}");
    assert!(d.contains(r#"<m:endChr m:val=")"/>"#), "{d}");
}

#[test]
fn math_text_is_escaped() {
    let x = math_xml(&MathNode::run("a<b&c"));
    assert_eq!(x, "<m:r><m:t>a&lt;b&amp;c</m:t></m:r>");
    let d = math_xml(&MathNode::Delimiter("\"".into(), ")".into(), vec![]));
    assert!(d.contains(r#"<m:begChr m:val="&quot;"/>"#), "{d}");
}

#[test]
fn html_escape_law_example() {
    assert_eq!(escape_html("<b>\"x\" & y</b>"), "&lt;b&gt;&quot;x&quot; &amp; y&lt;/b&gt;");
}

#[test]
fn base64_lengths_and_values() {
    assert_eq!(base64_encode(b"Man"), "TWFu");
    assert_eq!(base64_encode(b"Ma"), "TWE=");
    assert_eq!(base64_encode(b"M"), "TQ==");
    assert_eq!(base64_encode(b""), "");
    assert_eq!(base64_encode(b"hello world").len(), 16);
}

#[test]
fn number_parsing_edges() {
    assert_eq!(parse_i32_str("-4"), Some(-4));
    assert_eq!(parse_i32_str("+5"), Some(5));
    assert_eq!(parse_i32_str("-+5"), None);
    assert_eq!(parse_i32_str("-"), None);
    assert_eq!(parse_i32_str("2147483647"), Some(i32::MAX));
    assert_eq!(parse_i32_str("2147483648"), None);
    assert_eq!(parse_i32_str("-2147483648"), Some(i32::MIN));
    assert_eq!(parse_u32_str("4294967295"), Some(u32::MAX));
    assert_eq!(parse_u32_str("4294967296"), None);
    assert_eq!(parse_u32_str("12a"), None);
}

#[test]
fn toggles_read_back_as_written() {
    let off = CT_RPr { bold: Some(false), ..Default::default() };
    let mut out = Vec::new();
    off.to_xml(&mut out);
    let s = String::from_utf8(out).unwrap();
    assert_eq!(s, r#"<w:rPr><w:b w:val="false"/></w:rPr>"#);
    assert_eq!(read_rpr(r#"<w:b w:val="false"/>"#).unwrap().bold, Some(false));
    assert_eq!(read_rpr(r#"<w:b w:val="0"/>"#).unwrap().bold, Some(false));
    assert_eq!(read_rpr(r#"<w:b w:val="off"/>"#).unwrap().bold, Some(false));
    assert_eq!(read_rpr(r#"<w:b/>"#).unwrap().bold, Some(true));
    assert_eq!(read_rpr(r#"<w:b w:val="1"/>"#).unwrap().bold, Some(true));
}

#[test]
fn empty_properties_write_nothing() {
    let mut out = Vec::new();
    CT_RPr::default().to_xml(&mut out);
    CT_PPr::default().to_xml(&mut out);
    assert!(out.is_empty());
    let p = CT_PPr { jc: Some(ST_Jc::Both), ..Default::default() };
    p.to_xml(&mut out);
    assert_eq!(String::from_utf8(out).unwrap(), r#"<w:pPr><w:jc w:val="both"/></w:pPr>"#);
}

#[test]
fn rpr_color_theme_only_writes_black() {
    let r = CT_RPr { color_theme: Some("accent1".to_string()), ..Default::default() };
    let mut out = Vec::new();
    r.to_xml(&mut out);
    assert_eq!(
        String::from_utf8(out).unwrap(),
        r#"<w:rPr><w:color w:val="000000" w:themeColor="accent1"/></w:rPr>"#
    );
}

#[test]
fn read_errors_by_kind() {
    assert!(matches!(read_rpr(r#"<w:sz w:val="abc"/>"#), Err(OxmlError::ParseInt(_))));
    assert!(matches!(read_rpr(r#"<w:u w:val="bogus"/>"#), Err(OxmlError::InvalidValue(_))));
    assert!(matches!(read_rpr(r#"<w:highlight w:val="pink"/>"#), Err(OxmlError::InvalidValue(_))));
    assert!(matches!(read_ppr(r#"<w:jc w:val="middle"/>"#), Err(OxmlError::InvalidValue(_))));
    assert!(matches!(read_ppr(r#"<w:ind w:left="x"/>"#), Err(OxmlError::ParseInt(_))));
    assert!(matches!(read_ppr(r#"<w:spacing w:before="1.5"/>"#), Err(OxmlError::ParseInt(_))));
    assert!(matches!(read_rpr(r#"<w:b></w:i>"#), Err(OxmlError::Xml(_))));
}

#[test]
fn underline_without_value_is_single() {
    assert_eq!(read_rpr("<w:u/>").unwrap().underline, Some(ST_Underline::Single));
    assert_eq!(read_rpr(r#"<w:u w:val="double"/>"#).unwrap().underline, Some(ST_Underline::Double));
}

#[test]
fn indentation_start_end_aliases() {
    let p = read_ppr(r#"<w:ind w:start="360" w:end="-120" w:hanging="240"/>"#).unwrap();
    assert_eq!(p.ind_left, Some(Twips(360)));
    assert_eq!(p.ind_right, Some(Twips(-120)));
    assert_eq!(p.ind_hanging, Some(Twips(240)));
    let mut out = Vec::new();
    p.to_xml(&mut out);
    assert_eq!(
        String::from_utf8(out).unwrap(),
        r#"<w:pPr><w:ind w:left="360" w:right="-120" w:hanging="240"/></w:pPr>"#
    );
}

#[test]
fn derived_style_wins_over_base() {
    let mut styles = CT_Styles::new();
    styles.styles.push(CT_Style {
        style_id: "Base".to_string(),
        style_type: StyleType::Paragraph,
        name: None,
        based_on: None,
        next_style: None,
        is_default: false,
        ppr: Some(CT_PPr { jc: Some(ST_Jc::Left), space_after: Some(Twips(100)), ..Default::default() }),
        rpr: None,
        extra_xml: None,
    });
    styles.styles.push(CT_Style {
        style_id: "Derived".to_string(),
        style_type: StyleType::Paragraph,
        name: None,
        based_on: Some("Base".to_string()),
        next_style: None,
        is_default: false,
        ppr: Some(CT_PPr { jc: Some(ST_Jc::Right), ..Default::default() }),
        rpr: None,
        extra_xml: None,
    });
    let ppr = resolve_paragraph_properties(Some("Derived"), &styles);
    assert_eq!(ppr.jc, Some(ST_Jc::Right));
    assert_eq!(ppr.space_after, Some(Twips(100)));
}

#[test]
fn theme_alias_names() {
    let c = ThemeColors {
        dk1: Some("000000".to_string()),
        dk2: Some("44546A".to_string()),
        lt1: Some("FFFFFF".to_string()),
        lt2: Some("E7E6E6".to_string()),
        accent1: None,
        accent2: None,
        accent3: None,
        accent4: None,
        accent5: None,
        accent6: None,
        hlink: None,
        fol_hlink: None,
    };
    assert_eq!(c.get("text1"), Some("000000"));
    assert_eq!(c.get("dark1"), Some("000000"));
    assert_eq!(c.get("background1"), Some("FFFFFF"));
    assert_eq!(c.get("bg2"), Some("E7E6E6"));
    assert_eq!(c.get("text2"), c.get("dk2"));
    assert_eq!(c.get("accent1"), None);
    assert_eq!(c.get("nope"), None);
}

#[test]
fn paragraph_with_hyperlink_and_field() {
    let mut p = CT_P::new();
    p.add_run("a");
    p.add_run("b");
    p.runs.push(CT_R {
        properties: None,
        content: vec![RunContent::Field { field_type: FieldType::Page }],
        extra_xml: Vec::new(),
    });
    p.hyperlinks.push(HyperlinkSpan {
        rel_id: Some("rId9".to_string()),
        anchor: None,
        run_start: 1,
        run_end: 2,
    });
    p.extra_xml.push((0, b"<w:bookmarkStart w:id=\"0\"/>".to_vec()));
    p.extra_xml.push((3, b"<w:bookmarkEnd w:id=\"0\"/>".to_vec()));
    let mut out = Vec::new();
    p.to_xml(&mut out);
    assert_eq!(
        String::from_utf8(out).unwrap(),
        "<w:p><w:bookmarkStart w:id=\"0\"/><w:r><w:t>a</w:t></w:r><w:hyperlink r:id=\"rId9\"><w:r><w:t>b</w:t></w:r></w:hyperlink><w:fldSimple w:instr=\" PAGE \"><w:r><w:t>1</w:t></w:r></w:fldSimple><w:bookmarkEnd w:id=\"0\"/></w:p>"
    );
}

#[test]
fn run_with_space_preserved_text() {
    let r = CT_R::new(" lead");
    let mut out = Vec::new();
    r.to_xml(&mut out);
    assert_eq!(
        String::from_utf8(out).unwrap(),
        "<w:r><w:t xml:space=\"preserve\"> lead</w:t></w:r>"
    );
}

#[test]
fn inline_drawing_writes_picture() {
    let mut inline = CT_Inline::new("rId5", 914400, 457200);
    inline.name = Some("Pic".to_string());
    let d = CT_Drawing { inline: Some(inline), anchor: None };
    let mut out = Vec::new();
    d.to_xml(&mut out);
    let s = String::from_utf8(out).unwrap();
    assert!(s.starts_with(r#"<w:drawing><wp:inline distT="0" distB="0" distL="0" distR="0"><wp:extent cx="914400" cy="457200"/>"#), "{s}");
    assert!(s.contains(r#"<wp:docPr id="1" name="Pic"/>"#), "{s}");
    assert!(s.contains(r#"<a:blip r:embed="rId5"/>"#), "{s}");
    assert!(s.ends_with("</wp:inline></w:drawing>"), "{s}");
}

#[test]
fn inline_drawing_keeps_read_bytes() {
    let mut inline = CT_Inline::new("rId5", 1, 1);
    inline.raw_xml = Some(b"<wp:inline>kept</wp:inline>".to_vec());
    let d = CT_Drawing { inline: Some(inline), anchor: None };
    let mut out = Vec::new();
    d.to_xml(&mut out);
    assert_eq!(String::from_utf8(out).unwrap(), "<w:drawing><wp:inline>kept</wp:inline></w:drawing>");
}

#[test]
fn section_properties_write_and_read() {
    let sp = CT_SectPr {
        page_width: Some(Twips(12240)),
        page_height: Some(Twips(15840)),
        margin_top: Some(Twips(1440)),
        margin_bottom: None,
        margin_left: None,
        margin_right: None,
        header_refs: vec![HdrFtrRef { hdr_ftr_type: HdrFtrType::First, rel_id: "rId3".to_string() }],
        footer_refs: Vec::new(),
    };
    let mut out = Vec::new();
    sp.to_xml(&mut out);
    let s = String::from_utf8(out).unwrap();
    assert_eq!(
        s,
        r#"<w:sectPr><w:headerReference w:type="first" r:id="rId3"/><w:pgSz w:w="12240" w:h="15840"/><w:pgMar w:top="1440"/></w:sectPr>"#
    );
    let mut reader = reader_from_bytes(s.as_bytes(), true);
    loop {
        match read_event(&mut reader) {
            Ok(ReadEvent::Start(t)) if t.name == "w:sectPr" => break,
            _ => {}
        }
    }
    let back = CT_SectPr::from_xml(&mut reader).unwrap();
    assert_eq!(back, sp);
}

#[test]
fn math_text_takes_only_m_t_elements() {
    assert_eq!(docxkit::html::math_text(r#"<m:type m:val="lin"/><m:t>1</m:t>"#), "1");
    assert_eq!(docxkit::html::math_text("<m:r><m:t>x</m:t></m:r><m:r><m:t xml:space=\"preserve\"> y</m:t></m:r>"), "x y");
}
