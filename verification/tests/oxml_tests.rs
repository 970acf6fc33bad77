use docxkit::xml_read::{reader_from_bytes};
use docxkit::borders::{CT_BorderEdge, CT_PBdr, CT_TabStop, CT_Tabs};
use docxkit::namespace::matches_local_name;
use docxkit::properties::{CT_PPr, CT_RPr};
use docxkit::shared::{ST_Border, ST_Jc, ST_TabJc, ST_TabLeader, ST_Underline};
use docxkit::units::{HalfPoint, Twips};
use docxkit::xml_read::{capture_element, capture_empty_element, read_event, ReadEvent};
use docxkit::xml_read::XmlReader;

fn skip_to_start(reader: &mut XmlReader, local: &str) {
    loop {
        match read_event(reader) {
            Ok(ReadEvent::Start(t)) if matches_local_name(t.name.as_bytes(), local.as_bytes()) => break,
            Ok(ReadEvent::Eof) => panic!("no <{local}> start tag"),
            Err(e) => panic!("{e:?}"),
            _ => {}
        }
    }
}

fn parse_ppr(xml: &str) -> CT_PPr {
    let full = format!("<w:pPr>{xml}</w:pPr>");
    let mut reader = reader_from_bytes(full.as_bytes(), true);
    skip_to_start(&mut reader, "pPr");
    CT_PPr::from_xml(&mut reader).unwrap()
}

fn parse_rpr(xml: &str) -> CT_RPr {
    let full = format!("<w:rPr>{xml}</w:rPr>");
    let mut reader = reader_from_bytes(full.as_bytes(), true);
    skip_to_start(&mut reader, "rPr");
    CT_RPr::from_xml(&mut reader).unwrap()
}

fn rpr_to_string(rpr: &CT_RPr) -> String {
    let mut out = Vec::new();
    rpr.to_xml(&mut out);
    String::from_utf8(out).unwrap()
}

fn ppr_to_string(ppr: &CT_PPr) -> String {
    let mut out = Vec::new();
    ppr.to_xml(&mut out);
    String::from_utf8(out).unwrap()
}

#[test]
fn parse_basic_ppr() {
    let ppr = parse_ppr(r#"<w:pStyle w:val="Heading1"/><w:jc w:val="center"/>"#);
    assert_eq!(ppr.style_id, Some("Heading1".to_string()));
    assert_eq!(ppr.jc, Some(ST_Jc::Center));
}

#[test]
fn parse_spacing() {
    let ppr = parse_ppr(r#"<w:spacing w:before="240" w:after="120" w:line="360"/>"#);
    assert_eq!(ppr.space_before, Some(Twips(240)));
    assert_eq!(ppr.space_after, Some(Twips(120)));
    assert_eq!(ppr.line_spacing, Some(Twips(360)));
}

#[test]
fn track_change_revisions_round_trip() {
    // rPrChange carries the previous run props (bold).
    let rpr = parse_rpr(r#"<w:i/><w:rPrChange w:author="Ed" w:date="2024-01-01T00:00:00Z"><w:rPr><w:b/></w:rPr></w:rPrChange>"#);
    assert_eq!(rpr.italic, Some(true));
    let ch = rpr.rpr_change.as_ref().expect("rpr_change parsed");
    assert_eq!(ch.author, "Ed");
    assert_eq!(ch.previous.bold, Some(true));
    let out = rpr_to_string(&rpr);
    assert!(out.contains("w:rPrChange"), "{out}");
    assert!(out.contains(r#"w:author="Ed""#), "{out}");
    assert!(out.contains("<w:b/>"), "previous bold lost: {out}");
}

#[test]
fn rpr_preserves_unknown_elements() {
    // w:lang and w:em aren't typed fields — must round-trip via extra_xml.
    let rpr = parse_rpr(r#"<w:b/><w:lang w:val="en-US" w:eastAsia="ja-JP"/><w:em w:val="dot"/>"#);
    assert_eq!(rpr.bold, Some(true));
    let out = rpr_to_string(&rpr);
    assert!(out.contains(r#"w:val="en-US""#), "lang lost: {out}");
    assert!(out.contains("w:em"), "em lost: {out}");
}

#[test]
fn ppr_preserves_unknown_nested_elements() {
    // w:rPrChange (tracked-change revision) is a nested element we don't model.
    let ppr = parse_ppr(
        r#"<w:jc w:val="both"/><w:rPrChange w:id="1" w:author="A"><w:rPr/></w:rPrChange>"#,
    );
    assert_eq!(ppr.jc, Some(ST_Jc::Both));
    let out = ppr_to_string(&ppr);
    assert!(out.contains("w:rPrChange"), "rPrChange lost: {out}");
    assert!(out.contains(r#"w:author="A""#), "revision attrs lost: {out}");
}

#[test]
fn parse_borders() {
    let ppr = parse_ppr(
        r#"<w:pBdr><w:top w:val="single" w:sz="4" w:space="1" w:color="000000"/><w:bottom w:val="double" w:sz="6"/></w:pBdr>"#,
    );
    let borders = ppr.borders.unwrap();
    assert_eq!(borders.top.as_ref().unwrap().val, ST_Border::Single);
    assert_eq!(borders.top.as_ref().unwrap().sz, Some(4));
    assert_eq!(borders.bottom.as_ref().unwrap().val, ST_Border::Double);
    assert!(borders.left.is_none());
}

#[test]
fn parse_tabs() {
    let ppr = parse_ppr(
        r#"<w:tabs><w:tab w:val="left" w:pos="720"/><w:tab w:val="right" w:pos="8640" w:leader="dot"/></w:tabs>"#,
    );
    let tabs = ppr.tabs.unwrap();
    assert_eq!(tabs.tabs.len(), 2);
    assert_eq!(tabs.tabs[0].pos, Twips(720));
    assert_eq!(tabs.tabs[1].leader, Some(ST_TabLeader::Dot));
}

#[test]
fn parse_shading() {
    let ppr = parse_ppr(r#"<w:shd w:val="clear" w:fill="FFFF00"/>"#);
    let shd = ppr.shading.unwrap();
    assert_eq!(shd.val, "clear");
    assert_eq!(shd.fill, Some("FFFF00".to_string()));
}

#[test]
fn parse_basic_rpr() {
    let rpr = parse_rpr(r#"<w:b/><w:i/><w:sz w:val="24"/><w:color w:val="FF0000"/>"#);
    assert_eq!(rpr.bold, Some(true));
    assert_eq!(rpr.italic, Some(true));
    assert_eq!(rpr.sz, Some(HalfPoint(24)));
    assert_eq!(rpr.color, Some("FF0000".to_string()));
}

#[test]
fn parse_rpr_spacing() {
    let rpr = parse_rpr(r#"<w:spacing w:val="20"/><w:w w:val="150"/><w:position w:val="-4"/>"#);
    assert_eq!(rpr.spacing, Some(Twips(20)));
    assert_eq!(rpr.width_scale, Some(150));
    assert_eq!(rpr.position, Some(-4));
}

#[test]
fn round_trip_rpr() {
    let original = CT_RPr {
        bold: Some(true),
        italic: Some(true),
        sz: Some(HalfPoint(24)),
        color: Some("FF0000".to_string()),
        underline: Some(ST_Underline::Single),
        spacing: Some(Twips(20)),
        ..Default::default()
    };

    let mut output = Vec::new();
    original.to_xml(&mut output);
    let xml = String::from_utf8(output).unwrap();

    let inner = xml
        .strip_prefix("<w:rPr>")
        .unwrap()
        .strip_suffix("</w:rPr>")
        .unwrap();
    let parsed = parse_rpr(inner);
    assert_eq!(parsed.bold, original.bold);
    assert_eq!(parsed.italic, original.italic);
    assert_eq!(parsed.sz, original.sz);
    assert_eq!(parsed.color, original.color);
    assert_eq!(parsed.underline, original.underline);
    assert_eq!(parsed.spacing, original.spacing);
}

fn empty_pbdr() -> CT_PBdr {
    CT_PBdr { top: None, bottom: None, left: None, right: None, between: None, bar: None }
}

#[test]
fn round_trip_borders() {
    let bdr = CT_PBdr {
        top: Some(CT_BorderEdge {
            val: ST_Border::Single,
            sz: Some(4),
            space: Some(1),
            color: Some("000000".to_string()),
        }),
        bottom: Some(CT_BorderEdge {
            val: ST_Border::Double,
            sz: Some(6),
            space: Some(2),
            color: Some("FF0000".to_string()),
        }),
        ..empty_pbdr()
    };

    let mut output = Vec::new();
    bdr.to_xml(&mut output);
    let xml = String::from_utf8(output).unwrap();

    let mut reader = reader_from_bytes(xml.as_bytes(), true);
    skip_to_start(&mut reader, "pBdr");
    let parsed = CT_PBdr::from_xml(&mut reader).unwrap();

    assert_eq!(parsed.top.as_ref().unwrap().val, ST_Border::Single);
    assert_eq!(parsed.top.as_ref().unwrap().sz, Some(4));
    assert_eq!(parsed.bottom.as_ref().unwrap().val, ST_Border::Double);
    assert!(parsed.left.is_none());
}

#[test]
fn round_trip_tabs() {
    let tabs = CT_Tabs {
        tabs: vec![
            CT_TabStop { val: ST_TabJc::Left, pos: Twips(720), leader: None },
            CT_TabStop { val: ST_TabJc::Center, pos: Twips(4320), leader: Some(ST_TabLeader::Dot) },
            CT_TabStop { val: ST_TabJc::Right, pos: Twips(8640), leader: Some(ST_TabLeader::Hyphen) },
        ],
    };

    let mut output = Vec::new();
    tabs.to_xml(&mut output);
    let xml = String::from_utf8(output).unwrap();

    let mut reader = reader_from_bytes(xml.as_bytes(), true);
    skip_to_start(&mut reader, "tabs");
    let parsed = CT_Tabs::from_xml(&mut reader).unwrap();

    assert_eq!(parsed.tabs.len(), 3);
    assert_eq!(parsed.tabs[0].val, ST_TabJc::Left);
    assert_eq!(parsed.tabs[0].pos, Twips(720));
    assert_eq!(parsed.tabs[1].val, ST_TabJc::Center);
    assert_eq!(parsed.tabs[1].leader, Some(ST_TabLeader::Dot));
    assert_eq!(parsed.tabs[2].val, ST_TabJc::Right);
}

#[test]
fn border_edge_all_styles_round_trip() {
    // Test that all border styles serialize and deserialize correctly
    let styles = [
        ST_Border::Nil,
        ST_Border::Single,
        ST_Border::Thick,
        ST_Border::Double,
        ST_Border::Dotted,
        ST_Border::Dashed,
        ST_Border::DotDash,
        ST_Border::Wave,
    ];

    for &style in &styles {
        let bdr = CT_PBdr {
            top: Some(CT_BorderEdge {
                val: style,
                sz: Some(8),
                space: Some(0),
                color: Some("FF00FF".to_string()),
            }),
            ..empty_pbdr()
        };

        let mut output = Vec::new();
        bdr.to_xml(&mut output);
        let xml = String::from_utf8(output).unwrap();

        let mut reader = reader_from_bytes(xml.as_bytes(), true);
        skip_to_start(&mut reader, "pBdr");
        let parsed = CT_PBdr::from_xml(&mut reader).unwrap();
        let top = parsed.top.as_ref().unwrap();
        assert_eq!(top.val, style, "Border style round-trip failed for {style:?}");
        assert_eq!(top.sz, Some(8));
        assert_eq!(top.color.as_deref(), Some("FF00FF"));
    }
}

#[test]
fn capture_simple_element() {
    let xml = r#"<root><child>text</child><sibling/></root>"#;
    let mut reader = reader_from_bytes(xml.as_bytes(), true);

    loop {
        match read_event(&mut reader) {
            Ok(ReadEvent::Start(t)) if t.name == "child" => {
                let captured = capture_element(&mut reader, &t).unwrap();
                let s = String::from_utf8(captured).unwrap();
                assert!(s.contains("<child>"));
                assert!(s.contains("text"));
                assert!(s.contains("</child>"));
                return;
            }
            Ok(ReadEvent::Eof) => panic!("no child"),
            _ => {}
        }
    }
}

#[test]
fn capture_empty() {
    let xml = r#"<item attr="val"/>"#;
    let mut reader = reader_from_bytes(xml.as_bytes(), true);

    loop {
        match read_event(&mut reader) {
            Ok(ReadEvent::Empty(t)) => {
                let captured = capture_empty_element(&t);
                let s = String::from_utf8(captured).unwrap();
                assert!(s.contains("item"));
                assert!(s.contains("attr"));
                return;
            }
            Ok(ReadEvent::Eof) => panic!("no item"),
            _ => {}
        }
    }
}

#[test]
fn capture_nested_element() {
    let xml = r#"<outer><inner><deep>data</deep></inner></outer>"#;
    let mut reader = reader_from_bytes(xml.as_bytes(), true);

    loop {
        match read_event(&mut reader) {
            Ok(ReadEvent::Start(t)) if t.name == "outer" => {
                let captured = capture_element(&mut reader, &t).unwrap();
                let s = String::from_utf8(captured).unwrap();
                assert!(s.contains("<outer>"));
                assert!(s.contains("<inner>"));
                assert!(s.contains("<deep>"));
                assert!(s.contains("data"));
                assert!(s.contains("</deep>"));
                assert!(s.contains("</inner>"));
                assert!(s.contains("</outer>"));
                return;
            }
            Ok(ReadEvent::Eof) => panic!("no outer"),
            _ => {}
        }
    }
}
