use docxkit::xml_read::{reader_from_bytes, read_event, ReadEvent};
use docxkit::drawing::{CT_Anchor, CT_Drawing, CT_Inline, PicProps, ST_RelativeFromH, ST_RelativeFromV};
use docxkit::units::Emu;

fn parse_drawing(xml: &str) -> CT_Drawing {
    let mut reader = reader_from_bytes(xml.as_bytes(), true);
    loop {
        match read_event(&mut reader) {
            Ok(ReadEvent::Start(t)) if t.name.ends_with("drawing") => break,
            Ok(ReadEvent::Eof) => panic!("no drawing"),
            _ => {}
        }
    }
    CT_Drawing::from_xml(&mut reader).unwrap()
}

fn xml_of(d: &CT_Drawing) -> String {
    let mut out = Vec::new();
    d.to_xml(&mut out);
    String::from_utf8(out).unwrap()
}

#[test]
fn round_trip_inline_drawing() {
    let inline = CT_Inline {
        extent_cx: Emu(914400),
        extent_cy: Emu(457200),
        embed_id: "rId5".to_string(),
        description: Some("A test image".to_string()),
        name: Some("TestPic".to_string()),
        props: PicProps::default(),
        raw_xml: None,
    };
    let drawing = CT_Drawing::inline(inline);
    let xml = xml_of(&drawing);
    let parsed = parse_drawing(&xml);
    let inl = parsed.inline.unwrap();
    assert_eq!(inl.extent_cx, Emu(914400));
    assert_eq!(inl.extent_cy, Emu(457200));
    assert_eq!(inl.embed_id, "rId5");
}

#[test]
fn inline_picture_features_serialize() {
    let mut inline = CT_Inline::new("rId7", 914400, 914400);
    inline.props = PicProps {
        rotation: Some(2_700_000),
        flip_h: true,
        crop: Some([10000, 0, 10000, 0]),
        border: Some(("FF0000".to_string(), 12700)),
        shadow: Some("808080".to_string()),
        title: Some("Logo".to_string()),
        ..Default::default()
    };
    let xml = xml_of(&CT_Drawing::inline(inline));
    assert!(xml.contains(r#"rot="2700000""#), "rotation: {xml}");
    assert!(xml.contains(r#"flipH="1""#), "flipH: {xml}");
    assert!(xml.contains("a:srcRect"), "crop: {xml}");
    assert!(xml.contains("a:ln"), "border: {xml}");
    assert!(xml.contains("a:outerShdw"), "shadow: {xml}");
    assert!(xml.contains(r#"title="Logo""#), "title: {xml}");
}

#[test]
fn ct_anchor_round_trip_xml() {
    let anchor = CT_Anchor::background("rId3", 7772400, 10058400);
    let xml = xml_of(&CT_Drawing::anchor(anchor));
    let parsed = parse_drawing(&xml);
    assert!(parsed.anchor.is_some());
    let anc = parsed.anchor.unwrap();
    assert!(anc.behind_doc);
    assert_eq!(anc.pos_h_offset, Emu(0));
    assert_eq!(anc.pos_v_offset, Emu(0));
    assert_eq!(anc.pos_h_relative_from, ST_RelativeFromH::Page);
    assert_eq!(anc.pos_v_relative_from, ST_RelativeFromV::Page);
    assert_eq!(anc.extent_cx, Emu(7772400));
    assert_eq!(anc.extent_cy, Emu(10058400));
    assert_eq!(anc.embed_id, "rId3");
}

#[test]
fn anchor_position_and_raw_kept() {
    let xml = [
        "<w:drawing><wp:anchor behindDoc=\"0\" relativeHeight=\"7\">",
        "<wp:positionH relativeFrom=\"margin\"><wp:posOffset> 1234 </wp:posOffset></wp:positionH>",
        "<wp:positionV relativeFrom=\"paragraph\"><wp:posOffset>x</wp:posOffset></wp:positionV>",
        "<wp:extent cx=\"10\" cy=\"20\"/><wp:docPr id=\"1\" name=\"N\" descr=\"D\"/>",
        "<a:blip r:embed=\"rId9\"/></wp:anchor></w:drawing>",
    ]
    .concat();
    let d = parse_drawing(&xml);
    let a = d.anchor.unwrap();
    assert!(!a.behind_doc);
    assert_eq!(a.relative_height, 7);
    assert_eq!(a.pos_h_offset, Emu(1234));
    assert_eq!(a.pos_h_relative_from, ST_RelativeFromH::Margin);
    assert_eq!(a.pos_v_offset, Emu(0));
    assert_eq!(a.pos_v_relative_from, ST_RelativeFromV::Paragraph);
    assert_eq!((a.extent_cx, a.extent_cy), (Emu(10), Emu(20)));
    assert_eq!(a.name.as_deref(), Some("N"));
    assert_eq!(a.description.as_deref(), Some("D"));
    assert_eq!(a.embed_id, "rId9");
    let raw = String::from_utf8(a.raw_xml.unwrap()).unwrap();
    assert!(raw.starts_with("<wp:anchor behindDoc=\"0\" relativeHeight=\"7\">"), "{raw}");
    assert!(raw.ends_with("</wp:anchor>"), "{raw}");
}

#[test]
fn bad_extent_is_an_error() {
    let xml = "<w:drawing><wp:inline><wp:extent cx=\"ten\" cy=\"1\"/></wp:inline></w:drawing>";
    let mut reader = reader_from_bytes(xml.as_bytes(), true);
    loop {
        if let Ok(ReadEvent::Start(_)) = read_event(&mut reader) {
            break;
        }
    }
    assert!(CT_Drawing::from_xml(&mut reader).is_err());
}
