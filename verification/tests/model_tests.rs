use docxkit::bookmark::CT_Bookmark;
use docxkit::drawing::{CT_Anchor, CT_Drawing, CT_Inline, ST_RelativeFromH, ST_RelativeFromV};
use docxkit::footnotes::{CT_Footnote, CT_Footnotes};
use docxkit::opc::{
    content_type_entry, part_name_to_rels_path, rel_types, rels_path_to_part_name, ContentTypes, OpcError, OpcPackage,
    Relationships,
};
use docxkit::xml_read::Tag;
use docxkit::properties::{CT_PPr, CT_RPr};
use docxkit::shared::ST_Jc;
use docxkit::styles::{CT_Styles, StyleType};
use docxkit::table::{CT_Tbl, CT_Tc, CellContent};
use docxkit::text::CT_P;
use docxkit::theme::ThemeColors;
use docxkit::units::{Emu, HalfPoint, Twips};

#[test]
fn find_by_type() {
    let mut rels = Relationships::new();
    rels.add(rel_types::DOCUMENT, "word/document.xml");
    rels.add(rel_types::STYLES, "word/styles.xml");

    let doc = rels.get_by_type(rel_types::DOCUMENT).unwrap();
    assert_eq!(doc.target, "word/document.xml");
}

#[test]
fn rels_path_conversion() {
    assert_eq!(rels_path_to_part_name("word/_rels/document.xml.rels"), "/word/document.xml");
    assert_eq!(part_name_to_rels_path("/word/document.xml"), "word/_rels/document.xml.rels");
}

#[test]
fn resolve_relative_target() {
    assert_eq!(OpcPackage::resolve_rel_target("/word/document.xml", "styles.xml"), "/word/styles.xml");
    assert_eq!(
        OpcPackage::resolve_rel_target("/word/document.xml", "/word/styles.xml"),
        "/word/styles.xml"
    );
}

#[test]
fn new_docx_package() {
    let pkg = OpcPackage::new_docx();
    assert!(pkg.main_document_part().is_some());
    assert_eq!(pkg.main_document_part().unwrap(), "/word/document.xml");
}

#[test]
fn get_footnote_by_id() {
    let footnotes = CT_Footnotes {
        footnotes: vec![
            CT_Footnote { id: 1, paragraphs: vec![] },
            CT_Footnote { id: 2, paragraphs: vec![] },
        ],
        separators: vec![],
    };
    assert!(footnotes.get_by_id(1).is_some());
    assert!(footnotes.get_by_id(2).is_some());
    assert!(footnotes.get_by_id(3).is_none());
}

#[test]
fn paragraphs_method_backward_compat() {
    let mut cell = CT_Tc::new();
    assert_eq!(cell.paragraphs().len(), 1);

    cell.paragraphs_mut()[0].add_run("First");

    let nested = CT_Tbl::new();
    cell.content.push(CellContent::Table(nested));

    let mut p = CT_P::new();
    p.add_run("Second");
    cell.content.push(CellContent::Paragraph(p));

    assert_eq!(cell.paragraphs().len(), 2);
    assert_eq!(cell.paragraphs()[0].text(), "First");
    assert_eq!(cell.paragraphs()[1].text(), "Second");

    assert_eq!(cell.text(), "First\nSecond");
}

#[test]
fn bookmark_xml() {
    let b = CT_Bookmark::new(1, "chap1");
    let s = String::from_utf8(b.start_xml()).unwrap();
    assert!(s.contains(r#"w:id="1""#) && s.contains(r#"w:name="chap1""#), "{s}");
    let e = String::from_utf8(b.end_xml()).unwrap();
    assert!(e.contains("bookmarkEnd"), "{e}");
    let r = String::from_utf8(b.cross_reference_xml()).unwrap();
    assert!(r.contains("REF chap1"), "{r}");
}

#[test]
fn ct_anchor_background_constructor() {
    let anchor = CT_Anchor::background("rId1", 7772400, 10058400);
    assert!(anchor.behind_doc);
    assert_eq!(anchor.pos_h_offset, Emu(0));
    assert_eq!(anchor.pos_v_offset, Emu(0));
    assert_eq!(anchor.pos_h_relative_from, ST_RelativeFromH::Page);
    assert_eq!(anchor.pos_v_relative_from, ST_RelativeFromV::Page);
    assert_eq!(anchor.extent_cx, Emu(7772400));
    assert_eq!(anchor.extent_cy, Emu(10058400));
    assert_eq!(anchor.embed_id, "rId1");
    assert_eq!(anchor.relative_height, 0);
}

#[test]
fn ct_drawing_with_anchor_and_inline() {
    let inline = CT_Inline::new("rId1", 914400, 457200);
    let d1 = CT_Drawing::inline(inline);
    assert!(d1.inline.is_some());
    assert!(d1.anchor.is_none());

    let anchor = CT_Anchor::background("rId2", 7772400, 10058400);
    let d2 = CT_Drawing::anchor(anchor);
    assert!(d2.inline.is_none());
    assert!(d2.anchor.is_some());
}

#[test]
fn merge_ppr() {
    let mut base = CT_PPr { jc: Some(ST_Jc::Left), space_after: Some(Twips(200)), ..Default::default() };
    let override_ppr =
        CT_PPr { jc: Some(ST_Jc::Center), space_before: Some(Twips(120)), ..Default::default() };
    base.merge_from(&override_ppr);
    assert_eq!(base.jc, Some(ST_Jc::Center));
    assert_eq!(base.space_after, Some(Twips(200)));
    assert_eq!(base.space_before, Some(Twips(120)));
}

#[test]
fn merge_rpr() {
    let mut base = CT_RPr { bold: Some(true), sz: Some(HalfPoint(24)), ..Default::default() };
    let override_rpr = CT_RPr { sz: Some(HalfPoint(28)), italic: Some(true), ..Default::default() };
    base.merge_from(&override_rpr);
    assert_eq!(base.bold, Some(true));
    assert_eq!(base.sz, Some(HalfPoint(28)));
    assert_eq!(base.italic, Some(true));
}

#[test]
fn find_default_style() {
    let styles = CT_Styles::new_default();
    let default_para = styles.get_default(StyleType::Paragraph).unwrap();
    assert_eq!(default_para.style_id, "Normal");
}

#[test]
fn theme_color_lookup() {
    let colors = ThemeColors {
        dk1: Some("000000".to_string()),
        lt1: Some("FFFFFF".to_string()),
        accent1: Some("4472C4".to_string()),
        ..Default::default()
    };
    assert_eq!(colors.get("dark1"), Some("000000"));
    assert_eq!(colors.get("text1"), Some("000000"));
    assert_eq!(colors.get("light1"), Some("FFFFFF"));
    assert_eq!(colors.get("background1"), Some("FFFFFF"));
    assert_eq!(colors.get("accent1"), Some("4472C4"));
    assert_eq!(colors.get("nonexistent"), None);
}

#[test]
fn round_trip_relationships() {
    let mut rels = Relationships::new();
    rels.add(rel_types::DOCUMENT, "word/document.xml");
    rels.add(rel_types::STYLES, "word/styles.xml");

    let xml = rels.to_xml().unwrap();
    let parsed = Relationships::from_xml(&xml).unwrap();

    assert_eq!(parsed.items.len(), 2);
    assert_eq!(parsed.items[0].id, "rId1");
    assert_eq!(parsed.items[0].target, "word/document.xml");
    assert_eq!(parsed.items[1].id, "rId2");
}

#[test]
fn relationships_xml_exact() {
    let mut rels = Relationships::new();
    rels.add(rel_types::DOCUMENT, "word/document.xml");
    let xml = String::from_utf8(rels.to_xml().unwrap()).unwrap();
    let expected = format!(
        "{}\n{}\n  {}\n{}",
        "<?xml version=\"1.0\" encoding=\"UTF-8\" standalone=\"yes\"?>",
        "<Relationships xmlns=\"http://schemas.openxmlformats.org/package/2006/relationships\">",
        format!("<Relationship Id=\"rId1\" Type=\"{}\" Target=\"word/document.xml\"/>", rel_types::DOCUMENT),
        "</Relationships>"
    );
    assert_eq!(xml, expected);
}

#[test]
fn relationships_read_numbers_after_largest_id() {
    let xml = concat_parts(&[
        "<Relationships>",
        "<Relationship Id=\"rId7\" Type=\"t\" Target=\"a.xml\"/>",
        "<Relationship Id=\"other\" Type=\"t\" Target=\"b.xml\" TargetMode=\"External\"/>",
        "</Relationships>",
    ]);
    let mut rels = Relationships::from_xml(xml.as_bytes()).unwrap();
    assert_eq!(rels.items.len(), 2);
    assert_eq!(rels.items[1].target_mode.as_deref(), Some("External"));
    assert_eq!(rels.add("t", "c.xml"), "rId8");
}

#[test]
fn relationship_without_target_is_invalid() {
    let xml = "<Relationships><Relationship Id=\"rId1\" Type=\"t\"/></Relationships>";
    assert!(matches!(Relationships::from_xml(xml.as_bytes()), Err(OpcError::InvalidRelationship)));
}

#[test]
fn content_types_round_trip() {
    let ct = ContentTypes::new_docx();
    let xml = ct.to_xml().unwrap();
    let parsed = ContentTypes::from_xml(&xml).unwrap();
    assert_eq!(parsed.defaults, ct.defaults);
    assert_eq!(parsed.overrides, ct.overrides);
}

#[test]
fn content_type_entry_kinds() {
    let t = Tag {
        name: "Override".to_string(),
        attrs: vec![
            ("PartName".to_string(), "/word/document.xml".to_string()),
            ("ContentType".to_string(), "x".to_string()),
        ],
        content: String::new(),
    };
    assert_eq!(
        content_type_entry(&t),
        Some((false, ("/word/document.xml".to_string(), "x".to_string())))
    );
    let d = Tag {
        name: "Default".to_string(),
        attrs: vec![("Extension".to_string(), "png".to_string())],
        content: String::new(),
    };
    assert_eq!(content_type_entry(&d), None);
}

#[test]
fn package_parts_round_trip() {
    let pkg = OpcPackage::new_docx();
    let mut entries = pkg.to_entries().unwrap();
    entries.push(("word/document.xml".to_string(), b"<w:document/>".to_vec()));
    let back = OpcPackage::from_parts(&entries).unwrap();
    assert_eq!(back.get_part("/word/document.xml"), Some(&b"<w:document/>"[..]));
    assert_eq!(back.package_rels.items.len(), pkg.package_rels.items.len());
    assert_eq!(back.content_types.overrides, pkg.content_types.overrides);
}

#[test]
fn package_without_content_types_is_refused() {
    let entries = vec![("word/document.xml".to_string(), b"<w:document/>".to_vec())];
    assert!(matches!(OpcPackage::from_parts(&entries), Err(OpcError::PartNotFound(_))));
}

fn concat_parts(parts: &[&str]) -> String {
    let mut s = String::new();
    for p in parts {
        s.push_str(p);
    }
    s
}

#[test]
fn package_entries_hold_written_parts() {
    let pkg = OpcPackage::new_docx();
    let entries = pkg.to_entries().unwrap();
    assert_eq!(entries[0].1, pkg.content_types.to_xml().unwrap());
    assert_eq!(entries[1].1, pkg.package_rels.to_xml().unwrap());
}

#[test]
fn xml_error_keeps_message() {
    let e = docxkit::opc::xml_error(docxkit::error::OxmlError::InvalidValue("bad".to_string()));
    assert!(matches!(e, OpcError::Xml(ref m) if m == "bad"));
}

fn sect_pr_none() -> docxkit::document::CT_SectPr {
    docxkit::document::CT_SectPr {
        page_width: None,
        page_height: None,
        margin_top: None,
        margin_bottom: None,
        margin_left: None,
        margin_right: None,
        header_refs: vec![],
        footer_refs: vec![],
    }
}

#[test]
fn sect_pr_bad_page_size_leaves_properties() {
    let mut sp = sect_pr_none();
    let t = Tag {
        name: "w:pgSz".to_string(),
        attrs: vec![("w:w".to_string(), "12240".to_string()), ("w:h".to_string(), "tall".to_string())],
        content: String::new(),
    };
    assert!(docxkit::properties_read::read_sect_pr_empty(&mut sp, &t).is_err());
    assert_eq!(sp.page_width, None);
    let ok = Tag {
        name: "w:pgSz".to_string(),
        attrs: vec![("w:w".to_string(), "12240".to_string()), ("w:h".to_string(), "15840".to_string())],
        content: String::new(),
    };
    assert!(docxkit::properties_read::read_sect_pr_empty(&mut sp, &ok).is_ok());
    assert_eq!(sp.page_width, Some(Twips(12240)));
    assert_eq!(sp.page_height, Some(Twips(15840)));
}

#[test]
fn merge_ppr_overrides_every_set_field() {
    let mut base = CT_PPr { drop_cap_lines: Some(2), ..Default::default() };
    let mut other = CT_PPr { drop_cap_lines: Some(3), ..Default::default() };
    other.rpr = Some(CT_RPr { bold: Some(true), ..Default::default() });
    other.extra_xml = Some(vec![b"<w:x/>".to_vec()]);
    base.merge_from(&other);
    assert_eq!(base.drop_cap_lines, Some(3));
    assert_eq!(base.rpr.as_ref().unwrap().bold, Some(true));
    assert_eq!(base.extra_xml, Some(vec![b"<w:x/>".to_vec()]));
}

#[test]
fn merge_rpr_overrides_kern_and_ligatures() {
    let mut base = CT_RPr { kern: Some(10), ..Default::default() };
    let other = CT_RPr { kern: Some(16), ligatures: Some("standard".to_string()), ..Default::default() };
    base.merge_from(&other);
    assert_eq!(base.kern, Some(16));
    assert_eq!(base.ligatures, Some("standard".to_string()));
}

#[test]
fn new_docx_document_relationship_is_internal() {
    let pkg = OpcPackage::new_docx();
    assert_eq!(pkg.package_rels.items[0].target_mode, None);
    assert_eq!(pkg.content_types.defaults[1].1, "application/xml");
}

#[test]
fn rels_path_law_examples() {
    for n in ["/word/document.xml", "/docProps/core.xml", "/customXml/item1.xml", "/top.xml"] {
        let p = part_name_to_rels_path(n);
        assert_eq!(rels_path_to_part_name(&p), n);
    }
}

#[test]
fn first_of_all_by_type_is_get_by_type() {
    let mut rels = Relationships::new();
    rels.add(rel_types::STYLES, "word/styles.xml");
    rels.add(rel_types::DOCUMENT, "word/document.xml");
    rels.add(rel_types::STYLES, "word/styles2.xml");
    let all = rels.get_all_by_type(rel_types::STYLES);
    assert_eq!(all.len(), 2);
    let first = rels.get_by_type(rel_types::STYLES).unwrap();
    assert_eq!(all[0].id, first.id);
    assert_eq!(all[0].target, "word/styles.xml");
    assert!(rels.get_all_by_type("urn:none").is_empty());
    assert!(rels.get_by_type("urn:none").is_none());
}
