use docxkit::sdt::{CT_Sdt, SdtKind};

fn xml(s: &CT_Sdt) -> String {
    String::from_utf8(s.to_bytes().unwrap()).unwrap()
}

#[test]
fn text_control() {
    let mut s = CT_Sdt::new(SdtKind::Text, "name");
    s.text = Some("Enter name".into());
    let x = xml(&s);
    assert!(x.contains("<w:sdt>"), "{x}");
    assert!(x.contains(r#"<w:tag w:val="name"/>"#), "{x}");
    assert!(x.contains("<w:text/>"), "{x}");
    assert!(x.contains("Enter name"), "{x}");
}

#[test]
fn dropdown_control() {
    let s = CT_Sdt::new(SdtKind::DropDown(vec![("Yes".into(), "y".into()), ("No".into(), "n".into())]), "choice");
    let x = xml(&s);
    assert!(x.contains("<w:dropDownList>"), "{x}");
    assert!(x.contains(r#"w:displayText="Yes""#), "{x}");
    assert!(x.contains(r#"w:value="n""#), "{x}");
}

#[test]
fn date_and_checkbox() {
    let d = xml(&CT_Sdt::new(SdtKind::Date("yyyy-MM-dd".into()), "when"));
    assert!(d.contains(r#"<w:dateFormat w:val="yyyy-MM-dd"/>"#), "{d}");
    let c = xml(&CT_Sdt::new(SdtKind::Checkbox(true), "agree"));
    assert!(c.contains("w14:checkbox"), "{c}");
    assert!(c.contains(r#"w14:val="1""#), "{c}");
}

#[test]
fn rich_text_exact_bytes() {
    let mut s = CT_Sdt::new(SdtKind::RichText, "t");
    s.alias = Some("A".into());
    s.text = Some("a<b".into());
    assert_eq!(
        xml(&s),
        "<w:sdt><w:sdtPr><w:alias w:val=\"A\"/><w:tag w:val=\"t\"/><w:richText/></w:sdtPr><w:sdtContent><w:p><w:r><w:t xml:space=\"preserve\">a&lt;b</w:t></w:r></w:p></w:sdtContent></w:sdt>"
    );
}

#[test]
fn unchecked_box_shows_empty_ballot() {
    let c = xml(&CT_Sdt::new(SdtKind::Checkbox(false), "agree"));
    assert!(c.contains("\u{2610}"), "{c}");
    assert!(c.contains(r#"w14:val="0""#), "{c}");
}
