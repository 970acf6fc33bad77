use docxkit::numbering::CT_Numbering;
use docxkit::properties::{CT_PPr, CT_RPr};
use docxkit::style_resolver::{
    generate_marker, resolve_paragraph_properties, resolve_run_properties, to_letter, to_roman,
    NumberingState,
};
use docxkit::styles::{CT_Style, CT_Styles, StyleType};
use docxkit::units::{HalfPoint, Twips};

fn test_styles() -> CT_Styles {
    let mut styles = CT_Styles::new_default();
    styles.styles.push(CT_Style {
        style_id: "MyHeading2".to_string(),
        style_type: StyleType::Paragraph,
        name: Some("my heading 2".to_string()),
        based_on: Some("Heading1".to_string()),
        next_style: Some("Normal".to_string()),
        is_default: false,
        ppr: Some(CT_PPr { space_before: Some(Twips(40)), ..Default::default() }),
        rpr: Some(CT_RPr {
            sz: Some(HalfPoint(26)),
            color: Some("2E74B5".to_string()),
            ..Default::default()
        }),
        extra_xml: None,
    });
    styles
}

#[test]
fn resolve_normal_paragraph() {
    let styles = test_styles();
    let ppr = resolve_paragraph_properties(Some("Normal"), &styles);
    assert_eq!(ppr.space_after, Some(Twips(160)));
}

#[test]
fn resolve_heading1() {
    let styles = test_styles();
    let ppr = resolve_paragraph_properties(Some("Heading1"), &styles);
    assert_eq!(ppr.keep_next, Some(true));
    assert_eq!(ppr.space_before, Some(Twips(240)));
    assert_eq!(ppr.space_after, Some(Twips(0)));
}

#[test]
fn resolve_heading2_inherits_heading1() {
    let styles = test_styles();
    let ppr = resolve_paragraph_properties(Some("MyHeading2"), &styles);
    assert_eq!(ppr.keep_next, Some(true));
    assert_eq!(ppr.space_before, Some(Twips(40)));
}

#[test]
fn resolve_heading2_rpr() {
    let styles = test_styles();
    let rpr = resolve_run_properties(Some("MyHeading2"), None, &styles);
    assert_eq!(rpr.font_ascii_theme, Some("majorHAnsi".to_string()));
    assert_eq!(rpr.sz, Some(HalfPoint(26)));
    assert_eq!(rpr.bold, Some(true));
    assert_eq!(rpr.color, Some("2E74B5".to_string()));
}

#[test]
fn numbering_decimal_marker() {
    let mut numbering = CT_Numbering::new();
    let num_id = numbering.add_numbered_list();

    let mut state = NumberingState::new();
    let marker1 = generate_marker(num_id, 0, &numbering, &mut state).unwrap();
    assert_eq!(marker1.marker_text, "1.");
    let marker2 = generate_marker(num_id, 0, &numbering, &mut state).unwrap();
    assert_eq!(marker2.marker_text, "2.");
}

#[test]
fn numbering_bullet_marker() {
    let mut numbering = CT_Numbering::new();
    let num_id = numbering.add_bullet_list();

    let mut state = NumberingState::new();
    let marker = generate_marker(num_id, 0, &numbering, &mut state).unwrap();
    assert_eq!(marker.marker_text, "\u{2022}");
}

#[test]
fn numbering_sub_level_reset() {
    let mut numbering = CT_Numbering::new();
    let num_id = numbering.add_numbered_list();

    let mut state = NumberingState::new();
    generate_marker(num_id, 0, &numbering, &mut state);
    generate_marker(num_id, 0, &numbering, &mut state);
    let sub = generate_marker(num_id, 1, &numbering, &mut state).unwrap();
    assert_eq!(sub.marker_text, "a.");
    generate_marker(num_id, 0, &numbering, &mut state);
    let sub2 = generate_marker(num_id, 1, &numbering, &mut state).unwrap();
    assert_eq!(sub2.marker_text, "a.");
}

#[test]
fn roman_numeral_formatting() {
    assert_eq!(to_roman(1, true), "I");
    assert_eq!(to_roman(4, true), "IV");
    assert_eq!(to_roman(9, true), "IX");
    assert_eq!(to_roman(14, false), "xiv");
}

#[test]
fn letter_formatting() {
    assert_eq!(to_letter(1, false), "a");
    assert_eq!(to_letter(26, false), "z");
    assert_eq!(to_letter(27, false), "a");
    assert_eq!(to_letter(1, true), "A");
}
