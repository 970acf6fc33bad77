use docxkit::header_footer::CT_HdrFtr;
use docxkit::placeholder::{replace_in_header_footer, replace_in_paragraph, replace_in_table};
use docxkit::properties::CT_RPr;
use docxkit::table::{CT_Row, CT_Tbl, CT_Tc, CellContent};
use docxkit::text::{RunContent, CT_P, CT_R};

fn make_para(texts: &[&str]) -> CT_P {
    let mut p = CT_P::new();
    for text in texts {
        p.add_run(text);
    }
    p
}

#[test]
fn replace_single_run() {
    let mut p = make_para(&["Hello {{name}}, welcome!"]);
    let count = replace_in_paragraph(&mut p, "{{name}}", "Alice");
    assert_eq!(count, 1);
    assert_eq!(p.text(), "Hello Alice, welcome!");
}

#[test]
fn replace_cross_two_runs() {
    let mut p = make_para(&["Hello {{", "name}}, welcome!"]);
    let count = replace_in_paragraph(&mut p, "{{name}}", "Bob");
    assert_eq!(count, 1);
    assert_eq!(p.text(), "Hello Bob, welcome!");
}

#[test]
fn replace_cross_three_runs() {
    let mut p = make_para(&["{{", "na", "me}}"]);
    let count = replace_in_paragraph(&mut p, "{{name}}", "Charlie");
    assert_eq!(count, 1);
    assert_eq!(p.text(), "Charlie");
}

#[test]
fn replace_preserves_formatting() {
    let mut p = CT_P::new();
    let mut r0 = CT_R::new("Hello ");
    r0.properties = Some(CT_RPr { bold: Some(true), ..Default::default() });
    p.runs.push(r0);
    let mut r1 = CT_R::new("{{name}}");
    r1.properties = Some(CT_RPr { italic: Some(true), ..Default::default() });
    p.runs.push(r1);
    p.add_run("!");

    let count = replace_in_paragraph(&mut p, "{{name}}", "Alice");
    assert_eq!(count, 1);
    assert_eq!(p.text(), "Hello Alice!");
    assert_eq!(p.runs[0].properties.as_ref().unwrap().bold, Some(true));
    assert_eq!(p.runs[1].properties.as_ref().unwrap().italic, Some(true));
}

#[test]
fn replace_multiple_occurrences() {
    let mut p = make_para(&["{{x}} and {{x}}"]);
    let count = replace_in_paragraph(&mut p, "{{x}}", "Y");
    assert_eq!(count, 2);
    assert_eq!(p.text(), "Y and Y");
}

#[test]
fn replace_no_match() {
    let mut p = make_para(&["Hello World"]);
    let count = replace_in_paragraph(&mut p, "{{missing}}", "X");
    assert_eq!(count, 0);
    assert_eq!(p.text(), "Hello World");
}

#[test]
fn replace_in_table_recursive() {
    let mut table = CT_Tbl::new();
    let mut row = CT_Row::new();
    let mut cell = CT_Tc::new();

    let mut p = CT_P::new();
    p.add_run("Value: {{val}}");
    cell.content = vec![CellContent::Paragraph(p)];

    let mut nested = CT_Tbl::new();
    let mut nrow = CT_Row::new();
    let mut ncell = CT_Tc::new();
    let mut np = CT_P::new();
    np.add_run("Nested: {{val}}");
    ncell.content = vec![CellContent::Paragraph(np)];
    nrow.cells.push(ncell);
    nested.rows.push(nrow);
    cell.content.push(CellContent::Table(nested));

    row.cells.push(cell);
    table.rows.push(row);

    let count = replace_in_table(&mut table, "{{val}}", "42");
    assert_eq!(count, 2);

    let para = match &table.rows[0].cells[0].content[0] {
        CellContent::Paragraph(p) => p,
        _ => panic!("expected paragraph"),
    };
    assert_eq!(para.text(), "Value: 42");
}

#[test]
fn replace_in_header_footer_test() {
    let mut hf = CT_HdrFtr::new();
    let mut p = CT_P::new();
    p.add_run("Company: {{company}}");
    hf.paragraphs.push(p);

    let count = replace_in_header_footer(&mut hf, "{{company}}", "Acme Corp");
    assert_eq!(count, 1);
    assert_eq!(hf.text(), "Company: Acme Corp");
}

#[test]
fn replace_empty_placeholder_noop() {
    let mut p = make_para(&["Hello"]);
    let count = replace_in_paragraph(&mut p, "", "X");
    assert_eq!(count, 0);
}

#[test]
fn replace_utf8_multibyte_placeholder() {
    let mut p = make_para(&["こんにちは{{名前}}さん"]);
    let count = replace_in_paragraph(&mut p, "{{名前}}", "太郎");
    assert_eq!(count, 1);
    assert_eq!(p.text(), "こんにちは太郎さん");
}

#[test]
fn replace_utf8_cross_run() {
    let mut p = make_para(&["こんにちは{{", "名前}}さん"]);
    let count = replace_in_paragraph(&mut p, "{{名前}}", "花子");
    assert_eq!(count, 1);
    assert_eq!(p.text(), "こんにちは花子さん");
}

#[test]
fn replace_utf8_multiple_occurrences() {
    let mut p = make_para(&["{{名前}}と{{名前}}"]);
    let count = replace_in_paragraph(&mut p, "{{名前}}", "太郎");
    assert_eq!(count, 2);
    assert_eq!(p.text(), "太郎と太郎");
}

#[test]
fn replace_emoji_placeholder() {
    let mut p = make_para(&["Hello {{🎉name🎉}}, welcome!"]);
    let count = replace_in_paragraph(&mut p, "{{🎉name🎉}}", "World");
    assert_eq!(count, 1);
    assert_eq!(p.text(), "Hello World, welcome!");
}

#[test]
fn replace_in_textbox_xml() {
    let xml = br#"<?xml version="1.0" encoding="UTF-8"?>
<w:document xmlns:w="http://schemas.openxmlformats.org/wordprocessingml/2006/main"
            xmlns:mc="http://schemas.openxmlformats.org/markup-compatibility/2006"
            xmlns:wps="http://schemas.microsoft.com/office/word/2010/wordprocessingShape">
<w:body>
<w:p><w:r><mc:AlternateContent><mc:Choice>
<w:drawing><wp:anchor xmlns:wp="http://schemas.openxmlformats.org/drawingml/2006/wordprocessingDrawing">
<a:graphic xmlns:a="http://schemas.openxmlformats.org/drawingml/2006/main">
<a:graphicData><wps:wsp><wps:txbx>
<w:txbxContent>
<w:p><w:r><w:t>Hello {{name}}</w:t></w:r></w:p>
</w:txbxContent>
</wps:txbx></wps:wsp></a:graphicData></a:graphic>
</wp:anchor></w:drawing>
</mc:Choice></mc:AlternateContent></w:r></w:p>
</w:body>
</w:document>"#;
    let (result, count) = docxkit::placeholder::replace_in_xml_part(xml, "{{name}}", "Alice").unwrap();
    assert_eq!(count, 1);
    let result_str = String::from_utf8(result).unwrap();
    assert!(result_str.contains("Hello Alice"));
    assert!(!result_str.contains("{{name}}"));
}

#[test]
fn replace_in_vml_textbox() {
    let xml = br#"<?xml version="1.0" encoding="UTF-8"?>
<w:document xmlns:w="http://schemas.openxmlformats.org/wordprocessingml/2006/main"
            xmlns:v="urn:schemas-microsoft-com:vml">
<w:body>
<w:p><w:r><w:pict><v:shape>
<v:textbox>
<w:txbxContent>
<w:p><w:r><w:t>Company: {{company}}</w:t></w:r></w:p>
</w:txbxContent>
</v:textbox>
</v:shape></w:pict></w:r></w:p>
</w:body>
</w:document>"#;
    let (result, count) = docxkit::placeholder::replace_in_xml_part(xml, "{{company}}", "Acme").unwrap();
    assert_eq!(count, 1);
    let result_str = String::from_utf8(result).unwrap();
    assert!(result_str.contains("Company: Acme"));
}

#[test]
fn replace_in_xml_part_no_textbox() {
    let xml = br#"<?xml version="1.0" encoding="UTF-8"?>
<w:document xmlns:w="http://schemas.openxmlformats.org/wordprocessingml/2006/main">
<w:body><w:p><w:r><w:t>Hello {{name}}</w:t></w:r></w:p></w:body>
</w:document>"#;
    let (out, count) = docxkit::placeholder::replace_in_xml_part(xml, "{{name}}", "Alice").unwrap();
    assert_eq!(count, 0);
    assert_eq!(out, xml.to_vec());
}

#[test]
fn replace_in_chart_title() {
    let xml = br#"<?xml version="1.0" encoding="UTF-8"?>
<c:chartSpace xmlns:c="http://schemas.openxmlformats.org/drawingml/2006/chart"
              xmlns:a="http://schemas.openxmlformats.org/drawingml/2006/main">
<c:chart>
<c:title><c:tx><c:rich>
<a:p><a:r><a:t>{{chart_title}}</a:t></a:r></a:p>
</c:rich></c:tx></c:title>
</c:chart>
</c:chartSpace>"#;
    let (result, count) = docxkit::placeholder::replace_in_chart_xml(xml, "{{chart_title}}", "Sales Report").unwrap();
    assert_eq!(count, 1);
    let result_str = String::from_utf8(result).unwrap();
    assert!(result_str.contains("Sales Report"));
    assert!(!result_str.contains("{{chart_title}}"));
}

#[test]
fn replace_in_chart_axis_and_cache() {
    let xml = br#"<?xml version="1.0" encoding="UTF-8"?>
<c:chartSpace xmlns:c="http://schemas.openxmlformats.org/drawingml/2006/chart"
              xmlns:a="http://schemas.openxmlformats.org/drawingml/2006/main">
<c:chart>
<c:plotArea>
<c:catAx><c:title><c:tx><c:rich>
<a:p><a:r><a:t>{{axis}}</a:t></a:r></a:p>
</c:rich></c:tx></c:title></c:catAx>
<c:barChart><c:ser><c:cat><c:strRef><c:strCache>
<c:pt idx="0"><c:v>{{label}}</c:v></c:pt>
</c:strCache></c:strRef></c:cat></c:ser></c:barChart>
</c:plotArea>
</c:chart>
</c:chartSpace>"#;
    let (result, count) = docxkit::placeholder::replace_in_chart_xml(xml, "{{axis}}", "Quarter").unwrap();
    assert_eq!(count, 1);
    let result_str = String::from_utf8(result).unwrap();
    assert!(result_str.contains("Quarter"));
    let (result2, count2) = docxkit::placeholder::replace_in_chart_xml(result_str.as_bytes(), "{{label}}", "Q1").unwrap();
    assert_eq!(count2, 1);
    let result2_str = String::from_utf8(result2).unwrap();
    assert!(result2_str.contains("Q1"));
}

#[test]
fn chart_text_outside_text_elements_untouched() {
    let xml2 = b"<r><c:f>{{x}}</c:f><a:t>{{x}} and {{x}}</a:t><a:t>none</a:t></r>";
    let (out, n) = docxkit::placeholder::replace_in_chart_xml(xml2, "{{x}}", "<y>").unwrap();
    assert_eq!(n, 2);
    assert_eq!(
        String::from_utf8(out).unwrap(),
        "<r><c:f>{{x}}</c:f><a:t>&lt;y&gt; and &lt;y&gt;</a:t><a:t>none</a:t></r>"
    );
}

#[test]
fn replace_counting_matches_str_replace() {
    use_counting("aaaa", "aa", "b");
    use_counting("abc", "", "-");
    use_counting("abcabc", "bc", "X");
    use_counting("", "", "+");
}

fn use_counting(s: &str, pat: &str, rep: &str) {
    let sc: Vec<char> = s.chars().collect();
    let pc: Vec<char> = pat.chars().collect();
    let rc: Vec<char> = rep.chars().collect();
    let (r, n) = docxkit::placeholder::xml_parts::replace_counting(&sc, &pc, &rc);
    assert_eq!(r.iter().collect::<String>(), s.replace(pat, rep));
    assert_eq!(n, s.matches(pat).count());
}

#[test]
fn replace_is_a_single_pass() {
    let mut para = make_para(&["abb"]);
    let n = replace_in_paragraph(&mut para, "ab", "xa");
    assert_eq!(n, 1);
    assert_eq!(para.text(), "xab");
}

#[test]
fn replacement_holding_placeholder_is_not_replaced_again() {
    let mut para = make_para(&["{{a}}-{{a}}"]);
    let n = replace_in_paragraph(&mut para, "{{a}}", "[{{a}}]");
    assert_eq!(n, 2);
    assert_eq!(para.text(), "[{{a}}]-[{{a}}]");
}

#[test]
fn regex_replace_simple() {
    let re = docxkit::placeholder::Pattern::new(r"\{\{name\}\}").unwrap();
    let mut p = make_para(&["Hello {{name}}, welcome!"]);
    let count = docxkit::placeholder::replace_regex_in_paragraph(&mut p, &re, "Alice");
    assert_eq!(count, 1);
    assert_eq!(p.text(), "Hello Alice, welcome!");
}

#[test]
fn regex_replace_with_capture_groups() {
    let re = docxkit::placeholder::Pattern::new(r"(\d+)-(\d+)-(\d+)").unwrap();
    let mut p = make_para(&["Date: 2024-01-15"]);
    let count = docxkit::placeholder::replace_regex_in_paragraph(&mut p, &re, "$3/$2/$1");
    assert_eq!(count, 1);
    assert_eq!(p.text(), "Date: 15/01/2024");
}

#[test]
fn regex_replace_multiple_matches() {
    let re = docxkit::placeholder::Pattern::new(r"\b[A-Z]\w+").unwrap();
    let mut p = make_para(&["Hello World Today"]);
    let count = docxkit::placeholder::replace_regex_in_paragraph(&mut p, &re, "X");
    assert_eq!(count, 3);
    assert_eq!(p.text(), "X X X");
}

#[test]
fn regex_replace_cross_run() {
    let re = docxkit::placeholder::Pattern::new(r"\{\{name\}\}").unwrap();
    let mut p = make_para(&["Hello {{", "name}}, welcome!"]);
    let count = docxkit::placeholder::replace_regex_in_paragraph(&mut p, &re, "Bob");
    assert_eq!(count, 1);
    assert_eq!(p.text(), "Hello Bob, welcome!");
}

#[test]
fn regex_replace_no_match() {
    let re = docxkit::placeholder::Pattern::new(r"xyz\d+").unwrap();
    let mut p = make_para(&["Hello World"]);
    let count = docxkit::placeholder::replace_regex_in_paragraph(&mut p, &re, "X");
    assert_eq!(count, 0);
    assert_eq!(p.text(), "Hello World");
}

#[test]
fn regex_replace_in_table() {
    let re = docxkit::placeholder::Pattern::new(r"\{\{(\w+)\}\}").unwrap();
    let mut table = CT_Tbl::new();
    let mut row = CT_Row::new();
    let mut cell = CT_Tc::new();
    let mut p = CT_P::new();
    p.add_run("Value: {{item}}");
    cell.content = vec![CellContent::Paragraph(p)];
    row.cells.push(cell);
    table.rows.push(row);

    let count = docxkit::placeholder::replace_regex_in_table(&mut table, &re, "[$1]");
    assert_eq!(count, 1);

    let para = match &table.rows[0].cells[0].content[0] {
        CellContent::Paragraph(p) => p,
        _ => panic!("expected paragraph"),
    };
    assert_eq!(para.text(), "Value: [item]");
}

#[test]
fn regex_replace_multibyte_and_single_pass() {
    let re = docxkit::placeholder::Pattern::new(r"é+").unwrap();
    let mut p = make_para(&["aé", "éb é"]);
    let count = docxkit::placeholder::replace_regex_in_paragraph(&mut p, &re, "éé");
    assert_eq!(count, 2);
    assert_eq!(p.text(), "aééb éé");
}

#[test]
fn regex_replace_keeps_first_run_formatting() {
    let re = docxkit::placeholder::Pattern::new(r"\{\{\w+\}\}").unwrap();
    let mut p = CT_P::new();
    p.add_run("Hello ").properties = Some(CT_RPr { bold: Some(true), ..Default::default() });
    p.add_run("{{na").properties = Some(CT_RPr { italic: Some(true), ..Default::default() });
    p.add_run("me}}!");
    let count = docxkit::placeholder::replace_regex_in_paragraph(&mut p, &re, "Alice");
    assert_eq!(count, 1);
    assert_eq!(p.text(), "Hello Alice!");
    assert_eq!(p.runs[0].properties.as_ref().unwrap().bold, Some(true));
    assert_eq!(p.runs[1].properties.as_ref().unwrap().italic, Some(true));
}

#[test]
fn replace_keeps_tabs_and_later_formatting() {
    let mut p = CT_P::new();
    let mut r0 = CT_R::new("a{{");
    r0.content.push(RunContent::Tab);
    p.runs.push(r0);
    let mut r1 = CT_R::new("x}}b");
    r1.properties = Some(CT_RPr { bold: Some(true), ..Default::default() });
    p.runs.push(r1);
    let mut r2 = CT_R::new("c");
    r2.properties = Some(CT_RPr { italic: Some(true), ..Default::default() });
    p.runs.push(r2);

    let count = replace_in_paragraph(&mut p, "{{x}}", "Z");
    assert_eq!(count, 1);
    assert_eq!(p.runs.len(), 3);
    assert!(matches!(p.runs[0].content.last(), Some(RunContent::Tab)));
    assert_eq!(p.runs[1].properties.as_ref().unwrap().bold, Some(true));
    assert_eq!(p.runs[2].properties.as_ref().unwrap().italic, Some(true));
    assert_eq!(p.text(), "aZ\tbc");
}

#[test]
fn regex_pattern_rejects_invalid() {
    assert!(docxkit::placeholder::Pattern::new("(").is_err());
    assert!(docxkit::placeholder::Pattern::new("a+").is_ok());
}

#[test]
fn replace_keeps_text_after_match_in_its_run() {
    let mut p = CT_P::new();
    let mut r0 = CT_R::new("Hi {{name}}");
    r0.properties = Some(CT_RPr { bold: Some(true), ..Default::default() });
    p.runs.push(r0);
    let mut r1 = CT_R::new("!");
    r1.properties = Some(CT_RPr { italic: Some(true), ..Default::default() });
    p.runs.push(r1);

    let count = replace_in_paragraph(&mut p, "{{name}}", "Bob");
    assert_eq!(count, 1);
    assert_eq!(p.runs.len(), 2);
    assert_eq!(p.runs[0].text(), "Hi Bob");
    assert_eq!(p.runs[1].text(), "!");
    assert_eq!(p.runs[1].properties.as_ref().unwrap().italic, Some(true));
}
