use docxkit::xml_read::{reader_from_bytes, read_event, ReadEvent};
use docxkit::borders::CT_BorderEdge;
use docxkit::shared::ST_Border;
use docxkit::table::{
    CellContent, CT_Row, CT_Tbl, CT_TblBorders, CT_TblGrid, CT_TblGridCol, CT_TblPr, CT_TblWidth,
    CT_Tc, VMerge,
};
use docxkit::text::CT_P;
use docxkit::units::Twips;

fn parse_table(xml: &str) -> CT_Tbl {
    let full = format!("<w:tbl>{xml}</w:tbl>");
    let mut reader = reader_from_bytes(full.as_bytes(), true);
    loop {
        match read_event(&mut reader) {
            Ok(ReadEvent::Start(t)) if t.name.ends_with("tbl") => break,
            Ok(ReadEvent::Eof) => panic!("no table"),
            _ => {}
        }
    }
    CT_Tbl::from_xml(&mut reader).unwrap()
}

fn table_xml(tbl: &CT_Tbl) -> String {
    let mut out = Vec::new();
    tbl.to_xml(&mut out);
    String::from_utf8(out).unwrap()
}

#[test]
fn table_preserves_unknown_properties() {
    let tbl = parse_table(
        r#"<w:tblPr><w:tblStyle w:val="Grid"/><w:tblCaption w:val="Sales"/></w:tblPr><w:tblGrid><w:gridCol w:w="2000"/></w:tblGrid><w:tr><w:tc><w:tcPr><w:hideMark/></w:tcPr><w:p/></w:tc></w:tr>"#,
    );
    let out = table_xml(&tbl);
    assert!(out.contains("w:tblCaption"), "tblCaption lost: {out}");
    assert!(out.contains("w:hideMark"), "hideMark lost: {out}");
}

#[test]
fn table_preserves_unknown_content() {
    let tbl = parse_table(
        r#"<w:tblGrid><w:gridCol w:w="2000"/></w:tblGrid><w:bookmarkStart w:id="5" w:name="T"/><w:tr><w:tc><w:sdt><w:sdtContent><w:p/></w:sdtContent></w:sdt></w:tc></w:tr><w:bookmarkEnd w:id="5"/>"#,
    );
    let out = table_xml(&tbl);
    assert!(out.contains("w:bookmarkStart"), "bookmark lost: {out}");
    assert!(out.contains("w:sdt"), "cell SDT lost: {out}");
}

#[test]
fn parse_simple_table() {
    let tbl = parse_table(
        r#"<w:tblPr><w:tblW w:w="5000" w:type="dxa"/></w:tblPr>
           <w:tblGrid><w:gridCol w:w="2500"/><w:gridCol w:w="2500"/></w:tblGrid>
           <w:tr>
             <w:tc><w:p><w:r><w:t>A1</w:t></w:r></w:p></w:tc>
             <w:tc><w:p><w:r><w:t>B1</w:t></w:r></w:p></w:tc>
           </w:tr>
           <w:tr>
             <w:tc><w:p><w:r><w:t>A2</w:t></w:r></w:p></w:tc>
             <w:tc><w:p><w:r><w:t>B2</w:t></w:r></w:p></w:tc>
           </w:tr>"#,
    );
    assert_eq!(tbl.rows.len(), 2);
    assert_eq!(tbl.rows[0].cells.len(), 2);
    assert_eq!(tbl.rows[0].cells[0].text(), "A1");
    assert_eq!(tbl.rows[1].cells[1].text(), "B2");

    let grid = tbl.grid.unwrap();
    assert_eq!(grid.columns.len(), 2);
    assert_eq!(grid.columns[0].width, Twips(2500));

    let pr = tbl.properties.unwrap();
    assert_eq!(pr.width.as_ref().unwrap().w, 5000);
}

#[test]
fn parse_cell_merge() {
    let tbl = parse_table(
        r#"<w:tblGrid><w:gridCol w:w="2500"/><w:gridCol w:w="2500"/></w:tblGrid>
           <w:tr>
             <w:tc>
               <w:tcPr><w:gridSpan w:val="2"/></w:tcPr>
               <w:p><w:r><w:t>Merged</w:t></w:r></w:p>
             </w:tc>
           </w:tr>
           <w:tr>
             <w:tc>
               <w:tcPr><w:vMerge w:val="restart"/></w:tcPr>
               <w:p><w:r><w:t>VM Start</w:t></w:r></w:p>
             </w:tc>
             <w:tc><w:p/></w:tc>
           </w:tr>
           <w:tr>
             <w:tc>
               <w:tcPr><w:vMerge/></w:tcPr>
               <w:p/>
             </w:tc>
             <w:tc><w:p/></w:tc>
           </w:tr>"#,
    );
    assert_eq!(tbl.rows[0].cells[0].properties.as_ref().unwrap().grid_span, Some(2));
    assert_eq!(
        tbl.rows[1].cells[0].properties.as_ref().unwrap().v_merge,
        Some(VMerge::Restart)
    );
    assert_eq!(
        tbl.rows[2].cells[0].properties.as_ref().unwrap().v_merge,
        Some(VMerge::Continue)
    );
}

#[test]
fn parse_table_borders() {
    let tbl = parse_table(
        r#"<w:tblPr>
             <w:tblBorders>
               <w:top w:val="single" w:sz="4" w:color="000000"/>
               <w:bottom w:val="single" w:sz="4" w:color="000000"/>
               <w:left w:val="single" w:sz="4" w:color="000000"/>
               <w:right w:val="single" w:sz="4" w:color="000000"/>
               <w:insideH w:val="single" w:sz="4" w:color="000000"/>
               <w:insideV w:val="single" w:sz="4" w:color="000000"/>
             </w:tblBorders>
           </w:tblPr>
           <w:tblGrid><w:gridCol w:w="5000"/></w:tblGrid>
           <w:tr><w:tc><w:p/></w:tc></w:tr>"#,
    );
    let borders = tbl.properties.unwrap().borders.unwrap();
    assert_eq!(borders.top.unwrap().val, ST_Border::Single);
    assert_eq!(borders.inside_h.unwrap().val, ST_Border::Single);
    assert_eq!(borders.inside_v.unwrap().val, ST_Border::Single);
}

#[test]
fn parse_cell_shading() {
    let tbl = parse_table(
        r#"<w:tblGrid><w:gridCol w:w="5000"/></w:tblGrid>
           <w:tr>
             <w:tc>
               <w:tcPr><w:shd w:val="clear" w:fill="FFFF00"/></w:tcPr>
               <w:p/>
             </w:tc>
           </w:tr>"#,
    );
    let shd = tbl.rows[0].cells[0].properties.as_ref().unwrap().shading.as_ref().unwrap();
    assert_eq!(shd.fill, Some("FFFF00".to_string()));
}

#[test]
fn parse_row_properties() {
    let tbl = parse_table(
        r#"<w:tblGrid><w:gridCol w:w="5000"/></w:tblGrid>
           <w:tr>
             <w:trPr>
               <w:trHeight w:val="720" w:hRule="exact"/>
               <w:tblHeader/>
             </w:trPr>
             <w:tc><w:p/></w:tc>
           </w:tr>"#,
    );
    let tr_pr = tbl.rows[0].properties.as_ref().unwrap();
    assert_eq!(tr_pr.height, Some(Twips(720)));
    assert_eq!(tr_pr.height_rule, Some("exact".to_string()));
    assert_eq!(tr_pr.header, Some(true));
}

fn black_single() -> CT_BorderEdge {
    CT_BorderEdge {
        val: ST_Border::Single,
        sz: Some(4),
        space: Some(0),
        color: Some("000000".to_string()),
    }
}

#[test]
fn round_trip_table() {
    let mut tbl = CT_Tbl::new();
    tbl.properties = Some(CT_TblPr {
        width: Some(CT_TblWidth::dxa(9000)),
        borders: Some(CT_TblBorders {
            top: Some(black_single()),
            bottom: Some(black_single()),
            ..Default::default()
        }),
        ..Default::default()
    });
    tbl.grid = Some(CT_TblGrid {
        columns: vec![CT_TblGridCol { width: Twips(4500) }, CT_TblGridCol { width: Twips(4500) }],
    });

    let mut row = CT_Row::new();
    let mut cell1 = CT_Tc::new();
    cell1.paragraphs_mut()[0].add_run("Hello");
    let mut cell2 = CT_Tc::new();
    cell2.paragraphs_mut()[0].add_run("World");
    row.cells.push(cell1);
    row.cells.push(cell2);
    tbl.rows.push(row);

    let xml = table_xml(&tbl);
    let parsed = parse_table(
        xml.strip_prefix("<w:tbl>").unwrap().strip_suffix("</w:tbl>").unwrap(),
    );

    assert_eq!(parsed.rows.len(), 1);
    assert_eq!(parsed.rows[0].cells.len(), 2);
    assert_eq!(parsed.rows[0].cells[0].text(), "Hello");
    assert_eq!(parsed.rows[0].cells[1].text(), "World");

    let grid = parsed.grid.unwrap();
    assert_eq!(grid.columns.len(), 2);
    assert_eq!(grid.columns[0].width, Twips(4500));

    let borders = parsed.properties.unwrap().borders.unwrap();
    assert!(borders.top.is_some());
    assert!(borders.bottom.is_some());
}

#[test]
fn nested_table_xml_round_trip() {
    let mut outer_cell = CT_Tc::new();
    outer_cell.paragraphs_mut()[0].add_run("Before table");

    let mut nested_tbl = CT_Tbl::new();
    nested_tbl.grid = Some(CT_TblGrid { columns: vec![CT_TblGridCol { width: Twips(2000) }] });
    let mut nested_row = CT_Row::new();
    let mut nested_cell = CT_Tc::new();
    nested_cell.paragraphs_mut()[0].add_run("Nested content");
    nested_row.cells.push(nested_cell);
    nested_tbl.rows.push(nested_row);

    outer_cell.content.push(CellContent::Table(nested_tbl));

    let mut after = CT_P::new();
    after.add_run("After table");
    outer_cell.content.push(CellContent::Paragraph(after));

    let mut output = Vec::new();
    outer_cell.to_xml(&mut output);
    let xml = String::from_utf8(output).unwrap();

    assert!(xml.contains("<w:tbl>"));
    assert!(xml.contains("Nested content"));

    let inner_xml = xml.strip_prefix("<w:tc>").unwrap().strip_suffix("</w:tc>").unwrap();
    let full_xml = format!(
        "<w:tc xmlns:w=\"http://schemas.openxmlformats.org/wordprocessingml/2006/main\">{inner_xml}</w:tc>"
    );
    let mut reader = reader_from_bytes(full_xml.as_bytes(), true);
    loop {
        match read_event(&mut reader) {
            Ok(ReadEvent::Start(t)) if t.name == "tc" || t.name.ends_with(":tc") => break,
            Ok(ReadEvent::Eof) => panic!("no cell"),
            _ => {}
        }
    }
    let parsed = CT_Tc::from_xml(&mut reader).unwrap();

    assert_eq!(parsed.paragraphs().len(), 2);
    assert_eq!(parsed.paragraphs()[0].text(), "Before table");
    assert_eq!(parsed.paragraphs()[1].text(), "After table");

    let tables: Vec<_> = parsed
        .content
        .iter()
        .filter_map(|c| match c {
            CellContent::Table(t) => Some(t),
            _ => None,
        })
        .collect();
    assert_eq!(tables.len(), 1);
    assert_eq!(tables[0].rows.len(), 1);
    assert_eq!(tables[0].rows[0].cells[0].text(), "Nested content");
}

#[test]
fn table_cell_merge_markers_serialize() {
    let mut cell = CT_Tc::new();
    let mut pr = docxkit::table::CT_TcPr::default();
    pr.grid_span = Some(3);
    pr.v_merge = Some(VMerge::Continue);
    cell.properties = Some(pr);
    let mut out = Vec::new();
    cell.to_xml(&mut out);
    let xml = String::from_utf8(out).unwrap();
    assert_eq!(
        xml,
        "<w:tc><w:tcPr><w:gridSpan w:val=\"3\"/><w:vMerge/></w:tcPr><w:p></w:p></w:tc>"
    );
}

#[test]
fn empty_table_serializes_bare() {
    let tbl = CT_Tbl::new();
    assert_eq!(table_xml(&tbl), "<w:tbl></w:tbl>");
}
