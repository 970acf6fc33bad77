use docxkit::chart::{Chart, ChartKind, DataLabels, LabelPosition, Series};
use docxkit::units::Emu;

fn sample(kind: ChartKind) -> Chart {
    Chart {
        kind,
        title: Some("Sales".into()),
        categories: vec!["Q1".into(), "Q2".into(), "Q3".into()],
        series: vec![Series { name: "2024".into(), values: vec!["10".into(), "20".into(), "15".into()] }],
        labels: None,
        x_values: vec!["1".into(), "2".into(), "3".into()],
    }
}

fn assert_well_formed(bytes: &[u8]) {
    let mut rdr = quick_xml::Reader::from_reader(bytes);
    loop {
        if rdr.read_event().expect("well-formed chart XML") == quick_xml::events::Event::Eof {
            break;
        }
    }
}

#[test]
fn custom_labels_position_and_color() {
    let mut c = sample(ChartKind::Pie);
    c.labels = Some(DataLabels {
        position: Some(LabelPosition::Center),
        show_percent: true,
        color: Some("FFFFFF".into()),
        ..Default::default()
    });
    let x = String::from_utf8(c.to_part_bytes().unwrap()).unwrap();
    assert!(x.contains(r#"<c:dLblPos val="ctr"/>"#), "{x}");
    assert!(x.contains(r#"<a:srgbClr val="FFFFFF"/>"#), "{x}");
    assert!(x.contains(r#"<c:showPercent val="1"/>"#), "{x}");
}

#[test]
fn bar_chart_part() {
    let bytes = sample(ChartKind::Bar).to_part_bytes().unwrap();
    assert_well_formed(&bytes);
    let x = String::from_utf8(bytes).unwrap();
    assert!(x.contains("c:barChart"), "{x}");
    assert!(x.contains(r#"<c:barDir val="bar"/>"#), "{x}");
    assert!(x.contains("<c:v>Q2</c:v>"), "{x}");
    assert!(x.contains("<c:v>20</c:v>"), "{x}");
    assert!(x.contains("<c:catAx>"), "{x}");
}

#[test]
fn scatter_chart_xy() {
    let c = Chart {
        kind: ChartKind::Scatter,
        title: Some("XY".into()),
        categories: vec!["1".into(), "2".into(), "3".into()],
        series: vec![Series { name: "pts".into(), values: vec!["2".into(), "4".into(), "6".into()] }],
        labels: None,
        x_values: vec!["1".into(), "2".into(), "3".into()],
    };
    let bytes = c.to_part_bytes().unwrap();
    assert_well_formed(&bytes);
    let x = String::from_utf8(bytes).unwrap();
    assert!(x.contains("c:scatterChart"), "{x}");
    assert!(x.contains("<c:xVal>"), "{x}");
    assert!(x.contains("<c:yVal>"), "{x}");
    assert!(!x.contains("<c:catAx>"), "{x}");
}

#[test]
fn pie_chart_has_no_axes() {
    let x = String::from_utf8(sample(ChartKind::Pie).to_part_bytes().unwrap()).unwrap();
    assert!(x.contains("c:pieChart"), "{x}");
    assert!(!x.contains("<c:catAx>"), "{x}");
}

#[test]
fn drawing_references_rel() {
    let r = String::from_utf8(sample(ChartKind::Line).to_run_bytes("rId9", Emu(5000000), Emu(3000000)).unwrap()).unwrap();
    assert!(r.contains(r#"r:id="rId9""#), "{r}");
    assert!(r.contains(r#"uri="http://schemas.openxmlformats.org/drawingml/2006/chart""#), "{r}");
}

#[test]
fn line_chart_exact_plot() {
    let c = Chart {
        kind: ChartKind::Line,
        title: None,
        categories: vec!["A".into()],
        series: vec![Series { name: "s".into(), values: vec!["1.5".into()] }],
        labels: None,
        x_values: vec![],
    };
    let x = String::from_utf8(c.to_part_bytes().unwrap()).unwrap();
    let plot = concat_all(&[
        "<c:lineChart><c:ser><c:idx val=\"0\"/><c:order val=\"0\"/>",
        "<c:tx><c:strRef><c:f val=\"Sheet1!$B$1\"/><c:strCache><c:ptCount val=\"1\"/>",
        "<c:pt idx=\"0\"><c:v>s</c:v></c:pt></c:strCache></c:strRef></c:tx>",
        "<c:cat><c:strRef><c:f val=\"Sheet1!$A$1\"/><c:strCache><c:ptCount val=\"1\"/>",
        "<c:pt idx=\"0\"><c:v>A</c:v></c:pt></c:strCache></c:strRef></c:cat>",
        "<c:val><c:numRef><c:f val=\"Sheet1!$B$1\"/><c:numCache><c:formatCode val=\"General\"/>",
        "<c:ptCount val=\"1\"/><c:pt idx=\"0\"><c:v>1.5</c:v></c:pt></c:numCache></c:numRef></c:val></c:ser>",
        "<c:dLbls><c:showLegendKey val=\"0\"/><c:showVal val=\"1\"/><c:showCatName val=\"0\"/>",
        "<c:showSerName val=\"0\"/><c:showPercent val=\"0\"/><c:showBubbleSize val=\"0\"/></c:dLbls>",
        "<c:axId val=\"1\"/><c:axId val=\"2\"/></c:lineChart>",
    ]);
    assert!(x.contains(&plot), "{x}");
    assert!(!x.contains("c:dLblPos"), "{x}");
    assert!(!x.contains("c:title"), "{x}");
}

fn concat_all(parts: &[&str]) -> String {
    parts.concat()
}
