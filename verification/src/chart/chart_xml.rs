//! Writing charts: the chart part with its plot area, data series, data
//! labels, axes and legend, and the drawing run that refers to the part.

use vstd::prelude::*;

use crate::chars::{decimal, push_decimal, signed_decimal, i64_string, to_owned_string};
use crate::chart::{label_position_str, labels_default, Chart, ChartKind, DataLabels, LabelPosition, Series};
use crate::drawing::drawing_ns;
use crate::error::OxmlError;
use crate::namespace::R_NS;
use crate::units::Emu;
use crate::xml::{
    attr_views, element, element_attrs, emit_element, emit_element_attrs, emit_empty, emit_empty_attr,
    emit_empty_attrs, emit_end, emit_start, emit_start_attrs, emit_text, empty_tag, empty_tag_attr,
    empty_tag_attrs, end_tag, push_attr, start_tag, start_tag_attr, start_tag_attrs, text_bytes, emit_start_attr,
};

verus! {

/// The chart namespace.
pub const C_NS: &'static str = "http://schemas.openxmlformats.org/drawingml/2006/chart";

/// `<tag val="v"/>`
pub open spec fn val_el(tag: Seq<char>, v: Seq<char>) -> Seq<u8> {
    empty_tag_attr(tag, "val"@, v)
}

/// A flag: `1` or `0`.
pub open spec fn flag_el(tag: Seq<char>, on: bool) -> Seq<u8> {
    val_el(tag, if on { "1"@ } else { "0"@ })
}

/// A count or index.
pub open spec fn num_el(tag: Seq<char>, n: nat) -> Seq<u8> {
    val_el(tag, decimal(n))
}

/// One cached point: its index and its text.
pub open spec fn pt_xml(idx: nat, text: Seq<char>) -> Seq<u8> {
    start_tag_attr("c:pt"@, "idx"@, decimal(idx)) + element("c:v"@, text_bytes(text)) + end_tag("c:pt"@)
}

/// The first `n` cached points of `items`, numbered from 0.
pub open spec fn pts_xml(items: Seq<String>, n: nat) -> Seq<u8>
    decreases n,
{
    if n == 0 {
        Seq::empty()
    } else {
        pts_xml(items, (n - 1) as nat) + pt_xml((n - 1) as nat, items[n - 1]@)
    }
}

/// The sheet reference of the series numbered `idx`: `Sheet1!$B$<idx+1>`.
pub open spec fn series_ref(idx: nat) -> Seq<char> {
    "Sheet1!$B$"@ + decimal(idx + 1)
}

/// The name of a series: a string reference with its one cached point.
pub open spec fn series_name_xml(idx: nat, name: Seq<char>) -> Seq<u8> {
    element(
        "c:tx"@,
        element(
            "c:strRef"@,
            val_el("c:f"@, series_ref(idx)) + element("c:strCache"@, num_el("c:ptCount"@, 1) + pt_xml(0, name)),
        ),
    )
}

/// The categories: a string reference with every category cached.
pub open spec fn categories_xml(cats: Seq<String>) -> Seq<u8> {
    element(
        "c:cat"@,
        element(
            "c:strRef"@,
            val_el("c:f"@, "Sheet1!$A$1"@) + element(
                "c:strCache"@,
                num_el("c:ptCount"@, cats.len()) + pts_xml(cats, cats.len()),
            ),
        ),
    )
}

/// A number reference with every value cached.
pub open spec fn num_ref_xml(f: Seq<char>, vals: Seq<String>) -> Seq<u8> {
    element(
        "c:numRef"@,
        val_el("c:f"@, f) + element(
            "c:numCache"@,
            val_el("c:formatCode"@, "General"@) + num_el("c:ptCount"@, vals.len()) + pts_xml(vals, vals.len()),
        ),
    )
}

/// A series of a category chart: index, order, name, categories and
/// values.
pub open spec fn series_xml(idx: nat, s: Series, cats: Seq<String>) -> Seq<u8> {
    element(
        "c:ser"@,
        num_el("c:idx"@, idx) + num_el("c:order"@, idx) + series_name_xml(idx, s.name@) + categories_xml(cats)
            + element("c:val"@, num_ref_xml(series_ref(idx), s.values@)),
    )
}

/// The first `n` series of a category chart.
pub open spec fn all_series_xml(series: Seq<Series>, n: nat, cats: Seq<String>) -> Seq<u8>
    decreases n,
{
    if n == 0 {
        Seq::empty()
    } else {
        all_series_xml(series, (n - 1) as nat, cats) + series_xml((n - 1) as nat, series[n - 1], cats)
    }
}

/// A series of a scatter chart: index, order, name, the x values and the
/// series values as y values.
pub open spec fn scatter_series_xml(idx: nat, s: Series, xs: Seq<String>) -> Seq<u8> {
    element(
        "c:ser"@,
        num_el("c:idx"@, idx) + num_el("c:order"@, idx) + series_name_xml(idx, s.name@) + element(
            "c:xVal"@,
            num_ref_xml("Sheet1!$A$1"@, xs),
        ) + element("c:yVal"@, num_ref_xml(series_ref(idx), s.values@)),
    )
}

/// The first `n` series of a scatter chart.
pub open spec fn all_scatter_series_xml(series: Seq<Series>, n: nat, xs: Seq<String>) -> Seq<u8>
    decreases n,
{
    if n == 0 {
        Seq::empty()
    } else {
        all_scatter_series_xml(series, (n - 1) as nat, xs) + scatter_series_xml((n - 1) as nat, series[n - 1], xs)
    }
}

/// The labels a chart uses: its own, else the default of its kind.
pub open spec fn chart_labels(c: Chart) -> DataLabels {
    match c.labels {
        Some(l) => l,
        None => labels_default(c.kind),
    }
}

/// The fixed label text colour, if any.
pub open spec fn label_color_xml(color: Option<String>) -> Seq<u8> {
    match color {
        Some(hex) => element(
            "c:txPr"@,
            empty_tag("a:bodyPr"@) + empty_tag("a:lstStyle"@) + element(
                "a:p"@,
                element(
                    "a:pPr"@,
                    element("a:defRPr"@, element("a:solidFill"@, val_el("a:srgbClr"@, hex@))),
                ) + empty_tag("a:endParaRPr"@),
            ),
        ),
        None => Seq::empty(),
    }
}

/// Whether label positions apply to a kind: pie, bar and column only.
pub open spec fn positions_labels(kind: ChartKind) -> bool {
    kind == ChartKind::Pie || kind == ChartKind::Bar || kind == ChartKind::Column
}

/// The data labels: colour, position where it applies, then what is shown.
pub open spec fn labels_xml(kind: ChartKind, l: DataLabels) -> Seq<u8> {
    element(
        "c:dLbls"@,
        label_color_xml(l.color) + (match l.position {
            Some(p) => if positions_labels(kind) { val_el("c:dLblPos"@, label_position_str(p)) } else { Seq::empty() },
            None => Seq::empty(),
        }) + flag_el("c:showLegendKey"@, l.show_legend_key) + flag_el("c:showVal"@, l.show_value) + flag_el(
            "c:showCatName"@,
            l.show_category,
        ) + flag_el("c:showSerName"@, l.show_series) + flag_el("c:showPercent"@, l.show_percent) + flag_el(
            "c:showBubbleSize"@,
            false,
        ),
    )
}

/// The element of a category chart's plot.
pub open spec fn plot_tag(kind: ChartKind) -> Seq<char> {
    match kind {
        ChartKind::Bar | ChartKind::Column => "c:barChart"@,
        ChartKind::Line => "c:lineChart"@,
        ChartKind::Pie => "c:pieChart"@,
        _ => "c:areaChart"@,
    }
}

/// What opens a category chart's plot: bar direction and grouping for bar
/// and column charts, varied colours for a pie.
pub open spec fn plot_head(kind: ChartKind) -> Seq<u8> {
    match kind {
        ChartKind::Bar => val_el("c:barDir"@, "bar"@) + val_el("c:grouping"@, "clustered"@),
        ChartKind::Column => val_el("c:barDir"@, "col"@) + val_el("c:grouping"@, "clustered"@),
        ChartKind::Pie => flag_el("c:varyColors"@, true),
        _ => Seq::empty(),
    }
}

/// The two axis ids a plot refers to.
pub open spec fn axis_ids() -> Seq<u8> {
    num_el("c:axId"@, 1) + num_el("c:axId"@, 2)
}

/// The plot: for a scatter chart its series over the x values; otherwise
/// the plot element of the kind with its series, data labels and, unless a
/// pie, the axis ids.
pub open spec fn plot_xml(c: Chart) -> Seq<u8> {
    if c.kind == ChartKind::Scatter {
        element(
            "c:scatterChart"@,
            val_el("c:scatterStyle"@, "lineMarker"@) + all_scatter_series_xml(c.series@, c.series@.len(), c.x_values@)
                + axis_ids(),
        )
    } else {
        element(
            plot_tag(c.kind),
            plot_head(c.kind) + all_series_xml(c.series@, c.series@.len(), c.categories@) + labels_xml(
                c.kind,
                chart_labels(c),
            ) + (if c.kind != ChartKind::Pie { axis_ids() } else { Seq::empty() }),
        )
    }
}

/// One axis: id, scaling, position and the axis it crosses.
pub open spec fn axis_xml(tag: Seq<char>, id: nat, pos: Seq<char>, cross: nat) -> Seq<u8> {
    element(
        tag,
        num_el("c:axId"@, id) + element("c:scaling"@, val_el("c:orientation"@, "minMax"@)) + flag_el(
            "c:delete"@,
            false,
        ) + val_el("c:axPos"@, pos) + num_el("c:crossAx"@, cross),
    )
}

/// The axes: a category axis (a value axis for scatter) and a value axis,
/// placed left and bottom for a bar chart, bottom and left otherwise.
pub open spec fn axes_xml(kind: ChartKind) -> Seq<u8> {
    let bar = kind == ChartKind::Bar;
    axis_xml(
        if kind == ChartKind::Scatter { "c:valAx"@ } else { "c:catAx"@ },
        1,
        if bar { "l"@ } else { "b"@ },
        2,
    ) + axis_xml("c:valAx"@, 2, if bar { "b"@ } else { "l"@ }, 1)
}

/// The title, if any, as rich text.
pub open spec fn title_xml(title: Option<String>) -> Seq<u8> {
    match title {
        Some(t) => element(
            "c:title"@,
            element(
                "c:tx"@,
                element(
                    "c:rich"@,
                    empty_tag("a:bodyPr"@) + empty_tag("a:lstStyle"@) + element(
                        "a:p"@,
                        element("a:r"@, element("a:t"@, text_bytes(t@))),
                    ),
                ),
            ),
        ) + flag_el("c:autoTitleDeleted"@, false),
        None => Seq::empty(),
    }
}

/// The chart part: the chart space and chart, the title, the plot area
/// with the plot and (unless a pie) the axes, the legend on the right,
/// plotting visible cells only.
pub open spec fn chart_part_xml(c: Chart) -> Seq<u8> {
    start_tag_attrs(
        "c:chartSpace"@,
        seq![("xmlns:c"@, C_NS@), ("xmlns:a"@, drawing_ns::A@), ("xmlns:r"@, R_NS@)],
    ) + start_tag("c:chart"@) + title_xml(c.title) + element(
        "c:plotArea"@,
        empty_tag("c:layout"@) + plot_xml(c) + (if c.kind != ChartKind::Pie { axes_xml(c.kind) } else { Seq::empty() }),
    ) + element("c:legend"@, val_el("c:legendPos"@, "r"@) + flag_el("c:overlay"@, false)) + flag_el(
        "c:plotVisOnly"@,
        true,
    ) + end_tag("c:chart"@) + end_tag("c:chartSpace"@)
}

/// The drawing run that shows the chart part related by `rel_id`, inline
/// at the given size.
pub open spec fn chart_run_xml(rel_id: Seq<char>, cx: i64, cy: i64) -> Seq<u8> {
    element(
        "w:r"@,
        element(
            "w:drawing"@,
            element_attrs(
                "wp:inline"@,
                seq![("xmlns:wp"@, drawing_ns::WP@), ("distT"@, "0"@), ("distB"@, "0"@), ("distL"@, "0"@), ("distR"@, "0"@)],
                empty_tag_attrs("wp:extent"@, seq![("cx"@, signed_decimal(cx as int)), ("cy"@, signed_decimal(cy as int))])
                    + empty_tag_attrs("wp:docPr"@, seq![("id"@, "1"@), ("name"@, "Chart"@)]) + element_attrs(
                    "a:graphic"@,
                    seq![("xmlns:a"@, drawing_ns::A@)],
                    element_attrs(
                        "a:graphicData"@,
                        seq![("uri"@, C_NS@)],
                        empty_tag_attrs("c:chart"@, seq![("xmlns:c"@, C_NS@), ("xmlns:r"@, R_NS@), ("r:id"@, rel_id)]),
                    ),
                ),
            ),
        ),
    )
}

/// The decimal text of `n`.
fn usize_text(n: usize) -> (r: String)
    ensures
        r@ == decimal(n as nat),
{
    let mut s = String::new();
    push_decimal(&mut s, n as u64);
    s
}

/// Append `<tag val="v"/>`.
fn write_val(out: &mut Vec<u8>, tag: &str, v: &str)
    ensures
        final(out)@ == old(out)@ + val_el(tag@, v@),
{
    emit_empty_attr(out, tag, "val", v);
}

/// Append a flag.
fn write_flag(out: &mut Vec<u8>, tag: &str, on: bool)
    ensures
        final(out)@ == old(out)@ + flag_el(tag@, on),
{
    write_val(out, tag, if on { "1" } else { "0" });
}

/// Append a count or index.
fn write_num(out: &mut Vec<u8>, tag: &str, n: usize)
    ensures
        final(out)@ == old(out)@ + num_el(tag@, n as nat),
{
    let t = usize_text(n);
    write_val(out, tag, t.as_str());
}

/// Append one cached point.
fn pt_str(out: &mut Vec<u8>, idx: usize, text: &str)
    ensures
        final(out)@ == old(out)@ + pt_xml(idx as nat, text@),
{
    let ghost o = out@;
    let t = usize_text(idx);
    emit_start_attr(out, "c:pt", "idx", t.as_str());
    let mut v: Vec<u8> = Vec::new();
    emit_text(&mut v, text);
    proof { assert(v@ =~= text_bytes(text@)); }
    emit_element(out, "c:v", &v);
    emit_end(out, "c:pt");
    proof { assert(out@ =~= o + pt_xml(idx as nat, text@)); }
}

/// Append every item as a cached point.
fn write_pts(out: &mut Vec<u8>, items: &Vec<String>)
    ensures
        final(out)@ == old(out)@ + pts_xml(items@, items@.len()),
{
    let ghost o = out@;
    let mut i: usize = 0;
    while i < items.len()
        invariant
            i <= items@.len(),
            out@ == o + pts_xml(items@, i as nat),
        decreases items@.len() - i,
    {
        pt_str(out, i, items[i].as_str());
        proof { assert(out@ =~= o + pts_xml(items@, (i + 1) as nat)); }
        i = i + 1;
    }
}

/// The sheet reference of a series.
fn series_ref_text(idx: usize) -> (r: String)
    requires
        idx < usize::MAX,
    ensures
        r@ == series_ref(idx as nat),
{
    let mut s = to_owned_string("Sheet1!$B$");
    push_decimal(&mut s, (idx + 1) as u64);
    s
}

/// Append the name of a series.
fn write_series_name(out: &mut Vec<u8>, idx: usize, name: &str)
    requires
        idx < usize::MAX,
    ensures
        final(out)@ == old(out)@ + series_name_xml(idx as nat, name@),
{
    let mut cache: Vec<u8> = Vec::new();
    write_num(&mut cache, "c:ptCount", 1);
    pt_str(&mut cache, 0, name);
    proof { assert(cache@ =~= num_el("c:ptCount"@, 1) + pt_xml(0, name@)); }
    let mut sr: Vec<u8> = Vec::new();
    let f = series_ref_text(idx);
    write_val(&mut sr, "c:f", f.as_str());
    emit_element(&mut sr, "c:strCache", &cache);
    proof { assert(sr@ =~= val_el("c:f"@, series_ref(idx as nat)) + element("c:strCache"@, cache@)); }
    let mut tx: Vec<u8> = Vec::new();
    emit_element(&mut tx, "c:strRef", &sr);
    proof { assert(tx@ =~= element("c:strRef"@, sr@)); }
    emit_element(out, "c:tx", &tx);
}

/// Append the categories.
fn write_categories(out: &mut Vec<u8>, cats: &Vec<String>)
    ensures
        final(out)@ == old(out)@ + categories_xml(cats@),
{
    let mut cache: Vec<u8> = Vec::new();
    write_num(&mut cache, "c:ptCount", cats.len());
    write_pts(&mut cache, cats);
    proof { assert(cache@ =~= num_el("c:ptCount"@, cats@.len()) + pts_xml(cats@, cats@.len())); }
    let mut sr: Vec<u8> = Vec::new();
    write_val(&mut sr, "c:f", "Sheet1!$A$1");
    emit_element(&mut sr, "c:strCache", &cache);
    proof { assert(sr@ =~= val_el("c:f"@, "Sheet1!$A$1"@) + element("c:strCache"@, cache@)); }
    let mut c: Vec<u8> = Vec::new();
    emit_element(&mut c, "c:strRef", &sr);
    proof { assert(c@ =~= element("c:strRef"@, sr@)); }
    emit_element(out, "c:cat", &c);
}

/// Append a number reference.
fn write_num_ref(out: &mut Vec<u8>, f: &str, vals: &Vec<String>)
    ensures
        final(out)@ == old(out)@ + num_ref_xml(f@, vals@),
{
    let mut cache: Vec<u8> = Vec::new();
    write_val(&mut cache, "c:formatCode", "General");
    write_num(&mut cache, "c:ptCount", vals.len());
    write_pts(&mut cache, vals);
    proof {
        assert(cache@ =~= val_el("c:formatCode"@, "General"@) + num_el("c:ptCount"@, vals@.len()) + pts_xml(
            vals@,
            vals@.len(),
        ));
    }
    let mut nr: Vec<u8> = Vec::new();
    write_val(&mut nr, "c:f", f);
    emit_element(&mut nr, "c:numCache", &cache);
    proof { assert(nr@ =~= val_el("c:f"@, f@) + element("c:numCache"@, cache@)); }
    emit_element(out, "c:numRef", &nr);
}

/// Append a series of a category chart.
fn write_series(out: &mut Vec<u8>, idx: usize, s: &Series, cats: &Vec<String>)
    requires
        idx < usize::MAX,
    ensures
        final(out)@ == old(out)@ + series_xml(idx as nat, *s, cats@),
{
    let mut b: Vec<u8> = Vec::new();
    write_num(&mut b, "c:idx", idx);
    write_num(&mut b, "c:order", idx);
    write_series_name(&mut b, idx, s.name.as_str());
    write_categories(&mut b, cats);
    let f = series_ref_text(idx);
    let mut v: Vec<u8> = Vec::new();
    write_num_ref(&mut v, f.as_str(), &s.values);
    proof { assert(v@ =~= num_ref_xml(series_ref(idx as nat), s.values@)); }
    emit_element(&mut b, "c:val", &v);
    proof {
        assert(b@ =~= num_el("c:idx"@, idx as nat) + num_el("c:order"@, idx as nat) + series_name_xml(
            idx as nat,
            s.name@,
        ) + categories_xml(cats@) + element("c:val"@, num_ref_xml(series_ref(idx as nat), s.values@)));
    }
    emit_element(out, "c:ser", &b);
}

/// Append a series of a scatter chart.
fn write_scatter_series(out: &mut Vec<u8>, idx: usize, s: &Series, xs: &Vec<String>)
    requires
        idx < usize::MAX,
    ensures
        final(out)@ == old(out)@ + scatter_series_xml(idx as nat, *s, xs@),
{
    let mut b: Vec<u8> = Vec::new();
    write_num(&mut b, "c:idx", idx);
    write_num(&mut b, "c:order", idx);
    write_series_name(&mut b, idx, s.name.as_str());
    let mut x: Vec<u8> = Vec::new();
    write_num_ref(&mut x, "Sheet1!$A$1", xs);
    proof { assert(x@ =~= num_ref_xml("Sheet1!$A$1"@, xs@)); }
    emit_element(&mut b, "c:xVal", &x);
    let f = series_ref_text(idx);
    let mut y: Vec<u8> = Vec::new();
    write_num_ref(&mut y, f.as_str(), &s.values);
    proof { assert(y@ =~= num_ref_xml(series_ref(idx as nat), s.values@)); }
    emit_element(&mut b, "c:yVal", &y);
    proof {
        assert(b@ =~= num_el("c:idx"@, idx as nat) + num_el("c:order"@, idx as nat) + series_name_xml(
            idx as nat,
            s.name@,
        ) + element("c:xVal"@, num_ref_xml("Sheet1!$A$1"@, xs@)) + element(
            "c:yVal"@,
            num_ref_xml(series_ref(idx as nat), s.values@),
        ));
    }
    emit_element(out, "c:ser", &b);
}

/// Append the fixed label colour, if any.
fn write_label_color(out: &mut Vec<u8>, color: &Option<String>)
    ensures
        final(out)@ == old(out)@ + label_color_xml(*color),
{
    match color {
        Some(hex) => {
            let mut fill: Vec<u8> = Vec::new();
            write_val(&mut fill, "a:srgbClr", hex.as_str());
            let mut def: Vec<u8> = Vec::new();
            emit_element(&mut def, "a:solidFill", &fill);
            proof { assert(def@ =~= element("a:solidFill"@, fill@)); }
            let mut ppr: Vec<u8> = Vec::new();
            emit_element(&mut ppr, "a:defRPr", &def);
            proof { assert(ppr@ =~= element("a:defRPr"@, def@)); }
            let mut p: Vec<u8> = Vec::new();
            emit_element(&mut p, "a:pPr", &ppr);
            emit_empty(&mut p, "a:endParaRPr");
            proof { assert(p@ =~= element("a:pPr"@, ppr@) + empty_tag("a:endParaRPr"@)); }
            let mut tx: Vec<u8> = Vec::new();
            emit_empty(&mut tx, "a:bodyPr");
            emit_empty(&mut tx, "a:lstStyle");
            emit_element(&mut tx, "a:p", &p);
            proof { assert(tx@ =~= empty_tag("a:bodyPr"@) + empty_tag("a:lstStyle"@) + element("a:p"@, p@)); }
            emit_element(out, "c:txPr", &tx);
        },
        None => {
            proof { assert(out@ =~= old(out)@ + label_color_xml(*color)); }
        },
    }
}

/// Append the data labels.
fn write_labels(out: &mut Vec<u8>, kind: ChartKind, l: &DataLabels)
    ensures
        final(out)@ == old(out)@ + labels_xml(kind, *l),
{
    let mut b: Vec<u8> = Vec::new();
    write_label_color(&mut b, &l.color);
    let ghost pos_start = b@;
    match l.position {
        Some(p) => {
            let positioned = match kind {
                ChartKind::Pie | ChartKind::Bar | ChartKind::Column => true,
                _ => false,
            };
            if positioned {
                write_val(&mut b, "c:dLblPos", p.as_str());
            }
        },
        None => {},
    }
    let ghost pos_end = b@;
    write_flag(&mut b, "c:showLegendKey", l.show_legend_key);
    write_flag(&mut b, "c:showVal", l.show_value);
    write_flag(&mut b, "c:showCatName", l.show_category);
    write_flag(&mut b, "c:showSerName", l.show_series);
    write_flag(&mut b, "c:showPercent", l.show_percent);
    write_flag(&mut b, "c:showBubbleSize", false);
    proof {
        let pos_part = match l.position {
            Some(p) => if positions_labels(kind) { val_el("c:dLblPos"@, label_position_str(p)) } else { Seq::empty() },
            None => Seq::<u8>::empty(),
        };
        assert(pos_end =~= pos_start + pos_part);
        assert(b@ =~= label_color_xml(l.color) + pos_part + flag_el("c:showLegendKey"@, l.show_legend_key) + flag_el(
            "c:showVal"@,
            l.show_value,
        ) + flag_el("c:showCatName"@, l.show_category) + flag_el("c:showSerName"@, l.show_series) + flag_el(
            "c:showPercent"@,
            l.show_percent,
        ) + flag_el("c:showBubbleSize"@, false));
    }
    emit_element(out, "c:dLbls", &b);
}

/// Append an axis.
fn write_axis(out: &mut Vec<u8>, tag: &str, id: usize, pos: &str, cross: usize)
    ensures
        final(out)@ == old(out)@ + axis_xml(tag@, id as nat, pos@, cross as nat),
{
    let mut b: Vec<u8> = Vec::new();
    write_num(&mut b, "c:axId", id);
    let mut sc: Vec<u8> = Vec::new();
    write_val(&mut sc, "c:orientation", "minMax");
    emit_element(&mut b, "c:scaling", &sc);
    write_flag(&mut b, "c:delete", false);
    write_val(&mut b, "c:axPos", pos);
    write_num(&mut b, "c:crossAx", cross);
    proof {
        assert(sc@ =~= val_el("c:orientation"@, "minMax"@));
        assert(b@ =~= num_el("c:axId"@, id as nat) + element("c:scaling"@, val_el("c:orientation"@, "minMax"@))
            + flag_el("c:delete"@, false) + val_el("c:axPos"@, pos@) + num_el("c:crossAx"@, cross as nat));
    }
    emit_element(out, tag, &b);
}

impl Chart {
    /// Append the axes.
    fn write_axes(&self, out: &mut Vec<u8>)
        ensures
            final(out)@ == old(out)@ + axes_xml(self.kind),
    {
        let ghost o = out@;
        let bar = match self.kind {
            ChartKind::Bar => true,
            _ => false,
        };
        let scatter = match self.kind {
            ChartKind::Scatter => true,
            _ => false,
        };
        write_axis(out, if scatter { "c:valAx" } else { "c:catAx" }, 1, if bar { "l" } else { "b" }, 2);
        write_axis(out, "c:valAx", 2, if bar { "b" } else { "l" }, 1);
        proof { assert(out@ =~= o + axes_xml(self.kind)); }
    }

    /// Append the plot of a scatter chart.
    fn write_scatter(&self, out: &mut Vec<u8>)
        requires
            self.kind == ChartKind::Scatter,
        ensures
            final(out)@ == old(out)@ + plot_xml(*self),
    {
        let mut b: Vec<u8> = Vec::new();
        write_val(&mut b, "c:scatterStyle", "lineMarker");
        let ghost head = b@;
        let mut i: usize = 0;
        while i < self.series.len()
            invariant
                i <= self.series@.len(),
                b@ == head + all_scatter_series_xml(self.series@, i as nat, self.x_values@),
            decreases self.series@.len() - i,
        {
            write_scatter_series(&mut b, i, &self.series[i], &self.x_values);
            proof { assert(b@ =~= head + all_scatter_series_xml(self.series@, (i + 1) as nat, self.x_values@)); }
            i = i + 1;
        }
        write_num(&mut b, "c:axId", 1);
        write_num(&mut b, "c:axId", 2);
        proof {
            assert(b@ =~= val_el("c:scatterStyle"@, "lineMarker"@) + all_scatter_series_xml(
                self.series@,
                self.series@.len(),
                self.x_values@,
            ) + axis_ids());
        }
        emit_element(out, "c:scatterChart", &b);
    }

    /// Append the series of a category chart.
    fn write_all_series(&self, out: &mut Vec<u8>)
        ensures
            final(out)@ == old(out)@ + all_series_xml(self.series@, self.series@.len(), self.categories@),
    {
        let ghost head = out@;
        let mut i: usize = 0;
        while i < self.series.len()
            invariant
                i <= self.series@.len(),
                out@ == head + all_series_xml(self.series@, i as nat, self.categories@),
            decreases self.series@.len() - i,
        {
            write_series(out, i, &self.series[i], &self.categories);
            proof { assert(out@ =~= head + all_series_xml(self.series@, (i + 1) as nat, self.categories@)); }
            i = i + 1;
        }
    }

    /// Append the plot.
    fn write_plot(&self, out: &mut Vec<u8>)
        ensures
            final(out)@ == old(out)@ + plot_xml(*self),
    {
        if let ChartKind::Scatter = self.kind {
            return self.write_scatter(out);
        }
        let tag = match self.kind {
            ChartKind::Bar | ChartKind::Column => "c:barChart",
            ChartKind::Line => "c:lineChart",
            ChartKind::Pie => "c:pieChart",
            _ => "c:areaChart",
        };
        let mut b: Vec<u8> = Vec::new();
        write_plot_head(&mut b, self.kind);
        self.write_all_series(&mut b);
        match &self.labels {
            Some(l) => write_labels(&mut b, self.kind, l),
            None => {
                let d = Chart::default_labels(self.kind);
                write_labels(&mut b, self.kind, &d);
            },
        }
        let pie = match self.kind {
            ChartKind::Pie => true,
            _ => false,
        };
        let ghost mid = b@;
        if !pie {
            write_axis_ids(&mut b);
        }
        proof {
            assert(b@ =~= plot_head(self.kind) + all_series_xml(self.series@, self.series@.len(), self.categories@)
                + labels_xml(self.kind, chart_labels(*self)) + (if self.kind != ChartKind::Pie {
                axis_ids()
            } else {
                Seq::empty()
            }));
        }
        emit_element(out, tag, &b);
    }
}

impl Chart {
    /// The chart part `word/charts/chartN.xml`; writing to memory does not
    /// fail.
    pub fn to_part_bytes(&self) -> (r: Result<Vec<u8>, OxmlError>)
        ensures
            r matches Ok(b) && b@ == chart_part_xml(*self),
    {
        let mut out: Vec<u8> = Vec::new();
        let mut sa: Vec<(String, String)> = Vec::new();
        push_attr(&mut sa, "xmlns:c", to_owned_string(C_NS));
        push_attr(&mut sa, "xmlns:a", to_owned_string(drawing_ns::A));
        push_attr(&mut sa, "xmlns:r", to_owned_string(R_NS));
        proof {
            assert(attr_views(sa@) =~= seq![("xmlns:c"@, C_NS@), ("xmlns:a"@, drawing_ns::A@), ("xmlns:r"@, R_NS@)]);
        }
        emit_start_attrs(&mut out, "c:chartSpace", sa);
        emit_start(&mut out, "c:chart");
        let ghost before_title = out@;
        write_title(&mut out, &self.title);
        let mut area: Vec<u8> = Vec::new();
        emit_empty(&mut area, "c:layout");
        self.write_plot(&mut area);
        let ghost mid = area@;
        let pie = match self.kind {
            ChartKind::Pie => true,
            _ => false,
        };
        if !pie {
            self.write_axes(&mut area);
        }
        proof {
            assert(area@ =~= empty_tag("c:layout"@) + plot_xml(*self) + (if self.kind != ChartKind::Pie {
                axes_xml(self.kind)
            } else {
                Seq::empty()
            }));
        }
        emit_element(&mut out, "c:plotArea", &area);
        let mut legend: Vec<u8> = Vec::new();
        write_val(&mut legend, "c:legendPos", "r");
        write_flag(&mut legend, "c:overlay", false);
        proof { assert(legend@ =~= val_el("c:legendPos"@, "r"@) + flag_el("c:overlay"@, false)); }
        emit_element(&mut out, "c:legend", &legend);
        write_flag(&mut out, "c:plotVisOnly", true);
        emit_end(&mut out, "c:chart");
        emit_end(&mut out, "c:chartSpace");
        proof { assert(out@ =~= chart_part_xml(*self)); }
        Ok(out)
    }

    /// The run with the drawing that shows this chart, its part related by
    /// `rel_id`, inline at `width` by `height`.
    pub fn to_run_bytes(&self, rel_id: &str, width: Emu, height: Emu) -> (r: Result<Vec<u8>, OxmlError>)
        ensures
            r matches Ok(b) && b@ == chart_run_xml(rel_id@, width.0, height.0),
    {
        let mut ca: Vec<(String, String)> = Vec::new();
        push_attr(&mut ca, "xmlns:c", to_owned_string(C_NS));
        push_attr(&mut ca, "xmlns:r", to_owned_string(R_NS));
        push_attr(&mut ca, "r:id", to_owned_string(rel_id));
        proof { assert(attr_views(ca@) =~= seq![("xmlns:c"@, C_NS@), ("xmlns:r"@, R_NS@), ("r:id"@, rel_id@)]); }
        let mut gd: Vec<u8> = Vec::new();
        emit_empty_attrs(&mut gd, "c:chart", ca);
        proof { assert(gd@ =~= empty_tag_attrs("c:chart"@, seq![("xmlns:c"@, C_NS@), ("xmlns:r"@, R_NS@), ("r:id"@, rel_id@)])); }
        let mut ga: Vec<(String, String)> = Vec::new();
        push_attr(&mut ga, "uri", to_owned_string(C_NS));
        proof { assert(attr_views(ga@) =~= seq![("uri"@, C_NS@)]); }
        let mut g: Vec<u8> = Vec::new();
        emit_element_attrs(&mut g, "a:graphicData", ga, &gd);
        proof { assert(g@ =~= element_attrs("a:graphicData"@, seq![("uri"@, C_NS@)], gd@)); }
        let mut aa: Vec<(String, String)> = Vec::new();
        push_attr(&mut aa, "xmlns:a", to_owned_string(drawing_ns::A));
        proof { assert(attr_views(aa@) =~= seq![("xmlns:a"@, drawing_ns::A@)]); }
        let mut inl: Vec<u8> = Vec::new();
        let mut ea: Vec<(String, String)> = Vec::new();
        push_attr(&mut ea, "cx", i64_string(width.0));
        push_attr(&mut ea, "cy", i64_string(height.0));
        proof {
            assert(attr_views(ea@) =~= seq![("cx"@, signed_decimal(width.0 as int)), ("cy"@, signed_decimal(height.0 as int))]);
        }
        emit_empty_attrs(&mut inl, "wp:extent", ea);
        let mut da: Vec<(String, String)> = Vec::new();
        push_attr(&mut da, "id", to_owned_string("1"));
        push_attr(&mut da, "name", to_owned_string("Chart"));
        proof { assert(attr_views(da@) =~= seq![("id"@, "1"@), ("name"@, "Chart"@)]); }
        emit_empty_attrs(&mut inl, "wp:docPr", da);
        emit_element_attrs(&mut inl, "a:graphic", aa, &g);
        let mut ia: Vec<(String, String)> = Vec::new();
        push_attr(&mut ia, "xmlns:wp", to_owned_string(drawing_ns::WP));
        push_attr(&mut ia, "distT", to_owned_string("0"));
        push_attr(&mut ia, "distB", to_owned_string("0"));
        push_attr(&mut ia, "distL", to_owned_string("0"));
        push_attr(&mut ia, "distR", to_owned_string("0"));
        proof {
            assert(attr_views(ia@) =~= seq![("xmlns:wp"@, drawing_ns::WP@), ("distT"@, "0"@), ("distB"@, "0"@), ("distL"@, "0"@), ("distR"@, "0"@)]);
            assert(inl@ =~= empty_tag_attrs("wp:extent"@, seq![("cx"@, signed_decimal(width.0 as int)), ("cy"@, signed_decimal(height.0 as int))])
                + empty_tag_attrs("wp:docPr"@, seq![("id"@, "1"@), ("name"@, "Chart"@)]) + element_attrs(
                "a:graphic"@,
                seq![("xmlns:a"@, drawing_ns::A@)],
                g@,
            ));
        }
        let mut dr: Vec<u8> = Vec::new();
        emit_element_attrs(&mut dr, "wp:inline", ia, &inl);
        proof { assert(dr@ =~= Seq::<u8>::empty() + dr@); }
        let mut run: Vec<u8> = Vec::new();
        emit_element(&mut run, "w:drawing", &dr);
        proof { assert(run@ =~= Seq::<u8>::empty() + run@); }
        let mut out: Vec<u8> = Vec::new();
        emit_element(&mut out, "w:r", &run);
        proof { assert(out@ =~= chart_run_xml(rel_id@, width.0, height.0)); }
        Ok(out)
    }
}

/// Append the title, if any.
fn write_title(out: &mut Vec<u8>, title: &Option<String>)
    ensures
        final(out)@ == old(out)@ + title_xml(*title),
{
    match title {
        Some(t) => {
            let mut tt: Vec<u8> = Vec::new();
            emit_text(&mut tt, t.as_str());
            let mut r: Vec<u8> = Vec::new();
            emit_element(&mut r, "a:t", &tt);
            let mut p: Vec<u8> = Vec::new();
            emit_element(&mut p, "a:r", &r);
            let mut rich: Vec<u8> = Vec::new();
            emit_empty(&mut rich, "a:bodyPr");
            emit_empty(&mut rich, "a:lstStyle");
            emit_element(&mut rich, "a:p", &p);
            let mut tx: Vec<u8> = Vec::new();
            emit_element(&mut tx, "c:rich", &rich);
            let mut ti: Vec<u8> = Vec::new();
            emit_element(&mut ti, "c:tx", &tx);
            proof {
                assert(tt@ =~= text_bytes(t@));
                assert(r@ =~= element("a:t"@, tt@));
                assert(p@ =~= element("a:r"@, r@));
                assert(rich@ =~= empty_tag("a:bodyPr"@) + empty_tag("a:lstStyle"@) + element("a:p"@, p@));
                assert(tx@ =~= element("c:rich"@, rich@));
                assert(ti@ =~= element("c:tx"@, tx@));
            }
            emit_element(out, "c:title", &ti);
            write_flag(out, "c:autoTitleDeleted", false);
        },
        None => {
            proof { assert(out@ =~= old(out)@ + title_xml(*title)); }
        },
    }
}

/// Append what opens a category chart's plot.
fn write_plot_head(out: &mut Vec<u8>, kind: ChartKind)
    ensures
        final(out)@ == old(out)@ + plot_head(kind),
{
    let ghost o = out@;
    match kind {
        ChartKind::Bar => {
            write_val(out, "c:barDir", "bar");
            write_val(out, "c:grouping", "clustered");
        },
        ChartKind::Column => {
            write_val(out, "c:barDir", "col");
            write_val(out, "c:grouping", "clustered");
        },
        ChartKind::Pie => {
            write_flag(out, "c:varyColors", true);
        },
        _ => {},
    }
    proof { assert(out@ =~= o + plot_head(kind)); }
}

/// Append the two axis ids.
fn write_axis_ids(out: &mut Vec<u8>)
    ensures
        final(out)@ == old(out)@ + axis_ids(),
{
    let ghost o = out@;
    write_num(out, "c:axId", 1);
    write_num(out, "c:axId", 2);
    proof { assert(out@ =~= o + axis_ids()); }
}

} // verus!
