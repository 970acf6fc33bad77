//! Charts: a chart part (`word/charts/chartN.xml`) built from categories
//! and data series, and the drawing run that references it.

use vstd::prelude::*;

pub mod chart_xml;

verus! {

/// The kind of chart.
#[derive(Debug, Clone, Copy, PartialEq, Eq, Structural)]
pub enum ChartKind {
    Bar,
    Column,
    Line,
    Pie,
    Area,
    Scatter,
}

/// A data series: a name and one value per category, each value as its
/// decimal text.
#[derive(Debug, Clone, PartialEq)]
pub struct Series {
    pub name: String,
    pub values: Vec<String>,
}

/// A chart definition.
#[derive(Debug, Clone, PartialEq)]
pub struct Chart {
    pub kind: ChartKind,
    pub title: Option<String>,
    pub categories: Vec<String>,
    pub series: Vec<Series>,
    /// Data-label configuration; `None` takes the default of the kind.
    pub labels: Option<DataLabels>,
    /// The x value of each category in a scatter chart, as decimal text.
    pub x_values: Vec<String>,
}

/// Where data labels sit relative to their data point.
#[derive(Debug, Clone, Copy, PartialEq, Eq, Structural)]
pub enum LabelPosition {
    OutsideEnd,
    InsideEnd,
    Center,
    InsideBase,
    BestFit,
}

/// The `c:dLblPos` value of a label position.
pub open spec fn label_position_str(p: LabelPosition) -> Seq<char> {
    match p {
        LabelPosition::OutsideEnd => "outEnd"@,
        LabelPosition::InsideEnd => "inEnd"@,
        LabelPosition::Center => "ctr"@,
        LabelPosition::InsideBase => "inBase"@,
        LabelPosition::BestFit => "bestFit"@,
    }
}

impl LabelPosition {
    /// The `c:dLblPos` value.
    pub fn as_str(self) -> (r: &'static str)
        ensures
            r@ == label_position_str(self),
    {
        match self {
            LabelPosition::OutsideEnd => "outEnd",
            LabelPosition::InsideEnd => "inEnd",
            LabelPosition::Center => "ctr",
            LabelPosition::InsideBase => "inBase",
            LabelPosition::BestFit => "bestFit",
        }
    }
}

/// Which parts of each data point a label shows, and where.
#[derive(Debug, Clone, PartialEq, Default)]
pub struct DataLabels {
    pub position: Option<LabelPosition>,
    pub show_value: bool,
    pub show_category: bool,
    pub show_series: bool,
    pub show_percent: bool,
    pub show_legend_key: bool,
    /// Label text colour (hex RGB), if any.
    pub color: Option<String>,
}

/// The labels a chart of `kind` gets by default: outside the end, showing
/// category and percentage for a pie, the value otherwise.
pub open spec fn labels_default(kind: ChartKind) -> DataLabels {
    let pie = kind == ChartKind::Pie;
    DataLabels {
        position: Some(LabelPosition::OutsideEnd),
        show_value: !pie,
        show_category: pie,
        show_series: false,
        show_percent: pie,
        show_legend_key: false,
        color: None,
    }
}

impl Chart {
    /// The labels a chart of `kind` gets by default.
    pub fn default_labels(kind: ChartKind) -> (r: DataLabels)
        ensures
            r == labels_default(kind),
            r.position == Some(LabelPosition::OutsideEnd),
            r.show_value == (kind != ChartKind::Pie),
            r.show_category == (kind == ChartKind::Pie),
            r.show_percent == (kind == ChartKind::Pie),
            !r.show_series,
            !r.show_legend_key,
            r.color is None,
    {
        let pie = match kind {
            ChartKind::Pie => true,
            _ => false,
        };
        DataLabels {
            position: Some(LabelPosition::OutsideEnd),
            show_value: !pie,
            show_category: pie,
            show_series: false,
            show_percent: pie,
            show_legend_key: false,
            color: None,
        }
    }

}

} // verus!
