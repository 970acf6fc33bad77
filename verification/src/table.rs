//! Table elements: `CT_Tbl`, `CT_Row`, `CT_Tc` and related types.

use vstd::prelude::*;

use crate::borders::CT_BorderEdge;
use crate::chars::{push_char, push_str, str_eq, to_owned_string};
use crate::header_footer::paras_text;
use crate::properties::CT_Shd;
use crate::shared::ST_Jc;
use crate::text::CT_P;
use crate::units::Twips;

pub mod table_xml;
pub mod table_read;

verus! {

/// `CT_TblBorders` — Table-level borders.
#[derive(Debug, Clone, Default, PartialEq)]
pub struct CT_TblBorders {
    pub top: Option<CT_BorderEdge>,
    pub bottom: Option<CT_BorderEdge>,
    pub left: Option<CT_BorderEdge>,
    pub right: Option<CT_BorderEdge>,
    pub inside_h: Option<CT_BorderEdge>,
    pub inside_v: Option<CT_BorderEdge>,
}

impl CT_TblBorders {
    /// Whether no edge is set.
    pub fn is_empty(&self) -> (r: bool)
        ensures
            r == (self.top is None && self.bottom is None && self.left is None
                && self.right is None && self.inside_h is None && self.inside_v is None),
    {
        self.top.is_none() && self.bottom.is_none() && self.left.is_none()
            && self.right.is_none() && self.inside_h.is_none() && self.inside_v.is_none()
    }
}

/// Table cell margins (one width per edge).
#[derive(Debug, Clone, Default, PartialEq)]
pub struct CT_TblCellMar {
    pub top: Option<Twips>,
    pub bottom: Option<Twips>,
    pub left: Option<Twips>,
    pub right: Option<Twips>,
}

/// Table width specification.
#[derive(Debug, Clone, PartialEq)]
pub struct CT_TblWidth {
    /// Width value
    pub w: i32,
    /// Width type: "dxa" (twips), "pct" (50ths of a percent), "auto", "nil"
    pub width_type: String,
}

impl CT_TblWidth {
    /// A width in twips.
    pub fn dxa(twips: i32) -> (r: Self)
        ensures
            r.w == twips,
            r.width_type@ == "dxa"@,
    {
        CT_TblWidth { w: twips, width_type: to_owned_string("dxa") }
    }

    /// A width in fiftieths of a percent.
    pub fn pct(fiftieths: i32) -> (r: Self)
        ensures
            r.w == fiftieths,
            r.width_type@ == "pct"@,
    {
        CT_TblWidth { w: fiftieths, width_type: to_owned_string("pct") }
    }

    /// An automatic width.
    pub fn auto() -> (r: Self)
        ensures
            r.w == 0,
            r.width_type@ == "auto"@,
    {
        CT_TblWidth { w: 0, width_type: to_owned_string("auto") }
    }
}

/// `CT_TblGridCol` — A column definition in the table grid.
#[derive(Debug, Clone, PartialEq)]
pub struct CT_TblGridCol {
    /// Column width in twips
    pub width: Twips,
}

/// `CT_TblPr` — Table properties.
#[derive(Debug, Clone, Default, PartialEq)]
pub struct CT_TblPr {
    /// Table style ID
    pub style_id: Option<String>,
    /// Table width
    pub width: Option<CT_TblWidth>,
    /// Table alignment
    pub jc: Option<ST_Jc>,
    /// Table borders
    pub borders: Option<CT_TblBorders>,
    /// Default cell margins
    pub cell_margin: Option<CT_TblCellMar>,
    /// Table layout: "fixed" or "autofit"
    pub layout: Option<String>,
    /// Table indent from left margin
    pub indent: Option<CT_TblWidth>,
    /// Table shading/background
    pub shading: Option<CT_Shd>,
    /// "Look" flags for conditional formatting (firstRow, lastRow, etc.)
    pub look: Option<String>,
    /// Unknown table-property children preserved for round-trip.
    pub extra_xml: Option<Vec<Vec<u8>>>,
}

/// `CT_TblGrid` — Defines the column structure of a table.
#[derive(Debug, Clone, Default, PartialEq)]
pub struct CT_TblGrid {
    pub columns: Vec<CT_TblGridCol>,
}

/// Vertical merge state for a cell.
#[derive(Debug, Clone, Copy, PartialEq, Eq, Structural)]
pub enum VMerge {
    /// Start of a vertical merge group
    Restart,
    /// Continuation of the merge group above
    Continue,
}

/// `CT_TrPr` — Table row properties.
#[derive(Debug, Clone, Default, PartialEq)]
pub struct CT_TrPr {
    /// Row height in twips
    pub height: Option<Twips>,
    /// Row height rule: "exact" or "atLeast"
    pub height_rule: Option<String>,
    /// Repeat as header row on each page
    pub header: Option<bool>,
    /// Row alignment
    pub jc: Option<ST_Jc>,
    /// Allow row to break across pages
    pub cant_split: Option<bool>,
    /// Unknown row-property children preserved for round-trip.
    pub extra_xml: Option<Vec<Vec<u8>>>,
}

impl CT_TrPr {
    /// Whether no row property is set (the height rule counts only with a
    /// height).
    pub fn is_empty(&self) -> (r: bool)
        ensures
            r == (self.height is None && self.header is None && self.jc is None
                && self.cant_split is None && self.extra_xml is None),
    {
        self.height.is_none() && self.header.is_none() && self.jc.is_none()
            && self.cant_split.is_none() && self.extra_xml.is_none()
    }
}

/// Vertical alignment within a cell.
#[derive(Debug, Clone, Copy, PartialEq, Eq, Structural)]
pub enum ST_VerticalJc {
    Top,
    Center,
    Bottom,
}

/// The attribute value naming each vertical alignment.
pub open spec fn vjc_name(v: ST_VerticalJc) -> Seq<char> {
    match v {
        ST_VerticalJc::Top => "top"@,
        ST_VerticalJc::Center => "center"@,
        ST_VerticalJc::Bottom => "bottom"@,
    }
}

/// The vertical alignment an attribute value names; any other value means `Top`.
pub open spec fn vjc_parse(s: Seq<char>) -> ST_VerticalJc {
    if s == "center"@ {
        ST_VerticalJc::Center
    } else if s == "bottom"@ {
        ST_VerticalJc::Bottom
    } else {
        ST_VerticalJc::Top
    }
}

impl ST_VerticalJc {
    /// Parses an attribute value; unknown values mean `Top`.
    pub fn from_str(s: &str) -> (r: Self)
        ensures
            r == vjc_parse(s@),
    {
        if str_eq(s, "center") {
            ST_VerticalJc::Center
        } else if str_eq(s, "bottom") {
            ST_VerticalJc::Bottom
        } else {
            ST_VerticalJc::Top
        }
    }

    /// The attribute value for this alignment.
    pub fn to_str(self) -> (r: &'static str)
        ensures
            r@ == vjc_name(self),
    {
        match self {
            ST_VerticalJc::Top => "top",
            ST_VerticalJc::Center => "center",
            ST_VerticalJc::Bottom => "bottom",
        }
    }
}

/// Parsing the attribute value of a vertical alignment gives it back.
pub proof fn lemma_vjc_round_trip(v: ST_VerticalJc)
    ensures
        vjc_parse(vjc_name(v)) == v,
{
    reveal_strlit("top");
    reveal_strlit("center");
    reveal_strlit("bottom");
    assert("top"@.len() == 3);
    assert("top"@[0] == 't');
    assert("top"@[1] == 'o');
    assert("top"@[2] == 'p');
    assert("center"@.len() == 6);
    assert("center"@[0] == 'c');
    assert("center"@[1] == 'e');
    assert("center"@[2] == 'n');
    assert("bottom"@.len() == 6);
    assert("bottom"@[0] == 'b');
    assert("bottom"@[1] == 'o');
    assert("bottom"@[2] == 't');
}

/// `CT_TcPr` — Table cell properties.
#[derive(Debug, Clone, Default, PartialEq)]
pub struct CT_TcPr {
    /// Cell width
    pub width: Option<CT_TblWidth>,
    /// Horizontal merge (number of grid columns spanned)
    pub grid_span: Option<u32>,
    /// Vertical merge
    pub v_merge: Option<VMerge>,
    /// Cell borders
    pub borders: Option<CT_TblBorders>,
    /// Cell shading
    pub shading: Option<CT_Shd>,
    /// Vertical alignment
    pub v_align: Option<ST_VerticalJc>,
    /// No-wrap text
    pub no_wrap: Option<bool>,
    /// Text direction
    pub text_direction: Option<String>,
    /// Unknown cell-property children preserved for round-trip.
    pub extra_xml: Option<Vec<Vec<u8>>>,
}

impl CT_TcPr {
    /// Whether no cell property is set.
    pub fn is_empty(&self) -> (r: bool)
        ensures
            r == (self.width is None && self.grid_span is None && self.v_merge is None
                && self.borders is None && self.shading is None && self.v_align is None
                && self.no_wrap is None && self.text_direction is None
                && self.extra_xml is None),
    {
        self.width.is_none() && self.grid_span.is_none() && self.v_merge.is_none()
            && self.borders.is_none() && self.shading.is_none() && self.v_align.is_none()
            && self.no_wrap.is_none() && self.text_direction.is_none() && self.extra_xml.is_none()
    }
}

/// Content that can appear inside a table cell.
#[derive(Debug, PartialEq)]
pub enum CellContent {
    /// A paragraph.
    Paragraph(CT_P),
    /// A nested table.
    Table(CT_Tbl),
    /// Raw XML for unknown cell content preserved verbatim.
    RawXml(Vec<u8>),
}

/// `CT_Tc` — A table cell containing paragraphs and possibly nested tables.
#[derive(Debug, PartialEq)]
pub struct CT_Tc {
    pub properties: Option<CT_TcPr>,
    /// Cell content (paragraphs and nested tables).
    pub content: Vec<CellContent>,
}

/// The paragraphs among cell content items, in order (nested tables and raw
/// XML left out).
pub open spec fn cell_paragraphs(c: Seq<CellContent>) -> Seq<CT_P>
    decreases c.len(),
{
    if c.len() == 0 {
        Seq::empty()
    } else {
        match c.last() {
            CellContent::Paragraph(p) => cell_paragraphs(c.drop_last()).push(p),
            _ => cell_paragraphs(c.drop_last()),
        }
    }
}

impl CT_Tc {
    /// A cell holding one empty paragraph (OOXML requires at least one).
    pub fn new() -> (r: Self)
        ensures
            r.properties is None,
            r.content@.len() == 1,
            r.content@[0] matches CellContent::Paragraph(p) && p.runs@.len() == 0
                && p.properties is None && p.hyperlinks@.len() == 0 && p.extra_xml@.len() == 0,
    {
        let mut content = Vec::new();
        content.push(CellContent::Paragraph(CT_P::new()));
        CT_Tc { properties: None, content }
    }

    /// All paragraphs in this cell (excludes nested tables).
    pub fn paragraphs(&self) -> (r: Vec<&CT_P>)
        ensures
            r@.len() == cell_paragraphs(self.content@).len(),
            forall|i: int| 0 <= i < r@.len() ==> *r@[i] == cell_paragraphs(self.content@)[i],
    {
        let mut r: Vec<&CT_P> = Vec::new();
        let mut i: usize = 0;
        while i < self.content.len()
            invariant
                i <= self.content@.len(),
                r@.len() == cell_paragraphs(self.content@.subrange(0, i as int)).len(),
                forall|k: int| 0 <= k < r@.len()
                    ==> *r@[k] == cell_paragraphs(self.content@.subrange(0, i as int))[k],
            decreases self.content@.len() - i,
        {
            proof {
                assert(self.content@.subrange(0, i + 1).drop_last()
                    =~= self.content@.subrange(0, i as int));
            }
            match &self.content[i] {
                CellContent::Paragraph(p) => r.push(p),
                _ => {},
            }
            i = i + 1;
        }
        proof { assert(self.content@.subrange(0, i as int) =~= self.content@); }
        r
    }

    /// Mutable references to all paragraphs in this cell (excludes nested
    /// tables), in order.
    pub fn paragraphs_mut(&mut self) -> (r: Vec<&mut CT_P>)
        ensures
            r@.len() == cell_paragraphs(old(self).content@).len(),
            forall|i: int| 0 <= i < r@.len() ==> *r@[i] == cell_paragraphs(old(self).content@)[i],
            final(self).properties == old(self).properties,
            final(self).content@.len() == old(self).content@.len(),
            forall|k: int|
                0 <= k < old(self).content@.len() && !(old(self).content@[k] is Paragraph) ==> final(self).content@[k]
                    == old(self).content@[k],
            cell_paragraphs(final(self).content@).len() == r@.len(),
            forall|i: int| 0 <= i < r@.len() ==> cell_paragraphs(final(self).content@)[i] == *final(r@[i]),
    {
        paragraphs_in(self.content.as_mut_slice())
    }

    /// The paragraph texts of this cell joined with newlines.
    pub fn text(&self) -> (r: String)
        ensures
            r@ == paras_text(cell_paragraphs(self.content@)),
    {
        let mut out = String::new();
        let mut first = true;
        let mut i: usize = 0;
        while i < self.content.len()
            invariant
                i <= self.content@.len(),
                out@ == paras_text(cell_paragraphs(self.content@.subrange(0, i as int))),
                first == (cell_paragraphs(self.content@.subrange(0, i as int)).len() == 0),
            decreases self.content@.len() - i,
        {
            proof {
                assert(self.content@.subrange(0, i + 1).drop_last()
                    =~= self.content@.subrange(0, i as int));
            }
            match &self.content[i] {
                CellContent::Paragraph(p) => {
                    proof {
                        let ps = cell_paragraphs(self.content@.subrange(0, i as int));
                        assert(ps.push(*p).drop_last() =~= ps);
                    }
                    if !first {
                        push_char(&mut out, '\n');
                    }
                    let t = p.text();
                    push_str(&mut out, t.as_str());
                    first = false;
                },
                _ => {},
            }
            i = i + 1;
        }
        proof { assert(self.content@.subrange(0, i as int) =~= self.content@); }
        out
    }
}

/// `CT_Row` — A table row containing cells.
#[derive(Debug, PartialEq)]
pub struct CT_Row {
    pub properties: Option<CT_TrPr>,
    pub cells: Vec<CT_Tc>,
    /// Unknown row-level children preserved for round-trip.
    pub extra_xml: Vec<Vec<u8>>,
}

impl CT_Row {
    /// A row with no cells.
    pub fn new() -> (r: Self)
        ensures
            r.properties is None,
            r.cells@.len() == 0,
            r.extra_xml@.len() == 0,
    {
        CT_Row { properties: None, cells: Vec::new(), extra_xml: Vec::new() }
    }
}

/// `CT_Tbl` — A table element containing rows.
#[derive(Debug, PartialEq)]
pub struct CT_Tbl {
    pub properties: Option<CT_TblPr>,
    pub grid: Option<CT_TblGrid>,
    pub rows: Vec<CT_Row>,
    /// Unknown table-level children preserved for round-trip.
    pub extra_xml: Vec<Vec<u8>>,
}

impl CT_Tbl {
    /// A table with no rows.
    pub fn new() -> (r: Self)
        ensures
            r.properties is None,
            r.grid is None,
            r.rows@.len() == 0,
            r.extra_xml@.len() == 0,
    {
        CT_Tbl { properties: None, grid: None, rows: Vec::new(), extra_xml: Vec::new() }
    }
}

/// The paragraphs of content items with one more item at the end.
proof fn lemma_cell_paragraphs_push()
    ensures
        forall|a: Seq<CellContent>, l: Seq<CellContent>, x: CellContent|
            #![trigger cell_paragraphs(a + l.update(0, x))]
            l.len() == 1 ==> cell_paragraphs(a + l.update(0, x)) == match x {
                CellContent::Paragraph(p) => cell_paragraphs(a).push(p),
                _ => cell_paragraphs(a),
            },
{
    assert forall|a: Seq<CellContent>, l: Seq<CellContent>, x: CellContent|
        l.len() == 1 implies #[trigger] cell_paragraphs(a + l.update(0, x)) == match x {
            CellContent::Paragraph(p) => cell_paragraphs(a).push(p),
            _ => cell_paragraphs(a),
        } by {
        assert((a + l.update(0, x)).drop_last() =~= a);
        assert((a + l.update(0, x)).last() == x);
    }
}

/// Mutable references to the paragraphs among cell content items.
fn paragraphs_in<'a>(s: &'a mut [CellContent]) -> (r: Vec<&'a mut CT_P>)
    ensures
        r@.len() == cell_paragraphs(old(s)@).len(),
        forall|i: int| 0 <= i < r@.len() ==> *r@[i] == cell_paragraphs(old(s)@)[i],
        final(s)@.len() == old(s)@.len(),
        forall|k: int| 0 <= k < old(s)@.len() && !(old(s)@[k] is Paragraph) ==> final(s)@[k] == old(s)@[k],
        cell_paragraphs(final(s)@).len() == r@.len(),
        forall|i: int| 0 <= i < r@.len() ==> cell_paragraphs(final(s)@)[i] == *final(r@[i]),
    decreases old(s)@.len(),
{
    let n = s.len();
    if n == 0 {
        return Vec::new();
    }
    let (init, last) = s.split_at_mut(n - 1);
    proof {
        assert(init@ =~= old(s)@.drop_last());
        assert(last@.len() == 1 && last@[0] == old(s)@.last());
    }
    let mut v = paragraphs_in(init);
    proof { lemma_cell_paragraphs_push(); }
    match last.first_mut() {
        Some(c) => match c {
            CellContent::Paragraph(p) => {
                v.push(p);
            },
            _ => {},
        },
        None => {},
    }
    v
}

} // verus!
