//! Writing tables: properties, grid, rows, cells and their content, nested
//! tables included; elements kept verbatim are written back as read.

use vstd::prelude::*;

use crate::borders::{opt_edge_xml, CT_BorderEdge};
use crate::chars::{decimal, i32_string, signed_decimal, to_owned_string, u32_string};
use crate::properties::{opt_shd_xml, CT_Shd};
use crate::shared::jc_name;
use crate::table::{
    vjc_name, CT_Row, CT_Tbl, CT_TblBorders, CT_TblCellMar, CT_TblGrid, CT_TblGridCol, CT_TblPr, CT_TblWidth,
    CT_Tc, CT_TcPr, CT_TrPr, CellContent, VMerge,
};
use crate::text::text_xml::p_xml;
use crate::xml::{
    attr_views, element, emit_element, emit_empty, emit_empty_attr, emit_empty_attrs, emit_raw, empty_tag,
    empty_tag_attr, empty_tag_attrs, extra_bytes, opt_attr, opt_val_xml, push_attr, push_opt_attr, raw_concat,
    write_extra, write_opt_val, write_raws,
};

verus! {

/// The attributes of a width: its value and its type.
pub open spec fn width_attrs(w: CT_TblWidth) -> Seq<(Seq<char>, Seq<char>)> {
    seq![("w:w"@, signed_decimal(w.w as int)), ("w:type"@, w.width_type@)]
}

/// A width, if set, as an empty element named `tag`.
pub open spec fn opt_width_xml(tag: Seq<char>, w: Option<CT_TblWidth>) -> Seq<u8> {
    match w {
        Some(x) => empty_tag_attrs(tag, width_attrs(x)),
        None => Seq::empty(),
    }
}

/// Borders: each edge that is set, in the order top, left, bottom, right,
/// inside horizontal, inside vertical.
pub open spec fn tbl_borders_xml(tag: Seq<char>, b: CT_TblBorders) -> Seq<u8> {
    element(
        tag,
        opt_edge_xml("w:top"@, b.top) + opt_edge_xml("w:left"@, b.left) + opt_edge_xml("w:bottom"@, b.bottom)
            + opt_edge_xml("w:right"@, b.right) + opt_edge_xml("w:insideH"@, b.inside_h) + opt_edge_xml(
            "w:insideV"@,
            b.inside_v,
        ),
    )
}

/// Whether some edge is set.
pub open spec fn has_edge(b: CT_TblBorders) -> bool {
    b.top is Some || b.bottom is Some || b.left is Some || b.right is Some || b.inside_h is Some
        || b.inside_v is Some
}

/// Borders, if set with some edge.
pub open spec fn opt_borders_xml(tag: Seq<char>, b: Option<CT_TblBorders>) -> Seq<u8> {
    match b {
        Some(x) => if has_edge(x) { tbl_borders_xml(tag, x) } else { Seq::empty() },
        None => Seq::empty(),
    }
}

/// One cell margin edge, if set, in twips.
pub open spec fn mar_edge_xml(tag: Seq<char>, v: Option<crate::units::Twips>) -> Seq<u8> {
    match v {
        Some(t) => empty_tag_attrs(tag, seq![("w:w"@, signed_decimal(t.0 as int)), ("w:type"@, "dxa"@)]),
        None => Seq::empty(),
    }
}

/// Cell margins: top, left, bottom, right.
pub open spec fn cell_mar_xml(m: CT_TblCellMar) -> Seq<u8> {
    element(
        "w:tblCellMar"@,
        mar_edge_xml("w:top"@, m.top) + mar_edge_xml("w:left"@, m.left) + mar_edge_xml("w:bottom"@, m.bottom)
            + mar_edge_xml("w:right"@, m.right),
    )
}

/// An alignment, if set.
pub open spec fn opt_jc_xml(j: Option<crate::shared::ST_Jc>) -> Seq<u8> {
    match j {
        Some(x) => empty_tag_attr("w:jc"@, "w:val"@, jc_name(x)),
        None => Seq::empty(),
    }
}

/// A table layout, if set.
pub open spec fn opt_layout_xml(l: Option<String>) -> Seq<u8> {
    match l {
        Some(x) => empty_tag_attr("w:tblLayout"@, "w:type"@, x@),
        None => Seq::empty(),
    }
}

/// Cell margins, if set.
pub open spec fn opt_mar_xml(m: Option<CT_TblCellMar>) -> Seq<u8> {
    match m {
        Some(x) => cell_mar_xml(x),
        None => Seq::empty(),
    }
}

/// Table properties: style, width, alignment, indent, borders, shading,
/// layout, cell margins, look, then the elements kept verbatim.
pub open spec fn tbl_pr_xml(p: CT_TblPr) -> Seq<u8> {
    element(
        "w:tblPr"@,
        opt_val_xml("w:tblStyle"@, p.style_id) + opt_width_xml("w:tblW"@, p.width) + opt_jc_xml(p.jc)
            + opt_width_xml("w:tblInd"@, p.indent) + opt_borders_xml("w:tblBorders"@, p.borders) + opt_shd_xml(
            "w:shd"@,
            p.shading,
        ) + opt_layout_xml(p.layout) + opt_mar_xml(p.cell_margin) + opt_val_xml("w:tblLook"@, p.look)
            + extra_bytes(p.extra_xml),
    )
}

/// The first `n` grid columns.
pub open spec fn grid_cols_xml(cols: Seq<CT_TblGridCol>, n: nat) -> Seq<u8>
    decreases n,
{
    if n == 0 {
        Seq::empty()
    } else {
        grid_cols_xml(cols, (n - 1) as nat) + empty_tag_attr(
            "w:gridCol"@,
            "w:w"@,
            signed_decimal(cols[n - 1].width.0 as int),
        )
    }
}

/// The table grid: one column element per column.
pub open spec fn grid_xml(g: CT_TblGrid) -> Seq<u8> {
    element("w:tblGrid"@, grid_cols_xml(g.columns@, g.columns@.len()))
}

/// Whether no row property would be written.
pub open spec fn tr_pr_empty(p: CT_TrPr) -> bool {
    p.height is None && p.header is None && p.jc is None && p.cant_split is None && p.extra_xml is None
}

/// Row properties, unless empty: keep-together, height with its rule,
/// header repeat, alignment, then the elements kept verbatim.
pub open spec fn tr_pr_xml(p: CT_TrPr) -> Seq<u8> {
    if tr_pr_empty(p) {
        Seq::empty()
    } else {
        element(
            "w:trPr"@,
            (if p.cant_split == Some(true) { empty_tag("w:cantSplit"@) } else { Seq::empty() }) + (match p.height {
                Some(h) => empty_tag_attrs(
                    "w:trHeight"@,
                    seq![("w:val"@, signed_decimal(h.0 as int))] + opt_attr("w:hRule"@, p.height_rule),
                ),
                None => Seq::empty(),
            }) + (if p.header == Some(true) { empty_tag("w:tblHeader"@) } else { Seq::empty() }) + (match p.jc {
                Some(j) => empty_tag_attr("w:jc"@, "w:val"@, jc_name(j)),
                None => Seq::empty(),
            }) + extra_bytes(p.extra_xml),
        )
    }
}

/// Whether no cell property is set.
pub open spec fn tc_pr_empty(p: CT_TcPr) -> bool {
    p.width is None && p.grid_span is None && p.v_merge is None && p.borders is None && p.shading is None
        && p.v_align is None && p.no_wrap is None && p.text_direction is None && p.extra_xml is None
}

/// Cell properties, unless empty: width, span (above one column), vertical
/// merge, borders, shading, no-wrap, vertical alignment, text direction,
/// then the elements kept verbatim.
pub open spec fn tc_pr_xml(p: CT_TcPr) -> Seq<u8> {
    if tc_pr_empty(p) {
        Seq::empty()
    } else {
        element(
            "w:tcPr"@,
            opt_width_xml("w:tcW"@, p.width) + (match p.grid_span {
                Some(n) => if n > 1 { empty_tag_attr("w:gridSpan"@, "w:val"@, decimal(n as nat)) } else { Seq::empty() },
                None => Seq::empty(),
            }) + (match p.v_merge {
                Some(VMerge::Restart) => empty_tag_attr("w:vMerge"@, "w:val"@, "restart"@),
                Some(VMerge::Continue) => empty_tag("w:vMerge"@),
                None => Seq::empty(),
            }) + opt_borders_xml("w:tcBorders"@, p.borders) + opt_shd_xml("w:shd"@, p.shading) + (if p.no_wrap
                == Some(true) {
                empty_tag("w:noWrap"@)
            } else {
                Seq::empty()
            }) + (match p.v_align {
                Some(v) => empty_tag_attr("w:vAlign"@, "w:val"@, vjc_name(v)),
                None => Seq::empty(),
            }) + opt_val_xml("w:textDirection"@, p.text_direction) + extra_bytes(p.extra_xml),
        )
    }
}

/// Optional properties.
pub open spec fn opt_tbl_pr_xml(p: Option<CT_TblPr>) -> Seq<u8> {
    match p {
        Some(x) => tbl_pr_xml(x),
        None => Seq::empty(),
    }
}

/// Optional grid.
pub open spec fn opt_grid_xml(g: Option<CT_TblGrid>) -> Seq<u8> {
    match g {
        Some(x) => grid_xml(x),
        None => Seq::empty(),
    }
}

/// Optional row properties.
pub open spec fn opt_tr_pr_xml(p: Option<CT_TrPr>) -> Seq<u8> {
    match p {
        Some(x) => tr_pr_xml(x),
        None => Seq::empty(),
    }
}

/// Optional cell properties.
pub open spec fn opt_tc_pr_xml(p: Option<CT_TcPr>) -> Seq<u8> {
    match p {
        Some(x) => tc_pr_xml(x),
        None => Seq::empty(),
    }
}

/// One item of cell content: a paragraph, a nested table, or what was
/// kept verbatim.
pub open spec fn content_xml(c: CellContent) -> Seq<u8>
    decreases c,
{
    match c {
        CellContent::Paragraph(p) => p_xml(p),
        CellContent::Table(t) => element(
            "w:tbl"@,
            opt_tbl_pr_xml(t.properties) + opt_grid_xml(t.grid) + rows_xml(t.rows@) + raw_concat(t.extra_xml@),
        ),
        CellContent::RawXml(r) => r@,
    }
}

/// Rows in order: properties, cells, then what was kept verbatim.
pub open spec fn rows_xml(rs: Seq<CT_Row>) -> Seq<u8>
    decreases rs,
{
    if rs.len() == 0 {
        Seq::empty()
    } else {
        rows_xml(rs.drop_last()) + element(
            "w:tr"@,
            opt_tr_pr_xml(rs.last().properties) + cells_xml(rs.last().cells@) + raw_concat(rs.last().extra_xml@),
        )
    }
}

/// Cells in order: properties, then content.
pub open spec fn cells_xml(cs: Seq<CT_Tc>) -> Seq<u8>
    decreases cs,
{
    if cs.len() == 0 {
        Seq::empty()
    } else {
        cells_xml(cs.drop_last()) + element(
            "w:tc"@,
            opt_tc_pr_xml(cs.last().properties) + contents_xml(cs.last().content@),
        )
    }
}

/// Cell content items in order.
pub open spec fn contents_xml(items: Seq<CellContent>) -> Seq<u8>
    decreases items,
{
    if items.len() == 0 {
        Seq::empty()
    } else {
        contents_xml(items.drop_last()) + content_xml(items.last())
    }
}

/// A table: properties, grid, rows, then what was kept verbatim.
pub open spec fn tbl_xml(t: CT_Tbl) -> Seq<u8> {
    element(
        "w:tbl"@,
        opt_tbl_pr_xml(t.properties) + opt_grid_xml(t.grid) + rows_xml(t.rows@) + raw_concat(t.extra_xml@),
    )
}

/// A row.
pub open spec fn row_xml(r: CT_Row) -> Seq<u8> {
    element("w:tr"@, opt_tr_pr_xml(r.properties) + cells_xml(r.cells@) + raw_concat(r.extra_xml@))
}

/// A cell.
pub open spec fn tc_xml(c: CT_Tc) -> Seq<u8> {
    element("w:tc"@, opt_tc_pr_xml(c.properties) + contents_xml(c.content@))
}

impl CT_TblWidth {
    /// Append this width as an empty element named `tag`.
    pub fn write_xml(&self, out: &mut Vec<u8>, tag: &str)
        ensures
            final(out)@ == old(out)@ + empty_tag_attrs(tag@, width_attrs(*self)),
    {
        let mut a: Vec<(String, String)> = Vec::new();
        push_attr(&mut a, "w:w", i32_string(self.w));
        push_attr(&mut a, "w:type", self.width_type.clone());
        proof { assert(attr_views(a@) =~= width_attrs(*self)); }
        emit_empty_attrs(out, tag, a);
    }
}

/// Append a width if set.
fn write_opt_width(out: &mut Vec<u8>, tag: &str, w: &Option<CT_TblWidth>)
    ensures
        final(out)@ == old(out)@ + opt_width_xml(tag@, *w),
{
    match w {
        Some(x) => x.write_xml(out, tag),
        None => {
            proof { assert(out@ =~= old(out)@ + opt_width_xml(tag@, *w)); }
        },
    }
}

/// Append a border edge if set.
fn write_opt_edge(out: &mut Vec<u8>, tag: &str, e: &Option<CT_BorderEdge>)
    ensures
        final(out)@ == old(out)@ + opt_edge_xml(tag@, *e),
{
    match e {
        Some(x) => x.to_xml(out, tag),
        None => {
            proof { assert(out@ =~= old(out)@ + opt_edge_xml(tag@, *e)); }
        },
    }
}

impl CT_TblBorders {
    /// Append these borders as an element named `tag`.
    pub fn to_xml(&self, out: &mut Vec<u8>, tag: &str)
        ensures
            final(out)@ == old(out)@ + tbl_borders_xml(tag@, *self),
    {
        let mut b: Vec<u8> = Vec::new();
        write_opt_edge(&mut b, "w:top", &self.top);
        write_opt_edge(&mut b, "w:left", &self.left);
        write_opt_edge(&mut b, "w:bottom", &self.bottom);
        write_opt_edge(&mut b, "w:right", &self.right);
        write_opt_edge(&mut b, "w:insideH", &self.inside_h);
        write_opt_edge(&mut b, "w:insideV", &self.inside_v);
        proof {
            assert(b@ =~= opt_edge_xml("w:top"@, self.top) + opt_edge_xml("w:left"@, self.left) + opt_edge_xml(
                "w:bottom"@,
                self.bottom,
            ) + opt_edge_xml("w:right"@, self.right) + opt_edge_xml("w:insideH"@, self.inside_h) + opt_edge_xml(
                "w:insideV"@,
                self.inside_v,
            ));
        }
        emit_element(out, tag, &b);
    }
}

/// Append borders if set with some edge.
fn write_opt_borders(out: &mut Vec<u8>, tag: &str, b: &Option<CT_TblBorders>)
    ensures
        final(out)@ == old(out)@ + opt_borders_xml(tag@, *b),
{
    match b {
        Some(x) => {
            if !x.is_empty() {
                x.to_xml(out, tag);
            } else {
                proof { assert(out@ =~= old(out)@ + opt_borders_xml(tag@, *b)); }
            }
        },
        None => {
            proof { assert(out@ =~= old(out)@ + opt_borders_xml(tag@, *b)); }
        },
    }
}

/// Append a cell margin edge if set.
fn write_mar_edge(out: &mut Vec<u8>, tag: &str, v: Option<crate::units::Twips>)
    ensures
        final(out)@ == old(out)@ + mar_edge_xml(tag@, v),
{
    match v {
        Some(t) => {
            let mut a: Vec<(String, String)> = Vec::new();
            push_attr(&mut a, "w:w", i32_string(t.0));
            push_attr(&mut a, "w:type", to_owned_string("dxa"));
            proof { assert(attr_views(a@) =~= seq![("w:w"@, signed_decimal(t.0 as int)), ("w:type"@, "dxa"@)]); }
            emit_empty_attrs(out, tag, a);
        },
        None => {
            proof { assert(out@ =~= old(out)@ + mar_edge_xml(tag@, v)); }
        },
    }
}

impl CT_TblCellMar {
    /// Append these cell margins.
    pub fn to_xml(&self, out: &mut Vec<u8>)
        ensures
            final(out)@ == old(out)@ + cell_mar_xml(*self),
    {
        let mut b: Vec<u8> = Vec::new();
        write_mar_edge(&mut b, "w:top", self.top);
        write_mar_edge(&mut b, "w:left", self.left);
        write_mar_edge(&mut b, "w:bottom", self.bottom);
        write_mar_edge(&mut b, "w:right", self.right);
        proof {
            assert(b@ =~= mar_edge_xml("w:top"@, self.top) + mar_edge_xml("w:left"@, self.left) + mar_edge_xml(
                "w:bottom"@,
                self.bottom,
            ) + mar_edge_xml("w:right"@, self.right));
        }
        emit_element(out, "w:tblCellMar", &b);
    }
}

/// Append a shading if set.
fn write_opt_shd(out: &mut Vec<u8>, tag: &str, s: &Option<CT_Shd>)
    ensures
        final(out)@ == old(out)@ + opt_shd_xml(tag@, *s),
{
    match s {
        Some(x) => x.write_xml(out, tag),
        None => {
            proof { assert(out@ =~= old(out)@ + opt_shd_xml(tag@, *s)); }
        },
    }
}

impl CT_TblPr {
    /// Append these table properties.
    pub fn to_xml(&self, out: &mut Vec<u8>)
        ensures
            final(out)@ == old(out)@ + tbl_pr_xml(*self),
    {
        let mut b: Vec<u8> = Vec::new();
        write_opt_val(&mut b, "w:tblStyle", &self.style_id);
        write_opt_width(&mut b, "w:tblW", &self.width);
        let ghost p1 = b@;
        match self.jc {
            Some(j) => emit_empty_attr(&mut b, "w:jc", "w:val", j.to_str()),
            None => {},
        }
        let ghost p2 = b@;
        write_opt_width(&mut b, "w:tblInd", &self.indent);
        write_opt_borders(&mut b, "w:tblBorders", &self.borders);
        write_opt_shd(&mut b, "w:shd", &self.shading);
        let ghost p3 = b@;
        match &self.layout {
            Some(l) => emit_empty_attr(&mut b, "w:tblLayout", "w:type", l.as_str()),
            None => {},
        }
        let ghost p4 = b@;
        match &self.cell_margin {
            Some(m) => m.to_xml(&mut b),
            None => {},
        }
        let ghost p5 = b@;
        write_opt_val(&mut b, "w:tblLook", &self.look);
        write_extra(&mut b, &self.extra_xml);
        proof {
            let jc = opt_jc_xml(self.jc);
            let lay = opt_layout_xml(self.layout);
            let mar = opt_mar_xml(self.cell_margin);
            assert(p2 =~= p1 + jc);
            assert(p4 =~= p3 + lay);
            assert(p5 =~= p4 + mar);
            assert(b@ =~= opt_val_xml("w:tblStyle"@, self.style_id) + opt_width_xml("w:tblW"@, self.width) + jc
                + opt_width_xml("w:tblInd"@, self.indent) + opt_borders_xml("w:tblBorders"@, self.borders)
                + opt_shd_xml("w:shd"@, self.shading) + lay + mar + opt_val_xml("w:tblLook"@, self.look)
                + extra_bytes(self.extra_xml));
        }
        emit_element(out, "w:tblPr", &b);
    }
}

impl CT_TblGrid {
    /// Append this grid.
    pub fn to_xml(&self, out: &mut Vec<u8>)
        ensures
            final(out)@ == old(out)@ + grid_xml(*self),
    {
        let mut b: Vec<u8> = Vec::new();
        let mut i: usize = 0;
        while i < self.columns.len()
            invariant
                i <= self.columns@.len(),
                b@ == grid_cols_xml(self.columns@, i as nat),
            decreases self.columns@.len() - i,
        {
            let w = i32_string(self.columns[i].width.0);
            emit_empty_attr(&mut b, "w:gridCol", "w:w", w.as_str());
            i = i + 1;
        }
        emit_element(out, "w:tblGrid", &b);
    }
}

impl CT_TrPr {
    /// Append these row properties, unless empty.
    pub fn to_xml(&self, out: &mut Vec<u8>)
        ensures
            final(out)@ == old(out)@ + tr_pr_xml(*self),
    {
        if self.is_empty() {
            proof { assert(out@ =~= old(out)@ + tr_pr_xml(*self)); }
            return;
        }
        let mut b: Vec<u8> = Vec::new();
        if let Some(true) = self.cant_split {
            emit_empty(&mut b, "w:cantSplit");
        }
        let ghost p1 = b@;
        match self.height {
            Some(h) => {
                let mut a: Vec<(String, String)> = Vec::new();
                push_attr(&mut a, "w:val", i32_string(h.0));
                push_opt_attr(&mut a, "w:hRule", &self.height_rule);
                proof {
                    assert(attr_views(a@) =~= seq![("w:val"@, signed_decimal(h.0 as int))] + opt_attr(
                        "w:hRule"@,
                        self.height_rule,
                    ));
                }
                emit_empty_attrs(&mut b, "w:trHeight", a);
            },
            None => {},
        }
        let ghost p2 = b@;
        if let Some(true) = self.header {
            emit_empty(&mut b, "w:tblHeader");
        }
        let ghost p3 = b@;
        match self.jc {
            Some(j) => emit_empty_attr(&mut b, "w:jc", "w:val", j.to_str()),
            None => {},
        }
        let ghost p4 = b@;
        write_extra(&mut b, &self.extra_xml);
        proof {
            let cs = if self.cant_split == Some(true) { empty_tag("w:cantSplit"@) } else { Seq::<u8>::empty() };
            let ht = match self.height {
                Some(h) => empty_tag_attrs(
                    "w:trHeight"@,
                    seq![("w:val"@, signed_decimal(h.0 as int))] + opt_attr("w:hRule"@, self.height_rule),
                ),
                None => Seq::<u8>::empty(),
            };
            let hd = if self.header == Some(true) { empty_tag("w:tblHeader"@) } else { Seq::<u8>::empty() };
            let jc = opt_jc_xml(self.jc);
            assert(p1 =~= cs);
            assert(p2 =~= p1 + ht);
            assert(p3 =~= p2 + hd);
            assert(p4 =~= p3 + jc);
            assert(b@ =~= cs + ht + hd + jc + extra_bytes(self.extra_xml));
        }
        emit_element(out, "w:trPr", &b);
    }
}

impl CT_TcPr {
    /// Append these cell properties, unless empty.
    pub fn to_xml(&self, out: &mut Vec<u8>)
        ensures
            final(out)@ == old(out)@ + tc_pr_xml(*self),
    {
        if self.is_empty() {
            proof { assert(out@ =~= old(out)@ + tc_pr_xml(*self)); }
            return;
        }
        let mut b: Vec<u8> = Vec::new();
        write_opt_width(&mut b, "w:tcW", &self.width);
        let ghost p1 = b@;
        match self.grid_span {
            Some(n) => {
                if n > 1 {
                    let t = u32_string(n);
                    emit_empty_attr(&mut b, "w:gridSpan", "w:val", t.as_str());
                }
            },
            None => {},
        }
        let ghost p2 = b@;
        match self.v_merge {
            Some(VMerge::Restart) => emit_empty_attr(&mut b, "w:vMerge", "w:val", "restart"),
            Some(VMerge::Continue) => emit_empty(&mut b, "w:vMerge"),
            None => {},
        }
        let ghost p3 = b@;
        write_opt_borders(&mut b, "w:tcBorders", &self.borders);
        write_opt_shd(&mut b, "w:shd", &self.shading);
        let ghost p4 = b@;
        if let Some(true) = self.no_wrap {
            emit_empty(&mut b, "w:noWrap");
        }
        let ghost p5 = b@;
        match self.v_align {
            Some(v) => emit_empty_attr(&mut b, "w:vAlign", "w:val", v.to_str()),
            None => {},
        }
        let ghost p6 = b@;
        write_opt_val(&mut b, "w:textDirection", &self.text_direction);
        write_extra(&mut b, &self.extra_xml);
        proof {
            let gs = match self.grid_span {
                Some(n) => if n > 1 { empty_tag_attr("w:gridSpan"@, "w:val"@, decimal(n as nat)) } else { Seq::<u8>::empty() },
                None => Seq::<u8>::empty(),
            };
            let vm = match self.v_merge {
                Some(VMerge::Restart) => empty_tag_attr("w:vMerge"@, "w:val"@, "restart"@),
                Some(VMerge::Continue) => empty_tag("w:vMerge"@),
                None => Seq::<u8>::empty(),
            };
            let nw = if self.no_wrap == Some(true) { empty_tag("w:noWrap"@) } else { Seq::<u8>::empty() };
            let va = match self.v_align {
                Some(v) => empty_tag_attr("w:vAlign"@, "w:val"@, vjc_name(v)),
                None => Seq::<u8>::empty(),
            };
            assert(p2 =~= p1 + gs);
            assert(p3 =~= p2 + vm);
            assert(p5 =~= p4 + nw);
            assert(p6 =~= p5 + va);
            assert(b@ =~= opt_width_xml("w:tcW"@, self.width) + gs + vm + opt_borders_xml("w:tcBorders"@, self.borders)
                + opt_shd_xml("w:shd"@, self.shading) + nw + va + opt_val_xml("w:textDirection"@, self.text_direction)
                + extra_bytes(self.extra_xml));
        }
        emit_element(out, "w:tcPr", &b);
    }
}


impl CT_Tbl {
    /// Append this table.
    pub fn to_xml(&self, out: &mut Vec<u8>)
        ensures
            final(out)@ == old(out)@ + tbl_xml(*self),
        decreases self,
    {
        let mut b: Vec<u8> = Vec::new();
        match &self.properties {
            Some(p) => p.to_xml(&mut b),
            None => {},
        }
        match &self.grid {
            Some(g) => g.to_xml(&mut b),
            None => {},
        }
        proof { assert(b@ =~= opt_tbl_pr_xml(self.properties) + opt_grid_xml(self.grid)); }
        let ghost head = b@;
        let mut i: usize = 0;
        proof { assert(self.rows@.take(0) =~= Seq::<CT_Row>::empty()); }
        while i < self.rows.len()
            invariant
                i <= self.rows@.len(),
                b@ == head + rows_xml(self.rows@.take(i as int)),
            decreases self.rows@.len() - i,
        {
            proof { assert(decreases_to!(self => self.rows@[i as int])); }
            self.rows[i].to_xml(&mut b);
            proof {
                assert(self.rows@.take(i + 1).drop_last() =~= self.rows@.take(i as int));
                assert(b@ =~= head + rows_xml(self.rows@.take(i + 1)));
            }
            i = i + 1;
        }
        proof { assert(self.rows@.take(i as int) =~= self.rows@); }
        write_raws(&mut b, &self.extra_xml);
        emit_element(out, "w:tbl", &b);
    }
}

impl CT_Row {
    /// Append this row.
    pub fn to_xml(&self, out: &mut Vec<u8>)
        ensures
            final(out)@ == old(out)@ + row_xml(*self),
        decreases self,
    {
        let mut b: Vec<u8> = Vec::new();
        match &self.properties {
            Some(p) => p.to_xml(&mut b),
            None => {},
        }
        proof { assert(b@ =~= opt_tr_pr_xml(self.properties)); }
        let ghost head = b@;
        let mut i: usize = 0;
        proof { assert(self.cells@.take(0) =~= Seq::<CT_Tc>::empty()); }
        while i < self.cells.len()
            invariant
                i <= self.cells@.len(),
                b@ == head + cells_xml(self.cells@.take(i as int)),
            decreases self.cells@.len() - i,
        {
            proof { assert(decreases_to!(self => self.cells@[i as int])); }
            self.cells[i].to_xml(&mut b);
            proof {
                assert(self.cells@.take(i + 1).drop_last() =~= self.cells@.take(i as int));
                assert(b@ =~= head + cells_xml(self.cells@.take(i + 1)));
            }
            i = i + 1;
        }
        proof { assert(self.cells@.take(i as int) =~= self.cells@); }
        write_raws(&mut b, &self.extra_xml);
        emit_element(out, "w:tr", &b);
    }
}

impl CT_Tc {
    /// Append this cell.
    pub fn to_xml(&self, out: &mut Vec<u8>)
        ensures
            final(out)@ == old(out)@ + tc_xml(*self),
        decreases self,
    {
        let mut b: Vec<u8> = Vec::new();
        match &self.properties {
            Some(p) => p.to_xml(&mut b),
            None => {},
        }
        proof { assert(b@ =~= opt_tc_pr_xml(self.properties)); }
        let ghost head = b@;
        let mut i: usize = 0;
        proof { assert(self.content@.take(0) =~= Seq::<CellContent>::empty()); }
        while i < self.content.len()
            invariant
                i <= self.content@.len(),
                b@ == head + contents_xml(self.content@.take(i as int)),
            decreases self.content@.len() - i,
        {
            let ghost before = b@;
            match &self.content[i] {
                CellContent::Paragraph(p) => p.to_xml(&mut b),
                CellContent::Table(t) => {
                    proof { assert(decreases_to!(self => *t)); }
                    t.to_xml(&mut b);
                },
                CellContent::RawXml(r) => emit_raw(&mut b, r),
            }
            proof {
                assert(b@ =~= before + content_xml(self.content@[i as int]));
                assert(self.content@.take(i + 1).drop_last() =~= self.content@.take(i as int));
                assert(b@ =~= head + contents_xml(self.content@.take(i + 1)));
            }
            i = i + 1;
        }
        proof { assert(self.content@.take(i as int) =~= self.content@); }
        emit_element(out, "w:tc", &b);
    }
}

} // verus!
