//! Reading tables: properties of the table, its rows and cells, the grid,
//! borders and margins, the cells' paragraphs and nested tables; anything
//! else kept verbatim.

use vstd::prelude::*;

use crate::xml_read::XmlReader;

use crate::borders::CT_BorderEdge;
use crate::chars::{parse_i32, parse_i32_str, parse_u32, parse_u32_str, str_eq, to_owned_string};
use crate::error::OxmlError;
use crate::properties::CT_Shd;
use crate::properties_read::{
    edge_fold, edge_read, ends_at, extra_added, flat_run, last_attr_value, lemma_flat_empty, push_extra, shd_read,
    ReadOutcome, flat_cap_run, lemma_flat_cap_empty, lemma_flat_cap_start, cap_start, captured,
};
use crate::shared::{jc_parse, ST_Jc};
use crate::table::{
    vjc_parse, CT_Row, CT_Tbl, CT_TblBorders, CT_TblCellMar, CT_TblGrid, CT_TblGridCol, CT_TblPr, CT_TblWidth, CT_Tc,
    CT_TcPr, CT_TrPr, CellContent, ST_VerticalJc, VMerge,
};
use crate::text::CT_P;
use crate::text::text_read::para_read;
use crate::units::Twips;
use crate::xml_read::{
    capture_element, capture_element_within, capture_empty_element, empty_raw, event_budget, first_attr, get_attr, get_val_attr,
    last_attr, local_is, name_is, opt_view, read_event, unread_len, ReadEvent, Tag, budget_for, budget_left,
    xml_event, xml_unread,
};

verus! {

/// Which border a tag names: 0 top, 1 bottom, 2 left (or start), 3 right
/// (or end), 4 inside horizontal, 5 inside vertical, -1 none.
pub open spec fn border_slot(nm: Seq<char>) -> int {
    if local_is(nm, "top"@) {
        0
    } else if local_is(nm, "bottom"@) {
        1
    } else if local_is(nm, "left"@) || local_is(nm, "start"@) {
        2
    } else if local_is(nm, "right"@) || local_is(nm, "end"@) {
        3
    } else if local_is(nm, "insideH"@) {
        4
    } else if local_is(nm, "insideV"@) {
        5
    } else {
        -1
    }
}

/// Whether `e` is set to an edge read from `t` when `here`, else left as
/// `o`.
pub open spec fn edge_set(here: bool, o: Option<CT_BorderEdge>, n: Option<CT_BorderEdge>, t: Tag) -> bool {
    if here {
        n matches Some(e) && edge_read(e, t.attrs@)
    } else {
        n == o
    }
}

/// What reading an empty tag inside borders does: the tag is read as an
/// edge (failing where it cannot be) and set on the border it names.
pub open spec fn borders_after(o: CT_TblBorders, n: CT_TblBorders, t: Tag) -> bool {
    let k = border_slot(t.name@);
    &&& edge_set(k == 0, o.top, n.top, t)
    &&& edge_set(k == 1, o.bottom, n.bottom, t)
    &&& edge_set(k == 2, o.left, n.left, t)
    &&& edge_set(k == 3, o.right, n.right, t)
    &&& edge_set(k == 4, o.inside_h, n.inside_h, t)
    &&& edge_set(k == 5, o.inside_v, n.inside_v, t)
}

/// The border a tag names.
fn border_slot_of(nm: &str) -> (r: i32)
    ensures
        r == border_slot(nm@),
{
    if name_is(nm, "top") {
        0
    } else if name_is(nm, "bottom") {
        1
    } else if name_is(nm, "left") || name_is(nm, "start") {
        2
    } else if name_is(nm, "right") || name_is(nm, "end") {
        3
    } else if name_is(nm, "insideH") {
        4
    } else if name_is(nm, "insideV") {
        5
    } else {
        -1
    }
}

/// Read one empty tag inside table or cell borders.
pub fn read_borders_tag(b: &mut CT_TblBorders, t: &Tag) -> (r: Result<(), OxmlError>)
    ensures
        r is Ok <==> edge_fold(t.attrs@) is Some,
        r is Ok ==> borders_after(*old(b), *final(b), *t),
{
    let edge = CT_BorderEdge::from_xml_attrs(t)?;
    let k = border_slot_of(t.name.as_str());
    if k == 0 {
        b.top = Some(edge);
    } else if k == 1 {
        b.bottom = Some(edge);
    } else if k == 2 {
        b.left = Some(edge);
    } else if k == 3 {
        b.right = Some(edge);
    } else if k == 4 {
        b.inside_h = Some(edge);
    } else if k == 5 {
        b.inside_v = Some(edge);
    }
    Ok(())
}

/// A margin edge from its tag: the first attribute named `w` as a number
/// of twips (failing where it is not one), none without it.
pub open spec fn margin_edge(t: Tag) -> Option<Option<Twips>> {
    match first_attr(t.attrs@, "w"@) {
        Some(v) => match parse_i32(v) {
            Some(n) => Some(Some(Twips(n))),
            None => None,
        },
        None => Some(None),
    }
}

impl CT_TblCellMar {
    /// A margin edge from its tag.
    pub fn parse_edge(t: &Tag) -> (r: Result<Option<Twips>, OxmlError>)
        ensures
            r is Ok <==> margin_edge(*t) is Some,
            r matches Ok(v) ==> margin_edge(*t) == Some(v),
    {
        match get_attr(&t.attrs, "w") {
            Some(v) => match parse_i32_str(v.as_str()) {
                Some(n) => Ok(Some(Twips(n))),
                None => Err(OxmlError::ParseInt(v)),
            },
            None => Ok(None),
        }
    }
}

/// What reading an empty tag inside cell margins does: the edge it names
/// (top, bottom, left or start, right or end) is set as `margin_edge`
/// reads it; other tags change nothing.
pub open spec fn margins_after(o: CT_TblCellMar, n: CT_TblCellMar, t: Tag) -> bool {
    let k = border_slot(t.name@);
    &&& (k == 0 ==> margin_edge(t) == Some(n.top)) &&& (k != 0 ==> n.top == o.top)
    &&& (k == 1 ==> margin_edge(t) == Some(n.bottom)) &&& (k != 1 ==> n.bottom == o.bottom)
    &&& (k == 2 ==> margin_edge(t) == Some(n.left)) &&& (k != 2 ==> n.left == o.left)
    &&& (k == 3 ==> margin_edge(t) == Some(n.right)) &&& (k != 3 ==> n.right == o.right)
}

/// Whether reading the tag inside cell margins fails.
pub open spec fn margins_fail(t: Tag) -> bool {
    0 <= border_slot(t.name@) <= 3 && margin_edge(t) is None
}

/// Read one empty tag inside cell margins.
pub fn read_margins_tag(m: &mut CT_TblCellMar, t: &Tag) -> (r: Result<(), OxmlError>)
    ensures
        r is Err <==> margins_fail(*t),
        r is Ok ==> margins_after(*old(m), *final(m), *t),
{
    let k = border_slot_of(t.name.as_str());
    if k == 0 {
        m.top = CT_TblCellMar::parse_edge(t)?;
    } else if k == 1 {
        m.bottom = CT_TblCellMar::parse_edge(t)?;
    } else if k == 2 {
        m.left = CT_TblCellMar::parse_edge(t)?;
    } else if k == 3 {
        m.right = CT_TblCellMar::parse_edge(t)?;
    }
    Ok(())
}

/// The width value of a width tag: its last attribute named `w` as a
/// number, 0 when missing or not a number.
pub open spec fn width_value(t: Tag) -> i32 {
    match last_attr(t.attrs@, "w"@, None) {
        Some(v) => match parse_i32(v) {
            Some(n) => n,
            None => 0,
        },
        None => 0,
    }
}

/// Whether `w` is the width read from a tag: its value and its type (the
/// last `type`, `dxa` without one).
pub open spec fn width_read(w: CT_TblWidth, t: Tag) -> bool {
    &&& w.w == width_value(t)
    &&& Some(w.width_type@) == last_attr(t.attrs@, "type"@, Some("dxa"@))
}

/// A last-attribute lookup with a value to fall back on always has one.
proof fn lemma_last_attr_some(attrs: Seq<(String, String)>, local: Seq<char>, d: Seq<char>)
    ensures
        last_attr(attrs, local, Some(d)) is Some,
    decreases attrs.len(),
{
    if attrs.len() > 0 {
        lemma_last_attr_some(attrs.drop_last(), local, d);
    }
}

impl CT_TblWidth {
    /// A width from its tag's attributes.
    pub fn from_xml_attrs(t: &Tag) -> (r: Result<Self, OxmlError>)
        ensures
            r matches Ok(w) && width_read(w, *t),
    {
        let w = match last_attr_value(&t.attrs, "w", None) {
            Some(v) => match parse_i32_str(v.as_str()) {
                Some(n) => n,
                None => 0,
            },
            None => 0,
        };
        let dxa = to_owned_string("dxa");
        proof { lemma_last_attr_some(t.attrs@, "type"@, dxa@); }
        let width_type = match last_attr_value(&t.attrs, "type", Some(dxa)) {
            Some(v) => v,
            None => to_owned_string("dxa"),
        };
        Ok(CT_TblWidth { w, width_type })
    }
}

/// An alignment from a tag's `val`: unchanged without one, the alignment
/// it names, a failure for any other value.
pub open spec fn jc_of(t: Tag, d: Option<ST_Jc>) -> Option<Option<ST_Jc>> {
    match first_attr(t.attrs@, "val"@) {
        Some(v) => match jc_parse(v) {
            Some(j) => Some(Some(j)),
            None => None,
        },
        None => Some(d),
    }
}

/// An alignment from a tag's `val`.
fn read_jc(t: &Tag, d: Option<ST_Jc>) -> (r: Result<Option<ST_Jc>, OxmlError>)
    ensures
        r is Ok <==> jc_of(*t, d) is Some,
        r matches Ok(v) ==> jc_of(*t, d) == Some(v),
{
    match get_val_attr(t) {
        Some(v) => Ok(Some(ST_Jc::from_str(v.as_str())?)),
        None => Ok(d),
    }
}

/// A text value from a tag's `val`, unchanged without one.
pub open spec fn val_or(t: Tag, d: Option<String>) -> Option<Seq<char>> {
    match first_attr(t.attrs@, "val"@) {
        Some(v) => Some(v),
        None => opt_view(d),
    }
}

/// A text value from a tag's `val`, unchanged without one.
fn read_val_or(t: &Tag, d: &Option<String>) -> (r: Option<String>)
    ensures
        opt_view(r) == val_or(*t, *d),
{
    match get_val_attr(t) {
        Some(v) => Some(v),
        None => d.clone(),
    }
}

/// What reading an empty tag inside table properties does: style (the
/// `val`, none without it), width, alignment, layout, indent, shading and
/// look; any other tag is kept verbatim.
pub open spec fn tbl_pr_after(o: CT_TblPr, n: CT_TblPr, t: Tag) -> bool {
    let nm = t.name@;
    if local_is(nm, "tblStyle"@) {
        opt_view(n.style_id) == first_attr(t.attrs@, "val"@) && n == (CT_TblPr { style_id: n.style_id, ..o })
    } else if local_is(nm, "tblW"@) {
        n.width matches Some(w) && width_read(w, t) && n == (CT_TblPr { width: n.width, ..o })
    } else if local_is(nm, "jc"@) {
        jc_of(t, o.jc) == Some(n.jc) && n == (CT_TblPr { jc: n.jc, ..o })
    } else if local_is(nm, "tblLayout"@) {
        opt_view(n.layout) == val_or(t, o.layout) && n == (CT_TblPr { layout: n.layout, ..o })
    } else if local_is(nm, "tblInd"@) {
        n.indent matches Some(w) && width_read(w, t) && n == (CT_TblPr { indent: n.indent, ..o })
    } else if local_is(nm, "shd"@) {
        n.shading matches Some(s) && shd_read(s, t.attrs@) && n == (CT_TblPr { shading: n.shading, ..o })
    } else if local_is(nm, "tblLook"@) {
        opt_view(n.look) == val_or(t, o.look) && n == (CT_TblPr { look: n.look, ..o })
    } else {
        extra_added(o.extra_xml, n.extra_xml, empty_raw(t)) && n == (CT_TblPr { extra_xml: n.extra_xml, ..o })
    }
}

/// Read one empty tag inside table properties; only an alignment that is
/// not one can fail.
pub fn read_tbl_pr_empty(p: &mut CT_TblPr, t: &Tag) -> (r: Result<(), OxmlError>)
    ensures
        r is Err <==> local_is(t.name@, "jc"@) && !local_is(t.name@, "tblStyle"@) && !local_is(t.name@, "tblW"@)
            && jc_of(*t, old(p).jc) is None,
        r is Ok ==> tbl_pr_after(*old(p), *final(p), *t),
{
    let nm = t.name.as_str();
    if name_is(nm, "tblStyle") {
        p.style_id = get_val_attr(t);
    } else if name_is(nm, "tblW") {
        p.width = Some(CT_TblWidth::from_xml_attrs(t)?);
    } else if name_is(nm, "jc") {
        let j = read_jc(t, p.jc)?;
        p.jc = j;
    } else if name_is(nm, "tblLayout") {
        let v = read_val_or(t, &p.layout);
        p.layout = v;
    } else if name_is(nm, "tblInd") {
        p.indent = Some(CT_TblWidth::from_xml_attrs(t)?);
    } else if name_is(nm, "shd") {
        p.shading = Some(CT_Shd::from_xml_attrs(t)?);
    } else if name_is(nm, "tblLook") {
        let v = read_val_or(t, &p.look);
        p.look = v;
    } else {
        push_extra(&mut p.extra_xml, capture_empty_element(t));
    }
    Ok(())
}

/// The row height after reading the attributes of `trHeight` from the
/// left: each `val` sets the height (failing on a bad number), each
/// `hRule` the rule.
pub open spec fn height_fold(attrs: Seq<(String, String)>, h: Option<Twips>, rule: Option<Seq<char>>) -> Option<
    (Option<Twips>, Option<Seq<char>>),
>
    decreases attrs.len(),
{
    if attrs.len() == 0 {
        Some((h, rule))
    } else if local_is(attrs[0].0@, "val"@) {
        match parse_i32(attrs[0].1@) {
            Some(n) => height_fold(attrs.drop_first(), Some(Twips(n)), rule),
            None => None,
        }
    } else if local_is(attrs[0].0@, "hRule"@) {
        height_fold(attrs.drop_first(), h, Some(attrs[0].1@))
    } else {
        height_fold(attrs.drop_first(), h, rule)
    }
}

/// Read the attributes of `trHeight`.
fn read_height(attrs: &Vec<(String, String)>, h: Option<Twips>, rule: &Option<String>) -> (r: Option<
    (Option<Twips>, Option<String>),
>)
    ensures
        match r {
            Some((a, b)) => height_fold(attrs@, h, opt_view(*rule)) == Some((a, opt_view(b))),
            None => height_fold(attrs@, h, opt_view(*rule)) is None,
        },
{
    let mut hh = h;
    let mut rr = rule.clone();
    let mut i: usize = 0;
    proof { assert(attrs@.skip(0) =~= attrs@); }
    while i < attrs.len()
        invariant
            i <= attrs@.len(),
            height_fold(attrs@.skip(i as int), hh, opt_view(rr)) == height_fold(attrs@, h, opt_view(*rule)),
        decreases attrs@.len() - i,
    {
        proof { assert(attrs@.skip(i as int).drop_first() =~= attrs@.skip(i + 1)); }
        let k = attrs[i].0.as_str();
        if name_is(k, "val") {
            match parse_i32_str(attrs[i].1.as_str()) {
                Some(n) => hh = Some(Twips(n)),
                None => return None,
            }
        } else if name_is(k, "hRule") {
            rr = Some(attrs[i].1.clone());
        }
        i = i + 1;
    }
    proof { assert(attrs@.skip(i as int) =~= Seq::<(String, String)>::empty()); }
    Some((hh, rr))
}

/// What reading an empty tag inside row properties does: height and rule,
/// header repeat, alignment, keep-together; any other tag is kept
/// verbatim.
pub open spec fn tr_pr_after(o: CT_TrPr, n: CT_TrPr, t: Tag) -> bool {
    let nm = t.name@;
    if local_is(nm, "trHeight"@) {
        height_fold(t.attrs@, o.height, opt_view(o.height_rule)) == Some((n.height, opt_view(n.height_rule)))
            && n == (CT_TrPr { height: n.height, height_rule: n.height_rule, ..o })
    } else if local_is(nm, "tblHeader"@) {
        n == (CT_TrPr { header: Some(true), ..o })
    } else if local_is(nm, "jc"@) {
        jc_of(t, o.jc) == Some(n.jc) && n == (CT_TrPr { jc: n.jc, ..o })
    } else if local_is(nm, "cantSplit"@) {
        n == (CT_TrPr { cant_split: Some(true), ..o })
    } else {
        extra_added(o.extra_xml, n.extra_xml, empty_raw(t)) && n == (CT_TrPr { extra_xml: n.extra_xml, ..o })
    }
}

/// Whether reading an empty tag inside row properties fails: a bad height
/// or alignment.
pub open spec fn tr_pr_fails(o: CT_TrPr, t: Tag) -> bool {
    let nm = t.name@;
    if local_is(nm, "trHeight"@) {
        height_fold(t.attrs@, o.height, opt_view(o.height_rule)) is None
    } else if local_is(nm, "tblHeader"@) {
        false
    } else if local_is(nm, "jc"@) {
        jc_of(t, o.jc) is None
    } else {
        false
    }
}

/// Read one empty tag inside row properties.
pub fn read_tr_pr_empty(p: &mut CT_TrPr, t: &Tag) -> (r: Result<(), OxmlError>)
    ensures
        r is Err <==> tr_pr_fails(*old(p), *t),
        r is Ok ==> tr_pr_after(*old(p), *final(p), *t),
{
    let nm = t.name.as_str();
    if name_is(nm, "trHeight") {
        match read_height(&t.attrs, p.height, &p.height_rule) {
            Some((h, rule)) => {
                p.height = h;
                p.height_rule = rule;
            },
            None => {
                return Err(OxmlError::ParseInt(to_owned_string("trHeight")));
            },
        }
    } else if name_is(nm, "tblHeader") {
        p.header = Some(true);
    } else if name_is(nm, "jc") {
        let j = read_jc(t, p.jc)?;
        p.jc = j;
    } else if name_is(nm, "cantSplit") {
        p.cant_split = Some(true);
    } else {
        push_extra(&mut p.extra_xml, capture_empty_element(t));
    }
    Ok(())
}

/// A column span from a tag's `val`: unchanged without one, failing where
/// it is not a number.
pub open spec fn span_of(t: Tag, d: Option<u32>) -> Option<Option<u32>> {
    match first_attr(t.attrs@, "val"@) {
        Some(v) => match parse_u32(v) {
            Some(n) => Some(Some(n)),
            None => None,
        },
        None => Some(d),
    }
}

/// The vertical merge a tag asks for: a restart for `val="restart"`, a
/// continuation otherwise.
pub open spec fn merge_of(t: Tag) -> VMerge {
    if first_attr(t.attrs@, "val"@) == Some("restart"@) {
        VMerge::Restart
    } else {
        VMerge::Continue
    }
}

/// What reading an empty tag inside cell properties does: width, span,
/// vertical merge, vertical alignment, shading, no-wrap, text direction;
/// any other tag is kept verbatim.
pub open spec fn tc_pr_after(o: CT_TcPr, n: CT_TcPr, t: Tag) -> bool {
    let nm = t.name@;
    if local_is(nm, "tcW"@) {
        n.width matches Some(w) && width_read(w, t) && n == (CT_TcPr { width: n.width, ..o })
    } else if local_is(nm, "gridSpan"@) {
        span_of(t, o.grid_span) == Some(n.grid_span) && n == (CT_TcPr { grid_span: n.grid_span, ..o })
    } else if local_is(nm, "vMerge"@) {
        n == (CT_TcPr { v_merge: Some(merge_of(t)), ..o })
    } else if local_is(nm, "vAlign"@) {
        n == (CT_TcPr {
            v_align: match first_attr(t.attrs@, "val"@) {
                Some(v) => Some(vjc_parse(v)),
                None => o.v_align,
            },
            ..o
        })
    } else if local_is(nm, "shd"@) {
        n.shading matches Some(s) && shd_read(s, t.attrs@) && n == (CT_TcPr { shading: n.shading, ..o })
    } else if local_is(nm, "noWrap"@) {
        n == (CT_TcPr { no_wrap: Some(true), ..o })
    } else if local_is(nm, "textDirection"@) {
        opt_view(n.text_direction) == val_or(t, o.text_direction) && n == (CT_TcPr {
            text_direction: n.text_direction,
            ..o
        })
    } else {
        extra_added(o.extra_xml, n.extra_xml, empty_raw(t)) && n == (CT_TcPr { extra_xml: n.extra_xml, ..o })
    }
}

/// Read one empty tag inside cell properties; only a span that is not a
/// number can fail.
pub fn read_tc_pr_empty(p: &mut CT_TcPr, t: &Tag) -> (r: Result<(), OxmlError>)
    ensures
        r is Err <==> !local_is(t.name@, "tcW"@) && local_is(t.name@, "gridSpan"@) && span_of(*t, old(p).grid_span)
            is None,
        r is Ok ==> tc_pr_after(*old(p), *final(p), *t),
{
    let nm = t.name.as_str();
    if name_is(nm, "tcW") {
        p.width = Some(CT_TblWidth::from_xml_attrs(t)?);
    } else if name_is(nm, "gridSpan") {
        match get_val_attr(t) {
            Some(v) => match parse_u32_str(v.as_str()) {
                Some(n) => p.grid_span = Some(n),
                None => {
                    return Err(OxmlError::ParseInt(v));
                },
            },
            None => {},
        }
    } else if name_is(nm, "vMerge") {
        let restart = match get_val_attr(t) {
            Some(v) => str_eq(v.as_str(), "restart"),
            None => false,
        };
        p.v_merge = Some(if restart { VMerge::Restart } else { VMerge::Continue });
    } else if name_is(nm, "vAlign") {
        match get_val_attr(t) {
            Some(v) => p.v_align = Some(ST_VerticalJc::from_str(v.as_str())),
            None => {},
        }
    } else if name_is(nm, "shd") {
        p.shading = Some(CT_Shd::from_xml_attrs(t)?);
    } else if name_is(nm, "noWrap") {
        p.no_wrap = Some(true);
    } else if name_is(nm, "textDirection") {
        let v = read_val_or(t, &p.text_direction);
        p.text_direction = v;
    } else {
        push_extra(&mut p.extra_xml, capture_empty_element(t));
    }
    Ok(())
}

/// The width of a grid column after reading its attributes from the left:
/// each `w` sets it (failing on a bad number).
pub open spec fn grid_col_fold(attrs: Seq<(String, String)>, w: i32) -> Option<i32>
    decreases attrs.len(),
{
    if attrs.len() == 0 {
        Some(w)
    } else if local_is(attrs[0].0@, "w"@) {
        match parse_i32(attrs[0].1@) {
            Some(n) => grid_col_fold(attrs.drop_first(), n),
            None => None,
        }
    } else {
        grid_col_fold(attrs.drop_first(), w)
    }
}

/// A grid column from its tag.
pub fn read_grid_col(t: &Tag) -> (r: Result<CT_TblGridCol, OxmlError>)
    ensures
        r is Ok <==> grid_col_fold(t.attrs@, 0) is Some,
        r matches Ok(c) ==> grid_col_fold(t.attrs@, 0) == Some(c.width.0),
{
    let a = &t.attrs;
    let mut w: i32 = 0;
    let mut i: usize = 0;
    proof { assert(a@.skip(0) =~= a@); }
    while i < a.len()
        invariant
            i <= a@.len(),
            a@ == t.attrs@,
            grid_col_fold(a@.skip(i as int), w) == grid_col_fold(a@, 0),
        decreases a@.len() - i,
    {
        proof { assert(a@.skip(i as int).drop_first() =~= a@.skip(i + 1)); }
        if name_is(a[i].0.as_str(), "w") {
            match parse_i32_str(a[i].1.as_str()) {
                Some(n) => w = n,
                None => {
                    proof { assert(a@.skip(i as int)[0] == a@[i as int]); }
                    return Err(OxmlError::ParseInt(a[i].1.clone()));
                },
            }
        }
        i = i + 1;
    }
    proof { assert(a@.skip(i as int) =~= Seq::<(String, String)>::empty()); }
    Ok(CT_TblGridCol { width: Twips(w) })
}

/// Where reading table or cell borders fails: an edge whose attributes do
/// not read.
pub open spec fn tbl_borders_fails() -> spec_fn(CT_TblBorders, Tag) -> bool {
    |o: CT_TblBorders, t: Tag| edge_fold(t.attrs@) is None
}

/// What an empty element does to table or cell borders.
pub open spec fn tbl_borders_step() -> spec_fn(CT_TblBorders, CT_TblBorders, Tag) -> bool {
    |o: CT_TblBorders, m: CT_TblBorders, t: Tag| borders_after(o, m, t)
}

/// The end tags that close table or cell borders.
pub open spec fn borders_end() -> spec_fn(Seq<char>) -> bool {
    |m: Seq<char>| local_is(m, "tblBorders"@) || local_is(m, "tcBorders"@)
}

/// Reading table or cell borders from call `n` on ends in `res`.
pub open spec fn tbl_borders_run(x: Seq<u8>, tr: bool, n: nat, f: nat, res: ReadOutcome<CT_TblBorders>) -> bool {
    flat_run(
        x,
        tr,
        n,
        borders_end(),
        tbl_borders_fails(),
        tbl_borders_step(),
        CT_TblBorders { top: None, bottom: None, left: None, right: None, inside_h: None, inside_v: None },
        f,
        res,
    )
}

impl CT_TblBorders {
    /// Read borders from the events after `<w:tblBorders>` or
    /// `<w:tcBorders>` up to its end (or the end of input), each empty tag
    /// as `read_borders_tag` says.
    pub fn from_xml(reader: &mut XmlReader) -> (r: Result<Self, OxmlError>)
        ensures
            final(reader).same_input(old(reader)),
            exists|f: nat|
                #[trigger] tbl_borders_run(
                    old(reader).input(),
                    old(reader).trims(),
                    old(reader).count(),
                    budget_left(old(reader)),
                    (r, final(reader).count(), f),
                ),
    {
        let ghost x = reader.input();
        let ghost tr = reader.trims();
        let ghost n0 = reader.count();
        let mut b = CT_TblBorders { top: None, bottom: None, left: None, right: None, inside_h: None, inside_v: None };
        let budget = event_budget(unread_len(reader));
        let mut fuel = budget;
        while fuel > 0
            invariant
                fuel <= budget,
                budget as nat == budget_for(xml_unread(x, tr, n0)),
                reader.input() == x,
                reader.trims() == tr,
                x == old(reader).input(),
                tr == old(reader).trims(),
                n0 == old(reader).count(),
                forall|res: ReadOutcome<CT_TblBorders>|
                    #[trigger] flat_run(x, tr, reader.count(), borders_end(), tbl_borders_fails(), tbl_borders_step(), b, fuel as nat, res)
                        ==> tbl_borders_run(x, tr, n0, budget as nat, res),
            decreases fuel,
        {
            let ghost n = reader.count();
            let ghost o = b;
            let ghost f1 = fuel as nat;
            fuel = fuel - 1;
            match read_event(reader) {
                Ok(ReadEvent::Empty(t)) => {
                    if let Err(e) = read_borders_tag(&mut b, &t) {
                        proof {
                            let res = (Err::<CT_TblBorders, OxmlError>(e), reader.count(), fuel as nat);
                            assert(flat_run(x, tr, n, borders_end(), tbl_borders_fails(), tbl_borders_step(), o, f1, res));
                            assert(tbl_borders_run(x, tr, n0, budget as nat, res));
                            assert(tbl_borders_run(old(reader).input(), old(reader).trims(), old(reader).count(), budget_left(old(reader)), res));
                        }
                        return Err(e);
                    }
                    proof {
                        assert(tbl_borders_step()(o, b, t));
                        assert forall|res: ReadOutcome<CT_TblBorders>|
                            #[trigger] flat_run(x, tr, reader.count(), borders_end(), tbl_borders_fails(), tbl_borders_step(), b, fuel as nat, res)
                            implies flat_run(x, tr, n, borders_end(), tbl_borders_fails(), tbl_borders_step(), o, f1, res) by {
                            lemma_flat_empty(x, tr, n, borders_end(), tbl_borders_fails(), tbl_borders_step(), o, b, f1, t, res);
                        }
                    }
                },
                Ok(ReadEvent::End(nm)) => {
                    if name_is(nm.as_str(), "tblBorders") || name_is(nm.as_str(), "tcBorders") {
                        proof {
                            assert(flat_run(x, tr, n, borders_end(), tbl_borders_fails(), tbl_borders_step(), o, f1, (Ok::<CT_TblBorders, OxmlError>(b), reader.count(), fuel as nat)));
                            assert(tbl_borders_run(x, tr, n0, budget as nat, (Ok::<CT_TblBorders, OxmlError>(b), reader.count(), fuel as nat)));
                            assert(tbl_borders_run(old(reader).input(), old(reader).trims(), old(reader).count(), budget_left(old(reader)), (Ok::<CT_TblBorders, OxmlError>(b), reader.count(), fuel as nat)));
                        }
                        return Ok(b);
                    }
                    proof {
                        assert forall|res: ReadOutcome<CT_TblBorders>|
                            #[trigger] flat_run(x, tr, reader.count(), borders_end(), tbl_borders_fails(), tbl_borders_step(), b, fuel as nat, res)
                            implies flat_run(x, tr, n, borders_end(), tbl_borders_fails(), tbl_borders_step(), o, f1, res) by {}
                    }
                },
                Ok(ReadEvent::Eof) => {
                    proof {
                        assert(flat_run(x, tr, n, borders_end(), tbl_borders_fails(), tbl_borders_step(), o, f1, (Ok::<CT_TblBorders, OxmlError>(b), reader.count(), fuel as nat)));
                        assert(tbl_borders_run(x, tr, n0, budget as nat, (Ok::<CT_TblBorders, OxmlError>(b), reader.count(), fuel as nat)));
                            assert(tbl_borders_run(old(reader).input(), old(reader).trims(), old(reader).count(), budget_left(old(reader)), (Ok::<CT_TblBorders, OxmlError>(b), reader.count(), fuel as nat)));
                    }
                    return Ok(b);
                },
                Ok(_) => {
                    proof {
                        assert forall|res: ReadOutcome<CT_TblBorders>|
                            #[trigger] flat_run(x, tr, reader.count(), borders_end(), tbl_borders_fails(), tbl_borders_step(), b, fuel as nat, res)
                            implies flat_run(x, tr, n, borders_end(), tbl_borders_fails(), tbl_borders_step(), o, f1, res) by {}
                    }
                },
                Err(e) => {
                    proof {
                        let res = (Err::<CT_TblBorders, OxmlError>(e), reader.count(), fuel as nat);
                        assert(flat_run(x, tr, n, borders_end(), tbl_borders_fails(), tbl_borders_step(), o, f1, res));
                        assert(tbl_borders_run(x, tr, n0, budget as nat, res));
                            assert(tbl_borders_run(old(reader).input(), old(reader).trims(), old(reader).count(), budget_left(old(reader)), res));
                    }
                    return Err(e);
                },
            }
        }
        proof {
            assert(flat_run(x, tr, reader.count(), borders_end(), tbl_borders_fails(), tbl_borders_step(), b, 0nat, (Ok::<CT_TblBorders, OxmlError>(b), reader.count(), 0nat)));
            assert(tbl_borders_run(x, tr, n0, budget as nat, (Ok::<CT_TblBorders, OxmlError>(b), reader.count(), 0nat)));
                            assert(tbl_borders_run(old(reader).input(), old(reader).trims(), old(reader).count(), budget_left(old(reader)), (Ok::<CT_TblBorders, OxmlError>(b), reader.count(), 0nat)));
        }
        Ok(b)
    }
}

/// Where reading cell margins fails.
pub open spec fn cell_mar_fails() -> spec_fn(CT_TblCellMar, Tag) -> bool {
    |o: CT_TblCellMar, t: Tag| margins_fail(t)
}

/// What an empty element does to cell margins.
pub open spec fn cell_mar_step() -> spec_fn(CT_TblCellMar, CT_TblCellMar, Tag) -> bool {
    |o: CT_TblCellMar, m: CT_TblCellMar, t: Tag| margins_after(o, m, t)
}

/// Reading cell margins from call `n` on ends in `res`.
pub open spec fn cell_mar_run(x: Seq<u8>, tr: bool, n: nat, f: nat, res: ReadOutcome<CT_TblCellMar>) -> bool {
    flat_run(
        x,
        tr,
        n,
        ends_at("tblCellMar"@),
        cell_mar_fails(),
        cell_mar_step(),
        CT_TblCellMar { top: None, bottom: None, left: None, right: None },
        f,
        res,
    )
}

impl CT_TblCellMar {
    /// Read cell margins from the events after `<w:tblCellMar>` up to its
    /// end (or the end of input), each empty tag as `read_margins_tag` says.
    pub fn from_xml(reader: &mut XmlReader) -> (r: Result<Self, OxmlError>)
        ensures
            final(reader).same_input(old(reader)),
            exists|f: nat|
                #[trigger] cell_mar_run(
                    old(reader).input(),
                    old(reader).trims(),
                    old(reader).count(),
                    budget_left(old(reader)),
                    (r, final(reader).count(), f),
                ),
    {
        let ghost x = reader.input();
        let ghost tr = reader.trims();
        let ghost n0 = reader.count();
        let mut m = CT_TblCellMar { top: None, bottom: None, left: None, right: None };
        let budget = event_budget(unread_len(reader));
        let mut fuel = budget;
        while fuel > 0
            invariant
                fuel <= budget,
                budget as nat == budget_for(xml_unread(x, tr, n0)),
                reader.input() == x,
                reader.trims() == tr,
                x == old(reader).input(),
                tr == old(reader).trims(),
                n0 == old(reader).count(),
                forall|res: ReadOutcome<CT_TblCellMar>|
                    #[trigger] flat_run(x, tr, reader.count(), ends_at("tblCellMar"@), cell_mar_fails(), cell_mar_step(), m, fuel as nat, res)
                        ==> cell_mar_run(x, tr, n0, budget as nat, res),
            decreases fuel,
        {
            let ghost n = reader.count();
            let ghost o = m;
            let ghost f1 = fuel as nat;
            fuel = fuel - 1;
            match read_event(reader) {
                Ok(ReadEvent::Empty(t)) => {
                    if let Err(e) = read_margins_tag(&mut m, &t) {
                        proof {
                            let res = (Err::<CT_TblCellMar, OxmlError>(e), reader.count(), fuel as nat);
                            assert(flat_run(x, tr, n, ends_at("tblCellMar"@), cell_mar_fails(), cell_mar_step(), o, f1, res));
                            assert(cell_mar_run(x, tr, n0, budget as nat, res));
                            assert(cell_mar_run(old(reader).input(), old(reader).trims(), old(reader).count(), budget_left(old(reader)), res));
                        }
                        return Err(e);
                    }
                    proof {
                        assert(cell_mar_step()(o, m, t));
                        assert forall|res: ReadOutcome<CT_TblCellMar>|
                            #[trigger] flat_run(x, tr, reader.count(), ends_at("tblCellMar"@), cell_mar_fails(), cell_mar_step(), m, fuel as nat, res)
                            implies flat_run(x, tr, n, ends_at("tblCellMar"@), cell_mar_fails(), cell_mar_step(), o, f1, res) by {
                            lemma_flat_empty(x, tr, n, ends_at("tblCellMar"@), cell_mar_fails(), cell_mar_step(), o, m, f1, t, res);
                        }
                    }
                },
                Ok(ReadEvent::End(nm)) => {
                    if name_is(nm.as_str(), "tblCellMar") {
                        proof {
                            assert(flat_run(x, tr, n, ends_at("tblCellMar"@), cell_mar_fails(), cell_mar_step(), o, f1, (Ok::<CT_TblCellMar, OxmlError>(m), reader.count(), fuel as nat)));
                            assert(cell_mar_run(x, tr, n0, budget as nat, (Ok::<CT_TblCellMar, OxmlError>(m), reader.count(), fuel as nat)));
                            assert(cell_mar_run(old(reader).input(), old(reader).trims(), old(reader).count(), budget_left(old(reader)), (Ok::<CT_TblCellMar, OxmlError>(m), reader.count(), fuel as nat)));
                        }
                        return Ok(m);
                    }
                    proof {
                        assert forall|res: ReadOutcome<CT_TblCellMar>|
                            #[trigger] flat_run(x, tr, reader.count(), ends_at("tblCellMar"@), cell_mar_fails(), cell_mar_step(), m, fuel as nat, res)
                            implies flat_run(x, tr, n, ends_at("tblCellMar"@), cell_mar_fails(), cell_mar_step(), o, f1, res) by {}
                    }
                },
                Ok(ReadEvent::Eof) => {
                    proof {
                        assert(flat_run(x, tr, n, ends_at("tblCellMar"@), cell_mar_fails(), cell_mar_step(), o, f1, (Ok::<CT_TblCellMar, OxmlError>(m), reader.count(), fuel as nat)));
                        assert(cell_mar_run(x, tr, n0, budget as nat, (Ok::<CT_TblCellMar, OxmlError>(m), reader.count(), fuel as nat)));
                            assert(cell_mar_run(old(reader).input(), old(reader).trims(), old(reader).count(), budget_left(old(reader)), (Ok::<CT_TblCellMar, OxmlError>(m), reader.count(), fuel as nat)));
                    }
                    return Ok(m);
                },
                Ok(_) => {
                    proof {
                        assert forall|res: ReadOutcome<CT_TblCellMar>|
                            #[trigger] flat_run(x, tr, reader.count(), ends_at("tblCellMar"@), cell_mar_fails(), cell_mar_step(), m, fuel as nat, res)
                            implies flat_run(x, tr, n, ends_at("tblCellMar"@), cell_mar_fails(), cell_mar_step(), o, f1, res) by {}
                    }
                },
                Err(e) => {
                    proof {
                        let res = (Err::<CT_TblCellMar, OxmlError>(e), reader.count(), fuel as nat);
                        assert(flat_run(x, tr, n, ends_at("tblCellMar"@), cell_mar_fails(), cell_mar_step(), o, f1, res));
                        assert(cell_mar_run(x, tr, n0, budget as nat, res));
                            assert(cell_mar_run(old(reader).input(), old(reader).trims(), old(reader).count(), budget_left(old(reader)), res));
                    }
                    return Err(e);
                },
            }
        }
        proof {
            assert(flat_run(x, tr, reader.count(), ends_at("tblCellMar"@), cell_mar_fails(), cell_mar_step(), m, 0nat, (Ok::<CT_TblCellMar, OxmlError>(m), reader.count(), 0nat)));
            assert(cell_mar_run(x, tr, n0, budget as nat, (Ok::<CT_TblCellMar, OxmlError>(m), reader.count(), 0nat)));
                            assert(cell_mar_run(old(reader).input(), old(reader).trims(), old(reader).count(), budget_left(old(reader)), (Ok::<CT_TblCellMar, OxmlError>(m), reader.count(), 0nat)));
        }
        Ok(m)
    }
}

/// Where reading table properties fails.
pub open spec fn tbl_pr_fails() -> spec_fn(CT_TblPr, Tag) -> bool {
    |o: CT_TblPr, t: Tag|
        local_is(t.name@, "jc"@) && !local_is(t.name@, "tblStyle"@) && !local_is(t.name@, "tblW"@) && jc_of(t, o.jc) is None
}

/// What an empty element does to table properties.
pub open spec fn tbl_pr_step() -> spec_fn(CT_TblPr, CT_TblPr, Tag) -> bool {
    |o: CT_TblPr, m: CT_TblPr, t: Tag| tbl_pr_after(o, m, t)
}

/// Table properties with one more element kept verbatim.
pub open spec fn tbl_pr_keep() -> spec_fn(CT_TblPr, CT_TblPr, Seq<u8>) -> bool {
    |o: CT_TblPr, m: CT_TblPr, b: Seq<u8>| m == (CT_TblPr { extra_xml: m.extra_xml, ..o }) && extra_added(o.extra_xml, m.extra_xml, b)
}

/// What a child element of `tblPr` does: borders and cell margins are read
/// by their own readers; any other element is kept verbatim.
pub open spec fn tbl_pr_start(x: Seq<u8>, tr: bool) -> spec_fn(CT_TblPr, Tag, nat, Result<CT_TblPr, OxmlError>, nat) -> bool {
    |o: CT_TblPr, t: Tag, p: nat, m: Result<CT_TblPr, OxmlError>, q: nat|
        if local_is(t.name@, "tblBorders"@) {
            exists|rb: Result<CT_TblBorders, OxmlError>, f: nat|
                #[trigger] tbl_borders_run(x, tr, p, budget_for(xml_unread(x, tr, p)), (rb, q, f)) && match rb {
                    Ok(b) => m == Ok::<CT_TblPr, OxmlError>(CT_TblPr { borders: Some(b), ..o }),
                    Err(e) => m == Err::<CT_TblPr, OxmlError>(e),
                }
        } else if local_is(t.name@, "tblCellMar"@) {
            exists|rb: Result<CT_TblCellMar, OxmlError>, f: nat|
                #[trigger] cell_mar_run(x, tr, p, budget_for(xml_unread(x, tr, p)), (rb, q, f)) && match rb {
                    Ok(b) => m == Ok::<CT_TblPr, OxmlError>(CT_TblPr { cell_margin: Some(b), ..o }),
                    Err(e) => m == Err::<CT_TblPr, OxmlError>(e),
                }
        } else {
            cap_start(x, tr, tbl_pr_keep())(o, t, p, m, q)
        }
}

/// Reading table properties from call `n` on ends in `res`.
pub open spec fn tbl_pr_run(x: Seq<u8>, tr: bool, n: nat, f: nat, res: ReadOutcome<CT_TblPr>) -> bool {
    flat_cap_run(
        x,
        tr,
        n,
        ends_at("tblPr"@),
        tbl_pr_fails(),
        tbl_pr_step(),
        tbl_pr_start(x, tr),
        CT_TblPr {
            style_id: None,
            width: None,
            jc: None,
            borders: None,
            cell_margin: None,
            layout: None,
            indent: None,
            shading: None,
            look: None,
            extra_xml: None,
        },
        f,
        res,
    )
}

impl CT_TblPr {
    /// Read table properties from the events after `<w:tblPr>` up to its
    /// end (or the end of input): each empty tag as `read_tbl_pr_empty`
    /// says, borders and cell margins by their own readers, any other
    /// element kept verbatim.
    pub fn from_xml(reader: &mut XmlReader) -> (r: Result<Self, OxmlError>)
        ensures
            final(reader).same_input(old(reader)),
            exists|f: nat|
                #[trigger] tbl_pr_run(
                    old(reader).input(),
                    old(reader).trims(),
                    old(reader).count(),
                    budget_left(old(reader)),
                    (r, final(reader).count(), f),
                ),
    {
        let ghost x = reader.input();
        let ghost tr = reader.trims();
        let ghost n0 = reader.count();
        let mut p = CT_TblPr {
            style_id: None,
            width: None,
            jc: None,
            borders: None,
            cell_margin: None,
            layout: None,
            indent: None,
            shading: None,
            look: None,
            extra_xml: None,
        };
        let budget = event_budget(unread_len(reader));
        let mut fuel = budget;
        while fuel > 0
            invariant
                fuel <= budget,
                budget as nat == budget_for(xml_unread(x, tr, n0)),
                reader.input() == x,
                reader.trims() == tr,
                x == old(reader).input(),
                tr == old(reader).trims(),
                n0 == old(reader).count(),
                forall|res: ReadOutcome<CT_TblPr>|
                    #[trigger] flat_cap_run(x, tr, reader.count(), ends_at("tblPr"@), tbl_pr_fails(), tbl_pr_step(), tbl_pr_start(x, tr), p, fuel as nat, res)
                        ==> tbl_pr_run(x, tr, n0, budget as nat, res),
            decreases fuel,
        {
            let ghost n = reader.count();
            let ghost o = p;
            let ghost f1 = fuel as nat;
            fuel = fuel - 1;
            match read_event(reader) {
                Ok(ReadEvent::Empty(t)) => {
                    if let Err(e) = read_tbl_pr_empty(&mut p, &t) {
                        proof {
                            let res = (Err::<CT_TblPr, OxmlError>(e), reader.count(), fuel as nat);
                            assert(flat_cap_run(x, tr, n, ends_at("tblPr"@), tbl_pr_fails(), tbl_pr_step(), tbl_pr_start(x, tr), o, f1, res));
                            assert(tbl_pr_run(x, tr, n0, budget as nat, res));
                            assert(tbl_pr_run(old(reader).input(), old(reader).trims(), old(reader).count(), budget_left(old(reader)), res));
                        }
                        return Err(e);
                    }
                    proof {
                        assert(tbl_pr_step()(o, p, t));
                        assert forall|res: ReadOutcome<CT_TblPr>|
                            #[trigger] flat_cap_run(x, tr, reader.count(), ends_at("tblPr"@), tbl_pr_fails(), tbl_pr_step(), tbl_pr_start(x, tr), p, fuel as nat, res)
                            implies flat_cap_run(x, tr, n, ends_at("tblPr"@), tbl_pr_fails(), tbl_pr_step(), tbl_pr_start(x, tr), o, f1, res) by {
                            lemma_flat_cap_empty(x, tr, n, ends_at("tblPr"@), tbl_pr_fails(), tbl_pr_step(), tbl_pr_start(x, tr), o, p, f1, t, res);
                        }
                    }
                },
                Ok(ReadEvent::Start(t)) => {
                    if name_is(t.name.as_str(), "tblBorders") {
                        let rb = CT_TblBorders::from_xml(reader);
                        let ghost grb = rb;
                        match rb {
                            Ok(b) => {
                                p.borders = Some(b);
                        proof {
                            let q = reader.count();
                            assert(tbl_pr_start(x, tr)(o, t, n + 1, Ok::<CT_TblPr, OxmlError>(p), q));
                            assert forall|res: ReadOutcome<CT_TblPr>|
                                #[trigger] flat_cap_run(x, tr, reader.count(), ends_at("tblPr"@), tbl_pr_fails(), tbl_pr_step(), tbl_pr_start(x, tr), p, fuel as nat, res)
                                implies flat_cap_run(x, tr, n, ends_at("tblPr"@), tbl_pr_fails(), tbl_pr_step(), tbl_pr_start(x, tr), o, f1, res) by {
                                lemma_flat_cap_start(x, tr, n, ends_at("tblPr"@), tbl_pr_fails(), tbl_pr_step(), tbl_pr_start(x, tr), o, f1, t, Ok::<CT_TblPr, OxmlError>(p), q, res);
                            }
                        }
                            },
                            Err(e) => {
                            proof {
                                let q = reader.count();
                                let res = (Err::<CT_TblPr, OxmlError>(e), q, fuel as nat);
                                assert(tbl_pr_start(x, tr)(o, t, n + 1, Err::<CT_TblPr, OxmlError>(e), q));
                                lemma_flat_cap_start(x, tr, n, ends_at("tblPr"@), tbl_pr_fails(), tbl_pr_step(), tbl_pr_start(x, tr), o, f1, t, Err::<CT_TblPr, OxmlError>(e), q, res);
                            assert(tbl_pr_run(x, tr, n0, budget as nat, res));
                            assert(tbl_pr_run(old(reader).input(), old(reader).trims(), old(reader).count(), budget_left(old(reader)), res));
                            }
                            return Err(e);
                            },
                        }
                    } else if name_is(t.name.as_str(), "tblCellMar") {
                        let rb = CT_TblCellMar::from_xml(reader);
                        let ghost grb = rb;
                        match rb {
                            Ok(b) => {
                                p.cell_margin = Some(b);
                        proof {
                            let q = reader.count();
                            assert(tbl_pr_start(x, tr)(o, t, n + 1, Ok::<CT_TblPr, OxmlError>(p), q));
                            assert forall|res: ReadOutcome<CT_TblPr>|
                                #[trigger] flat_cap_run(x, tr, reader.count(), ends_at("tblPr"@), tbl_pr_fails(), tbl_pr_step(), tbl_pr_start(x, tr), p, fuel as nat, res)
                                implies flat_cap_run(x, tr, n, ends_at("tblPr"@), tbl_pr_fails(), tbl_pr_step(), tbl_pr_start(x, tr), o, f1, res) by {
                                lemma_flat_cap_start(x, tr, n, ends_at("tblPr"@), tbl_pr_fails(), tbl_pr_step(), tbl_pr_start(x, tr), o, f1, t, Ok::<CT_TblPr, OxmlError>(p), q, res);
                            }
                        }
                            },
                            Err(e) => {
                            proof {
                                let q = reader.count();
                                let res = (Err::<CT_TblPr, OxmlError>(e), q, fuel as nat);
                                assert(tbl_pr_start(x, tr)(o, t, n + 1, Err::<CT_TblPr, OxmlError>(e), q));
                                lemma_flat_cap_start(x, tr, n, ends_at("tblPr"@), tbl_pr_fails(), tbl_pr_step(), tbl_pr_start(x, tr), o, f1, t, Err::<CT_TblPr, OxmlError>(e), q, res);
                            assert(tbl_pr_run(x, tr, n0, budget as nat, res));
                            assert(tbl_pr_run(old(reader).input(), old(reader).trims(), old(reader).count(), budget_left(old(reader)), res));
                            }
                            return Err(e);
                            },
                        }
                    } else {
                        let raw = match capture_element(reader, &t) {
                            Ok(b) => b,
                            Err(e) => {
                            proof {
                                let q = reader.count();
                                let res = (Err::<CT_TblPr, OxmlError>(e), q, fuel as nat);
                                assert(tbl_pr_start(x, tr)(o, t, n + 1, Err::<CT_TblPr, OxmlError>(e), q));
                                lemma_flat_cap_start(x, tr, n, ends_at("tblPr"@), tbl_pr_fails(), tbl_pr_step(), tbl_pr_start(x, tr), o, f1, t, Err::<CT_TblPr, OxmlError>(e), q, res);
                            assert(tbl_pr_run(x, tr, n0, budget as nat, res));
                            assert(tbl_pr_run(old(reader).input(), old(reader).trims(), old(reader).count(), budget_left(old(reader)), res));
                            }
                            return Err(e);
                            },
                        };
                        let ghost bb = raw@;
                        push_extra(&mut p.extra_xml, raw);
                        proof {
                            let q = reader.count();
                            assert(tbl_pr_start(x, tr)(o, t, n + 1, Ok::<CT_TblPr, OxmlError>(p), q));
                            assert forall|res: ReadOutcome<CT_TblPr>|
                                #[trigger] flat_cap_run(x, tr, reader.count(), ends_at("tblPr"@), tbl_pr_fails(), tbl_pr_step(), tbl_pr_start(x, tr), p, fuel as nat, res)
                                implies flat_cap_run(x, tr, n, ends_at("tblPr"@), tbl_pr_fails(), tbl_pr_step(), tbl_pr_start(x, tr), o, f1, res) by {
                                lemma_flat_cap_start(x, tr, n, ends_at("tblPr"@), tbl_pr_fails(), tbl_pr_step(), tbl_pr_start(x, tr), o, f1, t, Ok::<CT_TblPr, OxmlError>(p), q, res);
                            }
                        }
                    }
                },
                Ok(ReadEvent::End(nm)) => {
                    if name_is(nm.as_str(), "tblPr") {
                        proof {
                            assert(flat_cap_run(x, tr, n, ends_at("tblPr"@), tbl_pr_fails(), tbl_pr_step(), tbl_pr_start(x, tr), o, f1, (Ok::<CT_TblPr, OxmlError>(p), reader.count(), fuel as nat)));
                            assert(tbl_pr_run(x, tr, n0, budget as nat, (Ok::<CT_TblPr, OxmlError>(p), reader.count(), fuel as nat)));
                            assert(tbl_pr_run(old(reader).input(), old(reader).trims(), old(reader).count(), budget_left(old(reader)), (Ok::<CT_TblPr, OxmlError>(p), reader.count(), fuel as nat)));
                        }
                        return Ok(p);
                    }
                    proof {
                        assert forall|res: ReadOutcome<CT_TblPr>|
                            #[trigger] flat_cap_run(x, tr, reader.count(), ends_at("tblPr"@), tbl_pr_fails(), tbl_pr_step(), tbl_pr_start(x, tr), p, fuel as nat, res)
                            implies flat_cap_run(x, tr, n, ends_at("tblPr"@), tbl_pr_fails(), tbl_pr_step(), tbl_pr_start(x, tr), o, f1, res) by {}
                    }
                },
                Ok(ReadEvent::Eof) => {
                    proof {
                        assert(flat_cap_run(x, tr, n, ends_at("tblPr"@), tbl_pr_fails(), tbl_pr_step(), tbl_pr_start(x, tr), o, f1, (Ok::<CT_TblPr, OxmlError>(p), reader.count(), fuel as nat)));
                            assert(tbl_pr_run(x, tr, n0, budget as nat, (Ok::<CT_TblPr, OxmlError>(p), reader.count(), fuel as nat)));
                            assert(tbl_pr_run(old(reader).input(), old(reader).trims(), old(reader).count(), budget_left(old(reader)), (Ok::<CT_TblPr, OxmlError>(p), reader.count(), fuel as nat)));
                    }
                    return Ok(p);
                },
                Ok(_) => {
                    proof {
                        assert forall|res: ReadOutcome<CT_TblPr>|
                            #[trigger] flat_cap_run(x, tr, reader.count(), ends_at("tblPr"@), tbl_pr_fails(), tbl_pr_step(), tbl_pr_start(x, tr), p, fuel as nat, res)
                            implies flat_cap_run(x, tr, n, ends_at("tblPr"@), tbl_pr_fails(), tbl_pr_step(), tbl_pr_start(x, tr), o, f1, res) by {}
                    }
                },
                Err(e) => {
                    proof {
                        let res = (Err::<CT_TblPr, OxmlError>(e), reader.count(), fuel as nat);
                        assert(flat_cap_run(x, tr, n, ends_at("tblPr"@), tbl_pr_fails(), tbl_pr_step(), tbl_pr_start(x, tr), o, f1, res));
                            assert(tbl_pr_run(x, tr, n0, budget as nat, res));
                            assert(tbl_pr_run(old(reader).input(), old(reader).trims(), old(reader).count(), budget_left(old(reader)), res));
                    }
                    return Err(e);
                },
            }
        }
        proof {
            assert(flat_cap_run(x, tr, reader.count(), ends_at("tblPr"@), tbl_pr_fails(), tbl_pr_step(), tbl_pr_start(x, tr), p, 0nat, (Ok::<CT_TblPr, OxmlError>(p), reader.count(), 0nat)));
                            assert(tbl_pr_run(x, tr, n0, budget as nat, (Ok::<CT_TblPr, OxmlError>(p), reader.count(), 0nat)));
                            assert(tbl_pr_run(old(reader).input(), old(reader).trims(), old(reader).count(), budget_left(old(reader)), (Ok::<CT_TblPr, OxmlError>(p), reader.count(), 0nat)));
        }
        Ok(p)
    }
}

/// Where reading the grid fails: a `gridCol` whose width does not read.
pub open spec fn grid_fails() -> spec_fn(Seq<CT_TblGridCol>, Tag) -> bool {
    |o: Seq<CT_TblGridCol>, t: Tag| local_is(t.name@, "gridCol"@) && grid_col_fold(t.attrs@, 0) is None
}

/// What an empty element does to the columns read so far: a `gridCol`
/// adds the column of its width; other elements change nothing.
pub open spec fn grid_step() -> spec_fn(Seq<CT_TblGridCol>, Seq<CT_TblGridCol>, Tag) -> bool {
    |o: Seq<CT_TblGridCol>, m: Seq<CT_TblGridCol>, t: Tag|
        if local_is(t.name@, "gridCol"@) {
            grid_col_fold(t.attrs@, 0) matches Some(w) && m == o.push(CT_TblGridCol { width: Twips(w) })
        } else {
            m == o
        }
}

/// The columns of a result, by their view.
pub open spec fn grid_res(r: Result<CT_TblGrid, OxmlError>) -> Result<Seq<CT_TblGridCol>, OxmlError> {
    match r {
        Ok(g) => Ok(g.columns@),
        Err(e) => Err(e),
    }
}

/// Reading the grid from call `n` on ends in `res`.
pub open spec fn grid_run(x: Seq<u8>, tr: bool, n: nat, f: nat, res: ReadOutcome<Seq<CT_TblGridCol>>) -> bool {
    flat_run(x, tr, n, ends_at("tblGrid"@), grid_fails(), grid_step(), Seq::empty(), f, res)
}

/// Read one empty element into the grid columns.
fn read_grid_empty(v: &mut Vec<CT_TblGridCol>, t: &Tag) -> (r: Result<(), OxmlError>)
    ensures
        r is Err <==> grid_fails()(old(v)@, *t),
        r is Ok ==> grid_step()(old(v)@, final(v)@, *t),
{
    if name_is(t.name.as_str(), "gridCol") {
        match read_grid_col(t) {
            Ok(c) => {
                v.push(c);
                Ok(())
            },
            Err(e) => Err(e),
        }
    } else {
        Ok(())
    }
}

impl CT_TblGrid {
    /// Read the grid from the events after `<w:tblGrid>` up to its end (or
    /// the end of input): one column per `gridCol` tag, as
    /// `read_grid_col` reads it.
    pub fn from_xml(reader: &mut XmlReader) -> (r: Result<Self, OxmlError>)
        ensures
            final(reader).same_input(old(reader)),
            exists|f: nat|
                #[trigger] grid_run(
                    old(reader).input(),
                    old(reader).trims(),
                    old(reader).count(),
                    budget_left(old(reader)),
                    (grid_res(r), final(reader).count(), f),
                ),
    {
        let ghost x = reader.input();
        let ghost tr = reader.trims();
        let ghost n0 = reader.count();
        let mut columns: Vec<CT_TblGridCol> = Vec::new();
        proof { assert(columns@ =~= Seq::<CT_TblGridCol>::empty()); }
        let budget = event_budget(unread_len(reader));
        let mut fuel = budget;
        while fuel > 0
            invariant
                fuel <= budget,
                budget as nat == budget_for(xml_unread(x, tr, n0)),
                reader.input() == x,
                reader.trims() == tr,
                x == old(reader).input(),
                tr == old(reader).trims(),
                n0 == old(reader).count(),
                forall|res: ReadOutcome<Seq<CT_TblGridCol>>|
                    #[trigger] flat_run(x, tr, reader.count(), ends_at("tblGrid"@), grid_fails(), grid_step(), columns@, fuel as nat, res)
                        ==> grid_run(x, tr, n0, budget as nat, res),
            decreases fuel,
        {
            let ghost n = reader.count();
            let ghost o = columns@;
            let ghost f1 = fuel as nat;
            fuel = fuel - 1;
            match read_event(reader) {
                Ok(ReadEvent::Empty(t)) => {
                    if let Err(e) = read_grid_empty(&mut columns, &t) {
                        proof {
                            let res = (Err::<Seq<CT_TblGridCol>, OxmlError>(e), reader.count(), fuel as nat);
                            assert(flat_run(x, tr, n, ends_at("tblGrid"@), grid_fails(), grid_step(), o, f1, res));
                            assert(grid_run(x, tr, n0, budget as nat, res));
                            assert(grid_run(old(reader).input(), old(reader).trims(), old(reader).count(), budget_left(old(reader)), res));
                        }
                        return Err(e);
                    }
                    proof {
                        assert(grid_step()(o, columns@, t));
                        assert forall|res: ReadOutcome<Seq<CT_TblGridCol>>|
                            #[trigger] flat_run(x, tr, reader.count(), ends_at("tblGrid"@), grid_fails(), grid_step(), columns@, fuel as nat, res)
                            implies flat_run(x, tr, n, ends_at("tblGrid"@), grid_fails(), grid_step(), o, f1, res) by {
                            lemma_flat_empty(x, tr, n, ends_at("tblGrid"@), grid_fails(), grid_step(), o, columns@, f1, t, res);
                        }
                    }
                },
                Ok(ReadEvent::End(nm)) => {
                    if name_is(nm.as_str(), "tblGrid") {
                        proof {
                            assert(flat_run(x, tr, n, ends_at("tblGrid"@), grid_fails(), grid_step(), o, f1, (Ok::<Seq<CT_TblGridCol>, OxmlError>(columns@), reader.count(), fuel as nat)));
                            assert(grid_run(x, tr, n0, budget as nat, (Ok::<Seq<CT_TblGridCol>, OxmlError>(columns@), reader.count(), fuel as nat)));
                            assert(grid_run(old(reader).input(), old(reader).trims(), old(reader).count(), budget_left(old(reader)), (Ok::<Seq<CT_TblGridCol>, OxmlError>(columns@), reader.count(), fuel as nat)));
                        }
                        return Ok(CT_TblGrid { columns });
                    }
                    proof {
                        assert forall|res: ReadOutcome<Seq<CT_TblGridCol>>|
                            #[trigger] flat_run(x, tr, reader.count(), ends_at("tblGrid"@), grid_fails(), grid_step(), columns@, fuel as nat, res)
                            implies flat_run(x, tr, n, ends_at("tblGrid"@), grid_fails(), grid_step(), o, f1, res) by {}
                    }
                },
                Ok(ReadEvent::Eof) => {
                    proof {
                        assert(flat_run(x, tr, n, ends_at("tblGrid"@), grid_fails(), grid_step(), o, f1, (Ok::<Seq<CT_TblGridCol>, OxmlError>(columns@), reader.count(), fuel as nat)));
                        assert(grid_run(x, tr, n0, budget as nat, (Ok::<Seq<CT_TblGridCol>, OxmlError>(columns@), reader.count(), fuel as nat)));
                            assert(grid_run(old(reader).input(), old(reader).trims(), old(reader).count(), budget_left(old(reader)), (Ok::<Seq<CT_TblGridCol>, OxmlError>(columns@), reader.count(), fuel as nat)));
                    }
                    return Ok(CT_TblGrid { columns });
                },
                Ok(_) => {
                    proof {
                        assert forall|res: ReadOutcome<Seq<CT_TblGridCol>>|
                            #[trigger] flat_run(x, tr, reader.count(), ends_at("tblGrid"@), grid_fails(), grid_step(), columns@, fuel as nat, res)
                            implies flat_run(x, tr, n, ends_at("tblGrid"@), grid_fails(), grid_step(), o, f1, res) by {}
                    }
                },
                Err(e) => {
                    proof {
                        let res = (Err::<Seq<CT_TblGridCol>, OxmlError>(e), reader.count(), fuel as nat);
                        assert(flat_run(x, tr, n, ends_at("tblGrid"@), grid_fails(), grid_step(), o, f1, res));
                        assert(grid_run(x, tr, n0, budget as nat, res));
                            assert(grid_run(old(reader).input(), old(reader).trims(), old(reader).count(), budget_left(old(reader)), res));
                    }
                    return Err(e);
                },
            }
        }
        proof {
            assert(flat_run(x, tr, reader.count(), ends_at("tblGrid"@), grid_fails(), grid_step(), columns@, 0nat, (Ok::<Seq<CT_TblGridCol>, OxmlError>(columns@), reader.count(), 0nat)));
            assert(grid_run(x, tr, n0, budget as nat, (Ok::<Seq<CT_TblGridCol>, OxmlError>(columns@), reader.count(), 0nat)));
                            assert(grid_run(old(reader).input(), old(reader).trims(), old(reader).count(), budget_left(old(reader)), (Ok::<Seq<CT_TblGridCol>, OxmlError>(columns@), reader.count(), 0nat)));
        }
        Ok(CT_TblGrid { columns })
    }
}

/// Where reading row properties fails.
pub open spec fn tr_pr_fails_fn() -> spec_fn(CT_TrPr, Tag) -> bool {
    |o: CT_TrPr, t: Tag| tr_pr_fails(o, t)
}

/// What an empty element does to row properties.
pub open spec fn tr_pr_step() -> spec_fn(CT_TrPr, CT_TrPr, Tag) -> bool {
    |o: CT_TrPr, m: CT_TrPr, t: Tag| tr_pr_after(o, m, t)
}

/// Row properties with one more element kept verbatim.
pub open spec fn tr_pr_keep() -> spec_fn(CT_TrPr, CT_TrPr, Seq<u8>) -> bool {
    |o: CT_TrPr, m: CT_TrPr, b: Seq<u8>| m == (CT_TrPr { extra_xml: m.extra_xml, ..o }) && extra_added(o.extra_xml, m.extra_xml, b)
}

/// What a child element of `trPr` does: it is kept verbatim.
pub open spec fn tr_pr_start(x: Seq<u8>, tr: bool) -> spec_fn(CT_TrPr, Tag, nat, Result<CT_TrPr, OxmlError>, nat) -> bool {
    cap_start(x, tr, tr_pr_keep())
}

/// Reading row properties from call `n` on ends in `res`.
pub open spec fn tr_pr_run(x: Seq<u8>, tr: bool, n: nat, f: nat, res: ReadOutcome<CT_TrPr>) -> bool {
    flat_cap_run(
        x,
        tr,
        n,
        ends_at("trPr"@),
        tr_pr_fails_fn(),
        tr_pr_step(),
        tr_pr_start(x, tr),
        CT_TrPr { height: None, height_rule: None, header: None, jc: None, cant_split: None, extra_xml: None },
        f,
        res,
    )
}

impl CT_TrPr {
    /// Read row properties from the events after `<w:trPr>` up to its end
    /// (or the end of input): each empty tag as `read_tr_pr_empty` says,
    /// any element kept verbatim.
    pub fn from_xml(reader: &mut XmlReader) -> (r: Result<Self, OxmlError>)
        ensures
            final(reader).same_input(old(reader)),
            exists|f: nat|
                #[trigger] tr_pr_run(
                    old(reader).input(),
                    old(reader).trims(),
                    old(reader).count(),
                    budget_left(old(reader)),
                    (r, final(reader).count(), f),
                ),
    {
        let ghost x = reader.input();
        let ghost tr = reader.trims();
        let ghost n0 = reader.count();
        let mut p = CT_TrPr { height: None, height_rule: None, header: None, jc: None, cant_split: None, extra_xml: None };
        let budget = event_budget(unread_len(reader));
        let mut fuel = budget;
        while fuel > 0
            invariant
                fuel <= budget,
                budget as nat == budget_for(xml_unread(x, tr, n0)),
                reader.input() == x,
                reader.trims() == tr,
                x == old(reader).input(),
                tr == old(reader).trims(),
                n0 == old(reader).count(),
                forall|res: ReadOutcome<CT_TrPr>|
                    #[trigger] flat_cap_run(x, tr, reader.count(), ends_at("trPr"@), tr_pr_fails_fn(), tr_pr_step(), tr_pr_start(x, tr), p, fuel as nat, res)
                        ==> tr_pr_run(x, tr, n0, budget as nat, res),
            decreases fuel,
        {
            let ghost n = reader.count();
            let ghost o = p;
            let ghost f1 = fuel as nat;
            fuel = fuel - 1;
            match read_event(reader) {
                Ok(ReadEvent::Empty(t)) => {
                    if let Err(e) = read_tr_pr_empty(&mut p, &t) {
                        proof {
                            let res = (Err::<CT_TrPr, OxmlError>(e), reader.count(), fuel as nat);
                            assert(flat_cap_run(x, tr, n, ends_at("trPr"@), tr_pr_fails_fn(), tr_pr_step(), tr_pr_start(x, tr), o, f1, res));
                            assert(tr_pr_run(x, tr, n0, budget as nat, res));
                            assert(tr_pr_run(old(reader).input(), old(reader).trims(), old(reader).count(), budget_left(old(reader)), res));
                        }
                        return Err(e);
                    }
                    proof {
                        assert(tr_pr_step()(o, p, t));
                        assert forall|res: ReadOutcome<CT_TrPr>|
                            #[trigger] flat_cap_run(x, tr, reader.count(), ends_at("trPr"@), tr_pr_fails_fn(), tr_pr_step(), tr_pr_start(x, tr), p, fuel as nat, res)
                            implies flat_cap_run(x, tr, n, ends_at("trPr"@), tr_pr_fails_fn(), tr_pr_step(), tr_pr_start(x, tr), o, f1, res) by {
                            lemma_flat_cap_empty(x, tr, n, ends_at("trPr"@), tr_pr_fails_fn(), tr_pr_step(), tr_pr_start(x, tr), o, p, f1, t, res);
                        }
                    }
                },
                Ok(ReadEvent::Start(t)) => {
                    {
                        let raw = match capture_element(reader, &t) {
                            Ok(b) => b,
                            Err(e) => {
                            proof {
                                let q = reader.count();
                                let res = (Err::<CT_TrPr, OxmlError>(e), q, fuel as nat);
                                assert(tr_pr_start(x, tr)(o, t, n + 1, Err::<CT_TrPr, OxmlError>(e), q));
                                lemma_flat_cap_start(x, tr, n, ends_at("trPr"@), tr_pr_fails_fn(), tr_pr_step(), tr_pr_start(x, tr), o, f1, t, Err::<CT_TrPr, OxmlError>(e), q, res);
                            assert(tr_pr_run(x, tr, n0, budget as nat, res));
                            assert(tr_pr_run(old(reader).input(), old(reader).trims(), old(reader).count(), budget_left(old(reader)), res));
                            }
                            return Err(e);
                            },
                        };
                        let ghost bb = raw@;
                        push_extra(&mut p.extra_xml, raw);
                        proof {
                            let q = reader.count();
                            assert(tr_pr_start(x, tr)(o, t, n + 1, Ok::<CT_TrPr, OxmlError>(p), q));
                            assert forall|res: ReadOutcome<CT_TrPr>|
                                #[trigger] flat_cap_run(x, tr, reader.count(), ends_at("trPr"@), tr_pr_fails_fn(), tr_pr_step(), tr_pr_start(x, tr), p, fuel as nat, res)
                                implies flat_cap_run(x, tr, n, ends_at("trPr"@), tr_pr_fails_fn(), tr_pr_step(), tr_pr_start(x, tr), o, f1, res) by {
                                lemma_flat_cap_start(x, tr, n, ends_at("trPr"@), tr_pr_fails_fn(), tr_pr_step(), tr_pr_start(x, tr), o, f1, t, Ok::<CT_TrPr, OxmlError>(p), q, res);
                            }
                        }
                    }
                },
                Ok(ReadEvent::End(nm)) => {
                    if name_is(nm.as_str(), "trPr") {
                        proof {
                            assert(flat_cap_run(x, tr, n, ends_at("trPr"@), tr_pr_fails_fn(), tr_pr_step(), tr_pr_start(x, tr), o, f1, (Ok::<CT_TrPr, OxmlError>(p), reader.count(), fuel as nat)));
                            assert(tr_pr_run(x, tr, n0, budget as nat, (Ok::<CT_TrPr, OxmlError>(p), reader.count(), fuel as nat)));
                            assert(tr_pr_run(old(reader).input(), old(reader).trims(), old(reader).count(), budget_left(old(reader)), (Ok::<CT_TrPr, OxmlError>(p), reader.count(), fuel as nat)));
                        }
                        return Ok(p);
                    }
                    proof {
                        assert forall|res: ReadOutcome<CT_TrPr>|
                            #[trigger] flat_cap_run(x, tr, reader.count(), ends_at("trPr"@), tr_pr_fails_fn(), tr_pr_step(), tr_pr_start(x, tr), p, fuel as nat, res)
                            implies flat_cap_run(x, tr, n, ends_at("trPr"@), tr_pr_fails_fn(), tr_pr_step(), tr_pr_start(x, tr), o, f1, res) by {}
                    }
                },
                Ok(ReadEvent::Eof) => {
                    proof {
                        assert(flat_cap_run(x, tr, n, ends_at("trPr"@), tr_pr_fails_fn(), tr_pr_step(), tr_pr_start(x, tr), o, f1, (Ok::<CT_TrPr, OxmlError>(p), reader.count(), fuel as nat)));
                            assert(tr_pr_run(x, tr, n0, budget as nat, (Ok::<CT_TrPr, OxmlError>(p), reader.count(), fuel as nat)));
                            assert(tr_pr_run(old(reader).input(), old(reader).trims(), old(reader).count(), budget_left(old(reader)), (Ok::<CT_TrPr, OxmlError>(p), reader.count(), fuel as nat)));
                    }
                    return Ok(p);
                },
                Ok(_) => {
                    proof {
                        assert forall|res: ReadOutcome<CT_TrPr>|
                            #[trigger] flat_cap_run(x, tr, reader.count(), ends_at("trPr"@), tr_pr_fails_fn(), tr_pr_step(), tr_pr_start(x, tr), p, fuel as nat, res)
                            implies flat_cap_run(x, tr, n, ends_at("trPr"@), tr_pr_fails_fn(), tr_pr_step(), tr_pr_start(x, tr), o, f1, res) by {}
                    }
                },
                Err(e) => {
                    proof {
                        let res = (Err::<CT_TrPr, OxmlError>(e), reader.count(), fuel as nat);
                        assert(flat_cap_run(x, tr, n, ends_at("trPr"@), tr_pr_fails_fn(), tr_pr_step(), tr_pr_start(x, tr), o, f1, res));
                            assert(tr_pr_run(x, tr, n0, budget as nat, res));
                            assert(tr_pr_run(old(reader).input(), old(reader).trims(), old(reader).count(), budget_left(old(reader)), res));
                    }
                    return Err(e);
                },
            }
        }
        proof {
            assert(flat_cap_run(x, tr, reader.count(), ends_at("trPr"@), tr_pr_fails_fn(), tr_pr_step(), tr_pr_start(x, tr), p, 0nat, (Ok::<CT_TrPr, OxmlError>(p), reader.count(), 0nat)));
                            assert(tr_pr_run(x, tr, n0, budget as nat, (Ok::<CT_TrPr, OxmlError>(p), reader.count(), 0nat)));
                            assert(tr_pr_run(old(reader).input(), old(reader).trims(), old(reader).count(), budget_left(old(reader)), (Ok::<CT_TrPr, OxmlError>(p), reader.count(), 0nat)));
        }
        Ok(p)
    }
}

/// Where reading cell properties fails.
pub open spec fn tc_pr_fails() -> spec_fn(CT_TcPr, Tag) -> bool {
    |o: CT_TcPr, t: Tag| !local_is(t.name@, "tcW"@) && local_is(t.name@, "gridSpan"@) && span_of(t, o.grid_span) is None
}

/// What an empty element does to cell properties.
pub open spec fn tc_pr_step() -> spec_fn(CT_TcPr, CT_TcPr, Tag) -> bool {
    |o: CT_TcPr, m: CT_TcPr, t: Tag| tc_pr_after(o, m, t)
}

/// Cell properties with one more element kept verbatim.
pub open spec fn tc_pr_keep() -> spec_fn(CT_TcPr, CT_TcPr, Seq<u8>) -> bool {
    |o: CT_TcPr, m: CT_TcPr, b: Seq<u8>| m == (CT_TcPr { extra_xml: m.extra_xml, ..o }) && extra_added(o.extra_xml, m.extra_xml, b)
}

/// What a child element of `tcPr` does: cell borders are read by their own
/// reader; any other element is kept verbatim.
pub open spec fn tc_pr_start(x: Seq<u8>, tr: bool) -> spec_fn(CT_TcPr, Tag, nat, Result<CT_TcPr, OxmlError>, nat) -> bool {
    |o: CT_TcPr, t: Tag, p: nat, m: Result<CT_TcPr, OxmlError>, q: nat|
        if local_is(t.name@, "tcBorders"@) {
            exists|rb: Result<CT_TblBorders, OxmlError>, f: nat|
                #[trigger] tbl_borders_run(x, tr, p, budget_for(xml_unread(x, tr, p)), (rb, q, f)) && match rb {
                    Ok(b) => m == Ok::<CT_TcPr, OxmlError>(CT_TcPr { borders: Some(b), ..o }),
                    Err(e) => m == Err::<CT_TcPr, OxmlError>(e),
                }
        } else {
            cap_start(x, tr, tc_pr_keep())(o, t, p, m, q)
        }
}

/// Reading cell properties from call `n` on ends in `res`.
pub open spec fn tc_pr_run(x: Seq<u8>, tr: bool, n: nat, f: nat, res: ReadOutcome<CT_TcPr>) -> bool {
    flat_cap_run(
        x,
        tr,
        n,
        ends_at("tcPr"@),
        tc_pr_fails(),
        tc_pr_step(),
        tc_pr_start(x, tr),
        CT_TcPr {
            width: None,
            grid_span: None,
            v_merge: None,
            borders: None,
            shading: None,
            v_align: None,
            no_wrap: None,
            text_direction: None,
            extra_xml: None,
        },
        f,
        res,
    )
}

impl CT_TcPr {
    /// Read cell properties from the events after `<w:tcPr>` up to its end
    /// (or the end of input): each empty tag as `read_tc_pr_empty` says,
    /// cell borders by their reader, any other element kept verbatim.
    pub fn from_xml(reader: &mut XmlReader) -> (r: Result<Self, OxmlError>)
        ensures
            final(reader).same_input(old(reader)),
            exists|f: nat|
                #[trigger] tc_pr_run(
                    old(reader).input(),
                    old(reader).trims(),
                    old(reader).count(),
                    budget_left(old(reader)),
                    (r, final(reader).count(), f),
                ),
    {
        let ghost x = reader.input();
        let ghost tr = reader.trims();
        let ghost n0 = reader.count();
        let mut p = CT_TcPr {
            width: None,
            grid_span: None,
            v_merge: None,
            borders: None,
            shading: None,
            v_align: None,
            no_wrap: None,
            text_direction: None,
            extra_xml: None,
        };
        let budget = event_budget(unread_len(reader));
        let mut fuel = budget;
        while fuel > 0
            invariant
                fuel <= budget,
                budget as nat == budget_for(xml_unread(x, tr, n0)),
                reader.input() == x,
                reader.trims() == tr,
                x == old(reader).input(),
                tr == old(reader).trims(),
                n0 == old(reader).count(),
                forall|res: ReadOutcome<CT_TcPr>|
                    #[trigger] flat_cap_run(x, tr, reader.count(), ends_at("tcPr"@), tc_pr_fails(), tc_pr_step(), tc_pr_start(x, tr), p, fuel as nat, res)
                        ==> tc_pr_run(x, tr, n0, budget as nat, res),
            decreases fuel,
        {
            let ghost n = reader.count();
            let ghost o = p;
            let ghost f1 = fuel as nat;
            fuel = fuel - 1;
            match read_event(reader) {
                Ok(ReadEvent::Empty(t)) => {
                    if let Err(e) = read_tc_pr_empty(&mut p, &t) {
                        proof {
                            let res = (Err::<CT_TcPr, OxmlError>(e), reader.count(), fuel as nat);
                            assert(flat_cap_run(x, tr, n, ends_at("tcPr"@), tc_pr_fails(), tc_pr_step(), tc_pr_start(x, tr), o, f1, res));
                            assert(tc_pr_run(x, tr, n0, budget as nat, res));
                            assert(tc_pr_run(old(reader).input(), old(reader).trims(), old(reader).count(), budget_left(old(reader)), res));
                        }
                        return Err(e);
                    }
                    proof {
                        assert(tc_pr_step()(o, p, t));
                        assert forall|res: ReadOutcome<CT_TcPr>|
                            #[trigger] flat_cap_run(x, tr, reader.count(), ends_at("tcPr"@), tc_pr_fails(), tc_pr_step(), tc_pr_start(x, tr), p, fuel as nat, res)
                            implies flat_cap_run(x, tr, n, ends_at("tcPr"@), tc_pr_fails(), tc_pr_step(), tc_pr_start(x, tr), o, f1, res) by {
                            lemma_flat_cap_empty(x, tr, n, ends_at("tcPr"@), tc_pr_fails(), tc_pr_step(), tc_pr_start(x, tr), o, p, f1, t, res);
                        }
                    }
                },
                Ok(ReadEvent::Start(t)) => {
                    if name_is(t.name.as_str(), "tcBorders") {
                        let rb = CT_TblBorders::from_xml(reader);
                        let ghost grb = rb;
                        match rb {
                            Ok(b) => {
                                p.borders = Some(b);
                        proof {
                            let q = reader.count();
                            assert(tc_pr_start(x, tr)(o, t, n + 1, Ok::<CT_TcPr, OxmlError>(p), q));
                            assert forall|res: ReadOutcome<CT_TcPr>|
                                #[trigger] flat_cap_run(x, tr, reader.count(), ends_at("tcPr"@), tc_pr_fails(), tc_pr_step(), tc_pr_start(x, tr), p, fuel as nat, res)
                                implies flat_cap_run(x, tr, n, ends_at("tcPr"@), tc_pr_fails(), tc_pr_step(), tc_pr_start(x, tr), o, f1, res) by {
                                lemma_flat_cap_start(x, tr, n, ends_at("tcPr"@), tc_pr_fails(), tc_pr_step(), tc_pr_start(x, tr), o, f1, t, Ok::<CT_TcPr, OxmlError>(p), q, res);
                            }
                        }
                            },
                            Err(e) => {
                            proof {
                                let q = reader.count();
                                let res = (Err::<CT_TcPr, OxmlError>(e), q, fuel as nat);
                                assert(tc_pr_start(x, tr)(o, t, n + 1, Err::<CT_TcPr, OxmlError>(e), q));
                                lemma_flat_cap_start(x, tr, n, ends_at("tcPr"@), tc_pr_fails(), tc_pr_step(), tc_pr_start(x, tr), o, f1, t, Err::<CT_TcPr, OxmlError>(e), q, res);
                            assert(tc_pr_run(x, tr, n0, budget as nat, res));
                            assert(tc_pr_run(old(reader).input(), old(reader).trims(), old(reader).count(), budget_left(old(reader)), res));
                            }
                            return Err(e);
                            },
                        }
                    } else {
                        let raw = match capture_element(reader, &t) {
                            Ok(b) => b,
                            Err(e) => {
                            proof {
                                let q = reader.count();
                                let res = (Err::<CT_TcPr, OxmlError>(e), q, fuel as nat);
                                assert(tc_pr_start(x, tr)(o, t, n + 1, Err::<CT_TcPr, OxmlError>(e), q));
                                lemma_flat_cap_start(x, tr, n, ends_at("tcPr"@), tc_pr_fails(), tc_pr_step(), tc_pr_start(x, tr), o, f1, t, Err::<CT_TcPr, OxmlError>(e), q, res);
                            assert(tc_pr_run(x, tr, n0, budget as nat, res));
                            assert(tc_pr_run(old(reader).input(), old(reader).trims(), old(reader).count(), budget_left(old(reader)), res));
                            }
                            return Err(e);
                            },
                        };
                        let ghost bb = raw@;
                        push_extra(&mut p.extra_xml, raw);
                        proof {
                            let q = reader.count();
                            assert(tc_pr_start(x, tr)(o, t, n + 1, Ok::<CT_TcPr, OxmlError>(p), q));
                            assert forall|res: ReadOutcome<CT_TcPr>|
                                #[trigger] flat_cap_run(x, tr, reader.count(), ends_at("tcPr"@), tc_pr_fails(), tc_pr_step(), tc_pr_start(x, tr), p, fuel as nat, res)
                                implies flat_cap_run(x, tr, n, ends_at("tcPr"@), tc_pr_fails(), tc_pr_step(), tc_pr_start(x, tr), o, f1, res) by {
                                lemma_flat_cap_start(x, tr, n, ends_at("tcPr"@), tc_pr_fails(), tc_pr_step(), tc_pr_start(x, tr), o, f1, t, Ok::<CT_TcPr, OxmlError>(p), q, res);
                            }
                        }
                    }
                },
                Ok(ReadEvent::End(nm)) => {
                    if name_is(nm.as_str(), "tcPr") {
                        proof {
                            assert(flat_cap_run(x, tr, n, ends_at("tcPr"@), tc_pr_fails(), tc_pr_step(), tc_pr_start(x, tr), o, f1, (Ok::<CT_TcPr, OxmlError>(p), reader.count(), fuel as nat)));
                            assert(tc_pr_run(x, tr, n0, budget as nat, (Ok::<CT_TcPr, OxmlError>(p), reader.count(), fuel as nat)));
                            assert(tc_pr_run(old(reader).input(), old(reader).trims(), old(reader).count(), budget_left(old(reader)), (Ok::<CT_TcPr, OxmlError>(p), reader.count(), fuel as nat)));
                        }
                        return Ok(p);
                    }
                    proof {
                        assert forall|res: ReadOutcome<CT_TcPr>|
                            #[trigger] flat_cap_run(x, tr, reader.count(), ends_at("tcPr"@), tc_pr_fails(), tc_pr_step(), tc_pr_start(x, tr), p, fuel as nat, res)
                            implies flat_cap_run(x, tr, n, ends_at("tcPr"@), tc_pr_fails(), tc_pr_step(), tc_pr_start(x, tr), o, f1, res) by {}
                    }
                },
                Ok(ReadEvent::Eof) => {
                    proof {
                        assert(flat_cap_run(x, tr, n, ends_at("tcPr"@), tc_pr_fails(), tc_pr_step(), tc_pr_start(x, tr), o, f1, (Ok::<CT_TcPr, OxmlError>(p), reader.count(), fuel as nat)));
                            assert(tc_pr_run(x, tr, n0, budget as nat, (Ok::<CT_TcPr, OxmlError>(p), reader.count(), fuel as nat)));
                            assert(tc_pr_run(old(reader).input(), old(reader).trims(), old(reader).count(), budget_left(old(reader)), (Ok::<CT_TcPr, OxmlError>(p), reader.count(), fuel as nat)));
                    }
                    return Ok(p);
                },
                Ok(_) => {
                    proof {
                        assert forall|res: ReadOutcome<CT_TcPr>|
                            #[trigger] flat_cap_run(x, tr, reader.count(), ends_at("tcPr"@), tc_pr_fails(), tc_pr_step(), tc_pr_start(x, tr), p, fuel as nat, res)
                            implies flat_cap_run(x, tr, n, ends_at("tcPr"@), tc_pr_fails(), tc_pr_step(), tc_pr_start(x, tr), o, f1, res) by {}
                    }
                },
                Err(e) => {
                    proof {
                        let res = (Err::<CT_TcPr, OxmlError>(e), reader.count(), fuel as nat);
                        assert(flat_cap_run(x, tr, n, ends_at("tcPr"@), tc_pr_fails(), tc_pr_step(), tc_pr_start(x, tr), o, f1, res));
                            assert(tc_pr_run(x, tr, n0, budget as nat, res));
                            assert(tc_pr_run(old(reader).input(), old(reader).trims(), old(reader).count(), budget_left(old(reader)), res));
                    }
                    return Err(e);
                },
            }
        }
        proof {
            assert(flat_cap_run(x, tr, reader.count(), ends_at("tcPr"@), tc_pr_fails(), tc_pr_step(), tc_pr_start(x, tr), p, 0nat, (Ok::<CT_TcPr, OxmlError>(p), reader.count(), 0nat)));
                            assert(tc_pr_run(x, tr, n0, budget as nat, (Ok::<CT_TcPr, OxmlError>(p), reader.count(), 0nat)));
                            assert(tc_pr_run(old(reader).input(), old(reader).trims(), old(reader).count(), budget_left(old(reader)), (Ok::<CT_TcPr, OxmlError>(p), reader.count(), 0nat)));
        }
        Ok(p)
    }
}

/// A cell before anything is read into it.
pub open spec fn tc_blank(o: CT_Tc) -> bool {
    o.properties is None && o.content@.len() == 0
}

/// A row before anything is read into it.
pub open spec fn row_blank(o: CT_Row) -> bool {
    o.properties is None && o.cells@.len() == 0 && o.extra_xml@.len() == 0
}

/// A table before anything is read into it.
pub open spec fn tbl_blank(o: CT_Tbl) -> bool {
    o.properties is None && o.grid is None && o.rows@.len() == 0 && o.extra_xml@.len() == 0
}

/// A cell with the content item `c` added after the others.
pub open spec fn item_added(o: CT_Tc, m: CT_Tc, c: CellContent) -> bool {
    m == (CT_Tc { content: m.content, ..o }) && m.content@ == o.content@.push(c)
}

/// A cell with an element kept verbatim, the bytes `b`, added after the
/// other items.
pub open spec fn raw_item_added(o: CT_Tc, m: CT_Tc, b: Seq<u8>) -> bool {
    &&& m == (CT_Tc { content: m.content, ..o })
    &&& m.content@.len() == o.content@.len() + 1
    &&& m.content@.drop_last() == o.content@
    &&& m.content@.last() matches CellContent::RawXml(v) && v@ == b
}

/// A row with the cell `c` added after the others.
pub open spec fn cell_added(o: CT_Row, m: CT_Row, c: CT_Tc) -> bool {
    m == (CT_Row { cells: m.cells, ..o }) && m.cells@ == o.cells@.push(c)
}

/// A row with one more element kept verbatim.
pub open spec fn row_raw_added(o: CT_Row, m: CT_Row, b: Seq<u8>) -> bool {
    &&& m == (CT_Row { extra_xml: m.extra_xml, ..o })
    &&& m.extra_xml@.len() == o.extra_xml@.len() + 1
    &&& m.extra_xml@.drop_last() == o.extra_xml@
    &&& m.extra_xml@.last()@ == b
}

/// A table with the row `rw` added after the others.
pub open spec fn row_added(o: CT_Tbl, m: CT_Tbl, rw: CT_Row) -> bool {
    m == (CT_Tbl { rows: m.rows, ..o }) && m.rows@ == o.rows@.push(rw)
}

/// A table with one more element kept verbatim.
pub open spec fn tbl_raw_added(o: CT_Tbl, m: CT_Tbl, b: Seq<u8>) -> bool {
    &&& m == (CT_Tbl { extra_xml: m.extra_xml, ..o })
    &&& m.extra_xml@.len() == o.extra_xml@.len() + 1
    &&& m.extra_xml@.drop_last() == o.extra_xml@
    &&& m.extra_xml@.last()@ == b
}

/// Any outcome of reading a nested element: what the readings of the
/// elements around it quantify over.
pub open spec fn nested_outcome<T>(h: ReadOutcome<T>) -> bool {
    true
}

/// The value of a result that is `Ok`.
pub open spec fn ok_value<T>(r: Result<T, OxmlError>) -> T
    recommends
        r is Ok,
{
    r->Ok_0
}

/// The bytes captured for the element a start tag opens, from call `p` on
/// (none where the capture fails).
pub open spec fn captured_bytes(x: Seq<u8>, tr: bool, p: nat, t: Tag) -> Seq<u8> {
    match captured(x, tr, p, t).0 {
        Ok(b) => b,
        Err(_) => Seq::empty(),
    }
}

/// The call a reader stands at after capturing the element a start tag
/// opens, from call `p` on.
pub open spec fn captured_at(x: Seq<u8>, tr: bool, p: nat, t: Tag) -> nat {
    captured(x, tr, p, t).1
}

/// Reading the inside of a cell from call `n` on of a reader over `x`,
/// over what `o` holds and with `f` events left (shared with the tables
/// nested in it), ends in `res`: cell properties are read by their reader
/// and replace any before; a paragraph is read and added; a nested table is
/// read with the events left (`tbl_read`) and added, the reading going on
/// with the events it leaves; any other element, and any empty tag but
/// `tcPr`, is kept verbatim; the end tag `tc`, the end of input or the last
/// event allowed ends the reading; an error of the reader fails it.
pub open spec fn tc_run(x: Seq<u8>, tr: bool, n: nat, o: CT_Tc, f: nat, res: ReadOutcome<CT_Tc>) -> bool
    decreases f, 0nat,
{
    if f == 0 {
        res == (Ok::<CT_Tc, OxmlError>(o), n, 0nat)
    } else {
        let g = (f - 1) as nat;
        match xml_event(x, tr, n) {
            Ok(ReadEvent::Start(t)) => if local_is(t.name@, "tcPr"@) {
                exists|h: ReadOutcome<CT_TcPr>|
                    #[trigger] tc_pr_run(x, tr, n + 1, budget_for(xml_unread(x, tr, n + 1)), h) && match h.0 {
                        Ok(p) => tc_run(x, tr, h.1, CT_Tc { properties: Some(p), ..o }, g, res),
                        Err(e) => res == (Err::<CT_Tc, OxmlError>(e), h.1, g),
                    }
            } else if local_is(t.name@, "p"@) {
                exists|h: ReadOutcome<CT_P>|
                    #[trigger] para_read(x, tr, n + 1, h) && match h.0 {
                        Ok(pp) => exists|m: CT_Tc| #[trigger] item_added(o, m, CellContent::Paragraph(pp)) && tc_run(x, tr, h.1, m, g, res),
                        Err(e) => res == (Err::<CT_Tc, OxmlError>(e), h.1, g),
                    }
            } else if local_is(t.name@, "tbl"@) {
                exists|h: ReadOutcome<CT_Tbl>|
                    #[trigger] nested_outcome(h) && tbl_read(x, tr, n + 1, g, h) && if h.2 <= g {
                        match h.0 {
                            Ok(_) => exists|m: CT_Tc| #[trigger] item_added(o, m, CellContent::Table(ok_value(h.0))) && tc_run(x, tr, h.1, m, h.2, res),
                            Err(e) => res == (Err::<CT_Tc, OxmlError>(e), h.1, h.2),
                        }
                    } else {
                        false
                    }
            } else {
                match captured(x, tr, n + 1, t).0 {
                    Ok(_) => exists|m: CT_Tc|
                        #[trigger] raw_item_added(o, m, captured_bytes(x, tr, n + 1, t)) && tc_run(x, tr, captured_at(x, tr, n + 1, t), m, g, res),
                    Err(e) => res == (Err::<CT_Tc, OxmlError>(e), captured_at(x, tr, n + 1, t), g),
                }
            },
            Ok(ReadEvent::Empty(t)) => if local_is(t.name@, "tcPr"@) {
                tc_run(x, tr, n + 1, o, g, res)
            } else {
                exists|m: CT_Tc| #[trigger] raw_item_added(o, m, empty_raw(t)) && tc_run(x, tr, n + 1, m, g, res)
            },
            Ok(ReadEvent::End(m)) => if local_is(m@, "tc"@) {
                res == (Ok::<CT_Tc, OxmlError>(o), n + 1, g)
            } else {
                tc_run(x, tr, n + 1, o, g, res)
            },
            Ok(ReadEvent::Eof) => res == (Ok::<CT_Tc, OxmlError>(o), n + 1, g),
            Ok(_) => tc_run(x, tr, n + 1, o, g, res),
            Err(e) => res == (Err::<CT_Tc, OxmlError>(e), n + 1, g),
        }
    }
}

/// Reading a cell from call `n` on, from an empty cell, with `f` events
/// left, ends in `res`.
pub open spec fn tc_read(x: Seq<u8>, tr: bool, n: nat, f: nat, res: ReadOutcome<CT_Tc>) -> bool
    decreases f, 1nat,
{
    exists|o: CT_Tc| #[trigger] tc_blank(o) && tc_run(x, tr, n, o, f, res)
}

/// Reading the inside of a row from call `n` on, over what `o` holds and
/// with `f` events left (shared with its cells), ends in `res`: row
/// properties are read by their reader and replace any before; a cell is
/// read with the events left (`tc_read`) and added; any other element is
/// kept verbatim; empty tags are passed over; the end tag `tr`, the end of
/// input or the last event allowed ends the reading.
pub open spec fn row_run(x: Seq<u8>, tr: bool, n: nat, o: CT_Row, f: nat, res: ReadOutcome<CT_Row>) -> bool
    decreases f, 0nat,
{
    if f == 0 {
        res == (Ok::<CT_Row, OxmlError>(o), n, 0nat)
    } else {
        let g = (f - 1) as nat;
        match xml_event(x, tr, n) {
            Ok(ReadEvent::Start(t)) => if local_is(t.name@, "trPr"@) {
                exists|h: ReadOutcome<CT_TrPr>|
                    #[trigger] tr_pr_run(x, tr, n + 1, budget_for(xml_unread(x, tr, n + 1)), h) && match h.0 {
                        Ok(p) => row_run(x, tr, h.1, CT_Row { properties: Some(p), ..o }, g, res),
                        Err(e) => res == (Err::<CT_Row, OxmlError>(e), h.1, g),
                    }
            } else if local_is(t.name@, "tc"@) {
                exists|h: ReadOutcome<CT_Tc>|
                    #[trigger] nested_outcome(h) && tc_read(x, tr, n + 1, g, h) && if h.2 <= g {
                        match h.0 {
                            Ok(_) => exists|m: CT_Row| #[trigger] cell_added(o, m, ok_value(h.0)) && row_run(x, tr, h.1, m, h.2, res),
                            Err(e) => res == (Err::<CT_Row, OxmlError>(e), h.1, h.2),
                        }
                    } else {
                        false
                    }
            } else {
                match captured(x, tr, n + 1, t).0 {
                    Ok(_) => exists|m: CT_Row|
                        #[trigger] row_raw_added(o, m, captured_bytes(x, tr, n + 1, t)) && row_run(x, tr, captured_at(x, tr, n + 1, t), m, g, res),
                    Err(e) => res == (Err::<CT_Row, OxmlError>(e), captured_at(x, tr, n + 1, t), g),
                }
            },
            Ok(ReadEvent::End(m)) => if local_is(m@, "tr"@) {
                res == (Ok::<CT_Row, OxmlError>(o), n + 1, g)
            } else {
                row_run(x, tr, n + 1, o, g, res)
            },
            Ok(ReadEvent::Eof) => res == (Ok::<CT_Row, OxmlError>(o), n + 1, g),
            Ok(_) => row_run(x, tr, n + 1, o, g, res),
            Err(e) => res == (Err::<CT_Row, OxmlError>(e), n + 1, g),
        }
    }
}

/// Reading a row from call `n` on, from an empty row, with `f` events
/// left, ends in `res`.
pub open spec fn row_read(x: Seq<u8>, tr: bool, n: nat, f: nat, res: ReadOutcome<CT_Row>) -> bool
    decreases f, 1nat,
{
    exists|o: CT_Row| #[trigger] row_blank(o) && row_run(x, tr, n, o, f, res)
}

/// Reading the inside of a table from call `n` on, over what `o` holds and
/// with `f` events left (shared with its rows), ends in `res`: table
/// properties and grid are read by their readers and replace any before; a
/// row is read with the events left (`row_read`) and added; any other
/// element, and any empty tag but `tbl`, is kept verbatim; the end tag
/// `tbl`, the end of input or the last event allowed ends the reading.
pub open spec fn tbl_run(x: Seq<u8>, tr: bool, n: nat, o: CT_Tbl, f: nat, res: ReadOutcome<CT_Tbl>) -> bool
    decreases f, 0nat,
{
    if f == 0 {
        res == (Ok::<CT_Tbl, OxmlError>(o), n, 0nat)
    } else {
        let g = (f - 1) as nat;
        match xml_event(x, tr, n) {
            Ok(ReadEvent::Start(t)) => if local_is(t.name@, "tblPr"@) {
                exists|h: ReadOutcome<CT_TblPr>|
                    #[trigger] tbl_pr_run(x, tr, n + 1, budget_for(xml_unread(x, tr, n + 1)), h) && match h.0 {
                        Ok(p) => tbl_run(x, tr, h.1, CT_Tbl { properties: Some(p), ..o }, g, res),
                        Err(e) => res == (Err::<CT_Tbl, OxmlError>(e), h.1, g),
                    }
            } else if local_is(t.name@, "tblGrid"@) {
                exists|rg: Result<CT_TblGrid, OxmlError>, q: nat, f2: nat|
                    #[trigger] grid_run(x, tr, n + 1, budget_for(xml_unread(x, tr, n + 1)), (grid_res(rg), q, f2)) && match rg {
                        Ok(gd) => tbl_run(x, tr, q, CT_Tbl { grid: Some(gd), ..o }, g, res),
                        Err(e) => res == (Err::<CT_Tbl, OxmlError>(e), q, g),
                    }
            } else if local_is(t.name@, "tr"@) {
                exists|h: ReadOutcome<CT_Row>|
                    #[trigger] nested_outcome(h) && row_read(x, tr, n + 1, g, h) && if h.2 <= g {
                        match h.0 {
                            Ok(_) => exists|m: CT_Tbl| #[trigger] row_added(o, m, ok_value(h.0)) && tbl_run(x, tr, h.1, m, h.2, res),
                            Err(e) => res == (Err::<CT_Tbl, OxmlError>(e), h.1, h.2),
                        }
                    } else {
                        false
                    }
            } else {
                match captured(x, tr, n + 1, t).0 {
                    Ok(_) => exists|m: CT_Tbl|
                        #[trigger] tbl_raw_added(o, m, captured_bytes(x, tr, n + 1, t)) && tbl_run(x, tr, captured_at(x, tr, n + 1, t), m, g, res),
                    Err(e) => res == (Err::<CT_Tbl, OxmlError>(e), captured_at(x, tr, n + 1, t), g),
                }
            },
            Ok(ReadEvent::Empty(t)) => if local_is(t.name@, "tbl"@) {
                tbl_run(x, tr, n + 1, o, g, res)
            } else {
                exists|m: CT_Tbl| #[trigger] tbl_raw_added(o, m, empty_raw(t)) && tbl_run(x, tr, n + 1, m, g, res)
            },
            Ok(ReadEvent::End(m)) => if local_is(m@, "tbl"@) {
                res == (Ok::<CT_Tbl, OxmlError>(o), n + 1, g)
            } else {
                tbl_run(x, tr, n + 1, o, g, res)
            },
            Ok(ReadEvent::Eof) => res == (Ok::<CT_Tbl, OxmlError>(o), n + 1, g),
            Ok(_) => tbl_run(x, tr, n + 1, o, g, res),
            Err(e) => res == (Err::<CT_Tbl, OxmlError>(e), n + 1, g),
        }
    }
}

/// Reading a table from call `n` on, from an empty table, with `f` events
/// left, ends in `res`.
pub open spec fn tbl_read(x: Seq<u8>, tr: bool, n: nat, f: nat, res: ReadOutcome<CT_Tbl>) -> bool
    decreases f, 1nat,
{
    exists|o: CT_Tbl| #[trigger] tbl_blank(o) && tbl_run(x, tr, n, o, f, res)
}

impl CT_Tc {
    /// Read a cell from the events after `<w:tc>` up to its end (or the end
    /// of input): its properties, paragraphs and nested tables; any other
    /// element, and any empty tag but `tcPr`, kept verbatim; as `tc_read`
    /// says.
    pub fn from_xml(reader: &mut XmlReader) -> (r: Result<Self, OxmlError>)
        ensures
            final(reader).same_input(old(reader)),
            exists|f: nat|
                #[trigger] tc_read(old(reader).input(), old(reader).trims(), old(reader).count(), budget_left(old(reader)),
                    (r, final(reader).count(), f)),
    {
        let budget = event_budget(unread_len(reader));
        let (r, left) = Self::read_from(reader, budget);
        proof {
            assert(tc_read(old(reader).input(), old(reader).trims(), old(reader).count(), budget_left(old(reader)),
                (r, reader.count(), left as nat)));
        }
        r
    }

    /// Read a cell, reading at most `budget` events (nested tables
    /// included); the events left come back.
    pub fn read_from(reader: &mut XmlReader, budget: u64) -> (r: (Result<Self, OxmlError>, u64))
        ensures
            r.1 <= budget,
            final(reader).same_input(old(reader)),
            tc_read(old(reader).input(), old(reader).trims(), old(reader).count(), budget as nat,
                (r.0, final(reader).count(), r.1 as nat)),
        decreases budget, 0nat,
    {
        let ghost x = reader.input();
        let ghost tr = reader.trims();
        let ghost n0 = reader.count();
        let mut cell = CT_Tc { properties: None, content: Vec::new() };
        let ghost o0 = cell;
        let mut fuel = budget;
        while fuel > 0
            invariant
                fuel <= budget,
                reader.input() == x,
                reader.trims() == tr,
                x == old(reader).input(),
                tr == old(reader).trims(),
                n0 == old(reader).count(),
                tc_blank(o0),
                forall|res: ReadOutcome<CT_Tc>|
                    #[trigger] tc_run(x, tr, reader.count(), cell, fuel as nat, res) ==> tc_run(x, tr, n0, o0, budget as nat, res),
            decreases fuel,
        {
            let ghost n = reader.count();
            let ghost o = cell;
            let ghost f1 = fuel as nat;
            fuel = fuel - 1;
            match read_event(reader) {
                Ok(ReadEvent::Start(t)) => {
                    let nm = t.name.as_str();
                    if name_is(nm, "tcPr") {
                        match CT_TcPr::from_xml(reader) {
                            Ok(v) => {
                                cell.properties = Some(v);
                                proof {
                                    assert forall|res: ReadOutcome<CT_Tc>|
                                        #[trigger] tc_run(x, tr, reader.count(), cell, fuel as nat, res)
                                        implies tc_run(x, tr, n, o, f1, res) by {
                                        
                                    }
                                }
                            },
                            Err(e) => {
                                proof {
                                    let res = (Err::<CT_Tc, OxmlError>(e), reader.count(), fuel as nat);
                                    assert(tc_run(x, tr, n, o, f1, res));
                                    assert(tc_run(x, tr, n0, o0, budget as nat, res));
                                    assert(tc_read(x, tr, n0, budget as nat, res));
                                }
                                return (Err::<CT_Tc, OxmlError>(e), fuel);
                            },
                        }
                    } else if name_is(nm, "p") {
                        match CT_P::from_xml(reader) {
                            Ok(v) => {
                                let ghost gv = v;
                                cell.content.push(CellContent::Paragraph(v));
                                proof {
                                    assert forall|res: ReadOutcome<CT_Tc>|
                                        #[trigger] tc_run(x, tr, reader.count(), cell, fuel as nat, res)
                                        implies tc_run(x, tr, n, o, f1, res) by {
                                        assert(item_added(o, cell, CellContent::Paragraph(gv)));
                                    }
                                }
                            },
                            Err(e) => {
                                proof {
                                    let res = (Err::<CT_Tc, OxmlError>(e), reader.count(), fuel as nat);
                                    assert(tc_run(x, tr, n, o, f1, res));
                                    assert(tc_run(x, tr, n0, o0, budget as nat, res));
                                    assert(tc_read(x, tr, n0, budget as nat, res));
                                }
                                return (Err::<CT_Tc, OxmlError>(e), fuel);
                            },
                        }
                    } else if name_is(nm, "tbl") {
                        let ghost fb = fuel as nat;
                        let (res, left) = CT_Tbl::read_from(reader, fuel);
                        fuel = left;
                        let ghost gres = res;
                        proof {
                            assert(tbl_read(x, tr, n + 1, (f1 - 1) as nat, (gres, reader.count(), fuel as nat)));
                            assert(nested_outcome((gres, reader.count(), fuel as nat)));
                        }
                        match res {
                            Ok(v) => {
                                let ghost gv = v;
                                proof { assert(ok_value(gres) == gv); }
                                cell.content.push(CellContent::Table(v));
                                proof {
                                    assert forall|res: ReadOutcome<CT_Tc>|
                                        #[trigger] tc_run(x, tr, reader.count(), cell, fuel as nat, res)
                                        implies tc_run(x, tr, n, o, f1, res) by {
                                        assert(item_added(o, cell, CellContent::Table(gv)));
                                    }
                                }
                            },
                            Err(e) => {
                                proof {
                                    let res = (Err::<CT_Tc, OxmlError>(e), reader.count(), fuel as nat);
                                    assert(tc_run(x, tr, n, o, f1, res));
                                    assert(tc_run(x, tr, n0, o0, budget as nat, res));
                                    assert(tc_read(x, tr, n0, budget as nat, res));
                                }
                                return (Err::<CT_Tc, OxmlError>(e), fuel);
                            },
                        }
                    } else {
                        match capture_element(reader, &t) {
                            Ok(raw) => {
                                let ghost bb = raw@;
                                proof { assert(captured(x, tr, n + 1, t) == (Ok::<Seq<u8>, OxmlError>(bb), reader.count())); assert(captured_bytes(x, tr, n + 1, t) == bb); assert(captured_at(x, tr, n + 1, t) == reader.count()); }
                                cell.content.push(CellContent::RawXml(raw));
                                proof { assert(cell.content@.drop_last() =~= o.content@); }
                                proof {
                                    assert forall|res: ReadOutcome<CT_Tc>|
                                        #[trigger] tc_run(x, tr, reader.count(), cell, fuel as nat, res)
                                        implies tc_run(x, tr, n, o, f1, res) by {
                                        assert(raw_item_added(o, cell, bb));
                                    }
                                }
                            },
                            Err(e) => {
                                proof {
                                    let res = (Err::<CT_Tc, OxmlError>(e), reader.count(), fuel as nat);
                                    assert(tc_run(x, tr, n, o, f1, res));
                                    assert(tc_run(x, tr, n0, o0, budget as nat, res));
                                    assert(tc_read(x, tr, n0, budget as nat, res));
                                }
                                return (Err::<CT_Tc, OxmlError>(e), fuel);
                            },
                        }
                    }
                },
                Ok(ReadEvent::Empty(t)) => {
                    if !name_is(t.name.as_str(), "tcPr") {
                        let ghost bb = empty_raw(t);
                        cell.content.push(CellContent::RawXml(capture_empty_element(&t)));
                        proof { assert(cell.content@.drop_last() =~= o.content@); }
                        proof {
                            assert forall|res: ReadOutcome<CT_Tc>|
                                #[trigger] tc_run(x, tr, reader.count(), cell, fuel as nat, res)
                                implies tc_run(x, tr, n, o, f1, res) by {
                                assert(raw_item_added(o, cell, bb));
                            }
                        }
                    } else {
                        proof {
                            assert forall|res: ReadOutcome<CT_Tc>|
                                #[trigger] tc_run(x, tr, reader.count(), cell, fuel as nat, res)
                                implies tc_run(x, tr, n, o, f1, res) by {
                                
                            }
                        }
                    }
                },
                Ok(ReadEvent::End(nm)) => {
                    if name_is(nm.as_str(), "tc") {
                        proof {
                            let res = (Ok::<CT_Tc, OxmlError>(cell), reader.count(), fuel as nat);
                            assert(tc_run(x, tr, n, o, f1, res));
                            assert(tc_run(x, tr, n0, o0, budget as nat, res));
                            assert(tc_read(x, tr, n0, budget as nat, res));
                        }
                        return (Ok::<CT_Tc, OxmlError>(cell), fuel);
                    }
                    proof {
                        assert forall|res: ReadOutcome<CT_Tc>|
                            #[trigger] tc_run(x, tr, reader.count(), cell, fuel as nat, res)
                            implies tc_run(x, tr, n, o, f1, res) by {
                            
                        }
                    }
                },
                Ok(ReadEvent::Eof) => {
                    proof {
                        let res = (Ok::<CT_Tc, OxmlError>(cell), reader.count(), fuel as nat);
                        assert(tc_run(x, tr, n, o, f1, res));
                        assert(tc_run(x, tr, n0, o0, budget as nat, res));
                        assert(tc_read(x, tr, n0, budget as nat, res));
                    }
                    return (Ok::<CT_Tc, OxmlError>(cell), fuel);
                },
                Ok(_) => {
                    proof {
                        assert forall|res: ReadOutcome<CT_Tc>|
                            #[trigger] tc_run(x, tr, reader.count(), cell, fuel as nat, res)
                            implies tc_run(x, tr, n, o, f1, res) by {
                            
                        }
                    }
                },
                Err(e) => {
                    proof {
                        let res = (Err::<CT_Tc, OxmlError>(e), reader.count(), fuel as nat);
                        assert(tc_run(x, tr, n, o, f1, res));
                        assert(tc_run(x, tr, n0, o0, budget as nat, res));
                        assert(tc_read(x, tr, n0, budget as nat, res));
                    }
                    return (Err::<CT_Tc, OxmlError>(e), fuel);
                },
            }
        }
        proof {
            let res = (Ok::<CT_Tc, OxmlError>(cell), reader.count(), 0nat);
            assert(tc_run(x, tr, reader.count(), cell, 0nat, res));
            assert(tc_read(x, tr, n0, budget as nat, res));
        }
        (Ok::<CT_Tc, OxmlError>(cell), fuel)
    }
}

impl CT_Row {
    /// Read a row from the events after `<w:tr>` up to its end (or the end
    /// of input): its properties and cells; any other element kept
    /// verbatim (empty tags are passed over); as `row_read` says.
    pub fn from_xml(reader: &mut XmlReader) -> (r: Result<Self, OxmlError>)
        ensures
            final(reader).same_input(old(reader)),
            exists|f: nat|
                #[trigger] row_read(old(reader).input(), old(reader).trims(), old(reader).count(), budget_left(old(reader)),
                    (r, final(reader).count(), f)),
    {
        let budget = event_budget(unread_len(reader));
        let (r, left) = Self::read_from(reader, budget);
        proof {
            assert(row_read(old(reader).input(), old(reader).trims(), old(reader).count(), budget_left(old(reader)),
                (r, reader.count(), left as nat)));
        }
        r
    }

    /// Read a row, reading at most `budget` events (its cells included);
    /// the events left come back.
    pub fn read_from(reader: &mut XmlReader, budget: u64) -> (r: (Result<Self, OxmlError>, u64))
        ensures
            r.1 <= budget,
            final(reader).same_input(old(reader)),
            row_read(old(reader).input(), old(reader).trims(), old(reader).count(), budget as nat,
                (r.0, final(reader).count(), r.1 as nat)),
        decreases budget, 0nat,
    {
        let ghost x = reader.input();
        let ghost tr = reader.trims();
        let ghost n0 = reader.count();
        let mut row = CT_Row { properties: None, cells: Vec::new(), extra_xml: Vec::new() };
        let ghost o0 = row;
        let mut fuel = budget;
        while fuel > 0
            invariant
                fuel <= budget,
                reader.input() == x,
                reader.trims() == tr,
                x == old(reader).input(),
                tr == old(reader).trims(),
                n0 == old(reader).count(),
                row_blank(o0),
                forall|res: ReadOutcome<CT_Row>|
                    #[trigger] row_run(x, tr, reader.count(), row, fuel as nat, res) ==> row_run(x, tr, n0, o0, budget as nat, res),
            decreases fuel,
        {
            let ghost n = reader.count();
            let ghost o = row;
            let ghost f1 = fuel as nat;
            fuel = fuel - 1;
            match read_event(reader) {
                Ok(ReadEvent::Start(t)) => {
                    let nm = t.name.as_str();
                    if name_is(nm, "trPr") {
                        match CT_TrPr::from_xml(reader) {
                            Ok(v) => {
                                row.properties = Some(v);
                                proof {
                                    assert forall|res: ReadOutcome<CT_Row>|
                                        #[trigger] row_run(x, tr, reader.count(), row, fuel as nat, res)
                                        implies row_run(x, tr, n, o, f1, res) by {
                                        
                                    }
                                }
                            },
                            Err(e) => {
                                proof {
                                    let res = (Err::<CT_Row, OxmlError>(e), reader.count(), fuel as nat);
                                    assert(row_run(x, tr, n, o, f1, res));
                                    assert(row_run(x, tr, n0, o0, budget as nat, res));
                                    assert(row_read(x, tr, n0, budget as nat, res));
                                }
                                return (Err::<CT_Row, OxmlError>(e), fuel);
                            },
                        }
                    } else if name_is(nm, "tc") {
                        let ghost fb = fuel as nat;
                        let (res, left) = CT_Tc::read_from(reader, fuel);
                        fuel = left;
                        let ghost gres = res;
                        proof {
                            assert(tc_read(x, tr, n + 1, (f1 - 1) as nat, (gres, reader.count(), fuel as nat)));
                            assert(nested_outcome((gres, reader.count(), fuel as nat)));
                        }
                        match res {
                            Ok(v) => {
                                let ghost gv = v;
                                proof { assert(ok_value(gres) == gv); }
                                row.cells.push(v);
                                proof {
                                    assert forall|res: ReadOutcome<CT_Row>|
                                        #[trigger] row_run(x, tr, reader.count(), row, fuel as nat, res)
                                        implies row_run(x, tr, n, o, f1, res) by {
                                        assert(cell_added(o, row, gv));
                                    }
                                }
                            },
                            Err(e) => {
                                proof {
                                    let res = (Err::<CT_Row, OxmlError>(e), reader.count(), fuel as nat);
                                    assert(row_run(x, tr, n, o, f1, res));
                                    assert(row_run(x, tr, n0, o0, budget as nat, res));
                                    assert(row_read(x, tr, n0, budget as nat, res));
                                }
                                return (Err::<CT_Row, OxmlError>(e), fuel);
                            },
                        }
                    } else {
                        match capture_element(reader, &t) {
                            Ok(raw) => {
                                let ghost bb = raw@;
                                proof { assert(captured(x, tr, n + 1, t) == (Ok::<Seq<u8>, OxmlError>(bb), reader.count())); assert(captured_bytes(x, tr, n + 1, t) == bb); assert(captured_at(x, tr, n + 1, t) == reader.count()); }
                                row.extra_xml.push(raw);
                                proof { assert(row.extra_xml@.drop_last() =~= o.extra_xml@); }
                                proof {
                                    assert forall|res: ReadOutcome<CT_Row>|
                                        #[trigger] row_run(x, tr, reader.count(), row, fuel as nat, res)
                                        implies row_run(x, tr, n, o, f1, res) by {
                                        assert(row_raw_added(o, row, bb));
                                    }
                                }
                            },
                            Err(e) => {
                                proof {
                                    let res = (Err::<CT_Row, OxmlError>(e), reader.count(), fuel as nat);
                                    assert(row_run(x, tr, n, o, f1, res));
                                    assert(row_run(x, tr, n0, o0, budget as nat, res));
                                    assert(row_read(x, tr, n0, budget as nat, res));
                                }
                                return (Err::<CT_Row, OxmlError>(e), fuel);
                            },
                        }
                    }
                },
                Ok(ReadEvent::End(nm)) => {
                    if name_is(nm.as_str(), "tr") {
                        proof {
                            let res = (Ok::<CT_Row, OxmlError>(row), reader.count(), fuel as nat);
                            assert(row_run(x, tr, n, o, f1, res));
                            assert(row_run(x, tr, n0, o0, budget as nat, res));
                            assert(row_read(x, tr, n0, budget as nat, res));
                        }
                        return (Ok::<CT_Row, OxmlError>(row), fuel);
                    }
                    proof {
                        assert forall|res: ReadOutcome<CT_Row>|
                            #[trigger] row_run(x, tr, reader.count(), row, fuel as nat, res)
                            implies row_run(x, tr, n, o, f1, res) by {
                            
                        }
                    }
                },
                Ok(ReadEvent::Eof) => {
                    proof {
                        let res = (Ok::<CT_Row, OxmlError>(row), reader.count(), fuel as nat);
                        assert(row_run(x, tr, n, o, f1, res));
                        assert(row_run(x, tr, n0, o0, budget as nat, res));
                        assert(row_read(x, tr, n0, budget as nat, res));
                    }
                    return (Ok::<CT_Row, OxmlError>(row), fuel);
                },
                Ok(_) => {
                    proof {
                        assert forall|res: ReadOutcome<CT_Row>|
                            #[trigger] row_run(x, tr, reader.count(), row, fuel as nat, res)
                            implies row_run(x, tr, n, o, f1, res) by {
                            
                        }
                    }
                },
                Err(e) => {
                    proof {
                        let res = (Err::<CT_Row, OxmlError>(e), reader.count(), fuel as nat);
                        assert(row_run(x, tr, n, o, f1, res));
                        assert(row_run(x, tr, n0, o0, budget as nat, res));
                        assert(row_read(x, tr, n0, budget as nat, res));
                    }
                    return (Err::<CT_Row, OxmlError>(e), fuel);
                },
            }
        }
        proof {
            let res = (Ok::<CT_Row, OxmlError>(row), reader.count(), 0nat);
            assert(row_run(x, tr, reader.count(), row, 0nat, res));
            assert(row_read(x, tr, n0, budget as nat, res));
        }
        (Ok::<CT_Row, OxmlError>(row), fuel)
    }
}

impl CT_Tbl {
    /// Read a table from the events after `<w:tbl>` up to its end (or the
    /// end of input): its properties, grid and rows; any other element,
    /// and any empty tag but `tbl`, kept verbatim; as `tbl_read` says.
    pub fn from_xml(reader: &mut XmlReader) -> (r: Result<Self, OxmlError>)
        ensures
            final(reader).same_input(old(reader)),
            exists|f: nat|
                #[trigger] tbl_read(old(reader).input(), old(reader).trims(), old(reader).count(), budget_left(old(reader)),
                    (r, final(reader).count(), f)),
    {
        let budget = event_budget(unread_len(reader));
        let (r, left) = Self::read_from(reader, budget);
        proof {
            assert(tbl_read(old(reader).input(), old(reader).trims(), old(reader).count(), budget_left(old(reader)),
                (r, reader.count(), left as nat)));
        }
        r
    }

    /// Read a table, reading at most `budget` events (its rows included);
    /// the events left come back.
    pub fn read_from(reader: &mut XmlReader, budget: u64) -> (r: (Result<Self, OxmlError>, u64))
        ensures
            r.1 <= budget,
            final(reader).same_input(old(reader)),
            tbl_read(old(reader).input(), old(reader).trims(), old(reader).count(), budget as nat,
                (r.0, final(reader).count(), r.1 as nat)),
        decreases budget, 0nat,
    {
        let ghost x = reader.input();
        let ghost tr = reader.trims();
        let ghost n0 = reader.count();
        let mut tbl = CT_Tbl { properties: None, grid: None, rows: Vec::new(), extra_xml: Vec::new() };
        let ghost o0 = tbl;
        let mut fuel = budget;
        while fuel > 0
            invariant
                fuel <= budget,
                reader.input() == x,
                reader.trims() == tr,
                x == old(reader).input(),
                tr == old(reader).trims(),
                n0 == old(reader).count(),
                tbl_blank(o0),
                forall|res: ReadOutcome<CT_Tbl>|
                    #[trigger] tbl_run(x, tr, reader.count(), tbl, fuel as nat, res) ==> tbl_run(x, tr, n0, o0, budget as nat, res),
            decreases fuel,
        {
            let ghost n = reader.count();
            let ghost o = tbl;
            let ghost f1 = fuel as nat;
            fuel = fuel - 1;
            match read_event(reader) {
                Ok(ReadEvent::Start(t)) => {
                    let nm = t.name.as_str();
                    if name_is(nm, "tblPr") {
                        match CT_TblPr::from_xml(reader) {
                            Ok(v) => {
                                tbl.properties = Some(v);
                                proof {
                                    assert forall|res: ReadOutcome<CT_Tbl>|
                                        #[trigger] tbl_run(x, tr, reader.count(), tbl, fuel as nat, res)
                                        implies tbl_run(x, tr, n, o, f1, res) by {
                                        
                                    }
                                }
                            },
                            Err(e) => {
                                proof {
                                    let res = (Err::<CT_Tbl, OxmlError>(e), reader.count(), fuel as nat);
                                    assert(tbl_run(x, tr, n, o, f1, res));
                                    assert(tbl_run(x, tr, n0, o0, budget as nat, res));
                                    assert(tbl_read(x, tr, n0, budget as nat, res));
                                }
                                return (Err::<CT_Tbl, OxmlError>(e), fuel);
                            },
                        }
                    } else if name_is(nm, "tblGrid") {
                        match CT_TblGrid::from_xml(reader) {
                            Ok(v) => {
                                tbl.grid = Some(v);
                                proof {
                                    assert forall|res: ReadOutcome<CT_Tbl>|
                                        #[trigger] tbl_run(x, tr, reader.count(), tbl, fuel as nat, res)
                                        implies tbl_run(x, tr, n, o, f1, res) by {
                                        
                                    }
                                }
                            },
                            Err(e) => {
                                proof {
                                    let res = (Err::<CT_Tbl, OxmlError>(e), reader.count(), fuel as nat);
                                    assert(tbl_run(x, tr, n, o, f1, res));
                                    assert(tbl_run(x, tr, n0, o0, budget as nat, res));
                                    assert(tbl_read(x, tr, n0, budget as nat, res));
                                }
                                return (Err::<CT_Tbl, OxmlError>(e), fuel);
                            },
                        }
                    } else if name_is(nm, "tr") {
                        let ghost fb = fuel as nat;
                        let (res, left) = CT_Row::read_from(reader, fuel);
                        fuel = left;
                        let ghost gres = res;
                        proof {
                            assert(row_read(x, tr, n + 1, (f1 - 1) as nat, (gres, reader.count(), fuel as nat)));
                            assert(nested_outcome((gres, reader.count(), fuel as nat)));
                        }
                        match res {
                            Ok(v) => {
                                let ghost gv = v;
                                proof { assert(ok_value(gres) == gv); }
                                tbl.rows.push(v);
                                proof {
                                    assert forall|res: ReadOutcome<CT_Tbl>|
                                        #[trigger] tbl_run(x, tr, reader.count(), tbl, fuel as nat, res)
                                        implies tbl_run(x, tr, n, o, f1, res) by {
                                        assert(row_added(o, tbl, gv));
                                    }
                                }
                            },
                            Err(e) => {
                                proof {
                                    let res = (Err::<CT_Tbl, OxmlError>(e), reader.count(), fuel as nat);
                                    assert(tbl_run(x, tr, n, o, f1, res));
                                    assert(tbl_run(x, tr, n0, o0, budget as nat, res));
                                    assert(tbl_read(x, tr, n0, budget as nat, res));
                                }
                                return (Err::<CT_Tbl, OxmlError>(e), fuel);
                            },
                        }
                    } else {
                        match capture_element(reader, &t) {
                            Ok(raw) => {
                                let ghost bb = raw@;
                                proof { assert(captured(x, tr, n + 1, t) == (Ok::<Seq<u8>, OxmlError>(bb), reader.count())); assert(captured_bytes(x, tr, n + 1, t) == bb); assert(captured_at(x, tr, n + 1, t) == reader.count()); }
                                tbl.extra_xml.push(raw);
                                proof { assert(tbl.extra_xml@.drop_last() =~= o.extra_xml@); }
                                proof {
                                    assert forall|res: ReadOutcome<CT_Tbl>|
                                        #[trigger] tbl_run(x, tr, reader.count(), tbl, fuel as nat, res)
                                        implies tbl_run(x, tr, n, o, f1, res) by {
                                        assert(tbl_raw_added(o, tbl, bb));
                                    }
                                }
                            },
                            Err(e) => {
                                proof {
                                    let res = (Err::<CT_Tbl, OxmlError>(e), reader.count(), fuel as nat);
                                    assert(tbl_run(x, tr, n, o, f1, res));
                                    assert(tbl_run(x, tr, n0, o0, budget as nat, res));
                                    assert(tbl_read(x, tr, n0, budget as nat, res));
                                }
                                return (Err::<CT_Tbl, OxmlError>(e), fuel);
                            },
                        }
                    }
                },
                Ok(ReadEvent::Empty(t)) => {
                    if !name_is(t.name.as_str(), "tbl") {
                        let ghost bb = empty_raw(t);
                        tbl.extra_xml.push(capture_empty_element(&t));
                        proof { assert(tbl.extra_xml@.drop_last() =~= o.extra_xml@); }
                        proof {
                            assert forall|res: ReadOutcome<CT_Tbl>|
                                #[trigger] tbl_run(x, tr, reader.count(), tbl, fuel as nat, res)
                                implies tbl_run(x, tr, n, o, f1, res) by {
                                assert(tbl_raw_added(o, tbl, bb));
                            }
                        }
                    } else {
                        proof {
                            assert forall|res: ReadOutcome<CT_Tbl>|
                                #[trigger] tbl_run(x, tr, reader.count(), tbl, fuel as nat, res)
                                implies tbl_run(x, tr, n, o, f1, res) by {
                                
                            }
                        }
                    }
                },
                Ok(ReadEvent::End(nm)) => {
                    if name_is(nm.as_str(), "tbl") {
                        proof {
                            let res = (Ok::<CT_Tbl, OxmlError>(tbl), reader.count(), fuel as nat);
                            assert(tbl_run(x, tr, n, o, f1, res));
                            assert(tbl_run(x, tr, n0, o0, budget as nat, res));
                            assert(tbl_read(x, tr, n0, budget as nat, res));
                        }
                        return (Ok::<CT_Tbl, OxmlError>(tbl), fuel);
                    }
                    proof {
                        assert forall|res: ReadOutcome<CT_Tbl>|
                            #[trigger] tbl_run(x, tr, reader.count(), tbl, fuel as nat, res)
                            implies tbl_run(x, tr, n, o, f1, res) by {
                            
                        }
                    }
                },
                Ok(ReadEvent::Eof) => {
                    proof {
                        let res = (Ok::<CT_Tbl, OxmlError>(tbl), reader.count(), fuel as nat);
                        assert(tbl_run(x, tr, n, o, f1, res));
                        assert(tbl_run(x, tr, n0, o0, budget as nat, res));
                        assert(tbl_read(x, tr, n0, budget as nat, res));
                    }
                    return (Ok::<CT_Tbl, OxmlError>(tbl), fuel);
                },
                Ok(_) => {
                    proof {
                        assert forall|res: ReadOutcome<CT_Tbl>|
                            #[trigger] tbl_run(x, tr, reader.count(), tbl, fuel as nat, res)
                            implies tbl_run(x, tr, n, o, f1, res) by {
                            
                        }
                    }
                },
                Err(e) => {
                    proof {
                        let res = (Err::<CT_Tbl, OxmlError>(e), reader.count(), fuel as nat);
                        assert(tbl_run(x, tr, n, o, f1, res));
                        assert(tbl_run(x, tr, n0, o0, budget as nat, res));
                        assert(tbl_read(x, tr, n0, budget as nat, res));
                    }
                    return (Err::<CT_Tbl, OxmlError>(e), fuel);
                },
            }
        }
        proof {
            let res = (Ok::<CT_Tbl, OxmlError>(tbl), reader.count(), 0nat);
            assert(tbl_run(x, tr, reader.count(), tbl, 0nat, res));
            assert(tbl_read(x, tr, n0, budget as nat, res));
        }
        (Ok::<CT_Tbl, OxmlError>(tbl), fuel)
    }
}

} // verus!
