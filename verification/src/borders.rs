//! Border and tab stop types for paragraph formatting.

use vstd::prelude::*;

use crate::chars::clone_opt_string;
use crate::shared::{border_name, tab_jc_name, tab_leader_name, ST_Border, ST_TabJc, ST_TabLeader};
use crate::xml::{
    attr_views, element, emit_element, emit_empty_attrs, empty_tag_attrs, opt_attr, opt_u32_attr, push_attr,
    push_opt_attr, push_opt_u32_attr,
};
use crate::chars::{i32_string, signed_decimal, to_owned_string};
use crate::units::Twips;

verus! {

/// A single border edge (top, bottom, left, right, between).
#[derive(Debug, Clone, PartialEq)]
pub struct CT_BorderEdge {
    /// Border style
    pub val: ST_Border,
    /// Border width in eighths of a point
    pub sz: Option<u32>,
    /// Space between border and content in points
    pub space: Option<u32>,
    /// Border color as hex, e.g. "FF0000"
    pub color: Option<String>,
}

impl CT_BorderEdge {
    /// An edge of the given style with no width, spacing or color.
    pub fn new(val: ST_Border) -> (r: Self)
        ensures
            r == (CT_BorderEdge { val, sz: None, space: None, color: None }),
    {
        CT_BorderEdge { val, sz: None, space: None, color: None }
    }

    /// A copy of this edge.
    pub fn duplicate(&self) -> (r: Self)
        ensures
            r == *self,
    {
        CT_BorderEdge {
            val: self.val,
            sz: self.sz,
            space: self.space,
            color: clone_opt_string(&self.color),
        }
    }
}

/// A copy of an optional border edge.
pub fn clone_opt_edge(e: &Option<CT_BorderEdge>) -> (r: Option<CT_BorderEdge>)
    ensures
        r == *e,
{
    match e {
        Some(x) => Some(x.duplicate()),
        None => None,
    }
}

/// `CT_PBdr` — Paragraph borders (top, bottom, left, right, between, bar).
#[derive(Debug, Clone, PartialEq)]
pub struct CT_PBdr {
    pub top: Option<CT_BorderEdge>,
    pub bottom: Option<CT_BorderEdge>,
    pub left: Option<CT_BorderEdge>,
    pub right: Option<CT_BorderEdge>,
    pub between: Option<CT_BorderEdge>,
    pub bar: Option<CT_BorderEdge>,
}

impl Default for CT_PBdr {
    fn default() -> (r: Self)
        ensures
            r.top is None && r.bottom is None && r.left is None && r.right is None
                && r.between is None && r.bar is None,
    {
        CT_PBdr { top: None, bottom: None, left: None, right: None, between: None, bar: None }
    }
}

impl CT_PBdr {
    /// Whether no edge is set.
    pub fn is_empty(&self) -> (r: bool)
        ensures
            r == (self.top is None && self.bottom is None && self.left is None
                && self.right is None && self.between is None && self.bar is None),
    {
        self.top.is_none() && self.bottom.is_none() && self.left.is_none()
            && self.right.is_none() && self.between.is_none() && self.bar.is_none()
    }

    /// A copy of these borders.
    pub fn duplicate(&self) -> (r: Self)
        ensures
            r == *self,
    {
        CT_PBdr {
            top: clone_opt_edge(&self.top),
            bottom: clone_opt_edge(&self.bottom),
            left: clone_opt_edge(&self.left),
            right: clone_opt_edge(&self.right),
            between: clone_opt_edge(&self.between),
            bar: clone_opt_edge(&self.bar),
        }
    }
}

/// A single tab stop definition.
#[derive(Debug, Clone, Copy, PartialEq)]
pub struct CT_TabStop {
    /// Tab stop alignment
    pub val: ST_TabJc,
    /// Position in twips
    pub pos: Twips,
    /// Leader character
    pub leader: Option<ST_TabLeader>,
}

impl CT_TabStop {
    /// A tab stop with no leader.
    pub fn new(val: ST_TabJc, pos: Twips) -> (r: Self)
        ensures
            r == (CT_TabStop { val, pos, leader: None }),
    {
        CT_TabStop { val, pos, leader: None }
    }
}

/// `CT_Tabs` — Collection of tab stop definitions.
#[derive(Debug, Clone, PartialEq)]
pub struct CT_Tabs {
    pub tabs: Vec<CT_TabStop>,
}

impl Default for CT_Tabs {
    fn default() -> (r: Self)
        ensures
            r.tabs@.len() == 0,
    {
        CT_Tabs { tabs: Vec::new() }
    }
}

impl CT_Tabs {
    /// A copy of these tab stops.
    pub fn duplicate(&self) -> (r: Self)
        ensures
            r.tabs@ == self.tabs@,
    {
        let mut v: Vec<CT_TabStop> = Vec::new();
        let mut i: usize = 0;
        while i < self.tabs.len()
            invariant
                i <= self.tabs@.len(),
                v@ == self.tabs@.subrange(0, i as int),
            decreases self.tabs@.len() - i,
        {
            v.push(self.tabs[i]);
            i = i + 1;
            proof { assert(v@ =~= self.tabs@.subrange(0, i as int)); }
        }
        proof { assert(v@ =~= self.tabs@); }
        CT_Tabs { tabs: v }
    }
}

/// The attributes of a border edge: its style, then width, spacing and
/// color where they are set.
pub open spec fn edge_attrs(e: CT_BorderEdge) -> Seq<(Seq<char>, Seq<char>)> {
    seq![("w:val"@, border_name(e.val))] + opt_u32_attr("w:sz"@, e.sz) + opt_u32_attr("w:space"@, e.space)
        + opt_attr("w:color"@, e.color)
}

/// A border edge, if there is one, as an empty element named `tag`.
pub open spec fn opt_edge_xml(tag: Seq<char>, e: Option<CT_BorderEdge>) -> Seq<u8> {
    match e {
        Some(x) => empty_tag_attrs(tag, edge_attrs(x)),
        None => Seq::empty(),
    }
}

/// The XML of paragraph borders: the edges that are set, in the order top,
/// left, bottom, right, between, bar.
pub open spec fn pbdr_xml(b: CT_PBdr) -> Seq<u8> {
    element(
        "w:pBdr"@,
        opt_edge_xml("w:top"@, b.top) + opt_edge_xml("w:left"@, b.left) + opt_edge_xml("w:bottom"@, b.bottom)
            + opt_edge_xml("w:right"@, b.right) + opt_edge_xml("w:between"@, b.between)
            + opt_edge_xml("w:bar"@, b.bar),
    )
}

/// The attributes of a tab stop: alignment, position and, if set, leader.
pub open spec fn tab_attrs(t: CT_TabStop) -> Seq<(Seq<char>, Seq<char>)> {
    seq![("w:val"@, tab_jc_name(t.val)), ("w:pos"@, signed_decimal(t.pos.0 as int))] + match t.leader {
        Some(l) => seq![("w:leader"@, tab_leader_name(l))],
        None => Seq::empty(),
    }
}

/// Tab stops, each as a `w:tab` element.
pub open spec fn tab_stops_xml(s: Seq<CT_TabStop>) -> Seq<u8>
    decreases s.len(),
{
    if s.len() == 0 {
        Seq::empty()
    } else {
        tab_stops_xml(s.drop_last()) + empty_tag_attrs("w:tab"@, tab_attrs(s.last()))
    }
}

/// The XML of a tab-stop list: nothing when it is empty.
pub open spec fn tabs_xml(t: CT_Tabs) -> Seq<u8> {
    if t.tabs@.len() == 0 {
        Seq::empty()
    } else {
        element("w:tabs"@, tab_stops_xml(t.tabs@))
    }
}

impl CT_BorderEdge {
    /// Add this edge's attributes to an attribute list.
    pub fn write_xml_attrs(&self, attrs: &mut Vec<(String, String)>)
        ensures
            attr_views(final(attrs)@) == attr_views(old(attrs)@) + edge_attrs(*self),
    {
        let ghost a0 = attr_views(attrs@);
        push_attr(attrs, "w:val", to_owned_string(self.val.to_str()));
        push_opt_u32_attr(attrs, "w:sz", self.sz);
        push_opt_u32_attr(attrs, "w:space", self.space);
        push_opt_attr(attrs, "w:color", &self.color);
        proof { assert(attr_views(attrs@) =~= a0 + edge_attrs(*self)); }
    }

    /// Append this edge as an empty element named `tag`.
    pub fn to_xml(&self, out: &mut Vec<u8>, tag: &str)
        ensures
            final(out)@ == old(out)@ + empty_tag_attrs(tag@, edge_attrs(*self)),
    {
        let mut attrs: Vec<(String, String)> = Vec::new();
        self.write_xml_attrs(&mut attrs);
        proof { assert(attr_views(attrs@) =~= edge_attrs(*self)); }
        emit_empty_attrs(out, tag, attrs);
    }
}

/// Append a border edge named `tag` if there is one.
fn write_opt_edge(out: &mut Vec<u8>, tag: &str, e: &Option<CT_BorderEdge>)
    ensures
        final(out)@ == old(out)@ + opt_edge_xml(tag@, *e),
{
    match e {
        Some(x) => x.to_xml(out, tag),
        None => {
            proof { assert(out@ =~= old(out)@ + opt_edge_xml(tag@, *e)); }
        },
    }
}

impl CT_PBdr {
    /// Append these borders as a `w:pBdr` element.
    pub fn to_xml(&self, out: &mut Vec<u8>)
        ensures
            final(out)@ == old(out)@ + pbdr_xml(*self),
    {
        let mut body: Vec<u8> = Vec::new();
        write_opt_edge(&mut body, "w:top", &self.top);
        proof { assert(body@ =~= opt_edge_xml("w:top"@, self.top)); }
        write_opt_edge(&mut body, "w:left", &self.left);
        write_opt_edge(&mut body, "w:bottom", &self.bottom);
        write_opt_edge(&mut body, "w:right", &self.right);
        write_opt_edge(&mut body, "w:between", &self.between);
        write_opt_edge(&mut body, "w:bar", &self.bar);
        emit_element(out, "w:pBdr", &body);
    }
}

impl CT_TabStop {
    /// Append this tab stop as a `w:tab` element.
    pub fn to_xml(&self, out: &mut Vec<u8>)
        ensures
            final(out)@ == old(out)@ + empty_tag_attrs("w:tab"@, tab_attrs(*self)),
    {
        let mut attrs: Vec<(String, String)> = Vec::new();
        push_attr(&mut attrs, "w:val", to_owned_string(self.val.to_str()));
        push_attr(&mut attrs, "w:pos", i32_string(self.pos.0));
        match self.leader {
            Some(l) => push_attr(&mut attrs, "w:leader", to_owned_string(l.to_str())),
            None => {},
        }
        proof { assert(attr_views(attrs@) =~= tab_attrs(*self)); }
        emit_empty_attrs(out, "w:tab", attrs);
    }
}

impl CT_Tabs {
    /// Append these tab stops as a `w:tabs` element; nothing when there are
    /// none.
    pub fn to_xml(&self, out: &mut Vec<u8>)
        ensures
            final(out)@ == old(out)@ + tabs_xml(*self),
    {
        if self.tabs.len() == 0 {
            proof { assert(out@ =~= old(out)@ + tabs_xml(*self)); }
            return;
        }
        let mut body: Vec<u8> = Vec::new();
        let mut i: usize = 0;
        proof { assert(self.tabs@.take(0) =~= Seq::<CT_TabStop>::empty()); }
        while i < self.tabs.len()
            invariant
                i <= self.tabs@.len(),
                body@ == tab_stops_xml(self.tabs@.take(i as int)),
            decreases self.tabs@.len() - i,
        {
            self.tabs[i].to_xml(&mut body);
            proof {
                assert(self.tabs@.take(i + 1).drop_last() =~= self.tabs@.take(i as int));
                assert(body@ =~= tab_stops_xml(self.tabs@.take(i + 1)));
            }
            i = i + 1;
        }
        proof { assert(self.tabs@.take(i as int) =~= self.tabs@); }
        emit_element(out, "w:tabs", &body);
    }
}

} // verus!
