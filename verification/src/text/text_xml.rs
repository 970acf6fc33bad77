//! Writing runs and paragraphs.

use vstd::prelude::*;

use crate::chars::{i32_string, signed_decimal, to_owned_string};
use crate::drawing::drawing_xml::drawing_xml;
use crate::properties::{opt_rpr_xml, ppr_xml};
use crate::text::{BreakType, CT_P, CT_R, FieldType, HyperlinkSpan, RunContent};
use crate::xml::{
    attr_views, element, element_attrs, emit_element, emit_element_attrs, emit_empty, emit_empty_attrs,
    emit_end, emit_raw, emit_start_attrs, emit_text, empty_tag, empty_tag_attrs, end_tag, opt_attr,
    push_attr, push_opt_attr, raw_concat, start_tag_attrs, text_bytes,
};

verus! {

/// The attributes of a text element: whitespace preserved or not.
pub open spec fn t_attrs(preserve: bool) -> Seq<(Seq<char>, Seq<char>)> {
    if preserve {
        seq![("xml:space"@, "preserve"@)]
    } else {
        Seq::empty()
    }
}

/// The attributes of a break: its type, except for a line break.
pub open spec fn br_attrs(b: BreakType) -> Seq<(Seq<char>, Seq<char>)> {
    match b {
        BreakType::Page => seq![("w:type"@, "page"@)],
        BreakType::Column => seq![("w:type"@, "column"@)],
        BreakType::Line => Seq::empty(),
    }
}

/// The XML of one content item of a run: text (escaped), a tab, a break,
/// a drawing, or a note reference; a field writes nothing here (its
/// paragraph writes it).
pub open spec fn content_xml(c: RunContent) -> Seq<u8> {
    match c {
        RunContent::Text(t) => element_attrs("w:t"@, t_attrs(t.preserve_space), text_bytes(t.text@)),
        RunContent::Tab => empty_tag("w:tab"@),
        RunContent::Break(b) => empty_tag_attrs("w:br"@, br_attrs(b)),
        RunContent::Drawing(d) => drawing_xml(d),
        RunContent::Field { .. } => Seq::empty(),
        RunContent::FootnoteRef { id } => empty_tag_attrs(
            "w:footnoteReference"@,
            seq![("w:id"@, signed_decimal(id as int))],
        ),
        RunContent::EndnoteRef { id } => empty_tag_attrs(
            "w:endnoteReference"@,
            seq![("w:id"@, signed_decimal(id as int))],
        ),
    }
}

/// The XML of content items, in order.
pub open spec fn contents_xml(s: Seq<RunContent>) -> Seq<u8>
    decreases s.len(),
{
    if s.len() == 0 {
        Seq::empty()
    } else {
        contents_xml(s.drop_last()) + content_xml(s.last())
    }
}

/// The XML of a run: `w:r` around its properties, its content and its
/// preserved extra elements.
pub open spec fn r_xml(r: CT_R) -> Seq<u8> {
    element("w:r"@, opt_rpr_xml(r.properties) + contents_xml(r.content@) + raw_concat(r.extra_xml@))
}

/// Append one content item.
fn write_content(out: &mut Vec<u8>, c: &RunContent)
    ensures
        final(out)@ == old(out)@ + content_xml(*c),
{
    match c {
        RunContent::Text(t) => {
            let mut a: Vec<(String, String)> = Vec::new();
            if t.preserve_space {
                push_attr(&mut a, "xml:space", to_owned_string("preserve"));
            }
            proof { assert(attr_views(a@) =~= t_attrs(t.preserve_space)); }
            let mut b: Vec<u8> = Vec::new();
            emit_text(&mut b, t.text.as_str());
            proof { assert(b@ =~= text_bytes(t.text@)); }
            emit_element_attrs(out, "w:t", a, &b);
        },
        RunContent::Tab => emit_empty(out, "w:tab"),
        RunContent::Break(bt) => {
            let mut a: Vec<(String, String)> = Vec::new();
            match bt {
                BreakType::Page => push_attr(&mut a, "w:type", to_owned_string("page")),
                BreakType::Column => push_attr(&mut a, "w:type", to_owned_string("column")),
                BreakType::Line => {},
            }
            proof { assert(attr_views(a@) =~= br_attrs(*bt)); }
            emit_empty_attrs(out, "w:br", a);
        },
        RunContent::Drawing(d) => d.to_xml(out),
        RunContent::Field { .. } => {
            proof { assert(out@ =~= old(out)@ + content_xml(*c)); }
        },
        RunContent::FootnoteRef { id } => {
            let mut a: Vec<(String, String)> = Vec::new();
            push_attr(&mut a, "w:id", i32_string(*id));
            proof { assert(attr_views(a@) =~= seq![("w:id"@, signed_decimal(*id as int))]); }
            emit_empty_attrs(out, "w:footnoteReference", a);
        },
        RunContent::EndnoteRef { id } => {
            let mut a: Vec<(String, String)> = Vec::new();
            push_attr(&mut a, "w:id", i32_string(*id));
            proof { assert(attr_views(a@) =~= seq![("w:id"@, signed_decimal(*id as int))]); }
            emit_empty_attrs(out, "w:endnoteReference", a);
        },
    }
}

impl CT_R {
    /// Append this run as a `w:r` element.
    pub fn to_xml(&self, out: &mut Vec<u8>)
        ensures
            final(out)@ == old(out)@ + r_xml(*self),
    {
        let mut b: Vec<u8> = Vec::new();
        match &self.properties {
            Some(p) => p.to_xml(&mut b),
            None => {},
        }
        proof { assert(b@ =~= opt_rpr_xml(self.properties)); }
        let ghost b0 = b@;
        let mut i: usize = 0;
        proof { assert(self.content@.take(0) =~= Seq::<RunContent>::empty()); }
        while i < self.content.len()
            invariant
                i <= self.content@.len(),
                b@ == b0 + contents_xml(self.content@.take(i as int)),
            decreases self.content@.len() - i,
        {
            write_content(&mut b, &self.content[i]);
            proof {
                assert(self.content@.take(i + 1).drop_last() =~= self.content@.take(i as int));
                assert(b@ =~= b0 + contents_xml(self.content@.take(i + 1)));
            }
            i = i + 1;
        }
        proof { assert(self.content@.take(i as int) =~= self.content@); }
        let ghost b1 = b@;
        let mut j: usize = 0;
        proof { assert(self.extra_xml@.take(0) =~= Seq::<Vec<u8>>::empty()); }
        while j < self.extra_xml.len()
            invariant
                j <= self.extra_xml@.len(),
                b@ == b1 + raw_concat(self.extra_xml@.take(j as int)),
            decreases self.extra_xml@.len() - j,
        {
            emit_raw(&mut b, &self.extra_xml[j]);
            proof {
                assert(self.extra_xml@.take(j + 1).drop_last() =~= self.extra_xml@.take(j as int));
                assert(b@ =~= b1 + raw_concat(self.extra_xml@.take(j + 1)));
            }
            j = j + 1;
        }
        proof { assert(self.extra_xml@.take(j as int) =~= self.extra_xml@); }
        emit_element(out, "w:r", &b);
    }
}

/// The hyperlink a run belongs to: the last one whose range holds it.
pub open spec fn link_of(links: Seq<HyperlinkSpan>, i: int) -> Option<int>
    decreases links.len(),
{
    if links.len() == 0 {
        None
    } else if links.last().run_start <= i < links.last().run_end {
        Some(links.len() - 1)
    } else {
        link_of(links.drop_last(), i)
    }
}

/// `link_of` names a hyperlink of the list.
proof fn lemma_link_of(links: Seq<HyperlinkSpan>, i: int)
    ensures
        link_of(links, i) matches Some(h) ==> 0 <= h < links.len(),
    decreases links.len(),
{
    if links.len() > 0 {
        lemma_link_of(links.drop_last(), i);
    }
}

/// The hyperlink a run belongs to.
fn find_link(links: &Vec<HyperlinkSpan>, i: usize) -> (r: Option<usize>)
    ensures
        match r {
            Some(h) => link_of(links@, i as int) == Some(h as int),
            None => link_of(links@, i as int) is None,
        },
{
    let mut k: usize = links.len();
    proof { assert(links@.take(k as int) =~= links@); }
    while k > 0
        invariant
            k <= links@.len(),
            link_of(links@, i as int) == link_of(links@.take(k as int), i as int),
        decreases k,
    {
        proof { assert(links@.take(k as int).drop_last() =~= links@.take(k - 1)); }
        if links[k - 1].run_start <= i && i < links[k - 1].run_end {
            return Some(k - 1);
        }
        k = k - 1;
    }
    None
}

/// The preserved elements placed before run `i`, in order.
pub open spec fn extras_at(e: Seq<(usize, Vec<u8>)>, i: int) -> Seq<u8>
    decreases e.len(),
{
    if e.len() == 0 {
        Seq::empty()
    } else {
        extras_at(e.drop_last(), i) + if e.last().0 == i {
            e.last().1@
        } else {
            Seq::empty()
        }
    }
}

/// Append the preserved elements placed before run `i`.
fn write_extras_at(out: &mut Vec<u8>, e: &Vec<(usize, Vec<u8>)>, i: usize)
    ensures
        final(out)@ == old(out)@ + extras_at(e@, i as int),
{
    let ghost o = out@;
    let mut k: usize = 0;
    proof { assert(e@.take(0) =~= Seq::<(usize, Vec<u8>)>::empty()); }
    while k < e.len()
        invariant
            k <= e@.len(),
            out@ == o + extras_at(e@.take(k as int), i as int),
        decreases e@.len() - k,
    {
        if e[k].0 == i {
            emit_raw(out, &e[k].1);
        }
        proof {
            assert(e@.take(k + 1).drop_last() =~= e@.take(k as int));
            assert(out@ =~= o + extras_at(e@.take(k + 1), i as int));
        }
        k = k + 1;
    }
    proof { assert(e@.take(k as int) =~= e@); }
}

/// The attributes of a hyperlink: its relationship id and anchor, where
/// set.
pub open spec fn link_attrs(h: HyperlinkSpan) -> Seq<(Seq<char>, Seq<char>)> {
    opt_attr("r:id"@, h.rel_id) + opt_attr("w:anchor"@, h.anchor)
}

/// The instruction of a simple field.
pub open spec fn field_instr(f: FieldType) -> Seq<char> {
    match f {
        FieldType::Page => " PAGE "@,
        FieldType::NumPages => " NUMPAGES "@,
        FieldType::Other(s) => s@,
    }
}

/// Whether a run is a field: its only content is a field.
pub open spec fn is_field_run(r: CT_R) -> bool {
    r.content@.len() == 1 && r.content@[0] is Field
}

/// The XML a run takes in a paragraph: a field run becomes `w:fldSimple`
/// with its instruction and a display run showing `1`; any other run is
/// written as itself.
pub open spec fn para_run_xml(r: CT_R) -> Seq<u8> {
    if is_field_run(r) {
        element_attrs(
            "w:fldSimple"@,
            seq![("w:instr"@, field_instr(r.content@[0]->field_type))],
            element("w:r"@, element("w:t"@, text_bytes("1"@))),
        )
    } else {
        r_xml(r)
    }
}

/// What is written for run `i` of a paragraph and everything after it,
/// with `cur` the hyperlink left open: the preserved elements placed
/// before the run, the open hyperlink closed when the run is not in it,
/// the run's hyperlink opened when it is not open, the run; at the end the
/// open hyperlink is closed and the elements placed after the last run
/// follow.
pub open spec fn para_tail_xml(p: CT_P, i: int, cur: Option<int>) -> Seq<u8>
    decreases p.runs@.len() - i,
{
    if i < 0 || i >= p.runs@.len() {
        (if cur is Some { end_tag("w:hyperlink"@) } else { Seq::empty() }) + extras_at(p.extra_xml@, p.runs@.len() as int)
    } else {
        let in_hl = link_of(p.hyperlinks@, i);
        let closes = cur is Some && cur != in_hl;
        let cur1 = if closes { None } else { cur };
        let opens = in_hl is Some && cur1 != in_hl;
        let cur2 = if opens { in_hl } else { cur1 };
        extras_at(p.extra_xml@, i) + (if closes { end_tag("w:hyperlink"@) } else { Seq::empty() }) + (if opens {
            start_tag_attrs("w:hyperlink"@, link_attrs(p.hyperlinks@[in_hl->0]))
        } else {
            Seq::empty()
        }) + para_run_xml(p.runs@[i]) + para_tail_xml(p, i + 1, cur2)
    }
}

/// The XML of a paragraph: `w:p` around its properties and its runs as
/// `para_tail_xml` lays them out.
pub open spec fn p_xml(p: CT_P) -> Seq<u8> {
    element(
        "w:p"@,
        match p.properties {
            Some(pp) => ppr_xml(pp),
            None => Seq::empty(),
        } + para_tail_xml(p, 0, None),
    )
}

/// Append a run as it stands in a paragraph.
fn write_para_run(out: &mut Vec<u8>, r: &CT_R)
    ensures
        final(out)@ == old(out)@ + para_run_xml(*r),
{
    if r.content.len() == 1 {
        match &r.content[0] {
            RunContent::Field { field_type } => {
                let instr = match field_type {
                    FieldType::Page => to_owned_string(" PAGE "),
                    FieldType::NumPages => to_owned_string(" NUMPAGES "),
                    FieldType::Other(s) => s.clone(),
                };
                let mut a: Vec<(String, String)> = Vec::new();
                let ghost iv = instr@;
                push_attr(&mut a, "w:instr", instr);
                proof { assert(attr_views(a@) =~= seq![("w:instr"@, iv)]); }
                let mut t: Vec<u8> = Vec::new();
                emit_text(&mut t, "1");
                proof { assert(t@ =~= text_bytes("1"@)); }
                let mut tr: Vec<u8> = Vec::new();
                emit_element(&mut tr, "w:t", &t);
                proof { assert(tr@ =~= element("w:t"@, text_bytes("1"@))); }
                let mut rr: Vec<u8> = Vec::new();
                emit_element(&mut rr, "w:r", &tr);
                proof { assert(rr@ =~= element("w:r"@, element("w:t"@, text_bytes("1"@)))); }
                emit_element_attrs(out, "w:fldSimple", a, &rr);
                return;
            },
            _ => {},
        }
    }
    r.to_xml(out);
}

impl CT_P {
    /// Append this paragraph as a `w:p` element.
    pub fn to_xml(&self, out: &mut Vec<u8>)
        ensures
            final(out)@ == old(out)@ + p_xml(*self),
    {
        let mut b: Vec<u8> = Vec::new();
        match &self.properties {
            Some(pp) => pp.to_xml(&mut b),
            None => {},
        }
        let ghost head = b@;
        proof { assert(head =~= match self.properties { Some(pp) => ppr_xml(pp), None => Seq::<u8>::empty() }); }
        let mut cur: Option<usize> = None;
        let mut i: usize = 0;
        proof { assert(b@ =~= head + Seq::<u8>::empty()); }
        while i < self.runs.len()
            invariant
                i <= self.runs@.len(),
                cur matches Some(h) ==> h < self.hyperlinks@.len(),
                b@ + para_tail_xml(*self, i as int, match cur { Some(h) => Some(h as int), None => None })
                    == head + para_tail_xml(*self, 0, None),
            decreases self.runs@.len() - i,
        {
            let ghost before = b@;
            let ghost cv: Option<int> = match cur { Some(h) => Some(h as int), None => None };
            write_extras_at(&mut b, &self.extra_xml, i);
            let in_hl = find_link(&self.hyperlinks, i);
            proof { lemma_link_of(self.hyperlinks@, i as int); }
            let ghost hv: Option<int> = match in_hl { Some(h) => Some(h as int), None => None };
            let closes = cur.is_some() && !(match (cur, in_hl) { (Some(x), Some(y)) => x == y, _ => false });
            if closes {
                emit_end(&mut b, "w:hyperlink");
                cur = None;
            }
            let opens = in_hl.is_some() && !(match (cur, in_hl) { (Some(x), Some(y)) => x == y, _ => false });
            if opens {
                let h = in_hl.unwrap();
                let mut a: Vec<(String, String)> = Vec::new();
                push_opt_attr(&mut a, "r:id", &self.hyperlinks[h].rel_id);
                proof { assert(attr_views(a@) =~= opt_attr("r:id"@, self.hyperlinks@[h as int].rel_id)); }
                push_opt_attr(&mut a, "w:anchor", &self.hyperlinks[h].anchor);
                emit_start_attrs(&mut b, "w:hyperlink", a);
                cur = in_hl;
            }
            write_para_run(&mut b, &self.runs[i]);
            proof {
                let t = para_tail_xml(*self, i as int, cv);
                let nv: Option<int> = match cur { Some(h) => Some(h as int), None => None };
                assert(t == extras_at(self.extra_xml@, i as int) + (if closes { end_tag("w:hyperlink"@) } else {
                    Seq::<u8>::empty()
                }) + (if opens {
                    start_tag_attrs("w:hyperlink"@, link_attrs(self.hyperlinks@[hv->0]))
                } else {
                    Seq::<u8>::empty()
                }) + para_run_xml(self.runs@[i as int]) + para_tail_xml(*self, i + 1, nv));
                assert(before + t =~= b@ + para_tail_xml(*self, i + 1, nv));
            }
            i = i + 1;
        }
        let ghost before = b@;
        if cur.is_some() {
            emit_end(&mut b, "w:hyperlink");
        }
        write_extras_at(&mut b, &self.extra_xml, self.runs.len());
        proof { assert(before + para_tail_xml(*self, i as int, match cur { Some(h) => Some(h as int), None => None }) =~= b@); }
        emit_element(out, "w:p", &b);
    }
}

} // verus!
