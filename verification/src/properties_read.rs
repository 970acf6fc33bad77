//! Reading paragraph and run properties from XML: what each element and
//! attribute sets, and the reading loops over a quick-xml `Reader`.

use vstd::prelude::*;

use crate::xml_read::XmlReader;

use crate::chars::{clone_opt_string, parse_i32, parse_i32_str, parse_u32, parse_u32_str, to_owned_string};
use crate::error::OxmlError;
use crate::properties::{CT_PPr, CT_RPr, CT_Shd, PPrChange, RPrChange};
use crate::borders::{CT_BorderEdge, CT_PBdr, CT_TabStop, CT_Tabs};
use crate::shared::{
    border_parse, highlight_parse, jc_parse, tab_jc_parse, tab_leader_parse, underline_parse, ST_Border,
    ST_HighlightColor, ST_Jc, ST_TabJc, ST_TabLeader, ST_Underline,
};
use crate::units::{HalfPoint, Twips};
use crate::document::CT_SectPr;
use crate::header_footer::{hdr_ftr_parse, HdrFtrRef, HdrFtrType};
use crate::xml_read::{
    capture_element_within, capture_empty_element, empty_raw, first_attr, get_attr, get_val_attr, last_attr,
    local_is, name_is, on_off, opt_view, parse_toggle, read_event, ReadEvent, Tag, event_budget, unread_len,
    budget_left, capture_run, start_raw, xml_event, budget_for, xml_unread,
};
use crate::properties::{ppr_none, rpr_none};

verus! {

/// `last_attr` with a default that is set is set.
pub proof fn lemma_last_attr_some(attrs: Seq<(String, String)>, local: Seq<char>, d: Seq<char>)
    ensures
        last_attr(attrs, local, Some(d)) is Some,
    decreases attrs.len(),
{
    if attrs.len() > 0 {
        lemma_last_attr_some(attrs.drop_last(), local, d);
    }
}

/// The value of the last attribute named `local`, or `d` when there is
/// none.
pub fn last_attr_value(attrs: &Vec<(String, String)>, local: &str, d: Option<String>) -> (r: Option<String>)
    ensures
        opt_view(r) == last_attr(attrs@, local@, opt_view(d)),
{
    let ghost dv = opt_view(d);
    let mut cur = d;
    let mut i: usize = 0;
    proof { assert(attrs@.take(0) =~= Seq::<(String, String)>::empty()); }
    while i < attrs.len()
        invariant
            i <= attrs@.len(),
            opt_view(cur) == last_attr(attrs@.take(i as int), local@, dv),
        decreases attrs@.len() - i,
    {
        if name_is(attrs[i].0.as_str(), local) {
            cur = Some(attrs[i].1.clone());
        }
        proof {
            assert(attrs@.take(i + 1).drop_last() =~= attrs@.take(i as int));
            assert(attrs@.take(i + 1).last() == attrs@[i as int]);
        }
        i = i + 1;
    }
    proof { assert(attrs@.take(i as int) =~= attrs@); }
    cur
}

/// A shading read from its attributes: the pattern (`clear` unless given),
/// the color and the fill, each the last one given.
pub open spec fn shd_read(sh: CT_Shd, attrs: Seq<(String, String)>) -> bool {
    &&& Some(sh.val@) == last_attr(attrs, "val"@, Some("clear"@))
    &&& opt_view(sh.color) == last_attr(attrs, "color"@, None)
    &&& opt_view(sh.fill) == last_attr(attrs, "fill"@, None)
}

impl CT_Shd {
    /// A shading from an element's attributes.
    pub fn from_xml_attrs(t: &Tag) -> (r: Result<Self, OxmlError>)
        ensures
            r matches Ok(sh) && shd_read(sh, t.attrs@),
    {
        let clear = to_owned_string("clear");
        proof { lemma_last_attr_some(t.attrs@, "val"@, "clear"@); }
        let val = match last_attr_value(&t.attrs, "val", Some(clear)) {
            Some(v) => v,
            None => to_owned_string("clear"),
        };
        let color = last_attr_value(&t.attrs, "color", None);
        let fill = last_attr_value(&t.attrs, "fill", None);
        Ok(CT_Shd { val, color, fill })
    }
}

/// The preserved extra elements, as a sequence.
pub open spec fn extra_seq(e: Option<Vec<Vec<u8>>>) -> Seq<Vec<u8>> {
    match e {
        Some(v) => v@,
        None => Seq::empty(),
    }
}

/// `n` holds the extra elements of `o` and then `raw`.
pub open spec fn extra_added(o: Option<Vec<Vec<u8>>>, n: Option<Vec<Vec<u8>>>, raw: Seq<u8>) -> bool {
    n matches Some(v) && v@.len() == extra_seq(o).len() + 1 && v@.drop_last() == extra_seq(o) && v@.last()@
        == raw
}

/// Keep one more extra element.
pub fn push_extra(e: &mut Option<Vec<Vec<u8>>>, raw: Vec<u8>)
    ensures
        extra_added(*old(e), *final(e), raw@),
{
    let ghost before = extra_seq(*old(e));
    let mut v = match e.take() {
        Some(v) => v,
        None => Vec::new(),
    };
    proof { assert(v@ =~= before); }
    v.push(raw);
    proof { assert(v@.drop_last() =~= before); }
    *e = Some(v);
}

/// The value of `val`, read as a number.
pub open spec fn val_u32(t: Tag) -> Option<Option<u32>> {
    match first_attr(t.attrs@, "val"@) {
        Some(s) => match parse_u32(s) {
            Some(n) => Some(Some(n)),
            None => None,
        },
        None => Some(None),
    }
}

/// The value of `val`, read as a signed number.
pub open spec fn val_i32(t: Tag) -> Option<Option<i32>> {
    match first_attr(t.attrs@, "val"@) {
        Some(s) => match parse_i32(s) {
            Some(n) => Some(Some(n)),
            None => None,
        },
        None => Some(None),
    }
}

/// Read `val` as a number: `Ok(None)` without it, an error when it is not
/// a number.
pub fn read_val_u32(t: &Tag) -> (r: Result<Option<u32>, OxmlError>)
    ensures
        r is Ok <==> val_u32(*t) is Some,
        r matches Ok(v) ==> val_u32(*t) == Some(v),
{
    match get_val_attr(t) {
        Some(s) => match parse_u32_str(s.as_str()) {
            Some(n) => Ok(Some(n)),
            None => Err(OxmlError::ParseInt(s)),
        },
        None => Ok(None),
    }
}

/// Read `val` as a signed number: `Ok(None)` without it, an error when it
/// is not a number.
pub fn read_val_i32(t: &Tag) -> (r: Result<Option<i32>, OxmlError>)
    ensures
        r is Ok <==> val_i32(*t) is Some,
        r matches Ok(v) ==> val_i32(*t) == Some(v),
{
    match get_val_attr(t) {
        Some(s) => match parse_i32_str(s.as_str()) {
            Some(n) => Ok(Some(n)),
            None => Err(OxmlError::ParseInt(s)),
        },
        None => Ok(None),
    }
}

/// `n` is `o` with the size set to `v` when there is one.
pub open spec fn set_if_u32<T>(v: Option<u32>, o: T, n: T, set: T) -> bool {
    match v {
        Some(_) => n == set,
        None => n == o,
    }
}

/// Whether reading an empty element into run properties fails: an
/// underline or highlight value that names no style, or a size, spacing,
/// scale or position that is not a number.
pub open spec fn rpr_empty_fails(t: Tag) -> bool {
    let nm = t.name@;
    let v = first_attr(t.attrs@, "val"@);
    if local_is(nm, "rStyle"@) || local_is(nm, "rFonts"@) || local_is(nm, "b"@) || local_is(nm, "bCs"@)
        || local_is(nm, "i"@) || local_is(nm, "iCs"@) {
        false
    } else if local_is(nm, "u"@) {
        v matches Some(s) && underline_parse(s) is None
    } else if local_is(nm, "strike"@) || local_is(nm, "dstrike"@) {
        false
    } else if local_is(nm, "sz"@) || local_is(nm, "szCs"@) {
        val_u32(t) is None
    } else if local_is(nm, "color"@) {
        false
    } else if local_is(nm, "highlight"@) {
        v matches Some(s) && highlight_parse(s) is None
    } else if local_is(nm, "caps"@) || local_is(nm, "smallCaps"@) || local_is(nm, "vertAlign"@) {
        false
    } else if local_is(nm, "spacing"@) {
        val_i32(t) is None
    } else if local_is(nm, "w"@) {
        val_u32(t) is None
    } else if local_is(nm, "position"@) {
        val_i32(t) is None
    } else {
        false
    }
}

/// What reading an empty element into run properties `o` gives, when it
/// does not fail: the property the element names, from its `val` (toggles
/// are on unless `false`, `0` or `off`; an underline without a value is
/// single; a size, spacing, scale or position without a value changes
/// nothing), from its last font or color attributes, or a shading from its
/// attributes; an element of any other name is kept verbatim as an extra
/// element.
pub open spec fn rpr_after_empty(o: CT_RPr, n: CT_RPr, t: Tag) -> bool {
    let nm = t.name@;
    let v = first_attr(t.attrs@, "val"@);
    let a = t.attrs@;
    if local_is(nm, "rStyle"@) {
        n == (CT_RPr { style_id: n.style_id, ..o }) && opt_view(n.style_id) == v
    } else if local_is(nm, "rFonts"@) {
        &&& n == (CT_RPr {
            font_ascii: n.font_ascii,
            font_hansi: n.font_hansi,
            font_east_asia: n.font_east_asia,
            font_cs: n.font_cs,
            font_ascii_theme: n.font_ascii_theme,
            font_hansi_theme: n.font_hansi_theme,
            ..o
        })
        &&& opt_view(n.font_ascii) == last_attr(a, "ascii"@, opt_view(o.font_ascii))
        &&& opt_view(n.font_hansi) == last_attr(a, "hAnsi"@, opt_view(o.font_hansi))
        &&& opt_view(n.font_east_asia) == last_attr(a, "eastAsia"@, opt_view(o.font_east_asia))
        &&& opt_view(n.font_cs) == last_attr(a, "cs"@, opt_view(o.font_cs))
        &&& opt_view(n.font_ascii_theme) == last_attr(a, "asciiTheme"@, opt_view(o.font_ascii_theme))
        &&& opt_view(n.font_hansi_theme) == last_attr(a, "hAnsiTheme"@, opt_view(o.font_hansi_theme))
    } else if local_is(nm, "b"@) {
        n == (CT_RPr { bold: Some(on_off(v)), ..o })
    } else if local_is(nm, "bCs"@) {
        n == (CT_RPr { bold_cs: Some(on_off(v)), ..o })
    } else if local_is(nm, "i"@) {
        n == (CT_RPr { italic: Some(on_off(v)), ..o })
    } else if local_is(nm, "iCs"@) {
        n == (CT_RPr { italic_cs: Some(on_off(v)), ..o })
    } else if local_is(nm, "u"@) {
        match v {
            Some(s) => n == (CT_RPr { underline: underline_parse(s), ..o }),
            None => n == (CT_RPr { underline: Some(ST_Underline::Single), ..o }),
        }
    } else if local_is(nm, "strike"@) {
        n == (CT_RPr { strike: Some(on_off(v)), ..o })
    } else if local_is(nm, "dstrike"@) {
        n == (CT_RPr { dstrike: Some(on_off(v)), ..o })
    } else if local_is(nm, "sz"@) {
        match val_u32(t) {
            Some(Some(x)) => n == (CT_RPr { sz: Some(HalfPoint(x)), ..o }),
            _ => n == o,
        }
    } else if local_is(nm, "szCs"@) {
        match val_u32(t) {
            Some(Some(x)) => n == (CT_RPr { sz_cs: Some(HalfPoint(x)), ..o }),
            _ => n == o,
        }
    } else if local_is(nm, "color"@) {
        &&& n == (CT_RPr { color: n.color, color_theme: n.color_theme, ..o })
        &&& opt_view(n.color) == last_attr(a, "val"@, opt_view(o.color))
        &&& opt_view(n.color_theme) == last_attr(a, "themeColor"@, opt_view(o.color_theme))
    } else if local_is(nm, "highlight"@) {
        match v {
            Some(s) => n == (CT_RPr { highlight: highlight_parse(s), ..o }),
            None => n == o,
        }
    } else if local_is(nm, "caps"@) {
        n == (CT_RPr { caps: Some(on_off(v)), ..o })
    } else if local_is(nm, "smallCaps"@) {
        n == (CT_RPr { small_caps: Some(on_off(v)), ..o })
    } else if local_is(nm, "vertAlign"@) {
        n == (CT_RPr { vert_align: n.vert_align, ..o }) && opt_view(n.vert_align) == v
    } else if local_is(nm, "spacing"@) {
        match val_i32(t) {
            Some(Some(x)) => n == (CT_RPr { spacing: Some(Twips(x)), ..o }),
            _ => n == o,
        }
    } else if local_is(nm, "w"@) {
        match val_u32(t) {
            Some(Some(x)) => n == (CT_RPr { width_scale: Some(x), ..o }),
            _ => n == o,
        }
    } else if local_is(nm, "position"@) {
        match val_i32(t) {
            Some(Some(x)) => n == (CT_RPr { position: Some(x), ..o }),
            _ => n == o,
        }
    } else if local_is(nm, "shd"@) {
        &&& n == (CT_RPr { shading: n.shading, ..o })
        &&& n.shading matches Some(sh) && shd_read(sh, a)
    } else if local_is(nm, "vanish"@) {
        n == (CT_RPr { vanish: Some(on_off(v)), ..o })
    } else if local_is(nm, "lang"@) {
        n == (CT_RPr { lang: n.lang, ..o }) && opt_view(n.lang) == v
    } else {
        &&& n == (CT_RPr { extra_xml: n.extra_xml, ..o })
        &&& extra_added(o.extra_xml, n.extra_xml, empty_raw(t))
    }
}

/// Set the fonts from an element's attributes.
fn read_fonts(rpr: &mut CT_RPr, t: &Tag)
    ensures
        *final(rpr) == (CT_RPr {
            font_ascii: final(rpr).font_ascii,
            font_hansi: final(rpr).font_hansi,
            font_east_asia: final(rpr).font_east_asia,
            font_cs: final(rpr).font_cs,
            font_ascii_theme: final(rpr).font_ascii_theme,
            font_hansi_theme: final(rpr).font_hansi_theme,
            ..*old(rpr)
        }),
        opt_view(final(rpr).font_ascii) == last_attr(t.attrs@, "ascii"@, opt_view(old(rpr).font_ascii)),
        opt_view(final(rpr).font_hansi) == last_attr(t.attrs@, "hAnsi"@, opt_view(old(rpr).font_hansi)),
        opt_view(final(rpr).font_east_asia) == last_attr(t.attrs@, "eastAsia"@, opt_view(old(rpr).font_east_asia)),
        opt_view(final(rpr).font_cs) == last_attr(t.attrs@, "cs"@, opt_view(old(rpr).font_cs)),
        opt_view(final(rpr).font_ascii_theme) == last_attr(
            t.attrs@,
            "asciiTheme"@,
            opt_view(old(rpr).font_ascii_theme),
        ),
        opt_view(final(rpr).font_hansi_theme) == last_attr(
            t.attrs@,
            "hAnsiTheme"@,
            opt_view(old(rpr).font_hansi_theme),
        ),
{
    rpr.font_ascii = last_attr_value(&t.attrs, "ascii", clone_opt_string(&rpr.font_ascii));
    rpr.font_hansi = last_attr_value(&t.attrs, "hAnsi", clone_opt_string(&rpr.font_hansi));
    rpr.font_east_asia = last_attr_value(&t.attrs, "eastAsia", clone_opt_string(&rpr.font_east_asia));
    rpr.font_cs = last_attr_value(&t.attrs, "cs", clone_opt_string(&rpr.font_cs));
    rpr.font_ascii_theme = last_attr_value(&t.attrs, "asciiTheme", clone_opt_string(&rpr.font_ascii_theme));
    rpr.font_hansi_theme = last_attr_value(&t.attrs, "hAnsiTheme", clone_opt_string(&rpr.font_hansi_theme));
}

/// Read one empty element into run properties.
#[verifier::rlimit(40)]
pub fn read_rpr_empty(rpr: &mut CT_RPr, t: &Tag) -> (r: Result<(), OxmlError>)
    ensures
        r is Err <==> rpr_empty_fails(*t),
        r is Ok ==> rpr_after_empty(*old(rpr), *final(rpr), *t),
{
    let nm = t.name.as_str();
    if name_is(nm, "rStyle") {
        rpr.style_id = get_val_attr(t);
    } else if name_is(nm, "rFonts") {
        read_fonts(rpr, t);
    } else if name_is(nm, "b") {
        rpr.bold = Some(parse_toggle(t));
    } else if name_is(nm, "bCs") {
        rpr.bold_cs = Some(parse_toggle(t));
    } else if name_is(nm, "i") {
        rpr.italic = Some(parse_toggle(t));
    } else if name_is(nm, "iCs") {
        rpr.italic_cs = Some(parse_toggle(t));
    } else if name_is(nm, "u") {
        match get_val_attr(t) {
            Some(v) => {
                let u = ST_Underline::from_str(v.as_str())?;
                rpr.underline = Some(u);
            },
            None => {
                rpr.underline = Some(ST_Underline::Single);
            },
        }
    } else if name_is(nm, "strike") {
        rpr.strike = Some(parse_toggle(t));
    } else if name_is(nm, "dstrike") {
        rpr.dstrike = Some(parse_toggle(t));
    } else if name_is(nm, "sz") {
        match read_val_u32(t)? {
            Some(x) => {
                rpr.sz = Some(HalfPoint(x));
            },
            None => {},
        }
    } else if name_is(nm, "szCs") {
        match read_val_u32(t)? {
            Some(x) => {
                rpr.sz_cs = Some(HalfPoint(x));
            },
            None => {},
        }
    } else if name_is(nm, "color") {
        rpr.color = last_attr_value(&t.attrs, "val", clone_opt_string(&rpr.color));
        rpr.color_theme = last_attr_value(&t.attrs, "themeColor", clone_opt_string(&rpr.color_theme));
    } else if name_is(nm, "highlight") {
        match get_val_attr(t) {
            Some(v) => {
                let h = ST_HighlightColor::from_str(v.as_str())?;
                rpr.highlight = Some(h);
            },
            None => {},
        }
    } else if name_is(nm, "caps") {
        rpr.caps = Some(parse_toggle(t));
    } else if name_is(nm, "smallCaps") {
        rpr.small_caps = Some(parse_toggle(t));
    } else if name_is(nm, "vertAlign") {
        rpr.vert_align = get_val_attr(t);
    } else if name_is(nm, "spacing") {
        match read_val_i32(t)? {
            Some(x) => {
                rpr.spacing = Some(Twips(x));
            },
            None => {},
        }
    } else if name_is(nm, "w") {
        match read_val_u32(t)? {
            Some(x) => {
                rpr.width_scale = Some(x);
            },
            None => {},
        }
    } else if name_is(nm, "position") {
        match read_val_i32(t)? {
            Some(x) => {
                rpr.position = Some(x);
            },
            None => {},
        }
    } else if name_is(nm, "shd") {
        let sh = CT_Shd::from_xml_attrs(t)?;
        rpr.shading = Some(sh);
    } else if name_is(nm, "vanish") {
        rpr.vanish = Some(parse_toggle(t));
    } else if name_is(nm, "lang") {
        rpr.lang = get_val_attr(t);
    } else {
        let raw = capture_empty_element(t);
        push_extra(&mut rpr.extra_xml, raw);
    }
    Ok(())
}

/// A border edge read from its attributes in order: the style, width,
/// spacing and color each set by the attribute of that name (the last one
/// counts), starting from no style and nothing else; `None` when a style
/// names no border or a width or spacing is not a number.
pub open spec fn edge_fold(a: Seq<(String, String)>) -> Option<(ST_Border, Option<u32>, Option<u32>, Option<Seq<char>>)>
    decreases a.len(),
{
    if a.len() == 0 {
        Some((ST_Border::Nil, None, None, None))
    } else {
        match edge_fold(a.drop_last()) {
            None => None,
            Some((val, sz, space, color)) => {
                let k = a.last().0@;
                let v = a.last().1@;
                if local_is(k, "val"@) {
                    match border_parse(v) {
                        Some(b) => Some((b, sz, space, color)),
                        None => None,
                    }
                } else if local_is(k, "sz"@) {
                    match parse_u32(v) {
                        Some(n) => Some((val, Some(n), space, color)),
                        None => None,
                    }
                } else if local_is(k, "space"@) {
                    match parse_u32(v) {
                        Some(n) => Some((val, sz, Some(n), color)),
                        None => None,
                    }
                } else if local_is(k, "color"@) {
                    Some((val, sz, space, Some(v)))
                } else {
                    Some((val, sz, space, color))
                }
            },
        }
    }
}

/// Once reading an edge fails on a prefix of the attributes, it fails.
pub proof fn lemma_edge_fold_fails(a: Seq<(String, String)>, i: int)
    requires
        0 <= i <= a.len(),
        edge_fold(a.take(i)) is None,
    ensures
        edge_fold(a) is None,
    decreases a.len() - i,
{
    if i < a.len() {
        assert(a.take(i + 1).drop_last() =~= a.take(i));
        lemma_edge_fold_fails(a, i + 1);
    } else {
        assert(a.take(i) =~= a);
    }
}

/// Whether `e` is the edge read from `a`.
pub open spec fn edge_read(e: CT_BorderEdge, a: Seq<(String, String)>) -> bool {
    edge_fold(a) == Some((e.val, e.sz, e.space, opt_view(e.color)))
}

impl CT_BorderEdge {
    /// A border edge from an element's attributes.
    pub fn from_xml_attrs(t: &Tag) -> (r: Result<Self, OxmlError>)
        ensures
            r is Ok <==> edge_fold(t.attrs@) is Some,
            r matches Ok(e) ==> edge_read(e, t.attrs@),
    {
        let a = &t.attrs;
        let mut val = ST_Border::Nil;
        let mut sz: Option<u32> = None;
        let mut space: Option<u32> = None;
        let mut color: Option<String> = None;
        let mut i: usize = 0;
        proof { assert(a@.take(0) =~= Seq::<(String, String)>::empty()); }
        while i < a.len()
            invariant
                i <= a@.len(),
                a@ == t.attrs@,
                edge_fold(a@.take(i as int)) == Some((val, sz, space, opt_view(color))),
            decreases a@.len() - i,
        {
            proof {
                assert(a@.take(i + 1).drop_last() =~= a@.take(i as int));
                assert(a@.take(i + 1).last() == a@[i as int]);
            }
            let k = a[i].0.as_str();
            let v = a[i].1.as_str();
            if name_is(k, "val") {
                match ST_Border::from_str(v) {
                    Ok(b) => { val = b; },
                    Err(e) => {
                        proof { lemma_edge_fold_fails(a@, i + 1); }
                        return Err(e);
                    },
                }
            } else if name_is(k, "sz") {
                match parse_u32_str(v) {
                    Some(n) => { sz = Some(n); },
                    None => {
                        proof { lemma_edge_fold_fails(a@, i + 1); }
                        return Err(OxmlError::ParseInt(to_owned_string(v)));
                    },
                }
            } else if name_is(k, "space") {
                match parse_u32_str(v) {
                    Some(n) => { space = Some(n); },
                    None => {
                        proof { lemma_edge_fold_fails(a@, i + 1); }
                        return Err(OxmlError::ParseInt(to_owned_string(v)));
                    },
                }
            } else if name_is(k, "color") {
                color = Some(to_owned_string(v));
            }
            i = i + 1;
        }
        proof { assert(a@.take(i as int) =~= a@); }
        Ok(CT_BorderEdge { val, sz, space, color })
    }
}

/// What an empty element inside `w:pBdr` does to borders `o`, once its
/// attributes read as edge `e`: the edge of that name (`start` for left,
/// `end` for right) is set; other names change nothing.
pub open spec fn pbdr_after_edge(o: CT_PBdr, n: CT_PBdr, name: Seq<char>, e: CT_BorderEdge) -> bool {
    if local_is(name, "top"@) {
        n == (CT_PBdr { top: Some(e), ..o })
    } else if local_is(name, "bottom"@) {
        n == (CT_PBdr { bottom: Some(e), ..o })
    } else if local_is(name, "left"@) || local_is(name, "start"@) {
        n == (CT_PBdr { left: Some(e), ..o })
    } else if local_is(name, "right"@) || local_is(name, "end"@) {
        n == (CT_PBdr { right: Some(e), ..o })
    } else if local_is(name, "between"@) {
        n == (CT_PBdr { between: Some(e), ..o })
    } else if local_is(name, "bar"@) {
        n == (CT_PBdr { bar: Some(e), ..o })
    } else {
        n == o
    }
}

/// Read one empty element inside `w:pBdr`.
pub fn read_pbdr_empty(bdr: &mut CT_PBdr, t: &Tag) -> (r: Result<(), OxmlError>)
    ensures
        r is Ok <==> edge_fold(t.attrs@) is Some,
        r is Ok ==> exists|e: CT_BorderEdge| edge_read(e, t.attrs@) && pbdr_after_edge(
            *old(bdr),
            *final(bdr),
            t.name@,
            e,
        ),
{
    let edge = CT_BorderEdge::from_xml_attrs(t)?;
    let ghost e = edge;
    let nm = t.name.as_str();
    if name_is(nm, "top") {
        bdr.top = Some(edge);
    } else if name_is(nm, "bottom") {
        bdr.bottom = Some(edge);
    } else if name_is(nm, "left") || name_is(nm, "start") {
        bdr.left = Some(edge);
    } else if name_is(nm, "right") || name_is(nm, "end") {
        bdr.right = Some(edge);
    } else if name_is(nm, "between") {
        bdr.between = Some(edge);
    } else if name_is(nm, "bar") {
        bdr.bar = Some(edge);
    }
    proof { assert(pbdr_after_edge(*old(bdr), *bdr, t.name@, e)); }
    Ok(())
}

/// A step relation holds of a state before, a state after and a tag.
pub open spec fn step_holds<S>(step: spec_fn(S, S, Tag) -> bool, o: S, m: S, t: Tag) -> bool {
    step(o, m, t)
}

/// Whether an end tag's name, with or without its prefix, is `name`.
pub open spec fn ends_at(name: Seq<char>) -> spec_fn(Seq<char>) -> bool {
    |m: Seq<char>| local_is(m, name)
}

/// Reading a flat element (one whose children are all empty elements)
/// from call `n` on of a reader over `x`, over the state `o` read so far and
/// with `f` events left, ends in `res`: an empty element fails where
/// `fails` says and otherwise moves the state as `step` says; the end tag
/// whose name `end` accepts, the end of input or the last event allowed ends the reading,
/// an error of the reader fails it, and any other event is passed.
pub open spec fn flat_run<S>(
    x: Seq<u8>,
    tr: bool,
    n: nat,
    end: spec_fn(Seq<char>) -> bool,
    fails: spec_fn(S, Tag) -> bool,
    step: spec_fn(S, S, Tag) -> bool,
    o: S,
    f: nat,
    res: ReadOutcome<S>,
) -> bool
    decreases f,
{
    if f == 0 {
        res == (Ok::<S, OxmlError>(o), n, 0nat)
    } else {
        let g = (f - 1) as nat;
        match xml_event(x, tr, n) {
            Ok(ReadEvent::Empty(t)) => if fails(o, t) {
                res.0 is Err && res.1 == n + 1 && res.2 == g
            } else {
                exists|m: S| #[trigger] step_holds(step, o, m, t) && flat_run(x, tr, n + 1, end, fails, step, m, g, res)
            },
            Ok(ReadEvent::End(m)) => if end(m@) {
                res == (Ok::<S, OxmlError>(o), n + 1, g)
            } else {
                flat_run(x, tr, n + 1, end, fails, step, o, g, res)
            },
            Ok(ReadEvent::Eof) => res == (Ok::<S, OxmlError>(o), n + 1, g),
            Ok(_) => flat_run(x, tr, n + 1, end, fails, step, o, g, res),
            Err(e) => res == (Err::<S, OxmlError>(e), n + 1, g),
        }
    }
}

/// One step of `flat_run` over an empty element that does not fail.
pub proof fn lemma_flat_empty<S>(
    x: Seq<u8>,
    tr: bool,
    n: nat,
    end: spec_fn(Seq<char>) -> bool,
    fails: spec_fn(S, Tag) -> bool,
    step: spec_fn(S, S, Tag) -> bool,
    o: S,
    m: S,
    f: nat,
    t: Tag,
    res: ReadOutcome<S>,
)
    requires
        f > 0,
        xml_event(x, tr, n) == Ok::<ReadEvent, OxmlError>(ReadEvent::Empty(t)),
        !fails(o, t),
        step(o, m, t),
        flat_run(x, tr, n + 1, end, fails, step, m, (f - 1) as nat, res),
    ensures
        flat_run(x, tr, n, end, fails, step, o, f, res),
{
    assert(step_holds(step, o, m, t));
}

/// Reading an element whose children are empty elements and whole
/// elements, from call `n` on, over the state `o` and with `f` events left,
/// ends in `res`: as `flat_run`, except that a start tag's whole element is
/// read as `start` says, which relates the state before, the tag, the call
/// after the tag, the new state or the error, and the call after the
/// element.
pub open spec fn flat_cap_run<S>(
    x: Seq<u8>,
    tr: bool,
    n: nat,
    end: spec_fn(Seq<char>) -> bool,
    fails: spec_fn(S, Tag) -> bool,
    step: spec_fn(S, S, Tag) -> bool,
    start: spec_fn(S, Tag, nat, Result<S, OxmlError>, nat) -> bool,
    o: S,
    f: nat,
    res: ReadOutcome<S>,
) -> bool
    decreases f,
{
    if f == 0 {
        res == (Ok::<S, OxmlError>(o), n, 0nat)
    } else {
        let g = (f - 1) as nat;
        match xml_event(x, tr, n) {
            Ok(ReadEvent::Empty(t)) => if fails(o, t) {
                res.0 is Err && res.1 == n + 1 && res.2 == g
            } else {
                exists|m: S| #[trigger] step_holds(step, o, m, t) && flat_cap_run(x, tr, n + 1, end, fails, step, start, m, g, res)
            },
            Ok(ReadEvent::Start(t)) => exists|mq: (Result<S, OxmlError>, nat)|
                #[trigger] start_holds(start, o, t, n, mq) && match mq.0 {
                    Ok(s2) => flat_cap_run(x, tr, mq.1, end, fails, step, start, s2, g, res),
                    Err(e) => res == (Err::<S, OxmlError>(e), mq.1, g),
                },
            Ok(ReadEvent::End(m)) => if end(m@) {
                res == (Ok::<S, OxmlError>(o), n + 1, g)
            } else {
                flat_cap_run(x, tr, n + 1, end, fails, step, start, o, g, res)
            },
            Ok(ReadEvent::Eof) => res == (Ok::<S, OxmlError>(o), n + 1, g),
            Ok(_) => flat_cap_run(x, tr, n + 1, end, fails, step, start, o, g, res),
            Err(e) => res == (Err::<S, OxmlError>(e), n + 1, g),
        }
    }
}

/// A start relation holds of the start tag read at call `n`.
pub open spec fn start_holds<S>(
    start: spec_fn(S, Tag, nat, Result<S, OxmlError>, nat) -> bool,
    o: S,
    t: Tag,
    n: nat,
    mq: (Result<S, OxmlError>, nat),
) -> bool {
    start(o, t, n + 1, mq.0, mq.1)
}

/// What capturing the element a start tag opens, from call `p` on of a
/// reader over `x` (with the budget for what is left unread), ends in: the
/// bytes or the error, and the call after it.
pub open spec fn captured(x: Seq<u8>, tr: bool, p: nat, t: Tag) -> (Result<Seq<u8>, OxmlError>, nat) {
    let c = capture_run(x, tr, p, t.name@, 1, start_raw(t), budget_for(xml_unread(x, tr, p)));
    (c.0, c.1)
}

/// The start relation of an element that keeps every child element
/// verbatim, added to the state as `keep` says.
pub open spec fn cap_start<S>(x: Seq<u8>, tr: bool, keep: spec_fn(S, S, Seq<u8>) -> bool) -> spec_fn(
    S,
    Tag,
    nat,
    Result<S, OxmlError>,
    nat,
) -> bool {
    |o: S, t: Tag, p: nat, m: Result<S, OxmlError>, q: nat|
        {
            let c = captured(x, tr, p, t);
            q == c.1 && match c.0 {
                Ok(b) => (m matches Ok(s2) && keep(o, s2, b)),
                Err(e) => m == Err::<S, OxmlError>(e),
            }
        }
}

/// One step of `flat_cap_run` over an empty element that does not fail.
pub proof fn lemma_flat_cap_empty<S>(
    x: Seq<u8>,
    tr: bool,
    n: nat,
    end: spec_fn(Seq<char>) -> bool,
    fails: spec_fn(S, Tag) -> bool,
    step: spec_fn(S, S, Tag) -> bool,
    start: spec_fn(S, Tag, nat, Result<S, OxmlError>, nat) -> bool,
    o: S,
    m: S,
    f: nat,
    t: Tag,
    res: ReadOutcome<S>,
)
    requires
        f > 0,
        xml_event(x, tr, n) == Ok::<ReadEvent, OxmlError>(ReadEvent::Empty(t)),
        !fails(o, t),
        step(o, m, t),
        flat_cap_run(x, tr, n + 1, end, fails, step, start, m, (f - 1) as nat, res),
    ensures
        flat_cap_run(x, tr, n, end, fails, step, start, o, f, res),
{
    assert(step_holds(step, o, m, t));
}

/// One step of `flat_cap_run` over a whole element.
pub proof fn lemma_flat_cap_start<S>(
    x: Seq<u8>,
    tr: bool,
    n: nat,
    end: spec_fn(Seq<char>) -> bool,
    fails: spec_fn(S, Tag) -> bool,
    step: spec_fn(S, S, Tag) -> bool,
    start: spec_fn(S, Tag, nat, Result<S, OxmlError>, nat) -> bool,
    o: S,
    f: nat,
    t: Tag,
    m: Result<S, OxmlError>,
    q: nat,
    res: ReadOutcome<S>,
)
    requires
        f > 0,
        xml_event(x, tr, n) == Ok::<ReadEvent, OxmlError>(ReadEvent::Start(t)),
        start(o, t, n + 1, m, q),
        match m {
            Ok(s2) => flat_cap_run(x, tr, q, end, fails, step, start, s2, (f - 1) as nat, res),
            Err(e) => res == (Err::<S, OxmlError>(e), q, (f - 1) as nat),
        },
    ensures
        flat_cap_run(x, tr, n, end, fails, step, start, o, f, res),
{
    let mq = (m, q);
    assert(start_holds(start, o, t, n, mq));
    assert(match mq.0 {
        Ok(s2) => flat_cap_run(x, tr, mq.1, end, fails, step, start, s2, (f - 1) as nat, res),
        Err(e) => res == (Err::<S, OxmlError>(e), mq.1, (f - 1) as nat),
    });
    assert(f != 0);
    assert(xml_event(x, tr, n) matches Ok(ReadEvent::Start(tt)) && tt == t);
}

/// Where reading paragraph borders fails: an edge whose attributes do not
/// read.
pub open spec fn pbdr_fails() -> spec_fn(CT_PBdr, Tag) -> bool {
    |o: CT_PBdr, t: Tag| edge_fold(t.attrs@) is None
}

/// What an empty element does to paragraph borders: the edge it names is
/// set from its attributes.
pub open spec fn pbdr_step() -> spec_fn(CT_PBdr, CT_PBdr, Tag) -> bool {
    |o: CT_PBdr, m: CT_PBdr, t: Tag| exists|e: CT_BorderEdge| edge_read(e, t.attrs@) && #[trigger] pbdr_after_edge(o, m, t.name@, e)
}

/// Paragraph borders with no edge set.
pub open spec fn pbdr_none() -> CT_PBdr {
    CT_PBdr { top: None, bottom: None, left: None, right: None, between: None, bar: None }
}

/// Reading paragraph borders from call `n` on ends in `res`.
pub open spec fn pbdr_run(x: Seq<u8>, tr: bool, n: nat, f: nat, res: ReadOutcome<CT_PBdr>) -> bool {
    flat_run(x, tr, n, ends_at("pBdr"@), pbdr_fails(), pbdr_step(), pbdr_none(), f, res)
}

impl CT_PBdr {
    /// Read paragraph borders from the events after `<w:pBdr>` up to its
    /// end (or the end of input).
    pub fn from_xml(reader: &mut XmlReader) -> (r: Result<Self, OxmlError>)
        ensures
            final(reader).same_input(old(reader)),
            exists|f: nat|
                #[trigger] pbdr_run(
                    old(reader).input(),
                    old(reader).trims(),
                    old(reader).count(),
                    budget_left(old(reader)),
                    (r, final(reader).count(), f),
                ),
    {
        let budget = event_budget(unread_len(reader));
        let (r, f) = Self::read_from(reader, budget);
        proof {
            let ghost w = f as nat;
            assert(pbdr_run(old(reader).input(), old(reader).trims(), old(reader).count(),
                budget_left(old(reader)), (r, reader.count(), w)));
        }
        r
    }

    /// Read paragraph borders, reading at most `budget` events.
    pub fn read_from(reader: &mut XmlReader, budget: u64) -> (r: (Result<Self, OxmlError>, u64))
        ensures
            final(reader).same_input(old(reader)),
            r.1 <= budget,
            pbdr_run(old(reader).input(), old(reader).trims(), old(reader).count(), budget as nat,
                (r.0, final(reader).count(), r.1 as nat)),
    {
        let ghost x = reader.input();
        let ghost tr = reader.trims();
        let ghost n0 = reader.count();
        let mut bdr = CT_PBdr { top: None, bottom: None, left: None, right: None, between: None, bar: None };
        let mut fuel = budget;
        while fuel > 0
            invariant
                fuel <= budget,
                reader.input() == x,
                reader.trims() == tr,
                x == old(reader).input(),
                tr == old(reader).trims(),
                n0 == old(reader).count(),
                forall|res: ReadOutcome<CT_PBdr>|
                    #[trigger] flat_run(x, tr, reader.count(), ends_at("pBdr"@), pbdr_fails(), pbdr_step(), bdr, fuel as nat, res)
                        ==> pbdr_run(x, tr, n0, budget as nat, res),
            decreases fuel,
        {
            let ghost n = reader.count();
            let ghost o = bdr;
            let ghost f1 = fuel as nat;
            fuel = fuel - 1;
            match read_event(reader) {
                Ok(ReadEvent::Empty(t)) => {
                    if let Err(e) = read_pbdr_empty(&mut bdr, &t) {
                        proof {
                            assert(flat_run(x, tr, n, ends_at("pBdr"@), pbdr_fails(), pbdr_step(), o, f1,
                                (Err::<CT_PBdr, OxmlError>(e), reader.count(), fuel as nat)));
                        }
                        return (Err(e), fuel);
                    }
                    proof {
                        assert(pbdr_step()(o, bdr, t));
                        assert forall|res: ReadOutcome<CT_PBdr>|
                            #[trigger] flat_run(x, tr, reader.count(), ends_at("pBdr"@), pbdr_fails(), pbdr_step(), bdr, fuel as nat, res)
                            implies flat_run(x, tr, n, ends_at("pBdr"@), pbdr_fails(), pbdr_step(), o, f1, res) by {
                            lemma_flat_empty(x, tr, n, ends_at("pBdr"@), pbdr_fails(), pbdr_step(), o, bdr, f1, t, res);
                        }
                    }
                },
                Ok(ReadEvent::End(nm)) => {
                    if name_is(nm.as_str(), "pBdr") {
                        proof {
                            assert(flat_run(x, tr, n, ends_at("pBdr"@), pbdr_fails(), pbdr_step(), o, f1,
                                (Ok::<CT_PBdr, OxmlError>(bdr), reader.count(), fuel as nat)));
                        }
                        return (Ok(bdr), fuel);
                    }
                    proof {
                        assert forall|res: ReadOutcome<CT_PBdr>|
                            #[trigger] flat_run(x, tr, reader.count(), ends_at("pBdr"@), pbdr_fails(), pbdr_step(), bdr, fuel as nat, res)
                            implies flat_run(x, tr, n, ends_at("pBdr"@), pbdr_fails(), pbdr_step(), o, f1, res) by {}
                    }
                },
                Ok(ReadEvent::Eof) => {
                    proof {
                        assert(flat_run(x, tr, n, ends_at("pBdr"@), pbdr_fails(), pbdr_step(), o, f1,
                            (Ok::<CT_PBdr, OxmlError>(bdr), reader.count(), fuel as nat)));
                    }
                    return (Ok(bdr), fuel);
                },
                Ok(_) => {
                    proof {
                        assert forall|res: ReadOutcome<CT_PBdr>|
                            #[trigger] flat_run(x, tr, reader.count(), ends_at("pBdr"@), pbdr_fails(), pbdr_step(), bdr, fuel as nat, res)
                            implies flat_run(x, tr, n, ends_at("pBdr"@), pbdr_fails(), pbdr_step(), o, f1, res) by {}
                    }
                },
                Err(e) => {
                    proof {
                        assert(flat_run(x, tr, n, ends_at("pBdr"@), pbdr_fails(), pbdr_step(), o, f1,
                            (Err::<CT_PBdr, OxmlError>(e), reader.count(), fuel as nat)));
                    }
                    return (Err(e), fuel);
                },
            }
        }
        proof {
            assert(flat_run(x, tr, reader.count(), ends_at("pBdr"@), pbdr_fails(), pbdr_step(), bdr, 0nat,
                (Ok::<CT_PBdr, OxmlError>(bdr), reader.count(), 0nat)));
        }
        (Ok(bdr), fuel)
    }
}

/// A tab stop read from its attributes in order: alignment (left unless
/// given), position (0 unless given) and leader; `None` when a value names
/// no alignment or leader, or the position is not a number.
pub open spec fn tab_fold(a: Seq<(String, String)>) -> Option<(ST_TabJc, i32, Option<ST_TabLeader>)>
    decreases a.len(),
{
    if a.len() == 0 {
        Some((ST_TabJc::Left, 0i32, None))
    } else {
        match tab_fold(a.drop_last()) {
            None => None,
            Some((val, pos, leader)) => {
                let k = a.last().0@;
                let v = a.last().1@;
                if local_is(k, "val"@) {
                    match tab_jc_parse(v) {
                        Some(j) => Some((j, pos, leader)),
                        None => None,
                    }
                } else if local_is(k, "pos"@) {
                    match parse_i32(v) {
                        Some(n) => Some((val, n, leader)),
                        None => None,
                    }
                } else if local_is(k, "leader"@) {
                    match tab_leader_parse(v) {
                        Some(l) => Some((val, pos, Some(l))),
                        None => None,
                    }
                } else {
                    Some((val, pos, leader))
                }
            },
        }
    }
}

/// Once reading a tab stop fails on a prefix of the attributes, it fails.
pub proof fn lemma_tab_fold_fails(a: Seq<(String, String)>, i: int)
    requires
        0 <= i <= a.len(),
        tab_fold(a.take(i)) is None,
    ensures
        tab_fold(a) is None,
    decreases a.len() - i,
{
    if i < a.len() {
        assert(a.take(i + 1).drop_last() =~= a.take(i));
        lemma_tab_fold_fails(a, i + 1);
    } else {
        assert(a.take(i) =~= a);
    }
}

impl CT_TabStop {
    /// A tab stop from an element's attributes.
    pub fn from_xml_attrs(t: &Tag) -> (r: Result<Self, OxmlError>)
        ensures
            r is Ok <==> tab_fold(t.attrs@) is Some,
            r matches Ok(ts) ==> tab_fold(t.attrs@) == Some((ts.val, ts.pos.0, ts.leader)),
    {
        let a = &t.attrs;
        let mut val = ST_TabJc::Left;
        let mut pos: i32 = 0;
        let mut leader: Option<ST_TabLeader> = None;
        let mut i: usize = 0;
        proof { assert(a@.take(0) =~= Seq::<(String, String)>::empty()); }
        while i < a.len()
            invariant
                i <= a@.len(),
                a@ == t.attrs@,
                tab_fold(a@.take(i as int)) == Some((val, pos, leader)),
            decreases a@.len() - i,
        {
            proof {
                assert(a@.take(i + 1).drop_last() =~= a@.take(i as int));
                assert(a@.take(i + 1).last() == a@[i as int]);
            }
            let k = a[i].0.as_str();
            let v = a[i].1.as_str();
            if name_is(k, "val") {
                match ST_TabJc::from_str(v) {
                    Ok(j) => { val = j; },
                    Err(e) => {
                        proof { lemma_tab_fold_fails(a@, i + 1); }
                        return Err(e);
                    },
                }
            } else if name_is(k, "pos") {
                match parse_i32_str(v) {
                    Some(n) => { pos = n; },
                    None => {
                        proof { lemma_tab_fold_fails(a@, i + 1); }
                        return Err(OxmlError::ParseInt(to_owned_string(v)));
                    },
                }
            } else if name_is(k, "leader") {
                match ST_TabLeader::from_str(v) {
                    Ok(l) => { leader = Some(l); },
                    Err(e) => {
                        proof { lemma_tab_fold_fails(a@, i + 1); }
                        return Err(e);
                    },
                }
            }
            i = i + 1;
        }
        proof { assert(a@.take(i as int) =~= a@); }
        Ok(CT_TabStop { val, pos: Twips(pos), leader })
    }
}

/// Where reading tab stops fails: a `tab` whose attributes do not read.
pub open spec fn tabs_fails() -> spec_fn(Seq<CT_TabStop>, Tag) -> bool {
    |o: Seq<CT_TabStop>, t: Tag| local_is(t.name@, "tab"@) && tab_fold(t.attrs@) is None
}

/// The tab stop that attributes read as.
pub open spec fn tab_stop_of(v: (ST_TabJc, i32, Option<ST_TabLeader>)) -> CT_TabStop {
    CT_TabStop { val: v.0, pos: Twips(v.1), leader: v.2 }
}

/// What an empty element does to the tab stops read so far: a `tab` adds
/// the stop its attributes give; other elements change nothing.
pub open spec fn tabs_step() -> spec_fn(Seq<CT_TabStop>, Seq<CT_TabStop>, Tag) -> bool {
    |o: Seq<CT_TabStop>, m: Seq<CT_TabStop>, t: Tag|
        if local_is(t.name@, "tab"@) {
            tab_fold(t.attrs@) matches Some(v) && m == o.push(tab_stop_of(v))
        } else {
            m == o
        }
}

/// The tab stops of a result, by their view.
pub open spec fn tabs_res(r: Result<CT_Tabs, OxmlError>) -> Result<Seq<CT_TabStop>, OxmlError> {
    match r {
        Ok(tb) => Ok(tb.tabs@),
        Err(e) => Err(e),
    }
}

/// Reading tab stops from call `n` on ends in `res`.
pub open spec fn tabs_run(x: Seq<u8>, tr: bool, n: nat, f: nat, res: ReadOutcome<Seq<CT_TabStop>>) -> bool {
    flat_run(x, tr, n, ends_at("tabs"@), tabs_fails(), tabs_step(), Seq::empty(), f, res)
}

/// Read one empty element into the tab stops.
fn read_tab_empty(v: &mut Vec<CT_TabStop>, t: &Tag) -> (r: Result<(), OxmlError>)
    ensures
        r is Err <==> tabs_fails()(old(v)@, *t),
        r is Ok ==> tabs_step()(old(v)@, final(v)@, *t),
{
    if name_is(t.name.as_str(), "tab") {
        match CT_TabStop::from_xml_attrs(t) {
            Ok(ts) => {
                v.push(ts);
                Ok(())
            },
            Err(e) => Err(e),
        }
    } else {
        Ok(())
    }
}

impl CT_Tabs {
    /// Read tab stops from the events after `<w:tabs>` up to its end (or
    /// the end of input).
    pub fn from_xml(reader: &mut XmlReader) -> (r: Result<Self, OxmlError>)
        ensures
            final(reader).same_input(old(reader)),
            exists|f: nat|
                #[trigger] tabs_run(
                    old(reader).input(),
                    old(reader).trims(),
                    old(reader).count(),
                    budget_left(old(reader)),
                    (tabs_res(r), final(reader).count(), f),
                ),
    {
        let budget = event_budget(unread_len(reader));
        let (r, f) = Self::read_from(reader, budget);
        proof {
            let ghost w = f as nat;
            assert(tabs_run(old(reader).input(), old(reader).trims(), old(reader).count(),
                budget_left(old(reader)), (tabs_res(r), reader.count(), w)));
        }
        r
    }

    /// Read tab stops, reading at most `budget` events.
    pub fn read_from(reader: &mut XmlReader, budget: u64) -> (r: (Result<Self, OxmlError>, u64))
        ensures
            final(reader).same_input(old(reader)),
            r.1 <= budget,
            tabs_run(old(reader).input(), old(reader).trims(), old(reader).count(), budget as nat,
                (tabs_res(r.0), final(reader).count(), r.1 as nat)),
    {
        let ghost x = reader.input();
        let ghost tr = reader.trims();
        let ghost n0 = reader.count();
        let mut tabs: Vec<CT_TabStop> = Vec::new();
        proof { assert(tabs@ =~= Seq::<CT_TabStop>::empty()); }
        let mut fuel = budget;
        while fuel > 0
            invariant
                fuel <= budget,
                reader.input() == x,
                reader.trims() == tr,
                x == old(reader).input(),
                tr == old(reader).trims(),
                n0 == old(reader).count(),
                forall|res: ReadOutcome<Seq<CT_TabStop>>|
                    #[trigger] flat_run(x, tr, reader.count(), ends_at("tabs"@), tabs_fails(), tabs_step(), tabs@, fuel as nat, res)
                        ==> tabs_run(x, tr, n0, budget as nat, res),
            decreases fuel,
        {
            let ghost n = reader.count();
            let ghost o = tabs@;
            let ghost f1 = fuel as nat;
            fuel = fuel - 1;
            match read_event(reader) {
                Ok(ReadEvent::Empty(t)) => {
                    if let Err(e) = read_tab_empty(&mut tabs, &t) {
                        proof {
                            assert(flat_run(x, tr, n, ends_at("tabs"@), tabs_fails(), tabs_step(), o, f1, (Err::<Seq<CT_TabStop>, OxmlError>(e), reader.count(), fuel as nat)));
                        }
                        return (Err(e), fuel);
                    }
                    proof {
                        assert(tabs_step()(o, tabs@, t));
                        assert forall|res: ReadOutcome<Seq<CT_TabStop>>|
                            #[trigger] flat_run(x, tr, reader.count(), ends_at("tabs"@), tabs_fails(), tabs_step(), tabs@, fuel as nat, res)
                            implies flat_run(x, tr, n, ends_at("tabs"@), tabs_fails(), tabs_step(), o, f1, res) by {
                            lemma_flat_empty(x, tr, n, ends_at("tabs"@), tabs_fails(), tabs_step(), o, tabs@, f1, t, res);
                        }
                    }
                },
                Ok(ReadEvent::End(nm)) => {
                    if name_is(nm.as_str(), "tabs") {
                        proof {
                            assert(flat_run(x, tr, n, ends_at("tabs"@), tabs_fails(), tabs_step(), o, f1, (Ok::<Seq<CT_TabStop>, OxmlError>(tabs@), reader.count(), fuel as nat)));
                        }
                        return (Ok(CT_Tabs { tabs }), fuel);
                    }
                    proof {
                        assert forall|res: ReadOutcome<Seq<CT_TabStop>>|
                            #[trigger] flat_run(x, tr, reader.count(), ends_at("tabs"@), tabs_fails(), tabs_step(), tabs@, fuel as nat, res)
                            implies flat_run(x, tr, n, ends_at("tabs"@), tabs_fails(), tabs_step(), o, f1, res) by {}
                    }
                },
                Ok(ReadEvent::Eof) => {
                    proof {
                        assert(flat_run(x, tr, n, ends_at("tabs"@), tabs_fails(), tabs_step(), o, f1, (Ok::<Seq<CT_TabStop>, OxmlError>(tabs@), reader.count(), fuel as nat)));
                    }
                    return (Ok(CT_Tabs { tabs }), fuel);
                },
                Ok(_) => {
                    proof {
                        assert forall|res: ReadOutcome<Seq<CT_TabStop>>|
                            #[trigger] flat_run(x, tr, reader.count(), ends_at("tabs"@), tabs_fails(), tabs_step(), tabs@, fuel as nat, res)
                            implies flat_run(x, tr, n, ends_at("tabs"@), tabs_fails(), tabs_step(), o, f1, res) by {}
                    }
                },
                Err(e) => {
                    proof {
                        assert(flat_run(x, tr, n, ends_at("tabs"@), tabs_fails(), tabs_step(), o, f1, (Err::<Seq<CT_TabStop>, OxmlError>(e), reader.count(), fuel as nat)));
                    }
                    return (Err(e), fuel);
                },
            }
        }
        proof {
            assert(flat_run(x, tr, reader.count(), ends_at("tabs"@), tabs_fails(), tabs_step(), tabs@, 0nat, (Ok::<Seq<CT_TabStop>, OxmlError>(tabs@), reader.count(), 0nat)));
        }
        (Ok(CT_Tabs { tabs }), fuel)
    }
}

/// The value of the attribute named `local`, or nothing.
pub open spec fn attr_text(t: Tag, local: Seq<char>) -> Seq<char> {
    match first_attr(t.attrs@, local) {
        Some(v) => v,
        None => Seq::empty(),
    }
}

/// The attribute named `local`, or the empty string.
fn attr_or_empty(t: &Tag, local: &str) -> (r: String)
    ensures
        r@ == attr_text(*t, local@),
{
    match get_attr(&t.attrs, local) {
        Some(v) => v,
        None => String::new(),
    }
}

/// What a reading loop reports: the value or error, how many events the
/// reader has handed out by then, and the budget of events left.
pub type ReadOutcome<T> = (Result<T, OxmlError>, nat, nat);

/// `m` is `o` with the revision mark that `t` opens and whose previous
/// properties are `prev`.
pub open spec fn rpr_change_set(o: CT_RPr, m: CT_RPr, t: Tag, prev: CT_RPr) -> bool {
    &&& m == (CT_RPr { rpr_change: m.rpr_change, ..o })
    &&& m.rpr_change matches Some(ch) && ch.author@ == attr_text(t, "author"@) && ch.date@ == attr_text(
        t,
        "date"@,
    ) && *ch.previous == prev
}

/// `m` is `o` with one more element kept verbatim.
pub open spec fn rpr_extra_set(o: CT_RPr, m: CT_RPr, raw: Seq<u8>) -> bool {
    m == (CT_RPr { extra_xml: m.extra_xml, ..o }) && extra_added(o.extra_xml, m.extra_xml, raw)
}

/// Reading run properties from call `n` on of a reader over `x`, over the
/// properties `o` read so far and with `f` events left, ends in `res`:
/// an empty element sets what `rpr_after_empty` says or fails as
/// `rpr_empty_fails` says; a revision mark gives its author, date and the
/// previous properties read inside it; another element is kept verbatim;
/// the end tag `rPr`, the end of input or the last event allowed ends the
/// reading, an error of the reader fails it, and any other event is passed.
pub open spec fn rpr_run(x: Seq<u8>, tr: bool, n: nat, o: CT_RPr, f: nat, res: ReadOutcome<CT_RPr>) -> bool
    decreases f,
{
    if f == 0 {
        res == (Ok::<CT_RPr, OxmlError>(o), n, 0nat)
    } else {
        let g = (f - 1) as nat;
        match xml_event(x, tr, n) {
            Ok(ReadEvent::Empty(t)) => if rpr_empty_fails(t) {
                res.0 is Err && res.1 == n + 1 && res.2 == g
            } else {
                exists|m: CT_RPr| #[trigger] rpr_after_empty(o, m, t) && rpr_run(x, tr, n + 1, m, g, res)
            },
            Ok(ReadEvent::Start(t)) => if local_is(t.name@, "rPrChange"@) {
                exists|c: ReadOutcome<CT_RPr>|
                    #![trigger c.2]
                    c.2 <= g && rpr_change_run(x, tr, n + 1, rpr_none(), g, c) && match c.0 {
                        Ok(prev) => exists|m: CT_RPr| #[trigger]
                            rpr_change_set(o, m, t, prev) && rpr_run(x, tr, c.1, m, c.2, res),
                        Err(e) => res == (Err::<CT_RPr, OxmlError>(e), c.1, c.2),
                    }
            } else {
                let c = capture_run(x, tr, n + 1, t.name@, 1, start_raw(t), g);
                c.2 <= g && match c.0 {
                    Ok(b) => exists|m: CT_RPr| #[trigger] rpr_extra_set(o, m, b) && rpr_run(x, tr, c.1, m, c.2, res),
                    Err(e) => res == (Err::<CT_RPr, OxmlError>(e), c.1, c.2),
                }
            },
            Ok(ReadEvent::End(m)) => if local_is(m@, "rPr"@) {
                res == (Ok::<CT_RPr, OxmlError>(o), n + 1, g)
            } else {
                rpr_run(x, tr, n + 1, o, g, res)
            },
            Ok(ReadEvent::Eof) => res == (Ok::<CT_RPr, OxmlError>(o), n + 1, g),
            Ok(_) => rpr_run(x, tr, n + 1, o, g, res),
            Err(e) => res == (Err::<CT_RPr, OxmlError>(e), n + 1, g),
        }
    }
}

/// Reading the inside of a run-property revision mark from call `n` on,
/// with the previous properties `prev` read so far and `f` events left,
/// ends in `c`: each `rPr` inside is read as `rpr_run` says and replaces
/// `prev`; the end tag `rPrChange`, the end of input or the last event
/// allowed ends the reading, and an error fails it.
pub open spec fn rpr_change_run(x: Seq<u8>, tr: bool, n: nat, prev: CT_RPr, f: nat, c: ReadOutcome<CT_RPr>) -> bool
    decreases f,
{
    if f == 0 {
        c == (Ok::<CT_RPr, OxmlError>(prev), n, 0nat)
    } else {
        let g = (f - 1) as nat;
        match xml_event(x, tr, n) {
            Ok(ReadEvent::Start(it)) => if local_is(it.name@, "rPr"@) {
                exists|p: ReadOutcome<CT_RPr>|
                    #![trigger p.2]
                    p.2 <= g && rpr_run(x, tr, n + 1, rpr_none(), g, p) && match p.0 {
                        Ok(q) => rpr_change_run(x, tr, p.1, q, p.2, c),
                        Err(e) => c == (Err::<CT_RPr, OxmlError>(e), p.1, p.2),
                    }
            } else {
                rpr_change_run(x, tr, n + 1, prev, g, c)
            },
            Ok(ReadEvent::End(m)) => if local_is(m@, "rPrChange"@) {
                c == (Ok::<CT_RPr, OxmlError>(prev), n + 1, g)
            } else {
                rpr_change_run(x, tr, n + 1, prev, g, c)
            },
            Ok(ReadEvent::Eof) => c == (Ok::<CT_RPr, OxmlError>(prev), n + 1, g),
            Ok(_) => rpr_change_run(x, tr, n + 1, prev, g, c),
            Err(e) => c == (Err::<CT_RPr, OxmlError>(e), n + 1, g),
        }
    }
}

/// One step of `rpr_run` over an element kept verbatim.
proof fn lemma_rpr_capture(x: Seq<u8>, tr: bool, n: nat, o: CT_RPr, m: CT_RPr, f: nat, t: Tag, res: ReadOutcome<CT_RPr>)
    requires
        f > 0,
        xml_event(x, tr, n) == Ok::<ReadEvent, OxmlError>(ReadEvent::Start(t)),
        !local_is(t.name@, "rPrChange"@),
        ({
            let c = capture_run(x, tr, n + 1, t.name@, 1, start_raw(t), (f - 1) as nat);
            &&& c.2 <= (f - 1) as nat
            &&& c.0 matches Ok(b) && rpr_extra_set(o, m, b) && rpr_run(x, tr, c.1, m, c.2, res)
        }),
    ensures
        rpr_run(x, tr, n, o, f, res),
{
}

/// One step of `rpr_change_run` over an `rPr` inside the revision mark.
proof fn lemma_rpr_change_inner(x: Seq<u8>, tr: bool, n: nat, prev: CT_RPr, f: nat, p: ReadOutcome<CT_RPr>, c: ReadOutcome<CT_RPr>)
    requires
        f > 0,
        xml_event(x, tr, n) matches Ok(ReadEvent::Start(it)) && local_is(it.name@, "rPr"@),
        p.2 <= (f - 1) as nat,
        rpr_run(x, tr, n + 1, rpr_none(), (f - 1) as nat, p),
        match p.0 {
            Ok(q) => rpr_change_run(x, tr, p.1, q, p.2, c),
            Err(e) => c == (Err::<CT_RPr, OxmlError>(e), p.1, p.2),
        },
    ensures
        rpr_change_run(x, tr, n, prev, f, c),
{
}

impl CT_RPr {
    /// Read run properties from the events after `<w:rPr>` up to its end
    /// (or the end of input): each empty element as `read_rpr_empty` says, a
    /// revision mark with its author, date and previous properties, and any
    /// other element kept verbatim.
    pub fn from_xml(reader: &mut XmlReader) -> (r: Result<Self, OxmlError>)
        ensures
            final(reader).same_input(old(reader)),
            exists|f: nat|
                #[trigger] rpr_run(
                    old(reader).input(),
                    old(reader).trims(),
                    old(reader).count(),
                    rpr_none(),
                    budget_left(old(reader)),
                    (r, final(reader).count(), f),
                ),
    {
        let budget = event_budget(unread_len(reader));
        let (r, f) = Self::read_from(reader, budget);
        proof {
            let ghost w = f as nat;
            assert(rpr_run(old(reader).input(), old(reader).trims(), old(reader).count(), rpr_none(),
                budget_left(old(reader)), (r, reader.count(), w)));
        }
        r
    }

    /// Read run properties, reading at most `budget` events.
    pub fn read_from(reader: &mut XmlReader, budget: u64) -> (r: (Result<Self, OxmlError>, u64))
        ensures
            final(reader).same_input(old(reader)),
            r.1 <= budget,
            rpr_run(
                old(reader).input(),
                old(reader).trims(),
                old(reader).count(),
                rpr_none(),
                budget as nat,
                (r.0, final(reader).count(), r.1 as nat),
            ),
        decreases budget,
    {
        let ghost x = reader.input();
        let ghost tr = reader.trims();
        let ghost n0 = reader.count();
        let mut rpr = CT_RPr::default();
        let mut fuel = budget;
        while fuel > 0
            invariant
                fuel <= budget,
                reader.input() == x,
                reader.trims() == tr,
                x == old(reader).input(),
                tr == old(reader).trims(),
                n0 == old(reader).count(),
                forall|res: ReadOutcome<CT_RPr>|
                    #[trigger] rpr_run(x, tr, reader.count(), rpr, fuel as nat, res) ==> rpr_run(
                        x,
                        tr,
                        n0,
                        rpr_none(),
                        budget as nat,
                        res,
                    ),
            decreases fuel,
        {
            let ghost n = reader.count();
            let ghost o = rpr;
            let ghost f1 = fuel as nat;
            fuel = fuel - 1;
            let ev = read_event(reader);
            let ghost gev = ev;
            match ev {
                Ok(ReadEvent::Empty(t)) => {
                    if let Err(e) = read_rpr_empty(&mut rpr, &t) {
                        proof {
                            let res = (Err::<CT_RPr, OxmlError>(e), reader.count(), fuel as nat);
                            assert(rpr_run(x, tr, n, o, f1, res));
                        }
                        return (Err(e), fuel);
                    }
                    proof {
                        assert forall|res: ReadOutcome<CT_RPr>|
                            #[trigger] rpr_run(x, tr, reader.count(), rpr, fuel as nat, res) implies rpr_run(
                            x,
                            tr,
                            n,
                            o,
                            f1,
                            res,
                        ) by {
                            assert(rpr_after_empty(o, rpr, t));
                        }
                    }
                },
                Ok(ReadEvent::Start(t)) => {
                    if name_is(t.name.as_str(), "rPrChange") {
                        let author = attr_or_empty(&t, "author");
                        let date = attr_or_empty(&t, "date");
                        let mut prev = CT_RPr::default();
                        let ghost nt = reader.count();
                        let ghost ft = fuel as nat;
                        while fuel > 0
                            invariant_except_break
                                forall|c: ReadOutcome<CT_RPr>|
                                    #[trigger] rpr_change_run(x, tr, reader.count(), prev, fuel as nat, c)
                                        ==> rpr_change_run(x, tr, nt, rpr_none(), ft, c),
                                fuel == 0 ==> rpr_change_run(x, tr, nt, rpr_none(), ft,
                                    (Ok::<CT_RPr, OxmlError>(prev), reader.count(), 0nat)),
                            invariant
                                fuel <= ft,
                                ft < budget,
                                ft + 1 == f1,
                                nt == n + 1,
                                reader.input() == x,
                                reader.trims() == tr,
                                x == old(reader).input(),
                                tr == old(reader).trims(),
                                n0 == old(reader).count(),
                                rpr == o,
                                gev == xml_event(x, tr, n),
                                gev == Ok::<ReadEvent, OxmlError>(ReadEvent::Start(t)),
                                local_is(t.name@, "rPrChange"@),
                                author@ == attr_text(t, "author"@),
                                date@ == attr_text(t, "date"@),
                                forall|res: ReadOutcome<CT_RPr>|
                                    #[trigger] rpr_run(x, tr, n, o, f1, res) ==> rpr_run(
                                        x,
                                        tr,
                                        n0,
                                        rpr_none(),
                                        budget as nat,
                                        res,
                                    ),
                            ensures
                                fuel <= ft,
                                ft < budget,
                                ft + 1 == f1,
                                nt == n + 1,
                                reader.input() == x,
                                reader.trims() == tr,
                                x == old(reader).input(),
                                tr == old(reader).trims(),
                                n0 == old(reader).count(),
                                rpr == o,
                                gev == xml_event(x, tr, n),
                                gev == Ok::<ReadEvent, OxmlError>(ReadEvent::Start(t)),
                                local_is(t.name@, "rPrChange"@),
                                author@ == attr_text(t, "author"@),
                                date@ == attr_text(t, "date"@),
                                forall|res: ReadOutcome<CT_RPr>|
                                    #[trigger] rpr_run(x, tr, n, o, f1, res) ==> rpr_run(
                                        x,
                                        tr,
                                        n0,
                                        rpr_none(),
                                        budget as nat,
                                        res,
                                    ),
                                rpr_change_run(x, tr, nt, rpr_none(), ft, (Ok::<CT_RPr, OxmlError>(prev), reader.count(), fuel as nat)),
                            decreases fuel,
                        {
                            let ghost ni = reader.count();
                            let ghost pv = prev;
                            let ghost fi = fuel as nat;
                            fuel = fuel - 1;
                            let iev = read_event(reader);
                            match iev {
                                Ok(ReadEvent::Start(it)) => {
                                    if name_is(it.name.as_str(), "rPr") {
                                        let (p, f) = CT_RPr::read_from(reader, fuel);
                                        let ghost po = (p, reader.count(), f as nat);
                                        fuel = f;
                                        match p {
                                            Ok(p) => {
                                                prev = p;
                                                proof {
                                                    assert(xml_event(x, tr, ni) == Ok::<ReadEvent, OxmlError>(ReadEvent::Start(it)));
                                                    assert(local_is(it.name@, "rPr"@));
                                                    assert(rpr_run(x, tr, ni + 1, rpr_none(), (fi - 1) as nat, po));
                                                    assert(po.0 == Ok::<CT_RPr, OxmlError>(prev));
                                                    assert forall|c: ReadOutcome<CT_RPr>|
                                                        #[trigger] rpr_change_run(x, tr, reader.count(), prev, fuel as nat, c)
                                                        implies rpr_change_run(x, tr, ni, pv, fi, c) by {
                                                        lemma_rpr_change_inner(x, tr, ni, pv, fi, po, c);
                                                    }
                                                }
                                            },
                                            Err(e) => {
                                                proof {
                                                    let c = (Err::<CT_RPr, OxmlError>(e), reader.count(), fuel as nat);
                                                    lemma_rpr_change_inner(x, tr, ni, pv, fi, po, c);
                                                    assert(rpr_change_run(x, tr, nt, rpr_none(), ft, c));
                                                    assert(c.2 <= ft);
                                                    assert(rpr_run(x, tr, n, o, f1, c));
                                                }
                                                return (Err(e), fuel);
                                            },
                                        }
                                    } else {
                                        proof {
                                            assert forall|c: ReadOutcome<CT_RPr>|
                                                #[trigger] rpr_change_run(x, tr, reader.count(), prev, fuel as nat, c)
                                                implies rpr_change_run(x, tr, ni, pv, fi, c) by {}
                                        }
                                    }
                                },
                                Ok(ReadEvent::End(nm)) => {
                                    if name_is(nm.as_str(), "rPrChange") {
                                        proof {
                                            assert(rpr_change_run(x, tr, ni, pv, fi,
                                                (Ok::<CT_RPr, OxmlError>(prev), reader.count(), fuel as nat)));
                                        }
                                        break;
                                    }
                                    proof {
                                        assert forall|c: ReadOutcome<CT_RPr>|
                                            #[trigger] rpr_change_run(x, tr, reader.count(), prev, fuel as nat, c)
                                            implies rpr_change_run(x, tr, ni, pv, fi, c) by {}
                                    }
                                },
                                Ok(ReadEvent::Eof) => {
                                    proof {
                                        assert(rpr_change_run(x, tr, ni, pv, fi,
                                            (Ok::<CT_RPr, OxmlError>(prev), reader.count(), fuel as nat)));
                                    }
                                    break;
                                },
                                Ok(_) => {
                                    proof {
                                        assert forall|c: ReadOutcome<CT_RPr>|
                                            #[trigger] rpr_change_run(x, tr, reader.count(), prev, fuel as nat, c)
                                            implies rpr_change_run(x, tr, ni, pv, fi, c) by {}
                                    }
                                },
                                Err(e) => {
                                    proof {
                                        let c = (Err::<CT_RPr, OxmlError>(e), reader.count(), fuel as nat);
                                        assert(rpr_change_run(x, tr, ni, pv, fi, c));
                                        assert(rpr_change_run(x, tr, nt, rpr_none(), ft, c));
                                        assert(c.2 <= ft);
                                        assert(rpr_run(x, tr, n, o, f1, c));
                                    }
                                    return (Err(e), fuel);
                                },
                            }
                            proof {
                                if fuel == 0 {
                                    assert(rpr_change_run(x, tr, reader.count(), prev, 0nat,
                                        (Ok::<CT_RPr, OxmlError>(prev), reader.count(), 0nat)));
                                }
                            }
                        }
                        let ghost cfin = (Ok::<CT_RPr, OxmlError>(prev), reader.count(), fuel as nat);
                        let ghost gp = prev;
                        rpr.rpr_change = Some(Box::new(RPrChange { author, date, previous: Box::new(prev) }));
                        proof {
                            assert(rpr_change_set(o, rpr, t, gp));
                            assert forall|res: ReadOutcome<CT_RPr>|
                                #[trigger] rpr_run(x, tr, reader.count(), rpr, fuel as nat, res) implies rpr_run(
                                x,
                                tr,
                                n,
                                o,
                                f1,
                                res,
                            ) by {
                                assert(rpr_change_run(x, tr, nt, rpr_none(), ft, cfin));
                                assert(cfin.2 <= ft);
                                assert(rpr_change_set(o, rpr, t, gp));
                            }
                        }
                    } else {
                        let (raw, f) = capture_element_within(reader, &t, fuel);
                        let ghost fold = fuel as nat;
                        fuel = f;
                        match raw {
                            Ok(b) => {
                                let ghost bb = b@;
                                push_extra(&mut rpr.extra_xml, b);
                                proof {
                                    assert(xml_event(x, tr, n) == Ok::<ReadEvent, OxmlError>(ReadEvent::Start(t)));
                                    assert(!local_is(t.name@, "rPrChange"@));
                                    let c = capture_run(x, tr, n + 1, t.name@, 1, start_raw(t), (f1 - 1) as nat);
                                    assert(c.0 == Ok::<Seq<u8>, OxmlError>(bb));
                                    assert(c.1 == reader.count());
                                    assert(c.2 == fuel);
                                    assert(rpr_extra_set(o, rpr, bb));
                                    assert forall|res: ReadOutcome<CT_RPr>|
                                        #[trigger] rpr_run(x, tr, reader.count(), rpr, fuel as nat, res) implies rpr_run(
                                        x,
                                        tr,
                                        n,
                                        o,
                                        f1,
                                        res,
                                    ) by {
                                        lemma_rpr_capture(x, tr, n, o, rpr, f1, t, res);
                                    }
                                }
                            },
                            Err(e) => {
                                proof {
                                    let res = (Err::<CT_RPr, OxmlError>(e), reader.count(), fuel as nat);
                                    assert(rpr_run(x, tr, n, o, f1, res));
                                }
                                return (Err(e), fuel);
                            },
                        }
                    }
                },
                Ok(ReadEvent::End(nm)) => {
                    if name_is(nm.as_str(), "rPr") {
                        proof {
                            assert(rpr_run(x, tr, n, o, f1, (Ok::<CT_RPr, OxmlError>(rpr), reader.count(), fuel as nat)));
                        }
                        return (Ok(rpr), fuel);
                    }
                    proof {
                        assert forall|res: ReadOutcome<CT_RPr>|
                            #[trigger] rpr_run(x, tr, reader.count(), rpr, fuel as nat, res) implies rpr_run(
                            x,
                            tr,
                            n,
                            o,
                            f1,
                            res,
                        ) by {}
                    }
                },
                Ok(ReadEvent::Eof) => {
                    proof {
                        assert(rpr_run(x, tr, n, o, f1, (Ok::<CT_RPr, OxmlError>(rpr), reader.count(), fuel as nat)));
                    }
                    return (Ok(rpr), fuel);
                },
                Ok(_) => {
                    proof {
                        assert forall|res: ReadOutcome<CT_RPr>|
                            #[trigger] rpr_run(x, tr, reader.count(), rpr, fuel as nat, res) implies rpr_run(
                            x,
                            tr,
                            n,
                            o,
                            f1,
                            res,
                        ) by {}
                    }
                },
                Err(e) => {
                    proof {
                        let res = (Err::<CT_RPr, OxmlError>(e), reader.count(), fuel as nat);
                        assert(rpr_run(x, tr, n, o, f1, res));
                    }
                    return (Err(e), fuel);
                },
            }
        }
        proof {
            assert(rpr_run(x, tr, reader.count(), rpr, 0, (Ok::<CT_RPr, OxmlError>(rpr), reader.count(), 0nat)));
        }
        (Ok(rpr), fuel)
    }
}

/// Spacing read from an element's attributes in order, over the spacing
/// `o` already has: distances before, after and between lines, the line
/// rule, and the two auto-spacing flags (on for `1` or `true`); `None` when
/// a distance is not a number.
pub open spec fn spacing_fold(a: Seq<(String, String)>, o: CT_PPr) -> Option<
    (Option<Twips>, Option<Twips>, Option<Twips>, Option<Seq<char>>, Option<bool>, Option<bool>),
>
    decreases a.len(),
{
    if a.len() == 0 {
        Some((o.space_before, o.space_after, o.line_spacing, opt_view(o.line_rule), o.before_autospacing,
            o.after_autospacing))
    } else {
        match spacing_fold(a.drop_last(), o) {
            None => None,
            Some((b, af, l, rule, ba, aa)) => {
                let k = a.last().0@;
                let v = a.last().1@;
                let flag = v == "1"@ || v == "true"@;
                if local_is(k, "before"@) {
                    match parse_i32(v) {
                        Some(n) => Some((Some(Twips(n)), af, l, rule, ba, aa)),
                        None => None,
                    }
                } else if local_is(k, "after"@) {
                    match parse_i32(v) {
                        Some(n) => Some((b, Some(Twips(n)), l, rule, ba, aa)),
                        None => None,
                    }
                } else if local_is(k, "line"@) {
                    match parse_i32(v) {
                        Some(n) => Some((b, af, Some(Twips(n)), rule, ba, aa)),
                        None => None,
                    }
                } else if local_is(k, "lineRule"@) {
                    Some((b, af, l, Some(v), ba, aa))
                } else if local_is(k, "beforeAutospacing"@) {
                    Some((b, af, l, rule, Some(flag), aa))
                } else if local_is(k, "afterAutospacing"@) {
                    Some((b, af, l, rule, ba, Some(flag)))
                } else {
                    Some((b, af, l, rule, ba, aa))
                }
            },
        }
    }
}

/// Indentation read from an element's attributes in order, over the
/// indentation `o` already has: left (or `start`), right (or `end`), first
/// line and hanging; `None` when a value is not a number.
pub open spec fn ind_fold(a: Seq<(String, String)>, o: CT_PPr) -> Option<
    (Option<Twips>, Option<Twips>, Option<Twips>, Option<Twips>),
>
    decreases a.len(),
{
    if a.len() == 0 {
        Some((o.ind_left, o.ind_right, o.ind_first_line, o.ind_hanging))
    } else {
        match ind_fold(a.drop_last(), o) {
            None => None,
            Some((l, r, f, h)) => {
                let k = a.last().0@;
                let v = a.last().1@;
                if local_is(k, "left"@) || local_is(k, "start"@) {
                    match parse_i32(v) {
                        Some(n) => Some((Some(Twips(n)), r, f, h)),
                        None => None,
                    }
                } else if local_is(k, "right"@) || local_is(k, "end"@) {
                    match parse_i32(v) {
                        Some(n) => Some((l, Some(Twips(n)), f, h)),
                        None => None,
                    }
                } else if local_is(k, "firstLine"@) {
                    match parse_i32(v) {
                        Some(n) => Some((l, r, Some(Twips(n)), h)),
                        None => None,
                    }
                } else if local_is(k, "hanging"@) {
                    match parse_i32(v) {
                        Some(n) => Some((l, r, f, Some(Twips(n)))),
                        None => None,
                    }
                } else {
                    Some((l, r, f, h))
                }
            },
        }
    }
}

/// Once reading spacing fails on a prefix of the attributes, it fails.
pub proof fn lemma_spacing_fold_fails(a: Seq<(String, String)>, o: CT_PPr, i: int)
    requires
        0 <= i <= a.len(),
        spacing_fold(a.take(i), o) is None,
    ensures
        spacing_fold(a, o) is None,
    decreases a.len() - i,
{
    if i < a.len() {
        assert(a.take(i + 1).drop_last() =~= a.take(i));
        lemma_spacing_fold_fails(a, o, i + 1);
    } else {
        assert(a.take(i) =~= a);
    }
}

/// Once reading indentation fails on a prefix of the attributes, it fails.
pub proof fn lemma_ind_fold_fails(a: Seq<(String, String)>, o: CT_PPr, i: int)
    requires
        0 <= i <= a.len(),
        ind_fold(a.take(i), o) is None,
    ensures
        ind_fold(a, o) is None,
    decreases a.len() - i,
{
    if i < a.len() {
        assert(a.take(i + 1).drop_last() =~= a.take(i));
        lemma_ind_fold_fails(a, o, i + 1);
    } else {
        assert(a.take(i) =~= a);
    }
}

/// `n` is `o` with the spacing read from `a`.
pub open spec fn spacing_read(o: CT_PPr, n: CT_PPr, a: Seq<(String, String)>) -> bool {
    &&& n == (CT_PPr {
        space_before: n.space_before,
        space_after: n.space_after,
        line_spacing: n.line_spacing,
        line_rule: n.line_rule,
        before_autospacing: n.before_autospacing,
        after_autospacing: n.after_autospacing,
        ..o
    })
    &&& spacing_fold(a, o) == Some(
        (n.space_before, n.space_after, n.line_spacing, opt_view(n.line_rule), n.before_autospacing,
        n.after_autospacing),
    )
}

/// `n` is `o` with the indentation read from `a`.
pub open spec fn ind_read(o: CT_PPr, n: CT_PPr, a: Seq<(String, String)>) -> bool {
    &&& n == (CT_PPr {
        ind_left: n.ind_left,
        ind_right: n.ind_right,
        ind_first_line: n.ind_first_line,
        ind_hanging: n.ind_hanging,
        ..o
    })
    &&& ind_fold(a, o) == Some((n.ind_left, n.ind_right, n.ind_first_line, n.ind_hanging))
}

/// Read spacing attributes into paragraph properties.
fn read_spacing(ppr: &mut CT_PPr, t: &Tag) -> (r: Result<(), OxmlError>)
    ensures
        r is Ok <==> spacing_fold(t.attrs@, *old(ppr)) is Some,
        r is Ok ==> spacing_read(*old(ppr), *final(ppr), t.attrs@),
{
    let ghost o = *ppr;
    let a = &t.attrs;
    let mut i: usize = 0;
    proof { assert(a@.take(0) =~= Seq::<(String, String)>::empty()); }
    while i < a.len()
        invariant
            i <= a@.len(),
            a@ == t.attrs@,
            o == *old(ppr),
            spacing_read(o, *ppr, a@.take(i as int)),
        decreases a@.len() - i,
    {
        proof {
            assert(a@.take(i + 1).drop_last() =~= a@.take(i as int));
            assert(a@.take(i + 1).last() == a@[i as int]);
        }
        let k = a[i].0.as_str();
        let v = a[i].1.as_str();
        if name_is(k, "before") || name_is(k, "after") || name_is(k, "line") {
            match parse_i32_str(v) {
                Some(n) => {
                    if name_is(k, "before") {
                        ppr.space_before = Some(Twips(n));
                    } else if name_is(k, "after") {
                        ppr.space_after = Some(Twips(n));
                    } else {
                        ppr.line_spacing = Some(Twips(n));
                    }
                },
                None => {
                    proof { lemma_spacing_fold_fails(a@, o, i + 1); }
                    return Err(OxmlError::ParseInt(to_owned_string(v)));
                },
            }
        } else if name_is(k, "lineRule") {
            ppr.line_rule = Some(to_owned_string(v));
        } else if name_is(k, "beforeAutospacing") {
            ppr.before_autospacing = Some(crate::chars::str_eq(v, "1") || crate::chars::str_eq(v, "true"));
        } else if name_is(k, "afterAutospacing") {
            ppr.after_autospacing = Some(crate::chars::str_eq(v, "1") || crate::chars::str_eq(v, "true"));
        }
        i = i + 1;
    }
    proof { assert(a@.take(i as int) =~= a@); }
    Ok(())
}

/// Read indentation attributes into paragraph properties.
fn read_ind(ppr: &mut CT_PPr, t: &Tag) -> (r: Result<(), OxmlError>)
    ensures
        r is Ok <==> ind_fold(t.attrs@, *old(ppr)) is Some,
        r is Ok ==> ind_read(*old(ppr), *final(ppr), t.attrs@),
{
    let ghost o = *ppr;
    let a = &t.attrs;
    let mut i: usize = 0;
    proof { assert(a@.take(0) =~= Seq::<(String, String)>::empty()); }
    while i < a.len()
        invariant
            i <= a@.len(),
            a@ == t.attrs@,
            o == *old(ppr),
            ind_read(o, *ppr, a@.take(i as int)),
        decreases a@.len() - i,
    {
        proof {
            assert(a@.take(i + 1).drop_last() =~= a@.take(i as int));
            assert(a@.take(i + 1).last() == a@[i as int]);
        }
        let k = a[i].0.as_str();
        let v = a[i].1.as_str();
        let is_left = name_is(k, "left") || name_is(k, "start");
        let is_right = name_is(k, "right") || name_is(k, "end");
        if is_left || is_right || name_is(k, "firstLine") || name_is(k, "hanging") {
            match parse_i32_str(v) {
                Some(n) => {
                    if is_left {
                        ppr.ind_left = Some(Twips(n));
                    } else if is_right {
                        ppr.ind_right = Some(Twips(n));
                    } else if name_is(k, "firstLine") {
                        ppr.ind_first_line = Some(Twips(n));
                    } else {
                        ppr.ind_hanging = Some(Twips(n));
                    }
                },
                None => {
                    proof { lemma_ind_fold_fails(a@, o, i + 1); }
                    return Err(OxmlError::ParseInt(to_owned_string(v)));
                },
            }
        }
        i = i + 1;
    }
    proof { assert(a@.take(i as int) =~= a@); }
    Ok(())
}

/// Whether reading an empty element into paragraph properties `o` fails:
/// a justification that names none, spacing or indentation that is not a
/// number, or an outline level that is not a number.
pub open spec fn ppr_empty_fails(o: CT_PPr, t: Tag) -> bool {
    let nm = t.name@;
    let v = first_attr(t.attrs@, "val"@);
    if local_is(nm, "pStyle"@) {
        false
    } else if local_is(nm, "jc"@) {
        v matches Some(s) && jc_parse(s) is None
    } else if local_is(nm, "spacing"@) {
        spacing_fold(t.attrs@, o) is None
    } else if local_is(nm, "ind"@) {
        ind_fold(t.attrs@, o) is None
    } else if local_is(nm, "keepNext"@) || local_is(nm, "keepLines"@) || local_is(nm, "pageBreakBefore"@)
        || local_is(nm, "widowControl"@) || local_is(nm, "suppressAutoHyphens"@) {
        false
    } else if local_is(nm, "outlineLvl"@) {
        val_u32(t) is None
    } else {
        false
    }
}

/// What reading an empty element into paragraph properties `o` gives,
/// when it does not fail: the style, justification, spacing, indentation,
/// keep and break toggles, outline level or shading the element names; an
/// element of any other name is kept verbatim as an extra element.
pub open spec fn ppr_after_empty(o: CT_PPr, n: CT_PPr, t: Tag) -> bool {
    let nm = t.name@;
    let v = first_attr(t.attrs@, "val"@);
    if local_is(nm, "pStyle"@) {
        n == (CT_PPr { style_id: n.style_id, ..o }) && opt_view(n.style_id) == v
    } else if local_is(nm, "jc"@) {
        match v {
            Some(s) => n == (CT_PPr { jc: jc_parse(s), ..o }),
            None => n == o,
        }
    } else if local_is(nm, "spacing"@) {
        spacing_read(o, n, t.attrs@)
    } else if local_is(nm, "ind"@) {
        ind_read(o, n, t.attrs@)
    } else if local_is(nm, "keepNext"@) {
        n == (CT_PPr { keep_next: Some(on_off(v)), ..o })
    } else if local_is(nm, "keepLines"@) {
        n == (CT_PPr { keep_lines: Some(on_off(v)), ..o })
    } else if local_is(nm, "pageBreakBefore"@) {
        n == (CT_PPr { page_break_before: Some(on_off(v)), ..o })
    } else if local_is(nm, "widowControl"@) {
        n == (CT_PPr { widow_control: Some(on_off(v)), ..o })
    } else if local_is(nm, "suppressAutoHyphens"@) {
        n == (CT_PPr { suppress_auto_hyphens: Some(on_off(v)), ..o })
    } else if local_is(nm, "outlineLvl"@) {
        match val_u32(t) {
            Some(Some(x)) => n == (CT_PPr { outline_lvl: Some(x), ..o }),
            _ => n == o,
        }
    } else if local_is(nm, "shd"@) {
        &&& n == (CT_PPr { shading: n.shading, ..o })
        &&& n.shading matches Some(sh) && shd_read(sh, t.attrs@)
    } else {
        &&& n == (CT_PPr { extra_xml: n.extra_xml, ..o })
        &&& extra_added(o.extra_xml, n.extra_xml, empty_raw(t))
    }
}

/// Read one empty element into paragraph properties.
#[verifier::rlimit(40)]
pub fn read_ppr_empty(ppr: &mut CT_PPr, t: &Tag) -> (r: Result<(), OxmlError>)
    ensures
        r is Err <==> ppr_empty_fails(*old(ppr), *t),
        r is Ok ==> ppr_after_empty(*old(ppr), *final(ppr), *t),
{
    let nm = t.name.as_str();
    if name_is(nm, "pStyle") {
        ppr.style_id = get_val_attr(t);
    } else if name_is(nm, "jc") {
        match get_val_attr(t) {
            Some(v) => {
                let j = ST_Jc::from_str(v.as_str())?;
                ppr.jc = Some(j);
            },
            None => {},
        }
    } else if name_is(nm, "spacing") {
        read_spacing(ppr, t)?;
    } else if name_is(nm, "ind") {
        read_ind(ppr, t)?;
    } else if name_is(nm, "keepNext") {
        ppr.keep_next = Some(parse_toggle(t));
    } else if name_is(nm, "keepLines") {
        ppr.keep_lines = Some(parse_toggle(t));
    } else if name_is(nm, "pageBreakBefore") {
        ppr.page_break_before = Some(parse_toggle(t));
    } else if name_is(nm, "widowControl") {
        ppr.widow_control = Some(parse_toggle(t));
    } else if name_is(nm, "suppressAutoHyphens") {
        ppr.suppress_auto_hyphens = Some(parse_toggle(t));
    } else if name_is(nm, "outlineLvl") {
        match read_val_u32(t)? {
            Some(x) => {
                ppr.outline_lvl = Some(x);
            },
            None => {},
        }
    } else if name_is(nm, "shd") {
        let sh = CT_Shd::from_xml_attrs(t)?;
        ppr.shading = Some(sh);
    } else {
        let raw = capture_empty_element(t);
        push_extra(&mut ppr.extra_xml, raw);
    }
    Ok(())
}

/// A signed number attribute: `Some(None)` without it, `None` when it is
/// not a number.
pub open spec fn attr_i32(t: Tag, local: Seq<char>) -> Option<Option<i32>> {
    match first_attr(t.attrs@, local) {
        Some(s) => match parse_i32(s) {
            Some(n) => Some(Some(n)),
            None => None,
        },
        None => Some(None),
    }
}

/// Read a signed number attribute.
fn read_attr_i32(t: &Tag, local: &str) -> (r: Result<Option<i32>, OxmlError>)
    ensures
        r is Ok <==> attr_i32(*t, local@) is Some,
        r matches Ok(v) ==> attr_i32(*t, local@) == Some(v),
{
    match get_attr(&t.attrs, local) {
        Some(s) => match parse_i32_str(s.as_str()) {
            Some(n) => Ok(Some(n)),
            None => Err(OxmlError::ParseInt(s)),
        },
        None => Ok(None),
    }
}

/// A length from a number, if there is one; else `d`.
pub open spec fn twips_or(v: Option<i32>, d: Option<Twips>) -> Option<Twips> {
    match v {
        Some(n) => Some(Twips(n)),
        None => d,
    }
}

/// What an empty element inside `w:numPr` does: `ilvl` sets the level and
/// `numId` the numbering from `val` (nothing without one); other names
/// change nothing.
pub open spec fn num_pr_after_empty(o: CT_PPr, n: CT_PPr, t: Tag) -> bool {
    if local_is(t.name@, "ilvl"@) {
        match val_u32(t) {
            Some(Some(x)) => n == (CT_PPr { num_ilvl: Some(x), ..o }),
            _ => n == o,
        }
    } else if local_is(t.name@, "numId"@) {
        match val_u32(t) {
            Some(Some(x)) => n == (CT_PPr { num_id: Some(x), ..o }),
            _ => n == o,
        }
    } else {
        n == o
    }
}

/// Read one empty element inside `w:numPr`; a `val` that is not a number
/// is an error.
pub fn read_num_pr_empty(ppr: &mut CT_PPr, t: &Tag) -> (r: Result<(), OxmlError>)
    ensures
        r is Err <==> (local_is(t.name@, "ilvl"@) || local_is(t.name@, "numId"@)) && val_u32(*t) is None,
        r is Ok ==> num_pr_after_empty(*old(ppr), *final(ppr), *t),
{
    if name_is(t.name.as_str(), "ilvl") {
        match read_val_u32(t)? {
            Some(x) => {
                ppr.num_ilvl = Some(x);
            },
            None => {},
        }
    } else if name_is(t.name.as_str(), "numId") {
        match read_val_u32(t)? {
            Some(x) => {
                ppr.num_id = Some(x);
            },
            None => {},
        }
    }
    Ok(())
}

/// What an empty element inside `w:sectPr` does: a header or footer
/// reference is added with its type (default unless `first` or `even`) and
/// relationship id; the page size and margins set the dimensions given;
/// other names change nothing. `None` when a dimension is not a number.
pub open spec fn sect_after_empty(o: CT_SectPr, n: CT_SectPr, t: Tag) -> bool {
    let nm = t.name@;
    if local_is(nm, "headerReference"@) || local_is(nm, "footerReference"@) {
        let ty = match first_attr(t.attrs@, "type"@) {
            Some(s) => hdr_ftr_parse(s),
            None => HdrFtrType::Default,
        };
        let id = match first_attr(t.attrs@, "id"@) {
            Some(s) => s,
            None => Seq::empty(),
        };
        let refs = if local_is(nm, "headerReference"@) { o.header_refs@ } else { o.footer_refs@ };
        let nrefs = if local_is(nm, "headerReference"@) { n.header_refs@ } else { n.footer_refs@ };
        &&& n.page_width == o.page_width && n.page_height == o.page_height
        &&& n.margin_top == o.margin_top && n.margin_bottom == o.margin_bottom
        &&& n.margin_left == o.margin_left && n.margin_right == o.margin_right
        &&& (local_is(nm, "headerReference"@) ==> n.footer_refs@ == o.footer_refs@)
        &&& (!local_is(nm, "headerReference"@) ==> n.header_refs@ == o.header_refs@)
        &&& nrefs.len() == refs.len() + 1 && nrefs.drop_last() == refs
        &&& nrefs.last().hdr_ftr_type == ty && nrefs.last().rel_id@ == id
    } else if local_is(nm, "pgSz"@) {
        &&& attr_i32(t, "w"@) matches Some(w) && n.page_width == twips_or(w, o.page_width)
        &&& attr_i32(t, "h"@) matches Some(h) && n.page_height == twips_or(h, o.page_height)
        &&& n == (CT_SectPr { page_width: n.page_width, page_height: n.page_height, ..o })
    } else if local_is(nm, "pgMar"@) {
        &&& attr_i32(t, "top"@) matches Some(v) && n.margin_top == twips_or(v, o.margin_top)
        &&& attr_i32(t, "right"@) matches Some(v) && n.margin_right == twips_or(v, o.margin_right)
        &&& attr_i32(t, "bottom"@) matches Some(v) && n.margin_bottom == twips_or(v, o.margin_bottom)
        &&& attr_i32(t, "left"@) matches Some(v) && n.margin_left == twips_or(v, o.margin_left)
        &&& n == (CT_SectPr {
            margin_top: n.margin_top,
            margin_right: n.margin_right,
            margin_bottom: n.margin_bottom,
            margin_left: n.margin_left,
            ..o
        })
    } else {
        n == o
    }
}

/// A length attribute over a current value.
fn twips_attr(t: &Tag, local: &str, d: Option<Twips>) -> (r: Result<Option<Twips>, OxmlError>)
    ensures
        r is Ok <==> attr_i32(*t, local@) is Some,
        r matches Ok(v) ==> attr_i32(*t, local@) matches Some(x) && v == twips_or(x, d),
{
    match read_attr_i32(t, local)? {
        Some(n) => Ok(Some(Twips(n))),
        None => Ok(d),
    }
}

/// Whether an empty element inside `w:sectPr` reads without error: every
/// length of a page size (`w`, `h`) or of page margins (`top`, `right`,
/// `bottom`, `left`) that is given is a number.
pub open spec fn sect_empty_ok(t: Tag) -> bool {
    let nm = t.name@;
    if local_is(nm, "headerReference"@) || local_is(nm, "footerReference"@) {
        true
    } else if local_is(nm, "pgSz"@) {
        attr_i32(t, "w"@) is Some && attr_i32(t, "h"@) is Some
    } else if local_is(nm, "pgMar"@) {
        attr_i32(t, "top"@) is Some && attr_i32(t, "right"@) is Some && attr_i32(t, "bottom"@) is Some
            && attr_i32(t, "left"@) is Some
    } else {
        true
    }
}

/// Read one empty element inside `w:sectPr`; on an error the section
/// properties are left as they were.
pub fn read_sect_pr_empty(sp: &mut CT_SectPr, t: &Tag) -> (r: Result<(), OxmlError>)
    ensures
        r is Ok <==> sect_empty_ok(*t),
        r is Ok ==> sect_after_empty(*old(sp), *final(sp), *t),
        r is Err ==> *final(sp) == *old(sp),
{
    let nm = t.name.as_str();
    let is_header = name_is(nm, "headerReference");
    if is_header || name_is(nm, "footerReference") {
        let ty = match get_attr(&t.attrs, "type") {
            Some(s) => HdrFtrType::from_str(s.as_str()),
            None => HdrFtrType::Default,
        };
        let id = match get_attr(&t.attrs, "id") {
            Some(s) => s,
            None => String::new(),
        };
        let rf = HdrFtrRef { hdr_ftr_type: ty, rel_id: id };
        if is_header {
            sp.header_refs.push(rf);
            proof { assert(sp.header_refs@.drop_last() =~= old(sp).header_refs@); }
        } else {
            sp.footer_refs.push(rf);
            proof { assert(sp.footer_refs@.drop_last() =~= old(sp).footer_refs@); }
        }
    } else if name_is(nm, "pgSz") {
        let w = twips_attr(t, "w", sp.page_width)?;
        let h = twips_attr(t, "h", sp.page_height)?;
        sp.page_width = w;
        sp.page_height = h;
    } else if name_is(nm, "pgMar") {
        let top = twips_attr(t, "top", sp.margin_top)?;
        let right = twips_attr(t, "right", sp.margin_right)?;
        let bottom = twips_attr(t, "bottom", sp.margin_bottom)?;
        let left = twips_attr(t, "left", sp.margin_left)?;
        sp.margin_top = top;
        sp.margin_right = right;
        sp.margin_bottom = bottom;
        sp.margin_left = left;
    }
    Ok(())
}

/// Section properties with nothing set and no references.
pub open spec fn sect_blank(sp: CT_SectPr) -> bool {
    &&& sp.page_width is None && sp.page_height is None
    &&& sp.margin_top is None && sp.margin_bottom is None
    &&& sp.margin_left is None && sp.margin_right is None
    &&& sp.header_refs@.len() == 0 && sp.footer_refs@.len() == 0
}

/// Where reading section properties fails: an element whose values do not
/// read.
pub open spec fn sect_fails() -> spec_fn(CT_SectPr, Tag) -> bool {
    |o: CT_SectPr, t: Tag| !sect_empty_ok(t)
}

/// What an empty element does to section properties.
pub open spec fn sect_step() -> spec_fn(CT_SectPr, CT_SectPr, Tag) -> bool {
    |o: CT_SectPr, m: CT_SectPr, t: Tag| sect_after_empty(o, m, t)
}

/// Reading section properties from call `n` on, from the blank properties
/// `o`, ends in `res`.
pub open spec fn sect_run(x: Seq<u8>, tr: bool, n: nat, o: CT_SectPr, f: nat, res: ReadOutcome<CT_SectPr>) -> bool {
    flat_run(x, tr, n, ends_at("sectPr"@), sect_fails(), sect_step(), o, f, res)
}

impl CT_SectPr {
    /// Read section properties from the events after `<w:sectPr>` up to its
    /// end (or the end of input): header and footer references, page size
    /// and margins.
    pub fn from_xml(reader: &mut XmlReader) -> (r: Result<Self, OxmlError>)
        ensures
            final(reader).same_input(old(reader)),
            exists|o: CT_SectPr, f: nat|
                sect_blank(o) && #[trigger] sect_run(
                    old(reader).input(),
                    old(reader).trims(),
                    old(reader).count(),
                    o,
                    budget_left(old(reader)),
                    (r, final(reader).count(), f),
                ),
    {
        let budget = event_budget(unread_len(reader));
        let (r, f) = Self::read_from(reader, budget);
        proof {
            let ghost w = f as nat;
            let o = choose|o: CT_SectPr| #[trigger] sect_blank(o) && sect_run(old(reader).input(), old(reader).trims(),
                old(reader).count(), o, budget as nat, (r, reader.count(), w));
            assert(sect_run(old(reader).input(), old(reader).trims(), old(reader).count(), o,
                budget_left(old(reader)), (r, reader.count(), w)));
        }
        r
    }

    /// Read section properties, reading at most `budget` events.
    pub fn read_from(reader: &mut XmlReader, budget: u64) -> (r: (Result<Self, OxmlError>, u64))
        ensures
            final(reader).same_input(old(reader)),
            r.1 <= budget,
            exists|o: CT_SectPr|
                #[trigger] sect_blank(o) && sect_run(old(reader).input(), old(reader).trims(), old(reader).count(), o,
                    budget as nat, (r.0, final(reader).count(), r.1 as nat)),
    {
        let ghost x = reader.input();
        let ghost tr = reader.trims();
        let ghost n0 = reader.count();
        let mut sp = CT_SectPr {
            page_width: None,
            page_height: None,
            margin_top: None,
            margin_bottom: None,
            margin_left: None,
            margin_right: None,
            header_refs: Vec::new(),
            footer_refs: Vec::new(),
        };
        let ghost sp0 = sp;
        proof { assert(sect_blank(sp0)); }
        let mut fuel = budget;
        while fuel > 0
            invariant
                fuel <= budget,
                reader.input() == x,
                reader.trims() == tr,
                x == old(reader).input(),
                tr == old(reader).trims(),
                n0 == old(reader).count(),
                sect_blank(sp0),
                forall|res: ReadOutcome<CT_SectPr>|
                    #[trigger] flat_run(x, tr, reader.count(), ends_at("sectPr"@), sect_fails(), sect_step(), sp, fuel as nat, res)
                        ==> sect_run(x, tr, n0, sp0, budget as nat, res),
            decreases fuel,
        {
            let ghost n = reader.count();
            let ghost o = sp;
            let ghost f1 = fuel as nat;
            fuel = fuel - 1;
            match read_event(reader) {
                Ok(ReadEvent::Empty(t)) => {
                    if let Err(e) = read_sect_pr_empty(&mut sp, &t) {
                        proof {
                            assert(flat_run(x, tr, n, ends_at("sectPr"@), sect_fails(), sect_step(), o, f1, (Err::<CT_SectPr, OxmlError>(e), reader.count(), fuel as nat)));
                        }
                        return (Err(e), fuel);
                    }
                    proof {
                        assert(sect_step()(o, sp, t));
                        assert forall|res: ReadOutcome<CT_SectPr>|
                            #[trigger] flat_run(x, tr, reader.count(), ends_at("sectPr"@), sect_fails(), sect_step(), sp, fuel as nat, res)
                            implies flat_run(x, tr, n, ends_at("sectPr"@), sect_fails(), sect_step(), o, f1, res) by {
                            lemma_flat_empty(x, tr, n, ends_at("sectPr"@), sect_fails(), sect_step(), o, sp, f1, t, res);
                        }
                    }
                },
                Ok(ReadEvent::End(nm)) => {
                    if name_is(nm.as_str(), "sectPr") {
                        proof {
                            assert(flat_run(x, tr, n, ends_at("sectPr"@), sect_fails(), sect_step(), o, f1, (Ok::<CT_SectPr, OxmlError>(sp), reader.count(), fuel as nat)));
                        }
                        return (Ok(sp), fuel);
                    }
                    proof {
                        assert forall|res: ReadOutcome<CT_SectPr>|
                            #[trigger] flat_run(x, tr, reader.count(), ends_at("sectPr"@), sect_fails(), sect_step(), sp, fuel as nat, res)
                            implies flat_run(x, tr, n, ends_at("sectPr"@), sect_fails(), sect_step(), o, f1, res) by {}
                    }
                },
                Ok(ReadEvent::Eof) => {
                    proof {
                        assert(flat_run(x, tr, n, ends_at("sectPr"@), sect_fails(), sect_step(), o, f1, (Ok::<CT_SectPr, OxmlError>(sp), reader.count(), fuel as nat)));
                    }
                    return (Ok(sp), fuel);
                },
                Ok(_) => {
                    proof {
                        assert forall|res: ReadOutcome<CT_SectPr>|
                            #[trigger] flat_run(x, tr, reader.count(), ends_at("sectPr"@), sect_fails(), sect_step(), sp, fuel as nat, res)
                            implies flat_run(x, tr, n, ends_at("sectPr"@), sect_fails(), sect_step(), o, f1, res) by {}
                    }
                },
                Err(e) => {
                    proof {
                        assert(flat_run(x, tr, n, ends_at("sectPr"@), sect_fails(), sect_step(), o, f1, (Err::<CT_SectPr, OxmlError>(e), reader.count(), fuel as nat)));
                    }
                    return (Err(e), fuel);
                },
            }
        }
        proof {
            assert(flat_run(x, tr, reader.count(), ends_at("sectPr"@), sect_fails(), sect_step(), sp, 0nat, (Ok::<CT_SectPr, OxmlError>(sp), reader.count(), 0nat)));
        }
        (Ok(sp), fuel)
    }
}

/// Where reading a numbering reference fails: a level or number that is
/// not a number.
pub open spec fn numpr_fails() -> spec_fn(CT_PPr, Tag) -> bool {
    |o: CT_PPr, t: Tag| (local_is(t.name@, "ilvl"@) || local_is(t.name@, "numId"@)) && val_u32(t) is None
}

/// What an empty element inside `numPr` does to paragraph properties.
pub open spec fn numpr_step() -> spec_fn(CT_PPr, CT_PPr, Tag) -> bool {
    |o: CT_PPr, m: CT_PPr, t: Tag| num_pr_after_empty(o, m, t)
}

/// Reading a numbering reference from call `n` on into the paragraph
/// properties `o` ends in `res`.
pub open spec fn numpr_run(x: Seq<u8>, tr: bool, n: nat, o: CT_PPr, f: nat, res: ReadOutcome<CT_PPr>) -> bool {
    flat_run(x, tr, n, ends_at("numPr"@), numpr_fails(), numpr_step(), o, f, res)
}

/// A result without a value, with the properties it leaves.
pub open spec fn unit_res(r: Result<(), OxmlError>, p: CT_PPr) -> Result<CT_PPr, OxmlError> {
    match r {
        Ok(_) => Ok(p),
        Err(e) => Err(e),
    }
}

/// Read the numbering reference from the events after `<w:numPr>` up to its
/// end, reading at most `budget` events.
fn read_num_pr(reader: &mut XmlReader, ppr: &mut CT_PPr, budget: u64) -> (r: (Result<(), OxmlError>, u64))
    ensures
        final(reader).same_input(old(reader)),
        r.1 <= budget,
        numpr_run(old(reader).input(), old(reader).trims(), old(reader).count(), *old(ppr), budget as nat,
            (unit_res(r.0, *final(ppr)), final(reader).count(), r.1 as nat)),
{
    let ghost x = reader.input();
    let ghost tr = reader.trims();
    let ghost n0 = reader.count();
    let mut fuel = budget;
    while fuel > 0
        invariant
            fuel <= budget,
            reader.input() == x,
            reader.trims() == tr,
            x == old(reader).input(),
            tr == old(reader).trims(),
            n0 == old(reader).count(),
            forall|res: ReadOutcome<CT_PPr>|
                #[trigger] flat_run(x, tr, reader.count(), ends_at("numPr"@), numpr_fails(), numpr_step(), *ppr, fuel as nat, res)
                    ==> numpr_run(x, tr, n0, *old(ppr), budget as nat, res),
        decreases fuel,
    {
        let ghost n = reader.count();
        let ghost o = *ppr;
        let ghost f1 = fuel as nat;
        fuel = fuel - 1;
        match read_event(reader) {
            Ok(ReadEvent::Empty(t)) => {
                if let Err(e) = read_num_pr_empty(ppr, &t) {
                    proof {
                        assert(flat_run(x, tr, n, ends_at("numPr"@), numpr_fails(), numpr_step(), o, f1, (Err::<CT_PPr, OxmlError>(e), reader.count(), fuel as nat)));
                    }
                    return (Err(e), fuel);
                }
                proof {
                    assert(numpr_step()(o, *ppr, t));
                    assert forall|res: ReadOutcome<CT_PPr>|
                        #[trigger] flat_run(x, tr, reader.count(), ends_at("numPr"@), numpr_fails(), numpr_step(), *ppr, fuel as nat, res)
                        implies flat_run(x, tr, n, ends_at("numPr"@), numpr_fails(), numpr_step(), o, f1, res) by {
                        lemma_flat_empty(x, tr, n, ends_at("numPr"@), numpr_fails(), numpr_step(), o, *ppr, f1, t, res);
                    }
                }
            },
            Ok(ReadEvent::End(nm)) => {
                if name_is(nm.as_str(), "numPr") {
                    proof {
                        assert(flat_run(x, tr, n, ends_at("numPr"@), numpr_fails(), numpr_step(), o, f1, (Ok::<CT_PPr, OxmlError>(*ppr), reader.count(), fuel as nat)));
                    }
                    return (Ok(()), fuel);
                }
                proof {
                    assert forall|res: ReadOutcome<CT_PPr>|
                        #[trigger] flat_run(x, tr, reader.count(), ends_at("numPr"@), numpr_fails(), numpr_step(), *ppr, fuel as nat, res)
                        implies flat_run(x, tr, n, ends_at("numPr"@), numpr_fails(), numpr_step(), o, f1, res) by {}
                }
            },
            Ok(ReadEvent::Eof) => {
                proof {
                    assert(flat_run(x, tr, n, ends_at("numPr"@), numpr_fails(), numpr_step(), o, f1, (Ok::<CT_PPr, OxmlError>(*ppr), reader.count(), fuel as nat)));
                }
                return (Ok(()), fuel);
            },
            Ok(_) => {
                proof {
                    assert forall|res: ReadOutcome<CT_PPr>|
                        #[trigger] flat_run(x, tr, reader.count(), ends_at("numPr"@), numpr_fails(), numpr_step(), *ppr, fuel as nat, res)
                        implies flat_run(x, tr, n, ends_at("numPr"@), numpr_fails(), numpr_step(), o, f1, res) by {}
                }
            },
            Err(e) => {
                proof {
                    assert(flat_run(x, tr, n, ends_at("numPr"@), numpr_fails(), numpr_step(), o, f1, (Err::<CT_PPr, OxmlError>(e), reader.count(), fuel as nat)));
                }
                return (Err(e), fuel);
            },
        }
    }
    proof {
        assert(flat_run(x, tr, reader.count(), ends_at("numPr"@), numpr_fails(), numpr_step(), *ppr, 0nat, (Ok::<CT_PPr, OxmlError>(*ppr), reader.count(), 0nat)));
    }
    (Ok(()), fuel)
}

/// `m` is `o` with the tab stops `v`.
pub open spec fn ppr_tabs_set(o: CT_PPr, m: CT_PPr, v: Seq<CT_TabStop>) -> bool {
    m == (CT_PPr { tabs: m.tabs, ..o }) && (m.tabs matches Some(tb) && tb.tabs@ == v)
}

/// `m` is `o` with the revision mark that `t` opens and whose previous
/// properties are `prev`.
pub open spec fn ppr_change_set(o: CT_PPr, m: CT_PPr, t: Tag, prev: CT_PPr) -> bool {
    &&& m == (CT_PPr { ppr_change: m.ppr_change, ..o })
    &&& m.ppr_change matches Some(ch) && ch.author@ == attr_text(t, "author"@) && ch.date@ == attr_text(
        t,
        "date"@,
    ) && *ch.previous == prev
}

/// `m` is `o` with one more element kept verbatim.
pub open spec fn ppr_extra_set(o: CT_PPr, m: CT_PPr, raw: Seq<u8>) -> bool {
    m == (CT_PPr { extra_xml: m.extra_xml, ..o }) && extra_added(o.extra_xml, m.extra_xml, raw)
}

/// Reading paragraph properties from call `n` on of a reader over `x`,
/// over the properties `o` read so far and with `f` events left, ends in
/// `res`: an empty element sets what `ppr_after_empty` says or fails as
/// `ppr_empty_fails` says; run properties, a numbering reference, borders,
/// tab stops and section properties are read by their own readers; a
/// revision mark gives its author, date and the previous properties read
/// inside it; another element is kept verbatim; the end tag `pPr`, the end
/// of input or the last event allowed ends the reading, an error of the
/// reader fails it, and any other event is passed.
pub open spec fn ppr_run(x: Seq<u8>, tr: bool, n: nat, o: CT_PPr, f: nat, res: ReadOutcome<CT_PPr>) -> bool
    decreases f,
{
    if f == 0 {
        res == (Ok::<CT_PPr, OxmlError>(o), n, 0nat)
    } else {
        let g = (f - 1) as nat;
        match xml_event(x, tr, n) {
            Ok(ReadEvent::Empty(t)) => if ppr_empty_fails(o, t) {
                res.0 is Err && res.1 == n + 1 && res.2 == g
            } else {
                exists|m: CT_PPr| #[trigger] ppr_after_empty(o, m, t) && ppr_run(x, tr, n + 1, m, g, res)
            },
            Ok(ReadEvent::Start(t)) => if local_is(t.name@, "rPr"@) {
                exists|c: ReadOutcome<CT_RPr>|
                    #![trigger c.2]
                    c.2 <= g && rpr_run(x, tr, n + 1, rpr_none(), g, c) && match c.0 {
                        Ok(r) => ppr_run(x, tr, c.1, CT_PPr { rpr: Some(r), ..o }, c.2, res),
                        Err(e) => res == (Err::<CT_PPr, OxmlError>(e), c.1, c.2),
                    }
            } else if local_is(t.name@, "numPr"@) {
                exists|c: ReadOutcome<CT_PPr>|
                    #![trigger c.2]
                    c.2 <= g && numpr_run(x, tr, n + 1, o, g, c) && match c.0 {
                        Ok(m) => ppr_run(x, tr, c.1, m, c.2, res),
                        Err(e) => res == (Err::<CT_PPr, OxmlError>(e), c.1, c.2),
                    }
            } else if local_is(t.name@, "pBdr"@) {
                exists|c: ReadOutcome<CT_PBdr>|
                    #![trigger c.2]
                    c.2 <= g && pbdr_run(x, tr, n + 1, g, c) && match c.0 {
                        Ok(b) => ppr_run(x, tr, c.1, CT_PPr { borders: Some(b), ..o }, c.2, res),
                        Err(e) => res == (Err::<CT_PPr, OxmlError>(e), c.1, c.2),
                    }
            } else if local_is(t.name@, "tabs"@) {
                exists|c: ReadOutcome<Seq<CT_TabStop>>|
                    #![trigger c.2]
                    c.2 <= g && tabs_run(x, tr, n + 1, g, c) && match c.0 {
                        Ok(v) => exists|m: CT_PPr| #[trigger] ppr_tabs_set(o, m, v) && ppr_run(x, tr, c.1, m, c.2, res),
                        Err(e) => res == (Err::<CT_PPr, OxmlError>(e), c.1, c.2),
                    }
            } else if local_is(t.name@, "sectPr"@) {
                exists|s0: CT_SectPr, c: ReadOutcome<CT_SectPr>|
                    #![trigger sect_blank(s0), c.2]
                    sect_blank(s0) && c.2 <= g && sect_run(x, tr, n + 1, s0, g, c) && match c.0 {
                        Ok(sp) => ppr_run(x, tr, c.1, CT_PPr { sect_pr: Some(sp), ..o }, c.2, res),
                        Err(e) => res == (Err::<CT_PPr, OxmlError>(e), c.1, c.2),
                    }
            } else if local_is(t.name@, "pPrChange"@) {
                exists|c: ReadOutcome<CT_PPr>|
                    #![trigger c.2]
                    c.2 <= g && ppr_change_run(x, tr, n + 1, ppr_none(), g, c) && match c.0 {
                        Ok(prev) => exists|m: CT_PPr| #[trigger]
                            ppr_change_set(o, m, t, prev) && ppr_run(x, tr, c.1, m, c.2, res),
                        Err(e) => res == (Err::<CT_PPr, OxmlError>(e), c.1, c.2),
                    }
            } else {
                let c = capture_run(x, tr, n + 1, t.name@, 1, start_raw(t), g);
                c.2 <= g && match c.0 {
                    Ok(b) => exists|m: CT_PPr| #[trigger] ppr_extra_set(o, m, b) && ppr_run(x, tr, c.1, m, c.2, res),
                    Err(e) => res == (Err::<CT_PPr, OxmlError>(e), c.1, c.2),
                }
            },
            Ok(ReadEvent::End(m)) => if local_is(m@, "pPr"@) {
                res == (Ok::<CT_PPr, OxmlError>(o), n + 1, g)
            } else {
                ppr_run(x, tr, n + 1, o, g, res)
            },
            Ok(ReadEvent::Eof) => res == (Ok::<CT_PPr, OxmlError>(o), n + 1, g),
            Ok(_) => ppr_run(x, tr, n + 1, o, g, res),
            Err(e) => res == (Err::<CT_PPr, OxmlError>(e), n + 1, g),
        }
    }
}

/// Reading the inside of a paragraph-property revision mark from call `n`
/// on, with the previous properties `prev` read so far and `f` events left,
/// ends in `c`: each `pPr` inside is read as `ppr_run` says and replaces
/// `prev`; the end tag `pPrChange`, the end of input or the last event
/// allowed ends the reading, and an error fails it.
pub open spec fn ppr_change_run(x: Seq<u8>, tr: bool, n: nat, prev: CT_PPr, f: nat, c: ReadOutcome<CT_PPr>) -> bool
    decreases f,
{
    if f == 0 {
        c == (Ok::<CT_PPr, OxmlError>(prev), n, 0nat)
    } else {
        let g = (f - 1) as nat;
        match xml_event(x, tr, n) {
            Ok(ReadEvent::Start(it)) => if local_is(it.name@, "pPr"@) {
                exists|p: ReadOutcome<CT_PPr>|
                    #![trigger p.2]
                    p.2 <= g && ppr_run(x, tr, n + 1, ppr_none(), g, p) && match p.0 {
                        Ok(q) => ppr_change_run(x, tr, p.1, q, p.2, c),
                        Err(e) => c == (Err::<CT_PPr, OxmlError>(e), p.1, p.2),
                    }
            } else {
                ppr_change_run(x, tr, n + 1, prev, g, c)
            },
            Ok(ReadEvent::End(m)) => if local_is(m@, "pPrChange"@) {
                c == (Ok::<CT_PPr, OxmlError>(prev), n + 1, g)
            } else {
                ppr_change_run(x, tr, n + 1, prev, g, c)
            },
            Ok(ReadEvent::Eof) => c == (Ok::<CT_PPr, OxmlError>(prev), n + 1, g),
            Ok(_) => ppr_change_run(x, tr, n + 1, prev, g, c),
            Err(e) => c == (Err::<CT_PPr, OxmlError>(e), n + 1, g),
        }
    }
}

/// One step of `ppr_run` over run properties.
proof fn lemma_ppr_rpr(x: Seq<u8>, tr: bool, n: nat, o: CT_PPr, f: nat, t: Tag, c: ReadOutcome<CT_RPr>, res: ReadOutcome<CT_PPr>)
    requires
        f > 0,
        xml_event(x, tr, n) == Ok::<ReadEvent, OxmlError>(ReadEvent::Start(t)),
        local_is(t.name@, "rPr"@),
        c.2 <= (f - 1) as nat,
        rpr_run(x, tr, n + 1, rpr_none(), (f - 1) as nat, c),
        match c.0 {
            Ok(r) => ppr_run(x, tr, c.1, CT_PPr { rpr: Some(r), ..o }, c.2, res),
            Err(e) => res == (Err::<CT_PPr, OxmlError>(e), c.1, c.2),
        },
    ensures
        ppr_run(x, tr, n, o, f, res),
{
}

/// One step of `ppr_run` over a numbering reference.
proof fn lemma_ppr_numpr(x: Seq<u8>, tr: bool, n: nat, o: CT_PPr, f: nat, t: Tag, c: ReadOutcome<CT_PPr>, res: ReadOutcome<CT_PPr>)
    requires
        f > 0,
        xml_event(x, tr, n) == Ok::<ReadEvent, OxmlError>(ReadEvent::Start(t)),
        !local_is(t.name@, "rPr"@),
        local_is(t.name@, "numPr"@),
        c.2 <= (f - 1) as nat,
        numpr_run(x, tr, n + 1, o, (f - 1) as nat, c),
        match c.0 {
            Ok(m) => ppr_run(x, tr, c.1, m, c.2, res),
            Err(e) => res == (Err::<CT_PPr, OxmlError>(e), c.1, c.2),
        },
    ensures
        ppr_run(x, tr, n, o, f, res),
{
}

/// One step of `ppr_run` over paragraph borders.
proof fn lemma_ppr_pbdr(x: Seq<u8>, tr: bool, n: nat, o: CT_PPr, f: nat, t: Tag, c: ReadOutcome<CT_PBdr>, res: ReadOutcome<CT_PPr>)
    requires
        f > 0,
        xml_event(x, tr, n) == Ok::<ReadEvent, OxmlError>(ReadEvent::Start(t)),
        !local_is(t.name@, "rPr"@),
        !local_is(t.name@, "numPr"@),
        local_is(t.name@, "pBdr"@),
        c.2 <= (f - 1) as nat,
        pbdr_run(x, tr, n + 1, (f - 1) as nat, c),
        match c.0 {
            Ok(b) => ppr_run(x, tr, c.1, CT_PPr { borders: Some(b), ..o }, c.2, res),
            Err(e) => res == (Err::<CT_PPr, OxmlError>(e), c.1, c.2),
        },
    ensures
        ppr_run(x, tr, n, o, f, res),
{
}

/// One step of `ppr_run` over tab stops.
proof fn lemma_ppr_tabs(x: Seq<u8>, tr: bool, n: nat, o: CT_PPr, f: nat, t: Tag, c: ReadOutcome<Seq<CT_TabStop>>, m: CT_PPr, res: ReadOutcome<CT_PPr>)
    requires
        f > 0,
        xml_event(x, tr, n) == Ok::<ReadEvent, OxmlError>(ReadEvent::Start(t)),
        !local_is(t.name@, "rPr"@),
        !local_is(t.name@, "numPr"@),
        !local_is(t.name@, "pBdr"@),
        local_is(t.name@, "tabs"@),
        c.2 <= (f - 1) as nat,
        tabs_run(x, tr, n + 1, (f - 1) as nat, c),
        match c.0 {
            Ok(v) => ppr_tabs_set(o, m, v) && ppr_run(x, tr, c.1, m, c.2, res),
            Err(e) => res == (Err::<CT_PPr, OxmlError>(e), c.1, c.2),
        },
    ensures
        ppr_run(x, tr, n, o, f, res),
{
    if let Ok(v) = c.0 {
        assert(ppr_tabs_set(o, m, v));
    }
}

/// One step of `ppr_run` over a revision mark.
proof fn lemma_ppr_change(x: Seq<u8>, tr: bool, n: nat, o: CT_PPr, f: nat, t: Tag, c: ReadOutcome<CT_PPr>, res: ReadOutcome<CT_PPr>)
    requires
        f > 0,
        xml_event(x, tr, n) == Ok::<ReadEvent, OxmlError>(ReadEvent::Start(t)),
        !local_is(t.name@, "rPr"@),
        !local_is(t.name@, "numPr"@),
        !local_is(t.name@, "pBdr"@),
        !local_is(t.name@, "tabs"@),
        !local_is(t.name@, "sectPr"@),
        local_is(t.name@, "pPrChange"@),
        c.2 <= (f - 1) as nat,
        ppr_change_run(x, tr, n + 1, ppr_none(), (f - 1) as nat, c),
        match c.0 {
            Ok(prev) => exists|m: CT_PPr| #[trigger] ppr_change_set(o, m, t, prev) && ppr_run(x, tr, c.1, m, c.2, res),
            Err(e) => res == (Err::<CT_PPr, OxmlError>(e), c.1, c.2),
        },
    ensures
        ppr_run(x, tr, n, o, f, res),
{
}

/// One step of `ppr_run` over section properties.
proof fn lemma_ppr_sect(x: Seq<u8>, tr: bool, n: nat, o: CT_PPr, f: nat, t: Tag, s0: CT_SectPr, c: ReadOutcome<CT_SectPr>, res: ReadOutcome<CT_PPr>)
    requires
        f > 0,
        xml_event(x, tr, n) == Ok::<ReadEvent, OxmlError>(ReadEvent::Start(t)),
        !local_is(t.name@, "rPr"@),
        !local_is(t.name@, "numPr"@),
        !local_is(t.name@, "pBdr"@),
        !local_is(t.name@, "tabs"@),
        local_is(t.name@, "sectPr"@),
        sect_blank(s0),
        c.2 <= (f - 1) as nat,
        sect_run(x, tr, n + 1, s0, (f - 1) as nat, c),
        match c.0 {
            Ok(sp) => ppr_run(x, tr, c.1, CT_PPr { sect_pr: Some(sp), ..o }, c.2, res),
            Err(e) => res == (Err::<CT_PPr, OxmlError>(e), c.1, c.2),
        },
    ensures
        ppr_run(x, tr, n, o, f, res),
{
}

/// One step of `ppr_run` over an element kept verbatim.
proof fn lemma_ppr_capture(x: Seq<u8>, tr: bool, n: nat, o: CT_PPr, m: CT_PPr, f: nat, t: Tag, res: ReadOutcome<CT_PPr>)
    requires
        f > 0,
        xml_event(x, tr, n) == Ok::<ReadEvent, OxmlError>(ReadEvent::Start(t)),
        !local_is(t.name@, "rPr"@),
        !local_is(t.name@, "numPr"@),
        !local_is(t.name@, "pBdr"@),
        !local_is(t.name@, "tabs"@),
        !local_is(t.name@, "sectPr"@),
        !local_is(t.name@, "pPrChange"@),
        ({
            let c = capture_run(x, tr, n + 1, t.name@, 1, start_raw(t), (f - 1) as nat);
            &&& c.2 <= (f - 1) as nat
            &&& c.0 matches Ok(b) && ppr_extra_set(o, m, b) && ppr_run(x, tr, c.1, m, c.2, res)
        }),
    ensures
        ppr_run(x, tr, n, o, f, res),
{
}

/// One step of `ppr_change_run` over a `pPr` inside the revision mark.
proof fn lemma_ppr_change_inner(x: Seq<u8>, tr: bool, n: nat, prev: CT_PPr, f: nat, p: ReadOutcome<CT_PPr>, c: ReadOutcome<CT_PPr>)
    requires
        f > 0,
        xml_event(x, tr, n) matches Ok(ReadEvent::Start(it)) && local_is(it.name@, "pPr"@),
        p.2 <= (f - 1) as nat,
        ppr_run(x, tr, n + 1, ppr_none(), (f - 1) as nat, p),
        match p.0 {
            Ok(q) => ppr_change_run(x, tr, p.1, q, p.2, c),
            Err(e) => c == (Err::<CT_PPr, OxmlError>(e), p.1, p.2),
        },
    ensures
        ppr_change_run(x, tr, n, prev, f, c),
{
}

impl CT_PPr {
    /// Read paragraph properties from the events after `<w:pPr>` up to its
    /// end (or the end of input): each empty element as `read_ppr_empty`
    /// says; run properties, numbering, borders, tabs and section
    /// properties by their own readers; a revision mark with its author,
    /// date and previous properties; any other element kept verbatim.
    pub fn from_xml(reader: &mut XmlReader) -> (r: Result<Self, OxmlError>)
        ensures
            final(reader).same_input(old(reader)),
            exists|f: nat|
                #[trigger] ppr_run(
                    old(reader).input(),
                    old(reader).trims(),
                    old(reader).count(),
                    ppr_none(),
                    budget_left(old(reader)),
                    (r, final(reader).count(), f),
                ),
    {
        let budget = event_budget(unread_len(reader));
        let (r, f) = Self::read_from(reader, budget);
        proof {
            let ghost w = f as nat;
            assert(ppr_run(old(reader).input(), old(reader).trims(), old(reader).count(), ppr_none(),
                budget_left(old(reader)), (r, reader.count(), w)));
        }
        r
    }

    /// Read paragraph properties, reading at most `budget` events.
    #[verifier::rlimit(60)]
    pub fn read_from(reader: &mut XmlReader, budget: u64) -> (r: (Result<Self, OxmlError>, u64))
        ensures
            final(reader).same_input(old(reader)),
            r.1 <= budget,
            ppr_run(
                old(reader).input(),
                old(reader).trims(),
                old(reader).count(),
                ppr_none(),
                budget as nat,
                (r.0, final(reader).count(), r.1 as nat),
            ),
        decreases budget,
    {
        let ghost x = reader.input();
        let ghost tr = reader.trims();
        let ghost n0 = reader.count();
        let mut ppr = CT_PPr::default();
        let mut fuel = budget;
        while fuel > 0
            invariant
                fuel <= budget,
                reader.input() == x,
                reader.trims() == tr,
                x == old(reader).input(),
                tr == old(reader).trims(),
                n0 == old(reader).count(),
                forall|res: ReadOutcome<CT_PPr>|
                    #[trigger] ppr_run(x, tr, reader.count(), ppr, fuel as nat, res) ==> ppr_run(
                        x,
                        tr,
                        n0,
                        ppr_none(),
                        budget as nat,
                        res,
                    ),
            decreases fuel,
        {
            let ghost n = reader.count();
            let ghost o = ppr;
            let ghost f1 = fuel as nat;
            fuel = fuel - 1;
            let ev = read_event(reader);
            let ghost gev = ev;
            match ev {
                Ok(ReadEvent::Empty(t)) => {
                    if let Err(e) = read_ppr_empty(&mut ppr, &t) {
                        proof {
                            let res = (Err::<CT_PPr, OxmlError>(e), reader.count(), fuel as nat);
                            assert(ppr_run(x, tr, n, o, f1, res));
                        }
                        return (Err(e), fuel);
                    }
                    proof {
                        assert forall|res: ReadOutcome<CT_PPr>|
                            #[trigger] ppr_run(x, tr, reader.count(), ppr, fuel as nat, res) implies ppr_run(
                            x, tr, n, o, f1, res) by {
                            assert(ppr_after_empty(o, ppr, t));
                        }
                    }
                },
                Ok(ReadEvent::Start(t)) => {
                    let nm = t.name.as_str();
                    if name_is(nm, "rPr") {
                        let (r, f) = CT_RPr::read_from(reader, fuel);
                        let ghost po = (r, reader.count(), f as nat);
                        fuel = f;
                        match r {
                            Ok(r) => {
                                ppr.rpr = Some(r);
                                proof {
                                    assert forall|res: ReadOutcome<CT_PPr>|
                                        #[trigger] ppr_run(x, tr, reader.count(), ppr, fuel as nat, res) implies ppr_run(
                                        x, tr, n, o, f1, res) by {
                                        lemma_ppr_rpr(x, tr, n, o, f1, t, po, res);
                                    }
                                }
                            },
                            Err(e) => {
                                proof {
                                    let res = (Err::<CT_PPr, OxmlError>(e), reader.count(), fuel as nat);
                                    lemma_ppr_rpr(x, tr, n, o, f1, t, po, res);
                                }
                                return (Err(e), fuel);
                            },
                        }
                    } else if name_is(nm, "numPr") {
                        let (r, f) = read_num_pr(reader, &mut ppr, fuel);
                        let ghost po = (unit_res(r, ppr), reader.count(), f as nat);
                        fuel = f;
                        match r {
                            Ok(_) => {
                                proof {
                                    assert forall|res: ReadOutcome<CT_PPr>|
                                        #[trigger] ppr_run(x, tr, reader.count(), ppr, fuel as nat, res) implies ppr_run(
                                        x, tr, n, o, f1, res) by {
                                        lemma_ppr_numpr(x, tr, n, o, f1, t, po, res);
                                    }
                                }
                            },
                            Err(e) => {
                                proof {
                                    let res = (Err::<CT_PPr, OxmlError>(e), reader.count(), fuel as nat);
                                    lemma_ppr_numpr(x, tr, n, o, f1, t, po, res);
                                }
                                return (Err(e), fuel);
                            },
                        }
                    } else if name_is(nm, "pBdr") {
                        let (r, f) = CT_PBdr::read_from(reader, fuel);
                        let ghost po = (r, reader.count(), f as nat);
                        fuel = f;
                        match r {
                            Ok(b) => {
                                ppr.borders = Some(b);
                                proof {
                                    assert forall|res: ReadOutcome<CT_PPr>|
                                        #[trigger] ppr_run(x, tr, reader.count(), ppr, fuel as nat, res) implies ppr_run(
                                        x, tr, n, o, f1, res) by {
                                        lemma_ppr_pbdr(x, tr, n, o, f1, t, po, res);
                                    }
                                }
                            },
                            Err(e) => {
                                proof {
                                    let res = (Err::<CT_PPr, OxmlError>(e), reader.count(), fuel as nat);
                                    lemma_ppr_pbdr(x, tr, n, o, f1, t, po, res);
                                }
                                return (Err(e), fuel);
                            },
                        }
                    } else if name_is(nm, "tabs") {
                        let (r, f) = CT_Tabs::read_from(reader, fuel);
                        let ghost po = (tabs_res(r), reader.count(), f as nat);
                        fuel = f;
                        match r {
                            Ok(tb) => {
                                let ghost v = tb.tabs@;
                                ppr.tabs = Some(tb);
                                proof { assert(ppr_tabs_set(o, ppr, v)); }
                                proof {
                                    assert forall|res: ReadOutcome<CT_PPr>|
                                        #[trigger] ppr_run(x, tr, reader.count(), ppr, fuel as nat, res) implies ppr_run(
                                        x, tr, n, o, f1, res) by {
                                        assert(ppr_tabs_set(o, ppr, v));
                                        assert(po.0 == Ok::<Seq<CT_TabStop>, OxmlError>(v));
                                        assert(po.1 == reader.count() && po.2 == fuel);
                                        lemma_ppr_tabs(x, tr, n, o, f1, t, po, ppr, res);
                                    }
                                }
                            },
                            Err(e) => {
                                proof {
                                    let res = (Err::<CT_PPr, OxmlError>(e), reader.count(), fuel as nat);
                                    lemma_ppr_tabs(x, tr, n, o, f1, t, po, o, res);
                                }
                                return (Err(e), fuel);
                            },
                        }
                    } else if name_is(nm, "sectPr") {
                        let (r, f) = CT_SectPr::read_from(reader, fuel);
                        let ghost po = (r, reader.count(), f as nat);
                        let ghost s0 = choose|s0: CT_SectPr| #[trigger] sect_blank(s0) && sect_run(x, tr, n + 1, s0, (f1 - 1) as nat, po);
                        fuel = f;
                        match r {
                            Ok(sp) => {
                                ppr.sect_pr = Some(sp);
                                proof {
                                    assert forall|res: ReadOutcome<CT_PPr>|
                                        #[trigger] ppr_run(x, tr, reader.count(), ppr, fuel as nat, res) implies ppr_run(
                                        x, tr, n, o, f1, res) by {
                                        lemma_ppr_sect(x, tr, n, o, f1, t, s0, po, res);
                                    }
                                }
                            },
                            Err(e) => {
                                proof {
                                    let res = (Err::<CT_PPr, OxmlError>(e), reader.count(), fuel as nat);
                                    lemma_ppr_sect(x, tr, n, o, f1, t, s0, po, res);
                                }
                                return (Err(e), fuel);
                            },
                        }
                    } else if name_is(nm, "pPrChange") {
                        let author = attr_or_empty(&t, "author");
                        let date = attr_or_empty(&t, "date");
                        let mut prev = CT_PPr::default();
                        let ghost nt = reader.count();
                        let ghost ft = fuel as nat;
                        while fuel > 0
                            invariant_except_break
                                forall|c: ReadOutcome<CT_PPr>|
                                    #[trigger] ppr_change_run(x, tr, reader.count(), prev, fuel as nat, c)
                                        ==> ppr_change_run(x, tr, nt, ppr_none(), ft, c),
                                fuel == 0 ==> ppr_change_run(x, tr, nt, ppr_none(), ft,
                                    (Ok::<CT_PPr, OxmlError>(prev), reader.count(), 0nat)),
                            invariant
                                fuel <= ft,
                                ft < budget,
                                ft + 1 == f1,
                                nt == n + 1,
                                reader.input() == x,
                                reader.trims() == tr,
                                x == old(reader).input(),
                                tr == old(reader).trims(),
                                n0 == old(reader).count(),
                                ppr == o,
                                gev == xml_event(x, tr, n),
                                gev == Ok::<ReadEvent, OxmlError>(ReadEvent::Start(t)),
                                local_is(t.name@, "pPrChange"@),
                                !local_is(t.name@, "rPr"@),
                                !local_is(t.name@, "numPr"@),
                                !local_is(t.name@, "pBdr"@),
                                !local_is(t.name@, "tabs"@),
                                !local_is(t.name@, "sectPr"@),
                                author@ == attr_text(t, "author"@),
                                date@ == attr_text(t, "date"@),
                                forall|res: ReadOutcome<CT_PPr>|
                                    #[trigger] ppr_run(x, tr, n, o, f1, res) ==> ppr_run(x, tr, n0, ppr_none(), budget as nat, res),
                            ensures
                                fuel <= ft,
                                ft < budget,
                                ft + 1 == f1,
                                nt == n + 1,
                                reader.input() == x,
                                reader.trims() == tr,
                                x == old(reader).input(),
                                tr == old(reader).trims(),
                                n0 == old(reader).count(),
                                ppr == o,
                                gev == xml_event(x, tr, n),
                                gev == Ok::<ReadEvent, OxmlError>(ReadEvent::Start(t)),
                                local_is(t.name@, "pPrChange"@),
                                !local_is(t.name@, "rPr"@),
                                !local_is(t.name@, "numPr"@),
                                !local_is(t.name@, "pBdr"@),
                                !local_is(t.name@, "tabs"@),
                                !local_is(t.name@, "sectPr"@),
                                author@ == attr_text(t, "author"@),
                                date@ == attr_text(t, "date"@),
                                forall|res: ReadOutcome<CT_PPr>|
                                    #[trigger] ppr_run(x, tr, n, o, f1, res) ==> ppr_run(x, tr, n0, ppr_none(), budget as nat, res),
                                ppr_change_run(x, tr, nt, ppr_none(), ft, (Ok::<CT_PPr, OxmlError>(prev), reader.count(), fuel as nat)),
                            decreases fuel,
                        {
                            let ghost ni = reader.count();
                            let ghost pv = prev;
                            let ghost fi = fuel as nat;
                            fuel = fuel - 1;
                            let iev = read_event(reader);
                            match iev {
                                Ok(ReadEvent::Start(it)) => {
                                    if name_is(it.name.as_str(), "pPr") {
                                        let (p, f) = CT_PPr::read_from(reader, fuel);
                                        let ghost po = (p, reader.count(), f as nat);
                                        fuel = f;
                                        match p {
                                            Ok(p) => {
                                                prev = p;
                                                proof {
                                                    assert forall|c: ReadOutcome<CT_PPr>|
                                                        #[trigger] ppr_change_run(x, tr, reader.count(), prev, fuel as nat, c)
                                                        implies ppr_change_run(x, tr, ni, pv, fi, c) by {
                                                        lemma_ppr_change_inner(x, tr, ni, pv, fi, po, c);
                                                    }
                                                }
                                            },
                                            Err(e) => {
                                                proof {
                                                    let c = (Err::<CT_PPr, OxmlError>(e), reader.count(), fuel as nat);
                                                    lemma_ppr_change_inner(x, tr, ni, pv, fi, po, c);
                                                    assert(ppr_change_run(x, tr, nt, ppr_none(), ft, c));
                                                    assert(c.2 <= ft);
                                                    lemma_ppr_change(x, tr, n, o, f1, t, c, c);
                                                }
                                                return (Err(e), fuel);
                                            },
                                        }
                                    } else {
                                        proof {
                                            assert forall|c: ReadOutcome<CT_PPr>|
                                                #[trigger] ppr_change_run(x, tr, reader.count(), prev, fuel as nat, c)
                                                implies ppr_change_run(x, tr, ni, pv, fi, c) by {}
                                        }
                                    }
                                },
                                Ok(ReadEvent::End(nm)) => {
                                    if name_is(nm.as_str(), "pPrChange") {
                                        proof {
                                            assert(ppr_change_run(x, tr, ni, pv, fi,
                                                (Ok::<CT_PPr, OxmlError>(prev), reader.count(), fuel as nat)));
                                        }
                                        break;
                                    }
                                    proof {
                                        assert forall|c: ReadOutcome<CT_PPr>|
                                            #[trigger] ppr_change_run(x, tr, reader.count(), prev, fuel as nat, c)
                                            implies ppr_change_run(x, tr, ni, pv, fi, c) by {}
                                    }
                                },
                                Ok(ReadEvent::Eof) => {
                                    proof {
                                        assert(ppr_change_run(x, tr, ni, pv, fi,
                                            (Ok::<CT_PPr, OxmlError>(prev), reader.count(), fuel as nat)));
                                    }
                                    break;
                                },
                                Ok(_) => {
                                    proof {
                                        assert forall|c: ReadOutcome<CT_PPr>|
                                            #[trigger] ppr_change_run(x, tr, reader.count(), prev, fuel as nat, c)
                                            implies ppr_change_run(x, tr, ni, pv, fi, c) by {}
                                    }
                                },
                                Err(e) => {
                                    proof {
                                        let c = (Err::<CT_PPr, OxmlError>(e), reader.count(), fuel as nat);
                                        assert(ppr_change_run(x, tr, ni, pv, fi, c));
                                        assert(ppr_change_run(x, tr, nt, ppr_none(), ft, c));
                                        assert(c.2 <= ft);
                                        lemma_ppr_change(x, tr, n, o, f1, t, c, c);
                                    }
                                    return (Err(e), fuel);
                                },
                            }
                            proof {
                                if fuel == 0 {
                                    assert(ppr_change_run(x, tr, reader.count(), prev, 0nat,
                                        (Ok::<CT_PPr, OxmlError>(prev), reader.count(), 0nat)));
                                }
                            }
                        }
                        let ghost cfin = (Ok::<CT_PPr, OxmlError>(prev), reader.count(), fuel as nat);
                        let ghost gp = prev;
                        ppr.ppr_change = Some(Box::new(PPrChange { author, date, previous: Box::new(prev) }));
                        proof {
                            assert(ppr_change_set(o, ppr, t, gp));
                            assert forall|res: ReadOutcome<CT_PPr>|
                                #[trigger] ppr_run(x, tr, reader.count(), ppr, fuel as nat, res) implies ppr_run(
                                x, tr, n, o, f1, res) by {
                                assert(ppr_change_set(o, ppr, t, gp));
                                lemma_ppr_change(x, tr, n, o, f1, t, cfin, res);
                            }
                        }
                    } else {
                        let (raw, f) = capture_element_within(reader, &t, fuel);
                        fuel = f;
                        match raw {
                            Ok(b) => {
                                let ghost bb = b@;
                                push_extra(&mut ppr.extra_xml, b);
                                proof {
                                    assert(ppr_extra_set(o, ppr, bb));
                                    assert forall|res: ReadOutcome<CT_PPr>|
                                        #[trigger] ppr_run(x, tr, reader.count(), ppr, fuel as nat, res) implies ppr_run(
                                        x, tr, n, o, f1, res) by {
                                        lemma_ppr_capture(x, tr, n, o, ppr, f1, t, res);
                                    }
                                }
                            },
                            Err(e) => {
                                proof {
                                    let res = (Err::<CT_PPr, OxmlError>(e), reader.count(), fuel as nat);
                                    assert(ppr_run(x, tr, n, o, f1, res));
                                }
                                return (Err(e), fuel);
                            },
                        }
                    }
                },
                Ok(ReadEvent::End(nm)) => {
                    if name_is(nm.as_str(), "pPr") {
                        proof {
                            assert(ppr_run(x, tr, n, o, f1, (Ok::<CT_PPr, OxmlError>(ppr), reader.count(), fuel as nat)));
                        }
                        return (Ok(ppr), fuel);
                    }
                    proof {
                        assert forall|res: ReadOutcome<CT_PPr>|
                            #[trigger] ppr_run(x, tr, reader.count(), ppr, fuel as nat, res) implies ppr_run(
                            x, tr, n, o, f1, res) by {}
                    }
                },
                Ok(ReadEvent::Eof) => {
                    proof {
                        assert(ppr_run(x, tr, n, o, f1, (Ok::<CT_PPr, OxmlError>(ppr), reader.count(), fuel as nat)));
                    }
                    return (Ok(ppr), fuel);
                },
                Ok(_) => {
                    proof {
                        assert forall|res: ReadOutcome<CT_PPr>|
                            #[trigger] ppr_run(x, tr, reader.count(), ppr, fuel as nat, res) implies ppr_run(
                            x, tr, n, o, f1, res) by {}
                    }
                },
                Err(e) => {
                    proof {
                        let res = (Err::<CT_PPr, OxmlError>(e), reader.count(), fuel as nat);
                        assert(ppr_run(x, tr, n, o, f1, res));
                    }
                    return (Err(e), fuel);
                },
            }
        }
        proof {
            assert(ppr_run(x, tr, reader.count(), ppr, 0, (Ok::<CT_PPr, OxmlError>(ppr), reader.count(), 0nat)));
        }
        (Ok(ppr), fuel)
    }
}

} // verus!
