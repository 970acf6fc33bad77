//! Writing drawings: the `w:drawing` element with its inline or anchored
//! picture.

use vstd::prelude::*;

use crate::chars::{i32_string, i64_string, signed_decimal, to_owned_string, u32_string, decimal};
use crate::drawing::drawing_ns;
use crate::drawing::{rel_h_name, rel_v_name, CT_Anchor, CT_Drawing, CT_Inline, PicProps};
use crate::xml::{
    attr_views, element, element_attrs, emit_element, emit_element_attrs, emit_empty, emit_empty_attrs,
    emit_raw, empty_tag, empty_tag_attrs, opt_attr, opt_i32_attr, push_attr, push_opt_attr, push_opt_i32_attr,
    text_bytes, emit_text,
};

verus! {

/// The name a picture is given: its own, else `Picture`.
pub open spec fn pic_name(name: Option<String>) -> Seq<char> {
    match name {
        Some(n) => n@,
        None => "Picture"@,
    }
}

/// The name a picture is given.
fn pic_name_string(name: &Option<String>) -> (r: String)
    ensures
        r@ == pic_name(*name),
{
    match name {
        Some(n) => n.clone(),
        None => to_owned_string("Picture"),
    }
}

/// The non-visual properties of the picture.
pub open spec fn nv_pic_pr_xml(name: Option<String>) -> Seq<u8> {
    element(
        "pic:nvPicPr"@,
        empty_tag_attrs("pic:cNvPr"@, seq![("id"@, "0"@), ("name"@, pic_name(name))]) + empty_tag("pic:cNvPicPr"@),
    )
}

/// The crop rectangle, if any: left, top, right, bottom.
pub open spec fn crop_xml(crop: Option<[i32; 4]>) -> Seq<u8> {
    match crop {
        Some(c) => empty_tag_attrs(
            "a:srcRect"@,
            seq![
                ("l"@, signed_decimal(c@[0] as int)),
                ("t"@, signed_decimal(c@[1] as int)),
                ("r"@, signed_decimal(c@[2] as int)),
                ("b"@, signed_decimal(c@[3] as int)),
            ],
        ),
        None => Seq::empty(),
    }
}

/// The picture fill: the embedded image, the crop and a stretch.
pub open spec fn blip_fill_xml(embed: Seq<char>, crop: Option<[i32; 4]>) -> Seq<u8> {
    element(
        "pic:blipFill"@,
        empty_tag_attrs("a:blip"@, seq![("r:embed"@, embed)]) + crop_xml(crop) + element(
            "a:stretch"@,
            empty_tag("a:fillRect"@),
        ),
    )
}

/// The transform attributes: rotation, then the flips that are set.
pub open spec fn xfrm_attrs(p: PicProps) -> Seq<(Seq<char>, Seq<char>)> {
    opt_i32_attr("rot"@, p.rotation) + (if p.flip_h { seq![("flipH"@, "1"@)] } else { Seq::empty() }) + (
    if p.flip_v { seq![("flipV"@, "1"@)] } else { Seq::empty() })
}

/// The border line, if any: its width and solid color.
pub open spec fn ln_xml(b: Option<(String, i64)>) -> Seq<u8> {
    match b {
        Some((c, w)) => element_attrs(
            "a:ln"@,
            seq![("w"@, signed_decimal(w as int))],
            element("a:solidFill"@, empty_tag_attrs("a:srgbClr"@, seq![("val"@, c@)])),
        ),
        None => Seq::empty(),
    }
}

/// The outer shadow, if any, in the given color.
pub open spec fn shadow_xml(s: Option<String>) -> Seq<u8> {
    match s {
        Some(c) => element(
            "a:effectLst"@,
            element_attrs(
                "a:outerShdw"@,
                seq![("blurRad"@, "40000"@), ("dist"@, "20000"@), ("dir"@, "5400000"@), ("rotWithShape"@, "0"@)],
                element_attrs(
                    "a:srgbClr"@,
                    seq![("val"@, c@)],
                    empty_tag_attrs("a:alpha"@, seq![("val"@, "40000"@)]),
                ),
            ),
        ),
        None => Seq::empty(),
    }
}

/// The shape properties: transform with offset and size, rectangle
/// geometry, border and shadow.
pub open spec fn sp_pr_xml(cx: i64, cy: i64, p: PicProps) -> Seq<u8> {
    element(
        "pic:spPr"@,
        element_attrs(
            "a:xfrm"@,
            xfrm_attrs(p),
            empty_tag_attrs("a:off"@, seq![("x"@, "0"@), ("y"@, "0"@)]) + empty_tag_attrs(
                "a:ext"@,
                seq![("cx"@, signed_decimal(cx as int)), ("cy"@, signed_decimal(cy as int))],
            ),
        ) + element_attrs("a:prstGeom"@, seq![("prst"@, "rect"@)], empty_tag("a:avLst"@)) + ln_xml(p.border)
            + shadow_xml(p.shadow),
    )
}

/// The graphic of a picture: `a:graphic`, `a:graphicData` and `pic:pic`
/// around the non-visual properties, fill and shape properties.
pub open spec fn graphic_xml(embed: Seq<char>, cx: i64, cy: i64, name: Option<String>, p: PicProps) -> Seq<u8> {
    element_attrs(
        "a:graphic"@,
        seq![("xmlns:a"@, drawing_ns::A@)],
        element_attrs(
            "a:graphicData"@,
            seq![("uri"@, drawing_ns::PIC@)],
            element_attrs(
                "pic:pic"@,
                seq![("xmlns:pic"@, drawing_ns::PIC@)],
                nv_pic_pr_xml(name) + blip_fill_xml(embed, p.crop) + sp_pr_xml(cx, cy, p),
            ),
        ),
    )
}

/// The document properties of a picture: id 1, its name, description and
/// title.
pub open spec fn doc_pr_attrs(name: Option<String>, descr: Option<String>, title: Option<String>) -> Seq<(Seq<char>, Seq<char>)> {
    seq![("id"@, "1"@), ("name"@, pic_name(name))] + opt_attr("descr"@, descr) + opt_attr("title"@, title)
}

/// The size of a picture.
pub open spec fn extent_xml(cx: i64, cy: i64) -> Seq<u8> {
    empty_tag_attrs("wp:extent"@, seq![("cx"@, signed_decimal(cx as int)), ("cy"@, signed_decimal(cy as int))])
}

/// The XML of an inline picture: the bytes it was read from, if kept,
/// else `wp:inline` with no distances, the size, the document properties
/// and the graphic.
pub open spec fn inline_xml(i: CT_Inline) -> Seq<u8> {
    match i.raw_xml {
        Some(r) => r@,
        None => element_attrs(
            "wp:inline"@,
            seq![("distT"@, "0"@), ("distB"@, "0"@), ("distL"@, "0"@), ("distR"@, "0"@)],
            extent_xml(i.extent_cx.0, i.extent_cy.0) + empty_tag_attrs(
                "wp:docPr"@,
                doc_pr_attrs(i.name, i.description, i.props.title),
            ) + graphic_xml(i.embed_id@, i.extent_cx.0, i.extent_cy.0, i.name, i.props),
        ),
    }
}

/// A position offset.
pub open spec fn pos_offset_xml(n: i64) -> Seq<u8> {
    element("wp:posOffset"@, text_bytes(signed_decimal(n as int)))
}

/// The attributes of an anchor: behind the text or not, its stacking
/// height, and fixed simple-position, lock, layout and overlap flags.
pub open spec fn anchor_attrs(a: CT_Anchor) -> Seq<(Seq<char>, Seq<char>)> {
    seq![
        ("behindDoc"@, if a.behind_doc { "1"@ } else { "0"@ }),
        ("simplePos"@, "0"@),
        ("relativeHeight"@, decimal(a.relative_height as nat)),
        ("locked"@, "0"@),
        ("layoutInCell"@, "1"@),
        ("allowOverlap"@, "1"@),
    ]
}

/// The XML of an anchored picture: the bytes it was read from, if kept,
/// else `wp:anchor` with a zero simple position, the horizontal and
/// vertical positions, the size, no wrapping, the document properties and
/// the graphic.
pub open spec fn anchor_xml(a: CT_Anchor) -> Seq<u8> {
    match a.raw_xml {
        Some(r) => r@,
        None => element_attrs(
            "wp:anchor"@,
            anchor_attrs(a),
            empty_tag_attrs("wp:simplePos"@, seq![("x"@, "0"@), ("y"@, "0"@)]) + element_attrs(
                "wp:positionH"@,
                seq![("relativeFrom"@, rel_h_name(a.pos_h_relative_from))],
                pos_offset_xml(a.pos_h_offset.0),
            ) + element_attrs(
                "wp:positionV"@,
                seq![("relativeFrom"@, rel_v_name(a.pos_v_relative_from))],
                pos_offset_xml(a.pos_v_offset.0),
            ) + extent_xml(a.extent_cx.0, a.extent_cy.0) + empty_tag("wp:wrapNone"@) + empty_tag_attrs(
                "wp:docPr"@,
                doc_pr_attrs(a.name, a.description, a.props.title),
            ) + graphic_xml(a.embed_id@, a.extent_cx.0, a.extent_cy.0, a.name, a.props),
        ),
    }
}

/// The XML of a drawing: `w:drawing` around its inline picture, then its
/// anchored one, whichever are there.
pub open spec fn drawing_xml(d: CT_Drawing) -> Seq<u8> {
    element(
        "w:drawing"@,
        match d.inline {
            Some(i) => inline_xml(i),
            None => Seq::empty(),
        } + match d.anchor {
            Some(a) => anchor_xml(a),
            None => Seq::empty(),
        },
    )
}

/// Append the non-visual properties of the picture.
fn write_nv_pic_pr(out: &mut Vec<u8>, name: &Option<String>)
    ensures
        final(out)@ == old(out)@ + nv_pic_pr_xml(*name),
{
    let mut b: Vec<u8> = Vec::new();
    let mut attrs: Vec<(String, String)> = Vec::new();
    push_attr(&mut attrs, "id", to_owned_string("0"));
    push_attr(&mut attrs, "name", pic_name_string(name));
    proof { assert(attr_views(attrs@) =~= seq![("id"@, "0"@), ("name"@, pic_name(*name))]); }
    emit_empty_attrs(&mut b, "pic:cNvPr", attrs);
    emit_empty(&mut b, "pic:cNvPicPr");
    proof { assert(b@ =~= empty_tag_attrs("pic:cNvPr"@, seq![("id"@, "0"@), ("name"@, pic_name(*name))]) + empty_tag("pic:cNvPicPr"@)); }
    emit_element(out, "pic:nvPicPr", &b);
}

/// Append the picture fill.
fn write_blip_fill(out: &mut Vec<u8>, embed: &str, crop: Option<[i32; 4]>)
    ensures
        final(out)@ == old(out)@ + blip_fill_xml(embed@, crop),
{
    let mut b: Vec<u8> = Vec::new();
    let mut attrs: Vec<(String, String)> = Vec::new();
    push_attr(&mut attrs, "r:embed", to_owned_string(embed));
    proof { assert(attr_views(attrs@) =~= seq![("r:embed"@, embed@)]); }
    emit_empty_attrs(&mut b, "a:blip", attrs);
    proof { assert(b@ =~= empty_tag_attrs("a:blip"@, seq![("r:embed"@, embed@)])); }
    match crop {
        Some(c) => {
            let mut ca: Vec<(String, String)> = Vec::new();
            push_attr(&mut ca, "l", i32_string(c[0]));
            push_attr(&mut ca, "t", i32_string(c[1]));
            push_attr(&mut ca, "r", i32_string(c[2]));
            push_attr(&mut ca, "b", i32_string(c[3]));
            proof {
                assert(attr_views(ca@) =~= seq![
                    ("l"@, signed_decimal(c@[0] as int)),
                    ("t"@, signed_decimal(c@[1] as int)),
                    ("r"@, signed_decimal(c@[2] as int)),
                    ("b"@, signed_decimal(c@[3] as int)),
                ]);
            }
            emit_empty_attrs(&mut b, "a:srcRect", ca);
        },
        None => {
            proof { assert(b@ =~= b@ + crop_xml(crop)); }
        },
    }
    let mut st: Vec<u8> = Vec::new();
    emit_empty(&mut st, "a:fillRect");
    proof { assert(st@ =~= empty_tag("a:fillRect"@)); }
    emit_element(&mut b, "a:stretch", &st);
    emit_element(out, "pic:blipFill", &b);
}

/// Append the shape properties.
fn write_sp_pr(out: &mut Vec<u8>, cx: i64, cy: i64, p: &PicProps)
    ensures
        final(out)@ == old(out)@ + sp_pr_xml(cx, cy, *p),
{
    let mut xa: Vec<(String, String)> = Vec::new();
    push_opt_i32_attr(&mut xa, "rot", p.rotation);
    proof { assert(attr_views(xa@) =~= opt_i32_attr("rot"@, p.rotation)); }
    if p.flip_h {
        push_attr(&mut xa, "flipH", to_owned_string("1"));
    }
    proof {
        assert(attr_views(xa@) =~= opt_i32_attr("rot"@, p.rotation) + (if p.flip_h {
            seq![("flipH"@, "1"@)]
        } else {
            Seq::empty()
        }));
    }
    if p.flip_v {
        push_attr(&mut xa, "flipV", to_owned_string("1"));
    }
    proof { assert(attr_views(xa@) =~= xfrm_attrs(*p)); }
    let mut xb: Vec<u8> = Vec::new();
    let mut oa: Vec<(String, String)> = Vec::new();
    push_attr(&mut oa, "x", to_owned_string("0"));
    push_attr(&mut oa, "y", to_owned_string("0"));
    proof { assert(attr_views(oa@) =~= seq![("x"@, "0"@), ("y"@, "0"@)]); }
    emit_empty_attrs(&mut xb, "a:off", oa);
    proof { assert(xb@ =~= empty_tag_attrs("a:off"@, seq![("x"@, "0"@), ("y"@, "0"@)])); }
    let mut ea: Vec<(String, String)> = Vec::new();
    push_attr(&mut ea, "cx", i64_string(cx));
    push_attr(&mut ea, "cy", i64_string(cy));
    proof { assert(attr_views(ea@) =~= seq![("cx"@, signed_decimal(cx as int)), ("cy"@, signed_decimal(cy as int))]); }
    emit_empty_attrs(&mut xb, "a:ext", ea);
    let mut b: Vec<u8> = Vec::new();
    emit_element_attrs(&mut b, "a:xfrm", xa, &xb);
    let mut pb: Vec<u8> = Vec::new();
    emit_empty(&mut pb, "a:avLst");
    proof { assert(pb@ =~= empty_tag("a:avLst"@)); }
    let mut pa: Vec<(String, String)> = Vec::new();
    push_attr(&mut pa, "prst", to_owned_string("rect"));
    proof { assert(attr_views(pa@) =~= seq![("prst"@, "rect"@)]); }
    emit_element_attrs(&mut b, "a:prstGeom", pa, &pb);
    match &p.border {
        Some(bd) => {
            let mut fill: Vec<u8> = Vec::new();
            let mut ca: Vec<(String, String)> = Vec::new();
            push_attr(&mut ca, "val", bd.0.clone());
            proof { assert(attr_views(ca@) =~= seq![("val"@, bd.0@)]); }
            emit_empty_attrs(&mut fill, "a:srgbClr", ca);
            proof { assert(fill@ =~= empty_tag_attrs("a:srgbClr"@, seq![("val"@, bd.0@)])); }
            let mut lb: Vec<u8> = Vec::new();
            emit_element(&mut lb, "a:solidFill", &fill);
            proof { assert(lb@ =~= element("a:solidFill"@, fill@)); }
            let mut la: Vec<(String, String)> = Vec::new();
            push_attr(&mut la, "w", i64_string(bd.1));
            proof { assert(attr_views(la@) =~= seq![("w"@, signed_decimal(bd.1 as int))]); }
            emit_element_attrs(&mut b, "a:ln", la, &lb);
        },
        None => {
            proof { assert(b@ =~= b@ + ln_xml(p.border)); }
        },
    }
    match &p.shadow {
        Some(c) => {
            let mut al: Vec<u8> = Vec::new();
            let mut aa: Vec<(String, String)> = Vec::new();
            push_attr(&mut aa, "val", to_owned_string("40000"));
            proof { assert(attr_views(aa@) =~= seq![("val"@, "40000"@)]); }
            emit_empty_attrs(&mut al, "a:alpha", aa);
            proof { assert(al@ =~= empty_tag_attrs("a:alpha"@, seq![("val"@, "40000"@)])); }
            let mut clr: Vec<u8> = Vec::new();
            let mut ca: Vec<(String, String)> = Vec::new();
            push_attr(&mut ca, "val", c.clone());
            proof { assert(attr_views(ca@) =~= seq![("val"@, c@)]); }
            emit_element_attrs(&mut clr, "a:srgbClr", ca, &al);
            proof { assert(clr@ =~= element_attrs("a:srgbClr"@, seq![("val"@, c@)], al@)); }
            let mut sa: Vec<(String, String)> = Vec::new();
            push_attr(&mut sa, "blurRad", to_owned_string("40000"));
            push_attr(&mut sa, "dist", to_owned_string("20000"));
            push_attr(&mut sa, "dir", to_owned_string("5400000"));
            push_attr(&mut sa, "rotWithShape", to_owned_string("0"));
            proof {
                assert(attr_views(sa@) =~= seq![
                    ("blurRad"@, "40000"@),
                    ("dist"@, "20000"@),
                    ("dir"@, "5400000"@),
                    ("rotWithShape"@, "0"@),
                ]);
            }
            let mut sh: Vec<u8> = Vec::new();
            emit_element_attrs(&mut sh, "a:outerShdw", sa, &clr);
            proof { assert(sh@ =~= Seq::<u8>::empty() + sh@); }
            emit_element(&mut b, "a:effectLst", &sh);
        },
        None => {
            proof { assert(b@ =~= b@ + shadow_xml(p.shadow)); }
        },
    }
    emit_element(out, "pic:spPr", &b);
}

/// Append the graphic of a picture.
fn write_graphic_element(out: &mut Vec<u8>, embed: &str, cx: i64, cy: i64, name: &Option<String>, p: &PicProps)
    ensures
        final(out)@ == old(out)@ + graphic_xml(embed@, cx, cy, *name, *p),
{
    let mut pic: Vec<u8> = Vec::new();
    write_nv_pic_pr(&mut pic, name);
    proof { assert(pic@ =~= nv_pic_pr_xml(*name)); }
    write_blip_fill(&mut pic, embed, p.crop);
    write_sp_pr(&mut pic, cx, cy, p);
    let mut pa: Vec<(String, String)> = Vec::new();
    push_attr(&mut pa, "xmlns:pic", to_owned_string(drawing_ns::PIC));
    proof { assert(attr_views(pa@) =~= seq![("xmlns:pic"@, drawing_ns::PIC@)]); }
    let mut gd: Vec<u8> = Vec::new();
    emit_element_attrs(&mut gd, "pic:pic", pa, &pic);
    proof { assert(gd@ =~= Seq::<u8>::empty() + gd@); }
    let mut ga: Vec<(String, String)> = Vec::new();
    push_attr(&mut ga, "uri", to_owned_string(drawing_ns::PIC));
    proof { assert(attr_views(ga@) =~= seq![("uri"@, drawing_ns::PIC@)]); }
    let mut g: Vec<u8> = Vec::new();
    emit_element_attrs(&mut g, "a:graphicData", ga, &gd);
    let mut aa: Vec<(String, String)> = Vec::new();
    push_attr(&mut aa, "xmlns:a", to_owned_string(drawing_ns::A));
    proof { assert(attr_views(aa@) =~= seq![("xmlns:a"@, drawing_ns::A@)]); }
    emit_element_attrs(out, "a:graphic", aa, &g);
}

/// The document properties attributes.
fn doc_pr(name: &Option<String>, descr: &Option<String>, title: &Option<String>) -> (r: Vec<(String, String)>)
    ensures
        attr_views(r@) == doc_pr_attrs(*name, *descr, *title),
{
    let mut a: Vec<(String, String)> = Vec::new();
    push_attr(&mut a, "id", to_owned_string("1"));
    push_attr(&mut a, "name", pic_name_string(name));
    proof { assert(attr_views(a@) =~= seq![("id"@, "1"@), ("name"@, pic_name(*name))]); }
    push_opt_attr(&mut a, "descr", descr);
    push_opt_attr(&mut a, "title", title);
    a
}

/// Append the size of a picture.
fn write_extent(out: &mut Vec<u8>, cx: i64, cy: i64)
    ensures
        final(out)@ == old(out)@ + extent_xml(cx, cy),
{
    let mut a: Vec<(String, String)> = Vec::new();
    push_attr(&mut a, "cx", i64_string(cx));
    push_attr(&mut a, "cy", i64_string(cy));
    proof { assert(attr_views(a@) =~= seq![("cx"@, signed_decimal(cx as int)), ("cy"@, signed_decimal(cy as int))]); }
    emit_empty_attrs(out, "wp:extent", a);
}

impl CT_Inline {
    /// Append this inline picture.
    pub fn to_xml(&self, out: &mut Vec<u8>)
        ensures
            final(out)@ == old(out)@ + inline_xml(*self),
    {
        match &self.raw_xml {
            Some(r) => {
                emit_raw(out, r);
                return;
            },
            None => {},
        }
        let mut b: Vec<u8> = Vec::new();
        write_extent(&mut b, self.extent_cx.0, self.extent_cy.0);
        proof { assert(b@ =~= extent_xml(self.extent_cx.0, self.extent_cy.0)); }
        emit_empty_attrs(&mut b, "wp:docPr", doc_pr(&self.name, &self.description, &self.props.title));
        write_graphic_element(&mut b, self.embed_id.as_str(), self.extent_cx.0, self.extent_cy.0, &self.name, &self.props);
        let mut a: Vec<(String, String)> = Vec::new();
        push_attr(&mut a, "distT", to_owned_string("0"));
        push_attr(&mut a, "distB", to_owned_string("0"));
        push_attr(&mut a, "distL", to_owned_string("0"));
        push_attr(&mut a, "distR", to_owned_string("0"));
        proof {
            assert(attr_views(a@) =~= seq![("distT"@, "0"@), ("distB"@, "0"@), ("distL"@, "0"@), ("distR"@, "0"@)]);
        }
        emit_element_attrs(out, "wp:inline", a, &b);
    }
}

/// Append a position element with its offset.
fn write_position(out: &mut Vec<u8>, tag: &str, rel: &str, offset: i64)
    ensures
        final(out)@ == old(out)@ + element_attrs(tag@, seq![("relativeFrom"@, rel@)], pos_offset_xml(offset)),
{
    let mut t: Vec<u8> = Vec::new();
    let s = i64_string(offset);
    emit_text(&mut t, s.as_str());
    proof { assert(t@ =~= text_bytes(signed_decimal(offset as int))); }
    let mut po: Vec<u8> = Vec::new();
    emit_element(&mut po, "wp:posOffset", &t);
    proof { assert(po@ =~= pos_offset_xml(offset)); }
    let mut a: Vec<(String, String)> = Vec::new();
    push_attr(&mut a, "relativeFrom", to_owned_string(rel));
    proof { assert(attr_views(a@) =~= seq![("relativeFrom"@, rel@)]); }
    emit_element_attrs(out, tag, a, &po);
}

impl CT_Anchor {
    /// Append this anchored picture.
    pub fn to_xml(&self, out: &mut Vec<u8>)
        ensures
            final(out)@ == old(out)@ + anchor_xml(*self),
    {
        match &self.raw_xml {
            Some(r) => {
                emit_raw(out, r);
                return;
            },
            None => {},
        }
        let mut b: Vec<u8> = Vec::new();
        let mut sp: Vec<(String, String)> = Vec::new();
        push_attr(&mut sp, "x", to_owned_string("0"));
        push_attr(&mut sp, "y", to_owned_string("0"));
        proof { assert(attr_views(sp@) =~= seq![("x"@, "0"@), ("y"@, "0"@)]); }
        emit_empty_attrs(&mut b, "wp:simplePos", sp);
        proof { assert(b@ =~= empty_tag_attrs("wp:simplePos"@, seq![("x"@, "0"@), ("y"@, "0"@)])); }
        write_position(&mut b, "wp:positionH", self.pos_h_relative_from.to_str(), self.pos_h_offset.0);
        write_position(&mut b, "wp:positionV", self.pos_v_relative_from.to_str(), self.pos_v_offset.0);
        write_extent(&mut b, self.extent_cx.0, self.extent_cy.0);
        emit_empty(&mut b, "wp:wrapNone");
        emit_empty_attrs(&mut b, "wp:docPr", doc_pr(&self.name, &self.description, &self.props.title));
        write_graphic_element(&mut b, self.embed_id.as_str(), self.extent_cx.0, self.extent_cy.0, &self.name, &self.props);
        let mut a: Vec<(String, String)> = Vec::new();
        push_attr(&mut a, "behindDoc", to_owned_string(if self.behind_doc { "1" } else { "0" }));
        push_attr(&mut a, "simplePos", to_owned_string("0"));
        push_attr(&mut a, "relativeHeight", u32_string(self.relative_height));
        push_attr(&mut a, "locked", to_owned_string("0"));
        push_attr(&mut a, "layoutInCell", to_owned_string("1"));
        push_attr(&mut a, "allowOverlap", to_owned_string("1"));
        proof { assert(attr_views(a@) =~= anchor_attrs(*self)); }
        emit_element_attrs(out, "wp:anchor", a, &b);
    }
}

impl CT_Drawing {
    /// Append this drawing as a `w:drawing` element.
    pub fn to_xml(&self, out: &mut Vec<u8>)
        ensures
            final(out)@ == old(out)@ + drawing_xml(*self),
    {
        let mut b: Vec<u8> = Vec::new();
        match &self.inline {
            Some(i) => i.to_xml(&mut b),
            None => {},
        }
        proof { assert(b@ =~= match self.inline { Some(i) => inline_xml(i), None => Seq::<u8>::empty() }); }
        match &self.anchor {
            Some(a) => a.to_xml(&mut b),
            None => {
                proof { assert(b@ =~= b@ + Seq::<u8>::empty()); }
            },
        }
        emit_element(out, "w:drawing", &b);
    }
}

} // verus!
