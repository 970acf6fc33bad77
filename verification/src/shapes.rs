//! DrawingML shapes and text boxes.

use vstd::prelude::*;

use crate::chars::{i64_string, signed_decimal, to_owned_string};
use crate::drawing::drawing_ns;
use crate::error::OxmlError;
use crate::units::Emu;
use crate::xml::{
    attr_views, element, element_attrs, emit_element, emit_element_attrs, emit_empty_attrs, emit_text,
    empty_tag, empty_tag_attrs, push_attr, text_bytes, emit_empty, opt_attr,
};

verus! {

/// A shape drawn inline in a run.
#[derive(Debug, Clone, PartialEq)]
pub struct Shape {
    pub width: Emu,
    pub height: Emu,
    /// Preset geometry name (`rect`, `ellipse`, …).
    pub geom: String,
    /// Fill colour (hex RGB), if any.
    pub fill: Option<String>,
    /// Outline colour and width in EMU, if any.
    pub line: Option<(String, i64)>,
    /// Lines of text inside the shape (a text box when not empty).
    pub text: Vec<String>,
    pub name: String,
}

impl Shape {
    /// A rectangular text box with a thin black outline holding `lines`.
    pub fn text_box(width: Emu, height: Emu, lines: Vec<String>) -> (r: Self)
        ensures
            r.width == width,
            r.height == height,
            r.geom@ == "rect"@,
            r.fill is None,
            r.line matches Some((c, w)) && c@ == "000000"@ && w == 6350,
            r.text@ == lines@,
            r.name@ == "TextBox"@,
    {
        Shape {
            width,
            height,
            geom: to_owned_string("rect"),
            fill: None,
            line: Some((to_owned_string("000000"), 6350)),
            text: lines,
            name: to_owned_string("TextBox"),
        }
    }

    /// A preset geometry shape with no fill, outline or text.
    pub fn preset(width: Emu, height: Emu, geom: &str) -> (r: Self)
        ensures
            r.width == width,
            r.height == height,
            r.geom@ == geom@,
            r.fill is None,
            r.line is None,
            r.text@.len() == 0,
            r.name@ == "Shape"@,
    {
        Shape {
            width,
            height,
            geom: to_owned_string(geom),
            fill: None,
            line: None,
            text: Vec::new(),
            name: to_owned_string("Shape"),
        }
    }
}

/// The namespace of word-processing shapes.
pub const WPS_NS: &'static str = "http://schemas.microsoft.com/office/word/2010/wordprocessingShape";

/// A solid fill in a colour.
pub open spec fn solid_fill_xml(color: Seq<char>) -> Seq<u8> {
    element("a:solidFill"@, empty_tag_attrs("a:srgbClr"@, seq![("val"@, color)]))
}

/// The shape properties: transform, preset geometry, fill and outline.
pub open spec fn shape_pr_xml(s: Shape) -> Seq<u8> {
    element(
        "wps:spPr"@,
        element(
            "a:xfrm"@,
            empty_tag_attrs("a:off"@, seq![("x"@, "0"@), ("y"@, "0"@)]) + empty_tag_attrs(
                "a:ext"@,
                seq![("cx"@, signed_decimal(s.width.0 as int)), ("cy"@, signed_decimal(s.height.0 as int))],
            ),
        ) + element_attrs("a:prstGeom"@, seq![("prst"@, s.geom@)], empty_tag("a:avLst"@)) + (match s.fill {
            Some(f) => solid_fill_xml(f@),
            None => Seq::empty(),
        }) + (match s.line {
            Some((c, w)) => element_attrs("a:ln"@, seq![("w"@, signed_decimal(w as int))], solid_fill_xml(c@)),
            None => Seq::empty(),
        }),
    )
}

/// One line of text as a paragraph with one run, spaces kept.
pub open spec fn text_line_xml(t: Seq<char>) -> Seq<u8> {
    element("w:p"@, element("w:r"@, element_attrs("w:t"@, seq![("xml:space"@, "preserve"@)], text_bytes(t))))
}

/// The first `n` lines as paragraphs.
pub open spec fn text_lines_xml(lines: Seq<String>, n: nat) -> Seq<u8>
    decreases n,
{
    if n == 0 {
        Seq::empty()
    } else {
        text_lines_xml(lines, (n - 1) as nat) + text_line_xml(lines[n - 1]@)
    }
}

/// The shape itself: marked a text box when it holds text, its
/// properties, its text box content if any, and its body properties.
pub open spec fn wsp_xml(s: Shape) -> Seq<u8> {
    let has_text = s.text@.len() > 0;
    element_attrs(
        "wps:wsp"@,
        seq![("xmlns:wps"@, WPS_NS@)],
        empty_tag_attrs("wps:cNvSpPr"@, if has_text { seq![("txBox"@, "1"@)] } else { seq![] }) + shape_pr_xml(s)
            + (if has_text {
            element("wps:txbx"@, element("w:txbxContent"@, text_lines_xml(s.text@, s.text@.len())))
        } else {
            Seq::empty()
        }) + empty_tag_attrs("wps:bodyPr"@, seq![("rot"@, "0"@), ("anchor"@, "t"@)]),
    )
}

/// The run with the inline drawing of the shape.
pub open spec fn shape_run_xml(s: Shape) -> Seq<u8> {
    element(
        "w:r"@,
        element(
            "w:drawing"@,
            element_attrs(
                "wp:inline"@,
                seq![("xmlns:wp"@, drawing_ns::WP@), ("distT"@, "0"@), ("distB"@, "0"@), ("distL"@, "0"@), ("distR"@, "0"@)],
                empty_tag_attrs(
                    "wp:extent"@,
                    seq![("cx"@, signed_decimal(s.width.0 as int)), ("cy"@, signed_decimal(s.height.0 as int))],
                ) + empty_tag_attrs("wp:docPr"@, seq![("id"@, "1"@), ("name"@, s.name@)]) + element_attrs(
                    "a:graphic"@,
                    seq![("xmlns:a"@, drawing_ns::A@)],
                    element_attrs("a:graphicData"@, seq![("uri"@, WPS_NS@)], wsp_xml(s)),
                ),
            ),
        ),
    )
}

/// Append a solid fill.
fn write_solid_fill(out: &mut Vec<u8>, color: &str)
    ensures
        final(out)@ == old(out)@ + solid_fill_xml(color@),
{
    let mut a: Vec<(String, String)> = Vec::new();
    push_attr(&mut a, "val", to_owned_string(color));
    proof { assert(attr_views(a@) =~= seq![("val"@, color@)]); }
    let mut c: Vec<u8> = Vec::new();
    emit_empty_attrs(&mut c, "a:srgbClr", a);
    proof { assert(c@ =~= empty_tag_attrs("a:srgbClr"@, seq![("val"@, color@)])); }
    emit_element(out, "a:solidFill", &c);
}

/// The attributes `cx` and `cy` of a size.
fn size_attrs(cx: i64, cy: i64) -> (r: Vec<(String, String)>)
    ensures
        attr_views(r@) == seq![("cx"@, signed_decimal(cx as int)), ("cy"@, signed_decimal(cy as int))],
{
    let mut a: Vec<(String, String)> = Vec::new();
    push_attr(&mut a, "cx", i64_string(cx));
    push_attr(&mut a, "cy", i64_string(cy));
    proof { assert(attr_views(a@) =~= seq![("cx"@, signed_decimal(cx as int)), ("cy"@, signed_decimal(cy as int))]); }
    a
}

impl Shape {
    /// Append the shape properties.
    fn write_shape_pr(&self, out: &mut Vec<u8>)
        ensures
            final(out)@ == old(out)@ + shape_pr_xml(*self),
    {
        let mut x: Vec<u8> = Vec::new();
        let mut oa: Vec<(String, String)> = Vec::new();
        push_attr(&mut oa, "x", to_owned_string("0"));
        push_attr(&mut oa, "y", to_owned_string("0"));
        proof { assert(attr_views(oa@) =~= seq![("x"@, "0"@), ("y"@, "0"@)]); }
        emit_empty_attrs(&mut x, "a:off", oa);
        emit_empty_attrs(&mut x, "a:ext", size_attrs(self.width.0, self.height.0));
        let mut b: Vec<u8> = Vec::new();
        emit_element(&mut b, "a:xfrm", &x);
        let mut ga: Vec<(String, String)> = Vec::new();
        push_attr(&mut ga, "prst", self.geom.clone());
        proof { assert(attr_views(ga@) =~= seq![("prst"@, self.geom@)]); }
        let mut av: Vec<u8> = Vec::new();
        emit_empty(&mut av, "a:avLst");
        proof { assert(av@ =~= empty_tag("a:avLst"@)); }
        emit_element_attrs(&mut b, "a:prstGeom", ga, &av);
        let ghost mid = b@;
        match &self.fill {
            Some(f) => write_solid_fill(&mut b, f.as_str()),
            None => {},
        }
        let ghost mid2 = b@;
        match &self.line {
            Some((c, w)) => {
                let mut la: Vec<(String, String)> = Vec::new();
                push_attr(&mut la, "w", i64_string(*w));
                proof { assert(attr_views(la@) =~= seq![("w"@, signed_decimal(*w as int))]); }
                let mut lf: Vec<u8> = Vec::new();
                write_solid_fill(&mut lf, c.as_str());
                proof { assert(lf@ =~= solid_fill_xml(c@)); }
                emit_element_attrs(&mut b, "a:ln", la, &lf);
            },
            None => {},
        }
        proof {
            assert(b@ =~= element(
                "a:xfrm"@,
                empty_tag_attrs("a:off"@, seq![("x"@, "0"@), ("y"@, "0"@)]) + empty_tag_attrs(
                    "a:ext"@,
                    seq![("cx"@, signed_decimal(self.width.0 as int)), ("cy"@, signed_decimal(self.height.0 as int))],
                ),
            ) + element_attrs("a:prstGeom"@, seq![("prst"@, self.geom@)], empty_tag("a:avLst"@)) + (match self.fill {
                Some(f) => solid_fill_xml(f@),
                None => Seq::empty(),
            }) + (match self.line {
                Some((c, w)) => element_attrs("a:ln"@, seq![("w"@, signed_decimal(w as int))], solid_fill_xml(c@)),
                None => Seq::empty(),
            }));
        }
        emit_element(out, "wps:spPr", &b);
    }

    /// Append the shape element.
    fn write_wsp(&self, out: &mut Vec<u8>)
        ensures
            final(out)@ == old(out)@ + wsp_xml(*self),
    {
        let has_text = self.text.len() > 0;
        let mut b: Vec<u8> = Vec::new();
        let mut ca: Vec<(String, String)> = Vec::new();
        if has_text {
            push_attr(&mut ca, "txBox", to_owned_string("1"));
        }
        proof {
            assert(attr_views(ca@) =~= (if has_text { seq![("txBox"@, "1"@)] } else { seq![] }));
        }
        emit_empty_attrs(&mut b, "wps:cNvSpPr", ca);
        self.write_shape_pr(&mut b);
        let ghost mid = b@;
        if has_text {
            let mut lines: Vec<u8> = Vec::new();
            let mut i: usize = 0;
            while i < self.text.len()
                invariant
                    i <= self.text@.len(),
                    lines@ == text_lines_xml(self.text@, i as nat),
                decreases self.text@.len() - i,
            {
                let mut tt: Vec<u8> = Vec::new();
                emit_text(&mut tt, self.text[i].as_str());
                let mut ta: Vec<(String, String)> = Vec::new();
                push_attr(&mut ta, "xml:space", to_owned_string("preserve"));
                proof {
                    assert(attr_views(ta@) =~= seq![("xml:space"@, "preserve"@)]);
                    assert(tt@ =~= text_bytes(self.text@[i as int]@));
                }
                let mut r: Vec<u8> = Vec::new();
                emit_element_attrs(&mut r, "w:t", ta, &tt);
                let mut p: Vec<u8> = Vec::new();
                emit_element(&mut p, "w:r", &r);
                proof { assert(r@ =~= element_attrs("w:t"@, seq![("xml:space"@, "preserve"@)], tt@)); }
                emit_element(&mut lines, "w:p", &p);
                proof {
                    assert(p@ =~= element("w:r"@, r@));
                    assert(lines@ =~= text_lines_xml(self.text@, (i + 1) as nat));
                }
                i = i + 1;
            }
            let mut c: Vec<u8> = Vec::new();
            emit_element(&mut c, "w:txbxContent", &lines);
            proof { assert(c@ =~= element("w:txbxContent"@, lines@)); }
            emit_element(&mut b, "wps:txbx", &c);
        }
        let mut ba: Vec<(String, String)> = Vec::new();
        push_attr(&mut ba, "rot", to_owned_string("0"));
        push_attr(&mut ba, "anchor", to_owned_string("t"));
        proof { assert(attr_views(ba@) =~= seq![("rot"@, "0"@), ("anchor"@, "t"@)]); }
        let ghost before_body = b@;
        emit_empty_attrs(&mut b, "wps:bodyPr", ba);
        proof {
            assert(b@ =~= empty_tag_attrs("wps:cNvSpPr"@, if has_text { seq![("txBox"@, "1"@)] } else { seq![] })
                + shape_pr_xml(*self) + (if has_text {
                element("wps:txbx"@, element("w:txbxContent"@, text_lines_xml(self.text@, self.text@.len())))
            } else {
                Seq::empty()
            }) + empty_tag_attrs("wps:bodyPr"@, seq![("rot"@, "0"@), ("anchor"@, "t"@)]));
        }
        let mut wa: Vec<(String, String)> = Vec::new();
        push_attr(&mut wa, "xmlns:wps", to_owned_string(WPS_NS));
        proof { assert(attr_views(wa@) =~= seq![("xmlns:wps"@, WPS_NS@)]); }
        emit_element_attrs(out, "wps:wsp", wa, &b);
    }

    /// The run with the inline drawing of the shape; writing to memory does
    /// not fail.
    pub fn to_run_bytes(&self) -> (r: Result<Vec<u8>, OxmlError>)
        ensures
            r matches Ok(b) && b@ == shape_run_xml(*self),
    {
        let mut wsp: Vec<u8> = Vec::new();
        self.write_wsp(&mut wsp);
        let mut ga: Vec<(String, String)> = Vec::new();
        push_attr(&mut ga, "uri", to_owned_string(WPS_NS));
        proof { assert(attr_views(ga@) =~= seq![("uri"@, WPS_NS@)]); }
        let mut g: Vec<u8> = Vec::new();
        emit_element_attrs(&mut g, "a:graphicData", ga, &wsp);
        proof { assert(g@ =~= element_attrs("a:graphicData"@, seq![("uri"@, WPS_NS@)], wsp_xml(*self))); }
        let mut aa: Vec<(String, String)> = Vec::new();
        push_attr(&mut aa, "xmlns:a", to_owned_string(drawing_ns::A));
        proof { assert(attr_views(aa@) =~= seq![("xmlns:a"@, drawing_ns::A@)]); }
        let mut inl: Vec<u8> = Vec::new();
        emit_empty_attrs(&mut inl, "wp:extent", size_attrs(self.width.0, self.height.0));
        let mut da: Vec<(String, String)> = Vec::new();
        push_attr(&mut da, "id", to_owned_string("1"));
        push_attr(&mut da, "name", self.name.clone());
        proof { assert(attr_views(da@) =~= seq![("id"@, "1"@), ("name"@, self.name@)]); }
        emit_empty_attrs(&mut inl, "wp:docPr", da);
        emit_element_attrs(&mut inl, "a:graphic", aa, &g);
        let mut ia: Vec<(String, String)> = Vec::new();
        push_attr(&mut ia, "xmlns:wp", to_owned_string(drawing_ns::WP));
        push_attr(&mut ia, "distT", to_owned_string("0"));
        push_attr(&mut ia, "distB", to_owned_string("0"));
        push_attr(&mut ia, "distL", to_owned_string("0"));
        push_attr(&mut ia, "distR", to_owned_string("0"));
        proof {
            assert(attr_views(ia@) =~= seq![("xmlns:wp"@, drawing_ns::WP@), ("distT"@, "0"@), ("distB"@, "0"@), ("distL"@, "0"@), ("distR"@, "0"@)]);
            assert(inl@ =~= empty_tag_attrs(
                "wp:extent"@,
                seq![("cx"@, signed_decimal(self.width.0 as int)), ("cy"@, signed_decimal(self.height.0 as int))],
            ) + empty_tag_attrs("wp:docPr"@, seq![("id"@, "1"@), ("name"@, self.name@)]) + element_attrs(
                "a:graphic"@,
                seq![("xmlns:a"@, drawing_ns::A@)],
                g@,
            ));
        }
        let mut dr: Vec<u8> = Vec::new();
        emit_element_attrs(&mut dr, "wp:inline", ia, &inl);
        proof { assert(dr@ =~= Seq::<u8>::empty() + dr@); }
        let mut run: Vec<u8> = Vec::new();
        emit_element(&mut run, "w:drawing", &dr);
        proof { assert(run@ =~= Seq::<u8>::empty() + run@); }
        let mut out: Vec<u8> = Vec::new();
        emit_element(&mut out, "w:r", &run);
        proof { assert(out@ =~= shape_run_xml(*self)); }
        Ok(out)
    }
}

} // verus!
