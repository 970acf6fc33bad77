//! CSS generated from paragraph and run properties.
//!
//! Lengths in twips are shown in points with one decimal, rounded from the
//! exact value (halves away from zero); half-point font sizes are exact.

use vstd::prelude::*;

use crate::chars::{decimal, digit_char, digit_to_char, push_char, push_decimal, push_str,
    str_eq, to_owned_string};
use crate::properties::{CT_PPr, CT_RPr, CT_Shd};
use crate::shared::ST_Jc;

verus! {

/// The base stylesheet of a generated HTML document.
pub open spec fn base_css() -> Seq<char> {
    "body { font-family: 'Calibri', 'Arial', sans-serif; font-size: 11pt; line-height: 1.4; margin: 1in; color: #000; }\nh1, h2, h3, h4, h5, h6 { margin-top: 0.5em; margin-bottom: 0.3em; }\nh1 { font-size: 2em; }\nh2 { font-size: 1.5em; }\nh3 { font-size: 1.17em; }\nh4 { font-size: 1em; }\nh5 { font-size: 0.83em; }\nh6 { font-size: 0.67em; }\np { margin: 0 0 8pt 0; }\ntable { border-collapse: collapse; margin: 8pt 0; }\ntd, th { padding: 4pt 6pt; vertical-align: top; }\nul, ol { margin: 4pt 0; padding-left: 36pt; }\na { color: #0563C1; text-decoration: underline; }"@
}

/// Generate base CSS styles for the HTML document.
pub fn generate_base_css() -> (r: String)
    ensures
        r@ == base_css(),
{
    to_owned_string(
        "body { font-family: 'Calibri', 'Arial', sans-serif; font-size: 11pt; line-height: 1.4; margin: 1in; color: #000; }\nh1, h2, h3, h4, h5, h6 { margin-top: 0.5em; margin-bottom: 0.3em; }\nh1 { font-size: 2em; }\nh2 { font-size: 1.5em; }\nh3 { font-size: 1.17em; }\nh4 { font-size: 1em; }\nh5 { font-size: 0.83em; }\nh6 { font-size: 0.67em; }\np { margin: 0 0 8pt 0; }\ntable { border-collapse: collapse; margin: 8pt 0; }\ntd, th { padding: 4pt 6pt; vertical-align: top; }\nul, ol { margin: 4pt 0; padding-left: 36pt; }\na { color: #0563C1; text-decoration: underline; }",
    )
}

/// `n / d` rounded to the nearest integer, halves away from zero (`d > 0`).
pub open spec fn round_div(n: int, d: int) -> int {
    if n >= 0 {
        (2 * n + d) / (2 * d)
    } else {
        -((2 * (-n) + d) / (2 * d))
    }
}

/// A number of tenths written with one decimal: `-1.5`, `0.0`, `12.3`.
pub open spec fn tenths_text(q: int) -> Seq<char> {
    let a = if q < 0 { -q } else { q };
    (if q < 0 { seq!['-'] } else { Seq::empty() }) + decimal((a / 10) as nat) + seq!['.']
        + seq![digit_char((a % 10) as nat)]
}

/// A number of hundredths written with two decimals.
pub open spec fn hundredths_text(q: int) -> Seq<char> {
    let a = if q < 0 { -q } else { q };
    (if q < 0 { seq!['-'] } else { Seq::empty() }) + decimal((a / 100) as nat) + seq!['.']
        + seq![digit_char(((a / 10) % 10) as nat)] + seq![digit_char((a % 10) as nat)]
}

/// A length in twips as points with one decimal.
pub open spec fn twips_pt(t: int) -> Seq<char> {
    tenths_text(round_div(t, 2))
}

/// A size in half-points as points: whole, or with `.5`.
pub open spec fn half_points_pt(h: nat) -> Seq<char> {
    decimal(h / 2) + if h % 2 == 1 { ".5"@ } else { Seq::empty() }
}

/// Appends a number of tenths with one decimal.
fn push_tenths(s: &mut String, q: i64)
    requires
        q > i64::MIN,
    ensures
        final(s)@ == old(s)@ + tenths_text(q as int),
{
    let a: u64 = if q < 0 { (-q) as u64 } else { q as u64 };
    if q < 0 {
        push_char(s, '-');
    }
    push_decimal(s, a / 10);
    push_char(s, '.');
    push_char(s, digit_to_char(a % 10));
    proof { assert(final(s)@ =~= old(s)@ + tenths_text(q as int)); }
}

/// Appends a number of hundredths with two decimals.
fn push_hundredths(s: &mut String, q: i64)
    requires
        q > i64::MIN,
    ensures
        final(s)@ == old(s)@ + hundredths_text(q as int),
{
    let a: u64 = if q < 0 { (-q) as u64 } else { q as u64 };
    if q < 0 {
        push_char(s, '-');
    }
    push_decimal(s, a / 100);
    push_char(s, '.');
    push_char(s, digit_to_char((a / 10) % 10));
    push_char(s, digit_to_char(a % 10));
    proof { assert(final(s)@ =~= old(s)@ + hundredths_text(q as int)); }
}

/// `n / d` rounded, halves away from zero.
fn round_div_exec(n: i64, d: i64) -> (r: i64)
    requires
        0 < d <= 1000,
        -1000000000000 <= n <= 1000000000000,
    ensures
        r == round_div(n as int, d as int),
{
    if n >= 0 {
        (2 * n + d) / (2 * d)
    } else {
        -((2 * (-n) + d) / (2 * d))
    }
}

/// Appends a length in twips as points with one decimal.
fn push_twips_pt(s: &mut String, t: i32)
    ensures
        final(s)@ == old(s)@ + twips_pt(t as int),
{
    let q = round_div_exec(t as i64, 2);
    proof {
        assert(-1100000000 <= q <= 1100000000) by (nonlinear_arith)
            requires q == round_div(t as int, 2), -2147483648 <= t <= 2147483647;
    }
    push_tenths(s, q);
}

/// The declarations a list of declarations `join`s to: separated by `;`.
pub open spec fn join_decls(ds: Seq<Seq<char>>) -> Seq<char>
    decreases ds.len(),
{
    if ds.len() == 0 {
        Seq::empty()
    } else {
        let p = join_decls(ds.drop_last());
        if p.len() == 0 {
            ds.last()
        } else {
            p + seq![';'] + ds.last()
        }
    }
}

/// A one-element list when `c` holds, else an empty one.
pub open spec fn when(c: bool, d: Seq<char>) -> Seq<Seq<char>> {
    if c { seq![d] } else { Seq::empty() }
}

/// The CSS name of a paragraph alignment.
pub open spec fn align_name(jc: ST_Jc) -> Seq<char> {
    match jc {
        ST_Jc::Left | ST_Jc::Start => "left"@,
        ST_Jc::Center => "center"@,
        ST_Jc::Right | ST_Jc::End => "right"@,
        ST_Jc::Both | ST_Jc::Distribute => "justify"@,
    }
}

/// The fill of a shading that is shown as a background: one that is set
/// and is neither `auto` nor white.
pub open spec fn shown_fill(shd: Option<CT_Shd>) -> Option<Seq<char>> {
    match shd {
        Some(s) => match s.fill {
            Some(f) => if f@ != "auto"@ && f@ != "FFFFFF"@ { Some(f@) } else { None },
            None => None,
        },
        None => None,
    }
}

/// The line-height declaration of a paragraph's line spacing: a factor of
/// the 240-twip single line for `auto` spacing (when it differs from 1 by
/// more than 0.01), points for `exact` and `atLeast`.
pub open spec fn line_height_decls(p: CT_PPr) -> Seq<Seq<char>> {
    match p.line_spacing {
        Some(ls) => {
            let rule = match p.line_rule {
                Some(r) => r@,
                None => "auto"@,
            };
            if rule == "auto"@ {
                when(ls.0 - 240 > 2 || 240 - ls.0 > 2, "line-height:"@ + hundredths_text(
                    round_div(ls.0 * 5, 12)))
            } else if rule == "exact"@ || rule == "atLeast"@ {
                seq!["line-height:"@ + twips_pt(ls.0 as int) + "pt"@]
            } else {
                Seq::empty()
            }
        },
        None => Seq::empty(),
    }
}

/// A length declaration `name` + points + `pt`, when the length is set (and,
/// if `positive_only`, greater than zero).
pub open spec fn pt_decls(name: Seq<char>, v: Option<crate::units::Twips>, positive_only: bool) -> Seq<
    Seq<char>,
> {
    match v {
        Some(t) => when(!positive_only || t.0 > 0, name + twips_pt(t.0 as int) + "pt"@),
        None => Seq::empty(),
    }
}

/// The text-align declaration of a paragraph, if aligned.
pub open spec fn align_decls(p: CT_PPr) -> Seq<Seq<char>> {
    match p.jc {
        Some(j) => seq!["text-align:"@ + align_name(j)],
        None => Seq::empty(),
    }
}

/// A background-color declaration for a shown fill.
pub open spec fn fill_decls(shd: Option<CT_Shd>) -> Seq<Seq<char>> {
    match shown_fill(shd) {
        Some(f) => seq!["background-color:#"@ + f],
        None => Seq::empty(),
    }
}

/// The CSS declarations of paragraph properties, in order.
pub open spec fn ppr_decls(p: CT_PPr) -> Seq<Seq<char>> {
    align_decls(p) + pt_decls("margin-top:"@, p.space_before, true) + pt_decls("margin-bottom:"@,
        p.space_after, false) + pt_decls("margin-left:"@, p.ind_left, true) + pt_decls(
        "margin-right:"@,
        p.ind_right,
        true,
    ) + pt_decls("text-indent:"@, p.ind_first_line, true) + fill_decls(p.shading)
        + line_height_decls(p)
}

/// The inline style of a paragraph.
pub open spec fn paragraph_css(ppr: Option<CT_PPr>) -> Seq<char> {
    match ppr {
        Some(p) => join_decls(ppr_decls(p)),
        None => Seq::empty(),
    }
}

/// Appends one declaration, after a `;` unless it is the first.
fn add_decl(out: &mut String, decl: &String)
    ensures
        final(out)@ == if old(out)@.len() == 0 { decl@ } else { old(out)@ + seq![';'] + decl@ },
{
    let n = crate::chars::str_chars(out.as_str()).len();
    if n > 0 {
        push_char(out, ';');
    }
    push_str(out, decl.as_str());
    proof {
        if old(out)@.len() > 0 {
            assert(final(out)@ =~= old(out)@ + seq![';'] + decl@);
        } else {
            assert(final(out)@ =~= decl@);
        }
    }
}

/// Appending a declaration to the joined list joins the longer list.
proof fn lemma_join_push(ds: Seq<Seq<char>>, d: Seq<char>)
    ensures
        join_decls(ds.push(d)) == if join_decls(ds).len() == 0 { d } else { join_decls(ds) + seq![
            ';',
        ] + d },
{
    assert(ds.push(d).drop_last() =~= ds);
}

/// A declaration `name` + points + `pt`.
fn pt_decl(name: &str, t: i32) -> (r: String)
    ensures
        r@ == name@ + twips_pt(t as int) + "pt"@,
{
    let mut s = to_owned_string(name);
    push_twips_pt(&mut s, t);
    push_str(&mut s, "pt");
    s
}

/// The fill shown as a background, if any.
pub fn shown_fill_exec(shd: &Option<CT_Shd>) -> (r: Option<&str>)
    ensures
        r matches Some(f) ==> shown_fill(*shd) == Some(f@),
        r is None ==> shown_fill(*shd) is None,
{
    match shd {
        Some(s) => match &s.fill {
            Some(f) => {
                if !str_eq(f.as_str(), "auto") && !str_eq(f.as_str(), "FFFFFF") {
                    Some(f.as_str())
                } else {
                    None
                }
            },
            None => None,
        },
        None => None,
    }
}

/// Appends `decl` when `c` holds.
fn add_decl_if(out: &mut String, c: bool, decl: &String, Ghost(ds): Ghost<Seq<Seq<char>>>)
    requires
        old(out)@ == join_decls(ds),
    ensures
        final(out)@ == join_decls(ds + when(c, decl@)),
{
    if c {
        proof { lemma_join_push(ds, decl@); assert(ds + when(c, decl@) =~= ds.push(decl@)); }
        add_decl(out, decl);
    } else {
        proof { assert(ds + when(c, decl@) =~= ds); }
    }
}

/// Appends the length declaration of `v`.
fn add_pt_decl(
    out: &mut String,
    name: &str,
    v: Option<crate::units::Twips>,
    positive_only: bool,
    Ghost(ds): Ghost<Seq<Seq<char>>>,
)
    requires
        old(out)@ == join_decls(ds),
    ensures
        final(out)@ == join_decls(ds + pt_decls(name@, v, positive_only)),
{
    match v {
        Some(t) => {
            let d = pt_decl(name, t.0);
            add_decl_if(out, !positive_only || t.0 > 0, &d, Ghost(ds));
        },
        None => {
            proof { assert(ds + pt_decls(name@, v, positive_only) =~= ds); }
        },
    }
}

/// Appends the text-align declaration.
fn add_align_decl(out: &mut String, p: &CT_PPr, Ghost(ds): Ghost<Seq<Seq<char>>>)
    requires
        old(out)@ == join_decls(ds),
    ensures
        final(out)@ == join_decls(ds + align_decls(*p)),
{
    match p.jc {
        Some(j) => {
            let name = match j {
                ST_Jc::Left | ST_Jc::Start => "left",
                ST_Jc::Center => "center",
                ST_Jc::Right | ST_Jc::End => "right",
                ST_Jc::Both | ST_Jc::Distribute => "justify",
            };
            let mut d = to_owned_string("text-align:");
            push_str(&mut d, name);
            add_decl_if(out, true, &d, Ghost(ds));
            proof { assert(when(true, d@) =~= align_decls(*p)); }
        },
        None => {
            proof { assert(ds + align_decls(*p) =~= ds); }
        },
    }
}

/// Appends the background-color declaration of a shading.
fn add_fill_decl(out: &mut String, shd: &Option<CT_Shd>, Ghost(ds): Ghost<Seq<Seq<char>>>)
    requires
        old(out)@ == join_decls(ds),
    ensures
        final(out)@ == join_decls(ds + fill_decls(*shd)),
{
    match shown_fill_exec(shd) {
        Some(f) => {
            let mut d = to_owned_string("background-color:#");
            push_str(&mut d, f);
            add_decl_if(out, true, &d, Ghost(ds));
            proof { assert(when(true, d@) =~= fill_decls(*shd)); }
        },
        None => {
            proof { assert(ds + fill_decls(*shd) =~= ds); }
        },
    }
}

/// Appends the line-height declaration.
fn add_line_height_decl(out: &mut String, p: &CT_PPr, Ghost(ds): Ghost<Seq<Seq<char>>>)
    requires
        old(out)@ == join_decls(ds),
    ensures
        final(out)@ == join_decls(ds + line_height_decls(*p)),
{
    match p.line_spacing {
        Some(ls) => {
            let rule: &str = match &p.line_rule {
                Some(r) => r.as_str(),
                None => "auto",
            };
            proof { reveal_strlit("auto"); }
            if str_eq(rule, "auto") {
                let differs = ls.0 as i64 - 240 > 2 || 240 - ls.0 as i64 > 2;
                let q = round_div_exec(ls.0 as i64 * 5, 12);
                proof {
                    assert(-1000000000 <= q <= 1000000000) by (nonlinear_arith)
                        requires q == round_div(ls.0 * 5, 12), -2147483648 <= ls.0 <= 2147483647;
                }
                let mut d = to_owned_string("line-height:");
                push_hundredths(&mut d, q);
                add_decl_if(out, differs, &d, Ghost(ds));
            } else if str_eq(rule, "exact") || str_eq(rule, "atLeast") {
                let d = pt_decl("line-height:", ls.0);
                add_decl_if(out, true, &d, Ghost(ds));
            } else {
                proof { assert(ds + line_height_decls(*p) =~= ds); }
            }
        },
        None => {
            proof { assert(ds + line_height_decls(*p) =~= ds); }
        },
    }
}

/// Generate inline CSS style string from paragraph properties.
pub fn paragraph_style(ppr: Option<&CT_PPr>) -> (r: String)
    ensures
        r@ == paragraph_css(match ppr {
            Some(p) => Some(*p),
            None => None,
        }),
{
    let p = match ppr {
        Some(p) => p,
        None => {
            return String::new();
        },
    };
    let mut out = String::new();
    let ghost ds0: Seq<Seq<char>> = Seq::empty();
    add_align_decl(&mut out, p, Ghost(ds0));
    let ghost ds1 = ds0 + align_decls(*p);
    add_pt_decl(&mut out, "margin-top:", p.space_before, true, Ghost(ds1));
    let ghost ds2 = ds1 + pt_decls("margin-top:"@, p.space_before, true);
    add_pt_decl(&mut out, "margin-bottom:", p.space_after, false, Ghost(ds2));
    let ghost ds3 = ds2 + pt_decls("margin-bottom:"@, p.space_after, false);
    add_pt_decl(&mut out, "margin-left:", p.ind_left, true, Ghost(ds3));
    let ghost ds4 = ds3 + pt_decls("margin-left:"@, p.ind_left, true);
    add_pt_decl(&mut out, "margin-right:", p.ind_right, true, Ghost(ds4));
    let ghost ds5 = ds4 + pt_decls("margin-right:"@, p.ind_right, true);
    add_pt_decl(&mut out, "text-indent:", p.ind_first_line, true, Ghost(ds5));
    let ghost ds6 = ds5 + pt_decls("text-indent:"@, p.ind_first_line, true);
    add_fill_decl(&mut out, &p.shading, Ghost(ds6));
    let ghost ds7 = ds6 + fill_decls(p.shading);
    add_line_height_decl(&mut out, p, Ghost(ds7));
    proof {
        assert(ds7 + line_height_decls(*p) =~= ppr_decls(*p));
    }
    out
}

/// The font-family declaration of a run.
pub open spec fn font_decls(r: CT_RPr) -> Seq<Seq<char>> {
    match r.font_ascii {
        Some(f) => seq!["font-family:'"@ + f@ + "'"@],
        None => Seq::empty(),
    }
}

/// The font-size declaration of a run.
pub open spec fn size_decls(r: CT_RPr) -> Seq<Seq<char>> {
    match r.sz {
        Some(h) => seq!["font-size:"@ + half_points_pt(h.0 as nat) + "pt"@],
        None => Seq::empty(),
    }
}

/// The color declaration of a run whose colour is neither `auto` nor black.
pub open spec fn color_decls(r: CT_RPr) -> Seq<Seq<char>> {
    match r.color {
        Some(c) => when(c@ != "auto"@ && c@ != "000000"@, "color:#"@ + c@),
        None => Seq::empty(),
    }
}

/// The letter-spacing declaration of a run with non-zero spacing.
pub open spec fn spacing_decls(r: CT_RPr) -> Seq<Seq<char>> {
    match r.spacing {
        Some(t) => when(t.0 != 0, "letter-spacing:"@ + twips_pt(t.0 as int) + "pt"@),
        None => Seq::empty(),
    }
}

/// The CSS declarations of run properties, in order.
pub open spec fn rpr_decls(r: CT_RPr) -> Seq<Seq<char>> {
    font_decls(r) + size_decls(r) + color_decls(r) + fill_decls(r.shading) + spacing_decls(r)
        + when(r.small_caps == Some(true), "font-variant:small-caps"@) + when(
        r.caps == Some(true),
        "text-transform:uppercase"@,
    )
}

/// The inline style of a run.
pub open spec fn run_css(rpr: Option<CT_RPr>) -> Seq<char> {
    match rpr {
        Some(r) => join_decls(rpr_decls(r)),
        None => Seq::empty(),
    }
}

/// Generate inline CSS style string from run properties.
pub fn run_style(rpr: Option<&CT_RPr>) -> (r: String)
    ensures
        r@ == run_css(match rpr {
            Some(p) => Some(*p),
            None => None,
        }),
{
    let p = match rpr {
        Some(p) => p,
        None => {
            return String::new();
        },
    };
    let mut out = String::new();
    let ghost ds0: Seq<Seq<char>> = Seq::empty();
    let ghost sec1 = font_decls(*p);
    match &p.font_ascii {
        Some(f) => {
            let mut d = to_owned_string("font-family:'");
            push_str(&mut d, f.as_str());
            push_str(&mut d, "'");
            add_decl_if(&mut out, true, &d, Ghost(ds0));
            proof { assert(when(true, d@) =~= sec1); }
        },
        None => {
            proof { assert(ds0 + sec1 =~= ds0); }
        },
    }
    let ghost ds1 = ds0 + sec1;
    let ghost sec2 = size_decls(*p);
    match p.sz {
        Some(h) => {
            let mut d = to_owned_string("font-size:");
            push_decimal(&mut d, (h.0 / 2) as u64);
            if h.0 % 2 == 1 {
                push_str(&mut d, ".5");
            }
            push_str(&mut d, "pt");
            proof {
                reveal_strlit(".5");
                assert(d@ =~= "font-size:"@ + half_points_pt(h.0 as nat) + "pt"@);
            }
            add_decl_if(&mut out, true, &d, Ghost(ds1));
            proof { assert(when(true, d@) =~= sec2); }
        },
        None => {
            proof { assert(ds1 + sec2 =~= ds1); }
        },
    }
    let ghost ds2 = ds1 + sec2;
    let ghost sec3 = color_decls(*p);
    match &p.color {
        Some(c) => {
            let mut d = to_owned_string("color:#");
            push_str(&mut d, c.as_str());
            let shown = !str_eq(c.as_str(), "auto") && !str_eq(c.as_str(), "000000");
            add_decl_if(&mut out, shown, &d, Ghost(ds2));
        },
        None => {
            proof { assert(ds2 + sec3 =~= ds2); }
        },
    }
    let ghost ds3 = ds2 + sec3;
    add_fill_decl(&mut out, &p.shading, Ghost(ds3));
    let ghost ds4 = ds3 + fill_decls(p.shading);
    let ghost sec5 = spacing_decls(*p);
    match p.spacing {
        Some(t) => {
            let d = pt_decl("letter-spacing:", t.0);
            add_decl_if(&mut out, t.0 != 0, &d, Ghost(ds4));
        },
        None => {
            proof { assert(ds4 + sec5 =~= ds4); }
        },
    }
    let ghost ds5 = ds4 + sec5;
    let sc = to_owned_string("font-variant:small-caps");
    let small = match p.small_caps {
        Some(b) => b,
        None => false,
    };
    add_decl_if(&mut out, small, &sc, Ghost(ds5));
    let ghost ds6 = ds5 + when(p.small_caps == Some(true), "font-variant:small-caps"@);
    let up = to_owned_string("text-transform:uppercase");
    let caps = match p.caps {
        Some(b) => b,
        None => false,
    };
    add_decl_if(&mut out, caps, &up, Ghost(ds6));
    proof {
        assert(ds6 + when(p.caps == Some(true), "text-transform:uppercase"@) =~= rpr_decls(*p));
    }
    out
}

/// Which semantic HTML tags wrap a run's content.
pub struct RunTags {
    pub bold: bool,
    pub italic: bool,
    pub underline: bool,
    pub strike: bool,
    pub superscript: bool,
    pub subscript: bool,
}

/// Whether an optional string is the given text.
pub open spec fn opt_text_is(s: Option<String>, t: Seq<char>) -> bool {
    s matches Some(x) && x@ == t
}

/// The tags of a run: bold, italic, underline (any style), strike (single
/// or double), superscript and subscript (by vertical alignment).
pub open spec fn tags_of(rpr: Option<CT_RPr>) -> RunTags {
    match rpr {
        None => RunTags {
            bold: false,
            italic: false,
            underline: false,
            strike: false,
            superscript: false,
            subscript: false,
        },
        Some(p) => RunTags {
            bold: p.bold == Some(true),
            italic: p.italic == Some(true),
            underline: p.underline is Some,
            strike: p.strike == Some(true) || p.dstrike == Some(true),
            superscript: opt_text_is(p.vert_align, "superscript"@),
            subscript: opt_text_is(p.vert_align, "subscript"@),
        },
    }
}

/// Determine which semantic HTML tags to wrap around run content.
pub fn run_tags(rpr: Option<&CT_RPr>) -> (r: RunTags)
    ensures
        r == tags_of(match rpr {
            Some(p) => Some(*p),
            None => None,
        }),
{
    match rpr {
        None => RunTags {
            bold: false,
            italic: false,
            underline: false,
            strike: false,
            superscript: false,
            subscript: false,
        },
        Some(p) => {
            let (sup, sub) = match &p.vert_align {
                Some(v) => (str_eq(v.as_str(), "superscript"), str_eq(v.as_str(), "subscript")),
                None => (false, false),
            };
            RunTags {
                bold: p.bold == Some(true),
                italic: p.italic == Some(true),
                underline: p.underline.is_some(),
                strike: p.strike == Some(true) || p.dstrike == Some(true),
                superscript: sup,
                subscript: sub,
            }
        },
    }
}


/// The tags of a run follow its properties: bold, italic, underline and
/// strike as set; a run raised to superscript is wrapped as superscript
/// and not as subscript, one lowered to subscript the other way round, and
/// one with no vertical alignment as neither.
pub proof fn lemma_run_tags_follow(p: CT_RPr)
    ensures
        tags_of(Some(p)).bold == (p.bold == Some(true)),
        tags_of(Some(p)).italic == (p.italic == Some(true)),
        tags_of(Some(p)).underline == (p.underline is Some),
        (p.vert_align matches Some(v) && v@ == "superscript"@) ==> tags_of(Some(p)).superscript
            && !tags_of(Some(p)).subscript,
        (p.vert_align matches Some(v) && v@ == "subscript"@) ==> tags_of(Some(p)).subscript
            && !tags_of(Some(p)).superscript,
        p.vert_align is None ==> !tags_of(Some(p)).superscript && !tags_of(Some(p)).subscript,
        !tags_of(None).superscript && !tags_of(None).subscript && !tags_of(None).bold,
{
    reveal_strlit("superscript");
    reveal_strlit("subscript");
    assert("superscript"@.len() == 11);
    assert("subscript"@.len() == 9);
    assert("superscript"@ != "subscript"@);
}

} // verus!
