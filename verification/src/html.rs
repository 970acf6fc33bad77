//! HTML generation from the document model.

use vstd::prelude::*;

use crate::chars::{push_char, push_str, str_chars, str_eq, to_owned_string};
use crate::html_css::{run_css, run_style, run_tags, tags_of, RunTags};
use crate::opc::{first_match, lemma_first_match, lemma_first_match_at, lemma_first_match_none};
use crate::table::{CellContent, CT_Tbl, CT_Tc, ST_VerticalJc, VMerge};
use crate::text::{BreakType, CT_R, RunContent};

verus! {

/// Options for HTML conversion.
#[derive(Debug, Clone)]
pub struct HtmlOptions {
    /// Whether to inline images as base64 data URIs (default: true).
    pub inline_images: bool,
}

impl Default for HtmlOptions {
    /// Images inlined.
    fn default() -> (r: Self)
        ensures
            r.inline_images,
    {
        HtmlOptions { inline_images: true }
    }
}

/// Image data for HTML embedding.
pub struct ImageData {
    pub data: Vec<u8>,
    pub content_type: String,
}

/// The HTML text of one character: `&`, `<`, `>` and `"` as entities.
pub open spec fn escape_char(c: char) -> Seq<char> {
    if c == '&' {
        "&amp;"@
    } else if c == '<' {
        "&lt;"@
    } else if c == '>' {
        "&gt;"@
    } else if c == '"' {
        "&quot;"@
    } else {
        seq![c]
    }
}

/// `s` with HTML special characters escaped.
pub open spec fn escape_text(s: Seq<char>) -> Seq<char>
    decreases s.len(),
{
    if s.len() == 0 {
        Seq::empty()
    } else {
        escape_text(s.drop_last()) + escape_char(s.last())
    }
}

/// HTML-escaped text holds no `<`, `>` or quote of its own: markup cannot
/// be injected through document text.
pub proof fn lemma_escape_text_safe(s: Seq<char>)
    ensures
        forall|i: int| 0 <= i < escape_text(s).len() ==> {
            let c = #[trigger] escape_text(s)[i];
            c != '<' && c != '>' && c != '"'
        },
    decreases s.len(),
{
    if s.len() > 0 {
        lemma_escape_text_safe(s.drop_last());
        reveal_strlit("&amp;");
        reveal_strlit("&lt;");
        reveal_strlit("&gt;");
        reveal_strlit("&quot;");
        let a = escape_text(s.drop_last());
        let b = escape_char(s.last());
        assert forall|i: int| 0 <= i < (a + b).len() implies {
            let c = #[trigger] (a + b)[i];
            c != '<' && c != '>' && c != '"'
        } by {
            if i >= a.len() {
                assert((a + b)[i] == b[i - a.len()]);
            } else {
                assert((a + b)[i] == a[i]);
            }
        }
    }
}

/// Base64 writes four characters for every three bytes or part of them.
pub proof fn lemma_base64_len(data: Seq<u8>)
    ensures
        base64(data).len() == 4 * ((data.len() + 2) / 3),
    decreases data.len(),
{
    if data.len() > 3 {
        lemma_base64_len(data.skip(3));
        assert(data.skip(3).len() == data.len() - 3);
    }
}

/// Appends `text` with HTML special characters escaped.
pub fn push_escaped(out: &mut String, text: &str)
    ensures
        final(out)@ == old(out)@ + escape_text(text@),
{
    let cs = str_chars(text);
    let mut i: usize = 0;
    while i < cs.len()
        invariant
            i <= cs@.len(),
            cs@ == text@,
            out@ == old(out)@ + escape_text(cs@.take(i as int)),
        decreases cs@.len() - i,
    {
        proof { assert(cs@.take(i + 1).drop_last() =~= cs@.take(i as int)); }
        let c = cs[i];
        if c == '&' {
            push_str(out, "&amp;");
        } else if c == '<' {
            push_str(out, "&lt;");
        } else if c == '>' {
            push_str(out, "&gt;");
        } else if c == '"' {
            push_str(out, "&quot;");
        } else {
            push_char(out, c);
        }
        i = i + 1;
        proof { assert(out@ =~= old(out)@ + escape_text(cs@.take(i as int))); }
    }
    proof { assert(cs@.take(i as int) =~= cs@); }
}

/// Escape HTML special characters.
pub fn escape_html(text: &str) -> (r: String)
    ensures
        r@ == escape_text(text@),
{
    let mut out = String::new();
    push_escaped(&mut out, text);
    proof { assert(out@ =~= escape_text(text@)); }
    out
}

/// Escape an HTML attribute value.
pub fn escape_html_attr(text: &str) -> (r: String)
    ensures
        r@ == escape_text(text@),
{
    escape_html(text)
}

/// The base64 alphabet character for `k` (0..64).
pub open spec fn b64_char(k: int) -> char {
    if k < 26 {
        (('A' as u32) + k) as char
    } else if k < 52 {
        (('a' as u32) + (k - 26)) as char
    } else if k < 62 {
        (('0' as u32) + (k - 52)) as char
    } else if k == 62 {
        '+'
    } else {
        '/'
    }
}

/// The four characters encoding a chunk of one to three bytes.
pub open spec fn b64_chunk(c: Seq<u8>) -> Seq<char> {
    let b0 = c[0] as int;
    let b1 = if c.len() > 1 { c[1] as int } else { 0 };
    let b2 = if c.len() > 2 { c[2] as int } else { 0 };
    let n = b0 * 65536 + b1 * 256 + b2;
    seq![
        b64_char((n / 262144) % 64),
        b64_char((n / 4096) % 64),
        if c.len() > 1 { b64_char((n / 64) % 64) } else { '=' },
        if c.len() > 2 { b64_char(n % 64) } else { '=' },
    ]
}

/// Standard base64 (with `=` padding) of `data`.
pub open spec fn base64(data: Seq<u8>) -> Seq<char>
    decreases data.len(),
{
    if data.len() == 0 {
        Seq::empty()
    } else if data.len() <= 3 {
        b64_chunk(data)
    } else {
        b64_chunk(data.take(3)) + base64(data.skip(3))
    }
}

/// The alphabet character for `k`.
fn b64_char_exec(k: u32) -> (c: char)
    requires
        k < 64,
    ensures
        c == b64_char(k as int),
{
    if k < 26 {
        char_from_u32_ascii(65 + k)
    } else if k < 52 {
        char_from_u32_ascii(97 + (k - 26))
    } else if k < 62 {
        char_from_u32_ascii(48 + (k - 52))
    } else if k == 62 {
        '+'
    } else {
        '/'
    }
}

/// The ASCII character with code `k`.
fn char_from_u32_ascii(k: u32) -> (c: char)
    requires
        k < 128,
    ensures
        c == k as char,
{
    (k as u8) as char
}

/// Simple base64 encoding.
pub fn base64_encode(data: &[u8]) -> (r: String)
    ensures
        r@ == base64(data@),
{
    let mut out = String::new();
    let mut i: usize = 0;
    proof { assert(data@.skip(0) =~= data@); assert(out@ + base64(data@) =~= base64(data@)); }
    while i < data.len()
        invariant
            i <= data@.len(),
            out@ + base64(data@.skip(i as int)) == base64(data@),
        decreases data@.len() - i,
    {
        let rest = data.len() - i;
        let b0 = data[i] as u32;
        let b1 = if rest > 1 { data[i + 1] as u32 } else { 0 };
        let b2 = if rest > 2 { data[i + 2] as u32 } else { 0 };
        let n = b0 * 65536 + b1 * 256 + b2;
        let ghost chunk = if rest <= 3 { data@.skip(i as int) } else { data@.skip(i as int).take(3) };
        proof {
            assert(chunk[0] == data@[i as int]);
            if rest > 1 { assert(chunk[1] == data@[i + 1]); }
            if rest > 2 { assert(chunk[2] == data@[i + 2]); }
        }
        let ghost before = out@;
        push_char(&mut out, b64_char_exec((n / 262144) % 64));
        push_char(&mut out, b64_char_exec((n / 4096) % 64));
        if rest > 1 {
            push_char(&mut out, b64_char_exec((n / 64) % 64));
        } else {
            push_char(&mut out, '=');
        }
        if rest > 2 {
            push_char(&mut out, b64_char_exec(n % 64));
        } else {
            push_char(&mut out, '=');
        }
        proof {
            assert(out@ =~= before + b64_chunk(chunk));
            if rest > 3 {
                assert(data@.skip(i as int).skip(3) =~= data@.skip(i + 3));
            } else {
                assert(data@.skip(i as int + rest) =~= Seq::<u8>::empty());
            }
        }
        if rest > 3 {
            i = i + 3;
        } else {
            i = data.len();
        }
    }
    proof { assert(data@.skip(i as int) =~= Seq::<u8>::empty()); assert(out@ =~= base64(data@)); }
    out
}

/// The predicate "keyed `k`".
pub open spec fn keyed<V>(k: Seq<char>) -> spec_fn((String, V)) -> bool {
    |e: (String, V)| e.0@ == k
}

/// The first entry of an association list with key `k`.
pub open spec fn lookup<V>(m: Seq<(String, V)>, k: Seq<char>) -> Option<V> {
    match first_match(m, keyed::<V>(k)) {
        Some(i) => Some(m[i].1),
        None => None,
    }
}

/// The value of the first entry with the given key.
pub fn lookup_exec<'a, V>(m: &'a Vec<(String, V)>, k: &str) -> (r: Option<&'a V>)
    ensures
        r matches Some(v) ==> lookup(m@, k@) == Some(*v),
        r is None ==> lookup(m@, k@) is None,
{
    let mut i: usize = 0;
    while i < m.len()
        invariant
            i <= m@.len(),
            forall|j: int| 0 <= j < i ==> !keyed::<V>(k@)(#[trigger] m@[j]),
        decreases m@.len() - i,
    {
        if str_eq(m[i].0.as_str(), k) {
            proof { lemma_first_match_at(m@, keyed::<V>(k@), i as int); }
            return Some(&m[i].1);
        }
        i = i + 1;
    }
    proof { lemma_first_match_none(m@, keyed::<V>(k@)); }
    None
}

/// The HTML of an inline image: a base64 data URI.
pub open spec fn image_html(img: ImageData) -> Seq<char> {
    "<img src=\"data:"@ + img.content_type@ + ";base64,"@ + base64(img.data@)
        + "\" style=\"max-width:100%\">"@
}

/// Emit an inline image as a base64 data URI.
fn emit_image(out: &mut String, img: &ImageData)
    ensures
        final(out)@ == old(out)@ + image_html(*img),
{
    let b64 = base64_encode(img.data.as_slice());
    push_str(out, "<img src=\"data:");
    push_str(out, img.content_type.as_str());
    push_str(out, ";base64,");
    push_str(out, b64.as_str());
    push_str(out, "\" style=\"max-width:100%\">");
    proof { assert(final(out)@ =~= old(out)@ + image_html(*img)); }
}

/// The image a drawing refers to: the inline picture's, else the anchored one's.
pub open spec fn drawing_embed(d: crate::drawing::CT_Drawing) -> Option<Seq<char>> {
    match d.inline {
        Some(i) => Some(i.embed_id@),
        None => match d.anchor {
            Some(a) => Some(a.embed_id@),
            None => None,
        },
    }
}

/// The HTML of one run content item.
pub open spec fn item_html(c: RunContent, images: Seq<(String, ImageData)>, opts: HtmlOptions) -> Seq<
    char,
> {
    match c {
        RunContent::Text(t) => escape_text(t.text@),
        RunContent::Tab => "&emsp;"@,
        RunContent::Break(b) => match b {
            BreakType::Line => "<br>"@,
            BreakType::Page => "<hr class=\"page-break\">"@,
            BreakType::Column => "<hr class=\"column-break\">"@,
        },
        RunContent::Drawing(d) => match drawing_embed(d) {
            Some(e) => if opts.inline_images {
                match lookup(images, e) {
                    Some(img) => image_html(img),
                    None => Seq::empty(),
                }
            } else {
                "<img data-media=\""@ + escape_text(e) + "\" alt=\"\" style=\"max-width:100%\">"@
            },
            None => Seq::empty(),
        },
        _ => Seq::empty(),
    }
}

/// The HTML of a run's content items, in order.
pub open spec fn items_html(items: Seq<RunContent>, images: Seq<(String, ImageData)>, opts: HtmlOptions) -> Seq<char>
    decreases items.len(),
{
    if items.len() == 0 {
        Seq::empty()
    } else {
        items_html(items.drop_last(), images, opts) + item_html(items.last(), images, opts)
    }
}

/// `s` when `c` holds, else nothing.
pub open spec fn opt_text(c: bool, s: Seq<char>) -> Seq<char> {
    if c { s } else { Seq::empty() }
}

/// The opening tags of a run: a styled span, then strong, em, u, s, sup, sub.
pub open spec fn run_open(t: RunTags, style: Seq<char>) -> Seq<char> {
    opt_text(style.len() > 0, "<span style=\""@ + style + "\">"@) + opt_text(t.bold, "<strong>"@)
        + opt_text(t.italic, "<em>"@) + opt_text(t.underline, "<u>"@) + opt_text(t.strike, "<s>"@)
        + opt_text(t.superscript, "<sup>"@) + opt_text(t.subscript, "<sub>"@)
}

/// The closing tags of a run, in reverse order.
pub open spec fn run_close(t: RunTags, style: Seq<char>) -> Seq<char> {
    opt_text(t.subscript, "</sub>"@) + opt_text(t.superscript, "</sup>"@) + opt_text(t.strike,
        "</s>"@) + opt_text(t.underline, "</u>"@) + opt_text(t.italic, "</em>"@) + opt_text(t.bold,
        "</strong>"@) + opt_text(style.len() > 0, "</span>"@)
}

/// The HTML of a run: its content wrapped in its formatting tags.
pub open spec fn run_html(run: CT_R, images: Seq<(String, ImageData)>, opts: HtmlOptions) -> Seq<char> {
    let t = tags_of(run.properties);
    let style = run_css(run.properties);
    run_open(t, style) + items_html(run.content@, images, opts) + run_close(t, style)
}

/// Appends `s` when `c` holds.
fn push_if(out: &mut String, c: bool, s: &str)
    ensures
        final(out)@ == old(out)@ + opt_text(c, s@),
{
    if c {
        push_str(out, s);
    } else {
        proof { assert(old(out)@ + Seq::<char>::empty() =~= old(out)@); }
    }
}

/// Appends the HTML of one content item.
fn emit_item(out: &mut String, c: &RunContent, images: &Vec<(String, ImageData)>, options: &HtmlOptions)
    ensures
        final(out)@ == old(out)@ + item_html(*c, images@, *options),
{
    match c {
        RunContent::Text(t) => push_escaped(out, t.text.as_str()),
        RunContent::Tab => push_str(out, "&emsp;"),
        RunContent::Break(b) => match b {
            BreakType::Line => push_str(out, "<br>"),
            BreakType::Page => push_str(out, "<hr class=\"page-break\">"),
            BreakType::Column => push_str(out, "<hr class=\"column-break\">"),
        },
        RunContent::Drawing(d) => {
            let embed: Option<&str> = match &d.inline {
                Some(i) => Some(i.embed_id.as_str()),
                None => match &d.anchor {
                    Some(a) => Some(a.embed_id.as_str()),
                    None => None,
                },
            };
            match embed {
                Some(e) => {
                    if options.inline_images {
                        match lookup_exec(images, e) {
                            Some(img) => emit_image(out, img),
                            None => {
                                proof { assert(old(out)@ + Seq::<char>::empty() =~= old(out)@); }
                            },
                        }
                    } else {
                        push_str(out, "<img data-media=\"");
                        push_escaped(out, e);
                        push_str(out, "\" alt=\"\" style=\"max-width:100%\">");
                        proof {
                            assert(final(out)@ =~= old(out)@ + item_html(*c, images@, *options));
                        }
                    }
                },
                None => {
                    proof { assert(old(out)@ + Seq::<char>::empty() =~= old(out)@); }
                },
            }
        },
        _ => {
            proof { assert(old(out)@ + Seq::<char>::empty() =~= old(out)@); }
        },
    }
}

/// Appends `s` when `c` holds, to text that is `o + p`.
fn push_if_after(out: &mut String, c: bool, s: &str, Ghost(o): Ghost<Seq<char>>, Ghost(p): Ghost<
    Seq<char>,
>)
    requires
        old(out)@ == o + p,
    ensures
        final(out)@ == o + (p + opt_text(c, s@)),
{
    push_if(out, c, s);
    proof { vstd::seq_lib::lemma_concat_associative(o, p, opt_text(c, s@)); }
}

/// Appends the opening tags of a run.
fn push_run_open(out: &mut String, tags: &RunTags, style: &String)
    ensures
        final(out)@ == old(out)@ + run_open(*tags, style@),
{
    let has_style = str_chars(style.as_str()).len() > 0;
    let ghost o = old(out)@;
    let ghost sp = opt_text(style@.len() > 0, "<span style=\""@ + style@ + "\">"@);
    if has_style {
        push_str(out, "<span style=\"");
        push_str(out, style.as_str());
        push_str(out, "\">");
    }
    proof { assert(out@ =~= o + sp); }
    push_if_after(out, tags.bold, "<strong>", Ghost(o), Ghost(sp));
    let ghost p1 = sp + opt_text(tags.bold, "<strong>"@);
    push_if_after(out, tags.italic, "<em>", Ghost(o), Ghost(p1));
    let ghost p2 = p1 + opt_text(tags.italic, "<em>"@);
    push_if_after(out, tags.underline, "<u>", Ghost(o), Ghost(p2));
    let ghost p3 = p2 + opt_text(tags.underline, "<u>"@);
    push_if_after(out, tags.strike, "<s>", Ghost(o), Ghost(p3));
    let ghost p4 = p3 + opt_text(tags.strike, "<s>"@);
    push_if_after(out, tags.superscript, "<sup>", Ghost(o), Ghost(p4));
    let ghost p5 = p4 + opt_text(tags.superscript, "<sup>"@);
    push_if_after(out, tags.subscript, "<sub>", Ghost(o), Ghost(p5));
}

/// Appends the closing tags of a run.
fn push_run_close(out: &mut String, tags: &RunTags, style: &String)
    ensures
        final(out)@ == old(out)@ + run_close(*tags, style@),
{
    let has_style = str_chars(style.as_str()).len() > 0;
    let ghost o = old(out)@;
    let ghost e = Seq::<char>::empty();
    proof { assert(o + e =~= o); }
    push_if_after(out, tags.subscript, "</sub>", Ghost(o), Ghost(e));
    let ghost p1 = e + opt_text(tags.subscript, "</sub>"@);
    push_if_after(out, tags.superscript, "</sup>", Ghost(o), Ghost(p1));
    let ghost p2 = p1 + opt_text(tags.superscript, "</sup>"@);
    push_if_after(out, tags.strike, "</s>", Ghost(o), Ghost(p2));
    let ghost p3 = p2 + opt_text(tags.strike, "</s>"@);
    push_if_after(out, tags.underline, "</u>", Ghost(o), Ghost(p3));
    let ghost p4 = p3 + opt_text(tags.underline, "</u>"@);
    push_if_after(out, tags.italic, "</em>", Ghost(o), Ghost(p4));
    let ghost p5 = p4 + opt_text(tags.italic, "</em>"@);
    push_if_after(out, tags.bold, "</strong>", Ghost(o), Ghost(p5));
    let ghost p6 = p5 + opt_text(tags.bold, "</strong>"@);
    push_if_after(out, has_style, "</span>", Ghost(o), Ghost(p6));
    proof { assert(e + opt_text(tags.subscript, "</sub>"@) =~= opt_text(tags.subscript, "</sub>"@)); }
}

/// Appends the HTML of a run's content items.
fn push_items(out: &mut String, items: &Vec<RunContent>, images: &Vec<(String, ImageData)>, options: &HtmlOptions)
    ensures
        final(out)@ == old(out)@ + items_html(items@, images@, *options),
{
    let ghost mid = out@;
    let mut i: usize = 0;
    proof { assert(items@.take(0) =~= Seq::<RunContent>::empty()); assert(mid + Seq::<char>::empty() =~= mid); }
    while i < items.len()
        invariant
            i <= items@.len(),
            out@ == mid + items_html(items@.take(i as int), images@, *options),
        decreases items@.len() - i,
    {
        proof { assert(items@.take(i + 1).drop_last() =~= items@.take(i as int)); }
        emit_item(out, &items[i], images, options);
        i = i + 1;
        proof { assert(out@ =~= mid + items_html(items@.take(i as int), images@, *options)); }
    }
    proof { assert(items@.take(i as int) =~= items@); }
}

/// Emit a single run.
fn emit_run(out: &mut String, run: &CT_R, images: &Vec<(String, ImageData)>, options: &HtmlOptions)
    ensures
        final(out)@ == old(out)@ + run_html(*run, images@, *options),
{
    let tags = run_tags(run.properties.as_ref());
    let style = run_style(run.properties.as_ref());
    push_run_open(out, &tags, &style);
    push_items(out, &run.content, images, options);
    push_run_close(out, &tags, &style);
    proof { assert(final(out)@ =~= old(out)@ + run_html(*run, images@, *options)); }
}

/// The first position of `c` in `s`.
pub open spec fn index_of_char(s: Seq<char>, c: char) -> Option<int>
    decreases s.len(),
{
    if s.len() == 0 {
        None
    } else if s[0] == c {
        Some(0)
    } else {
        match index_of_char(s.drop_first(), c) {
            Some(i) => Some(i + 1),
            None => None,
        }
    }
}

/// `index_of_char` finds the first position holding `c`.
pub proof fn lemma_index_of_char(s: Seq<char>, c: char)
    ensures
        index_of_char(s, c) matches Some(i) ==> 0 <= i < s.len() && s[i] == c && forall|j: int|
            0 <= j < i ==> s[j] != c,
        index_of_char(s, c) is None ==> forall|j: int| 0 <= j < s.len() ==> s[j] != c,
    decreases s.len(),
{
    if s.len() > 0 {
        lemma_index_of_char(s.drop_first(), c);
        assert forall|j: int| 1 <= j < s.len() implies s[j] == s.drop_first()[j - 1] by {}
    }
}

/// A character that ends an element name inside a tag: `>` or white
/// space.
pub open spec fn is_name_end(c: char) -> bool {
    c == '>' || c == ' ' || c == '\t' || c == '\n' || c == '\r'
}

/// Whether an `m:t` start tag begins at `i`: `<m:t` followed by a
/// character that ends the name (so `<m:type` is not one).
pub open spec fn mt_open_at(s: Seq<char>, i: int) -> bool {
    crate::chars::occurs_at(s, "<m:t"@, i) && i + 4 < s.len() && is_name_end(s[i + 4])
}

/// The first position at or after `from` where an `m:t` start tag begins.
pub open spec fn first_mt_from(s: Seq<char>, from: int) -> Option<int>
    decreases s.len() - from,
{
    if from < 0 || from >= s.len() {
        None
    } else if mt_open_at(s, from) {
        Some(from)
    } else {
        first_mt_from(s, from + 1)
    }
}

/// `first_mt_from` gives a tag start, the first one.
pub proof fn lemma_first_mt_from(s: Seq<char>, from: int)
    requires
        0 <= from,
    ensures
        first_mt_from(s, from) matches Some(i) ==> from <= i < s.len() && mt_open_at(s, i) && forall|j: int|
            from <= j < i ==> !mt_open_at(s, j),
        first_mt_from(s, from) is None ==> forall|j: int| from <= j ==> !mt_open_at(s, j),
    decreases s.len() - from,
{
    if from < s.len() && !mt_open_at(s, from) {
        lemma_first_mt_from(s, from + 1);
    }
}

/// The readable text of an equation: the contents of its `m:t` elements, in
/// order. From each `m:t` start tag the text runs from the next `>` to the
/// next `</m:t>`; the scan stops where one of them is missing.
pub open spec fn math_text_of(rest: Seq<char>) -> Seq<char>
    decreases rest.len(),
{
    match first_mt_from(rest, 0) {
        None => Seq::empty(),
        Some(at) => {
            let r1 = rest.skip(at);
            match index_of_char(r1, '>') {
                None => Seq::empty(),
                Some(open) => match crate::placeholder::first_occurrence(r1.skip(open), "</m:t>"@) {
                    None => Seq::empty(),
                    Some(close) => if 0 <= at && 0 <= open && 0 <= close && open + close > 0 && at
                        + open + close <= rest.len() {
                        r1.subrange(open + 1, open + close) + math_text_of(r1.skip(open + close))
                    } else {
                        Seq::empty()
                    },
                },
            }
        },
    }
}

/// The first position where an `m:t` start tag begins.
fn find_mt_open(s: &[char]) -> (r: Option<usize>)
    ensures
        match r {
            Some(i) => first_mt_from(s@, 0) == Some(i as int),
            None => first_mt_from(s@, 0) is None,
        },
{
    let pat = str_chars("<m:t");
    let mut i: usize = 0;
    while i < s.len()
        invariant
            i <= s@.len(),
            pat@ == "<m:t"@,
            first_mt_from(s@, 0) == first_mt_from(s@, i as int),
        decreases s@.len() - i,
    {
        if 4 < s.len() - i && crate::chars::match_at(s, pat.as_slice(), i) {
            let c = s[i + 4];
            if c == '>' || c == ' ' || c == '\t' || c == '\n' || c == '\r' {
                return Some(i);
            }
        }
        i = i + 1;
    }
    None
}

/// The position of `c` in `s` at or after `from`.
fn find_char_from(s: &Vec<char>, c: char, from: usize) -> (r: Option<usize>)
    requires
        from <= s@.len(),
    ensures
        r matches Some(i) ==> index_of_char(s@.skip(from as int), c) == Some(i - from) && from <= i
            && i < s@.len() && s@[i as int] == c,
        r is None ==> index_of_char(s@.skip(from as int), c) is None,
{
    proof { lemma_index_of_char(s@.skip(from as int), c); }
    let mut i: usize = from;
    while i < s.len()
        invariant
            from <= i <= s@.len(),
            forall|j: int| from <= j < i ==> s@[j] != c,
        decreases s@.len() - i,
    {
        if s[i] == c {
            proof {
                let t = s@.skip(from as int);
                assert forall|j: int| 0 <= j < i - from implies t[j] != c by {
                    assert(t[j] == s@[from + j]);
                }
                lemma_index_of_char_at(t, c, i - from);
            }
            return Some(i);
        }
        i = i + 1;
    }
    proof {
        let t = s@.skip(from as int);
        assert forall|j: int| 0 <= j < t.len() implies t[j] != c by {
            assert(t[j] == s@[from + j]);
        }
        lemma_index_of_char_none(t, c);
    }
    None
}

/// A position holding `c` with none before is the first.
proof fn lemma_index_of_char_at(s: Seq<char>, c: char, i: int)
    requires
        0 <= i < s.len(),
        s[i] == c,
        forall|j: int| 0 <= j < i ==> s[j] != c,
    ensures
        index_of_char(s, c) == Some(i),
    decreases i,
{
    if i > 0 {
        assert forall|j: int| 0 <= j < i - 1 implies s.drop_first()[j] != c by {
            assert(s.drop_first()[j] == s[j + 1]);
        }
        lemma_index_of_char_at(s.drop_first(), c, i - 1);
    }
}

/// No position holding `c` means no first one.
proof fn lemma_index_of_char_none(s: Seq<char>, c: char)
    requires
        forall|j: int| 0 <= j < s.len() ==> s[j] != c,
    ensures
        index_of_char(s, c) is None,
    decreases s.len(),
{
    if s.len() > 0 {
        assert forall|j: int| 0 <= j < s.len() - 1 implies s.drop_first()[j] != c by {
            assert(s.drop_first()[j] == s[j + 1]);
        }
        lemma_index_of_char_none(s.drop_first(), c);
    }
}

/// The readable text inside an equation.
pub fn math_text(xml: &str) -> (r: String)
    ensures
        r@ == math_text_of(xml@),
{
    let cs = str_chars(xml);
    let close_tag = str_chars("</m:t>");
    let mut text = String::new();
    let mut pos: usize = 0;
    let n = cs.len();
    proof { assert(cs@.skip(0) =~= cs@); assert(text@ + math_text_of(cs@) =~= math_text_of(cs@)); }
    loop
        invariant
            pos <= cs@.len(),
            n == cs@.len(),
            cs@ == xml@,
            close_tag@ == "</m:t>"@,
            text@ + math_text_of(cs@.skip(pos as int)) == math_text_of(xml@),
        ensures
            text@ == math_text_of(xml@),
        decreases cs@.len() - pos,
    {
        let rest = crate::opc::tail_from(cs.as_slice(), pos);
        let ghost r0 = rest@;
        let at = match find_mt_open(rest.as_slice()) {
            Some(a) => a,
            None => {
                proof { assert(text@ + Seq::<char>::empty() =~= text@); }
                break;
            },
        };
        proof { lemma_first_mt_from(r0, 0); }
        let start = pos + at;
        proof { assert(r0.skip(at as int) =~= cs@.skip(start as int)); }
        let open_abs = match find_char_from(&cs, '>', start) {
            Some(o) => o,
            None => {
                proof { assert(text@ + Seq::<char>::empty() =~= text@); }
                break;
            },
        };
        let open = open_abs - start;
        let after = crate::opc::tail_from(cs.as_slice(), open_abs);
        proof { assert(r0.skip(at as int).skip(open as int) =~= cs@.skip(open_abs as int)); }
        let close = match crate::placeholder::find_chars(after.as_slice(), close_tag.as_slice()) {
            Some(c) => c,
            None => {
                proof { assert(text@ + Seq::<char>::empty() =~= text@); }
                break;
            },
        };
        proof {
            crate::placeholder::lemma_occurrence_from(after@, "</m:t>"@, 0);
            reveal_strlit("</m:t>");
            assert(after@[0] == '>');
            if close == 0 {
                assert(after@.subrange(0, 6)[0] == '<');
            }
            assert(close > 0);
        }
        if open + close == 0 {
            proof { assert(text@ + Seq::<char>::empty() =~= text@); }
            break;
        }
        let piece = crate::chars::string_from_chars(
            slice_chars(cs.as_slice(), open_abs + 1, open_abs + close).as_slice(),
        );
        let ghost before = text@;
        push_str(&mut text, piece.as_str());
        proof {
            let r1 = r0.skip(at as int);
            assert(r1.subrange(open + 1, open + close) =~= cs@.subrange(open_abs + 1, open_abs + close));
            assert(r1.skip(open + close) =~= cs@.skip(open_abs + close));
            vstd::seq_lib::lemma_concat_associative(before, r1.subrange(open + 1, open + close),
                math_text_of(r1.skip(open + close)));
        }
        pos = open_abs + close;
    }
    text
}

/// The characters of `s` from `a` up to `b`.
pub fn slice_chars(s: &[char], a: usize, b: usize) -> (r: Vec<char>)
    requires
        a <= b <= s@.len(),
    ensures
        r@ == s@.subrange(a as int, b as int),
{
    let mut out: Vec<char> = Vec::new();
    let mut i: usize = a;
    while i < b
        invariant
            a <= i <= b <= s@.len(),
            out@ == s@.subrange(a as int, i as int),
        decreases b - i,
    {
        out.push(s[i]);
        i = i + 1;
        proof { assert(out@ =~= s@.subrange(a as int, i as int)); }
    }
    out
}

/// The formula shown for one preserved XML element of a paragraph: the
/// text of an equation (an element mentioning `oMath`), if it has any.
pub open spec fn formula_html(raw: Seq<u8>) -> Seq<char> {
    let xml = crate::chars::utf8_lossy(raw);
    if crate::placeholder::first_occurrence(xml, "oMath"@) is Some && math_text_of(xml).len() > 0 {
        "<span class=\"formula\">"@ + escape_text(math_text_of(xml)) + "</span>"@
    } else {
        Seq::empty()
    }
}

/// The formulas of a paragraph's preserved XML elements, in order.
pub open spec fn formulas_html(extra: Seq<(usize, Vec<u8>)>) -> Seq<char>
    decreases extra.len(),
{
    if extra.len() == 0 {
        Seq::empty()
    } else {
        formulas_html(extra.drop_last()) + formula_html(extra.last().1@)
    }
}

/// Appends the formulas of a paragraph.
fn emit_formulas(out: &mut String, extra: &Vec<(usize, Vec<u8>)>)
    ensures
        final(out)@ == old(out)@ + formulas_html(extra@),
{
    let ghost start = out@;
    let oms = str_chars("oMath");
    let mut i: usize = 0;
    proof { assert(extra@.take(0) =~= Seq::<(usize, Vec<u8>)>::empty()); assert(start + Seq::<char>::empty() =~= start); }
    while i < extra.len()
        invariant
            i <= extra@.len(),
            oms@ == "oMath"@,
            out@ == start + formulas_html(extra@.take(i as int)),
        decreases extra@.len() - i,
    {
        proof { assert(extra@.take(i + 1).drop_last() =~= extra@.take(i as int)); }
        let xml = crate::chars::string_from_utf8_lossy(extra[i].1.as_slice());
        let xcs = str_chars(xml.as_str());
        let ghost before = out@;
        if crate::placeholder::find_chars(xcs.as_slice(), oms.as_slice()).is_some() {
            let text = math_text(xml.as_str());
            if str_chars(text.as_str()).len() > 0 {
                push_str(out, "<span class=\"formula\">");
                push_escaped(out, text.as_str());
                push_str(out, "</span>");
                proof { assert(out@ =~= before + formula_html(extra@[i as int].1@)); }
            } else {
                proof { assert(out@ =~= before + formula_html(extra@[i as int].1@)); }
            }
        } else {
            proof { assert(out@ =~= before + formula_html(extra@[i as int].1@)); }
        }
        i = i + 1;
        proof { assert(out@ =~= start + formulas_html(extra@.take(i as int))); }
    }
    proof { assert(extra@.take(i as int) =~= extra@); }
}

/// The URL of the hyperlink covering run `i`: the last span (in order) that
/// covers it and whose relationship has a URL.
pub open spec fn link_for(hl: Seq<crate::text::HyperlinkSpan>, urls: Seq<(String, String)>, i: int) -> Option<
    Seq<char>,
>
    decreases hl.len(),
{
    if hl.len() == 0 {
        None
    } else {
        let h = hl.last();
        let url = match h.rel_id {
            Some(r) => lookup(urls, r@),
            None => None,
        };
        if url is Some && h.run_start <= i < h.run_end {
            Some(url->0@)
        } else {
            link_for(hl.drop_last(), urls, i)
        }
    }
}

/// The URL of the hyperlink covering run `i`.
pub fn link_for_exec<'a>(hl: &Vec<crate::text::HyperlinkSpan>, urls: &'a Vec<(String, String)>, i: usize) -> (r:
    Option<&'a str>)
    ensures
        r matches Some(u) ==> link_for(hl@, urls@, i as int) == Some(u@),
        r is None ==> link_for(hl@, urls@, i as int) is None,
{
    let mut k: usize = hl.len();
    proof { assert(hl@.take(k as int) =~= hl@); }
    while k > 0
        invariant
            k <= hl@.len(),
            link_for(hl@, urls@, i as int) == link_for(hl@.take(k as int), urls@, i as int),
        decreases k,
    {
        proof { assert(hl@.take(k as int).drop_last() =~= hl@.take(k - 1)); }
        let h = &hl[k - 1];
        match &h.rel_id {
            Some(r) => match lookup_exec(urls, r.as_str()) {
                Some(u) => {
                    if h.run_start <= i && i < h.run_end {
                        return Some(u.as_str());
                    }
                },
                None => {},
            },
            None => {},
        }
        k = k - 1;
    }
    None
}

/// The tags between two runs when the hyperlink changes from `cur` to `next`.
pub open spec fn link_transition(cur: Option<Seq<char>>, next: Option<Seq<char>>) -> Seq<char> {
    match (cur, next) {
        (None, Some(u)) => "<a href=\""@ + escape_text(u) + "\">"@,
        (Some(_), None) => "</a>"@,
        (Some(o), Some(n)) => if o != n {
            "</a>"@ + "<a href=\""@ + escape_text(n) + "\">"@
        } else {
            Seq::empty()
        },
        (None, None) => Seq::empty(),
    }
}

/// The runs from `i` on, with hyperlinks opened and closed as the link
/// changes, starting inside the link `cur`.
pub open spec fn runs_html_from(
    p: crate::text::CT_P,
    urls: Seq<(String, String)>,
    images: Seq<(String, ImageData)>,
    opts: HtmlOptions,
    i: int,
    cur: Option<Seq<char>>,
) -> Seq<char>
    decreases p.runs@.len() - i,
{
    if i < 0 || i >= p.runs@.len() {
        if cur is Some { "</a>"@ } else { Seq::empty() }
    } else {
        let next = link_for(p.hyperlinks@, urls, i);
        link_transition(cur, next) + run_html(p.runs@[i], images, opts) + runs_html_from(p, urls,
            images, opts, i + 1, next)
    }
}

/// The inner HTML of a paragraph: its formulas, then its runs with their
/// hyperlinks.
pub open spec fn para_content_html(
    p: crate::text::CT_P,
    images: Seq<(String, ImageData)>,
    urls: Seq<(String, String)>,
    opts: HtmlOptions,
) -> Seq<char> {
    formulas_html(p.extra_xml@) + runs_html_from(p, urls, images, opts, 0, None)
}

/// Emit the inner content of a paragraph (formulas, runs and hyperlinks).
fn emit_paragraph_content(
    out: &mut String,
    para: &crate::text::CT_P,
    images: &Vec<(String, ImageData)>,
    hyperlink_urls: &Vec<(String, String)>,
    options: &HtmlOptions,
)
    ensures
        final(out)@ == old(out)@ + para_content_html(*para, images@, hyperlink_urls@, *options),
{
    emit_formulas(out, &para.extra_xml);
    let ghost mid = out@;
    let ghost target = runs_html_from(*para, hyperlink_urls@, images@, *options, 0, None);
    let mut current: Option<&str> = None;
    let mut i: usize = 0;
    while i < para.runs.len()
        invariant
            i <= para.runs@.len(),
            out@ + runs_html_from(*para, hyperlink_urls@, images@, *options, i as int, match current {
                Some(c) => Some(c@),
                None => None,
            }) == mid + target,
        decreases para.runs@.len() - i,
    {
        let next = link_for_exec(&para.hyperlinks, hyperlink_urls, i);
        let ghost cur_v = match current { Some(c) => Some(c@), None => None::<Seq<char>> };
        let ghost next_v = match next { Some(c) => Some(c@), None => None::<Seq<char>> };
        let ghost before = out@;
        match (current, next) {
            (None, Some(u)) => {
                push_str(out, "<a href=\"");
                push_escaped(out, u);
                push_str(out, "\">");
            },
            (Some(_), None) => {
                push_str(out, "</a>");
            },
            (Some(o), Some(n)) => {
                if !str_eq(o, n) {
                    push_str(out, "</a>");
                    push_str(out, "<a href=\"");
                    push_escaped(out, n);
                    push_str(out, "\">");
                }
            },
            (None, None) => {},
        }
        proof { assert(out@ =~= before + link_transition(cur_v, next_v)); }
        let ghost after_t = out@;
        emit_run(out, &para.runs[i], images, options);
        proof {
            let rest = runs_html_from(*para, hyperlink_urls@, images@, *options, i + 1, next_v);
            assert(runs_html_from(*para, hyperlink_urls@, images@, *options, i as int, cur_v)
                == link_transition(cur_v, next_v) + run_html(para.runs@[i as int], images@, *options) + rest);
            vstd::seq_lib::lemma_concat_associative(before, link_transition(cur_v, next_v), run_html(para.runs@[i as int], images@, *options));
            vstd::seq_lib::lemma_concat_associative(before, link_transition(cur_v, next_v) + run_html(para.runs@[i as int], images@, *options), rest);
            vstd::seq_lib::lemma_concat_associative(before + link_transition(cur_v, next_v), run_html(para.runs@[i as int], images@, *options), rest);
        }
        current = next;
        i = i + 1;
    }
    let ghost before_close = out@;
    if current.is_some() {
        push_str(out, "</a>");
    }
    proof {
        assert(out@ =~= mid + target);
    }
}

/// The heading level of a paragraph: its outline level plus one, else the
/// number n of a `Heading<n>` style id for n in 1..=6, else its style's
/// outline level plus one.
pub open spec fn heading_level(ppr: Option<crate::properties::CT_PPr>, styles: crate::styles::CT_Styles) -> Option<int> {
    match ppr {
        None => None,
        Some(p) => match p.outline_lvl {
            Some(l) => Some(l + 1),
            None => match p.style_id {
                None => None,
                Some(sid) => {
                    let id = sid@;
                    let n = if id.len() >= 7 && id.take(7) == "Heading"@ {
                        crate::chars::parse_u32(id.skip(7))
                    } else {
                        None
                    };
                    if n matches Some(k) && 1 <= k <= 6 {
                        Some(n->0 as int)
                    } else {
                        match crate::styles::first_style_with_id(styles.styles@, id) {
                            Some(i) => match styles.styles@[i].ppr {
                                Some(sp) => match sp.outline_lvl {
                                    Some(l) => Some(l + 1),
                                    None => None,
                                },
                                None => None,
                            },
                            None => None,
                        }
                    }
                },
            },
        },
    }
}

/// Detect the heading level from paragraph properties and styles.
pub fn detect_heading_level(ppr: Option<&crate::properties::CT_PPr>, styles: &crate::styles::CT_Styles) -> (r: Option<u64>)
    ensures
        r matches Some(n) ==> heading_level(match ppr { Some(p) => Some(*p), None => None }, *styles) == Some(n as int),
        r is None ==> heading_level(match ppr { Some(p) => Some(*p), None => None }, *styles) is None,
{
    let p = match ppr {
        Some(p) => p,
        None => {
            return None;
        },
    };
    match p.outline_lvl {
        Some(l) => {
            return Some(l as u64 + 1);
        },
        None => {},
    }
    let sid: &str = match &p.style_id {
        Some(s) => s.as_str(),
        None => {
            return None;
        },
    };
    let cs = str_chars(sid);
    if cs.len() >= 7 && cs[0] == 'H' && cs[1] == 'e' && cs[2] == 'a' && cs[3] == 'd' && cs[4] == 'i'
        && cs[5] == 'n' && cs[6] == 'g' {
        let tail = crate::opc::tail_from(cs.as_slice(), 7);
        proof {
            reveal_strlit("Heading");
            assert(cs@.take(7) =~= "Heading"@);
            assert(tail@ =~= sid@.skip(7));
        }
        match crate::chars::parse_u32_chars(tail.as_slice()) {
            Some(n) => {
                if 1 <= n && n <= 6 {
                    return Some(n as u64);
                }
            },
            None => {},
        }
    } else {
        proof {
            reveal_strlit("Heading");
            if cs@.len() >= 7 && cs@.take(7) == "Heading"@ {
                assert(cs@.take(7)[0] == 'H');
                assert(cs@.take(7)[1] == 'e');
                assert(cs@.take(7)[2] == 'a');
                assert(cs@.take(7)[3] == 'd');
                assert(cs@.take(7)[4] == 'i');
                assert(cs@.take(7)[5] == 'n');
                assert(cs@.take(7)[6] == 'g');
            }
        }
    }
    match styles.get_by_id(sid) {
        Some(style) => match &style.ppr {
            Some(sp) => match sp.outline_lvl {
                Some(l) => Some(l as u64 + 1),
                None => None,
            },
            None => None,
        },
        None => None,
    }
}

/// Whether a paragraph is a list item, and if so whether the list is
/// ordered (its level's format is not a bullet) and its level.
pub open spec fn list_info(p: crate::text::CT_P, numbering: Option<crate::numbering::CT_Numbering>) -> Option<(bool, u32)> {
    match p.properties {
        None => None,
        Some(ppr) => match ppr.num_id {
            None => None,
            Some(num_id) => {
                let ilvl = match ppr.num_ilvl {
                    Some(l) => l,
                    None => 0,
                };
                if num_id == 0 {
                    None
                } else {
                    match numbering {
                        None => None,
                        Some(n) => match crate::numbering::abstract_for(n, num_id) {
                            None => None,
                            Some(ai) => match crate::numbering::first_level(n.abstract_nums@[ai].levels@, ilvl) {
                                None => None,
                                Some(li) => Some((n.abstract_nums@[ai].levels@[li].num_fmt != Some(crate::numbering::ST_NumberFormat::Bullet), ilvl)),
                            },
                        },
                    }
                }
            },
        },
    }
}

/// Detect if a paragraph is a list item.
pub fn detect_list(para: &crate::text::CT_P, numbering: Option<&crate::numbering::CT_Numbering>) -> (r: Option<(bool, u32)>)
    ensures
        r == list_info(*para, match numbering { Some(n) => Some(*n), None => None }),
{
    let ppr = match &para.properties {
        Some(p) => p,
        None => {
            return None;
        },
    };
    let num_id = match ppr.num_id {
        Some(n) => n,
        None => {
            return None;
        },
    };
    let ilvl = match ppr.num_ilvl {
        Some(l) => l,
        None => 0,
    };
    if num_id == 0 {
        return None;
    }
    let numbering = match numbering {
        Some(n) => n,
        None => {
            return None;
        },
    };
    let ai = match numbering.abstract_index_for(num_id) {
        Some(a) => a,
        None => {
            return None;
        },
    };
    proof {
        crate::numbering::lemma_first_num(numbering.nums@, num_id);
        crate::numbering::lemma_first_abstract(numbering.abstract_nums@,
            numbering.nums@[crate::numbering::first_num(numbering.nums@, num_id)->0].abstract_num_id);
    }
    let levels = &numbering.abstract_nums[ai].levels;
    let li = match crate::numbering::find_level(levels, ilvl) {
        Some(l) => l,
        None => {
            return None;
        },
    };
    proof { crate::numbering::lemma_first_level(levels@, ilvl); }
    let is_bullet = match levels[li].num_fmt {
        Some(f) => f == crate::numbering::ST_NumberFormat::Bullet,
        None => false,
    };
    Some((!is_bullet, ilvl))
}

/// The element name for a heading level: `h1`..`h6`, else `p`.
pub open spec fn heading_tag(level: Option<int>) -> Seq<char> {
    match level {
        Some(n) => if n == 1 {
            "h1"@
        } else if n == 2 {
            "h2"@
        } else if n == 3 {
            "h3"@
        } else if n == 4 {
            "h4"@
        } else if n == 5 {
            "h5"@
        } else if n == 6 {
            "h6"@
        } else {
            "p"@
        },
        None => "p"@,
    }
}

/// The HTML of a paragraph element: its heading or `p` tag, with its style
/// when it has one, around its content.
pub open spec fn para_html(
    p: crate::text::CT_P,
    styles: crate::styles::CT_Styles,
    images: Seq<(String, ImageData)>,
    urls: Seq<(String, String)>,
    opts: HtmlOptions,
) -> Seq<char> {
    let tag = heading_tag(heading_level(p.properties, styles));
    let style = crate::html_css::paragraph_css(p.properties);
    "<"@ + tag + (if style.len() == 0 { Seq::empty() } else { " style=\""@ + style + "\""@ }) + ">"@
        + para_content_html(p, images, urls, opts) + "</"@ + tag + ">\n"@
}

/// Emit a complete paragraph element.
fn emit_paragraph(
    out: &mut String,
    para: &crate::text::CT_P,
    styles: &crate::styles::CT_Styles,
    images: &Vec<(String, ImageData)>,
    hyperlink_urls: &Vec<(String, String)>,
    options: &HtmlOptions,
)
    ensures
        final(out)@ == old(out)@ + para_html(*para, *styles, images@, hyperlink_urls@, *options),
{
    let level = detect_heading_level(para.properties.as_ref(), styles);
    let tag: &str = match level {
        Some(1) => "h1",
        Some(2) => "h2",
        Some(3) => "h3",
        Some(4) => "h4",
        Some(5) => "h5",
        Some(6) => "h6",
        _ => "p",
    };
    let ghost tag_v = heading_tag(heading_level(para.properties, *styles));
    proof { assert(tag@ == tag_v); }
    let style = crate::html_css::paragraph_style(para.properties.as_ref());
    let ghost o = out@;
    push_str(out, "<");
    push_str(out, tag);
    if str_chars(style.as_str()).len() > 0 {
        push_str(out, " style=\"");
        push_str(out, style.as_str());
        push_str(out, "\"");
    }
    push_str(out, ">");
    let ghost head = out@;
    emit_paragraph_content(out, para, images, hyperlink_urls, options);
    let ghost body_end = out@;
    push_str(out, "</");
    push_str(out, tag);
    push_str(out, ">\n");
    proof {
        let style_v = crate::html_css::paragraph_css(para.properties);
        let open = "<"@ + tag_v + (if style_v.len() == 0 { Seq::empty() } else { " style=\""@ + style_v + "\""@ }) + ">"@;
        assert(head =~= o + open);
        let content = para_content_html(*para, images@, hyperlink_urls@, *options);
        let close = "</"@ + tag_v + ">\n"@;
        assert(out@ =~= o + open + content + close);
        assert(para_html(*para, *styles, images@, hyperlink_urls@, *options) =~= open + content + close);
    }
}

/// Whether any of the four outer edges is set.
pub open spec fn any_outer_edge(b: Option<crate::table::CT_TblBorders>) -> bool {
    b matches Some(x) && (x.top is Some || x.bottom is Some || x.left is Some || x.right is Some)
}

/// Whether any edge, inner ones included, is set.
pub open spec fn any_edge(b: Option<crate::table::CT_TblBorders>) -> bool {
    b matches Some(x) && (x.top is Some || x.bottom is Some || x.left is Some || x.right is Some
        || x.inside_h is Some || x.inside_v is Some)
}

/// The inline style of a table: centred or right-aligned margins, and a
/// border when any edge is set.
pub open spec fn table_style(props: Option<crate::table::CT_TblPr>) -> Seq<char> {
    match props {
        None => Seq::empty(),
        Some(pr) => (match pr.jc {
            Some(j) => match j {
                crate::shared::ST_Jc::Center => "margin-left:auto;margin-right:auto;"@,
                crate::shared::ST_Jc::Right => "margin-left:auto;"@,
                _ => Seq::empty(),
            },
            None => Seq::empty(),
        }) + opt_text(any_edge(pr.borders), "border:1px solid #000;"@),
    }
}

/// Whether a cell continues a vertical merge from the row above.
pub open spec fn is_continue(c: CT_Tc) -> bool {
    c.properties matches Some(p) && p.v_merge == Some(VMerge::Continue)
}

/// How many consecutive rows from `r` on continue the merge in column `ci`.
pub open spec fn span_below(rows: Seq<crate::table::CT_Row>, r: int, ci: int) -> nat
    decreases rows.len() - r,
{
    if 0 <= r < rows.len() && 0 <= ci < rows[r].cells@.len() && is_continue(rows[r].cells@[ci]) {
        1 + span_below(rows, r + 1, ci)
    } else {
        0
    }
}

/// The colspan and rowspan attributes of a cell.
pub open spec fn cell_attrs(rows: Seq<crate::table::CT_Row>, ri: int, ci: int, c: CT_Tc) -> Seq<char> {
    match c.properties {
        None => Seq::empty(),
        Some(p) => (match p.grid_span {
            Some(sp) => opt_text(sp > 1, " colspan=\""@ + crate::chars::decimal(sp as nat) + "\""@),
            None => Seq::empty(),
        }) + (if p.v_merge == Some(VMerge::Restart) {
            let n = 1 + span_below(rows, ri + 1, ci);
            opt_text(n > 1, " rowspan=\""@ + crate::chars::decimal(n) + "\""@)
        } else {
            Seq::empty()
        }),
    }
}

/// The inline style of a cell: vertical alignment, background, border.
pub open spec fn cell_style(c: CT_Tc) -> Seq<char> {
    match c.properties {
        None => Seq::empty(),
        Some(p) => (match p.v_align {
            Some(v) => "vertical-align:"@ + match v {
                ST_VerticalJc::Top => "top"@,
                ST_VerticalJc::Center => "middle"@,
                ST_VerticalJc::Bottom => "bottom"@,
            } + ";"@,
            None => Seq::empty(),
        }) + (match crate::html_css::shown_fill(p.shading) {
            Some(f) => "background-color:#"@ + f + ";"@,
            None => Seq::empty(),
        }) + opt_text(any_outer_edge(p.borders), "border:1px solid #000;"@),
    }
}

/// The HTML of a table: rows of cells, vertically merged continuation
/// cells left out, nested tables inside their cells.
pub open spec fn table_html(
    t: CT_Tbl,
    st: crate::styles::CT_Styles,
    im: Seq<(String, ImageData)>,
    ur: Seq<(String, String)>,
    op: HtmlOptions,
) -> Seq<char>
    decreases t,
{
    let style = table_style(t.properties);
    (if style.len() == 0 { "<table>\n"@ } else { "<table style=\""@ + style + "\">\n"@ })
        + rows_html(t.rows@, t.rows@, st, im, ur, op) + "</table>\n"@
}

/// The HTML of the rows `rs`, a prefix of `all`.
pub open spec fn rows_html(
    all: Seq<crate::table::CT_Row>,
    rs: Seq<crate::table::CT_Row>,
    st: crate::styles::CT_Styles,
    im: Seq<(String, ImageData)>,
    ur: Seq<(String, String)>,
    op: HtmlOptions,
) -> Seq<char>
    decreases rs,
{
    if rs.len() == 0 {
        Seq::empty()
    } else {
        rows_html(all, rs.drop_last(), st, im, ur, op) + "<tr>\n"@ + cells_html(all, rs.len() - 1,
            rs.last().cells@, st, im, ur, op) + "</tr>\n"@
    }
}

/// The HTML of the cells `cs`, a prefix of row `ri`'s cells.
pub open spec fn cells_html(
    all: Seq<crate::table::CT_Row>,
    ri: int,
    cs: Seq<CT_Tc>,
    st: crate::styles::CT_Styles,
    im: Seq<(String, ImageData)>,
    ur: Seq<(String, String)>,
    op: HtmlOptions,
) -> Seq<char>
    decreases cs,
{
    if cs.len() == 0 {
        Seq::empty()
    } else {
        cells_html(all, ri, cs.drop_last(), st, im, ur, op) + cell_html(all, ri, cs.len() - 1,
            cs.last(), st, im, ur, op)
    }
}

/// The HTML of one cell (nothing for a merge continuation).
pub open spec fn cell_html(
    all: Seq<crate::table::CT_Row>,
    ri: int,
    ci: int,
    c: CT_Tc,
    st: crate::styles::CT_Styles,
    im: Seq<(String, ImageData)>,
    ur: Seq<(String, String)>,
    op: HtmlOptions,
) -> Seq<char>
    decreases c,
{
    if is_continue(c) {
        Seq::empty()
    } else {
        let style = cell_style(c);
        "<td"@ + cell_attrs(all, ri, ci, c) + (if style.len() == 0 { Seq::empty() } else {
            " style=\""@ + style + "\""@
        }) + ">"@ + contents_html(c.content@, st, im, ur, op) + "</td>\n"@
    }
}

/// The HTML of cell content items.
pub open spec fn contents_html(
    items: Seq<CellContent>,
    st: crate::styles::CT_Styles,
    im: Seq<(String, ImageData)>,
    ur: Seq<(String, String)>,
    op: HtmlOptions,
) -> Seq<char>
    decreases items,
{
    if items.len() == 0 {
        Seq::empty()
    } else {
        contents_html(items.drop_last(), st, im, ur, op) + content_html(items.last(), st, im, ur, op)
    }
}

/// The HTML of one cell content item.
pub open spec fn content_html(
    c: CellContent,
    st: crate::styles::CT_Styles,
    im: Seq<(String, ImageData)>,
    ur: Seq<(String, String)>,
    op: HtmlOptions,
) -> Seq<char>
    decreases c,
{
    match c {
        CellContent::Paragraph(p) => para_html(p, st, im, ur, op),
        CellContent::Table(t) => table_html(t, st, im, ur, op),
        CellContent::RawXml(_) => Seq::empty(),
    }
}

/// The inline style of a table.
fn table_style_exec(props: &Option<crate::table::CT_TblPr>) -> (r: String)
    ensures
        r@ == table_style(*props),
{
    let mut st = String::new();
    match props {
        Some(pr) => {
            match pr.jc {
                Some(j) => match j {
                    crate::shared::ST_Jc::Center => push_str(&mut st, "margin-left:auto;margin-right:auto;"),
                    crate::shared::ST_Jc::Right => push_str(&mut st, "margin-left:auto;"),
                    _ => {},
                },
                None => {},
            }
            let edges = match &pr.borders {
                Some(x) => x.top.is_some() || x.bottom.is_some() || x.left.is_some() || x.right.is_some()
                    || x.inside_h.is_some() || x.inside_v.is_some(),
                None => false,
            };
            push_if(&mut st, edges, "border:1px solid #000;");
            proof { assert(st@ =~= table_style(*props)); }
        },
        None => {},
    }
    st
}

/// Count the rowspan for a vmerge restart cell at row `ri`, column `ci`.
fn count_vmerge_span(tbl: &CT_Tbl, ri: usize, ci: usize) -> (r: u64)
    requires
        ri < tbl.rows@.len(),
    ensures
        r == 1 + span_below(tbl.rows@, ri + 1, ci as int),
{
    let mut span: u64 = 1;
    let nrows = tbl.rows.len();
    let mut r: usize = ri + 1;
    while r < tbl.rows.len()
        invariant
            ri < r <= tbl.rows@.len(),
            span == r - ri,
            1 + span_below(tbl.rows@, ri + 1, ci as int) == span + span_below(tbl.rows@, r as int, ci as int),
        decreases tbl.rows@.len() - r,
    {
        let row = &tbl.rows[r];
        if ci < row.cells.len() {
            let cont = match &row.cells[ci].properties {
                Some(p) => match p.v_merge {
                    Some(VMerge::Continue) => true,
                    _ => false,
                },
                None => false,
            };
            if cont {
                span = span + 1;
                r = r + 1;
                continue;
            }
        }
        return span;
    }
    span
}

/// The colspan and rowspan attributes of a cell.
fn cell_attrs_exec(tbl: &CT_Tbl, ri: usize, ci: usize) -> (r: String)
    requires
        ri < tbl.rows@.len(),
        ci < tbl.rows@[ri as int].cells@.len(),
    ensures
        r@ == cell_attrs(tbl.rows@, ri as int, ci as int, tbl.rows@[ri as int].cells@[ci as int]),
{
    let cell = &tbl.rows[ri].cells[ci];
    let mut a = String::new();
    match &cell.properties {
        None => {},
        Some(p) => {
            match p.grid_span {
                Some(sp) => {
                    if sp > 1 {
                        push_str(&mut a, " colspan=\"");
                        crate::chars::push_decimal(&mut a, sp as u64);
                        push_str(&mut a, "\"");
                    }
                },
                None => {},
            }
            let ghost mid = a@;
            let restart = match p.v_merge {
                Some(VMerge::Restart) => true,
                _ => false,
            };
            if restart {
                let n = count_vmerge_span(tbl, ri, ci);
                if n > 1 {
                    push_str(&mut a, " rowspan=\"");
                    crate::chars::push_decimal(&mut a, n);
                    push_str(&mut a, "\"");
                }
            }
            proof { assert(a@ =~= cell_attrs(tbl.rows@, ri as int, ci as int, *cell)); }
        },
    }
    a
}

/// The inline style of a cell.
fn cell_style_exec(cell: &CT_Tc) -> (r: String)
    ensures
        r@ == cell_style(*cell),
{
    let mut st = String::new();
    match &cell.properties {
        None => {},
        Some(p) => {
            match p.v_align {
                Some(v) => {
                    push_str(&mut st, "vertical-align:");
                    match v {
                        ST_VerticalJc::Top => push_str(&mut st, "top"),
                        ST_VerticalJc::Center => push_str(&mut st, "middle"),
                        ST_VerticalJc::Bottom => push_str(&mut st, "bottom"),
                    }
                    push_str(&mut st, ";");
                },
                None => {},
            }
            let ghost a = st@;
            match crate::html_css::shown_fill_exec(&p.shading) {
                Some(f) => {
                    push_str(&mut st, "background-color:#");
                    push_str(&mut st, f);
                    push_str(&mut st, ";");
                },
                None => {},
            }
            let ghost b = st@;
            let edges = match &p.borders {
                Some(x) => x.top.is_some() || x.bottom.is_some() || x.left.is_some() || x.right.is_some(),
                None => false,
            };
            push_if(&mut st, edges, "border:1px solid #000;");
            proof { assert(st@ =~= cell_style(*cell)); }
        },
    }
    st
}

/// Emit a table.
fn emit_table(
    out: &mut String,
    tbl: &CT_Tbl,
    styles: &crate::styles::CT_Styles,
    images: &Vec<(String, ImageData)>,
    hyperlink_urls: &Vec<(String, String)>,
    options: &HtmlOptions,
)
    ensures
        final(out)@ == old(out)@ + table_html(*tbl, *styles, images@, hyperlink_urls@, *options),
    decreases tbl,
{
    let style = table_style_exec(&tbl.properties);
    if str_chars(style.as_str()).len() == 0 {
        push_str(out, "<table>\n");
    } else {
        push_str(out, "<table style=\"");
        push_str(out, style.as_str());
        push_str(out, "\">\n");
    }
    let ghost o2 = out@;
    let ghost head = if style@.len() == 0 { "<table>\n"@ } else { "<table style=\""@ + style@ + "\">\n"@ };
    proof { assert(o2 =~= old(out)@ + head); }
    let ghost all = tbl.rows@;
    let mut i: usize = 0;
    proof { assert(all.take(0) =~= Seq::<crate::table::CT_Row>::empty()); assert(o2 + Seq::<char>::empty() =~= o2); }
    while i < tbl.rows.len()
        invariant
            i <= all.len(),
            all == tbl.rows@,
            out@ == o2 + rows_html(all, all.take(i as int), *styles, images@, hyperlink_urls@, *options),
        decreases all.len() - i,
    {
        let ghost before_row = out@;
        push_str(out, "<tr>\n");
        let ghost o3 = out@;
        let ghost cells = all[i as int].cells@;
        let mut j: usize = 0;
        proof { assert(cells.take(0) =~= Seq::<CT_Tc>::empty()); assert(o3 + Seq::<char>::empty() =~= o3); }
        while j < tbl.rows[i].cells.len()
            invariant
                i < all.len(),
                all == tbl.rows@,
                cells == all[i as int].cells@,
                j <= cells.len(),
                out@ == o3 + cells_html(all, i as int, cells.take(j as int), *styles, images@, hyperlink_urls@, *options),
            decreases cells.len() - j,
        {
            let ghost before_cell = out@;
            emit_cell(out, tbl, i, j, styles, images, hyperlink_urls, options);
            proof {
                assert(cells.take(j + 1).drop_last() =~= cells.take(j as int));
                assert(cells.take(j + 1).last() == cells[j as int]);
                vstd::seq_lib::lemma_concat_associative(o3, cells_html(all, i as int, cells.take(j as int), *styles, images@, hyperlink_urls@, *options),
                    cell_html(all, i as int, j as int, cells[j as int], *styles, images@, hyperlink_urls@, *options));
            }
            j = j + 1;
        }
        push_str(out, "</tr>\n");
        proof {
            assert(cells.take(j as int) =~= cells);
            assert(all.take(i + 1).drop_last() =~= all.take(i as int));
            assert(all.take(i + 1).last() == all[i as int]);
            let prev = rows_html(all, all.take(i as int), *styles, images@, hyperlink_urls@, *options);
            let mid = cells_html(all, i as int, cells, *styles, images@, hyperlink_urls@, *options);
            assert(out@ =~= o2 + (prev + "<tr>\n"@ + mid + "</tr>\n"@));
        }
        i = i + 1;
    }
    push_str(out, "</table>\n");
    proof {
        assert(all.take(i as int) =~= all);
        assert(out@ =~= old(out)@ + table_html(*tbl, *styles, images@, hyperlink_urls@, *options));
    }
}

/// Emit one table cell, with its content (nested tables included).
fn emit_cell(
    out: &mut String,
    tbl: &CT_Tbl,
    ri: usize,
    ci: usize,
    styles: &crate::styles::CT_Styles,
    images: &Vec<(String, ImageData)>,
    hyperlink_urls: &Vec<(String, String)>,
    options: &HtmlOptions,
)
    requires
        ri < tbl.rows@.len(),
        ci < tbl.rows@[ri as int].cells@.len(),
    ensures
        final(out)@ == old(out)@ + cell_html(tbl.rows@, ri as int, ci as int,
            tbl.rows@[ri as int].cells@[ci as int], *styles, images@, hyperlink_urls@, *options),
    decreases tbl.rows@[ri as int].cells@[ci as int],
{
    let cell = &tbl.rows[ri].cells[ci];
    let cont = match &cell.properties {
        Some(p) => match p.v_merge {
            Some(VMerge::Continue) => true,
            _ => false,
        },
        None => false,
    };
    if cont {
        proof { assert(old(out)@ + Seq::<char>::empty() =~= old(out)@); }
        return;
    }
    let attrs = cell_attrs_exec(tbl, ri, ci);
    let style = cell_style_exec(cell);
    push_str(out, "<td");
    push_str(out, attrs.as_str());
    if str_chars(style.as_str()).len() > 0 {
        push_str(out, " style=\"");
        push_str(out, style.as_str());
        push_str(out, "\"");
    }
    push_str(out, ">");
    let ghost o2 = out@;
    let ghost items = cell.content@;
    let mut k: usize = 0;
    proof { assert(items.take(0) =~= Seq::<CellContent>::empty()); assert(o2 + Seq::<char>::empty() =~= o2); }
    while k < cell.content.len()
        invariant
            ri < tbl.rows@.len(),
            ci < tbl.rows@[ri as int].cells@.len(),
            *cell == tbl.rows@[ri as int].cells@[ci as int],
            items == cell.content@,
            k <= items.len(),
            out@ == o2 + contents_html(items.take(k as int), *styles, images@, hyperlink_urls@, *options),
        decreases items.len() - k,
    {
        let ghost before = out@;
        match &cell.content[k] {
            CellContent::Paragraph(p) => {
                emit_paragraph(out, p, styles, images, hyperlink_urls, options);
            },
            CellContent::Table(nested) => {
                proof {
                    assert(decreases_to!(tbl.rows@[ri as int].cells@[ci as int] => *nested));
                }
                emit_table(out, nested, styles, images, hyperlink_urls, options);
            },
            CellContent::RawXml(_) => {
                proof { assert(before + Seq::<char>::empty() =~= before); }
            },
        }
        proof {
            assert(items.take(k + 1).drop_last() =~= items.take(k as int));
            assert(items.take(k + 1).last() == items[k as int]);
            vstd::seq_lib::lemma_concat_associative(o2, contents_html(items.take(k as int), *styles, images@, hyperlink_urls@, *options),
                content_html(items[k as int], *styles, images@, hyperlink_urls@, *options));
        }
        k = k + 1;
    }
    push_str(out, "</td>\n");
    proof {
        assert(items.take(k as int) =~= items);
        assert(out@ =~= old(out)@ + cell_html(tbl.rows@, ri as int, ci as int, *cell, *styles, images@, hyperlink_urls@, *options));
    }
}

/// An open list: ordered or not, and its level.
#[derive(Clone, Copy)]
pub struct ListState {
    pub ordered: bool,
    pub level: u32,
}

/// The closing tag of an open list.
pub open spec fn close_tag(l: ListState) -> Seq<char> {
    if l.ordered { "</ol>\n"@ } else { "</ul>\n"@ }
}

/// The opening tag of a list.
pub open spec fn open_tag(ordered: bool) -> Seq<char> {
    if ordered { "<ol>\n"@ } else { "<ul>\n"@ }
}

/// Closing every open list, innermost first.
pub open spec fn close_all(st: Seq<ListState>) -> Seq<char>
    decreases st.len(),
{
    if st.len() == 0 {
        Seq::empty()
    } else {
        close_tag(st.last()) + close_all(st.drop_last())
    }
}

/// Closing the open lists that a list item at `level` leaves: innermost
/// first, while the innermost is at `level` or deeper and not at level 0.
pub open spec fn close_deeper(st: Seq<ListState>, level: u32) -> (Seq<ListState>, Seq<char>)
    decreases st.len(),
{
    if st.len() > 0 && level <= st.last().level && st.last().level > 0 {
        let (s2, t2) = close_deeper(st.drop_last(), level);
        (s2, close_tag(st.last()) + t2)
    } else {
        (st, Seq::empty())
    }
}

/// Opening `k` lists of the given kind, each recorded at `level`.
pub open spec fn open_lists(st: Seq<ListState>, ordered: bool, level: u32, k: nat) -> (Seq<ListState>, Seq<char>)
    decreases k,
{
    if k == 0 {
        (st, Seq::empty())
    } else {
        let (s2, t2) = open_lists(st.push(ListState { ordered, level }), ordered, level, (k - 1) as nat);
        (s2, open_tag(ordered) + t2)
    }
}

/// The open lists and HTML after one block of the body, given the lists
/// open before it.
pub open spec fn body_step(
    st: Seq<ListState>,
    c: crate::document::BodyContent,
    styles: crate::styles::CT_Styles,
    numbering: Option<crate::numbering::CT_Numbering>,
    im: Seq<(String, ImageData)>,
    ur: Seq<(String, String)>,
    op: HtmlOptions,
) -> (Seq<ListState>, Seq<char>) {
    match c {
        crate::document::BodyContent::Paragraph(p) => match list_info(p, numbering) {
            Some((ordered, level)) => list_item_step(st, p, ordered, level, im, ur, op),
            None => (Seq::empty(), close_all(st) + para_html(p, styles, im, ur, op)),
        },
        crate::document::BodyContent::Table(t) => (Seq::empty(), close_all(st) + table_html(t, styles, im, ur, op)),
        crate::document::BodyContent::RawXml(_) => (st, Seq::empty()),
    }
}

/// The open lists and HTML after the blocks `items`.
pub open spec fn body_fold(
    items: Seq<crate::document::BodyContent>,
    styles: crate::styles::CT_Styles,
    numbering: Option<crate::numbering::CT_Numbering>,
    im: Seq<(String, ImageData)>,
    ur: Seq<(String, String)>,
    op: HtmlOptions,
) -> (Seq<ListState>, Seq<char>)
    decreases items.len(),
{
    if items.len() == 0 {
        (Seq::empty(), Seq::empty())
    } else {
        let (st, txt) = body_fold(items.drop_last(), styles, numbering, im, ur, op);
        let (st2, t2) = body_step(st, items.last(), styles, numbering, im, ur, op);
        (st2, txt + t2)
    }
}

/// The HTML of a document body: its blocks in order, with list items
/// grouped into nested `ol`/`ul` lists, every list closed at the end.
pub open spec fn body_html(
    body: crate::document::CT_Body,
    styles: crate::styles::CT_Styles,
    numbering: Option<crate::numbering::CT_Numbering>,
    im: Seq<(String, ImageData)>,
    ur: Seq<(String, String)>,
    op: HtmlOptions,
) -> Seq<char> {
    let (st, txt) = body_fold(body.content@, styles, numbering, im, ur, op);
    txt + close_all(st)
}

/// Close the innermost open list.
fn close_list(out: &mut String, stack: &mut Vec<ListState>)
    requires
        old(stack)@.len() > 0,
    ensures
        final(stack)@ == old(stack)@.drop_last(),
        final(out)@ == old(out)@ + close_tag(old(stack)@.last()),
{
    let state = stack.pop().unwrap();
    if state.ordered {
        push_str(out, "</ol>\n");
    } else {
        push_str(out, "</ul>\n");
    }
    proof { assert(stack@ =~= old(stack)@.drop_last()); }
}

/// Close every open list.
fn close_all_lists(out: &mut String, stack: &mut Vec<ListState>)
    ensures
        final(stack)@.len() == 0,
        final(out)@ == old(out)@ + close_all(old(stack)@),
{
    let ghost st0 = stack@;
    let ghost o = out@;
    proof { assert(o + Seq::<char>::empty() =~= o); }
    while stack.len() > 0
        invariant
            o + close_all(st0) == out@ + close_all(stack@),
        decreases stack@.len(),
    {
        let ghost before = out@;
        let ghost s = stack@;
        close_list(out, stack);
        proof { vstd::seq_lib::lemma_concat_associative(before, close_tag(s.last()), close_all(s.drop_last())); }
    }
    proof { assert(out@ + Seq::<char>::empty() =~= out@); }
}

/// Close the lists a list item at `level` leaves.
fn close_deeper_lists(out: &mut String, stack: &mut Vec<ListState>, level: u32)
    ensures
        final(stack)@ == close_deeper(old(stack)@, level).0,
        final(out)@ == old(out)@ + close_deeper(old(stack)@, level).1,
{
    let ghost st0 = stack@;
    let ghost o = out@;
    proof { assert(o + Seq::<char>::empty() =~= o); }
    loop
        invariant
            close_deeper(st0, level).0 == close_deeper(stack@, level).0,
            o + close_deeper(st0, level).1 == out@ + close_deeper(stack@, level).1,
        ensures
            close_deeper(stack@, level).0 == stack@,
            close_deeper(stack@, level).1 == Seq::<char>::empty(),
            close_deeper(st0, level).0 == close_deeper(stack@, level).0,
            o + close_deeper(st0, level).1 == out@ + close_deeper(stack@, level).1,
        decreases stack@.len(),
    {
        let n = stack.len();
        if n == 0 {
            break;
        }
        let top = stack[n - 1];
        if level <= top.level && top.level > 0 {
            let ghost before = out@;
            let ghost s = stack@;
            close_list(out, stack);
            proof { vstd::seq_lib::lemma_concat_associative(before, close_tag(s.last()), close_deeper(s.drop_last(), level).1); }
        } else {
            break;
        }
    }
    proof { assert(out@ + Seq::<char>::empty() =~= out@); }
}

/// Open lists until there is one at `level`.
fn open_list_levels(out: &mut String, stack: &mut Vec<ListState>, ordered: bool, level: u32)
    ensures
        ({
            let k = if old(stack)@.len() <= level { (level + 1 - old(stack)@.len()) as nat } else { 0nat };
            &&& final(stack)@ == open_lists(old(stack)@, ordered, level, k).0
            &&& final(out)@ == old(out)@ + open_lists(old(stack)@, ordered, level, k).1
        }),
{
    let ghost st0 = stack@;
    let ghost o = out@;
    let ghost k0: nat = if st0.len() <= level { (level + 1 - st0.len()) as nat } else { 0nat };
    let depth = stack.len() as u64;
    if depth > level as u64 {
        proof { assert(o + Seq::<char>::empty() =~= o); }
        return;
    }
    let mut remaining: u64 = level as u64 + 1 - depth;
    proof { assert(o + Seq::<char>::empty() =~= o); }
    while remaining > 0
        invariant
            open_lists(st0, ordered, level, k0).0 == open_lists(stack@, ordered, level, remaining as nat).0,
            o + open_lists(st0, ordered, level, k0).1 == out@ + open_lists(stack@, ordered, level, remaining as nat).1,
        decreases remaining,
    {
        let ghost before = out@;
        let ghost s = stack@;
        if ordered {
            push_str(out, "<ol>\n");
        } else {
            push_str(out, "<ul>\n");
        }
        stack.push(ListState { ordered, level });
        proof {
            vstd::seq_lib::lemma_concat_associative(before, open_tag(ordered),
                open_lists(s.push(ListState { ordered, level }), ordered, level, (remaining - 1) as nat).1);
        }
        remaining = remaining - 1;
    }
    proof { assert(out@ + Seq::<char>::empty() =~= out@); }
}

/// The open lists and HTML after a list item at `level`.
pub open spec fn list_item_step(
    st: Seq<ListState>,
    p: crate::text::CT_P,
    ordered: bool,
    level: u32,
    im: Seq<(String, ImageData)>,
    ur: Seq<(String, String)>,
    op: HtmlOptions,
) -> (Seq<ListState>, Seq<char>) {
    let (s1, t1) = close_deeper(st, level);
    let (s2, t2) = if s1.len() > 0 && s1.last().ordered != ordered && s1.last().level == level {
        (s1.drop_last(), close_tag(s1.last()))
    } else {
        (s1, Seq::empty())
    };
    let k = if s2.len() <= level { (level + 1 - s2.len()) as nat } else { 0 };
    let (s3, t3) = open_lists(s2, ordered, level, k);
    (s3, t1 + t2 + t3 + "<li>"@ + para_content_html(p, im, ur, op) + "</li>\n"@)
}

/// Emit a list item, closing and opening lists around it.
#[verifier::spinoff_prover]
fn emit_list_item(
    out: &mut String,
    stack: &mut Vec<ListState>,
    p: &crate::text::CT_P,
    ordered: bool,
    level: u32,
    images: &Vec<(String, ImageData)>,
    hyperlink_urls: &Vec<(String, String)>,
    options: &HtmlOptions,
)
    ensures
        final(stack)@ == list_item_step(old(stack)@, *p, ordered, level, images@, hyperlink_urls@, *options).0,
        final(out)@ == old(out)@ + list_item_step(old(stack)@, *p, ordered, level, images@, hyperlink_urls@, *options).1,
{
    let ghost o = out@;
    let ghost st = stack@;
    close_deeper_lists(out, stack, level);
    let ghost o1 = out@;
    let ghost s1 = stack@;
    let n = stack.len();
    let mismatch = n > 0 && stack[n - 1].ordered != ordered && stack[n - 1].level == level;
    if mismatch {
        close_list(out, stack);
    }
    let ghost o2 = out@;
    proof {
        if !mismatch { assert(o2 =~= o1 + Seq::<char>::empty()); }
    }
    open_list_levels(out, stack, ordered, level);
    push_str(out, "<li>");
    emit_paragraph_content(out, p, images, hyperlink_urls, options);
    push_str(out, "</li>\n");
    proof {
        let step = list_item_step(st, *p, ordered, level, images@, hyperlink_urls@, *options);
        assert(out@ =~= o + step.1);
    }
}

/// Emit one block of the body.
#[verifier::spinoff_prover]
fn emit_block(
    out: &mut String,
    stack: &mut Vec<ListState>,
    content: &crate::document::BodyContent,
    styles: &crate::styles::CT_Styles,
    numbering: Option<&crate::numbering::CT_Numbering>,
    images: &Vec<(String, ImageData)>,
    hyperlink_urls: &Vec<(String, String)>,
    options: &HtmlOptions,
)
    ensures
        ({
            let step = body_step(old(stack)@, *content, *styles, match numbering {
                Some(n) => Some(*n),
                None => None,
            }, images@, hyperlink_urls@, *options);
            &&& final(stack)@ == step.0
            &&& final(out)@ == old(out)@ + step.1
        }),
{
    match content {
        crate::document::BodyContent::Paragraph(p) => {
            let li = detect_list(p, numbering);
            match li {
                Some((ordered, level)) => {
                    emit_list_item(out, stack, p, ordered, level, images, hyperlink_urls, options);
                },
                None => {
                    close_all_lists(out, stack);
                    emit_paragraph(out, p, styles, images, hyperlink_urls, options);
                    proof { assert(stack@ =~= Seq::<ListState>::empty()); }
                },
            }
        },
        crate::document::BodyContent::Table(t) => {
            close_all_lists(out, stack);
            emit_table(out, t, styles, images, hyperlink_urls, options);
            proof { assert(stack@ =~= Seq::<ListState>::empty()); }
        },
        crate::document::BodyContent::RawXml(_) => {
            proof { assert(old(out)@ + Seq::<char>::empty() =~= old(out)@); }
        },
    }
}

/// Emit the full body content as HTML.
pub fn emit_body(
    body: &crate::document::CT_Body,
    styles: &crate::styles::CT_Styles,
    numbering: Option<&crate::numbering::CT_Numbering>,
    images: &Vec<(String, ImageData)>,
    hyperlink_urls: &Vec<(String, String)>,
    options: &HtmlOptions,
) -> (r: String)
    ensures
        r@ == body_html(*body, *styles, match numbering {
            Some(n) => Some(*n),
            None => None,
        }, images@, hyperlink_urls@, *options),
{
    let ghost num = match numbering { Some(n) => Some(*n), None => None };
    let mut out = String::new();
    let mut stack: Vec<ListState> = Vec::new();
    let ghost items = body.content@;
    let mut i: usize = 0;
    proof { assert(items.take(0) =~= Seq::<crate::document::BodyContent>::empty()); assert(stack@ =~= Seq::<ListState>::empty()); }
    while i < body.content.len()
        invariant
            i <= items.len(),
            items == body.content@,
            num == (match numbering { Some(n) => Some(*n), None => None }),
            stack@ == body_fold(items.take(i as int), *styles, num, images@, hyperlink_urls@, *options).0,
            out@ == body_fold(items.take(i as int), *styles, num, images@, hyperlink_urls@, *options).1,
        decreases items.len() - i,
    {
        emit_block(&mut out, &mut stack, &body.content[i], styles, numbering, images, hyperlink_urls, options);
        proof {
            assert(items.take(i + 1).drop_last() =~= items.take(i as int));
            assert(items.take(i + 1).last() == items[i as int]);
        }
        i = i + 1;
    }
    let ghost before = out@;
    close_all_lists(&mut out, &mut stack);
    proof { assert(items.take(i as int) =~= items); }
    out
}

/// Input for HTML conversion. Images and hyperlink URLs are lists of
/// (relationship id, value), each id at most once.
pub struct HtmlInput {
    pub document: crate::document::CT_Document,
    pub styles: crate::styles::CT_Styles,
    pub numbering: Option<crate::numbering::CT_Numbering>,
    /// Images keyed by embed/relationship ID.
    pub images: Vec<(String, ImageData)>,
    /// Hyperlink URLs keyed by relationship ID.
    pub hyperlink_urls: Vec<(String, String)>,
}

/// The HTML fragment of an input: its body.
pub open spec fn fragment_html(input: HtmlInput, options: HtmlOptions) -> Seq<char> {
    body_html(input.document.body, input.styles, input.numbering, input.images@, input.hyperlink_urls@, options)
}

/// A complete HTML document: doctype, head with charset and the base
/// stylesheet, and the fragment as body.
pub open spec fn document_html(input: HtmlInput, options: HtmlOptions) -> Seq<char> {
    "<!DOCTYPE html>\n<html>\n<head>\n<meta charset=\"UTF-8\">\n<style>\n"@ + crate::html_css::base_css()
        + "\n</style>\n</head>\n<body>\n"@ + fragment_html(input, options) + "\n</body>\n</html>"@
}

/// Convert a document to an HTML fragment (body content only).
pub fn to_html_fragment(input: &HtmlInput, options: &HtmlOptions) -> (r: String)
    ensures
        r@ == fragment_html(*input, *options),
{
    emit_body(&input.document.body, &input.styles, input.numbering.as_ref(), &input.images,
        &input.hyperlink_urls, options)
}

/// Convert a document to a complete HTML document string.
pub fn to_html_document(input: &HtmlInput, options: &HtmlOptions) -> (r: String)
    ensures
        r@ == document_html(*input, *options),
{
    let body = to_html_fragment(input, options);
    let css = crate::html_css::generate_base_css();
    let mut out = String::new();
    push_str(&mut out, "<!DOCTYPE html>\n<html>\n<head>\n<meta charset=\"UTF-8\">\n<style>\n");
    push_str(&mut out, css.as_str());
    push_str(&mut out, "\n</style>\n</head>\n<body>\n");
    push_str(&mut out, body.as_str());
    push_str(&mut out, "\n</body>\n</html>");
    proof { assert(out@ =~= document_html(*input, *options)); }
    out
}

} // verus!
