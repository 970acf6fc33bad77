//! Reading paragraphs and runs: text, tabs, breaks, note references and
//! drawings of a run; properties, runs, hyperlinks and simple fields of a
//! paragraph; anything else kept verbatim.

use vstd::prelude::*;

use crate::xml_read::XmlReader;

use crate::chars::{parse_i32, parse_i32_str, str_chars, str_eq, string_from_chars, text_start, trim_chars, trimmed, whitespace, is_whitespace, to_owned_string};
use crate::drawing::CT_Drawing;
use crate::error::OxmlError;
use crate::properties::{CT_PPr, CT_RPr};
use crate::properties_read::last_attr_value;
use crate::text::{BreakType, FieldType, HyperlinkSpan, RunContent, CT_P, CT_R, CT_Text};
use crate::drawing::drawing_read::{drawing_read, resumes_at};
use crate::properties::{ppr_none, rpr_none};
use crate::properties_read::{cap_start, ends_at, flat_cap_run, lemma_flat_cap_empty, lemma_flat_cap_start, ppr_run, rpr_run, ReadOutcome};
use crate::xml_read::{budget_for, xml_skip_to, xml_text_to, xml_unread};
use crate::xml_read::{
    capture_element, capture_empty_element, empty_raw, event_budget, first_attr, get_attr, last_attr, local_is,
    name_is, opt_view, read_event, read_text_to, skip_to_end, unescape_text, unread_len, xml_unescaped, ReadEvent,
    Tag,
};

verus! {

/// The kind of break a `w:br` tag asks for: its first attribute named
/// `type` in any namespace, `page` or `column`; a line break otherwise.
pub open spec fn break_kind(t: Tag) -> BreakType {
    match first_attr(t.attrs@, "type"@) {
        Some(v) => if v == "page"@ {
            BreakType::Page
        } else if v == "column"@ {
            BreakType::Column
        } else {
            BreakType::Line
        },
        None => BreakType::Line,
    }
}

/// The note a reference tag points to: its first attribute named `id` in
/// any namespace as a number, 0 when missing or not a number.
pub open spec fn note_id(t: Tag) -> i32 {
    match first_attr(t.attrs@, "id"@) {
        Some(v) => match parse_i32(v) {
            Some(n) => n,
            None => 0,
        },
        None => 0,
    }
}

/// What an empty tag inside a run adds: a tab, a break, or a footnote or
/// endnote reference; nothing for any other tag.
pub open spec fn run_empty_item(t: Tag) -> Option<RunContent> {
    let nm = t.name@;
    if local_is(nm, "tab"@) {
        Some(RunContent::Tab)
    } else if local_is(nm, "br"@) {
        Some(RunContent::Break(break_kind(t)))
    } else if local_is(nm, "footnoteReference"@) {
        Some(RunContent::FootnoteRef { id: note_id(t) })
    } else if local_is(nm, "endnoteReference"@) {
        Some(RunContent::EndnoteRef { id: note_id(t) })
    } else {
        None
    }
}

/// The break kind of a `w:br` tag.
fn break_kind_of(t: &Tag) -> (r: BreakType)
    ensures
        r == break_kind(*t),
{
    match get_attr(&t.attrs, "type") {
        Some(v) => if str_eq(v.as_str(), "page") {
            BreakType::Page
        } else if str_eq(v.as_str(), "column") {
            BreakType::Column
        } else {
            BreakType::Line
        },
        None => BreakType::Line,
    }
}

/// The note id of a reference tag.
pub fn note_id_of(t: &Tag) -> (r: i32)
    ensures
        r == note_id(*t),
{
    match get_attr(&t.attrs, "id") {
        Some(v) => match parse_i32_str(v.as_str()) {
            Some(n) => n,
            None => 0,
        },
        None => 0,
    }
}

/// What an empty tag inside a run adds.
pub fn run_empty_content(t: &Tag) -> (r: Option<RunContent>)
    ensures
        r == run_empty_item(*t),
{
    let nm = t.name.as_str();
    if name_is(nm, "tab") {
        Some(RunContent::Tab)
    } else if name_is(nm, "br") {
        Some(RunContent::Break(break_kind_of(t)))
    } else if name_is(nm, "footnoteReference") {
        Some(RunContent::FootnoteRef { id: note_id_of(t) })
    } else if name_is(nm, "endnoteReference") {
        Some(RunContent::EndnoteRef { id: note_id_of(t) })
    } else {
        None
    }
}

/// Whether some attribute is exactly `xml:space="preserve"`.
pub open spec fn keeps_space(attrs: Seq<(String, String)>) -> bool {
    exists|i: int| 0 <= i < attrs.len() && #[trigger] attrs[i].0@ == "xml:space"@ && attrs[i].1@ == "preserve"@
}

/// Whether a `w:t` tag keeps its spaces.
pub fn preserves_space(t: &Tag) -> (r: bool)
    ensures
        r == keeps_space(t.attrs@),
{
    let mut i: usize = 0;
    while i < t.attrs.len()
        invariant
            i <= t.attrs@.len(),
            forall|k: int| 0 <= k < i ==> !(#[trigger] t.attrs@[k].0@ == "xml:space"@ && t.attrs@[k].1@ == "preserve"@),
        decreases t.attrs@.len() - i,
    {
        if str_eq(t.attrs[i].0.as_str(), "xml:space") && str_eq(t.attrs[i].1.as_str(), "preserve") {
            return true;
        }
        i = i + 1;
    }
    false
}

/// The text of a run's `w:t` from its raw content: the entities resolved,
/// or the raw content where they cannot be.
pub open spec fn run_text_of(raw: Seq<char>) -> Seq<char> {
    match xml_unescaped(raw) {
        Some(u) => u,
        None => raw,
    }
}

/// The text of a run's `w:t` from its raw content.
pub fn text_from_raw(raw: &str) -> (r: String)
    ensures
        r@ == run_text_of(raw@),
{
    match unescape_text(raw) {
        Some(u) => u,
        None => to_owned_string(raw),
    }
}

/// A run before anything is read into it.
pub open spec fn run_blank(o: CT_R) -> bool {
    o.properties is None && o.content@.len() == 0 && o.extra_xml@.len() == 0
}

/// A run with the content item `c` added after the others.
pub open spec fn content_added(o: CT_R, m: CT_R, c: RunContent) -> bool {
    m == (CT_R { content: m.content, ..o }) && m.content@ == o.content@.push(c)
}

/// A run with a text item added after the others, holding `txt` and
/// keeping its spaces where `keep` says.
pub open spec fn text_added(o: CT_R, m: CT_R, txt: Seq<char>, keep: bool) -> bool {
    &&& m == (CT_R { content: m.content, ..o })
    &&& m.content@.len() == o.content@.len() + 1
    &&& m.content@.drop_last() == o.content@
    &&& m.content@.last() matches RunContent::Text(ct) && ct.text@ == txt && ct.preserve_space == keep
}

/// Reading a run never fails on an empty tag.
pub open spec fn run_fails() -> spec_fn(CT_R, Tag) -> bool {
    |o: CT_R, t: Tag| false
}

/// What an empty tag does to a run: adds what `run_empty_item` says, if
/// anything.
pub open spec fn run_step() -> spec_fn(CT_R, CT_R, Tag) -> bool {
    |o: CT_R, m: CT_R, t: Tag|
        match run_empty_item(t) {
            Some(c) => content_added(o, m, c),
            None => m == o,
        }
}

/// A run with one more element kept verbatim.
pub open spec fn run_keep() -> spec_fn(CT_R, CT_R, Seq<u8>) -> bool {
    |o: CT_R, m: CT_R, b: Seq<u8>|
        {
            &&& m == (CT_R { extra_xml: m.extra_xml, ..o })
            &&& m.extra_xml@.len() == o.extra_xml@.len() + 1
            &&& m.extra_xml@.drop_last() == o.extra_xml@
            &&& m.extra_xml@.last()@ == b
        }
}

/// What a child element of a run does, read from call `p` on: run
/// properties are read by their reader and replace any before; a `t`
/// element adds its text up to its end tag with the entities resolved
/// (`run_text_of`), or empty text where that read fails, the reading going
/// on wherever the reader then stands; a drawing is read by its reader and
/// added; any other element is kept verbatim.
pub open spec fn run_start(x: Seq<u8>, tr: bool) -> spec_fn(CT_R, Tag, nat, Result<CT_R, OxmlError>, nat) -> bool {
    |o: CT_R, t: Tag, p: nat, m: Result<CT_R, OxmlError>, q: nat|
        if local_is(t.name@, "rPr"@) {
            exists|rb: Result<CT_RPr, OxmlError>, f: nat|
                #[trigger] rpr_run(x, tr, p, rpr_none(), budget_for(xml_unread(x, tr, p)), (rb, q, f)) && match rb {
                    Ok(b) => m == Ok::<CT_R, OxmlError>(CT_R { properties: Some(b), ..o }),
                    Err(e) => m == Err::<CT_R, OxmlError>(e),
                }
        } else if local_is(t.name@, "t"@) {
            m matches Ok(s2) && match xml_text_to(x, tr, p, t.name@) {
                Some((raw, q2)) => q == q2 && text_added(o, s2, run_text_of(raw), keeps_space(t.attrs@)),
                None => resumes_at(q) && text_added(o, s2, Seq::empty(), keeps_space(t.attrs@)),
            }
        } else if local_is(t.name@, "drawing"@) {
            exists|rd: Result<CT_Drawing, OxmlError>, f: nat|
                #[trigger] drawing_read(x, tr, p, (rd, q, f)) && match rd {
                    Ok(d) => m matches Ok(s2) && content_added(o, s2, RunContent::Drawing(d)),
                    Err(e) => m == Err::<CT_R, OxmlError>(e),
                }
        } else {
            cap_start(x, tr, run_keep())(o, t, p, m, q)
        }
}

/// Reading the inside of a run from call `n` on of a reader over `x`, over
/// what `o` holds and with `f` events left, ends in `res`.
pub open spec fn run_run(x: Seq<u8>, tr: bool, n: nat, o: CT_R, f: nat, res: ReadOutcome<CT_R>) -> bool {
    flat_cap_run(x, tr, n, ends_at("r"@), run_fails(), run_step(), run_start(x, tr), o, f, res)
}

/// Reading a run from call `n` on, from an empty run, with the budget for
/// what is left unread, ends in `res`.
pub open spec fn run_read(x: Seq<u8>, tr: bool, n: nat, res: ReadOutcome<CT_R>) -> bool {
    exists|o: CT_R| #[trigger] run_blank(o) && run_run(x, tr, n, o, budget_for(xml_unread(x, tr, n)), res)
}

/// A reading from an empty run with the full budget is a run read.
proof fn lemma_run_read(x: Seq<u8>, tr: bool, n: nat, o: CT_R, res: ReadOutcome<CT_R>)
    requires
        run_blank(o),
        run_run(x, tr, n, o, budget_for(xml_unread(x, tr, n)), res),
    ensures
        run_read(x, tr, n, res),
{
}

/// Read one empty tag into a run.
fn read_run_empty(run: &mut CT_R, t: &Tag) -> (r: Result<(), OxmlError>)
    ensures
        r is Ok,
        run_step()(*old(run), *final(run), *t),
{
    if let Some(c) = run_empty_content(t) {
        run.content.push(c);
    }
    Ok(())
}

impl CT_R {
    /// Read a run from the events after `<w:r>` up to its end (or the end of
    /// input): run properties, text (its raw content with entities
    /// resolved, empty where it cannot be read), drawings, and the empty
    /// tags `run_empty_content` knows; any other element is kept verbatim.
    pub fn from_xml(reader: &mut XmlReader) -> (r: Result<Self, OxmlError>)
        ensures
            final(reader).same_input(old(reader)),
            exists|f: nat|
                #[trigger] run_read(old(reader).input(), old(reader).trims(), old(reader).count(),
                    (r, final(reader).count(), f)),
    {
        let ghost x = reader.input();
        let ghost tr = reader.trims();
        let ghost n0 = reader.count();
        let mut run = CT_R { properties: None, content: Vec::new(), extra_xml: Vec::new() };
        let ghost o0 = run;
        let budget = event_budget(unread_len(reader));
        let mut fuel = budget;
        while fuel > 0
            invariant
                fuel <= budget,
                budget as nat == budget_for(xml_unread(x, tr, n0)),
                reader.input() == x,
                reader.trims() == tr,
                x == old(reader).input(),
                tr == old(reader).trims(),
                n0 == old(reader).count(),
                run_blank(o0),
                forall|res: ReadOutcome<CT_R>|
                    #[trigger] flat_cap_run(x, tr, reader.count(), ends_at("r"@), run_fails(), run_step(), run_start(x, tr), run, fuel as nat, res)
                        ==> run_run(x, tr, n0, o0, budget as nat, res),
            decreases fuel,
        {
            let ghost n = reader.count();
            let ghost o = run;
            let ghost f1 = fuel as nat;
            fuel = fuel - 1;
            match read_event(reader) {
                Ok(ReadEvent::Empty(t)) => {
                    if let Err(e) = read_run_empty(&mut run, &t) {
                        proof {
                            let res = (Err::<CT_R, OxmlError>(e), reader.count(), fuel as nat);
                            assert(flat_cap_run(x, tr, n, ends_at("r"@), run_fails(), run_step(), run_start(x, tr), o, f1, res));
                            assert(run_run(x, tr, n0, o0, budget as nat, res));
                            lemma_run_read(x, tr, n0, o0, res);
                        }
                        return Err(e);
                    }
                    proof {
                        assert(run_step()(o, run, t));
                        assert forall|res: ReadOutcome<CT_R>|
                            #[trigger] flat_cap_run(x, tr, reader.count(), ends_at("r"@), run_fails(), run_step(), run_start(x, tr), run, fuel as nat, res)
                            implies flat_cap_run(x, tr, n, ends_at("r"@), run_fails(), run_step(), run_start(x, tr), o, f1, res) by {
                            lemma_flat_cap_empty(x, tr, n, ends_at("r"@), run_fails(), run_step(), run_start(x, tr), o, run, f1, t, res);
                        }
                    }
                },
                Ok(ReadEvent::Start(t)) => {
                    let nm = t.name.as_str();
                    if name_is(nm, "rPr") {
                        match CT_RPr::from_xml(reader) {
                            Ok(b) => {
                                run.properties = Some(b);
                        proof {
                            let q = reader.count();
                            assert(run_start(x, tr)(o, t, n + 1, Ok::<CT_R, OxmlError>(run), q));
                            assert forall|res: ReadOutcome<CT_R>|
                                #[trigger] flat_cap_run(x, tr, reader.count(), ends_at("r"@), run_fails(), run_step(), run_start(x, tr), run, fuel as nat, res)
                                implies flat_cap_run(x, tr, n, ends_at("r"@), run_fails(), run_step(), run_start(x, tr), o, f1, res) by {
                                lemma_flat_cap_start(x, tr, n, ends_at("r"@), run_fails(), run_step(), run_start(x, tr), o, f1, t, Ok::<CT_R, OxmlError>(run), q, res);
                            }
                        }
                            },
                            Err(e) => {
                            proof {
                                let q = reader.count();
                                let res = (Err::<CT_R, OxmlError>(e), q, fuel as nat);
                                assert(run_start(x, tr)(o, t, n + 1, Err::<CT_R, OxmlError>(e), q));
                                lemma_flat_cap_start(x, tr, n, ends_at("r"@), run_fails(), run_step(), run_start(x, tr), o, f1, t, Err::<CT_R, OxmlError>(e), q, res);
                            assert(run_run(x, tr, n0, o0, budget as nat, res));
                            lemma_run_read(x, tr, n0, o0, res);
                            }
                            return Err(e);
                            },
                        }
                    } else if name_is(nm, "t") {
                        let preserve = preserves_space(&t);
                        let text = match read_text_to(reader, nm) {
                            Ok(raw) => text_from_raw(raw.as_str()),
                            Err(_) => String::new(),
                        };
                        run.content.push(RunContent::Text(CT_Text { text, preserve_space: preserve }));
                        proof { assert(run.content@.drop_last() =~= o.content@); }
                        proof {
                            let q = reader.count();
                            assert(run_start(x, tr)(o, t, n + 1, Ok::<CT_R, OxmlError>(run), q));
                            assert forall|res: ReadOutcome<CT_R>|
                                #[trigger] flat_cap_run(x, tr, reader.count(), ends_at("r"@), run_fails(), run_step(), run_start(x, tr), run, fuel as nat, res)
                                implies flat_cap_run(x, tr, n, ends_at("r"@), run_fails(), run_step(), run_start(x, tr), o, f1, res) by {
                                lemma_flat_cap_start(x, tr, n, ends_at("r"@), run_fails(), run_step(), run_start(x, tr), o, f1, t, Ok::<CT_R, OxmlError>(run), q, res);
                            }
                        }
                    } else if name_is(nm, "drawing") {
                        match CT_Drawing::from_xml(reader) {
                            Ok(d) => {
                                run.content.push(RunContent::Drawing(d));
                        proof {
                            let q = reader.count();
                            assert(run_start(x, tr)(o, t, n + 1, Ok::<CT_R, OxmlError>(run), q));
                            assert forall|res: ReadOutcome<CT_R>|
                                #[trigger] flat_cap_run(x, tr, reader.count(), ends_at("r"@), run_fails(), run_step(), run_start(x, tr), run, fuel as nat, res)
                                implies flat_cap_run(x, tr, n, ends_at("r"@), run_fails(), run_step(), run_start(x, tr), o, f1, res) by {
                                lemma_flat_cap_start(x, tr, n, ends_at("r"@), run_fails(), run_step(), run_start(x, tr), o, f1, t, Ok::<CT_R, OxmlError>(run), q, res);
                            }
                        }
                            },
                            Err(e) => {
                            proof {
                                let q = reader.count();
                                let res = (Err::<CT_R, OxmlError>(e), q, fuel as nat);
                                assert(run_start(x, tr)(o, t, n + 1, Err::<CT_R, OxmlError>(e), q));
                                lemma_flat_cap_start(x, tr, n, ends_at("r"@), run_fails(), run_step(), run_start(x, tr), o, f1, t, Err::<CT_R, OxmlError>(e), q, res);
                            assert(run_run(x, tr, n0, o0, budget as nat, res));
                            lemma_run_read(x, tr, n0, o0, res);
                            }
                            return Err(e);
                            },
                        }
                    } else {
                        let raw = match capture_element(reader, &t) {
                            Ok(b) => b,
                            Err(e) => {
                            proof {
                                let q = reader.count();
                                let res = (Err::<CT_R, OxmlError>(e), q, fuel as nat);
                                assert(run_start(x, tr)(o, t, n + 1, Err::<CT_R, OxmlError>(e), q));
                                lemma_flat_cap_start(x, tr, n, ends_at("r"@), run_fails(), run_step(), run_start(x, tr), o, f1, t, Err::<CT_R, OxmlError>(e), q, res);
                            assert(run_run(x, tr, n0, o0, budget as nat, res));
                            lemma_run_read(x, tr, n0, o0, res);
                            }
                            return Err(e);
                            },
                        };
                        let ghost bb = raw@;
                        run.extra_xml.push(raw);
                        proof {
                            assert(run.extra_xml@.drop_last() =~= o.extra_xml@);
                            assert(run_keep()(o, run, bb));
                        }
                        proof {
                            let q = reader.count();
                            assert(run_start(x, tr)(o, t, n + 1, Ok::<CT_R, OxmlError>(run), q));
                            assert forall|res: ReadOutcome<CT_R>|
                                #[trigger] flat_cap_run(x, tr, reader.count(), ends_at("r"@), run_fails(), run_step(), run_start(x, tr), run, fuel as nat, res)
                                implies flat_cap_run(x, tr, n, ends_at("r"@), run_fails(), run_step(), run_start(x, tr), o, f1, res) by {
                                lemma_flat_cap_start(x, tr, n, ends_at("r"@), run_fails(), run_step(), run_start(x, tr), o, f1, t, Ok::<CT_R, OxmlError>(run), q, res);
                            }
                        }
                    }
                },
                Ok(ReadEvent::End(nm)) => {
                    if name_is(nm.as_str(), "r") {
                        proof {
                            assert(flat_cap_run(x, tr, n, ends_at("r"@), run_fails(), run_step(), run_start(x, tr), o, f1, (Ok::<CT_R, OxmlError>(run), reader.count(), fuel as nat)));
                            assert(run_run(x, tr, n0, o0, budget as nat, (Ok::<CT_R, OxmlError>(run), reader.count(), fuel as nat)));
                            lemma_run_read(x, tr, n0, o0, (Ok::<CT_R, OxmlError>(run), reader.count(), fuel as nat));
                        }
                        return Ok(run);
                    }
                    proof {
                        assert forall|res: ReadOutcome<CT_R>|
                            #[trigger] flat_cap_run(x, tr, reader.count(), ends_at("r"@), run_fails(), run_step(), run_start(x, tr), run, fuel as nat, res)
                            implies flat_cap_run(x, tr, n, ends_at("r"@), run_fails(), run_step(), run_start(x, tr), o, f1, res) by {}
                    }
                },
                Ok(ReadEvent::Eof) => {
                    proof {
                        assert(flat_cap_run(x, tr, n, ends_at("r"@), run_fails(), run_step(), run_start(x, tr), o, f1, (Ok::<CT_R, OxmlError>(run), reader.count(), fuel as nat)));
                            assert(run_run(x, tr, n0, o0, budget as nat, (Ok::<CT_R, OxmlError>(run), reader.count(), fuel as nat)));
                            lemma_run_read(x, tr, n0, o0, (Ok::<CT_R, OxmlError>(run), reader.count(), fuel as nat));
                    }
                    return Ok(run);
                },
                Ok(_) => {
                    proof {
                        assert forall|res: ReadOutcome<CT_R>|
                            #[trigger] flat_cap_run(x, tr, reader.count(), ends_at("r"@), run_fails(), run_step(), run_start(x, tr), run, fuel as nat, res)
                            implies flat_cap_run(x, tr, n, ends_at("r"@), run_fails(), run_step(), run_start(x, tr), o, f1, res) by {}
                    }
                },
                Err(e) => {
                    proof {
                        let res = (Err::<CT_R, OxmlError>(e), reader.count(), fuel as nat);
                        assert(flat_cap_run(x, tr, n, ends_at("r"@), run_fails(), run_step(), run_start(x, tr), o, f1, res));
                            assert(run_run(x, tr, n0, o0, budget as nat, res));
                            lemma_run_read(x, tr, n0, o0, res);
                    }
                    return Err(e);
                },
            }
        }
        proof {
            assert(flat_cap_run(x, tr, reader.count(), ends_at("r"@), run_fails(), run_step(), run_start(x, tr), run, 0nat, (Ok::<CT_R, OxmlError>(run), reader.count(), 0nat)));
                            assert(run_run(x, tr, n0, o0, budget as nat, (Ok::<CT_R, OxmlError>(run), reader.count(), 0nat)));
                            lemma_run_read(x, tr, n0, o0, (Ok::<CT_R, OxmlError>(run), reader.count(), 0nat));
        }
        Ok(run)
    }
}

/// What `str::to_uppercase` gives for `s`.
pub uninterp spec fn uppercased(s: Seq<char>) -> Seq<char>;

/// `str::to_uppercase`: each character's Unicode uppercase mapping; its
/// value is named, not stated.
#[verifier::external_body]
fn to_uppercase(s: &str) -> (r: String)
    ensures
        r@ == uppercased(s@),
{
    s.to_uppercase()
}

/// The end of the word starting at `k`: the first whitespace at or after
/// it, or the end.
pub open spec fn word_end(s: Seq<char>, k: int) -> int
    decreases s.len() - k,
{
    if k < 0 || k >= s.len() || whitespace(s[k]) {
        k
    } else {
        word_end(s, k + 1)
    }
}

/// The first whitespace-separated word of `s`, empty if there is none.
pub open spec fn first_word(s: Seq<char>) -> Seq<char> {
    let a = text_start(s, 0);
    let b = word_end(s, a);
    if 0 <= a < b <= s.len() {
        s.subrange(a, b)
    } else {
        Seq::empty()
    }
}

/// The keyword of a field instruction: the first word of the trimmed
/// instruction in uppercase.
pub open spec fn field_keyword(instr: Seq<char>) -> Seq<char> {
    first_word(uppercased(trimmed(instr)))
}

/// The first word of `s`.
fn first_word_of(s: &str) -> (r: Vec<char>)
    ensures
        r@ == first_word(s@),
{
    let cs = str_chars(s);
    let n = cs.len();
    let mut a: usize = 0;
    while a < n && is_whitespace(cs[a])
        invariant
            a <= n,
            n == cs@.len(),
            cs@ == s@,
            text_start(s@, a as int) == text_start(s@, 0),
        decreases n - a,
    {
        a = a + 1;
    }
    let mut b: usize = a;
    let mut w: Vec<char> = Vec::new();
    while b < n && !is_whitespace(cs[b])
        invariant
            a <= b <= n,
            n == cs@.len(),
            cs@ == s@,
            word_end(s@, b as int) == word_end(s@, a as int),
            w@ == s@.subrange(a as int, b as int),
        decreases n - b,
    {
        w.push(cs[b]);
        proof { assert(w@ =~= s@.subrange(a as int, b + 1)); }
        b = b + 1;
    }
    proof {
        if !(a < b) {
            assert(w@ =~= Seq::<char>::empty());
        }
    }
    w
}

/// The field a simple field's instruction names: `PAGE` and `NUMPAGES` by
/// its keyword, any other as the trimmed instruction.
pub fn parse_field_instruction(instr: &str) -> (r: FieldType)
    ensures
        match r {
            FieldType::Page => field_keyword(instr@) == "PAGE"@,
            FieldType::NumPages => field_keyword(instr@) == "NUMPAGES"@,
            FieldType::Other(s) => field_keyword(instr@) != "PAGE"@ && field_keyword(instr@) != "NUMPAGES"@ && s@
                == trimmed(instr@),
        },
{
    let cs = str_chars(instr);
    let t = trim_chars(cs.as_slice());
    let ts = string_from_chars(t.as_slice());
    let up = to_uppercase(ts.as_str());
    let w = first_word_of(up.as_str());
    let page = str_chars("PAGE");
    let numpages = str_chars("NUMPAGES");
    if crate::chars::chars_eq(w.as_slice(), page.as_slice()) {
        FieldType::Page
    } else if crate::chars::chars_eq(w.as_slice(), numpages.as_slice()) {
        FieldType::NumPages
    } else {
        FieldType::Other(ts)
    }
}

/// The target of a hyperlink tag: its last `id` and `anchor` attributes in
/// any namespace.
pub fn hyperlink_target(t: &Tag) -> (r: (Option<String>, Option<String>))
    ensures
        opt_view(r.0) == last_attr(t.attrs@, "id"@, None),
        opt_view(r.1) == last_attr(t.attrs@, "anchor"@, None),
{
    (last_attr_value(&t.attrs, "id", None), last_attr_value(&t.attrs, "anchor", None))
}

/// The span a hyperlink over the runs `start..end` records: one when it
/// covers a run and has a relationship id or an anchor.
pub fn hyperlink_span(rel_id: Option<String>, anchor: Option<String>, start: usize, end: usize) -> (r: Option<HyperlinkSpan>)
    ensures
        r is Some <==> start < end && (rel_id is Some || anchor is Some),
        r matches Some(s) ==> s.rel_id == rel_id && s.anchor == anchor && s.run_start == start && s.run_end == end,
{
    if start < end && (rel_id.is_some() || anchor.is_some()) {
        Some(HyperlinkSpan { rel_id, anchor, run_start: start, run_end: end })
    } else {
        None
    }
}

/// The instruction of a simple field tag: its last `instr` attribute in any
/// namespace, empty when missing.
pub fn field_instr_of(t: &Tag) -> (r: String)
    ensures
        Some(r@) == last_attr(t.attrs@, "instr"@, Some(Seq::<char>::empty())),
{
    let e = String::new();
    proof { lemma_last_attr_some(t.attrs@, "instr"@, e@); }
    match last_attr_value(&t.attrs, "instr", Some(e)) {
        Some(v) => v,
        None => String::new(),
    }
}

/// A last-attribute lookup with a value to fall back on always has one.
proof fn lemma_last_attr_some(attrs: Seq<(String, String)>, local: Seq<char>, d: Seq<char>)
    ensures
        last_attr(attrs, local, Some(d)) is Some,
    decreases attrs.len(),
{
    if attrs.len() > 0 {
        lemma_last_attr_some(attrs.drop_last(), local, d);
    }
}

/// The run standing for a simple field: no properties, the field only.
pub fn field_run(field_type: FieldType) -> (r: CT_R)
    ensures
        r.properties is None,
        r.content@ == seq![RunContent::Field { field_type }],
        r.extra_xml@.len() == 0,
{
    let mut content: Vec<RunContent> = Vec::new();
    content.push(RunContent::Field { field_type });
    proof { assert(content@ =~= seq![RunContent::Field { field_type }]); }
    CT_R { properties: None, content, extra_xml: Vec::new() }
}

/// Read the runs of a hyperlink into the paragraph `para` from the events
/// after its start tag up to its end (or the end of input); other elements
/// inside it are skipped.
fn read_hyperlink_runs(reader: &mut XmlReader, start: CT_P) -> (r: Result<CT_P, OxmlError>)
    ensures
        final(reader).same_input(old(reader)),
        exists|f: nat|
            #[trigger] link_read(old(reader).input(), old(reader).trims(), old(reader).count(), start,
                (r, final(reader).count(), f)),
        r matches Ok(p2) ==> p2.properties == start.properties && p2.hyperlinks == start.hyperlinks && p2.extra_xml
            == start.extra_xml && p2.runs@.len() >= start.runs@.len(),
{
    let ghost x = reader.input();
    let ghost tr = reader.trims();
    let ghost n0 = reader.count();
    let ghost o0 = start;
    let mut para = start;
    let budget = event_budget(unread_len(reader));
    let mut fuel = budget;
    while fuel > 0
        invariant
            fuel <= budget,
            budget as nat == budget_for(xml_unread(x, tr, n0)),
            reader.input() == x,
            reader.trims() == tr,
            x == old(reader).input(),
            tr == old(reader).trims(),
            n0 == old(reader).count(),
            o0 == start,
            para.properties == o0.properties,
            para.hyperlinks == o0.hyperlinks,
            para.extra_xml == o0.extra_xml,
            para.runs@.len() >= o0.runs@.len(),
            forall|res: ReadOutcome<CT_P>|
                #[trigger] flat_cap_run(x, tr, reader.count(), ends_at("hyperlink"@), link_fails(), link_step(), link_start(x, tr), para, fuel as nat, res)
                    ==> flat_cap_run(x, tr, n0, ends_at("hyperlink"@), link_fails(), link_step(), link_start(x, tr), o0, budget as nat, res),
        decreases fuel,
    {
        let ghost n = reader.count();
        let ghost o = para;
        let ghost f1 = fuel as nat;
        fuel = fuel - 1;
        match read_event(reader) {
            Ok(ReadEvent::Empty(t)) => {
                if let Err(e) = read_link_empty(&mut para, &t) {
                    proof {
                        let res = (Err::<CT_P, OxmlError>(e), reader.count(), fuel as nat);
                        assert(flat_cap_run(x, tr, n, ends_at("hyperlink"@), link_fails(), link_step(), link_start(x, tr), o, f1, res));
                        assert(flat_cap_run(x, tr, n0, ends_at("hyperlink"@), link_fails(), link_step(), link_start(x, tr), o0, budget as nat, res));
                        assert(link_read(x, tr, n0, o0, res));
                    }
                    return Err(e);
                }
                proof {
                    assert(link_step()(o, para, t));
                    assert forall|res: ReadOutcome<CT_P>|
                        #[trigger] flat_cap_run(x, tr, reader.count(), ends_at("hyperlink"@), link_fails(), link_step(), link_start(x, tr), para, fuel as nat, res)
                        implies flat_cap_run(x, tr, n, ends_at("hyperlink"@), link_fails(), link_step(), link_start(x, tr), o, f1, res) by {
                        lemma_flat_cap_empty(x, tr, n, ends_at("hyperlink"@), link_fails(), link_step(), link_start(x, tr), o, para, f1, t, res);
                    }
                }
            },
            Ok(ReadEvent::Start(t)) => {
                if name_is(t.name.as_str(), "r") {
                    match CT_R::from_xml(reader) {
                        Ok(run) => {
                            para.runs.push(run);
                    proof {
                        let q = reader.count();
                        assert(link_start(x, tr)(o, t, n + 1, Ok::<CT_P, OxmlError>(para), q));
                        assert forall|res: ReadOutcome<CT_P>|
                            #[trigger] flat_cap_run(x, tr, reader.count(), ends_at("hyperlink"@), link_fails(), link_step(), link_start(x, tr), para, fuel as nat, res)
                            implies flat_cap_run(x, tr, n, ends_at("hyperlink"@), link_fails(), link_step(), link_start(x, tr), o, f1, res) by {
                            lemma_flat_cap_start(x, tr, n, ends_at("hyperlink"@), link_fails(), link_step(), link_start(x, tr), o, f1, t, Ok::<CT_P, OxmlError>(para), q, res);
                        }
                    }
                        },
                        Err(e) => {
                        proof {
                            let q = reader.count();
                            let res = (Err::<CT_P, OxmlError>(e), q, fuel as nat);
                            assert(link_start(x, tr)(o, t, n + 1, Err::<CT_P, OxmlError>(e), q));
                            lemma_flat_cap_start(x, tr, n, ends_at("hyperlink"@), link_fails(), link_step(), link_start(x, tr), o, f1, t, Err::<CT_P, OxmlError>(e), q, res);
                        assert(flat_cap_run(x, tr, n0, ends_at("hyperlink"@), link_fails(), link_step(), link_start(x, tr), o0, budget as nat, res));
                        assert(link_read(x, tr, n0, o0, res));
                        }
                        return Err(e);
                        },
                    }
                } else {
                    match skip_to_end(reader, t.name.as_str()) {
                        Ok(_) => {
                    proof {
                        let q = reader.count();
                        assert(link_start(x, tr)(o, t, n + 1, Ok::<CT_P, OxmlError>(para), q));
                        assert forall|res: ReadOutcome<CT_P>|
                            #[trigger] flat_cap_run(x, tr, reader.count(), ends_at("hyperlink"@), link_fails(), link_step(), link_start(x, tr), para, fuel as nat, res)
                            implies flat_cap_run(x, tr, n, ends_at("hyperlink"@), link_fails(), link_step(), link_start(x, tr), o, f1, res) by {
                            lemma_flat_cap_start(x, tr, n, ends_at("hyperlink"@), link_fails(), link_step(), link_start(x, tr), o, f1, t, Ok::<CT_P, OxmlError>(para), q, res);
                        }
                    }
                        },
                        Err(e) => {
                        proof {
                            let q = reader.count();
                            let res = (Err::<CT_P, OxmlError>(e), q, fuel as nat);
                            assert(link_start(x, tr)(o, t, n + 1, Err::<CT_P, OxmlError>(e), q));
                            lemma_flat_cap_start(x, tr, n, ends_at("hyperlink"@), link_fails(), link_step(), link_start(x, tr), o, f1, t, Err::<CT_P, OxmlError>(e), q, res);
                        assert(flat_cap_run(x, tr, n0, ends_at("hyperlink"@), link_fails(), link_step(), link_start(x, tr), o0, budget as nat, res));
                        assert(link_read(x, tr, n0, o0, res));
                        }
                        return Err(e);
                        },
                    }
                }
            },
            Ok(ReadEvent::End(nm)) => {
                if name_is(nm.as_str(), "hyperlink") {
                    proof {
                        assert(flat_cap_run(x, tr, n, ends_at("hyperlink"@), link_fails(), link_step(), link_start(x, tr), o, f1, (Ok::<CT_P, OxmlError>(para), reader.count(), fuel as nat)));
                        assert(flat_cap_run(x, tr, n0, ends_at("hyperlink"@), link_fails(), link_step(), link_start(x, tr), o0, budget as nat, (Ok::<CT_P, OxmlError>(para), reader.count(), fuel as nat)));
                        assert(link_read(x, tr, n0, o0, (Ok::<CT_P, OxmlError>(para), reader.count(), fuel as nat)));
                    }
                    return Ok(para);
                }
                proof {
                    assert forall|res: ReadOutcome<CT_P>|
                        #[trigger] flat_cap_run(x, tr, reader.count(), ends_at("hyperlink"@), link_fails(), link_step(), link_start(x, tr), para, fuel as nat, res)
                        implies flat_cap_run(x, tr, n, ends_at("hyperlink"@), link_fails(), link_step(), link_start(x, tr), o, f1, res) by {}
                }
            },
            Ok(ReadEvent::Eof) => {
                proof {
                    assert(flat_cap_run(x, tr, n, ends_at("hyperlink"@), link_fails(), link_step(), link_start(x, tr), o, f1, (Ok::<CT_P, OxmlError>(para), reader.count(), fuel as nat)));
                        assert(flat_cap_run(x, tr, n0, ends_at("hyperlink"@), link_fails(), link_step(), link_start(x, tr), o0, budget as nat, (Ok::<CT_P, OxmlError>(para), reader.count(), fuel as nat)));
                        assert(link_read(x, tr, n0, o0, (Ok::<CT_P, OxmlError>(para), reader.count(), fuel as nat)));
                }
                return Ok(para);
            },
            Ok(_) => {
                proof {
                    assert forall|res: ReadOutcome<CT_P>|
                        #[trigger] flat_cap_run(x, tr, reader.count(), ends_at("hyperlink"@), link_fails(), link_step(), link_start(x, tr), para, fuel as nat, res)
                        implies flat_cap_run(x, tr, n, ends_at("hyperlink"@), link_fails(), link_step(), link_start(x, tr), o, f1, res) by {}
                }
            },
            Err(e) => {
                proof {
                    let res = (Err::<CT_P, OxmlError>(e), reader.count(), fuel as nat);
                    assert(flat_cap_run(x, tr, n, ends_at("hyperlink"@), link_fails(), link_step(), link_start(x, tr), o, f1, res));
                        assert(flat_cap_run(x, tr, n0, ends_at("hyperlink"@), link_fails(), link_step(), link_start(x, tr), o0, budget as nat, res));
                        assert(link_read(x, tr, n0, o0, res));
                }
                return Err(e);
            },
        }
    }
    proof {
        assert(flat_cap_run(x, tr, reader.count(), ends_at("hyperlink"@), link_fails(), link_step(), link_start(x, tr), para, 0nat, (Ok::<CT_P, OxmlError>(para), reader.count(), 0nat)));
                        assert(flat_cap_run(x, tr, n0, ends_at("hyperlink"@), link_fails(), link_step(), link_start(x, tr), o0, budget as nat, (Ok::<CT_P, OxmlError>(para), reader.count(), 0nat)));
                        assert(link_read(x, tr, n0, o0, (Ok::<CT_P, OxmlError>(para), reader.count(), 0nat)));
    }
    Ok(para)
}

/// Whether every hyperlink span lies within the runs read so far.
pub open spec fn spans_within(spans: Seq<HyperlinkSpan>, n: nat) -> bool {
    forall|i: int| 0 <= i < spans.len() ==> (#[trigger] spans[i]).run_start < spans[i].run_end <= n
}

/// Whether every verbatim element sits at a run position within the runs
/// read so far.
pub open spec fn extras_within(extras: Seq<(usize, Vec<u8>)>, n: nat) -> bool {
    forall|i: int| 0 <= i < extras.len() ==> (#[trigger] extras[i]).0 <= n
}

proof fn lemma_within_grow(spans: Seq<HyperlinkSpan>, extras: Seq<(usize, Vec<u8>)>, n: nat, m: nat)
    requires
        spans_within(spans, n),
        extras_within(extras, n),
        n <= m,
    ensures
        spans_within(spans, m),
        extras_within(extras, m),
{
    assert forall|i: int| 0 <= i < spans.len() implies (#[trigger] spans[i]).run_start < spans[i].run_end <= m by {
        assert(spans[i].run_end <= n);
    }
    assert forall|i: int| 0 <= i < extras.len() implies (#[trigger] extras[i]).0 <= m by {
        assert(extras[i].0 <= n);
    }
}

/// A paragraph with the run `run` added after the others.
pub open spec fn runs_added(o: CT_P, m: CT_P, run: CT_R) -> bool {
    m == (CT_P { runs: m.runs, ..o }) && m.runs@ == o.runs@.push(run)
}

/// Reading a hyperlink never fails on an empty tag.
pub open spec fn link_fails() -> spec_fn(CT_P, Tag) -> bool {
    |o: CT_P, t: Tag| false
}

/// An empty tag inside a hyperlink changes nothing.
pub open spec fn link_step() -> spec_fn(CT_P, CT_P, Tag) -> bool {
    |o: CT_P, m: CT_P, t: Tag| m == o
}

/// What a child element of a hyperlink does, read from call `p` on: a run
/// is read by its reader and added to the paragraph; any other element is
/// skipped as quick-xml's `read_to_end` does.
pub open spec fn link_start(x: Seq<u8>, tr: bool) -> spec_fn(CT_P, Tag, nat, Result<CT_P, OxmlError>, nat) -> bool {
    |o: CT_P, t: Tag, p: nat, m: Result<CT_P, OxmlError>, q: nat|
        if local_is(t.name@, "r"@) {
            exists|rr: Result<CT_R, OxmlError>, f: nat|
                #[trigger] run_read(x, tr, p, (rr, q, f)) && match rr {
                    Ok(run) => m matches Ok(s2) && runs_added(o, s2, run),
                    Err(e) => m == Err::<CT_P, OxmlError>(e),
                }
        } else {
            match xml_skip_to(x, tr, p, t.name@) {
                Some(q2) => q == q2 && m == Ok::<CT_P, OxmlError>(o),
                None => m is Err,
            }
        }
}

/// Reading the runs of a hyperlink from call `n` on, into the paragraph
/// `o`, with the budget for what is left unread, ends in `res`.
pub open spec fn link_read(x: Seq<u8>, tr: bool, n: nat, o: CT_P, res: ReadOutcome<CT_P>) -> bool {
    flat_cap_run(x, tr, n, ends_at("hyperlink"@), link_fails(), link_step(), link_start(x, tr), o, budget_for(xml_unread(x, tr, n)), res)
}

/// A paragraph before anything is read into it.
pub open spec fn para_blank(o: CT_P) -> bool {
    o.properties is None && o.runs@.len() == 0 && o.hyperlinks@.len() == 0 && o.extra_xml@.len() == 0
}

/// A paragraph with one more element kept verbatim, at the position of
/// the next run.
pub open spec fn para_keep() -> spec_fn(CT_P, CT_P, Seq<u8>) -> bool {
    |o: CT_P, m: CT_P, b: Seq<u8>|
        {
            &&& m == (CT_P { extra_xml: m.extra_xml, ..o })
            &&& m.extra_xml@.len() == o.extra_xml@.len() + 1
            &&& m.extra_xml@.drop_last() == o.extra_xml@
            &&& m.extra_xml@.last().0 == o.runs@.len()
            &&& m.extra_xml@.last().1@ == b
        }
}

/// Reading a paragraph never fails on an empty tag.
pub open spec fn para_fails() -> spec_fn(CT_P, Tag) -> bool {
    |o: CT_P, t: Tag| false
}

/// What an empty tag does to a paragraph: an empty `p` changes nothing,
/// any other is kept verbatim.
pub open spec fn para_step() -> spec_fn(CT_P, CT_P, Tag) -> bool {
    |o: CT_P, m: CT_P, t: Tag|
        if local_is(t.name@, "p"@) {
            m == o
        } else {
            para_keep()(o, m, empty_raw(t))
        }
}

/// The hyperlink span a hyperlink tag `t` adds once its runs are read: a
/// span over the runs from `start` on, with the tag's last `id` and
/// `anchor`, when it covers a run and has one of them; nothing otherwise.
pub open spec fn span_step(o: CT_P, m: CT_P, t: Tag, start: nat) -> bool {
    let rel = last_attr(t.attrs@, "id"@, None);
    let anc = last_attr(t.attrs@, "anchor"@, None);
    if start < o.runs@.len() && (rel is Some || anc is Some) {
        &&& m == (CT_P { hyperlinks: m.hyperlinks, ..o })
        &&& m.hyperlinks@.len() == o.hyperlinks@.len() + 1
        &&& m.hyperlinks@.drop_last() == o.hyperlinks@
        &&& opt_view(m.hyperlinks@.last().rel_id) == rel
        &&& opt_view(m.hyperlinks@.last().anchor) == anc
        &&& m.hyperlinks@.last().run_start == start
        &&& m.hyperlinks@.last().run_end == o.runs@.len()
    } else {
        m == o
    }
}

/// The instruction of a simple field tag: its last `instr`, empty when
/// missing.
pub open spec fn field_instr(t: Tag) -> Seq<char> {
    match last_attr(t.attrs@, "instr"@, Some(Seq::<char>::empty())) {
        Some(v) => v,
        None => Seq::empty(),
    }
}

/// The field an instruction names, as `parse_field_instruction` reads it.
pub open spec fn field_named(ft: FieldType, instr: Seq<char>) -> bool {
    match ft {
        FieldType::Page => field_keyword(instr) == "PAGE"@,
        FieldType::NumPages => field_keyword(instr) == "NUMPAGES"@,
        FieldType::Other(s) => field_keyword(instr) != "PAGE"@ && field_keyword(instr) != "NUMPAGES"@ && s@ == trimmed(instr),
    }
}

/// A paragraph with a run of its own added for a simple field with the
/// instruction `instr`: no properties, the field only.
pub open spec fn field_added(o: CT_P, m: CT_P, instr: Seq<char>) -> bool {
    &&& m == (CT_P { runs: m.runs, ..o })
    &&& m.runs@.len() == o.runs@.len() + 1
    &&& m.runs@.drop_last() == o.runs@
    &&& m.runs@.last().properties is None
    &&& m.runs@.last().extra_xml@.len() == 0
    &&& m.runs@.last().content@.len() == 1
    &&& m.runs@.last().content@[0] matches RunContent::Field { field_type } && field_named(field_type, instr)
}

/// What a child element of a paragraph does, read from call `p` on:
/// paragraph properties are read by their reader and replace any before;
/// a run is read and added; a hyperlink's runs are read into the
/// paragraph (`link_read`) and recorded as a span (`span_step`); a simple
/// field is skipped and added as a run of its own; any other element is
/// kept verbatim at the position of the next run.
pub open spec fn para_start(x: Seq<u8>, tr: bool) -> spec_fn(CT_P, Tag, nat, Result<CT_P, OxmlError>, nat) -> bool {
    |o: CT_P, t: Tag, p: nat, m: Result<CT_P, OxmlError>, q: nat|
        if local_is(t.name@, "pPr"@) {
            exists|rb: Result<CT_PPr, OxmlError>, f: nat|
                #[trigger] ppr_run(x, tr, p, ppr_none(), budget_for(xml_unread(x, tr, p)), (rb, q, f)) && match rb {
                    Ok(b) => m == Ok::<CT_P, OxmlError>(CT_P { properties: Some(b), ..o }),
                    Err(e) => m == Err::<CT_P, OxmlError>(e),
                }
        } else if local_is(t.name@, "r"@) {
            exists|rr: Result<CT_R, OxmlError>, f: nat|
                #[trigger] run_read(x, tr, p, (rr, q, f)) && match rr {
                    Ok(run) => m matches Ok(s2) && runs_added(o, s2, run),
                    Err(e) => m == Err::<CT_P, OxmlError>(e),
                }
        } else if local_is(t.name@, "hyperlink"@) {
            exists|h: ReadOutcome<CT_P>|
                #[trigger] link_read(x, tr, p, o, h) && q == h.1 && match h.0 {
                    Ok(s2) => m matches Ok(s3) && span_step(s2, s3, t, o.runs@.len()),
                    Err(e) => m == Err::<CT_P, OxmlError>(e),
                }
        } else if local_is(t.name@, "fldSimple"@) {
            match xml_skip_to(x, tr, p, t.name@) {
                Some(q2) => q == q2 && (m matches Ok(s2) && field_added(o, s2, field_instr(t))),
                None => m is Err,
            }
        } else {
            cap_start(x, tr, para_keep())(o, t, p, m, q)
        }
}

/// Reading the inside of a paragraph from call `n` on of a reader over
/// `x`, over what `o` holds and with `f` events left, ends in `res`.
pub open spec fn para_run(x: Seq<u8>, tr: bool, n: nat, o: CT_P, f: nat, res: ReadOutcome<CT_P>) -> bool {
    flat_cap_run(x, tr, n, ends_at("p"@), para_fails(), para_step(), para_start(x, tr), o, f, res)
}

/// Reading a paragraph from call `n` on, from an empty paragraph, with the
/// budget for what is left unread, ends in `res`.
pub open spec fn para_read(x: Seq<u8>, tr: bool, n: nat, res: ReadOutcome<CT_P>) -> bool {
    exists|o: CT_P| #[trigger] para_blank(o) && para_run(x, tr, n, o, budget_for(xml_unread(x, tr, n)), res)
}

/// A reading from an empty paragraph with the full budget is a paragraph
/// read.
proof fn lemma_para_read(x: Seq<u8>, tr: bool, n: nat, o: CT_P, res: ReadOutcome<CT_P>)
    requires
        para_blank(o),
        para_run(x, tr, n, o, budget_for(xml_unread(x, tr, n)), res),
    ensures
        para_read(x, tr, n, res),
{
}

/// An empty tag inside a hyperlink changes nothing.
fn read_link_empty(para: &mut CT_P, t: &Tag) -> (r: Result<(), OxmlError>)
    ensures
        r is Ok,
        *final(para) == *old(para),
{
    Ok(())
}

/// Read one empty tag into a paragraph.
fn read_para_empty(para: &mut CT_P, t: &Tag) -> (r: Result<(), OxmlError>)
    ensures
        r is Ok,
        para_step()(*old(para), *final(para), *t),
        extras_within(old(para).extra_xml@, old(para).runs@.len()) ==> extras_within(
            final(para).extra_xml@,
            final(para).runs@.len(),
        ),
{
    if !name_is(t.name.as_str(), "p") {
        let ghost o = *para;
        let k = para.runs.len();
        para.extra_xml.push((k, capture_empty_element(t)));
        proof {
            assert(para.extra_xml@.drop_last() =~= o.extra_xml@);
            if extras_within(o.extra_xml@, o.runs@.len()) {
                assert forall|i: int| 0 <= i < para.extra_xml@.len() implies (#[trigger] para.extra_xml@[i]).0 <= para.runs@.len() by {
                    if i < o.extra_xml@.len() {
                        assert(para.extra_xml@[i] == o.extra_xml@[i]);
                    }
                }
            }
        }
    }
    Ok(())
}

/// A verbatim element added at a position within the runs keeps every
/// verbatim element within them.
proof fn lemma_extras_pushed(o: Seq<(usize, Vec<u8>)>, m: Seq<(usize, Vec<u8>)>, n: nat)
    requires
        extras_within(o, n),
        m.len() == o.len() + 1,
        m.drop_last() == o,
        m.last().0 <= n,
    ensures
        extras_within(m, n),
{
    assert forall|i: int| 0 <= i < m.len() implies (#[trigger] m[i]).0 <= n by {
        if i < o.len() {
            assert(m[i] == m.drop_last()[i]);
        }
    }
}

impl CT_P {
    /// Read a paragraph from the events after `<w:p>` up to its end (or the
    /// end of input): paragraph properties, runs, the runs of a hyperlink
    /// (recorded as a span when it has a target), a simple field as a run
    /// of its own, and any other element kept verbatim at the position of
    /// the next run.
    pub fn from_xml(reader: &mut XmlReader) -> (r: Result<Self, OxmlError>)
        ensures
            final(reader).same_input(old(reader)),
            exists|f: nat|
                #[trigger] para_read(old(reader).input(), old(reader).trims(), old(reader).count(),
                    (r, final(reader).count(), f)),
            r matches Ok(p) ==> spans_within(p.hyperlinks@, p.runs@.len()) && extras_within(
                p.extra_xml@,
                p.runs@.len(),
            ),
    {
        let ghost x = reader.input();
        let ghost tr = reader.trims();
        let ghost n0 = reader.count();
        let mut para = CT_P { properties: None, runs: Vec::new(), hyperlinks: Vec::new(), extra_xml: Vec::new() };
        let ghost o0 = para;
        let budget = event_budget(unread_len(reader));
        let mut fuel = budget;
        while fuel > 0
            invariant
                fuel <= budget,
                budget as nat == budget_for(xml_unread(x, tr, n0)),
                reader.input() == x,
                reader.trims() == tr,
                x == old(reader).input(),
                tr == old(reader).trims(),
                n0 == old(reader).count(),
                para_blank(o0),
                spans_within(para.hyperlinks@, para.runs@.len()),
                extras_within(para.extra_xml@, para.runs@.len()),
                forall|res: ReadOutcome<CT_P>|
                    #[trigger] flat_cap_run(x, tr, reader.count(), ends_at("p"@), para_fails(), para_step(), para_start(x, tr), para, fuel as nat, res)
                        ==> para_run(x, tr, n0, o0, budget as nat, res),
            decreases fuel,
        {
            let ghost n = reader.count();
            let ghost o = para;
            let ghost f1 = fuel as nat;
            fuel = fuel - 1;
            match read_event(reader) {
                Ok(ReadEvent::Empty(t)) => {
                    if let Err(e) = read_para_empty(&mut para, &t) {
                        proof {
                            let res = (Err::<CT_P, OxmlError>(e), reader.count(), fuel as nat);
                            assert(flat_cap_run(x, tr, n, ends_at("p"@), para_fails(), para_step(), para_start(x, tr), o, f1, res));
                            assert(para_run(x, tr, n0, o0, budget as nat, res));
                            lemma_para_read(x, tr, n0, o0, res);
                        }
                        return Err(e);
                    }
                    proof {
                        assert(para_step()(o, para, t));
                        assert forall|res: ReadOutcome<CT_P>|
                            #[trigger] flat_cap_run(x, tr, reader.count(), ends_at("p"@), para_fails(), para_step(), para_start(x, tr), para, fuel as nat, res)
                            implies flat_cap_run(x, tr, n, ends_at("p"@), para_fails(), para_step(), para_start(x, tr), o, f1, res) by {
                            lemma_flat_cap_empty(x, tr, n, ends_at("p"@), para_fails(), para_step(), para_start(x, tr), o, para, f1, t, res);
                        }
                    }
                },
                Ok(ReadEvent::Start(t)) => {
                    let nm = t.name.as_str();
                    if name_is(nm, "pPr") {
                        match CT_PPr::from_xml(reader) {
                            Ok(b) => {
                                para.properties = Some(b);
                        proof {
                            let q = reader.count();
                            assert(para_start(x, tr)(o, t, n + 1, Ok::<CT_P, OxmlError>(para), q));
                            assert forall|res: ReadOutcome<CT_P>|
                                #[trigger] flat_cap_run(x, tr, reader.count(), ends_at("p"@), para_fails(), para_step(), para_start(x, tr), para, fuel as nat, res)
                                implies flat_cap_run(x, tr, n, ends_at("p"@), para_fails(), para_step(), para_start(x, tr), o, f1, res) by {
                                lemma_flat_cap_start(x, tr, n, ends_at("p"@), para_fails(), para_step(), para_start(x, tr), o, f1, t, Ok::<CT_P, OxmlError>(para), q, res);
                            }
                        }
                            },
                            Err(e) => {
                            proof {
                                let q = reader.count();
                                let res = (Err::<CT_P, OxmlError>(e), q, fuel as nat);
                                assert(para_start(x, tr)(o, t, n + 1, Err::<CT_P, OxmlError>(e), q));
                                lemma_flat_cap_start(x, tr, n, ends_at("p"@), para_fails(), para_step(), para_start(x, tr), o, f1, t, Err::<CT_P, OxmlError>(e), q, res);
                            assert(para_run(x, tr, n0, o0, budget as nat, res));
                            lemma_para_read(x, tr, n0, o0, res);
                            }
                            return Err(e);
                            },
                        }
                    } else if name_is(nm, "r") {
                        match CT_R::from_xml(reader) {
                            Ok(run) => {
                                para.runs.push(run);
                                proof { lemma_within_grow(para.hyperlinks@, para.extra_xml@, o.runs@.len(), para.runs@.len()); }
                        proof {
                            let q = reader.count();
                            assert(para_start(x, tr)(o, t, n + 1, Ok::<CT_P, OxmlError>(para), q));
                            assert forall|res: ReadOutcome<CT_P>|
                                #[trigger] flat_cap_run(x, tr, reader.count(), ends_at("p"@), para_fails(), para_step(), para_start(x, tr), para, fuel as nat, res)
                                implies flat_cap_run(x, tr, n, ends_at("p"@), para_fails(), para_step(), para_start(x, tr), o, f1, res) by {
                                lemma_flat_cap_start(x, tr, n, ends_at("p"@), para_fails(), para_step(), para_start(x, tr), o, f1, t, Ok::<CT_P, OxmlError>(para), q, res);
                            }
                        }
                            },
                            Err(e) => {
                            proof {
                                let q = reader.count();
                                let res = (Err::<CT_P, OxmlError>(e), q, fuel as nat);
                                assert(para_start(x, tr)(o, t, n + 1, Err::<CT_P, OxmlError>(e), q));
                                lemma_flat_cap_start(x, tr, n, ends_at("p"@), para_fails(), para_step(), para_start(x, tr), o, f1, t, Err::<CT_P, OxmlError>(e), q, res);
                            assert(para_run(x, tr, n0, o0, budget as nat, res));
                            lemma_para_read(x, tr, n0, o0, res);
                            }
                            return Err(e);
                            },
                        }
                    } else if name_is(nm, "hyperlink") {
                        let (rel_id, anchor) = hyperlink_target(&t);
                        let run_start = para.runs.len();
                        match read_hyperlink_runs(reader, para) {
                            Ok(p2) => {
                                para = p2;
                                let run_end = para.runs.len();
                                proof { lemma_within_grow(para.hyperlinks@, para.extra_xml@, o.runs@.len(), para.runs@.len()); }
                                let ghost mid = para;
                                if let Some(span) = hyperlink_span(rel_id, anchor, run_start, run_end) {
                                    para.hyperlinks.push(span);
                                    proof {
                                        assert(para.hyperlinks@.drop_last() =~= mid.hyperlinks@);
                                        assert forall|i: int| 0 <= i < para.hyperlinks@.len() implies (#[trigger] para.hyperlinks@[i]).run_start
                                            < para.hyperlinks@[i].run_end <= para.runs@.len() by {
                                            if i < mid.hyperlinks@.len() {
                                                assert(para.hyperlinks@[i] == mid.hyperlinks@[i]);
                                            }
                                        }
                                    }
                                }
                                proof { assert(span_step(mid, para, t, o.runs@.len())); }
                        proof {
                            let q = reader.count();
                            assert(para_start(x, tr)(o, t, n + 1, Ok::<CT_P, OxmlError>(para), q));
                            assert forall|res: ReadOutcome<CT_P>|
                                #[trigger] flat_cap_run(x, tr, reader.count(), ends_at("p"@), para_fails(), para_step(), para_start(x, tr), para, fuel as nat, res)
                                implies flat_cap_run(x, tr, n, ends_at("p"@), para_fails(), para_step(), para_start(x, tr), o, f1, res) by {
                                lemma_flat_cap_start(x, tr, n, ends_at("p"@), para_fails(), para_step(), para_start(x, tr), o, f1, t, Ok::<CT_P, OxmlError>(para), q, res);
                            }
                        }
                            },
                            Err(e) => {
                            proof {
                                let q = reader.count();
                                let res = (Err::<CT_P, OxmlError>(e), q, fuel as nat);
                                assert(para_start(x, tr)(o, t, n + 1, Err::<CT_P, OxmlError>(e), q));
                                lemma_flat_cap_start(x, tr, n, ends_at("p"@), para_fails(), para_step(), para_start(x, tr), o, f1, t, Err::<CT_P, OxmlError>(e), q, res);
                            assert(para_run(x, tr, n0, o0, budget as nat, res));
                            lemma_para_read(x, tr, n0, o0, res);
                            }
                            return Err(e);
                            },
                        }
                    } else if name_is(nm, "fldSimple") {
                        let instr = field_instr_of(&t);
                        let field_type = parse_field_instruction(instr.as_str());
                        match skip_to_end(reader, nm) {
                            Ok(_) => {
                                para.runs.push(field_run(field_type));
                                proof { assert(para.runs@.drop_last() =~= o.runs@); }
                                proof { lemma_within_grow(para.hyperlinks@, para.extra_xml@, o.runs@.len(), para.runs@.len()); }
                        proof {
                            let q = reader.count();
                            assert(para_start(x, tr)(o, t, n + 1, Ok::<CT_P, OxmlError>(para), q));
                            assert forall|res: ReadOutcome<CT_P>|
                                #[trigger] flat_cap_run(x, tr, reader.count(), ends_at("p"@), para_fails(), para_step(), para_start(x, tr), para, fuel as nat, res)
                                implies flat_cap_run(x, tr, n, ends_at("p"@), para_fails(), para_step(), para_start(x, tr), o, f1, res) by {
                                lemma_flat_cap_start(x, tr, n, ends_at("p"@), para_fails(), para_step(), para_start(x, tr), o, f1, t, Ok::<CT_P, OxmlError>(para), q, res);
                            }
                        }
                            },
                            Err(e) => {
                            proof {
                                let q = reader.count();
                                let res = (Err::<CT_P, OxmlError>(e), q, fuel as nat);
                                assert(para_start(x, tr)(o, t, n + 1, Err::<CT_P, OxmlError>(e), q));
                                lemma_flat_cap_start(x, tr, n, ends_at("p"@), para_fails(), para_step(), para_start(x, tr), o, f1, t, Err::<CT_P, OxmlError>(e), q, res);
                            assert(para_run(x, tr, n0, o0, budget as nat, res));
                            lemma_para_read(x, tr, n0, o0, res);
                            }
                            return Err(e);
                            },
                        }
                    } else {
                        let raw = match capture_element(reader, &t) {
                            Ok(b) => b,
                            Err(e) => {
                            proof {
                                let q = reader.count();
                                let res = (Err::<CT_P, OxmlError>(e), q, fuel as nat);
                                assert(para_start(x, tr)(o, t, n + 1, Err::<CT_P, OxmlError>(e), q));
                                lemma_flat_cap_start(x, tr, n, ends_at("p"@), para_fails(), para_step(), para_start(x, tr), o, f1, t, Err::<CT_P, OxmlError>(e), q, res);
                            assert(para_run(x, tr, n0, o0, budget as nat, res));
                            lemma_para_read(x, tr, n0, o0, res);
                            }
                            return Err(e);
                            },
                        };
                        let ghost bb = raw@;
                        let k = para.runs.len();
                        para.extra_xml.push((k, raw));
                        proof {
                            assert(para.extra_xml@.drop_last() =~= o.extra_xml@);
                            assert(para_keep()(o, para, bb));
                            lemma_extras_pushed(o.extra_xml@, para.extra_xml@, para.runs@.len());
                        }
                        proof {
                            let q = reader.count();
                            assert(para_start(x, tr)(o, t, n + 1, Ok::<CT_P, OxmlError>(para), q));
                            assert forall|res: ReadOutcome<CT_P>|
                                #[trigger] flat_cap_run(x, tr, reader.count(), ends_at("p"@), para_fails(), para_step(), para_start(x, tr), para, fuel as nat, res)
                                implies flat_cap_run(x, tr, n, ends_at("p"@), para_fails(), para_step(), para_start(x, tr), o, f1, res) by {
                                lemma_flat_cap_start(x, tr, n, ends_at("p"@), para_fails(), para_step(), para_start(x, tr), o, f1, t, Ok::<CT_P, OxmlError>(para), q, res);
                            }
                        }
                    }
                },
                Ok(ReadEvent::End(nm)) => {
                    if name_is(nm.as_str(), "p") {
                        proof {
                            assert(flat_cap_run(x, tr, n, ends_at("p"@), para_fails(), para_step(), para_start(x, tr), o, f1, (Ok::<CT_P, OxmlError>(para), reader.count(), fuel as nat)));
                            assert(para_run(x, tr, n0, o0, budget as nat, (Ok::<CT_P, OxmlError>(para), reader.count(), fuel as nat)));
                            lemma_para_read(x, tr, n0, o0, (Ok::<CT_P, OxmlError>(para), reader.count(), fuel as nat));
                        }
                        return Ok(para);
                    }
                    proof {
                        assert forall|res: ReadOutcome<CT_P>|
                            #[trigger] flat_cap_run(x, tr, reader.count(), ends_at("p"@), para_fails(), para_step(), para_start(x, tr), para, fuel as nat, res)
                            implies flat_cap_run(x, tr, n, ends_at("p"@), para_fails(), para_step(), para_start(x, tr), o, f1, res) by {}
                    }
                },
                Ok(ReadEvent::Eof) => {
                    proof {
                        assert(flat_cap_run(x, tr, n, ends_at("p"@), para_fails(), para_step(), para_start(x, tr), o, f1, (Ok::<CT_P, OxmlError>(para), reader.count(), fuel as nat)));
                            assert(para_run(x, tr, n0, o0, budget as nat, (Ok::<CT_P, OxmlError>(para), reader.count(), fuel as nat)));
                            lemma_para_read(x, tr, n0, o0, (Ok::<CT_P, OxmlError>(para), reader.count(), fuel as nat));
                    }
                    return Ok(para);
                },
                Ok(_) => {
                    proof {
                        assert forall|res: ReadOutcome<CT_P>|
                            #[trigger] flat_cap_run(x, tr, reader.count(), ends_at("p"@), para_fails(), para_step(), para_start(x, tr), para, fuel as nat, res)
                            implies flat_cap_run(x, tr, n, ends_at("p"@), para_fails(), para_step(), para_start(x, tr), o, f1, res) by {}
                    }
                },
                Err(e) => {
                    proof {
                        let res = (Err::<CT_P, OxmlError>(e), reader.count(), fuel as nat);
                        assert(flat_cap_run(x, tr, n, ends_at("p"@), para_fails(), para_step(), para_start(x, tr), o, f1, res));
                            assert(para_run(x, tr, n0, o0, budget as nat, res));
                            lemma_para_read(x, tr, n0, o0, res);
                    }
                    return Err(e);
                },
            }
        }
        proof {
            assert(flat_cap_run(x, tr, reader.count(), ends_at("p"@), para_fails(), para_step(), para_start(x, tr), para, 0nat, (Ok::<CT_P, OxmlError>(para), reader.count(), 0nat)));
                            assert(para_run(x, tr, n0, o0, budget as nat, (Ok::<CT_P, OxmlError>(para), reader.count(), 0nat)));
                            lemma_para_read(x, tr, n0, o0, (Ok::<CT_P, OxmlError>(para), reader.count(), 0nat));
        }
        Ok(para)
    }
}

} // verus!
