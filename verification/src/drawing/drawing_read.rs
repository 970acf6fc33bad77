//! Reading drawings: the size, relationship id, name and description of an
//! inline or anchored picture, the anchor's position, and the element kept
//! verbatim for writing back.

use vstd::prelude::*;

use crate::xml_read::XmlReader;

use crate::chars::{parse_i64, parse_i64_chars, parse_u32, parse_u32_str, str_chars, str_eq, trim_chars, trimmed};
use crate::drawing::{pic_props_none, rel_h_parse, rel_v_parse, CT_Anchor, CT_Drawing, CT_Inline, PicProps, ST_RelativeFromH, ST_RelativeFromV, WrapType};
use crate::error::OxmlError;
use crate::properties_read::last_attr_value;
use crate::units::Emu;
use crate::xml_read::{
    capture_element, event_budget, last_attr, last_exact, last_exact_value, local_is, name_is, opt_view,
    read_event, read_text_to, reader_from_bytes, skip_to_end, unread_len, ReadEvent, Tag,
};
use crate::xml_read::{budget_for, budget_left, xml_event, xml_skip_to, xml_text_to, xml_unread};
use crate::properties_read::{ends_at, flat_cap_run, lemma_flat_cap_empty, lemma_flat_cap_start, captured, ReadOutcome};

verus! {

/// What reading a picture collects: its size, the related image, and the
/// name and description of the drawing.
#[derive(Debug, Clone, PartialEq)]
pub struct PicFields {
    pub cx: i64,
    pub cy: i64,
    pub embed: String,
    pub descr: Option<String>,
    pub name: Option<String>,
}

/// The size after reading the attributes of `wp:extent` from the left:
/// each `cx` or `cy` sets its number; a value that is not a number fails.
pub open spec fn extent_fold(attrs: Seq<(String, String)>, cx: i64, cy: i64) -> Option<(i64, i64)>
    decreases attrs.len(),
{
    if attrs.len() == 0 {
        Some((cx, cy))
    } else {
        let k = attrs[0].0@;
        let v = attrs[0].1@;
        if k == "cx"@ {
            match parse_i64(v) {
                Some(n) => extent_fold(attrs.drop_first(), n, cy),
                None => None,
            }
        } else if k == "cy"@ {
            match parse_i64(v) {
                Some(n) => extent_fold(attrs.drop_first(), cx, n),
                None => None,
            }
        } else {
            extent_fold(attrs.drop_first(), cx, cy)
        }
    }
}

/// An optional value set by the last attribute named exactly `key`, if any.
pub open spec fn exact_or(attrs: Seq<(String, String)>, key: Seq<char>, d: Option<String>) -> Option<Seq<char>> {
    match last_exact(attrs, key) {
        Some(v) => Some(v),
        None => opt_view(d),
    }
}

/// What reading one tag inside a picture does: an empty `extent` sets the
/// size (failing on a bad number), `docPr` the description and name (last
/// `descr` and `name`), `blip` the related image (last attribute named
/// `embed` in any namespace); other tags change nothing.
pub open spec fn pic_after_tag(o: PicFields, n: PicFields, t: Tag, empty: bool) -> bool {
    let nm = t.name@;
    if empty && local_is(nm, "extent"@) {
        &&& extent_fold(t.attrs@, o.cx, o.cy) == Some((n.cx, n.cy))
        &&& n.embed == o.embed && n.descr == o.descr && n.name == o.name
    } else if local_is(nm, "docPr"@) {
        &&& opt_view(n.descr) == exact_or(t.attrs@, "descr"@, o.descr)
        &&& opt_view(n.name) == exact_or(t.attrs@, "name"@, o.name)
        &&& n.cx == o.cx && n.cy == o.cy && n.embed == o.embed
    } else if local_is(nm, "blip"@) {
        &&& Some(n.embed@) == last_attr(t.attrs@, "embed"@, Some(o.embed@))
        &&& n.cx == o.cx && n.cy == o.cy && n.descr == o.descr && n.name == o.name
    } else {
        n == o
    }
}

/// Whether reading the tag fails: an empty `extent` with a bad number.
pub open spec fn pic_tag_fails(o: PicFields, t: Tag, empty: bool) -> bool {
    empty && local_is(t.name@, "extent"@) && extent_fold(t.attrs@, o.cx, o.cy) is None
}

/// Read the attributes of `wp:extent`.
fn read_extent(attrs: &Vec<(String, String)>, cx: i64, cy: i64) -> (r: Option<(i64, i64)>)
    ensures
        r == extent_fold(attrs@, cx, cy),
{
    let mut x = cx;
    let mut y = cy;
    let mut i: usize = 0;
    proof { assert(attrs@.skip(0) =~= attrs@); }
    while i < attrs.len()
        invariant
            i <= attrs@.len(),
            extent_fold(attrs@.skip(i as int), x, y) == extent_fold(attrs@, cx, cy),
        decreases attrs@.len() - i,
    {
        proof { assert(attrs@.skip(i as int).drop_first() =~= attrs@.skip(i + 1)); }
        let k = attrs[i].0.as_str();
        if str_eq(k, "cx") {
            match parse_i64_chars(str_chars(attrs[i].1.as_str()).as_slice()) {
                Some(n) => x = n,
                None => return None,
            }
        } else if str_eq(k, "cy") {
            match parse_i64_chars(str_chars(attrs[i].1.as_str()).as_slice()) {
                Some(n) => y = n,
                None => return None,
            }
        }
        i = i + 1;
    }
    proof { assert(attrs@.skip(i as int) =~= Seq::<(String, String)>::empty()); }
    Some((x, y))
}

/// The value of the last attribute named exactly `key`, else `d`.
fn exact_value_or(attrs: &Vec<(String, String)>, key: &str, d: &Option<String>) -> (r: Option<String>)
    ensures
        opt_view(r) == exact_or(attrs@, key@, *d),
{
    match last_exact_value(attrs, key) {
        Some(v) => Some(v),
        None => d.clone(),
    }
}

/// A last-attribute lookup with a value to fall back on always has one.
proof fn lemma_last_attr_some(attrs: Seq<(String, String)>, local: Seq<char>, d: Seq<char>)
    ensures
        last_attr(attrs, local, Some(d)) is Some,
    decreases attrs.len(),
{
    if attrs.len() > 0 {
        lemma_last_attr_some(attrs.drop_last(), local, d);
    }
}

/// Read one tag inside a picture.
pub fn read_pic_tag(f: &mut PicFields, t: &Tag, empty: bool) -> (r: Result<(), OxmlError>)
    ensures
        r is Err <==> pic_tag_fails(*old(f), *t, empty),
        r is Ok ==> pic_after_tag(*old(f), *final(f), *t, empty),
{
    let nm = t.name.as_str();
    if empty && name_is(nm, "extent") {
        match read_extent(&t.attrs, f.cx, f.cy) {
            Some((x, y)) => {
                f.cx = x;
                f.cy = y;
            },
            None => {
                return Err(OxmlError::ParseInt(crate::chars::to_owned_string("invalid extent")));
            },
        }
    } else if name_is(nm, "docPr") {
        let d = exact_value_or(&t.attrs, "descr", &f.descr);
        let n = exact_value_or(&t.attrs, "name", &f.name);
        f.descr = d;
        f.name = n;
    } else if name_is(nm, "blip") {
        let e = last_attr_value(&t.attrs, "embed", Some(f.embed.clone()));
        proof { lemma_last_attr_some(t.attrs@, "embed"@, f.embed@); }
        match e {
            Some(v) => f.embed = v,
            None => {},
        }
    }
    Ok(())
}

/// The empty picture before anything is read.
fn no_pic() -> (r: PicFields)
    ensures
        r.cx == 0 && r.cy == 0 && r.embed@.len() == 0 && r.descr is None && r.name is None,
{
    PicFields { cx: 0, cy: 0, embed: String::new(), descr: None, name: None }
}

/// A picture with nothing read yet.
pub open spec fn pic_blank(f: PicFields) -> bool {
    f.cx == 0 && f.cy == 0 && f.embed@.len() == 0 && f.descr is None && f.name is None
}

/// Where reading a picture fails on an empty tag.
pub open spec fn inline_fails() -> spec_fn(PicFields, Tag) -> bool {
    |o: PicFields, t: Tag| pic_tag_fails(o, t, true)
}

/// What an empty tag does to a picture.
pub open spec fn inline_step() -> spec_fn(PicFields, PicFields, Tag) -> bool {
    |o: PicFields, m: PicFields, t: Tag| pic_after_tag(o, m, t, true)
}

/// What a `blip` or `docPr` start tag does, read from call `p` on: its
/// attributes are read as `pic_after_tag` says and its contents skipped as
/// quick-xml's `read_to_end` does.
pub open spec fn pic_start(x: Seq<u8>, tr: bool, o: PicFields, t: Tag, p: nat, m: Result<PicFields, OxmlError>, q: nat) -> bool {
    match xml_skip_to(x, tr, p, t.name@) {
        Some(q2) => q == q2 && (m matches Ok(f2) && pic_after_tag(o, f2, t, false)),
        None => m is Err,
    }
}

/// Whether a start tag is one whose attributes a picture reads.
pub open spec fn pic_tag(t: Tag) -> bool {
    local_is(t.name@, "blip"@) || local_is(t.name@, "docPr"@)
}

/// What a start tag inside an inline picture does: a `blip` or `docPr` as
/// `pic_start` says; any other is passed (its contents are read as further
/// events).
pub open spec fn inline_start(x: Seq<u8>, tr: bool) -> spec_fn(PicFields, Tag, nat, Result<PicFields, OxmlError>, nat) -> bool {
    |o: PicFields, t: Tag, p: nat, m: Result<PicFields, OxmlError>, q: nat|
        if pic_tag(t) {
            pic_start(x, tr, o, t, p, m, q)
        } else {
            m == Ok::<PicFields, OxmlError>(o) && q == p
        }
}

/// Reading an inline picture from call `n` on, over the picture `o` read so
/// far, ends in `res`.
pub open spec fn inline_run(x: Seq<u8>, tr: bool, n: nat, o: PicFields, f: nat, res: ReadOutcome<PicFields>) -> bool {
    flat_cap_run(x, tr, n, ends_at("inline"@), inline_fails(), inline_step(), inline_start(x, tr), o, f, res)
}

/// The inline picture a reading gives: the size, image, description and
/// name read, no properties and no verbatim copy.
pub open spec fn inline_of(f: PicFields, v: CT_Inline) -> bool {
    inline_fields(f, v) && v.raw_xml is None
}

/// The inline picture a reading gives, but for its verbatim copy.
pub open spec fn inline_fields(f: PicFields, v: CT_Inline) -> bool {
    &&& v.extent_cx == Emu(f.cx) && v.extent_cy == Emu(f.cy)
    &&& v.embed_id == f.embed && v.description == f.descr && v.name == f.name
    &&& pic_props_none(v.props)
}

/// The inline picture of what was read.
fn inline_from_fields(f: PicFields) -> (v: CT_Inline)
    ensures
        inline_of(f, v),
{
    CT_Inline {
        extent_cx: Emu(f.cx),
        extent_cy: Emu(f.cy),
        embed_id: f.embed,
        description: f.descr,
        name: f.name,
        props: PicProps::default(),
        raw_xml: None,
    }
}

impl CT_Inline {
    /// Read an inline picture from the events after `<wp:inline>` up to its
    /// end (or the end of input): each tag as `read_pic_tag` says, skipping
    /// the contents of a `blip` or `docPr` start tag.
    pub fn from_xml(reader: &mut XmlReader) -> (r: Result<Self, OxmlError>)
        ensures
            final(reader).same_input(old(reader)),
            exists|o: PicFields, res: ReadOutcome<PicFields>|
                #[trigger] inline_run(old(reader).input(), old(reader).trims(), old(reader).count(), o, budget_left(old(reader)), res)
                && pic_blank(o) && res.1 == final(reader).count() && match res.0 {
                    Ok(f) => (r matches Ok(v) && inline_of(f, v)),
                    Err(e) => r == Err::<CT_Inline, OxmlError>(e),
                },
    {
        let ghost x = reader.input();
        let ghost tr = reader.trims();
        let ghost n0 = reader.count();
        let mut f = no_pic();
        let ghost o0 = f;
        let budget = event_budget(unread_len(reader));
        let mut fuel = budget;
        while fuel > 0
            invariant
                fuel <= budget,
                budget as nat == budget_for(xml_unread(x, tr, n0)),
                reader.input() == x,
                reader.trims() == tr,
                x == old(reader).input(),
                tr == old(reader).trims(),
                n0 == old(reader).count(),
                pic_blank(o0),
                forall|res: ReadOutcome<PicFields>|
                    #[trigger] flat_cap_run(x, tr, reader.count(), ends_at("inline"@), inline_fails(), inline_step(), inline_start(x, tr), f, fuel as nat, res)
                        ==> inline_run(x, tr, n0, o0, budget as nat, res),
            decreases fuel,
        {
            let ghost n = reader.count();
            let ghost o = f;
            let ghost f1 = fuel as nat;
            fuel = fuel - 1;
            match read_event(reader) {
                Ok(ReadEvent::Empty(t)) => {
                    if let Err(e) = read_pic_tag(&mut f, &t, true) {
                        proof {
                            let res = (Err::<PicFields, OxmlError>(e), reader.count(), fuel as nat);
                            assert(flat_cap_run(x, tr, n, ends_at("inline"@), inline_fails(), inline_step(), inline_start(x, tr), o, f1, res));
                            assert(inline_run(x, tr, n0, o0, budget as nat, res));
                            assert(inline_run(old(reader).input(), old(reader).trims(), old(reader).count(), o0, budget_left(old(reader)), res));
                        }
                        return Err(e);
                    }
                    proof {
                        assert(inline_step()(o, f, t));
                        assert forall|res: ReadOutcome<PicFields>|
                            #[trigger] flat_cap_run(x, tr, reader.count(), ends_at("inline"@), inline_fails(), inline_step(), inline_start(x, tr), f, fuel as nat, res)
                            implies flat_cap_run(x, tr, n, ends_at("inline"@), inline_fails(), inline_step(), inline_start(x, tr), o, f1, res) by {
                            lemma_flat_cap_empty(x, tr, n, ends_at("inline"@), inline_fails(), inline_step(), inline_start(x, tr), o, f, f1, t, res);
                        }
                    }
                },
                Ok(ReadEvent::Start(t)) => {
                    let nm = t.name.as_str();
                    if name_is(nm, "blip") || name_is(nm, "docPr") {
                        let rr = read_pic_tag(&mut f, &t, false);
                        proof { assert(rr is Ok); }
                        match skip_to_end(reader, nm) {
                            Ok(_) => {
                        proof {
                            let q = reader.count();
                            assert(inline_start(x, tr)(o, t, n + 1, Ok::<PicFields, OxmlError>(f), q));
                            assert forall|res: ReadOutcome<PicFields>|
                                #[trigger] flat_cap_run(x, tr, reader.count(), ends_at("inline"@), inline_fails(), inline_step(), inline_start(x, tr), f, fuel as nat, res)
                                implies flat_cap_run(x, tr, n, ends_at("inline"@), inline_fails(), inline_step(), inline_start(x, tr), o, f1, res) by {
                                lemma_flat_cap_start(x, tr, n, ends_at("inline"@), inline_fails(), inline_step(), inline_start(x, tr), o, f1, t, Ok::<PicFields, OxmlError>(f), q, res);
                            }
                        }
                            },
                            Err(e) => {
                            proof {
                                let q = reader.count();
                                let res = (Err::<PicFields, OxmlError>(e), q, fuel as nat);
                                assert(inline_start(x, tr)(o, t, n + 1, Err::<PicFields, OxmlError>(e), q));
                                lemma_flat_cap_start(x, tr, n, ends_at("inline"@), inline_fails(), inline_step(), inline_start(x, tr), o, f1, t, Err::<PicFields, OxmlError>(e), q, res);
                            assert(inline_run(x, tr, n0, o0, budget as nat, res));
                            assert(inline_run(old(reader).input(), old(reader).trims(), old(reader).count(), o0, budget_left(old(reader)), res));
                            }
                            return Err(e);
                            },
                        }
                    } else {
                        proof {
                            let q = reader.count();
                            assert(inline_start(x, tr)(o, t, n + 1, Ok::<PicFields, OxmlError>(f), q));
                            assert forall|res: ReadOutcome<PicFields>|
                                #[trigger] flat_cap_run(x, tr, reader.count(), ends_at("inline"@), inline_fails(), inline_step(), inline_start(x, tr), f, fuel as nat, res)
                                implies flat_cap_run(x, tr, n, ends_at("inline"@), inline_fails(), inline_step(), inline_start(x, tr), o, f1, res) by {
                                lemma_flat_cap_start(x, tr, n, ends_at("inline"@), inline_fails(), inline_step(), inline_start(x, tr), o, f1, t, Ok::<PicFields, OxmlError>(f), q, res);
                            }
                        }
                    }
                },
                Ok(ReadEvent::End(nm)) => {
                    if name_is(nm.as_str(), "inline") {
                        proof {
                            assert(flat_cap_run(x, tr, n, ends_at("inline"@), inline_fails(), inline_step(), inline_start(x, tr), o, f1, (Ok::<PicFields, OxmlError>(f), reader.count(), fuel as nat)));
                            assert(inline_run(x, tr, n0, o0, budget as nat, (Ok::<PicFields, OxmlError>(f), reader.count(), fuel as nat)));
                            assert(inline_run(old(reader).input(), old(reader).trims(), old(reader).count(), o0, budget_left(old(reader)), (Ok::<PicFields, OxmlError>(f), reader.count(), fuel as nat)));
                        }
                        return Ok(inline_from_fields(f));
                    }
                    proof {
                        assert forall|res: ReadOutcome<PicFields>|
                            #[trigger] flat_cap_run(x, tr, reader.count(), ends_at("inline"@), inline_fails(), inline_step(), inline_start(x, tr), f, fuel as nat, res)
                            implies flat_cap_run(x, tr, n, ends_at("inline"@), inline_fails(), inline_step(), inline_start(x, tr), o, f1, res) by {}
                    }
                },
                Ok(ReadEvent::Eof) => {
                    proof {
                        assert(flat_cap_run(x, tr, n, ends_at("inline"@), inline_fails(), inline_step(), inline_start(x, tr), o, f1, (Ok::<PicFields, OxmlError>(f), reader.count(), fuel as nat)));
                            assert(inline_run(x, tr, n0, o0, budget as nat, (Ok::<PicFields, OxmlError>(f), reader.count(), fuel as nat)));
                            assert(inline_run(old(reader).input(), old(reader).trims(), old(reader).count(), o0, budget_left(old(reader)), (Ok::<PicFields, OxmlError>(f), reader.count(), fuel as nat)));
                    }
                    return Ok(inline_from_fields(f));
                },
                Ok(_) => {
                    proof {
                        assert forall|res: ReadOutcome<PicFields>|
                            #[trigger] flat_cap_run(x, tr, reader.count(), ends_at("inline"@), inline_fails(), inline_step(), inline_start(x, tr), f, fuel as nat, res)
                            implies flat_cap_run(x, tr, n, ends_at("inline"@), inline_fails(), inline_step(), inline_start(x, tr), o, f1, res) by {}
                    }
                },
                Err(e) => {
                    proof {
                        let res = (Err::<PicFields, OxmlError>(e), reader.count(), fuel as nat);
                        assert(flat_cap_run(x, tr, n, ends_at("inline"@), inline_fails(), inline_step(), inline_start(x, tr), o, f1, res));
                            assert(inline_run(x, tr, n0, o0, budget as nat, res));
                            assert(inline_run(old(reader).input(), old(reader).trims(), old(reader).count(), o0, budget_left(old(reader)), res));
                    }
                    return Err(e);
                },
            }
        }
        proof {
            assert(flat_cap_run(x, tr, reader.count(), ends_at("inline"@), inline_fails(), inline_step(), inline_start(x, tr), f, 0nat, (Ok::<PicFields, OxmlError>(f), reader.count(), 0nat)));
                            assert(inline_run(x, tr, n0, o0, budget as nat, (Ok::<PicFields, OxmlError>(f), reader.count(), 0nat)));
                            assert(inline_run(old(reader).input(), old(reader).trims(), old(reader).count(), o0, budget_left(old(reader)), (Ok::<PicFields, OxmlError>(f), reader.count(), 0nat)));
        }
        Ok(inline_from_fields(f))
    }
}

/// Whether the anchor is behind the text: its last `behindDoc` attribute
/// is `1` or `true`.
pub open spec fn behind_doc_of(attrs: Seq<(String, String)>) -> bool {
    match last_exact(attrs, "behindDoc"@) {
        Some(v) => v == "1"@ || v == "true"@,
        None => false,
    }
}

/// The anchor's stacking height: its last `relativeHeight` attribute as a
/// number, 0 when missing or not a number.
pub open spec fn relative_height_of(attrs: Seq<(String, String)>) -> u32 {
    match last_exact(attrs, "relativeHeight"@) {
        Some(v) => match parse_u32(v) {
            Some(n) => n,
            None => 0,
        },
        None => 0,
    }
}

/// The `behindDoc` and `relativeHeight` of an anchor's start tag.
pub fn anchor_start_attrs(t: &Tag) -> (r: (bool, u32))
    ensures
        r.0 == behind_doc_of(t.attrs@),
        r.1 == relative_height_of(t.attrs@),
{
    let behind = match last_exact_value(&t.attrs, "behindDoc") {
        Some(v) => str_eq(v.as_str(), "1") || str_eq(v.as_str(), "true"),
        None => false,
    };
    let height = match last_exact_value(&t.attrs, "relativeHeight") {
        Some(v) => match parse_u32_str(v.as_str()) {
            Some(n) => n,
            None => 0,
        },
        None => 0,
    };
    (behind, height)
}

/// A position offset from its text: the trimmed text as a number, 0 when
/// it is not one.
pub open spec fn offset_of(text: Seq<char>) -> i64 {
    match parse_i64(trimmed(text)) {
        Some(n) => n,
        None => 0,
    }
}

/// A position offset from its text.
pub fn offset_value(text: &str) -> (r: i64)
    ensures
        r == offset_of(text@),
{
    let cs = str_chars(text);
    let t = trim_chars(cs.as_slice());
    match parse_i64_chars(t.as_slice()) {
        Some(n) => n,
        None => 0,
    }
}

/// Any call: where a reader may stand after a text read that failed.
pub open spec fn resumes_at(q: nat) -> bool {
    true
}

/// Reading a position element from call `n` on of a reader over `x`, with
/// the offset `off` read so far, its end tag `end` and `f` events left,
/// ends in `res`: each `posOffset` start tag sets the offset from the text
/// up to its end tag (`offset_of`; a text read that fails counts as empty,
/// the reading going on wherever the reader then stands); the end tag, the
/// end of input or the last event allowed ends the reading; an error of the
/// reader fails it.
pub open spec fn pos_run(x: Seq<u8>, tr: bool, n: nat, off: Option<i64>, end: Seq<char>, f: nat, res: ReadOutcome<Option<i64>>) -> bool
    decreases f,
{
    if f == 0 {
        res == (Ok::<Option<i64>, OxmlError>(off), n, 0nat)
    } else {
        let g = (f - 1) as nat;
        match xml_event(x, tr, n) {
            Ok(ReadEvent::Start(t)) => if local_is(t.name@, "posOffset"@) {
                match xml_text_to(x, tr, n + 1, t.name@) {
                    Some((txt, q)) => pos_run(x, tr, q, Some(offset_of(txt)), end, g, res),
                    None => exists|q: nat| #[trigger] resumes_at(q) && pos_run(x, tr, q, Some(offset_of(Seq::empty())), end, g, res),
                }
            } else {
                pos_run(x, tr, n + 1, off, end, g, res)
            },
            Ok(ReadEvent::End(m)) => if local_is(m@, end) {
                res == (Ok::<Option<i64>, OxmlError>(off), n + 1, g)
            } else {
                pos_run(x, tr, n + 1, off, end, g, res)
            },
            Ok(ReadEvent::Eof) => res == (Ok::<Option<i64>, OxmlError>(off), n + 1, g),
            Ok(_) => pos_run(x, tr, n + 1, off, end, g, res),
            Err(e) => res == (Err::<Option<i64>, OxmlError>(e), n + 1, g),
        }
    }
}

/// Reading a position element from call `n` on, with the budget for what
/// is left unread.
pub open spec fn pos_read(x: Seq<u8>, tr: bool, n: nat, end: Seq<char>, res: ReadOutcome<Option<i64>>) -> bool {
    pos_run(x, tr, n, None, end, budget_for(xml_unread(x, tr, n)), res)
}

/// One step of `pos_run` over a `posOffset` element.
proof fn lemma_pos_text(
    x: Seq<u8>,
    tr: bool,
    n: nat,
    off: Option<i64>,
    end: Seq<char>,
    f: nat,
    t: Tag,
    q: nat,
    txt: Seq<char>,
    res: ReadOutcome<Option<i64>>,
)
    requires
        f > 0,
        xml_event(x, tr, n) == Ok::<ReadEvent, OxmlError>(ReadEvent::Start(t)),
        local_is(t.name@, "posOffset"@),
        xml_text_to(x, tr, n + 1, t.name@) == Some((txt, q)) || (xml_text_to(x, tr, n + 1, t.name@) is None && txt
            == Seq::<char>::empty()),
        pos_run(x, tr, q, Some(offset_of(txt)), end, (f - 1) as nat, res),
    ensures
        pos_run(x, tr, n, off, end, f, res),
{
    assert(resumes_at(q));
}

/// Read a position element after its start tag up to its end `end` (or the
/// end of input): the offset of its last `posOffset` child, if any (text
/// that cannot be read counts as empty).
fn read_position(reader: &mut XmlReader, end: &str) -> (r: Result<Option<i64>, OxmlError>)
    ensures
        final(reader).same_input(old(reader)),
        exists|f: nat|
            #[trigger] pos_read(old(reader).input(), old(reader).trims(), old(reader).count(), end@,
                (r, final(reader).count(), f)),
{
    let ghost x = reader.input();
    let ghost tr = reader.trims();
    let ghost n0 = reader.count();
    let mut off: Option<i64> = None;
    let budget = event_budget(unread_len(reader));
    let mut fuel = budget;
    while fuel > 0
        invariant
            fuel <= budget,
            budget as nat == budget_for(xml_unread(x, tr, n0)),
            reader.input() == x,
            reader.trims() == tr,
            x == old(reader).input(),
            tr == old(reader).trims(),
            n0 == old(reader).count(),
            forall|res: ReadOutcome<Option<i64>>|
                #[trigger] pos_run(x, tr, reader.count(), off, end@, fuel as nat, res) ==> pos_read(x, tr, n0, end@, res),
        decreases fuel,
    {
        let ghost n = reader.count();
        let ghost o = off;
        let ghost f1 = fuel as nat;
        fuel = fuel - 1;
        match read_event(reader) {
            Ok(ReadEvent::Start(t)) => {
                if name_is(t.name.as_str(), "posOffset") {
                    let text = match read_text_to(reader, t.name.as_str()) {
                        Ok(s) => s,
                        Err(_) => String::new(),
                    };
                    off = Some(offset_value(text.as_str()));
                    proof {
                        let q = reader.count();
                        assert forall|res: ReadOutcome<Option<i64>>|
                            #[trigger] pos_run(x, tr, reader.count(), off, end@, fuel as nat, res) implies pos_run(
                            x, tr, n, o, end@, f1, res) by {
                            lemma_pos_text(x, tr, n, o, end@, f1, t, q, text@, res);
                        }
                    }
                } else {
                    proof {
                        assert forall|res: ReadOutcome<Option<i64>>|
                            #[trigger] pos_run(x, tr, reader.count(), off, end@, fuel as nat, res) implies pos_run(
                            x, tr, n, o, end@, f1, res) by {}
                    }
                }
            },
            Ok(ReadEvent::End(nm)) => {
                if name_is(nm.as_str(), end) {
                    proof {
                        let res = (Ok::<Option<i64>, OxmlError>(off), reader.count(), fuel as nat);
                        assert(pos_run(x, tr, n, o, end@, f1, res));
                        assert(pos_read(old(reader).input(), old(reader).trims(), old(reader).count(), end@, res));
                    }
                    return Ok(off);
                }
                proof {
                    assert forall|res: ReadOutcome<Option<i64>>|
                        #[trigger] pos_run(x, tr, reader.count(), off, end@, fuel as nat, res) implies pos_run(
                        x, tr, n, o, end@, f1, res) by {}
                }
            },
            Ok(ReadEvent::Eof) => {
                proof {
                    let res = (Ok::<Option<i64>, OxmlError>(off), reader.count(), fuel as nat);
                    assert(pos_run(x, tr, n, o, end@, f1, res));
                    assert(pos_read(old(reader).input(), old(reader).trims(), old(reader).count(), end@, res));
                }
                return Ok(off);
            },
            Ok(_) => {
                proof {
                    assert forall|res: ReadOutcome<Option<i64>>|
                        #[trigger] pos_run(x, tr, reader.count(), off, end@, fuel as nat, res) implies pos_run(
                        x, tr, n, o, end@, f1, res) by {}
                }
            },
            Err(e) => {
                proof {
                    let res = (Err::<Option<i64>, OxmlError>(e), reader.count(), fuel as nat);
                    assert(pos_run(x, tr, n, o, end@, f1, res));
                    assert(pos_read(old(reader).input(), old(reader).trims(), old(reader).count(), end@, res));
                }
                return Err(e);
            },
        }
    }
    proof {
        let res = (Ok::<Option<i64>, OxmlError>(off), reader.count(), 0nat);
        assert(pos_run(x, tr, reader.count(), off, end@, 0nat, res));
        assert(pos_read(old(reader).input(), old(reader).trims(), old(reader).count(), end@, res));
    }
    Ok(off)
}

/// The horizontal frame a `positionH` tag names by its last `relativeFrom`,
/// else `d`.
pub fn frame_h(t: &Tag, d: ST_RelativeFromH) -> (r: ST_RelativeFromH)
    ensures
        r == (match last_exact(t.attrs@, "relativeFrom"@) {
            Some(v) => rel_h_parse(v),
            None => d,
        }),
{
    match last_exact_value(&t.attrs, "relativeFrom") {
        Some(v) => ST_RelativeFromH::from_str(v.as_str()),
        None => d,
    }
}

/// The vertical frame a `positionV` tag names by its last `relativeFrom`,
/// else `d`.
pub fn frame_v(t: &Tag, d: ST_RelativeFromV) -> (r: ST_RelativeFromV)
    ensures
        r == (match last_exact(t.attrs@, "relativeFrom"@) {
            Some(v) => rel_v_parse(v),
            None => d,
        }),
{
    match last_exact_value(&t.attrs, "relativeFrom") {
        Some(v) => ST_RelativeFromV::from_str(v.as_str()),
        None => d,
    }
}

/// What reading an anchored picture collects: the picture and the two
/// positions.
pub struct AnchorAcc {
    pub pic: PicFields,
    pub h_off: i64,
    pub h_from: ST_RelativeFromH,
    pub v_off: i64,
    pub v_from: ST_RelativeFromV,
}

/// An anchor with nothing read yet.
pub open spec fn anchor_blank(a: AnchorAcc) -> bool {
    pic_blank(a.pic) && a.h_off == 0 && a.h_from == ST_RelativeFromH::Page && a.v_off == 0
        && a.v_from == ST_RelativeFromV::Page
}

/// Where reading an anchor fails on an empty tag.
pub open spec fn anchor_fails() -> spec_fn(AnchorAcc, Tag) -> bool {
    |o: AnchorAcc, t: Tag| pic_tag_fails(o.pic, t, true)
}

/// What an empty tag does to an anchor: to its picture as `pic_after_tag`
/// says.
pub open spec fn anchor_step() -> spec_fn(AnchorAcc, AnchorAcc, Tag) -> bool {
    |o: AnchorAcc, m: AnchorAcc, t: Tag| m == (AnchorAcc { pic: m.pic, ..o }) && pic_after_tag(o.pic, m.pic, t, true)
}

/// The frame a position tag names by its last `relativeFrom`, else `d`.
pub open spec fn frame_h_of(t: Tag, d: ST_RelativeFromH) -> ST_RelativeFromH {
    match last_exact(t.attrs@, "relativeFrom"@) {
        Some(v) => rel_h_parse(v),
        None => d,
    }
}

/// The frame a position tag names by its last `relativeFrom`, else `d`.
pub open spec fn frame_v_of(t: Tag, d: ST_RelativeFromV) -> ST_RelativeFromV {
    match last_exact(t.attrs@, "relativeFrom"@) {
        Some(v) => rel_v_parse(v),
        None => d,
    }
}

/// An offset read, or the one there was.
pub open spec fn off_or(off: Option<i64>, d: i64) -> i64 {
    match off {
        Some(v) => v,
        None => d,
    }
}

/// What a start tag inside an anchor does, read from call `p` on:
/// `positionH` and `positionV` set their frame and, as `pos_read` says,
/// their offset; a `blip` or `docPr` as `pic_start` says; any other is
/// passed.
pub open spec fn anchor_start(x: Seq<u8>, tr: bool) -> spec_fn(AnchorAcc, Tag, nat, Result<AnchorAcc, OxmlError>, nat) -> bool {
    |o: AnchorAcc, t: Tag, p: nat, m: Result<AnchorAcc, OxmlError>, q: nat|
        if local_is(t.name@, "positionH"@) {
            exists|ro: Result<Option<i64>, OxmlError>, f: nat|
                #[trigger] pos_read(x, tr, p, "positionH"@, (ro, q, f)) && match ro {
                    Ok(off) => m == Ok::<AnchorAcc, OxmlError>(
                        AnchorAcc { h_from: frame_h_of(t, o.h_from), h_off: off_or(off, o.h_off), ..o },
                    ),
                    Err(e) => m == Err::<AnchorAcc, OxmlError>(e),
                }
        } else if local_is(t.name@, "positionV"@) {
            exists|ro: Result<Option<i64>, OxmlError>, f: nat|
                #[trigger] pos_read(x, tr, p, "positionV"@, (ro, q, f)) && match ro {
                    Ok(off) => m == Ok::<AnchorAcc, OxmlError>(
                        AnchorAcc { v_from: frame_v_of(t, o.v_from), v_off: off_or(off, o.v_off), ..o },
                    ),
                    Err(e) => m == Err::<AnchorAcc, OxmlError>(e),
                }
        } else if pic_tag(t) {
            match xml_skip_to(x, tr, p, t.name@) {
                Some(q2) => q == q2 && (m matches Ok(a2) && a2 == AnchorAcc { pic: a2.pic, ..o } && pic_after_tag(
                    o.pic,
                    a2.pic,
                    t,
                    false,
                )),
                None => m is Err,
            }
        } else {
            m == Ok::<AnchorAcc, OxmlError>(o) && q == p
        }
}

/// Reading an anchored picture from call `n` on, over what `o` holds, ends
/// in `res`.
pub open spec fn anchor_run(x: Seq<u8>, tr: bool, n: nat, o: AnchorAcc, f: nat, res: ReadOutcome<AnchorAcc>) -> bool {
    flat_cap_run(x, tr, n, ends_at("anchor"@), anchor_fails(), anchor_step(), anchor_start(x, tr), o, f, res)
}

/// The anchored picture a reading gives: behind-text flag and stacking
/// height from its start tag, the positions, size, image, description and
/// name read, no wrapping, no properties and no verbatim copy.
pub open spec fn anchor_of(start: Tag, a: AnchorAcc, v: CT_Anchor) -> bool {
    anchor_fields(start, a, v) && v.raw_xml is None
}

/// The anchored picture a reading gives, but for its verbatim copy.
pub open spec fn anchor_fields(start: Tag, a: AnchorAcc, v: CT_Anchor) -> bool {
    &&& v.behind_doc == behind_doc_of(start.attrs@) && v.relative_height == relative_height_of(start.attrs@)
    &&& v.pos_h_offset == Emu(a.h_off) && v.pos_h_relative_from == a.h_from
    &&& v.pos_v_offset == Emu(a.v_off) && v.pos_v_relative_from == a.v_from
    &&& v.extent_cx == Emu(a.pic.cx) && v.extent_cy == Emu(a.pic.cy) && v.wrap == WrapType::WrapNone
    &&& v.embed_id == a.pic.embed && v.description == a.pic.descr && v.name == a.pic.name
    &&& pic_props_none(v.props)
}

/// The anchored picture of what was read.
fn anchor_from_acc(behind_doc: bool, relative_height: u32, st: AnchorAcc) -> (v: CT_Anchor)
    ensures
        v.behind_doc == behind_doc && v.relative_height == relative_height,
        v.pos_h_offset == Emu(st.h_off) && v.pos_h_relative_from == st.h_from,
        v.pos_v_offset == Emu(st.v_off) && v.pos_v_relative_from == st.v_from,
        v.extent_cx == Emu(st.pic.cx) && v.extent_cy == Emu(st.pic.cy) && v.wrap == WrapType::WrapNone,
        v.embed_id == st.pic.embed && v.description == st.pic.descr && v.name == st.pic.name,
        pic_props_none(v.props) && v.raw_xml is None,
{
    CT_Anchor {
        behind_doc,
        pos_h_offset: Emu(st.h_off),
        pos_h_relative_from: st.h_from,
        pos_v_offset: Emu(st.v_off),
        pos_v_relative_from: st.v_from,
        extent_cx: Emu(st.pic.cx),
        extent_cy: Emu(st.pic.cy),
        wrap: WrapType::WrapNone,
        embed_id: st.pic.embed,
        relative_height,
        description: st.pic.descr,
        name: st.pic.name,
        props: PicProps::default(),
        raw_xml: None,
    }
}

impl CT_Anchor {
    /// Read an anchored picture from the events after its start tag
    /// `start` up to its end (or the end of input): behind-text flag and
    /// stacking height from `start`, each tag as `read_pic_tag` says, the
    /// frame and offset of `positionH` and `positionV`.
    pub fn from_xml(reader: &mut XmlReader, start: &Tag) -> (r: Result<Self, OxmlError>)
        ensures
            final(reader).same_input(old(reader)),
            exists|o: AnchorAcc, res: ReadOutcome<AnchorAcc>|
                #[trigger] anchor_run(old(reader).input(), old(reader).trims(), old(reader).count(), o, budget_left(old(reader)), res)
                && anchor_blank(o) && res.1 == final(reader).count() && match res.0 {
                    Ok(a) => (r matches Ok(v) && anchor_of(*start, a, v)),
                    Err(e) => r == Err::<CT_Anchor, OxmlError>(e),
                },
    {
        let ghost x = reader.input();
        let ghost tr = reader.trims();
        let ghost n0 = reader.count();
        let (behind_doc, relative_height) = anchor_start_attrs(start);
        let mut st = AnchorAcc {
            pic: no_pic(),
            h_off: 0,
            h_from: ST_RelativeFromH::Page,
            v_off: 0,
            v_from: ST_RelativeFromV::Page,
        };
        let ghost o0 = st;
        let budget = event_budget(unread_len(reader));
        let mut fuel = budget;
        while fuel > 0
            invariant
                fuel <= budget,
                budget as nat == budget_for(xml_unread(x, tr, n0)),
                reader.input() == x,
                reader.trims() == tr,
                x == old(reader).input(),
                tr == old(reader).trims(),
                n0 == old(reader).count(),
                anchor_blank(o0),
                behind_doc == behind_doc_of(start.attrs@) && relative_height == relative_height_of(start.attrs@),
                forall|res: ReadOutcome<AnchorAcc>|
                    #[trigger] flat_cap_run(x, tr, reader.count(), ends_at("anchor"@), anchor_fails(), anchor_step(), anchor_start(x, tr), st, fuel as nat, res)
                        ==> anchor_run(x, tr, n0, o0, budget as nat, res),
            decreases fuel,
        {
            let ghost n = reader.count();
            let ghost o = st;
            let ghost f1 = fuel as nat;
            fuel = fuel - 1;
            match read_event(reader) {
                Ok(ReadEvent::Empty(t)) => {
                    if let Err(e) = read_pic_tag(&mut st.pic, &t, true) {
                        proof {
                            let res = (Err::<AnchorAcc, OxmlError>(e), reader.count(), fuel as nat);
                            assert(flat_cap_run(x, tr, n, ends_at("anchor"@), anchor_fails(), anchor_step(), anchor_start(x, tr), o, f1, res));
                            assert(anchor_run(x, tr, n0, o0, budget as nat, res));
                            assert(anchor_run(old(reader).input(), old(reader).trims(), old(reader).count(), o0, budget_left(old(reader)), res));
                        }
                        return Err(e);
                    }
                    proof {
                        assert(anchor_step()(o, st, t));
                        assert forall|res: ReadOutcome<AnchorAcc>|
                            #[trigger] flat_cap_run(x, tr, reader.count(), ends_at("anchor"@), anchor_fails(), anchor_step(), anchor_start(x, tr), st, fuel as nat, res)
                            implies flat_cap_run(x, tr, n, ends_at("anchor"@), anchor_fails(), anchor_step(), anchor_start(x, tr), o, f1, res) by {
                            lemma_flat_cap_empty(x, tr, n, ends_at("anchor"@), anchor_fails(), anchor_step(), anchor_start(x, tr), o, st, f1, t, res);
                        }
                    }
                },
                Ok(ReadEvent::Start(t)) => {
                    let nm = t.name.as_str();
                    if name_is(nm, "positionH") {
                        st.h_from = frame_h(&t, st.h_from);
                        let res = read_position(reader, "positionH");
                        let ghost gres = res;
                        match res {
                            Ok(v) => {
                                if let Some(k) = v {
                                    st.h_off = k;
                                }
                        proof {
                            let q = reader.count();
                            assert(anchor_start(x, tr)(o, t, n + 1, Ok::<AnchorAcc, OxmlError>(st), q));
                            assert forall|res: ReadOutcome<AnchorAcc>|
                                #[trigger] flat_cap_run(x, tr, reader.count(), ends_at("anchor"@), anchor_fails(), anchor_step(), anchor_start(x, tr), st, fuel as nat, res)
                                implies flat_cap_run(x, tr, n, ends_at("anchor"@), anchor_fails(), anchor_step(), anchor_start(x, tr), o, f1, res) by {
                                lemma_flat_cap_start(x, tr, n, ends_at("anchor"@), anchor_fails(), anchor_step(), anchor_start(x, tr), o, f1, t, Ok::<AnchorAcc, OxmlError>(st), q, res);
                            }
                        }
                            },
                            Err(e) => {
                            proof {
                                let q = reader.count();
                                let res = (Err::<AnchorAcc, OxmlError>(e), q, fuel as nat);
                                assert(anchor_start(x, tr)(o, t, n + 1, Err::<AnchorAcc, OxmlError>(e), q));
                                lemma_flat_cap_start(x, tr, n, ends_at("anchor"@), anchor_fails(), anchor_step(), anchor_start(x, tr), o, f1, t, Err::<AnchorAcc, OxmlError>(e), q, res);
                            assert(anchor_run(x, tr, n0, o0, budget as nat, res));
                            assert(anchor_run(old(reader).input(), old(reader).trims(), old(reader).count(), o0, budget_left(old(reader)), res));
                            }
                            return Err(e);
                            },
                        }
                    } else if name_is(nm, "positionV") {
                        st.v_from = frame_v(&t, st.v_from);
                        let res = read_position(reader, "positionV");
                        let ghost gres = res;
                        match res {
                            Ok(v) => {
                                if let Some(k) = v {
                                    st.v_off = k;
                                }
                        proof {
                            let q = reader.count();
                            assert(anchor_start(x, tr)(o, t, n + 1, Ok::<AnchorAcc, OxmlError>(st), q));
                            assert forall|res: ReadOutcome<AnchorAcc>|
                                #[trigger] flat_cap_run(x, tr, reader.count(), ends_at("anchor"@), anchor_fails(), anchor_step(), anchor_start(x, tr), st, fuel as nat, res)
                                implies flat_cap_run(x, tr, n, ends_at("anchor"@), anchor_fails(), anchor_step(), anchor_start(x, tr), o, f1, res) by {
                                lemma_flat_cap_start(x, tr, n, ends_at("anchor"@), anchor_fails(), anchor_step(), anchor_start(x, tr), o, f1, t, Ok::<AnchorAcc, OxmlError>(st), q, res);
                            }
                        }
                            },
                            Err(e) => {
                            proof {
                                let q = reader.count();
                                let res = (Err::<AnchorAcc, OxmlError>(e), q, fuel as nat);
                                assert(anchor_start(x, tr)(o, t, n + 1, Err::<AnchorAcc, OxmlError>(e), q));
                                lemma_flat_cap_start(x, tr, n, ends_at("anchor"@), anchor_fails(), anchor_step(), anchor_start(x, tr), o, f1, t, Err::<AnchorAcc, OxmlError>(e), q, res);
                            assert(anchor_run(x, tr, n0, o0, budget as nat, res));
                            assert(anchor_run(old(reader).input(), old(reader).trims(), old(reader).count(), o0, budget_left(old(reader)), res));
                            }
                            return Err(e);
                            },
                        }
                    } else if name_is(nm, "blip") || name_is(nm, "docPr") {
                        let rr = read_pic_tag(&mut st.pic, &t, false);
                        proof { assert(rr is Ok); }
                        match skip_to_end(reader, nm) {
                            Ok(_) => {
                        proof {
                            let q = reader.count();
                            assert(anchor_start(x, tr)(o, t, n + 1, Ok::<AnchorAcc, OxmlError>(st), q));
                            assert forall|res: ReadOutcome<AnchorAcc>|
                                #[trigger] flat_cap_run(x, tr, reader.count(), ends_at("anchor"@), anchor_fails(), anchor_step(), anchor_start(x, tr), st, fuel as nat, res)
                                implies flat_cap_run(x, tr, n, ends_at("anchor"@), anchor_fails(), anchor_step(), anchor_start(x, tr), o, f1, res) by {
                                lemma_flat_cap_start(x, tr, n, ends_at("anchor"@), anchor_fails(), anchor_step(), anchor_start(x, tr), o, f1, t, Ok::<AnchorAcc, OxmlError>(st), q, res);
                            }
                        }
                            },
                            Err(e) => {
                            proof {
                                let q = reader.count();
                                let res = (Err::<AnchorAcc, OxmlError>(e), q, fuel as nat);
                                assert(anchor_start(x, tr)(o, t, n + 1, Err::<AnchorAcc, OxmlError>(e), q));
                                lemma_flat_cap_start(x, tr, n, ends_at("anchor"@), anchor_fails(), anchor_step(), anchor_start(x, tr), o, f1, t, Err::<AnchorAcc, OxmlError>(e), q, res);
                            assert(anchor_run(x, tr, n0, o0, budget as nat, res));
                            assert(anchor_run(old(reader).input(), old(reader).trims(), old(reader).count(), o0, budget_left(old(reader)), res));
                            }
                            return Err(e);
                            },
                        }
                    } else {
                        proof {
                            let q = reader.count();
                            assert(anchor_start(x, tr)(o, t, n + 1, Ok::<AnchorAcc, OxmlError>(st), q));
                            assert forall|res: ReadOutcome<AnchorAcc>|
                                #[trigger] flat_cap_run(x, tr, reader.count(), ends_at("anchor"@), anchor_fails(), anchor_step(), anchor_start(x, tr), st, fuel as nat, res)
                                implies flat_cap_run(x, tr, n, ends_at("anchor"@), anchor_fails(), anchor_step(), anchor_start(x, tr), o, f1, res) by {
                                lemma_flat_cap_start(x, tr, n, ends_at("anchor"@), anchor_fails(), anchor_step(), anchor_start(x, tr), o, f1, t, Ok::<AnchorAcc, OxmlError>(st), q, res);
                            }
                        }
                    }
                },
                Ok(ReadEvent::End(nm)) => {
                    if name_is(nm.as_str(), "anchor") {
                        proof {
                            assert(flat_cap_run(x, tr, n, ends_at("anchor"@), anchor_fails(), anchor_step(), anchor_start(x, tr), o, f1, (Ok::<AnchorAcc, OxmlError>(st), reader.count(), fuel as nat)));
                            assert(anchor_run(x, tr, n0, o0, budget as nat, (Ok::<AnchorAcc, OxmlError>(st), reader.count(), fuel as nat)));
                            assert(anchor_run(old(reader).input(), old(reader).trims(), old(reader).count(), o0, budget_left(old(reader)), (Ok::<AnchorAcc, OxmlError>(st), reader.count(), fuel as nat)));
                        }
                        return Ok(anchor_from_acc(behind_doc, relative_height, st));
                    }
                    proof {
                        assert forall|res: ReadOutcome<AnchorAcc>|
                            #[trigger] flat_cap_run(x, tr, reader.count(), ends_at("anchor"@), anchor_fails(), anchor_step(), anchor_start(x, tr), st, fuel as nat, res)
                            implies flat_cap_run(x, tr, n, ends_at("anchor"@), anchor_fails(), anchor_step(), anchor_start(x, tr), o, f1, res) by {}
                    }
                },
                Ok(ReadEvent::Eof) => {
                    proof {
                        assert(flat_cap_run(x, tr, n, ends_at("anchor"@), anchor_fails(), anchor_step(), anchor_start(x, tr), o, f1, (Ok::<AnchorAcc, OxmlError>(st), reader.count(), fuel as nat)));
                            assert(anchor_run(x, tr, n0, o0, budget as nat, (Ok::<AnchorAcc, OxmlError>(st), reader.count(), fuel as nat)));
                            assert(anchor_run(old(reader).input(), old(reader).trims(), old(reader).count(), o0, budget_left(old(reader)), (Ok::<AnchorAcc, OxmlError>(st), reader.count(), fuel as nat)));
                    }
                    return Ok(anchor_from_acc(behind_doc, relative_height, st));
                },
                Ok(_) => {
                    proof {
                        assert forall|res: ReadOutcome<AnchorAcc>|
                            #[trigger] flat_cap_run(x, tr, reader.count(), ends_at("anchor"@), anchor_fails(), anchor_step(), anchor_start(x, tr), st, fuel as nat, res)
                            implies flat_cap_run(x, tr, n, ends_at("anchor"@), anchor_fails(), anchor_step(), anchor_start(x, tr), o, f1, res) by {}
                    }
                },
                Err(e) => {
                    proof {
                        let res = (Err::<AnchorAcc, OxmlError>(e), reader.count(), fuel as nat);
                        assert(flat_cap_run(x, tr, n, ends_at("anchor"@), anchor_fails(), anchor_step(), anchor_start(x, tr), o, f1, res));
                            assert(anchor_run(x, tr, n0, o0, budget as nat, res));
                            assert(anchor_run(old(reader).input(), old(reader).trims(), old(reader).count(), o0, budget_left(old(reader)), res));
                    }
                    return Err(e);
                },
            }
        }
        proof {
            assert(flat_cap_run(x, tr, reader.count(), ends_at("anchor"@), anchor_fails(), anchor_step(), anchor_start(x, tr), st, 0nat, (Ok::<AnchorAcc, OxmlError>(st), reader.count(), 0nat)));
                            assert(anchor_run(x, tr, n0, o0, budget as nat, (Ok::<AnchorAcc, OxmlError>(st), reader.count(), 0nat)));
                            assert(anchor_run(old(reader).input(), old(reader).trims(), old(reader).count(), o0, budget_left(old(reader)), (Ok::<AnchorAcc, OxmlError>(st), reader.count(), 0nat)));
        }
        Ok(anchor_from_acc(behind_doc, relative_height, st))
    }
}

/// The first start tag whose local name is `name` that a reader over `b`
/// (trimming text) hands out from call `k` on, within `f` events, with the
/// call after it; nothing at the end of input; an error of the reader
/// fails the search.
pub open spec fn scan_start(b: Seq<u8>, k: nat, name: Seq<char>, f: nat) -> Result<Option<(Tag, nat)>, OxmlError>
    decreases f,
{
    if f == 0 {
        Ok(None)
    } else {
        match xml_event(b, true, k) {
            Ok(ReadEvent::Start(t)) => if local_is(t.name@, name) {
                Ok(Some((t, k + 1)))
            } else {
                scan_start(b, k + 1, name, (f - 1) as nat)
            },
            Ok(ReadEvent::Eof) => Ok(None),
            Ok(_) => scan_start(b, k + 1, name, (f - 1) as nat),
            Err(e) => Err(e),
        }
    }
}

/// What reading an inline picture kept verbatim as `b` gives: the first
/// `inline` start tag in it, read as `inline_run` says, with `b` as its copy.
pub open spec fn raw_inline_read(b: Seq<u8>, r: Result<Option<CT_Inline>, OxmlError>) -> bool {
    match scan_start(b, 0, "inline"@, budget_for(xml_unread(b, true, 0))) {
        Ok(Some((t, k))) => exists|o: PicFields, res: ReadOutcome<PicFields>|
            #[trigger] inline_run(b, true, k, o, budget_for(xml_unread(b, true, k)), res) && pic_blank(o) && match res.0 {
                Ok(f) => (r matches Ok(Some(i)) && inline_fields(f, i) && (i.raw_xml matches Some(rv) && rv@ == b)),
                Err(e) => r == Err::<Option<CT_Inline>, OxmlError>(e),
            },
        Ok(None) => r == Ok::<Option<CT_Inline>, OxmlError>(None),
        Err(e) => r == Err::<Option<CT_Inline>, OxmlError>(e),
    }
}

/// What reading an anchored picture kept verbatim as `b` gives: the first
/// `anchor` start tag in it, read as `anchor_run` says, with `b` as its
/// copy.
pub open spec fn raw_anchor_read(b: Seq<u8>, r: Result<Option<CT_Anchor>, OxmlError>) -> bool {
    match scan_start(b, 0, "anchor"@, budget_for(xml_unread(b, true, 0))) {
        Ok(Some((t, k))) => exists|o: AnchorAcc, res: ReadOutcome<AnchorAcc>|
            #[trigger] anchor_run(b, true, k, o, budget_for(xml_unread(b, true, k)), res) && anchor_blank(o) && match res.0 {
                Ok(a) => (r matches Ok(Some(v)) && anchor_fields(t, a, v) && (v.raw_xml matches Some(rv) && rv@ == b)),
                Err(e) => r == Err::<Option<CT_Anchor>, OxmlError>(e),
            },
        Ok(None) => r == Ok::<Option<CT_Anchor>, OxmlError>(None),
        Err(e) => r == Err::<Option<CT_Anchor>, OxmlError>(e),
    }
}

/// The raw-copy reading of an inline picture, from its parts.
proof fn lemma_raw_inline(b: Seq<u8>, t: Tag, k: nat, o: PicFields, res: ReadOutcome<PicFields>, r: Result<Option<CT_Inline>, OxmlError>)
    requires
        scan_start(b, 0, "inline"@, budget_for(xml_unread(b, true, 0))) == Ok::<Option<(Tag, nat)>, OxmlError>(Some((t, k))),
        inline_run(b, true, k, o, budget_for(xml_unread(b, true, k)), res),
        pic_blank(o),
        match res.0 {
            Ok(f) => (r matches Ok(Some(i)) && inline_fields(f, i) && (i.raw_xml matches Some(rv) && rv@ == b)),
            Err(e) => r == Err::<Option<CT_Inline>, OxmlError>(e),
        },
    ensures
        raw_inline_read(b, r),
{
    if let Ok(Some((t2, k2))) = scan_start(b, 0, "inline"@, budget_for(xml_unread(b, true, 0))) {
        assert(inline_run(b, true, k2, o, budget_for(xml_unread(b, true, k2)), res));
    }
}

/// The raw-copy reading of an anchored picture, from its parts.
proof fn lemma_raw_anchor(b: Seq<u8>, t: Tag, k: nat, o: AnchorAcc, res: ReadOutcome<AnchorAcc>, r: Result<Option<CT_Anchor>, OxmlError>)
    requires
        scan_start(b, 0, "anchor"@, budget_for(xml_unread(b, true, 0))) == Ok::<Option<(Tag, nat)>, OxmlError>(Some((t, k))),
        anchor_run(b, true, k, o, budget_for(xml_unread(b, true, k)), res),
        anchor_blank(o),
        match res.0 {
            Ok(a) => (r matches Ok(Some(v)) && anchor_fields(t, a, v) && (v.raw_xml matches Some(rv) && rv@ == b)),
            Err(e) => r == Err::<Option<CT_Anchor>, OxmlError>(e),
        },
    ensures
        raw_anchor_read(b, r),
{
    if let Ok(Some((t2, k2))) = scan_start(b, 0, "anchor"@, budget_for(xml_unread(b, true, 0))) {
        assert(anchor_run(b, true, k2, o, budget_for(xml_unread(b, true, k2)), res));
    }
}

/// Reading an inline picture kept verbatim is a start step of a drawing.
proof fn lemma_drawing_inline(x: Seq<u8>, tr: bool, o: CT_Drawing, t: Tag, p: nat, q: nat, b: Seq<u8>, ri: Result<Option<CT_Inline>, OxmlError>, m: Result<CT_Drawing, OxmlError>)
    requires
        local_is(t.name@, "inline"@),
        captured(x, tr, p, t) == (Ok::<Seq<u8>, OxmlError>(b), q),
        raw_inline_read(b, ri),
        match ri {
            Ok(Some(i)) => m == Ok::<CT_Drawing, OxmlError>(CT_Drawing { inline: Some(i), ..o }),
            Ok(None) => m == Ok::<CT_Drawing, OxmlError>(o),
            Err(e) => m == Err::<CT_Drawing, OxmlError>(e),
        },
    ensures
        drawing_start(x, tr)(o, t, p, m, q),
{
    let c = captured(x, tr, p, t);
    if let Ok(bb) = c.0 {
        assert(raw_inline_read(bb, ri));
    }
}

/// Reading an anchored picture kept verbatim is a start step of a drawing.
proof fn lemma_drawing_anchor(x: Seq<u8>, tr: bool, o: CT_Drawing, t: Tag, p: nat, q: nat, b: Seq<u8>, ra: Result<Option<CT_Anchor>, OxmlError>, m: Result<CT_Drawing, OxmlError>)
    requires
        local_is(t.name@, "anchor"@),
        !local_is(t.name@, "inline"@),
        captured(x, tr, p, t) == (Ok::<Seq<u8>, OxmlError>(b), q),
        raw_anchor_read(b, ra),
        match ra {
            Ok(Some(a)) => m == Ok::<CT_Drawing, OxmlError>(CT_Drawing { anchor: Some(a), ..o }),
            Ok(None) => m == Ok::<CT_Drawing, OxmlError>(o),
            Err(e) => m == Err::<CT_Drawing, OxmlError>(e),
        },
    ensures
        drawing_start(x, tr)(o, t, p, m, q),
{
    let c = captured(x, tr, p, t);
    if let Ok(bb) = c.0 {
        assert(raw_anchor_read(bb, ra));
    }
}

/// Read the inline picture kept verbatim in `raw`, which starts with its
/// start tag.
fn inline_from_raw(raw: Vec<u8>) -> (r: Result<Option<CT_Inline>, OxmlError>)
    ensures
        raw_inline_read(raw@, r),
{
    let ghost b = raw@;
    let mut re = reader_from_bytes(raw.as_slice(), true);
    let budget = event_budget(unread_len(&re));
    let ghost goal = scan_start(b, 0, "inline"@, budget as nat);
    let mut fuel = budget;
    while fuel > 0
        invariant_except_break
            scan_start(b, re.count(), "inline"@, fuel as nat) == goal,
        invariant
            re.input() == b,
            re.trims(),
            raw@ == b,
            goal == scan_start(b, 0, "inline"@, budget_for(xml_unread(b, true, 0))),
        ensures
            goal == Ok::<Option<(Tag, nat)>, OxmlError>(None),
        decreases fuel,
    {
        let ghost n = re.count();
        let ghost f1 = fuel as nat;
        fuel = fuel - 1;
        match read_event(&mut re) {
            Ok(ReadEvent::Start(t)) => {
                if name_is(t.name.as_str(), "inline") {
                    proof { assert(goal == Ok::<Option<(Tag, nat)>, OxmlError>(Some((t, re.count())))); }
                    let ghost k = re.count();
                    let ri = CT_Inline::from_xml(&mut re);
                    let ghost gri = ri;
                    let ghost (o, res) = choose|o: PicFields, res: ReadOutcome<PicFields>|
                        #[trigger] inline_run(b, true, k, o, budget_for(xml_unread(b, true, k)), res) && pic_blank(o)
                        && res.1 == re.count() && match res.0 {
                            Ok(f) => (gri matches Ok(v) && inline_of(f, v)),
                            Err(e) => gri == Err::<CT_Inline, OxmlError>(e),
                        };
                    match ri {
                        Ok(inl) => {
                            let mut inl = inl;
                            inl.raw_xml = Some(raw);
                            proof { lemma_raw_inline(b, t, k, o, res, Ok::<Option<CT_Inline>, OxmlError>(Some(inl))); }
                            return Ok(Some(inl));
                        },
                        Err(e) => {
                            proof { lemma_raw_inline(b, t, k, o, res, Err::<Option<CT_Inline>, OxmlError>(e)); }
                            return Err(e);
                        },
                    }
                }
            },
            Ok(ReadEvent::Eof) => {
                break;
            },
            Ok(_) => {},
            Err(e) => {
                return Err(e);
            },
        }
    }
    Ok(None)
}

/// Read the anchored picture kept verbatim in `raw`, which starts with its
/// start tag.
fn anchor_from_raw(raw: Vec<u8>) -> (r: Result<Option<CT_Anchor>, OxmlError>)
    ensures
        raw_anchor_read(raw@, r),
{
    let ghost b = raw@;
    let mut re = reader_from_bytes(raw.as_slice(), true);
    let budget = event_budget(unread_len(&re));
    let ghost goal = scan_start(b, 0, "anchor"@, budget as nat);
    let mut fuel = budget;
    while fuel > 0
        invariant_except_break
            scan_start(b, re.count(), "anchor"@, fuel as nat) == goal,
        invariant
            re.input() == b,
            re.trims(),
            raw@ == b,
            goal == scan_start(b, 0, "anchor"@, budget_for(xml_unread(b, true, 0))),
        ensures
            goal == Ok::<Option<(Tag, nat)>, OxmlError>(None),
        decreases fuel,
    {
        let ghost n = re.count();
        let ghost f1 = fuel as nat;
        fuel = fuel - 1;
        match read_event(&mut re) {
            Ok(ReadEvent::Start(t)) => {
                if name_is(t.name.as_str(), "anchor") {
                    proof { assert(goal == Ok::<Option<(Tag, nat)>, OxmlError>(Some((t, re.count())))); }
                    let ghost k = re.count();
                    let ra = CT_Anchor::from_xml(&mut re, &t);
                    let ghost gra = ra;
                    let ghost (o, res) = choose|o: AnchorAcc, res: ReadOutcome<AnchorAcc>|
                        #[trigger] anchor_run(b, true, k, o, budget_for(xml_unread(b, true, k)), res) && anchor_blank(o)
                        && res.1 == re.count() && match res.0 {
                            Ok(a) => (gra matches Ok(v) && anchor_of(t, a, v)),
                            Err(e) => gra == Err::<CT_Anchor, OxmlError>(e),
                        };
                    match ra {
                        Ok(anc) => {
                            let mut anc = anc;
                            anc.raw_xml = Some(raw);
                            proof { lemma_raw_anchor(b, t, k, o, res, Ok::<Option<CT_Anchor>, OxmlError>(Some(anc))); }
                            return Ok(Some(anc));
                        },
                        Err(e) => {
                            proof { lemma_raw_anchor(b, t, k, o, res, Err::<Option<CT_Anchor>, OxmlError>(e)); }
                            return Err(e);
                        },
                    }
                }
            },
            Ok(ReadEvent::Eof) => {
                break;
            },
            Ok(_) => {},
            Err(e) => {
                return Err(e);
            },
        }
    }
    Ok(None)
}

/// Reading a drawing never fails on an empty tag, nor is changed by one.
pub open spec fn drawing_fails() -> spec_fn(CT_Drawing, Tag) -> bool {
    |o: CT_Drawing, t: Tag| false
}

/// An empty tag leaves a drawing as it is.
pub open spec fn drawing_step() -> spec_fn(CT_Drawing, CT_Drawing, Tag) -> bool {
    |o: CT_Drawing, m: CT_Drawing, t: Tag| m == o
}

/// What a start tag inside a drawing does, read from call `p` on: an
/// `inline` or `anchor` element is kept verbatim and read again from that
/// copy (`raw_inline_read`, `raw_anchor_read`), a picture found replacing
/// the one there was; any other element is skipped as quick-xml's
/// `read_to_end` does.
pub open spec fn drawing_start(x: Seq<u8>, tr: bool) -> spec_fn(CT_Drawing, Tag, nat, Result<CT_Drawing, OxmlError>, nat) -> bool {
    |o: CT_Drawing, t: Tag, p: nat, m: Result<CT_Drawing, OxmlError>, q: nat|
        if local_is(t.name@, "inline"@) {
            let c = captured(x, tr, p, t);
            q == c.1 && match c.0 {
                Ok(b) => exists|ri: Result<Option<CT_Inline>, OxmlError>|
                    #[trigger] raw_inline_read(b, ri) && match ri {
                        Ok(Some(i)) => m == Ok::<CT_Drawing, OxmlError>(CT_Drawing { inline: Some(i), ..o }),
                        Ok(None) => m == Ok::<CT_Drawing, OxmlError>(o),
                        Err(e) => m == Err::<CT_Drawing, OxmlError>(e),
                    },
                Err(e) => m == Err::<CT_Drawing, OxmlError>(e),
            }
        } else if local_is(t.name@, "anchor"@) {
            let c = captured(x, tr, p, t);
            q == c.1 && match c.0 {
                Ok(b) => exists|ra: Result<Option<CT_Anchor>, OxmlError>|
                    #[trigger] raw_anchor_read(b, ra) && match ra {
                        Ok(Some(a)) => m == Ok::<CT_Drawing, OxmlError>(CT_Drawing { anchor: Some(a), ..o }),
                        Ok(None) => m == Ok::<CT_Drawing, OxmlError>(o),
                        Err(e) => m == Err::<CT_Drawing, OxmlError>(e),
                    },
                Err(e) => m == Err::<CT_Drawing, OxmlError>(e),
            }
        } else {
            match xml_skip_to(x, tr, p, t.name@) {
                Some(q2) => q == q2 && m == Ok::<CT_Drawing, OxmlError>(o),
                None => m is Err,
            }
        }
}

/// Reading a drawing from call `n` on, over what `o` holds, ends in `res`.
pub open spec fn drawing_run(x: Seq<u8>, tr: bool, n: nat, o: CT_Drawing, f: nat, res: ReadOutcome<CT_Drawing>) -> bool {
    flat_cap_run(x, tr, n, ends_at("drawing"@), drawing_fails(), drawing_step(), drawing_start(x, tr), o, f, res)
}

/// Reading a drawing from call `n` on, from nothing, with the budget for
/// what is left unread.
pub open spec fn drawing_read(x: Seq<u8>, tr: bool, n: nat, res: ReadOutcome<CT_Drawing>) -> bool {
    drawing_run(x, tr, n, CT_Drawing { inline: None, anchor: None }, budget_for(xml_unread(x, tr, n)), res)
}

/// An empty tag inside a drawing changes nothing.
fn drawing_empty(d: &mut CT_Drawing, t: &Tag) -> (r: Result<(), OxmlError>)
    ensures
        r is Ok,
        *final(d) == *old(d),
{
    Ok(())
}

impl CT_Drawing {
    /// Read a drawing from the events after `<w:drawing>` up to its end (or
    /// the end of input): an inline or anchored picture is kept verbatim
    /// and read again from that copy; other elements are skipped.
    pub fn from_xml(reader: &mut XmlReader) -> (r: Result<Self, OxmlError>)
        ensures
            final(reader).same_input(old(reader)),
            exists|f: nat|
                #[trigger] drawing_read(old(reader).input(), old(reader).trims(), old(reader).count(),
                    (r, final(reader).count(), f)),
    {
        let ghost x = reader.input();
        let ghost tr = reader.trims();
        let ghost n0 = reader.count();
        let mut d = CT_Drawing { inline: None, anchor: None };
        let budget = event_budget(unread_len(reader));
        let mut fuel = budget;
        while fuel > 0
            invariant
                fuel <= budget,
                budget as nat == budget_for(xml_unread(x, tr, n0)),
                reader.input() == x,
                reader.trims() == tr,
                x == old(reader).input(),
                tr == old(reader).trims(),
                n0 == old(reader).count(),
                                forall|res: ReadOutcome<CT_Drawing>|
                    #[trigger] flat_cap_run(x, tr, reader.count(), ends_at("drawing"@), drawing_fails(), drawing_step(), drawing_start(x, tr), d, fuel as nat, res)
                        ==> drawing_run(x, tr, n0, CT_Drawing { inline: None, anchor: None }, budget as nat, res),
            decreases fuel,
        {
            let ghost n = reader.count();
            let ghost o = d;
            let ghost f1 = fuel as nat;
            fuel = fuel - 1;
            match read_event(reader) {
                Ok(ReadEvent::Empty(t)) => {
                    if let Err(e) = drawing_empty(&mut d, &t) {
                        proof {
                            let res = (Err::<CT_Drawing, OxmlError>(e), reader.count(), fuel as nat);
                            assert(flat_cap_run(x, tr, n, ends_at("drawing"@), drawing_fails(), drawing_step(), drawing_start(x, tr), o, f1, res));
                            assert(drawing_run(x, tr, n0, CT_Drawing { inline: None, anchor: None }, budget as nat, res));
                            assert(drawing_read(old(reader).input(), old(reader).trims(), old(reader).count(), res));
                        }
                        return Err(e);
                    }
                    proof {
                        assert(drawing_step()(o, d, t));
                        assert forall|res: ReadOutcome<CT_Drawing>|
                            #[trigger] flat_cap_run(x, tr, reader.count(), ends_at("drawing"@), drawing_fails(), drawing_step(), drawing_start(x, tr), d, fuel as nat, res)
                            implies flat_cap_run(x, tr, n, ends_at("drawing"@), drawing_fails(), drawing_step(), drawing_start(x, tr), o, f1, res) by {
                            lemma_flat_cap_empty(x, tr, n, ends_at("drawing"@), drawing_fails(), drawing_step(), drawing_start(x, tr), o, d, f1, t, res);
                        }
                    }
                },
                Ok(ReadEvent::Start(t)) => {
                    let nm = t.name.as_str();
                    if name_is(nm, "inline") || name_is(nm, "anchor") {
                        let is_inline = name_is(nm, "inline");
                        let raw = match capture_element(reader, &t) {
                            Ok(b) => b,
                            Err(e) => {
                            proof {
                                let q = reader.count();
                                let res = (Err::<CT_Drawing, OxmlError>(e), q, fuel as nat);
                                assert(drawing_start(x, tr)(o, t, n + 1, Err::<CT_Drawing, OxmlError>(e), q));
                                lemma_flat_cap_start(x, tr, n, ends_at("drawing"@), drawing_fails(), drawing_step(), drawing_start(x, tr), o, f1, t, Err::<CT_Drawing, OxmlError>(e), q, res);
                            assert(drawing_run(x, tr, n0, CT_Drawing { inline: None, anchor: None }, budget as nat, res));
                            assert(drawing_read(old(reader).input(), old(reader).trims(), old(reader).count(), res));
                            }
                            return Err(e);
                            },
                        };
                        let ghost bb = raw@;
                        if is_inline {
                            let ri = inline_from_raw(raw);
                            let ghost gri = ri;
                            match ri {
                                Ok(Some(i)) => {
                                    d.inline = Some(i);
                                    proof { lemma_drawing_inline(x, tr, o, t, n + 1, reader.count(), bb, gri, Ok::<CT_Drawing, OxmlError>(d)); }
                        proof {
                            let q = reader.count();
                            assert(drawing_start(x, tr)(o, t, n + 1, Ok::<CT_Drawing, OxmlError>(d), q));
                            assert forall|res: ReadOutcome<CT_Drawing>|
                                #[trigger] flat_cap_run(x, tr, reader.count(), ends_at("drawing"@), drawing_fails(), drawing_step(), drawing_start(x, tr), d, fuel as nat, res)
                                implies flat_cap_run(x, tr, n, ends_at("drawing"@), drawing_fails(), drawing_step(), drawing_start(x, tr), o, f1, res) by {
                                lemma_flat_cap_start(x, tr, n, ends_at("drawing"@), drawing_fails(), drawing_step(), drawing_start(x, tr), o, f1, t, Ok::<CT_Drawing, OxmlError>(d), q, res);
                            }
                        }
                                },
                                Ok(None) => {
                                    proof { lemma_drawing_inline(x, tr, o, t, n + 1, reader.count(), bb, gri, Ok::<CT_Drawing, OxmlError>(d)); }
                        proof {
                            let q = reader.count();
                            assert(drawing_start(x, tr)(o, t, n + 1, Ok::<CT_Drawing, OxmlError>(d), q));
                            assert forall|res: ReadOutcome<CT_Drawing>|
                                #[trigger] flat_cap_run(x, tr, reader.count(), ends_at("drawing"@), drawing_fails(), drawing_step(), drawing_start(x, tr), d, fuel as nat, res)
                                implies flat_cap_run(x, tr, n, ends_at("drawing"@), drawing_fails(), drawing_step(), drawing_start(x, tr), o, f1, res) by {
                                lemma_flat_cap_start(x, tr, n, ends_at("drawing"@), drawing_fails(), drawing_step(), drawing_start(x, tr), o, f1, t, Ok::<CT_Drawing, OxmlError>(d), q, res);
                            }
                        }
                                },
                                Err(e) => {
                                    proof { lemma_drawing_inline(x, tr, o, t, n + 1, reader.count(), bb, gri, Err::<CT_Drawing, OxmlError>(e)); }
                            proof {
                                let q = reader.count();
                                let res = (Err::<CT_Drawing, OxmlError>(e), q, fuel as nat);
                                assert(drawing_start(x, tr)(o, t, n + 1, Err::<CT_Drawing, OxmlError>(e), q));
                                lemma_flat_cap_start(x, tr, n, ends_at("drawing"@), drawing_fails(), drawing_step(), drawing_start(x, tr), o, f1, t, Err::<CT_Drawing, OxmlError>(e), q, res);
                            assert(drawing_run(x, tr, n0, CT_Drawing { inline: None, anchor: None }, budget as nat, res));
                            assert(drawing_read(old(reader).input(), old(reader).trims(), old(reader).count(), res));
                            }
                            return Err(e);
                                },
                            }
                        } else {
                            let ra = anchor_from_raw(raw);
                            let ghost gra = ra;
                            match ra {
                                Ok(Some(a)) => {
                                    d.anchor = Some(a);
                                    proof { lemma_drawing_anchor(x, tr, o, t, n + 1, reader.count(), bb, gra, Ok::<CT_Drawing, OxmlError>(d)); }
                        proof {
                            let q = reader.count();
                            assert(drawing_start(x, tr)(o, t, n + 1, Ok::<CT_Drawing, OxmlError>(d), q));
                            assert forall|res: ReadOutcome<CT_Drawing>|
                                #[trigger] flat_cap_run(x, tr, reader.count(), ends_at("drawing"@), drawing_fails(), drawing_step(), drawing_start(x, tr), d, fuel as nat, res)
                                implies flat_cap_run(x, tr, n, ends_at("drawing"@), drawing_fails(), drawing_step(), drawing_start(x, tr), o, f1, res) by {
                                lemma_flat_cap_start(x, tr, n, ends_at("drawing"@), drawing_fails(), drawing_step(), drawing_start(x, tr), o, f1, t, Ok::<CT_Drawing, OxmlError>(d), q, res);
                            }
                        }
                                },
                                Ok(None) => {
                                    proof { lemma_drawing_anchor(x, tr, o, t, n + 1, reader.count(), bb, gra, Ok::<CT_Drawing, OxmlError>(d)); }
                        proof {
                            let q = reader.count();
                            assert(drawing_start(x, tr)(o, t, n + 1, Ok::<CT_Drawing, OxmlError>(d), q));
                            assert forall|res: ReadOutcome<CT_Drawing>|
                                #[trigger] flat_cap_run(x, tr, reader.count(), ends_at("drawing"@), drawing_fails(), drawing_step(), drawing_start(x, tr), d, fuel as nat, res)
                                implies flat_cap_run(x, tr, n, ends_at("drawing"@), drawing_fails(), drawing_step(), drawing_start(x, tr), o, f1, res) by {
                                lemma_flat_cap_start(x, tr, n, ends_at("drawing"@), drawing_fails(), drawing_step(), drawing_start(x, tr), o, f1, t, Ok::<CT_Drawing, OxmlError>(d), q, res);
                            }
                        }
                                },
                                Err(e) => {
                                    proof { lemma_drawing_anchor(x, tr, o, t, n + 1, reader.count(), bb, gra, Err::<CT_Drawing, OxmlError>(e)); }
                            proof {
                                let q = reader.count();
                                let res = (Err::<CT_Drawing, OxmlError>(e), q, fuel as nat);
                                assert(drawing_start(x, tr)(o, t, n + 1, Err::<CT_Drawing, OxmlError>(e), q));
                                lemma_flat_cap_start(x, tr, n, ends_at("drawing"@), drawing_fails(), drawing_step(), drawing_start(x, tr), o, f1, t, Err::<CT_Drawing, OxmlError>(e), q, res);
                            assert(drawing_run(x, tr, n0, CT_Drawing { inline: None, anchor: None }, budget as nat, res));
                            assert(drawing_read(old(reader).input(), old(reader).trims(), old(reader).count(), res));
                            }
                            return Err(e);
                                },
                            }
                        }
                    } else {
                        match skip_to_end(reader, nm) {
                            Ok(_) => {
                        proof {
                            let q = reader.count();
                            assert(drawing_start(x, tr)(o, t, n + 1, Ok::<CT_Drawing, OxmlError>(d), q));
                            assert forall|res: ReadOutcome<CT_Drawing>|
                                #[trigger] flat_cap_run(x, tr, reader.count(), ends_at("drawing"@), drawing_fails(), drawing_step(), drawing_start(x, tr), d, fuel as nat, res)
                                implies flat_cap_run(x, tr, n, ends_at("drawing"@), drawing_fails(), drawing_step(), drawing_start(x, tr), o, f1, res) by {
                                lemma_flat_cap_start(x, tr, n, ends_at("drawing"@), drawing_fails(), drawing_step(), drawing_start(x, tr), o, f1, t, Ok::<CT_Drawing, OxmlError>(d), q, res);
                            }
                        }
                            },
                            Err(e) => {
                            proof {
                                let q = reader.count();
                                let res = (Err::<CT_Drawing, OxmlError>(e), q, fuel as nat);
                                assert(drawing_start(x, tr)(o, t, n + 1, Err::<CT_Drawing, OxmlError>(e), q));
                                lemma_flat_cap_start(x, tr, n, ends_at("drawing"@), drawing_fails(), drawing_step(), drawing_start(x, tr), o, f1, t, Err::<CT_Drawing, OxmlError>(e), q, res);
                            assert(drawing_run(x, tr, n0, CT_Drawing { inline: None, anchor: None }, budget as nat, res));
                            assert(drawing_read(old(reader).input(), old(reader).trims(), old(reader).count(), res));
                            }
                            return Err(e);
                            },
                        }
                    }
                },
                Ok(ReadEvent::End(nm)) => {
                    if name_is(nm.as_str(), "drawing") {
                        proof {
                            assert(flat_cap_run(x, tr, n, ends_at("drawing"@), drawing_fails(), drawing_step(), drawing_start(x, tr), o, f1, (Ok::<CT_Drawing, OxmlError>(d), reader.count(), fuel as nat)));
                            assert(drawing_run(x, tr, n0, CT_Drawing { inline: None, anchor: None }, budget as nat, (Ok::<CT_Drawing, OxmlError>(d), reader.count(), fuel as nat)));
                            assert(drawing_read(old(reader).input(), old(reader).trims(), old(reader).count(), (Ok::<CT_Drawing, OxmlError>(d), reader.count(), fuel as nat)));
                        }
                        return Ok(d);
                    }
                    proof {
                        assert forall|res: ReadOutcome<CT_Drawing>|
                            #[trigger] flat_cap_run(x, tr, reader.count(), ends_at("drawing"@), drawing_fails(), drawing_step(), drawing_start(x, tr), d, fuel as nat, res)
                            implies flat_cap_run(x, tr, n, ends_at("drawing"@), drawing_fails(), drawing_step(), drawing_start(x, tr), o, f1, res) by {}
                    }
                },
                Ok(ReadEvent::Eof) => {
                    proof {
                        assert(flat_cap_run(x, tr, n, ends_at("drawing"@), drawing_fails(), drawing_step(), drawing_start(x, tr), o, f1, (Ok::<CT_Drawing, OxmlError>(d), reader.count(), fuel as nat)));
                            assert(drawing_run(x, tr, n0, CT_Drawing { inline: None, anchor: None }, budget as nat, (Ok::<CT_Drawing, OxmlError>(d), reader.count(), fuel as nat)));
                            assert(drawing_read(old(reader).input(), old(reader).trims(), old(reader).count(), (Ok::<CT_Drawing, OxmlError>(d), reader.count(), fuel as nat)));
                    }
                    return Ok(d);
                },
                Ok(_) => {
                    proof {
                        assert forall|res: ReadOutcome<CT_Drawing>|
                            #[trigger] flat_cap_run(x, tr, reader.count(), ends_at("drawing"@), drawing_fails(), drawing_step(), drawing_start(x, tr), d, fuel as nat, res)
                            implies flat_cap_run(x, tr, n, ends_at("drawing"@), drawing_fails(), drawing_step(), drawing_start(x, tr), o, f1, res) by {}
                    }
                },
                Err(e) => {
                    proof {
                        let res = (Err::<CT_Drawing, OxmlError>(e), reader.count(), fuel as nat);
                        assert(flat_cap_run(x, tr, n, ends_at("drawing"@), drawing_fails(), drawing_step(), drawing_start(x, tr), o, f1, res));
                            assert(drawing_run(x, tr, n0, CT_Drawing { inline: None, anchor: None }, budget as nat, res));
                            assert(drawing_read(old(reader).input(), old(reader).trims(), old(reader).count(), res));
                    }
                    return Err(e);
                },
            }
        }
        proof {
            assert(flat_cap_run(x, tr, reader.count(), ends_at("drawing"@), drawing_fails(), drawing_step(), drawing_start(x, tr), d, 0nat, (Ok::<CT_Drawing, OxmlError>(d), reader.count(), 0nat)));
                            assert(drawing_run(x, tr, n0, CT_Drawing { inline: None, anchor: None }, budget as nat, (Ok::<CT_Drawing, OxmlError>(d), reader.count(), 0nat)));
                            assert(drawing_read(old(reader).input(), old(reader).trims(), old(reader).count(), (Ok::<CT_Drawing, OxmlError>(d), reader.count(), 0nat)));
        }
        Ok(d)
    }
}

} // verus!
