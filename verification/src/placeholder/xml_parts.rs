//! Placeholder replacement inside whole XML parts: the paragraphs of text
//! boxes (`w:txbxContent`) of a document part, and the text of chart parts
//! (`a:t` runs and `c:v` cached values); everything else is written back as
//! read.

use vstd::prelude::*;

use crate::xml_read::XmlReader;

use crate::chars::{append_chars, replace_all, replace_all_chars, str_chars, string_from_chars, string_into_bytes, to_owned_string, utf8};
use crate::error::OxmlError;
use crate::header_footer::hdr_ftr_xml::{paras_xml, write_paras};
use crate::placeholder::{find_chars, first_occurrence, paras_replacement_ends, paras_steps, replace_in_paragraphs_checked, replaced_para};
use crate::properties_read::{captured, ReadOutcome};
use crate::table::table_read::{captured_at, captured_bytes, ok_value};
use crate::text::text_read::para_read;
use crate::text::CT_P;
use crate::xml::{emit_end, emit_raw, emit_text, end_tag, text_bytes};
use crate::xml_read::{budget_for, xml_event, xml_skip_to, xml_unread};
use crate::xml_read::{
    capture_element, capture_empty_element, empty_raw, event_budget, local_is, name_is, read_event, reader_from_bytes,
    skip_to_end, start_raw, start_tag_raw, unread_len, ReadEvent, Tag,
};

verus! {

/// The bytes an event is written back as: tags and text as read, the end
/// tag by its name, any other event as quick-xml writes it.
pub open spec fn event_raw(ev: ReadEvent) -> Seq<u8> {
    match ev {
        ReadEvent::Start(t) => start_raw(t),
        ReadEvent::Empty(t) => empty_raw(t),
        ReadEvent::End(n) => end_tag(n@),
        ReadEvent::Text(s) => utf8(s@),
        ReadEvent::Other(b) => b@,
        ReadEvent::Eof => Seq::empty(),
    }
}

/// Write an event back as read.
pub fn write_back(out: &mut Vec<u8>, ev: &ReadEvent)
    ensures
        final(out)@ == old(out)@ + event_raw(*ev),
{
    match ev {
        ReadEvent::Start(t) => {
            let b = start_tag_raw(t);
            emit_raw(out, &b);
        },
        ReadEvent::Empty(t) => {
            let b = capture_empty_element(t);
            emit_raw(out, &b);
        },
        ReadEvent::End(n) => emit_end(out, n.as_str()),
        ReadEvent::Text(s) => {
            let b = string_into_bytes(s.clone());
            emit_raw(out, &b);
        },
        ReadEvent::Other(b) => emit_raw(out, b),
        ReadEvent::Eof => {
            proof { assert(out@ =~= old(out)@ + event_raw(*ev)); }
        },
    }
}

/// `rep` before each character of `s` and after the last (what
/// `str::replace` does with an empty pattern).
pub open spec fn interleave(s: Seq<char>, rep: Seq<char>) -> Seq<char>
    decreases s.len(),
{
    if s.len() == 0 {
        rep
    } else {
        rep + seq![s[0]] + interleave(s.skip(1), rep)
    }
}

/// What `str::replace` gives.
pub open spec fn str_replace(s: Seq<char>, pat: Seq<char>, rep: Seq<char>) -> Seq<char> {
    if pat.len() == 0 {
        interleave(s, rep)
    } else {
        replace_all(s, pat, rep)
    }
}

/// The number of non-overlapping occurrences of a non-empty pattern, found
/// from the left.
pub open spec fn occurrences(s: Seq<char>, pat: Seq<char>) -> nat
    decreases s.len(),
{
    if pat.len() == 0 || s.len() < pat.len() {
        0
    } else if s.subrange(0, pat.len() as int) == pat {
        1 + occurrences(s.skip(pat.len() as int), pat)
    } else {
        occurrences(s.skip(1), pat)
    }
}

/// What `str::matches(..).count()` gives: the occurrences of a non-empty
/// pattern, and one more than the number of characters for an empty one.
pub open spec fn match_count(s: Seq<char>, pat: Seq<char>) -> nat {
    if pat.len() == 0 {
        s.len() + 1
    } else {
        occurrences(s, pat)
    }
}

/// Whether `s` contains `pat` (`str::contains`).
pub open spec fn contains_pat(s: Seq<char>, pat: Seq<char>) -> bool {
    pat.len() == 0 || first_occurrence(s, pat) is Some
}

/// A count held in a `usize`, stopping at its largest value.
pub open spec fn saturated(n: nat) -> usize {
    if n <= usize::MAX {
        n as usize
    } else {
        usize::MAX
    }
}

proof fn lemma_occurrences_bound(s: Seq<char>, pat: Seq<char>)
    ensures
        occurrences(s, pat) <= s.len(),
    decreases s.len(),
{
    if pat.len() > 0 && s.len() >= pat.len() {
        if s.subrange(0, pat.len() as int) == pat {
            lemma_occurrences_bound(s.skip(pat.len() as int), pat);
        } else {
            lemma_occurrences_bound(s.skip(1), pat);
        }
    }
}

/// The occurrences of a non-empty pattern in `s`.
fn count_occurrences(s: &[char], pat: &[char]) -> (r: usize)
    requires
        pat@.len() > 0,
    ensures
        r == occurrences(s@, pat@),
{
    let mut n: usize = 0;
    let mut i: usize = 0;
    proof { assert(s@.skip(0) =~= s@); }
    while i < s.len()
        invariant
            i <= s@.len(),
            pat@.len() > 0,
            n + occurrences(s@.skip(i as int), pat@) == occurrences(s@, pat@),
            n <= i,
        decreases s@.len() - i,
    {
        let ghost rest = s@.skip(i as int);
        if s.len() - i < pat.len() {
            proof { assert(occurrences(rest, pat@) == 0); }
            return n;
        }
        if crate::chars::match_at(s, pat, i) {
            proof {
                assert(rest.subrange(0, pat@.len() as int) =~= s@.subrange(i as int, i + pat@.len()));
                assert(rest.skip(pat@.len() as int) =~= s@.skip(i + pat@.len()));
            }
            n = n + 1;
            i = i + pat.len();
        } else {
            proof {
                assert(rest.subrange(0, pat@.len() as int) =~= s@.subrange(i as int, i + pat@.len()));
                assert(rest.skip(1) =~= s@.skip(i + 1));
            }
            i = i + 1;
        }
    }
    proof { assert(occurrences(s@.skip(i as int), pat@) == 0); }
    n
}

/// `rep` before each character of `s` and after the last.
fn interleave_chars(s: &[char], rep: &[char]) -> (r: Vec<char>)
    ensures
        r@ == interleave(s@, rep@),
{
    let mut out: Vec<char> = Vec::new();
    let mut i: usize = 0;
    proof { assert(s@.skip(0) =~= s@); assert(out@ + interleave(s@, rep@) =~= interleave(s@, rep@)); }
    while i < s.len()
        invariant
            i <= s@.len(),
            out@ + interleave(s@.skip(i as int), rep@) == interleave(s@, rep@),
        decreases s@.len() - i,
    {
        let ghost before = out@;
        append_chars(&mut out, rep);
        out.push(s[i]);
        proof {
            assert(s@.skip(i as int).skip(1) =~= s@.skip(i + 1));
            assert(out@ + interleave(s@.skip(i + 1), rep@) =~= before + interleave(s@.skip(i as int), rep@));
        }
        i = i + 1;
    }
    append_chars(&mut out, rep);
    proof { assert(s@.skip(i as int) =~= Seq::<char>::empty()); }
    out
}

/// `s` with `pat` replaced by `rep` as `str::replace` does, and the number
/// of matches (stopping at the largest `usize`).
pub fn replace_counting(s: &[char], pat: &[char], rep: &[char]) -> (r: (Vec<char>, usize))
    ensures
        r.0@ == str_replace(s@, pat@, rep@),
        r.1 == saturated(match_count(s@, pat@)),
{
    if pat.len() == 0 {
        let n = s.len();
        let c = if n < usize::MAX { n + 1 } else { usize::MAX };
        (interleave_chars(s, rep), c)
    } else {
        proof { lemma_occurrences_bound(s@, pat@); }
        (replace_all_chars(s, pat, rep), count_occurrences(s, pat))
    }
}

/// What processing one event of a chart part does, given the text element
/// that is open (if any): the element then open, the bytes written and the
/// replacements made. An `a:t` or `c:v` start (any prefix) opens a text
/// element; text inside one that contains the placeholder is written with
/// every occurrence replaced, escaped; the end tag of the open element
/// closes it; everything else is written back as read.
pub open spec fn chart_step(open: Option<Seq<char>>, ev: ReadEvent, pat: Seq<char>, rep: Seq<char>) -> (
    Option<Seq<char>>,
    Seq<u8>,
    nat,
) {
    match ev {
        ReadEvent::Start(t) => (
            if local_is(t.name@, "t"@) || local_is(t.name@, "v"@) { Some(t.name@) } else { open },
            start_raw(t),
            0,
        ),
        ReadEvent::Text(s) => if open is Some && contains_pat(s@, pat) {
            (open, text_bytes(str_replace(s@, pat, rep)), match_count(s@, pat))
        } else {
            (open, utf8(s@), 0)
        },
        ReadEvent::End(n) => (if open == Some(n@) { None } else { open }, end_tag(n@), 0),
        _ => (open, event_raw(ev), 0),
    }
}

/// The view of the open element.
pub open spec fn open_view(o: Option<String>) -> Option<Seq<char>> {
    match o {
        Some(s) => Some(s@),
        None => None,
    }
}

/// Process one event of a chart part.
pub fn chart_event(out: &mut Vec<u8>, open: &mut Option<String>, ev: &ReadEvent, pat: &str, rep: &str) -> (r: usize)
    ensures
        open_view(*final(open)) == chart_step(open_view(*old(open)), *ev, pat@, rep@).0,
        final(out)@ == old(out)@ + chart_step(open_view(*old(open)), *ev, pat@, rep@).1,
        r == saturated(chart_step(open_view(*old(open)), *ev, pat@, rep@).2),
{
    match ev {
        ReadEvent::Start(t) => {
            let nm = t.name.as_str();
            if name_is(nm, "t") || name_is(nm, "v") {
                *open = Some(t.name.clone());
            }
            write_back(out, ev);
            0
        },
        ReadEvent::Text(s) => {
            let in_text = open.is_some();
            if in_text {
                let cs = str_chars(s.as_str());
                let pc = str_chars(pat);
                let found = pc.len() == 0 || find_chars(cs.as_slice(), pc.as_slice()).is_some();
                if found {
                    let rc = str_chars(rep);
                    let (new_text, n) = replace_counting(cs.as_slice(), pc.as_slice(), rc.as_slice());
                    let t = string_from_chars(new_text.as_slice());
                    emit_text(out, t.as_str());
                    return n;
                }
            }
            write_back(out, ev);
            0
        },
        ReadEvent::End(n) => {
            let closes = match open {
                Some(o) => crate::chars::str_eq(o.as_str(), n.as_str()),
                None => false,
            };
            if closes {
                *open = None;
            }
            write_back(out, ev);
            0
        },
        _ => {
            write_back(out, ev);
            0
        },
    }
}

/// The bytes `pre` and the count `acc` followed by what `r` gives, or the
/// error of `r`.
pub open spec fn then_written(pre: Seq<u8>, acc: nat, r: Result<(Seq<u8>, nat), OxmlError>) -> Result<(Seq<u8>, nat), OxmlError> {
    match r {
        Ok((b, c)) => Ok((pre + b, acc + c)),
        Err(e) => Err(e),
    }
}

/// Processing the events of a chart part from call `n` on of a reader over
/// `x` that does not trim text, with the text element `open` open and `f`
/// events left: the bytes written and the replacements made, each event as
/// `chart_step` says, up to the end of input or the last event allowed; the
/// first error of the reader instead.
pub open spec fn chart_run(x: Seq<u8>, n: nat, open: Option<Seq<char>>, f: nat, pat: Seq<char>, rep: Seq<char>) -> Result<
    (Seq<u8>, nat),
    OxmlError,
>
    decreases f,
{
    if f == 0 {
        Ok((Seq::empty(), 0))
    } else {
        match xml_event(x, false, n) {
            Ok(ReadEvent::Eof) => Ok((Seq::empty(), 0)),
            Ok(ev) => {
                let st = chart_step(open, ev, pat, rep);
                then_written(st.1, st.2, chart_run(x, n + 1, st.0, (f - 1) as nat, pat, rep))
            },
            Err(e) => Err(e),
        }
    }
}

/// Writing `a` then `b` then what `r` gives is writing `a + b` then it.
proof fn lemma_then_written(a: Seq<u8>, c1: nat, b: Seq<u8>, c2: nat, r: Result<(Seq<u8>, nat), OxmlError>)
    ensures
        then_written(a, c1, then_written(b, c2, r)) == then_written(a + b, c1 + c2, r),
{
    if let Ok((x, c)) = r {
        assert(a + (b + x) =~= (a + b) + x);
    }
}

/// Replace a placeholder in the text of a chart part: the title and axis
/// titles (`a:t`) and the cached values (`c:v`), each text replaced as
/// `chart_event` says; the rest of the part is written back as read; as
/// `chart_run` says over the events of a reader over `xml`. The count stops
/// at the largest `usize`.
pub fn replace_in_chart_xml(xml: &[u8], placeholder: &str, replacement: &str) -> (r: Result<
    (Vec<u8>, usize),
    OxmlError,
>)
    ensures
        match chart_run(xml@, 0, None, budget_for(xml_unread(xml@, false, 0)), placeholder@, replacement@) {
            Ok((b, c)) => r matches Ok((o, t)) && o@ == b && t == saturated(c),
            Err(e) => r == Err::<(Vec<u8>, usize), OxmlError>(e),
        },
{
    let mut reader = reader_from_bytes(xml, false);
    let mut out: Vec<u8> = Vec::new();
    let mut open: Option<String> = None;
    let mut total: usize = 0;
    let ghost mut acc: nat = 0;
    let ghost pat = placeholder@;
    let ghost rep = replacement@;
    let budget = event_budget(unread_len(&reader));
    let ghost goal = chart_run(xml@, 0, None, budget as nat, pat, rep);
    let mut fuel = budget;
    proof {
        lemma_then_empty(goal);
    }
    while fuel > 0
        invariant
            reader.input() == xml@,
            reader.trims() == false,
            pat == placeholder@,
            rep == replacement@,
            budget as nat == budget_for(xml_unread(xml@, false, 0)),
            goal == chart_run(xml@, 0, None, budget as nat, pat, rep),
            goal == then_written(out@, acc, chart_run(xml@, reader.count(), open_view(open), fuel as nat, pat, rep)),
            total == saturated(acc),
        decreases fuel,
    {
        let ghost n = reader.count();
        let ghost op = open_view(open);
        let ghost f1 = fuel as nat;
        fuel = fuel - 1;
        match read_event(&mut reader) {
            Ok(ReadEvent::Eof) => {
                proof { assert(out@ + Seq::<u8>::empty() =~= out@); }
                return Ok((out, total));
            },
            Ok(ev) => {
                let ghost pre = out@;
                let ghost st = chart_step(op, ev, pat, rep);
                let c = chart_event(&mut out, &mut open, &ev, placeholder, replacement);
                proof {
                    lemma_then_written(pre, acc, st.1, st.2, chart_run(xml@, n + 1, st.0, fuel as nat, pat, rep));
                    acc = acc + st.2;
                }
                total = total.saturating_add(c);
            },
            Err(e) => {
                return Err(e);
            },
        }
    }
    proof { assert(out@ + Seq::<u8>::empty() =~= out@); }
    Ok((out, total))
}

/// Writing nothing before what `r` gives changes nothing.
proof fn lemma_then_empty(r: Result<(Seq<u8>, nat), OxmlError>)
    ensures
        then_written(Seq::empty(), 0, r) == r,
{
    if let Ok((x, c)) = r {
        assert(Seq::<u8>::empty() + x =~= x);
    }
}

/// Where a reader over `b` that trims text stands after passing over the
/// events before the first `p` start tag (errors passed over too), from call
/// `k` with `f` events left: just after that tag, or after the end of input.
pub open spec fn scan_p(b: Seq<u8>, k: nat, f: nat) -> nat
    decreases f,
{
    if f == 0 {
        k
    } else {
        match xml_event(b, true, k) {
            Ok(ReadEvent::Start(t)) => if local_is(t.name@, "p"@) {
                k + 1
            } else {
                scan_p(b, k + 1, (f - 1) as nat)
            },
            Ok(ReadEvent::Eof) => k + 1,
            _ => scan_p(b, k + 1, (f - 1) as nat),
        }
    }
}

/// Reading the paragraph kept verbatim in `b` ends in `r`: the events
/// before its start tag are passed over (`scan_p`), then it is read as
/// `para_read` says.
pub open spec fn raw_para(b: Seq<u8>, r: Result<CT_P, OxmlError>) -> bool {
    let k = scan_p(b, 0, budget_for(xml_unread(b, true, 0)));
    exists|c: nat, f: nat| #[trigger] para_read(b, true, k, (r, c, f))
}

/// `n - 1`, or the largest `u32` where `n` is 0.
pub open spec fn dec_wrapping(n: u32) -> u32 {
    if n == 0 {
        u32::MAX
    } else {
        (n - 1) as u32
    }
}

/// Reading the paragraphs of a text box from call `n` on of a reader over
/// `x`, at the depth `depth`, with the paragraphs `ps` read so far and `f`
/// events left, ends in `res`: a `p` element at depth 1 is kept verbatim
/// and read again from that copy (`raw_para`) and added; any other element
/// is skipped as quick-xml's `read_to_end` does (an error there failing the
/// reading wherever the reader then stands); the end tag `txbxContent` at
/// depth 1 ends it, any other end tag lowers the depth (wrapping); the end
/// of input or the last event allowed ends it; an error of the reader
/// fails it.
pub open spec fn tb_run(x: Seq<u8>, tr: bool, n: nat, depth: u32, ps: Seq<CT_P>, f: nat, res: ReadOutcome<Seq<CT_P>>) -> bool
    decreases f,
{
    if f == 0 {
        res == (Ok::<Seq<CT_P>, OxmlError>(ps), n, 0nat)
    } else {
        let g = (f - 1) as nat;
        match xml_event(x, tr, n) {
            Ok(ReadEvent::Start(t)) => if local_is(t.name@, "p"@) && depth == 1 {
                match captured(x, tr, n + 1, t).0 {
                    Ok(_) => exists|rp: Result<CT_P, OxmlError>|
                        #[trigger] raw_para(captured_bytes(x, tr, n + 1, t), rp) && match rp {
                            Ok(p) => tb_run(x, tr, captured_at(x, tr, n + 1, t), depth, ps.push(p), g, res),
                            Err(e) => res == (Err::<Seq<CT_P>, OxmlError>(e), captured_at(x, tr, n + 1, t), g),
                        },
                    Err(e) => res == (Err::<Seq<CT_P>, OxmlError>(e), captured_at(x, tr, n + 1, t), g),
                }
            } else {
                match xml_skip_to(x, tr, n + 1, t.name@) {
                    Some(q) => tb_run(x, tr, q, depth, ps, g, res),
                    None => res.0 is Err && res.2 == g,
                }
            },
            Ok(ReadEvent::End(m)) => if local_is(m@, "txbxContent"@) && depth == 1 {
                res == (Ok::<Seq<CT_P>, OxmlError>(ps), n + 1, g)
            } else {
                tb_run(x, tr, n + 1, dec_wrapping(depth), ps, g, res)
            },
            Ok(ReadEvent::Eof) => res == (Ok::<Seq<CT_P>, OxmlError>(ps), n + 1, g),
            Ok(_) => tb_run(x, tr, n + 1, depth, ps, g, res),
            Err(e) => res == (Err::<Seq<CT_P>, OxmlError>(e), n + 1, g),
        }
    }
}

/// The paragraphs of a result, by their view.
pub open spec fn paras_res(r: Result<Vec<CT_P>, OxmlError>) -> Result<Seq<CT_P>, OxmlError> {
    match r {
        Ok(v) => Ok(v@),
        Err(e) => Err(e),
    }
}

/// `nps` are the paragraphs `ps` with the placeholder replaced as
/// `replace_in_paragraphs_checked` does when it succeeds, and `c` the
/// number of replacements.
pub open spec fn paras_replaced(ps: Seq<CT_P>, nps: Seq<CT_P>, c: nat, pat: Seq<char>, rep: Seq<char>) -> bool {
    if pat.len() == 0 {
        nps == ps && c == 0
    } else {
        &&& c == paras_steps(ps, pat, rep)
        &&& nps.len() == ps.len()
        &&& forall|i: int| 0 <= i < ps.len() ==> replaced_para(#[trigger] ps[i], nps[i], pat, rep)
    }
}

/// Any outcome of the rest of a part: what the step before it quantifies
/// over.
pub open spec fn part_outcome(r: Result<(Seq<u8>, nat), OxmlError>) -> bool {
    true
}

/// Whether `e` is the error a text box whose replacements do not fit a
/// `usize` refuses the part with.
pub open spec fn refusal(e: OxmlError) -> bool {
    e matches OxmlError::InvalidValue(s) && s@ == "placeholder replacement does not end"@
}

/// Replacing a placeholder in a document part from call `n` on of a reader
/// over `x` that does not trim text, with `f` events left, ends in `out`:
/// the bytes written and the replacements made. A `txbxContent` start tag
/// is written, its paragraphs read (`tb_run`, sharing the events left) and
/// replaced (`paras_replaced`), or the part refused where their
/// replacements do not fit a `usize` (`refusal`), and written again with
/// the end tag; every other event is written back as read (`event_raw`);
/// the end of input or the last event allowed ends it; an error of the
/// reader fails it.
pub open spec fn part_run(x: Seq<u8>, n: nat, f: nat, pat: Seq<char>, rep: Seq<char>, out: Result<(Seq<u8>, nat), OxmlError>) -> bool
    decreases f,
{
    if f == 0 {
        out == Ok::<(Seq<u8>, nat), OxmlError>((Seq::empty(), 0nat))
    } else {
        let g = (f - 1) as nat;
        match xml_event(x, false, n) {
            Ok(ReadEvent::Eof) => out == Ok::<(Seq<u8>, nat), OxmlError>((Seq::empty(), 0nat)),
            Ok(ReadEvent::Start(t)) => if local_is(t.name@, "txbxContent"@) {
                exists|h: ReadOutcome<Seq<CT_P>>|
                    #[trigger] tb_run(x, false, n + 1, 1, Seq::empty(), g, h) && if h.2 <= g {
                        match h.0 {
                            Err(e) => out == Err::<(Seq<u8>, nat), OxmlError>(e),
                            Ok(_) => if pat.len() > 0 && !paras_replacement_ends(ok_value(h.0), pat, rep) {
                                out matches Err(e) && refusal(e)
                            } else {
                                exists|nps: Seq<CT_P>, c: nat, rest: Result<(Seq<u8>, nat), OxmlError>|
                                    #![trigger paras_replaced(ok_value(h.0), nps, c, pat, rep), part_outcome(rest)]
                                    paras_replaced(ok_value(h.0), nps, c, pat, rep) && part_run(x, h.1, h.2, pat, rep, rest)
                                        && out == then_written(start_raw(t) + paras_xml(nps) + end_tag("w:txbxContent"@), c, rest)
                            },
                        }
                    } else {
                        false
                    }
            } else {
                exists|rest: Result<(Seq<u8>, nat), OxmlError>|
                    #[trigger] part_outcome(rest) && part_run(x, n + 1, g, pat, rep, rest) && out == then_written(start_raw(t), 0, rest)
            },
            Ok(ev) => exists|rest: Result<(Seq<u8>, nat), OxmlError>|
                #[trigger] part_outcome(rest) && part_run(x, n + 1, g, pat, rep, rest) && out == then_written(event_raw(ev), 0, rest),
            Err(e) => out == Err::<(Seq<u8>, nat), OxmlError>(e),
        }
    }
}

/// Read the paragraph kept verbatim in `raw`, which starts with its start
/// tag: events up to the `p` start are passed over, then the paragraph is
/// read.
fn paragraph_from_raw(raw: &Vec<u8>) -> (r: Result<CT_P, OxmlError>)
    ensures
        raw_para(raw@, r),
{
    let mut re = reader_from_bytes(raw.as_slice(), true);
    let budget = event_budget(unread_len(&re));
    let mut fuel = budget;
    while fuel > 0
        invariant_except_break
            re.input() == raw@,
            re.trims(),
            fuel <= budget,
            budget as nat == budget_for(xml_unread(raw@, true, 0)),
            scan_p(raw@, re.count(), fuel as nat) == scan_p(raw@, 0, budget as nat),
        ensures
            re.input() == raw@,
            re.trims(),
            budget as nat == budget_for(xml_unread(raw@, true, 0)),
            re.count() == scan_p(raw@, 0, budget as nat),
        decreases fuel,
    {
        fuel = fuel - 1;
        match read_event(&mut re) {
            Ok(ReadEvent::Start(t)) => {
                if name_is(t.name.as_str(), "p") {
                    break;
                }
            },
            Ok(ReadEvent::Eof) => {
                break;
            },
            _ => {},
        }
    }
    CT_P::from_xml(&mut re)
}

/// Read the paragraphs of a text box from the events after its
/// `txbxContent` start up to its end (or the end of input), reading at
/// most `budget` events, as `tb_run` says; the events left come back.
fn read_textbox_paragraphs(reader: &mut XmlReader, budget: u64) -> (r: (Result<Vec<CT_P>, OxmlError>, u64))
    ensures
        r.1 <= budget,
        final(reader).same_input(old(reader)),
        tb_run(old(reader).input(), old(reader).trims(), old(reader).count(), 1, Seq::empty(), budget as nat,
            (paras_res(r.0), final(reader).count(), r.1 as nat)),
{
    let ghost x = reader.input();
    let ghost tr = reader.trims();
    let ghost n0 = reader.count();
    let mut paragraphs: Vec<CT_P> = Vec::new();
    let mut depth: u32 = 1;
    let mut fuel = budget;
    proof { assert(paragraphs@ =~= Seq::<CT_P>::empty()); }
    while fuel > 0
        invariant
            fuel <= budget,
            reader.input() == x,
            reader.trims() == tr,
            x == old(reader).input(),
            tr == old(reader).trims(),
            n0 == old(reader).count(),
            forall|res: ReadOutcome<Seq<CT_P>>|
                #[trigger] tb_run(x, tr, reader.count(), depth, paragraphs@, fuel as nat, res)
                    ==> tb_run(x, tr, n0, 1, Seq::empty(), budget as nat, res),
        decreases fuel,
    {
        let ghost n = reader.count();
        let ghost ps = paragraphs@;
        let ghost d = depth;
        let ghost f1 = fuel as nat;
        fuel = fuel - 1;
        match read_event(reader) {
            Ok(ReadEvent::Start(t)) => {
                if name_is(t.name.as_str(), "p") && depth == 1 {
                    let raw = match capture_element(reader, &t) {
                        Ok(b) => b,
                        Err(e) => {
                            proof {
                                assert(captured_at(x, tr, n + 1, t) == reader.count());
                                assert(tb_run(x, tr, n, d, ps, f1, (Err::<Seq<CT_P>, OxmlError>(e), reader.count(), fuel as nat)));
                            }
                            return (Err(e), fuel);
                        },
                    };
                    proof {
                        assert(captured(x, tr, n + 1, t) == (Ok::<Seq<u8>, OxmlError>(raw@), reader.count()));
                        assert(captured_bytes(x, tr, n + 1, t) == raw@);
                        assert(captured_at(x, tr, n + 1, t) == reader.count());
                    }
                    let rp = paragraph_from_raw(&raw);
                    let ghost grp = rp;
                    match rp {
                        Ok(p) => {
                            paragraphs.push(p);
                            proof {
                                assert forall|res: ReadOutcome<Seq<CT_P>>|
                                    #[trigger] tb_run(x, tr, reader.count(), depth, paragraphs@, fuel as nat, res)
                                    implies tb_run(x, tr, n, d, ps, f1, res) by {
                                    assert(raw_para(captured_bytes(x, tr, n + 1, t), grp));
                                }
                            }
                        },
                        Err(e) => {
                            proof {
                                assert(raw_para(captured_bytes(x, tr, n + 1, t), grp));
                                assert(tb_run(x, tr, n, d, ps, f1, (Err::<Seq<CT_P>, OxmlError>(e), reader.count(), fuel as nat)));
                            }
                            return (Err(e), fuel);
                        },
                    }
                } else {
                    match skip_to_end(reader, t.name.as_str()) {
                        Ok(_) => {
                            proof {
                                assert forall|res: ReadOutcome<Seq<CT_P>>|
                                    #[trigger] tb_run(x, tr, reader.count(), depth, paragraphs@, fuel as nat, res)
                                    implies tb_run(x, tr, n, d, ps, f1, res) by {}
                            }
                        },
                        Err(e) => {
                            proof {
                                assert(tb_run(x, tr, n, d, ps, f1, (Err::<Seq<CT_P>, OxmlError>(e), reader.count(), fuel as nat)));
                            }
                            return (Err(e), fuel);
                        },
                    }
                }
            },
            Ok(ReadEvent::End(m)) => {
                if name_is(m.as_str(), "txbxContent") && depth == 1 {
                    proof {
                        assert(tb_run(x, tr, n, d, ps, f1, (Ok::<Seq<CT_P>, OxmlError>(paragraphs@), reader.count(), fuel as nat)));
                    }
                    return (Ok(paragraphs), fuel);
                }
                if depth == 0 {
                    depth = u32::MAX;
                } else {
                    depth = depth - 1;
                }
                proof {
                    assert(depth == dec_wrapping(d));
                    assert forall|res: ReadOutcome<Seq<CT_P>>|
                        #[trigger] tb_run(x, tr, reader.count(), depth, paragraphs@, fuel as nat, res)
                        implies tb_run(x, tr, n, d, ps, f1, res) by {}
                }
            },
            Ok(ReadEvent::Eof) => {
                proof {
                    assert(tb_run(x, tr, n, d, ps, f1, (Ok::<Seq<CT_P>, OxmlError>(paragraphs@), reader.count(), fuel as nat)));
                }
                return (Ok(paragraphs), fuel);
            },
            Ok(_) => {
                proof {
                    assert forall|res: ReadOutcome<Seq<CT_P>>|
                        #[trigger] tb_run(x, tr, reader.count(), depth, paragraphs@, fuel as nat, res)
                        implies tb_run(x, tr, n, d, ps, f1, res) by {}
                }
            },
            Err(e) => {
                proof {
                    assert(tb_run(x, tr, n, d, ps, f1, (Err::<Seq<CT_P>, OxmlError>(e), reader.count(), fuel as nat)));
                }
                return (Err(e), fuel);
            },
        }
    }
    proof {
        assert(tb_run(x, tr, reader.count(), depth, paragraphs@, 0nat, (Ok::<Seq<CT_P>, OxmlError>(paragraphs@), reader.count(), 0nat)));
    }
    (Ok(paragraphs), fuel)
}

/// Replace a placeholder in the text boxes of a document part: the
/// paragraphs of each `w:txbxContent` (at any depth) are read, replaced as
/// `replace_in_paragraphs_checked` says and written again; the rest of the
/// part is written back as read; as `part_run` says over the events of a
/// reader over `xml`. Where the number of replacements in a text box does
/// not fit a `usize`, the part is refused. The count stops at the largest
/// `usize`.
pub fn replace_in_xml_part(xml: &[u8], placeholder: &str, replacement: &str) -> (r: Result<
    (Vec<u8>, usize),
    OxmlError,
>)
    ensures
        exists|res: Result<(Seq<u8>, nat), OxmlError>|
            #[trigger] part_run(xml@, 0, budget_for(xml_unread(xml@, false, 0)), placeholder@, replacement@, res) && match res {
                Ok((b, c)) => r matches Ok((o, t)) && o@ == b && t == saturated(c),
                Err(e) => r == Err::<(Vec<u8>, usize), OxmlError>(e),
            },
{
    let mut reader = reader_from_bytes(xml, false);
    let mut out: Vec<u8> = Vec::new();
    let mut total: usize = 0;
    let ghost mut acc: nat = 0;
    let ghost pat = placeholder@;
    let ghost rep = replacement@;
    let budget = event_budget(unread_len(&reader));
    let ghost b0 = budget_for(xml_unread(xml@, false, 0));
    let mut fuel = budget;
    proof {
        assert forall|rest: Result<(Seq<u8>, nat), OxmlError>|
            #[trigger] part_run(xml@, reader.count(), fuel as nat, pat, rep, rest)
            implies part_run(xml@, 0, budget as nat, pat, rep, then_written(out@, acc, rest)) by {
            lemma_then_empty(rest);
            assert(out@ =~= Seq::<u8>::empty());
        }
    }
    while fuel > 0
        invariant
            reader.input() == xml@,
            reader.trims() == false,
            pat == placeholder@,
            rep == replacement@,
            budget as nat == b0,
            b0 == budget_for(xml_unread(xml@, false, 0)),
            fuel <= budget,
            forall|rest: Result<(Seq<u8>, nat), OxmlError>|
                #[trigger] part_run(xml@, reader.count(), fuel as nat, pat, rep, rest)
                    ==> part_run(xml@, 0, budget as nat, pat, rep, then_written(out@, acc, rest)),
            total == saturated(acc),
        decreases fuel,
    {
        let ghost n = reader.count();
        let ghost f1 = fuel as nat;
        let ghost pre = out@;
        let ghost acc0 = acc;
        fuel = fuel - 1;
        match read_event(&mut reader) {
            Ok(ReadEvent::Eof) => {
                proof {
                    let rest = Ok::<(Seq<u8>, nat), OxmlError>((Seq::empty(), 0nat));
                    assert(part_run(xml@, n, f1, pat, rep, rest));
                    assert(out@ + Seq::<u8>::empty() =~= out@);
                    assert(part_run(xml@, 0, b0, pat, rep, then_written(out@, acc, rest)));
                }
                return Ok((out, total));
            },
            Ok(ReadEvent::Start(t)) => {
                if name_is(t.name.as_str(), "txbxContent") {
                    let b = start_tag_raw(&t);
                    emit_raw(&mut out, &b);
                    let (res, left) = read_textbox_paragraphs(&mut reader, fuel);
                    fuel = left;
                    let ghost h = (paras_res(res), reader.count(), fuel as nat);
                    proof { assert(tb_run(xml@, false, n + 1, 1, Seq::empty(), (f1 - 1) as nat, h)); }
                    let mut paragraphs = match res {
                        Ok(v) => v,
                        Err(e) => {
                            proof {
                                let rest = Err::<(Seq<u8>, nat), OxmlError>(e);
                                assert(part_run(xml@, n, f1, pat, rep, rest));
                                assert(part_run(xml@, 0, b0, pat, rep, then_written(pre, acc0, rest)));
                            }
                            return Err(e);
                        },
                    };
                    let ghost ps = paragraphs@;
                    proof { assert(ok_value(h.0) == ps); }
                    match replace_in_paragraphs_checked(paragraphs.as_mut_slice(), placeholder, replacement) {
                        Some(c) => {
                            total = total.saturating_add(c);
                        },
                        None => {
                            let e = OxmlError::InvalidValue(to_owned_string("placeholder replacement does not end"));
                            proof {
                                let rest = Err::<(Seq<u8>, nat), OxmlError>(e);
                                assert(refusal(e));
                                assert(part_run(xml@, n, f1, pat, rep, rest));
                                assert(part_run(xml@, 0, b0, pat, rep, then_written(pre, acc0, rest)));
                            }
                            return Err(e);
                        },
                    }
                    let ghost cnt: nat = if pat.len() == 0 { 0 } else { paras_steps(ps, pat, rep) };
                    let ghost nps = paragraphs@;
                    write_paras(&mut out, &paragraphs);
                    emit_end(&mut out, "w:txbxContent");
                    proof {
                        let chunk = start_raw(t) + paras_xml(nps) + end_tag("w:txbxContent"@);
                        assert(out@ =~= pre + chunk);
                        assert(paras_replaced(ps, nps, cnt, pat, rep));
                        assert forall|rest: Result<(Seq<u8>, nat), OxmlError>|
                            #[trigger] part_run(xml@, reader.count(), fuel as nat, pat, rep, rest)
                            implies part_run(xml@, 0, budget as nat, pat, rep, then_written(out@, acc0 + cnt, rest)) by {
                            assert(part_outcome(rest));
                            assert(paras_replaced(ps, nps, cnt, pat, rep));
                            assert(part_run(xml@, n, f1, pat, rep, then_written(chunk, cnt, rest)));
                            lemma_then_written(pre, acc0, chunk, cnt, rest);
                        }
                        acc = acc0 + cnt;
                    }
                } else {
                    let ev = ReadEvent::Start(t);
                    write_back(&mut out, &ev);
                    proof {
                        assert forall|rest: Result<(Seq<u8>, nat), OxmlError>|
                            #[trigger] part_run(xml@, reader.count(), fuel as nat, pat, rep, rest)
                            implies part_run(xml@, 0, budget as nat, pat, rep, then_written(out@, acc, rest)) by {
                            assert(part_outcome(rest));
                            assert(part_run(xml@, n, f1, pat, rep, then_written(start_raw(t), 0, rest)));
                            lemma_then_written(pre, acc0, start_raw(t), 0, rest);
                        }
                    }
                }
            },
            Ok(ev) => {
                write_back(&mut out, &ev);
                proof {
                    assert forall|rest: Result<(Seq<u8>, nat), OxmlError>|
                        #[trigger] part_run(xml@, reader.count(), fuel as nat, pat, rep, rest)
                        implies part_run(xml@, 0, budget as nat, pat, rep, then_written(out@, acc, rest)) by {
                        assert(part_outcome(rest));
                        assert(part_run(xml@, n, f1, pat, rep, then_written(event_raw(ev), 0, rest)));
                        lemma_then_written(pre, acc0, event_raw(ev), 0, rest);
                    }
                }
            },
            Err(e) => {
                proof {
                    let rest = Err::<(Seq<u8>, nat), OxmlError>(e);
                    assert(part_run(xml@, n, f1, pat, rep, rest));
                    assert(part_run(xml@, 0, b0, pat, rep, then_written(pre, acc0, rest)));
                }
                return Err(e);
            },
        }
    }
    proof {
        let rest = Ok::<(Seq<u8>, nat), OxmlError>((Seq::empty(), 0nat));
        assert(part_run(xml@, reader.count(), 0nat, pat, rep, rest));
        assert(out@ + Seq::<u8>::empty() =~= out@);
        assert(part_run(xml@, 0, b0, pat, rep, then_written(out@, acc, rest)));
    }
    Ok((out, total))
}

} // verus!
