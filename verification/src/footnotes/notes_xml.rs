//! Reading and writing footnotes and endnotes parts.

use vstd::prelude::*;

use crate::xml_read::XmlReader;

use crate::chars::{i32_string, signed_decimal, to_owned_string};
use crate::error::OxmlError;
use crate::footnotes::{CT_Footnote, CT_Footnotes};
use crate::header_footer::hdr_ftr_xml::{paras_xml, write_paras};
use crate::namespace::{R_NS, W_NS};
use crate::opc::std_decl;
use crate::text::text_read::note_id_of;
use crate::text::CT_P;
use crate::xml::{
    attr_views, emit, emit_end, emit_start_attr, emit_start_attrs, end_tag, raw_concat, start_tag_attr,
    start_tag_attrs, view_bytes, write_raws, XmlEvent,
};
use crate::header_footer::hdr_ftr_xml::no_end;
use crate::properties_read::{cap_start, flat_cap_run, lemma_flat_cap_empty, lemma_flat_cap_start, ReadOutcome};
use crate::text::text_read::{note_id, para_read};
use crate::xml_read::{budget_for, local_is, xml_skip_to, xml_unread, Tag};
use crate::xml_read::{
    capture_element, event_budget, name_is, read_event, reader_from_bytes, skip_to_end, unread_len, ReadEvent,
};

verus! {

/// One note as the element `item`: its id and its paragraphs.
pub open spec fn note_xml(n: CT_Footnote, item: Seq<char>) -> Seq<u8> {
    start_tag_attr(item, "w:id"@, signed_decimal(n.id as int)) + paras_xml(n.paragraphs@) + end_tag(item)
}

/// The notes one after another.
pub open spec fn notes_body(ns: Seq<CT_Footnote>, item: Seq<char>) -> Seq<u8>
    decreases ns.len(),
{
    if ns.len() == 0 {
        Seq::empty()
    } else {
        notes_body(ns.drop_last(), item) + note_xml(ns.last(), item)
    }
}

/// A notes part with the root `root` and the note element `item`: the
/// declaration, the root with the main and relationship namespaces, the
/// separators as kept, then the notes.
pub open spec fn notes_xml(f: CT_Footnotes, root: Seq<char>, item: Seq<char>) -> Seq<u8> {
    view_bytes(std_decl()) + start_tag_attrs(root, seq![("xmlns:w"@, W_NS@), ("xmlns:r"@, R_NS@)]) + raw_concat(
        f.separators@,
    ) + notes_body(f.footnotes@, item) + end_tag(root)
}

impl CT_Footnotes {
    /// The part with the given root and note element names.
    fn to_xml_root(&self, root_tag: &str, item_tag: &str) -> (r: Vec<u8>)
        ensures
            r@ == notes_xml(*self, root_tag@, item_tag@),
    {
        let mut out: Vec<u8> = Vec::new();
        emit(
            &mut out,
            XmlEvent::Decl(to_owned_string("1.0"), Some(to_owned_string("UTF-8")), Some(to_owned_string("yes"))),
        );
        let mut attrs: Vec<(String, String)> = Vec::new();
        attrs.push((to_owned_string("xmlns:w"), to_owned_string(W_NS)));
        attrs.push((to_owned_string("xmlns:r"), to_owned_string(R_NS)));
        proof { assert(attr_views(attrs@) =~= seq![("xmlns:w"@, W_NS@), ("xmlns:r"@, R_NS@)]); }
        emit_start_attrs(&mut out, root_tag, attrs);
        write_raws(&mut out, &self.separators);
        let ghost head = out@;
        let mut i: usize = 0;
        proof { assert(self.footnotes@.take(0) =~= Seq::<CT_Footnote>::empty()); }
        while i < self.footnotes.len()
            invariant
                i <= self.footnotes@.len(),
                out@ == head + notes_body(self.footnotes@.take(i as int), item_tag@),
            decreases self.footnotes@.len() - i,
        {
            let n = &self.footnotes[i];
            let id = i32_string(n.id);
            emit_start_attr(&mut out, item_tag, "w:id", id.as_str());
            write_paras(&mut out, &n.paragraphs);
            emit_end(&mut out, item_tag);
            proof {
                assert(self.footnotes@.take(i + 1).drop_last() =~= self.footnotes@.take(i as int));
                assert(out@ =~= head + notes_body(self.footnotes@.take(i + 1), item_tag@));
            }
            i = i + 1;
        }
        proof { assert(self.footnotes@.take(i as int) =~= self.footnotes@); }
        emit_end(&mut out, root_tag);
        proof { assert(out@ =~= notes_xml(*self, root_tag@, item_tag@)); }
        out
    }

    /// Serialize as a footnotes part (`w:footnotes` of `w:footnote`).
    pub fn to_xml_footnotes(&self) -> (r: Result<Vec<u8>, OxmlError>)
        ensures
            r matches Ok(b) && b@ == notes_xml(*self, "w:footnotes"@, "w:footnote"@),
    {
        Ok(self.to_xml_root("w:footnotes", "w:footnote"))
    }

    /// Serialize as an endnotes part (`w:endnotes` of `w:endnote`).
    pub fn to_xml_endnotes(&self) -> (r: Result<Vec<u8>, OxmlError>)
        ensures
            r matches Ok(b) && b@ == notes_xml(*self, "w:endnotes"@, "w:endnote"@),
    {
        Ok(self.to_xml_root("w:endnotes", "w:endnote"))
    }

    /// Read a footnotes or endnotes part: each note with a positive id as a
    /// note (its id as `note_id` reads it, its paragraphs by
    /// `parse_footnote_content`); a note with id 0 or below (separator or
    /// continuation) kept verbatim; any other element inside the root
    /// skipped; as `notes_read` says over the events of a reader over `xml`
    /// that trims text.
    pub fn from_xml(xml: &[u8]) -> (r: Result<Self, OxmlError>)
        ensures
            exists|c: nat, f: nat| #[trigger] notes_read(xml@, true, 0, (r, c, f)),
            r matches Ok(f) ==> ids_positive(f.footnotes@),
    {
        let mut reader = reader_from_bytes(xml, true);
        read_notes(&mut reader)
    }
}

/// Whether an end tag's name is that of a note.
pub open spec fn note_end() -> spec_fn(Seq<char>) -> bool {
    |m: Seq<char>| local_is(m, "footnote"@) || local_is(m, "endnote"@)
}

/// Reading a note never fails on an empty tag.
pub open spec fn note_fails() -> spec_fn(CT_Footnote, Tag) -> bool {
    |o: CT_Footnote, t: Tag| false
}

/// An empty tag inside a note changes nothing.
pub open spec fn note_step() -> spec_fn(CT_Footnote, CT_Footnote, Tag) -> bool {
    |o: CT_Footnote, m: CT_Footnote, t: Tag| m == o
}

/// What a child element of a note does, read from call `p` on: a paragraph
/// is read by its reader and added; any other element is skipped as
/// quick-xml's `read_to_end` does.
pub open spec fn note_start(x: Seq<u8>, tr: bool) -> spec_fn(CT_Footnote, Tag, nat, Result<CT_Footnote, OxmlError>, nat) -> bool {
    |o: CT_Footnote, t: Tag, p: nat, m: Result<CT_Footnote, OxmlError>, q: nat|
        if local_is(t.name@, "p"@) {
            exists|rp: Result<CT_P, OxmlError>, f: nat|
                #[trigger] para_read(x, tr, p, (rp, q, f)) && match rp {
                    Ok(pp) => (m matches Ok(s2) && s2 == (CT_Footnote { paragraphs: s2.paragraphs, ..o })
                        && s2.paragraphs@ == o.paragraphs@.push(pp)),
                    Err(e) => m == Err::<CT_Footnote, OxmlError>(e),
                }
        } else {
            match xml_skip_to(x, tr, p, t.name@) {
                Some(q2) => q == q2 && m == Ok::<CT_Footnote, OxmlError>(o),
                None => m is Err,
            }
        }
}

/// Reading the content of a note from call `n` on, over what `o` holds and
/// with `f` events left, ends in `res`.
pub open spec fn note_run(x: Seq<u8>, tr: bool, n: nat, o: CT_Footnote, f: nat, res: ReadOutcome<CT_Footnote>) -> bool {
    flat_cap_run(x, tr, n, note_end(), note_fails(), note_step(), note_start(x, tr), o, f, res)
}

/// Reading the content of the note `id` from call `n` on, from no
/// paragraph, with the budget for what is left unread, ends in `res`.
pub open spec fn note_content(x: Seq<u8>, tr: bool, n: nat, id: i32, res: ReadOutcome<CT_Footnote>) -> bool {
    exists|o: CT_Footnote|
        #[trigger] note_run(x, tr, n, o, budget_for(xml_unread(x, tr, n)), res) && o.id == id && o.paragraphs@.len() == 0
}

/// Whether every note read has a positive id.
pub open spec fn ids_positive(s: Seq<CT_Footnote>) -> bool {
    forall|i: int| 0 <= i < s.len() ==> #[trigger] s[i].id > 0
}

/// Whether a name is that of a note.
pub open spec fn is_note(nm: Seq<char>) -> bool {
    local_is(nm, "footnote"@) || local_is(nm, "endnote"@)
}

/// Whether a name is the root of a notes part.
pub open spec fn is_notes_root(nm: Seq<char>) -> bool {
    local_is(nm, "footnotes"@) || local_is(nm, "endnotes"@)
}

/// A notes part with one more note kept verbatim.
pub open spec fn notes_keep() -> spec_fn(CT_Footnotes, CT_Footnotes, Seq<u8>) -> bool {
    |o: CT_Footnotes, m: CT_Footnotes, b: Seq<u8>|
        {
            &&& m == (CT_Footnotes { separators: m.separators, ..o })
            &&& m.separators@.len() == o.separators@.len() + 1
            &&& m.separators@.drop_last() == o.separators@
            &&& m.separators@.last()@ == b
        }
}

/// Reading a notes part never fails on an empty tag.
pub open spec fn notes_fails() -> spec_fn(CT_Footnotes, Tag) -> bool {
    |o: CT_Footnotes, t: Tag| false
}

/// An empty tag in a notes part changes nothing.
pub open spec fn notes_step() -> spec_fn(CT_Footnotes, CT_Footnotes, Tag) -> bool {
    |o: CT_Footnotes, m: CT_Footnotes, t: Tag| m == o
}

/// What a start tag does in a notes part, read from call `p` on: a note
/// whose id (`note_id`) is 0 or below is kept verbatim; one with a positive
/// id has its content read (`note_content`) and is added; the root reads
/// nothing more; any other element is skipped.
pub open spec fn notes_start(x: Seq<u8>, tr: bool) -> spec_fn(CT_Footnotes, Tag, nat, Result<CT_Footnotes, OxmlError>, nat) -> bool {
    |o: CT_Footnotes, t: Tag, p: nat, m: Result<CT_Footnotes, OxmlError>, q: nat|
        if is_note(t.name@) {
            if note_id(t) <= 0 {
                cap_start(x, tr, notes_keep())(o, t, p, m, q)
            } else {
                exists|h: ReadOutcome<CT_Footnote>|
                    #[trigger] note_content(x, tr, p, note_id(t), h) && q == h.1 && match h.0 {
                        Ok(nn) => (m matches Ok(s2) && s2 == (CT_Footnotes { footnotes: s2.footnotes, ..o })
                            && s2.footnotes@ == o.footnotes@.push(nn)),
                        Err(e) => m == Err::<CT_Footnotes, OxmlError>(e),
                    }
            }
        } else if is_notes_root(t.name@) {
            q == p && m == Ok::<CT_Footnotes, OxmlError>(o)
        } else {
            match xml_skip_to(x, tr, p, t.name@) {
                Some(q2) => q == q2 && m == Ok::<CT_Footnotes, OxmlError>(o),
                None => m is Err,
            }
        }
}

/// Reading a notes part from call `n` on, over what `o` holds and with `f`
/// events left, ends in `res`; only the end of input ends it.
pub open spec fn notes_run(x: Seq<u8>, tr: bool, n: nat, o: CT_Footnotes, f: nat, res: ReadOutcome<CT_Footnotes>) -> bool {
    flat_cap_run(x, tr, n, no_end(), notes_fails(), notes_step(), notes_start(x, tr), o, f, res)
}

/// Reading a notes part from call `n` on, from nothing, with the budget
/// for what is left unread, ends in `res`.
pub open spec fn notes_read(x: Seq<u8>, tr: bool, n: nat, res: ReadOutcome<CT_Footnotes>) -> bool {
    exists|o: CT_Footnotes|
        #[trigger] notes_run(x, tr, n, o, budget_for(xml_unread(x, tr, n)), res) && o.footnotes@.len() == 0 && o.separators@.len() == 0
}

/// An empty tag inside a note changes nothing.
fn read_note_empty(note: &mut CT_Footnote, t: &Tag) -> (r: Result<(), OxmlError>)
    ensures
        r is Ok,
        *final(note) == *old(note),
{
    Ok(())
}

/// An empty tag in a notes part changes nothing.
fn read_notes_empty(notes: &mut CT_Footnotes, t: &Tag) -> (r: Result<(), OxmlError>)
    ensures
        r is Ok,
        *final(notes) == *old(notes),
{
    Ok(())
}

/// Read a notes part from the events of `reader`.
fn read_notes(reader: &mut XmlReader) -> (r: Result<CT_Footnotes, OxmlError>)
    ensures
        final(reader).same_input(old(reader)),
        exists|f: nat|
            #[trigger] notes_read(old(reader).input(), old(reader).trims(), old(reader).count(),
                (r, final(reader).count(), f)),
        r matches Ok(f) ==> ids_positive(f.footnotes@),
{
    let ghost x = reader.input();
    let ghost tr = reader.trims();
    let ghost n0 = reader.count();
    let mut notes = CT_Footnotes { footnotes: Vec::new(), separators: Vec::new() };
    let ghost o0 = notes;
    let budget = event_budget(unread_len(reader));
    let mut fuel = budget;
    while fuel > 0
        invariant
            fuel <= budget,
            budget as nat == budget_for(xml_unread(x, tr, n0)),
            reader.input() == x,
            reader.trims() == tr,
            x == old(reader).input(),
            tr == old(reader).trims(),
            n0 == old(reader).count(),
            o0.footnotes@.len() == 0,
            o0.separators@.len() == 0,
            ids_positive(notes.footnotes@),
            forall|res: ReadOutcome<CT_Footnotes>|
                #[trigger] flat_cap_run(x, tr, reader.count(), no_end(), notes_fails(), notes_step(), notes_start(x, tr), notes, fuel as nat, res)
                    ==> notes_run(x, tr, n0, o0, budget as nat, res),
        decreases fuel,
    {
        let ghost n = reader.count();
        let ghost o = notes;
        let ghost f1 = fuel as nat;
        fuel = fuel - 1;
        match read_event(reader) {
            Ok(ReadEvent::Empty(t)) => {
                if let Err(e) = read_notes_empty(&mut notes, &t) {
                    proof {
                        let res = (Err::<CT_Footnotes, OxmlError>(e), reader.count(), fuel as nat);
                        assert(flat_cap_run(x, tr, n, no_end(), notes_fails(), notes_step(), notes_start(x, tr), o, f1, res));
                        assert(notes_run(x, tr, n0, o0, budget as nat, res));
                        assert(notes_read(x, tr, n0, res));
                    }
                    return Err(e);
                }
                proof {
                    assert(notes_step()(o, notes, t));
                    assert forall|res: ReadOutcome<CT_Footnotes>|
                        #[trigger] flat_cap_run(x, tr, reader.count(), no_end(), notes_fails(), notes_step(), notes_start(x, tr), notes, fuel as nat, res)
                        implies flat_cap_run(x, tr, n, no_end(), notes_fails(), notes_step(), notes_start(x, tr), o, f1, res) by {
                        lemma_flat_cap_empty(x, tr, n, no_end(), notes_fails(), notes_step(), notes_start(x, tr), o, notes, f1, t, res);
                    }
                }
            },
            Ok(ReadEvent::Start(t)) => {
                let nm = t.name.as_str();
                if name_is(nm, "footnote") || name_is(nm, "endnote") {
                    let id = note_id_of(&t);
                    if id <= 0 {
                        let raw = match capture_element(reader, &t) {
                            Ok(b) => b,
                            Err(e) => {
                        proof {
                            let q = reader.count();
                            let res = (Err::<CT_Footnotes, OxmlError>(e), q, fuel as nat);
                            assert(notes_start(x, tr)(o, t, n + 1, Err::<CT_Footnotes, OxmlError>(e), q));
                            lemma_flat_cap_start(x, tr, n, no_end(), notes_fails(), notes_step(), notes_start(x, tr), o, f1, t, Err::<CT_Footnotes, OxmlError>(e), q, res);
                        assert(notes_run(x, tr, n0, o0, budget as nat, res));
                        assert(notes_read(x, tr, n0, res));
                        }
                        return Err(e);
                            },
                        };
                        let ghost bb = raw@;
                        notes.separators.push(raw);
                        proof {
                            assert(notes.separators@.drop_last() =~= o.separators@);
                            assert(notes_keep()(o, notes, bb));
                        }
                    proof {
                        let q = reader.count();
                        assert(notes_start(x, tr)(o, t, n + 1, Ok::<CT_Footnotes, OxmlError>(notes), q));
                        assert forall|res: ReadOutcome<CT_Footnotes>|
                            #[trigger] flat_cap_run(x, tr, reader.count(), no_end(), notes_fails(), notes_step(), notes_start(x, tr), notes, fuel as nat, res)
                            implies flat_cap_run(x, tr, n, no_end(), notes_fails(), notes_step(), notes_start(x, tr), o, f1, res) by {
                            lemma_flat_cap_start(x, tr, n, no_end(), notes_fails(), notes_step(), notes_start(x, tr), o, f1, t, Ok::<CT_Footnotes, OxmlError>(notes), q, res);
                        }
                    }
                    } else {
                        match parse_footnote_content(reader, id) {
                            Ok(nn) => {
                                notes.footnotes.push(nn);
                                proof {
                                    assert forall|i: int| 0 <= i < notes.footnotes@.len() implies #[trigger] notes.footnotes@[i].id > 0 by {
                                        if i < o.footnotes@.len() {
                                            assert(notes.footnotes@[i] == o.footnotes@[i]);
                                        }
                                    }
                                }
                    proof {
                        let q = reader.count();
                        assert(notes_start(x, tr)(o, t, n + 1, Ok::<CT_Footnotes, OxmlError>(notes), q));
                        assert forall|res: ReadOutcome<CT_Footnotes>|
                            #[trigger] flat_cap_run(x, tr, reader.count(), no_end(), notes_fails(), notes_step(), notes_start(x, tr), notes, fuel as nat, res)
                            implies flat_cap_run(x, tr, n, no_end(), notes_fails(), notes_step(), notes_start(x, tr), o, f1, res) by {
                            lemma_flat_cap_start(x, tr, n, no_end(), notes_fails(), notes_step(), notes_start(x, tr), o, f1, t, Ok::<CT_Footnotes, OxmlError>(notes), q, res);
                        }
                    }
                            },
                            Err(e) => {
                        proof {
                            let q = reader.count();
                            let res = (Err::<CT_Footnotes, OxmlError>(e), q, fuel as nat);
                            assert(notes_start(x, tr)(o, t, n + 1, Err::<CT_Footnotes, OxmlError>(e), q));
                            lemma_flat_cap_start(x, tr, n, no_end(), notes_fails(), notes_step(), notes_start(x, tr), o, f1, t, Err::<CT_Footnotes, OxmlError>(e), q, res);
                        assert(notes_run(x, tr, n0, o0, budget as nat, res));
                        assert(notes_read(x, tr, n0, res));
                        }
                        return Err(e);
                            },
                        }
                    }
                } else if name_is(nm, "footnotes") || name_is(nm, "endnotes") {
                    proof {
                        let q = reader.count();
                        assert(notes_start(x, tr)(o, t, n + 1, Ok::<CT_Footnotes, OxmlError>(notes), q));
                        assert forall|res: ReadOutcome<CT_Footnotes>|
                            #[trigger] flat_cap_run(x, tr, reader.count(), no_end(), notes_fails(), notes_step(), notes_start(x, tr), notes, fuel as nat, res)
                            implies flat_cap_run(x, tr, n, no_end(), notes_fails(), notes_step(), notes_start(x, tr), o, f1, res) by {
                            lemma_flat_cap_start(x, tr, n, no_end(), notes_fails(), notes_step(), notes_start(x, tr), o, f1, t, Ok::<CT_Footnotes, OxmlError>(notes), q, res);
                        }
                    }
                } else {
                    match skip_to_end(reader, nm) {
                        Ok(_) => {
                    proof {
                        let q = reader.count();
                        assert(notes_start(x, tr)(o, t, n + 1, Ok::<CT_Footnotes, OxmlError>(notes), q));
                        assert forall|res: ReadOutcome<CT_Footnotes>|
                            #[trigger] flat_cap_run(x, tr, reader.count(), no_end(), notes_fails(), notes_step(), notes_start(x, tr), notes, fuel as nat, res)
                            implies flat_cap_run(x, tr, n, no_end(), notes_fails(), notes_step(), notes_start(x, tr), o, f1, res) by {
                            lemma_flat_cap_start(x, tr, n, no_end(), notes_fails(), notes_step(), notes_start(x, tr), o, f1, t, Ok::<CT_Footnotes, OxmlError>(notes), q, res);
                        }
                    }
                        },
                        Err(e) => {
                        proof {
                            let q = reader.count();
                            let res = (Err::<CT_Footnotes, OxmlError>(e), q, fuel as nat);
                            assert(notes_start(x, tr)(o, t, n + 1, Err::<CT_Footnotes, OxmlError>(e), q));
                            lemma_flat_cap_start(x, tr, n, no_end(), notes_fails(), notes_step(), notes_start(x, tr), o, f1, t, Err::<CT_Footnotes, OxmlError>(e), q, res);
                        assert(notes_run(x, tr, n0, o0, budget as nat, res));
                        assert(notes_read(x, tr, n0, res));
                        }
                        return Err(e);
                        },
                    }
                }
            },
            Ok(ReadEvent::Eof) => {
                proof {
                    assert(flat_cap_run(x, tr, n, no_end(), notes_fails(), notes_step(), notes_start(x, tr), o, f1, (Ok::<CT_Footnotes, OxmlError>(notes), reader.count(), fuel as nat)));
                        assert(notes_run(x, tr, n0, o0, budget as nat, (Ok::<CT_Footnotes, OxmlError>(notes), reader.count(), fuel as nat)));
                        assert(notes_read(x, tr, n0, (Ok::<CT_Footnotes, OxmlError>(notes), reader.count(), fuel as nat)));
                }
                return Ok(notes);
            },
            Ok(_) => {
                proof {
                    assert forall|res: ReadOutcome<CT_Footnotes>|
                        #[trigger] flat_cap_run(x, tr, reader.count(), no_end(), notes_fails(), notes_step(), notes_start(x, tr), notes, fuel as nat, res)
                        implies flat_cap_run(x, tr, n, no_end(), notes_fails(), notes_step(), notes_start(x, tr), o, f1, res) by {}
                }
            },
            Err(e) => {
                proof {
                    let res = (Err::<CT_Footnotes, OxmlError>(e), reader.count(), fuel as nat);
                    assert(flat_cap_run(x, tr, n, no_end(), notes_fails(), notes_step(), notes_start(x, tr), o, f1, res));
                        assert(notes_run(x, tr, n0, o0, budget as nat, res));
                        assert(notes_read(x, tr, n0, res));
                }
                return Err(e);
            },
        }
    }
    proof {
        assert(flat_cap_run(x, tr, reader.count(), no_end(), notes_fails(), notes_step(), notes_start(x, tr), notes, 0nat, (Ok::<CT_Footnotes, OxmlError>(notes), reader.count(), 0nat)));
                        assert(notes_run(x, tr, n0, o0, budget as nat, (Ok::<CT_Footnotes, OxmlError>(notes), reader.count(), 0nat)));
                        assert(notes_read(x, tr, n0, (Ok::<CT_Footnotes, OxmlError>(notes), reader.count(), 0nat)));
    }
    Ok(notes)
}

/// Read the paragraphs of the note `id` from the events after its start
/// tag up to its end (or the end of input); other elements are skipped.
fn parse_footnote_content(reader: &mut XmlReader, id: i32) -> (r: Result<CT_Footnote, OxmlError>)
    ensures
        final(reader).same_input(old(reader)),
        exists|f: nat|
            #[trigger] note_content(old(reader).input(), old(reader).trims(), old(reader).count(), id,
                (r, final(reader).count(), f)),
        r matches Ok(nn) ==> nn.id == id,
{
    let ghost x = reader.input();
    let ghost tr = reader.trims();
    let ghost n0 = reader.count();
    let mut note = CT_Footnote { id, paragraphs: Vec::new() };
    let ghost o0 = note;
    let budget = event_budget(unread_len(reader));
    let mut fuel = budget;
    while fuel > 0
        invariant
            fuel <= budget,
            budget as nat == budget_for(xml_unread(x, tr, n0)),
            reader.input() == x,
            reader.trims() == tr,
            x == old(reader).input(),
            tr == old(reader).trims(),
            n0 == old(reader).count(),
            o0.id == id,
            o0.paragraphs@.len() == 0,
            note.id == id,
            forall|res: ReadOutcome<CT_Footnote>|
                #[trigger] flat_cap_run(x, tr, reader.count(), note_end(), note_fails(), note_step(), note_start(x, tr), note, fuel as nat, res)
                    ==> note_run(x, tr, n0, o0, budget as nat, res),
        decreases fuel,
    {
        let ghost n = reader.count();
        let ghost o = note;
        let ghost f1 = fuel as nat;
        fuel = fuel - 1;
        match read_event(reader) {
            Ok(ReadEvent::Empty(t)) => {
                if let Err(e) = read_note_empty(&mut note, &t) {
                    proof {
                        let res = (Err::<CT_Footnote, OxmlError>(e), reader.count(), fuel as nat);
                        assert(flat_cap_run(x, tr, n, note_end(), note_fails(), note_step(), note_start(x, tr), o, f1, res));
                        assert(note_run(x, tr, n0, o0, budget as nat, res));
                        assert(note_content(x, tr, n0, id, res));
                    }
                    return Err(e);
                }
                proof {
                    assert(note_step()(o, note, t));
                    assert forall|res: ReadOutcome<CT_Footnote>|
                        #[trigger] flat_cap_run(x, tr, reader.count(), note_end(), note_fails(), note_step(), note_start(x, tr), note, fuel as nat, res)
                        implies flat_cap_run(x, tr, n, note_end(), note_fails(), note_step(), note_start(x, tr), o, f1, res) by {
                        lemma_flat_cap_empty(x, tr, n, note_end(), note_fails(), note_step(), note_start(x, tr), o, note, f1, t, res);
                    }
                }
            },
            Ok(ReadEvent::Start(t)) => {
                if name_is(t.name.as_str(), "p") {
                    match CT_P::from_xml(reader) {
                        Ok(p) => {
                            note.paragraphs.push(p);
                    proof {
                        let q = reader.count();
                        assert(note_start(x, tr)(o, t, n + 1, Ok::<CT_Footnote, OxmlError>(note), q));
                        assert forall|res: ReadOutcome<CT_Footnote>|
                            #[trigger] flat_cap_run(x, tr, reader.count(), note_end(), note_fails(), note_step(), note_start(x, tr), note, fuel as nat, res)
                            implies flat_cap_run(x, tr, n, note_end(), note_fails(), note_step(), note_start(x, tr), o, f1, res) by {
                            lemma_flat_cap_start(x, tr, n, note_end(), note_fails(), note_step(), note_start(x, tr), o, f1, t, Ok::<CT_Footnote, OxmlError>(note), q, res);
                        }
                    }
                        },
                        Err(e) => {
                        proof {
                            let q = reader.count();
                            let res = (Err::<CT_Footnote, OxmlError>(e), q, fuel as nat);
                            assert(note_start(x, tr)(o, t, n + 1, Err::<CT_Footnote, OxmlError>(e), q));
                            lemma_flat_cap_start(x, tr, n, note_end(), note_fails(), note_step(), note_start(x, tr), o, f1, t, Err::<CT_Footnote, OxmlError>(e), q, res);
                        assert(note_run(x, tr, n0, o0, budget as nat, res));
                        assert(note_content(x, tr, n0, id, res));
                        }
                        return Err(e);
                        },
                    }
                } else {
                    match skip_to_end(reader, t.name.as_str()) {
                        Ok(_) => {
                    proof {
                        let q = reader.count();
                        assert(note_start(x, tr)(o, t, n + 1, Ok::<CT_Footnote, OxmlError>(note), q));
                        assert forall|res: ReadOutcome<CT_Footnote>|
                            #[trigger] flat_cap_run(x, tr, reader.count(), note_end(), note_fails(), note_step(), note_start(x, tr), note, fuel as nat, res)
                            implies flat_cap_run(x, tr, n, note_end(), note_fails(), note_step(), note_start(x, tr), o, f1, res) by {
                            lemma_flat_cap_start(x, tr, n, note_end(), note_fails(), note_step(), note_start(x, tr), o, f1, t, Ok::<CT_Footnote, OxmlError>(note), q, res);
                        }
                    }
                        },
                        Err(e) => {
                        proof {
                            let q = reader.count();
                            let res = (Err::<CT_Footnote, OxmlError>(e), q, fuel as nat);
                            assert(note_start(x, tr)(o, t, n + 1, Err::<CT_Footnote, OxmlError>(e), q));
                            lemma_flat_cap_start(x, tr, n, note_end(), note_fails(), note_step(), note_start(x, tr), o, f1, t, Err::<CT_Footnote, OxmlError>(e), q, res);
                        assert(note_run(x, tr, n0, o0, budget as nat, res));
                        assert(note_content(x, tr, n0, id, res));
                        }
                        return Err(e);
                        },
                    }
                }
            },
            Ok(ReadEvent::End(nm)) => {
                if name_is(nm.as_str(), "footnote") || name_is(nm.as_str(), "endnote") {
                    proof {
                        assert(flat_cap_run(x, tr, n, note_end(), note_fails(), note_step(), note_start(x, tr), o, f1, (Ok::<CT_Footnote, OxmlError>(note), reader.count(), fuel as nat)));
                        assert(note_run(x, tr, n0, o0, budget as nat, (Ok::<CT_Footnote, OxmlError>(note), reader.count(), fuel as nat)));
                        assert(note_content(x, tr, n0, id, (Ok::<CT_Footnote, OxmlError>(note), reader.count(), fuel as nat)));
                    }
                    return Ok(note);
                }
                proof {
                    assert forall|res: ReadOutcome<CT_Footnote>|
                        #[trigger] flat_cap_run(x, tr, reader.count(), note_end(), note_fails(), note_step(), note_start(x, tr), note, fuel as nat, res)
                        implies flat_cap_run(x, tr, n, note_end(), note_fails(), note_step(), note_start(x, tr), o, f1, res) by {}
                }
            },
            Ok(ReadEvent::Eof) => {
                proof {
                    assert(flat_cap_run(x, tr, n, note_end(), note_fails(), note_step(), note_start(x, tr), o, f1, (Ok::<CT_Footnote, OxmlError>(note), reader.count(), fuel as nat)));
                        assert(note_run(x, tr, n0, o0, budget as nat, (Ok::<CT_Footnote, OxmlError>(note), reader.count(), fuel as nat)));
                        assert(note_content(x, tr, n0, id, (Ok::<CT_Footnote, OxmlError>(note), reader.count(), fuel as nat)));
                }
                return Ok(note);
            },
            Ok(_) => {
                proof {
                    assert forall|res: ReadOutcome<CT_Footnote>|
                        #[trigger] flat_cap_run(x, tr, reader.count(), note_end(), note_fails(), note_step(), note_start(x, tr), note, fuel as nat, res)
                        implies flat_cap_run(x, tr, n, note_end(), note_fails(), note_step(), note_start(x, tr), o, f1, res) by {}
                }
            },
            Err(e) => {
                proof {
                    let res = (Err::<CT_Footnote, OxmlError>(e), reader.count(), fuel as nat);
                    assert(flat_cap_run(x, tr, n, note_end(), note_fails(), note_step(), note_start(x, tr), o, f1, res));
                        assert(note_run(x, tr, n0, o0, budget as nat, res));
                        assert(note_content(x, tr, n0, id, res));
                }
                return Err(e);
            },
        }
    }
    proof {
        assert(flat_cap_run(x, tr, reader.count(), note_end(), note_fails(), note_step(), note_start(x, tr), note, 0nat, (Ok::<CT_Footnote, OxmlError>(note), reader.count(), 0nat)));
                        assert(note_run(x, tr, n0, o0, budget as nat, (Ok::<CT_Footnote, OxmlError>(note), reader.count(), 0nat)));
                        assert(note_content(x, tr, n0, id, (Ok::<CT_Footnote, OxmlError>(note), reader.count(), 0nat)));
    }
    Ok(note)
}

} // verus!
