//! Reading and writing header and footer parts.

use vstd::prelude::*;


use crate::chars::{match_at, occurs_at, str_chars, str_eq, to_owned_string};
use crate::drawing::drawing_ns;
use crate::error::OxmlError;
use crate::header_footer::CT_HdrFtr;
use crate::namespace::{R_NS, W_NS};
use crate::opc::std_decl;
use crate::text::text_xml::p_xml;
use crate::text::CT_P;
use crate::xml::{
    attr_views, emit, emit_end, emit_start_attrs, end_tag, raw_concat, start_tag_attrs, view_bytes, write_raws,
    XmlEvent,
};
use crate::properties_read::{cap_start, flat_cap_run, lemma_flat_cap_empty, lemma_flat_cap_start, ReadOutcome};
use crate::text::text_read::para_read;
use crate::xml_read::{
    budget_for, capture_element, capture_empty_element, empty_raw, event_budget, local_is, name_is, read_event,
    reader_from_bytes, unread_len, xml_unread, ReadEvent, Tag, XmlReader,
};

verus! {

/// The bytes of a list of paragraphs, one after another.
pub open spec fn paras_xml(ps: Seq<CT_P>) -> Seq<u8>
    decreases ps.len(),
{
    if ps.len() == 0 {
        Seq::empty()
    } else {
        paras_xml(ps.drop_last()) + p_xml(ps.last())
    }
}

/// Append the paragraphs.
pub fn write_paras(out: &mut Vec<u8>, ps: &Vec<CT_P>)
    ensures
        final(out)@ == old(out)@ + paras_xml(ps@),
{
    let ghost o = out@;
    let mut i: usize = 0;
    proof { assert(ps@.take(0) =~= Seq::<CT_P>::empty()); }
    while i < ps.len()
        invariant
            i <= ps@.len(),
            out@ == o + paras_xml(ps@.take(i as int)),
        decreases ps@.len() - i,
    {
        ps[i].to_xml(out);
        proof {
            assert(ps@.take(i + 1).drop_last() =~= ps@.take(i as int));
            assert(out@ =~= o + paras_xml(ps@.take(i + 1)));
        }
        i = i + 1;
    }
    proof { assert(ps@.take(i as int) =~= ps@); }
}

/// Whether one of the attributes has the key `k`.
pub open spec fn has_key(a: Seq<(Seq<char>, Seq<char>)>, k: Seq<char>) -> bool {
    exists|i: int| 0 <= i < a.len() && #[trigger] a[i].0 == k
}

/// The attributes of the root element: the main and relationship
/// namespaces, the drawing namespace unless a kept declaration gives it,
/// then the kept declarations.
pub open spec fn root_attrs(extra: Seq<(Seq<char>, Seq<char>)>) -> Seq<(Seq<char>, Seq<char>)> {
    seq![("xmlns:w"@, W_NS@), ("xmlns:r"@, R_NS@)] + (if has_key(extra, "xmlns:wp"@) {
        Seq::empty()
    } else {
        seq![("xmlns:wp"@, drawing_ns::WP@)]
    }) + extra
}

/// A header or footer part with the root element `root`: the declaration,
/// the root's start tag, the paragraphs, the elements kept verbatim, and
/// the root's end tag.
pub open spec fn hdr_ftr_xml(h: CT_HdrFtr, root: Seq<char>) -> Seq<u8> {
    view_bytes(std_decl()) + start_tag_attrs(root, root_attrs(attr_views(h.extra_namespaces@))) + paras_xml(
        h.paragraphs@,
    ) + raw_concat(h.extra_xml@) + end_tag(root)
}

/// Whether a kept declaration has the key `xmlns:wp`.
fn declares_wp(a: &Vec<(String, String)>) -> (r: bool)
    ensures
        r == has_key(attr_views(a@), "xmlns:wp"@),
{
    let mut i: usize = 0;
    while i < a.len()
        invariant
            i <= a@.len(),
            forall|j: int| 0 <= j < i ==> a@[j].0@ != "xmlns:wp"@,
        decreases a@.len() - i,
    {
        if str_eq(a[i].0.as_str(), "xmlns:wp") {
            proof { assert(attr_views(a@)[i as int].0 == "xmlns:wp"@); }
            return true;
        }
        i = i + 1;
    }
    proof {
        assert forall|j: int| 0 <= j < attr_views(a@).len() implies #[trigger] attr_views(a@)[j].0 != "xmlns:wp"@ by {
            assert(attr_views(a@)[j].0 == a@[j].0@);
        }
    }
    false
}

impl CT_HdrFtr {
    /// The part with the root element `root_tag`.
    fn to_xml_root(&self, root_tag: &str) -> (r: Vec<u8>)
        ensures
            r@ == hdr_ftr_xml(*self, root_tag@),
    {
        let mut out: Vec<u8> = Vec::new();
        emit(
            &mut out,
            XmlEvent::Decl(to_owned_string("1.0"), Some(to_owned_string("UTF-8")), Some(to_owned_string("yes"))),
        );
        let mut attrs: Vec<(String, String)> = Vec::new();
        attrs.push((to_owned_string("xmlns:w"), to_owned_string(W_NS)));
        attrs.push((to_owned_string("xmlns:r"), to_owned_string(R_NS)));
        if !declares_wp(&self.extra_namespaces) {
            attrs.push((to_owned_string("xmlns:wp"), to_owned_string(drawing_ns::WP)));
        }
        let ghost head = attrs@;
        let mut i: usize = 0;
        while i < self.extra_namespaces.len()
            invariant
                i <= self.extra_namespaces@.len(),
                attrs@ == head + self.extra_namespaces@.take(i as int),
            decreases self.extra_namespaces@.len() - i,
        {
            let (k, v) = &self.extra_namespaces[i];
            attrs.push((k.clone(), v.clone()));
            proof { assert(attrs@ =~= head + self.extra_namespaces@.take(i + 1)); }
            i = i + 1;
        }
        proof {
            assert(self.extra_namespaces@.take(i as int) =~= self.extra_namespaces@);
            assert(attr_views(attrs@) =~= root_attrs(attr_views(self.extra_namespaces@)));
        }
        emit_start_attrs(&mut out, root_tag, attrs);
        write_paras(&mut out, &self.paragraphs);
        write_raws(&mut out, &self.extra_xml);
        emit_end(&mut out, root_tag);
        proof {
            assert(out@ =~= hdr_ftr_xml(*self, root_tag@));
        }
        out
    }

    /// Serialize as a header part (root `w:hdr`).
    pub fn to_xml_header(&self) -> (r: Result<Vec<u8>, OxmlError>)
        ensures
            r matches Ok(b) && b@ == hdr_ftr_xml(*self, "w:hdr"@),
    {
        Ok(self.to_xml_root("w:hdr"))
    }

    /// Serialize as a footer part (root `w:ftr`).
    pub fn to_xml_footer(&self) -> (r: Result<Vec<u8>, OxmlError>)
        ensures
            r matches Ok(b) && b@ == hdr_ftr_xml(*self, "w:ftr"@),
    {
        Ok(self.to_xml_root("w:ftr"))
    }
}

/// Whether a namespace declaration of the root is kept: its key starts
/// with `xmlns:` and is neither `xmlns:w` nor `xmlns:r`.
pub open spec fn kept_ns_key(k: Seq<char>) -> bool {
    occurs_at(k, "xmlns:"@, 0) && k != "xmlns:w"@ && k != "xmlns:r"@
}

/// The declarations of the root's attributes that are kept, in order.
pub open spec fn kept_namespaces(a: Seq<(Seq<char>, Seq<char>)>) -> Seq<(Seq<char>, Seq<char>)>
    decreases a.len(),
{
    if a.len() == 0 {
        Seq::empty()
    } else {
        kept_namespaces(a.drop_last()) + (if kept_ns_key(a.last().0) {
            seq![a.last()]
        } else {
            Seq::empty()
        })
    }
}

/// Every declaration kept has a key that `kept_ns_key` accepts.
pub proof fn lemma_kept_namespaces_keys(a: Seq<(Seq<char>, Seq<char>)>)
    ensures
        forall|i: int| 0 <= i < kept_namespaces(a).len() ==> kept_ns_key(#[trigger] kept_namespaces(a)[i].0),
    decreases a.len(),
{
    if a.len() > 0 {
        lemma_kept_namespaces_keys(a.drop_last());
        let k = kept_namespaces(a.drop_last());
        assert forall|i: int| 0 <= i < kept_namespaces(a).len() implies kept_ns_key(
            #[trigger] kept_namespaces(a)[i].0,
        ) by {
            if i < k.len() {
                assert(kept_namespaces(a)[i] == k[i]);
            }
        }
    }
}

/// Append the kept namespace declarations among `attrs` to `out`.
pub fn keep_namespaces(out: &mut Vec<(String, String)>, attrs: &Vec<(String, String)>)
    ensures
        attr_views(final(out)@) == attr_views(old(out)@) + kept_namespaces(attr_views(attrs@)),
{
    let ghost o = attr_views(out@);
    let prefix = str_chars("xmlns:");
    let mut i: usize = 0;
    proof { assert(attr_views(attrs@).take(0) =~= Seq::<(Seq<char>, Seq<char>)>::empty()); }
    while i < attrs.len()
        invariant
            i <= attrs@.len(),
            prefix@ == "xmlns:"@,
            attr_views(out@) == o + kept_namespaces(attr_views(attrs@).take(i as int)),
        decreases attrs@.len() - i,
    {
        let (k, v) = &attrs[i];
        let kc = str_chars(k.as_str());
        let keep = match_at(kc.as_slice(), prefix.as_slice(), 0) && !str_eq(k.as_str(), "xmlns:w") && !str_eq(
            k.as_str(),
            "xmlns:r",
        );
        let ghost before = out@;
        if keep {
            out.push((k.clone(), v.clone()));
        }
        proof {
            let t = attr_views(attrs@).take(i + 1);
            assert(t.drop_last() =~= attr_views(attrs@).take(i as int));
            assert(t.last() == (k@, v@));
            if keep {
                assert(attr_views(out@) =~= attr_views(before) + seq![(k@, v@)]);
            } else {
                assert(attr_views(out@) =~= attr_views(before));
            }
            assert(attr_views(out@) =~= o + kept_namespaces(t));
        }
        i = i + 1;
    }
    proof { assert(attr_views(attrs@).take(i as int) =~= attr_views(attrs@)); }
}

/// No end tag ends the reading: it goes on to the end of input.
pub open spec fn no_end() -> spec_fn(Seq<char>) -> bool {
    |m: Seq<char>| false
}

/// Whether a name is the root of a header or footer part.
pub open spec fn is_hf_root(nm: Seq<char>) -> bool {
    local_is(nm, "hdr"@) || local_is(nm, "ftr"@)
}

/// A header or footer before anything is read into it.
pub open spec fn hf_blank(o: CT_HdrFtr) -> bool {
    o.paragraphs@.len() == 0 && o.extra_namespaces@.len() == 0 && o.extra_xml@.len() == 0
}

/// A header or footer with one more element kept verbatim.
pub open spec fn hf_keep() -> spec_fn(CT_HdrFtr, CT_HdrFtr, Seq<u8>) -> bool {
    |o: CT_HdrFtr, m: CT_HdrFtr, b: Seq<u8>|
        {
            &&& m == (CT_HdrFtr { extra_xml: m.extra_xml, ..o })
            &&& m.extra_xml@.len() == o.extra_xml@.len() + 1
            &&& m.extra_xml@.drop_last() == o.extra_xml@
            &&& m.extra_xml@.last()@ == b
        }
}

/// Reading a header or footer never fails on an empty tag.
pub open spec fn hf_fails() -> spec_fn(CT_HdrFtr, Tag) -> bool {
    |o: CT_HdrFtr, t: Tag| false
}

/// What an empty tag does to a header or footer: an empty root changes
/// nothing, any other is kept verbatim.
pub open spec fn hf_step() -> spec_fn(CT_HdrFtr, CT_HdrFtr, Tag) -> bool {
    |o: CT_HdrFtr, m: CT_HdrFtr, t: Tag|
        if is_hf_root(t.name@) {
            m == o
        } else {
            hf_keep()(o, m, empty_raw(t))
        }
}

/// What a start tag does in a header or footer part, read from call `p`
/// on: a paragraph is read by its reader and added; the root adds its kept
/// namespace declarations (`kept_namespaces`) and reads nothing more; any
/// other element is kept verbatim.
pub open spec fn hf_start(x: Seq<u8>, tr: bool) -> spec_fn(CT_HdrFtr, Tag, nat, Result<CT_HdrFtr, OxmlError>, nat) -> bool {
    |o: CT_HdrFtr, t: Tag, p: nat, m: Result<CT_HdrFtr, OxmlError>, q: nat|
        if local_is(t.name@, "p"@) {
            exists|rp: Result<CT_P, OxmlError>, f: nat|
                #[trigger] para_read(x, tr, p, (rp, q, f)) && match rp {
                    Ok(pp) => (m matches Ok(s2) && s2 == (CT_HdrFtr { paragraphs: s2.paragraphs, ..o })
                        && s2.paragraphs@ == o.paragraphs@.push(pp)),
                    Err(e) => m == Err::<CT_HdrFtr, OxmlError>(e),
                }
        } else if is_hf_root(t.name@) {
            q == p && (m matches Ok(s2) && s2 == (CT_HdrFtr { extra_namespaces: s2.extra_namespaces, ..o })
                && attr_views(s2.extra_namespaces@) == attr_views(o.extra_namespaces@) + kept_namespaces(
                attr_views(t.attrs@),
            ))
        } else {
            cap_start(x, tr, hf_keep())(o, t, p, m, q)
        }
}

/// Reading a header or footer part from call `n` on of a reader over `x`,
/// over what `o` holds and with `f` events left, ends in `res`; only the
/// end of input ends it.
pub open spec fn hf_run(x: Seq<u8>, tr: bool, n: nat, o: CT_HdrFtr, f: nat, res: ReadOutcome<CT_HdrFtr>) -> bool {
    flat_cap_run(x, tr, n, no_end(), hf_fails(), hf_step(), hf_start(x, tr), o, f, res)
}

/// Reading a header or footer part from call `n` on, from nothing, with the
/// budget for what is left unread, ends in `res`.
pub open spec fn hf_read(x: Seq<u8>, tr: bool, n: nat, res: ReadOutcome<CT_HdrFtr>) -> bool {
    exists|o: CT_HdrFtr| #[trigger] hf_blank(o) && hf_run(x, tr, n, o, budget_for(xml_unread(x, tr, n)), res)
}

/// A reading from nothing with the full budget is a part read.
proof fn lemma_hf_read(x: Seq<u8>, tr: bool, n: nat, o: CT_HdrFtr, res: ReadOutcome<CT_HdrFtr>)
    requires
        hf_blank(o),
        hf_run(x, tr, n, o, budget_for(xml_unread(x, tr, n)), res),
    ensures
        hf_read(x, tr, n, res),
{
}

/// Read one empty tag into a header or footer.
fn read_hf_empty(hf: &mut CT_HdrFtr, t: &Tag) -> (r: Result<(), OxmlError>)
    ensures
        r is Ok,
        hf_step()(*old(hf), *final(hf), *t),
        final(hf).extra_namespaces == old(hf).extra_namespaces,
{
    let nm = t.name.as_str();
    if !(name_is(nm, "hdr") || name_is(nm, "ftr")) {
        let ghost o = *hf;
        hf.extra_xml.push(capture_empty_element(t));
        proof { assert(hf.extra_xml@.drop_last() =~= o.extra_xml@); }
    }
    Ok(())
}

/// Whether every key is a kept namespace declaration.
pub open spec fn kept_keys(s: Seq<(String, String)>) -> bool {
    forall|i: int| 0 <= i < s.len() ==> kept_ns_key(#[trigger] s[i].0@)
}

/// Adding the kept namespace declarations of a root keeps every key a
/// kept one.
proof fn lemma_kept_keys_added(before: Seq<(String, String)>, after: Seq<(String, String)>, attrs: Seq<(Seq<char>, Seq<char>)>)
    requires
        attr_views(after) == attr_views(before) + kept_namespaces(attrs),
        kept_keys(before),
    ensures
        kept_keys(after),
{
    lemma_kept_namespaces_keys(attrs);
    let kn = kept_namespaces(attrs);
    assert forall|i: int| 0 <= i < after.len() implies kept_ns_key(#[trigger] after[i].0@) by {
        assert(attr_views(before).len() == before.len());
        assert(attr_views(after).len() == after.len());
        assert(after.len() == before.len() + kn.len());
        assert(attr_views(after)[i] == (attr_views(before) + kn)[i]);
        assert(attr_views(after)[i].0 == after[i].0@);
        if i >= before.len() {
            assert(kept_ns_key(kn[i - before.len()].0));
            assert((attr_views(before) + kn)[i] == kn[i - before.len()]);
        } else {
            assert(attr_views(before)[i].0 == before[i].0@);
        }
    }
}

/// Read a header or footer part from the events of `reader`.
fn read_hdr_ftr(reader: &mut XmlReader) -> (r: Result<CT_HdrFtr, OxmlError>)
    ensures
        final(reader).same_input(old(reader)),
        exists|f: nat|
            #[trigger] hf_read(old(reader).input(), old(reader).trims(), old(reader).count(),
                (r, final(reader).count(), f)),
        r matches Ok(h) ==> kept_keys(h.extra_namespaces@),
{
    let ghost x = reader.input();
    let ghost tr = reader.trims();
    let ghost n0 = reader.count();
    let mut hf = CT_HdrFtr { paragraphs: Vec::new(), extra_namespaces: Vec::new(), extra_xml: Vec::new() };
    let ghost o0 = hf;
    let budget = event_budget(unread_len(reader));
    let mut fuel = budget;
    while fuel > 0
        invariant
            fuel <= budget,
            budget as nat == budget_for(xml_unread(x, tr, n0)),
            reader.input() == x,
            reader.trims() == tr,
            x == old(reader).input(),
            tr == old(reader).trims(),
            n0 == old(reader).count(),
            hf_blank(o0),
            kept_keys(hf.extra_namespaces@),
            forall|res: ReadOutcome<CT_HdrFtr>|
                #[trigger] flat_cap_run(x, tr, reader.count(), no_end(), hf_fails(), hf_step(), hf_start(x, tr), hf, fuel as nat, res)
                    ==> hf_run(x, tr, n0, o0, budget as nat, res),
        decreases fuel,
    {
        let ghost n = reader.count();
        let ghost o = hf;
        let ghost f1 = fuel as nat;
        fuel = fuel - 1;
        match read_event(reader) {
            Ok(ReadEvent::Empty(t)) => {
                if let Err(e) = read_hf_empty(&mut hf, &t) {
                    proof {
                        let res = (Err::<CT_HdrFtr, OxmlError>(e), reader.count(), fuel as nat);
                        assert(flat_cap_run(x, tr, n, no_end(), hf_fails(), hf_step(), hf_start(x, tr), o, f1, res));
                        assert(hf_run(x, tr, n0, o0, budget as nat, res));
                        lemma_hf_read(x, tr, n0, o0, res);
                    }
                    return Err(e);
                }
                proof {
                    assert(hf_step()(o, hf, t));
                    assert forall|res: ReadOutcome<CT_HdrFtr>|
                        #[trigger] flat_cap_run(x, tr, reader.count(), no_end(), hf_fails(), hf_step(), hf_start(x, tr), hf, fuel as nat, res)
                        implies flat_cap_run(x, tr, n, no_end(), hf_fails(), hf_step(), hf_start(x, tr), o, f1, res) by {
                        lemma_flat_cap_empty(x, tr, n, no_end(), hf_fails(), hf_step(), hf_start(x, tr), o, hf, f1, t, res);
                    }
                }
            },
            Ok(ReadEvent::Start(t)) => {
                let nm = t.name.as_str();
                if name_is(nm, "p") {
                    match CT_P::from_xml(reader) {
                        Ok(p) => {
                            hf.paragraphs.push(p);
                    proof {
                        let q = reader.count();
                        assert(hf_start(x, tr)(o, t, n + 1, Ok::<CT_HdrFtr, OxmlError>(hf), q));
                        assert forall|res: ReadOutcome<CT_HdrFtr>|
                            #[trigger] flat_cap_run(x, tr, reader.count(), no_end(), hf_fails(), hf_step(), hf_start(x, tr), hf, fuel as nat, res)
                            implies flat_cap_run(x, tr, n, no_end(), hf_fails(), hf_step(), hf_start(x, tr), o, f1, res) by {
                            lemma_flat_cap_start(x, tr, n, no_end(), hf_fails(), hf_step(), hf_start(x, tr), o, f1, t, Ok::<CT_HdrFtr, OxmlError>(hf), q, res);
                        }
                    }
                        },
                        Err(e) => {
                        proof {
                            let q = reader.count();
                            let res = (Err::<CT_HdrFtr, OxmlError>(e), q, fuel as nat);
                            assert(hf_start(x, tr)(o, t, n + 1, Err::<CT_HdrFtr, OxmlError>(e), q));
                            lemma_flat_cap_start(x, tr, n, no_end(), hf_fails(), hf_step(), hf_start(x, tr), o, f1, t, Err::<CT_HdrFtr, OxmlError>(e), q, res);
                        assert(hf_run(x, tr, n0, o0, budget as nat, res));
                        lemma_hf_read(x, tr, n0, o0, res);
                        }
                        return Err(e);
                        },
                    }
                } else if name_is(nm, "hdr") || name_is(nm, "ftr") {
                    let ghost before = hf.extra_namespaces@;
                    keep_namespaces(&mut hf.extra_namespaces, &t.attrs);
                    proof { lemma_kept_keys_added(before, hf.extra_namespaces@, attr_views(t.attrs@)); }
                    proof {
                        let q = reader.count();
                        assert(hf_start(x, tr)(o, t, n + 1, Ok::<CT_HdrFtr, OxmlError>(hf), q));
                        assert forall|res: ReadOutcome<CT_HdrFtr>|
                            #[trigger] flat_cap_run(x, tr, reader.count(), no_end(), hf_fails(), hf_step(), hf_start(x, tr), hf, fuel as nat, res)
                            implies flat_cap_run(x, tr, n, no_end(), hf_fails(), hf_step(), hf_start(x, tr), o, f1, res) by {
                            lemma_flat_cap_start(x, tr, n, no_end(), hf_fails(), hf_step(), hf_start(x, tr), o, f1, t, Ok::<CT_HdrFtr, OxmlError>(hf), q, res);
                        }
                    }
                } else {
                    let raw = match capture_element(reader, &t) {
                        Ok(b) => b,
                        Err(e) => {
                        proof {
                            let q = reader.count();
                            let res = (Err::<CT_HdrFtr, OxmlError>(e), q, fuel as nat);
                            assert(hf_start(x, tr)(o, t, n + 1, Err::<CT_HdrFtr, OxmlError>(e), q));
                            lemma_flat_cap_start(x, tr, n, no_end(), hf_fails(), hf_step(), hf_start(x, tr), o, f1, t, Err::<CT_HdrFtr, OxmlError>(e), q, res);
                        assert(hf_run(x, tr, n0, o0, budget as nat, res));
                        lemma_hf_read(x, tr, n0, o0, res);
                        }
                        return Err(e);
                        },
                    };
                    let ghost bb = raw@;
                    hf.extra_xml.push(raw);
                    proof {
                        assert(hf.extra_xml@.drop_last() =~= o.extra_xml@);
                        assert(hf_keep()(o, hf, bb));
                    }
                    proof {
                        let q = reader.count();
                        assert(hf_start(x, tr)(o, t, n + 1, Ok::<CT_HdrFtr, OxmlError>(hf), q));
                        assert forall|res: ReadOutcome<CT_HdrFtr>|
                            #[trigger] flat_cap_run(x, tr, reader.count(), no_end(), hf_fails(), hf_step(), hf_start(x, tr), hf, fuel as nat, res)
                            implies flat_cap_run(x, tr, n, no_end(), hf_fails(), hf_step(), hf_start(x, tr), o, f1, res) by {
                            lemma_flat_cap_start(x, tr, n, no_end(), hf_fails(), hf_step(), hf_start(x, tr), o, f1, t, Ok::<CT_HdrFtr, OxmlError>(hf), q, res);
                        }
                    }
                }
            },
            Ok(ReadEvent::Eof) => {
                proof {
                    assert(flat_cap_run(x, tr, n, no_end(), hf_fails(), hf_step(), hf_start(x, tr), o, f1, (Ok::<CT_HdrFtr, OxmlError>(hf), reader.count(), fuel as nat)));
                        assert(hf_run(x, tr, n0, o0, budget as nat, (Ok::<CT_HdrFtr, OxmlError>(hf), reader.count(), fuel as nat)));
                        lemma_hf_read(x, tr, n0, o0, (Ok::<CT_HdrFtr, OxmlError>(hf), reader.count(), fuel as nat));
                }
                return Ok(hf);
            },
            Ok(_) => {
                proof {
                    assert forall|res: ReadOutcome<CT_HdrFtr>|
                        #[trigger] flat_cap_run(x, tr, reader.count(), no_end(), hf_fails(), hf_step(), hf_start(x, tr), hf, fuel as nat, res)
                        implies flat_cap_run(x, tr, n, no_end(), hf_fails(), hf_step(), hf_start(x, tr), o, f1, res) by {}
                }
            },
            Err(e) => {
                proof {
                    let res = (Err::<CT_HdrFtr, OxmlError>(e), reader.count(), fuel as nat);
                    assert(flat_cap_run(x, tr, n, no_end(), hf_fails(), hf_step(), hf_start(x, tr), o, f1, res));
                        assert(hf_run(x, tr, n0, o0, budget as nat, res));
                        lemma_hf_read(x, tr, n0, o0, res);
                }
                return Err(e);
            },
        }
    }
    proof {
        assert(flat_cap_run(x, tr, reader.count(), no_end(), hf_fails(), hf_step(), hf_start(x, tr), hf, 0nat, (Ok::<CT_HdrFtr, OxmlError>(hf), reader.count(), 0nat)));
                        assert(hf_run(x, tr, n0, o0, budget as nat, (Ok::<CT_HdrFtr, OxmlError>(hf), reader.count(), 0nat)));
                        lemma_hf_read(x, tr, n0, o0, (Ok::<CT_HdrFtr, OxmlError>(hf), reader.count(), 0nat));
    }
    Ok(hf)
}

impl CT_HdrFtr {
    /// Read a header or footer part: each paragraph (`CT_P::from_xml`), the
    /// kept namespace declarations of the root (`keep_namespaces`), and any
    /// other element kept verbatim (`capture_element`,
    /// `capture_empty_element`), as `hf_read` says over the events of a
    /// reader over `xml` that trims text.
    pub fn from_xml(xml: &[u8]) -> (r: Result<Self, OxmlError>)
        ensures
            exists|c: nat, f: nat| #[trigger] hf_read(xml@, true, 0, (r, c, f)),
            r matches Ok(h) ==> forall|i: int|
                0 <= i < h.extra_namespaces@.len() ==> kept_ns_key(#[trigger] h.extra_namespaces@[i].0@),
    {
        let mut reader = reader_from_bytes(xml, true);
        read_hdr_ftr(&mut reader)
    }
}

} // verus!
