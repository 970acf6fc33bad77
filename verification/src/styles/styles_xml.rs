//! Reading and writing the styles part.

use vstd::prelude::*;

use crate::xml_read::XmlReader;

use crate::chars::{str_eq, to_owned_string};
use crate::error::OxmlError;
use crate::namespace::{R_NS, W_NS};
use crate::opc::std_decl;
use crate::properties::{ppr_xml, rpr_xml, CT_PPr, CT_RPr};
use crate::styles::{style_type_name, style_type_parse, CT_DocDefaults, CT_Style, CT_Styles, StyleType};
use crate::xml::{
    attr_views, element, emit, emit_element, emit_end, emit_start, emit_start_attrs, end_tag, extra_bytes, opt_attr,
    push_attr, start_tag, start_tag_attrs, view_bytes, write_extra, XmlEvent,
};
use crate::properties::{ppr_none, rpr_none};
use crate::properties_read::{
    cap_start, ends_at, extra_added, flat_cap_run, lemma_flat_cap_empty, lemma_flat_cap_start, ppr_run, push_extra, rpr_run,
    ReadOutcome,
};
use crate::header_footer::hdr_ftr_xml::no_end;
use crate::xml_read::{budget_for, budget_left, empty_raw, xml_skip_to, xml_unread};
use crate::xml_read::{
    capture_element, capture_empty_element, event_budget, get_attr, local_is, local_part, name_is, opt_view,
    read_event, reader_from_bytes, skip_to_end, unread_len, ReadEvent, Tag, first_attr,
};

verus! {

/// An optional element with a `w:val` attribute.
pub open spec fn val_el(tag: Seq<char>, v: Option<String>) -> Seq<u8> {
    match v {
        Some(s) => crate::xml::empty_tag_attr(tag, "w:val"@, s@),
        None => Seq::empty(),
    }
}

/// The attributes of a style's start tag: type, id, and the default mark.
pub open spec fn style_attrs(s: CT_Style) -> Seq<(Seq<char>, Seq<char>)> {
    seq![("w:type"@, style_type_name(s.style_type)), ("w:styleId"@, s.style_id@)] + (if s.is_default {
        seq![("w:default"@, "1"@)]
    } else {
        Seq::empty()
    })
}

/// A style: its start tag, name, base, next style, the children kept
/// verbatim, paragraph and run properties, and its end.
pub open spec fn style_xml(s: CT_Style) -> Seq<u8> {
    start_tag_attrs("w:style"@, style_attrs(s)) + val_el("w:name"@, s.name) + val_el("w:basedOn"@, s.based_on)
        + val_el("w:next"@, s.next_style) + extra_bytes(s.extra_xml) + opt_ppr_xml(s.ppr) + opt_rpr_xml(s.rpr)
        + end_tag("w:style"@)
}

/// Paragraph properties, if set.
#[verifier::opaque]
pub open spec fn opt_ppr_xml(p: Option<CT_PPr>) -> Seq<u8> {
    match p {
        Some(x) => ppr_xml(x),
        None => Seq::empty(),
    }
}

/// Run properties, if set.
#[verifier::opaque]
pub open spec fn opt_rpr_xml(r: Option<CT_RPr>) -> Seq<u8> {
    match r {
        Some(x) => rpr_xml(x),
        None => Seq::empty(),
    }
}

/// Append paragraph properties, if set.
fn write_opt_ppr(out: &mut Vec<u8>, p: &Option<CT_PPr>)
    ensures
        final(out)@ == old(out)@ + opt_ppr_xml(*p),
{
    match p {
        Some(x) => {
            x.to_xml(out);
            proof { reveal(opt_ppr_xml); }
        },
        None => {
            proof { reveal(opt_ppr_xml); assert(out@ =~= old(out)@ + opt_ppr_xml(*p)); }
        },
    }
}

/// Append run properties, if set.
fn write_opt_rpr(out: &mut Vec<u8>, r: &Option<CT_RPr>)
    ensures
        final(out)@ == old(out)@ + opt_rpr_xml(*r),
{
    match r {
        Some(x) => {
            x.to_xml(out);
            proof { reveal(opt_rpr_xml); }
        },
        None => {
            proof { reveal(opt_rpr_xml); assert(out@ =~= old(out)@ + opt_rpr_xml(*r)); }
        },
    }
}

/// The document defaults: run defaults, then paragraph defaults, each if
/// set.
pub open spec fn doc_defaults_xml(d: CT_DocDefaults) -> Seq<u8> {
    element(
        "w:docDefaults"@,
        (match d.rpr {
            Some(r) => element("w:rPrDefault"@, opt_rpr_xml(Some(r))),
            None => Seq::empty(),
        }) + (match d.ppr {
            Some(p) => element("w:pPrDefault"@, opt_ppr_xml(Some(p))),
            None => Seq::empty(),
        }),
    )
}

/// The styles one after another.
pub open spec fn styles_body(ss: Seq<CT_Style>) -> Seq<u8>
    decreases ss.len(),
{
    if ss.len() == 0 {
        Seq::empty()
    } else {
        styles_body(ss.drop_last()) + style_xml(ss.last())
    }
}

/// The styles part: the declaration, the root with the main and
/// relationship namespaces, the document defaults, the top-level elements
/// kept verbatim, the styles, and the root's end.
pub open spec fn styles_xml(s: CT_Styles) -> Seq<u8> {
    view_bytes(std_decl()) + start_tag_attrs("w:styles"@, seq![("xmlns:w"@, W_NS@), ("xmlns:r"@, R_NS@)]) + (match s.doc_defaults {
        Some(d) => doc_defaults_xml(d),
        None => Seq::empty(),
    }) + extra_bytes(s.extra_xml) + styles_body(s.styles@) + end_tag("w:styles"@)
}

/// Append an optional `w:val` element.
fn write_val_el(out: &mut Vec<u8>, tag: &str, v: &Option<String>)
    ensures
        final(out)@ == old(out)@ + val_el(tag@, *v),
{
    match v {
        Some(x) => crate::xml::emit_empty_attr(out, tag, "w:val", x.as_str()),
        None => {
            proof { assert(out@ =~= old(out)@ + val_el(tag@, *v)); }
        },
    }
}

impl CT_Style {
    /// Append this style.
    pub fn to_xml(&self, out: &mut Vec<u8>)
        ensures
            final(out)@ == old(out)@ + style_xml(*self),
    {
        let ghost o = out@;
        let mut a: Vec<(String, String)> = Vec::new();
        push_attr(&mut a, "w:type", to_owned_string(self.style_type.to_str()));
        push_attr(&mut a, "w:styleId", self.style_id.clone());
        if self.is_default {
            push_attr(&mut a, "w:default", to_owned_string("1"));
        }
        proof { assert(attr_views(a@) =~= style_attrs(*self)); }
        emit_start_attrs(out, "w:style", a);
        write_val_el(out, "w:name", &self.name);
        write_val_el(out, "w:basedOn", &self.based_on);
        write_val_el(out, "w:next", &self.next_style);
        write_extra(out, &self.extra_xml);
        write_opt_ppr(out, &self.ppr);
        write_opt_rpr(out, &self.rpr);
        emit_end(out, "w:style");
        proof { assert(out@ =~= o + style_xml(*self)); }
    }
}

impl CT_DocDefaults {
    /// Append the document defaults.
    pub fn to_xml(&self, out: &mut Vec<u8>)
        ensures
            final(out)@ == old(out)@ + doc_defaults_xml(*self),
    {
        let mut b: Vec<u8> = Vec::new();
        if self.rpr.is_some() {
            let mut x: Vec<u8> = Vec::new();
            write_opt_rpr(&mut x, &self.rpr);
            emit_element(&mut b, "w:rPrDefault", &x);
        }
        if self.ppr.is_some() {
            let mut x: Vec<u8> = Vec::new();
            write_opt_ppr(&mut x, &self.ppr);
            emit_element(&mut b, "w:pPrDefault", &x);
        }
        proof {
            assert(b@ =~= (match self.rpr {
                Some(r) => element("w:rPrDefault"@, opt_rpr_xml(Some(r))),
                None => Seq::empty(),
            }) + (match self.ppr {
                Some(p) => element("w:pPrDefault"@, opt_ppr_xml(Some(p))),
                None => Seq::empty(),
            }));
        }
        emit_element(out, "w:docDefaults", &b);
    }

    /// Read the document defaults from the events after `<w:docDefaults>`
    /// up to its end (or the end of input): the run properties of
    /// `rPrDefault` and the paragraph properties of `pPrDefault`; other
    /// elements skipped; as `defaults_read` says.
    pub fn from_xml(reader: &mut XmlReader) -> (r: Result<Self, OxmlError>)
        ensures
            final(reader).same_input(old(reader)),
            exists|f: nat|
                #[trigger] defaults_read(old(reader).input(), old(reader).trims(), old(reader).count(),
                    (r, final(reader).count(), f)),
    {
        let ghost x = reader.input();
        let ghost tr = reader.trims();
        let ghost n0 = reader.count();
        let mut d = CT_DocDefaults { rpr: None, ppr: None };
        let budget = event_budget(unread_len(reader));
        let mut fuel = budget;
        while fuel > 0
            invariant
                fuel <= budget,
                budget as nat == budget_for(xml_unread(x, tr, n0)),
                reader.input() == x,
                reader.trims() == tr,
                x == old(reader).input(),
                tr == old(reader).trims(),
                n0 == old(reader).count(),
                forall|res: ReadOutcome<CT_DocDefaults>|
                    #[trigger] flat_cap_run(x, tr, reader.count(), ends_at("docDefaults"@), never_fails(), unchanged(), defaults_start(x, tr), d, fuel as nat, res)
                        ==> flat_cap_run(x, tr, n0, ends_at("docDefaults"@), never_fails(), unchanged(), defaults_start(x, tr), CT_DocDefaults { rpr: None, ppr: None }, budget as nat, res),
            decreases fuel,
        {
            let ghost n = reader.count();
            let ghost o = d;
            let ghost f1 = fuel as nat;
            fuel = fuel - 1;
            match read_event(reader) {
                Ok(ReadEvent::Empty(t)) => {
                    if let Err(e) = pass_empty(&mut d, &t) {
                        proof {
                            let res = (Err::<CT_DocDefaults, OxmlError>(e), reader.count(), fuel as nat);
                            assert(flat_cap_run(x, tr, n, ends_at("docDefaults"@), never_fails(), unchanged(), defaults_start(x, tr), o, f1, res));
                            assert(flat_cap_run(x, tr, n0, ends_at("docDefaults"@), never_fails(), unchanged(), defaults_start(x, tr), CT_DocDefaults { rpr: None, ppr: None }, budget as nat, res));
                            assert(defaults_read(x, tr, n0, res));
                        }
                        return Err(e);
                    }
                    proof {
                        assert(unchanged()(o, d, t));
                        assert forall|res: ReadOutcome<CT_DocDefaults>|
                            #[trigger] flat_cap_run(x, tr, reader.count(), ends_at("docDefaults"@), never_fails(), unchanged(), defaults_start(x, tr), d, fuel as nat, res)
                            implies flat_cap_run(x, tr, n, ends_at("docDefaults"@), never_fails(), unchanged(), defaults_start(x, tr), o, f1, res) by {
                            lemma_flat_cap_empty(x, tr, n, ends_at("docDefaults"@), never_fails(), unchanged(), defaults_start(x, tr), o, d, f1, t, res);
                        }
                    }
                },
                Ok(ReadEvent::Start(t)) => {
                    let nm = t.name.as_str();
                    if name_is(nm, "rPrDefault") {
                        match Self::parse_pr_default(reader, "rPrDefault") {
                            Ok(v) => {
                                d.rpr = v;
                        proof {
                            let q = reader.count();
                            assert(defaults_start(x, tr)(o, t, n + 1, Ok::<CT_DocDefaults, OxmlError>(d), q));
                            assert forall|res: ReadOutcome<CT_DocDefaults>|
                                #[trigger] flat_cap_run(x, tr, reader.count(), ends_at("docDefaults"@), never_fails(), unchanged(), defaults_start(x, tr), d, fuel as nat, res)
                                implies flat_cap_run(x, tr, n, ends_at("docDefaults"@), never_fails(), unchanged(), defaults_start(x, tr), o, f1, res) by {
                                lemma_flat_cap_start(x, tr, n, ends_at("docDefaults"@), never_fails(), unchanged(), defaults_start(x, tr), o, f1, t, Ok::<CT_DocDefaults, OxmlError>(d), q, res);
                            }
                        }
                            },
                            Err(e) => {
                            proof {
                                let q = reader.count();
                                let res = (Err::<CT_DocDefaults, OxmlError>(e), q, fuel as nat);
                                assert(defaults_start(x, tr)(o, t, n + 1, Err::<CT_DocDefaults, OxmlError>(e), q));
                                lemma_flat_cap_start(x, tr, n, ends_at("docDefaults"@), never_fails(), unchanged(), defaults_start(x, tr), o, f1, t, Err::<CT_DocDefaults, OxmlError>(e), q, res);
                            assert(flat_cap_run(x, tr, n0, ends_at("docDefaults"@), never_fails(), unchanged(), defaults_start(x, tr), CT_DocDefaults { rpr: None, ppr: None }, budget as nat, res));
                            assert(defaults_read(x, tr, n0, res));
                            }
                            return Err(e);
                            },
                        }
                    } else if name_is(nm, "pPrDefault") {
                        match Self::parse_ppr_default(reader) {
                            Ok(v) => {
                                d.ppr = v;
                        proof {
                            let q = reader.count();
                            assert(defaults_start(x, tr)(o, t, n + 1, Ok::<CT_DocDefaults, OxmlError>(d), q));
                            assert forall|res: ReadOutcome<CT_DocDefaults>|
                                #[trigger] flat_cap_run(x, tr, reader.count(), ends_at("docDefaults"@), never_fails(), unchanged(), defaults_start(x, tr), d, fuel as nat, res)
                                implies flat_cap_run(x, tr, n, ends_at("docDefaults"@), never_fails(), unchanged(), defaults_start(x, tr), o, f1, res) by {
                                lemma_flat_cap_start(x, tr, n, ends_at("docDefaults"@), never_fails(), unchanged(), defaults_start(x, tr), o, f1, t, Ok::<CT_DocDefaults, OxmlError>(d), q, res);
                            }
                        }
                            },
                            Err(e) => {
                            proof {
                                let q = reader.count();
                                let res = (Err::<CT_DocDefaults, OxmlError>(e), q, fuel as nat);
                                assert(defaults_start(x, tr)(o, t, n + 1, Err::<CT_DocDefaults, OxmlError>(e), q));
                                lemma_flat_cap_start(x, tr, n, ends_at("docDefaults"@), never_fails(), unchanged(), defaults_start(x, tr), o, f1, t, Err::<CT_DocDefaults, OxmlError>(e), q, res);
                            assert(flat_cap_run(x, tr, n0, ends_at("docDefaults"@), never_fails(), unchanged(), defaults_start(x, tr), CT_DocDefaults { rpr: None, ppr: None }, budget as nat, res));
                            assert(defaults_read(x, tr, n0, res));
                            }
                            return Err(e);
                            },
                        }
                    } else {
                        match skip_to_end(reader, nm) {
                            Ok(_) => {
                        proof {
                            let q = reader.count();
                            assert(defaults_start(x, tr)(o, t, n + 1, Ok::<CT_DocDefaults, OxmlError>(d), q));
                            assert forall|res: ReadOutcome<CT_DocDefaults>|
                                #[trigger] flat_cap_run(x, tr, reader.count(), ends_at("docDefaults"@), never_fails(), unchanged(), defaults_start(x, tr), d, fuel as nat, res)
                                implies flat_cap_run(x, tr, n, ends_at("docDefaults"@), never_fails(), unchanged(), defaults_start(x, tr), o, f1, res) by {
                                lemma_flat_cap_start(x, tr, n, ends_at("docDefaults"@), never_fails(), unchanged(), defaults_start(x, tr), o, f1, t, Ok::<CT_DocDefaults, OxmlError>(d), q, res);
                            }
                        }
                            },
                            Err(e) => {
                            proof {
                                let q = reader.count();
                                let res = (Err::<CT_DocDefaults, OxmlError>(e), q, fuel as nat);
                                assert(defaults_start(x, tr)(o, t, n + 1, Err::<CT_DocDefaults, OxmlError>(e), q));
                                lemma_flat_cap_start(x, tr, n, ends_at("docDefaults"@), never_fails(), unchanged(), defaults_start(x, tr), o, f1, t, Err::<CT_DocDefaults, OxmlError>(e), q, res);
                            assert(flat_cap_run(x, tr, n0, ends_at("docDefaults"@), never_fails(), unchanged(), defaults_start(x, tr), CT_DocDefaults { rpr: None, ppr: None }, budget as nat, res));
                            assert(defaults_read(x, tr, n0, res));
                            }
                            return Err(e);
                            },
                        }
                    }
                },
                Ok(ReadEvent::End(nm)) => {
                    if name_is(nm.as_str(), "docDefaults") {
                        proof {
                            assert(flat_cap_run(x, tr, n, ends_at("docDefaults"@), never_fails(), unchanged(), defaults_start(x, tr), o, f1, (Ok::<CT_DocDefaults, OxmlError>(d), reader.count(), fuel as nat)));
                            assert(flat_cap_run(x, tr, n0, ends_at("docDefaults"@), never_fails(), unchanged(), defaults_start(x, tr), CT_DocDefaults { rpr: None, ppr: None }, budget as nat, (Ok::<CT_DocDefaults, OxmlError>(d), reader.count(), fuel as nat)));
                            assert(defaults_read(x, tr, n0, (Ok::<CT_DocDefaults, OxmlError>(d), reader.count(), fuel as nat)));
                        }
                        return Ok(d);
                    }
                    proof {
                        assert forall|res: ReadOutcome<CT_DocDefaults>|
                            #[trigger] flat_cap_run(x, tr, reader.count(), ends_at("docDefaults"@), never_fails(), unchanged(), defaults_start(x, tr), d, fuel as nat, res)
                            implies flat_cap_run(x, tr, n, ends_at("docDefaults"@), never_fails(), unchanged(), defaults_start(x, tr), o, f1, res) by {}
                    }
                },
                Ok(ReadEvent::Eof) => {
                    proof {
                        assert(flat_cap_run(x, tr, n, ends_at("docDefaults"@), never_fails(), unchanged(), defaults_start(x, tr), o, f1, (Ok::<CT_DocDefaults, OxmlError>(d), reader.count(), fuel as nat)));
                            assert(flat_cap_run(x, tr, n0, ends_at("docDefaults"@), never_fails(), unchanged(), defaults_start(x, tr), CT_DocDefaults { rpr: None, ppr: None }, budget as nat, (Ok::<CT_DocDefaults, OxmlError>(d), reader.count(), fuel as nat)));
                            assert(defaults_read(x, tr, n0, (Ok::<CT_DocDefaults, OxmlError>(d), reader.count(), fuel as nat)));
                    }
                    return Ok(d);
                },
                Ok(_) => {
                    proof {
                        assert forall|res: ReadOutcome<CT_DocDefaults>|
                            #[trigger] flat_cap_run(x, tr, reader.count(), ends_at("docDefaults"@), never_fails(), unchanged(), defaults_start(x, tr), d, fuel as nat, res)
                            implies flat_cap_run(x, tr, n, ends_at("docDefaults"@), never_fails(), unchanged(), defaults_start(x, tr), o, f1, res) by {}
                    }
                },
                Err(e) => {
                    proof {
                        let res = (Err::<CT_DocDefaults, OxmlError>(e), reader.count(), fuel as nat);
                        assert(flat_cap_run(x, tr, n, ends_at("docDefaults"@), never_fails(), unchanged(), defaults_start(x, tr), o, f1, res));
                            assert(flat_cap_run(x, tr, n0, ends_at("docDefaults"@), never_fails(), unchanged(), defaults_start(x, tr), CT_DocDefaults { rpr: None, ppr: None }, budget as nat, res));
                            assert(defaults_read(x, tr, n0, res));
                    }
                    return Err(e);
                },
            }
        }
        proof {
            assert(flat_cap_run(x, tr, reader.count(), ends_at("docDefaults"@), never_fails(), unchanged(), defaults_start(x, tr), d, 0nat, (Ok::<CT_DocDefaults, OxmlError>(d), reader.count(), 0nat)));
                            assert(flat_cap_run(x, tr, n0, ends_at("docDefaults"@), never_fails(), unchanged(), defaults_start(x, tr), CT_DocDefaults { rpr: None, ppr: None }, budget as nat, (Ok::<CT_DocDefaults, OxmlError>(d), reader.count(), 0nat)));
                            assert(defaults_read(x, tr, n0, (Ok::<CT_DocDefaults, OxmlError>(d), reader.count(), 0nat)));
        }
        Ok(d)

    }

    /// Read the run properties inside `rPrDefault` (ending at `end_tag`).
    fn parse_pr_default(reader: &mut XmlReader, end_tag: &str) -> (r: Result<Option<CT_RPr>, OxmlError>)
        ensures
            final(reader).same_input(old(reader)),
            exists|f: nat|
                #[trigger] rpr_default_read(old(reader).input(), old(reader).trims(), old(reader).count(), end_tag@,
                    (r, final(reader).count(), f)),
    {
        let ghost x = reader.input();
        let ghost tr = reader.trims();
        let ghost n0 = reader.count();
        let mut rpr: Option<CT_RPr> = None;
        let budget = event_budget(unread_len(reader));
        let mut fuel = budget;
        while fuel > 0
            invariant
                fuel <= budget,
                budget as nat == budget_for(xml_unread(x, tr, n0)),
                reader.input() == x,
                reader.trims() == tr,
                x == old(reader).input(),
                tr == old(reader).trims(),
                n0 == old(reader).count(),
                forall|res: ReadOutcome<Option<CT_RPr>>|
                    #[trigger] flat_cap_run(x, tr, reader.count(), ends_at(end_tag@), never_fails(), unchanged(), rpr_default_start(x, tr), rpr, fuel as nat, res)
                        ==> flat_cap_run(x, tr, n0, ends_at(end_tag@), never_fails(), unchanged(), rpr_default_start(x, tr), None, budget as nat, res),
            decreases fuel,
        {
            let ghost n = reader.count();
            let ghost o = rpr;
            let ghost f1 = fuel as nat;
            fuel = fuel - 1;
            match read_event(reader) {
                Ok(ReadEvent::Empty(t)) => {
                    if let Err(e) = pass_empty(&mut rpr, &t) {
                        proof {
                            let res = (Err::<Option<CT_RPr>, OxmlError>(e), reader.count(), fuel as nat);
                            assert(flat_cap_run(x, tr, n, ends_at(end_tag@), never_fails(), unchanged(), rpr_default_start(x, tr), o, f1, res));
                            assert(flat_cap_run(x, tr, n0, ends_at(end_tag@), never_fails(), unchanged(), rpr_default_start(x, tr), None, budget as nat, res));
                            assert(rpr_default_read(x, tr, n0, end_tag@, res));
                        }
                        return Err(e);
                    }
                    proof {
                        assert(unchanged()(o, rpr, t));
                        assert forall|res: ReadOutcome<Option<CT_RPr>>|
                            #[trigger] flat_cap_run(x, tr, reader.count(), ends_at(end_tag@), never_fails(), unchanged(), rpr_default_start(x, tr), rpr, fuel as nat, res)
                            implies flat_cap_run(x, tr, n, ends_at(end_tag@), never_fails(), unchanged(), rpr_default_start(x, tr), o, f1, res) by {
                            lemma_flat_cap_empty(x, tr, n, ends_at(end_tag@), never_fails(), unchanged(), rpr_default_start(x, tr), o, rpr, f1, t, res);
                        }
                    }
                },
                Ok(ReadEvent::Start(t)) => {
                    let nm = t.name.as_str();
                    if name_is(nm, "rPr") {
                        match CT_RPr::from_xml(reader) {
                            Ok(b) => {
                                rpr = Some(b);
                        proof {
                            let q = reader.count();
                            assert(rpr_default_start(x, tr)(o, t, n + 1, Ok::<Option<CT_RPr>, OxmlError>(rpr), q));
                            assert forall|res: ReadOutcome<Option<CT_RPr>>|
                                #[trigger] flat_cap_run(x, tr, reader.count(), ends_at(end_tag@), never_fails(), unchanged(), rpr_default_start(x, tr), rpr, fuel as nat, res)
                                implies flat_cap_run(x, tr, n, ends_at(end_tag@), never_fails(), unchanged(), rpr_default_start(x, tr), o, f1, res) by {
                                lemma_flat_cap_start(x, tr, n, ends_at(end_tag@), never_fails(), unchanged(), rpr_default_start(x, tr), o, f1, t, Ok::<Option<CT_RPr>, OxmlError>(rpr), q, res);
                            }
                        }
                            },
                            Err(e) => {
                            proof {
                                let q = reader.count();
                                let res = (Err::<Option<CT_RPr>, OxmlError>(e), q, fuel as nat);
                                assert(rpr_default_start(x, tr)(o, t, n + 1, Err::<Option<CT_RPr>, OxmlError>(e), q));
                                lemma_flat_cap_start(x, tr, n, ends_at(end_tag@), never_fails(), unchanged(), rpr_default_start(x, tr), o, f1, t, Err::<Option<CT_RPr>, OxmlError>(e), q, res);
                            assert(flat_cap_run(x, tr, n0, ends_at(end_tag@), never_fails(), unchanged(), rpr_default_start(x, tr), None, budget as nat, res));
                            assert(rpr_default_read(x, tr, n0, end_tag@, res));
                            }
                            return Err(e);
                            },
                        }
                    } else {
                        match skip_to_end(reader, nm) {
                            Ok(_) => {
                        proof {
                            let q = reader.count();
                            assert(rpr_default_start(x, tr)(o, t, n + 1, Ok::<Option<CT_RPr>, OxmlError>(rpr), q));
                            assert forall|res: ReadOutcome<Option<CT_RPr>>|
                                #[trigger] flat_cap_run(x, tr, reader.count(), ends_at(end_tag@), never_fails(), unchanged(), rpr_default_start(x, tr), rpr, fuel as nat, res)
                                implies flat_cap_run(x, tr, n, ends_at(end_tag@), never_fails(), unchanged(), rpr_default_start(x, tr), o, f1, res) by {
                                lemma_flat_cap_start(x, tr, n, ends_at(end_tag@), never_fails(), unchanged(), rpr_default_start(x, tr), o, f1, t, Ok::<Option<CT_RPr>, OxmlError>(rpr), q, res);
                            }
                        }
                            },
                            Err(e) => {
                            proof {
                                let q = reader.count();
                                let res = (Err::<Option<CT_RPr>, OxmlError>(e), q, fuel as nat);
                                assert(rpr_default_start(x, tr)(o, t, n + 1, Err::<Option<CT_RPr>, OxmlError>(e), q));
                                lemma_flat_cap_start(x, tr, n, ends_at(end_tag@), never_fails(), unchanged(), rpr_default_start(x, tr), o, f1, t, Err::<Option<CT_RPr>, OxmlError>(e), q, res);
                            assert(flat_cap_run(x, tr, n0, ends_at(end_tag@), never_fails(), unchanged(), rpr_default_start(x, tr), None, budget as nat, res));
                            assert(rpr_default_read(x, tr, n0, end_tag@, res));
                            }
                            return Err(e);
                            },
                        }
                    }
                },
                Ok(ReadEvent::End(nm)) => {
                    if name_is(nm.as_str(), end_tag) {
                        proof {
                            assert(flat_cap_run(x, tr, n, ends_at(end_tag@), never_fails(), unchanged(), rpr_default_start(x, tr), o, f1, (Ok::<Option<CT_RPr>, OxmlError>(rpr), reader.count(), fuel as nat)));
                            assert(flat_cap_run(x, tr, n0, ends_at(end_tag@), never_fails(), unchanged(), rpr_default_start(x, tr), None, budget as nat, (Ok::<Option<CT_RPr>, OxmlError>(rpr), reader.count(), fuel as nat)));
                            assert(rpr_default_read(x, tr, n0, end_tag@, (Ok::<Option<CT_RPr>, OxmlError>(rpr), reader.count(), fuel as nat)));
                        }
                        return Ok(rpr);
                    }
                    proof {
                        assert forall|res: ReadOutcome<Option<CT_RPr>>|
                            #[trigger] flat_cap_run(x, tr, reader.count(), ends_at(end_tag@), never_fails(), unchanged(), rpr_default_start(x, tr), rpr, fuel as nat, res)
                            implies flat_cap_run(x, tr, n, ends_at(end_tag@), never_fails(), unchanged(), rpr_default_start(x, tr), o, f1, res) by {}
                    }
                },
                Ok(ReadEvent::Eof) => {
                    proof {
                        assert(flat_cap_run(x, tr, n, ends_at(end_tag@), never_fails(), unchanged(), rpr_default_start(x, tr), o, f1, (Ok::<Option<CT_RPr>, OxmlError>(rpr), reader.count(), fuel as nat)));
                            assert(flat_cap_run(x, tr, n0, ends_at(end_tag@), never_fails(), unchanged(), rpr_default_start(x, tr), None, budget as nat, (Ok::<Option<CT_RPr>, OxmlError>(rpr), reader.count(), fuel as nat)));
                            assert(rpr_default_read(x, tr, n0, end_tag@, (Ok::<Option<CT_RPr>, OxmlError>(rpr), reader.count(), fuel as nat)));
                    }
                    return Ok(rpr);
                },
                Ok(_) => {
                    proof {
                        assert forall|res: ReadOutcome<Option<CT_RPr>>|
                            #[trigger] flat_cap_run(x, tr, reader.count(), ends_at(end_tag@), never_fails(), unchanged(), rpr_default_start(x, tr), rpr, fuel as nat, res)
                            implies flat_cap_run(x, tr, n, ends_at(end_tag@), never_fails(), unchanged(), rpr_default_start(x, tr), o, f1, res) by {}
                    }
                },
                Err(e) => {
                    proof {
                        let res = (Err::<Option<CT_RPr>, OxmlError>(e), reader.count(), fuel as nat);
                        assert(flat_cap_run(x, tr, n, ends_at(end_tag@), never_fails(), unchanged(), rpr_default_start(x, tr), o, f1, res));
                            assert(flat_cap_run(x, tr, n0, ends_at(end_tag@), never_fails(), unchanged(), rpr_default_start(x, tr), None, budget as nat, res));
                            assert(rpr_default_read(x, tr, n0, end_tag@, res));
                    }
                    return Err(e);
                },
            }
        }
        proof {
            assert(flat_cap_run(x, tr, reader.count(), ends_at(end_tag@), never_fails(), unchanged(), rpr_default_start(x, tr), rpr, 0nat, (Ok::<Option<CT_RPr>, OxmlError>(rpr), reader.count(), 0nat)));
                            assert(flat_cap_run(x, tr, n0, ends_at(end_tag@), never_fails(), unchanged(), rpr_default_start(x, tr), None, budget as nat, (Ok::<Option<CT_RPr>, OxmlError>(rpr), reader.count(), 0nat)));
                            assert(rpr_default_read(x, tr, n0, end_tag@, (Ok::<Option<CT_RPr>, OxmlError>(rpr), reader.count(), 0nat)));
        }
        Ok(rpr)

    }

    /// Read the paragraph properties inside `pPrDefault`.
    fn parse_ppr_default(reader: &mut XmlReader) -> (r: Result<Option<CT_PPr>, OxmlError>)
        ensures
            final(reader).same_input(old(reader)),
            exists|f: nat|
                #[trigger] ppr_default_read(old(reader).input(), old(reader).trims(), old(reader).count(),
                    (r, final(reader).count(), f)),
    {
        let ghost x = reader.input();
        let ghost tr = reader.trims();
        let ghost n0 = reader.count();
        let mut ppr: Option<CT_PPr> = None;
        let budget = event_budget(unread_len(reader));
        let mut fuel = budget;
        while fuel > 0
            invariant
                fuel <= budget,
                budget as nat == budget_for(xml_unread(x, tr, n0)),
                reader.input() == x,
                reader.trims() == tr,
                x == old(reader).input(),
                tr == old(reader).trims(),
                n0 == old(reader).count(),
                forall|res: ReadOutcome<Option<CT_PPr>>|
                    #[trigger] flat_cap_run(x, tr, reader.count(), ends_at("pPrDefault"@), never_fails(), unchanged(), ppr_default_start(x, tr), ppr, fuel as nat, res)
                        ==> flat_cap_run(x, tr, n0, ends_at("pPrDefault"@), never_fails(), unchanged(), ppr_default_start(x, tr), None, budget as nat, res),
            decreases fuel,
        {
            let ghost n = reader.count();
            let ghost o = ppr;
            let ghost f1 = fuel as nat;
            fuel = fuel - 1;
            match read_event(reader) {
                Ok(ReadEvent::Empty(t)) => {
                    if let Err(e) = pass_empty(&mut ppr, &t) {
                        proof {
                            let res = (Err::<Option<CT_PPr>, OxmlError>(e), reader.count(), fuel as nat);
                            assert(flat_cap_run(x, tr, n, ends_at("pPrDefault"@), never_fails(), unchanged(), ppr_default_start(x, tr), o, f1, res));
                            assert(flat_cap_run(x, tr, n0, ends_at("pPrDefault"@), never_fails(), unchanged(), ppr_default_start(x, tr), None, budget as nat, res));
                            assert(ppr_default_read(x, tr, n0, res));
                        }
                        return Err(e);
                    }
                    proof {
                        assert(unchanged()(o, ppr, t));
                        assert forall|res: ReadOutcome<Option<CT_PPr>>|
                            #[trigger] flat_cap_run(x, tr, reader.count(), ends_at("pPrDefault"@), never_fails(), unchanged(), ppr_default_start(x, tr), ppr, fuel as nat, res)
                            implies flat_cap_run(x, tr, n, ends_at("pPrDefault"@), never_fails(), unchanged(), ppr_default_start(x, tr), o, f1, res) by {
                            lemma_flat_cap_empty(x, tr, n, ends_at("pPrDefault"@), never_fails(), unchanged(), ppr_default_start(x, tr), o, ppr, f1, t, res);
                        }
                    }
                },
                Ok(ReadEvent::Start(t)) => {
                    let nm = t.name.as_str();
                    if name_is(nm, "pPr") {
                        match CT_PPr::from_xml(reader) {
                            Ok(b) => {
                                ppr = Some(b);
                        proof {
                            let q = reader.count();
                            assert(ppr_default_start(x, tr)(o, t, n + 1, Ok::<Option<CT_PPr>, OxmlError>(ppr), q));
                            assert forall|res: ReadOutcome<Option<CT_PPr>>|
                                #[trigger] flat_cap_run(x, tr, reader.count(), ends_at("pPrDefault"@), never_fails(), unchanged(), ppr_default_start(x, tr), ppr, fuel as nat, res)
                                implies flat_cap_run(x, tr, n, ends_at("pPrDefault"@), never_fails(), unchanged(), ppr_default_start(x, tr), o, f1, res) by {
                                lemma_flat_cap_start(x, tr, n, ends_at("pPrDefault"@), never_fails(), unchanged(), ppr_default_start(x, tr), o, f1, t, Ok::<Option<CT_PPr>, OxmlError>(ppr), q, res);
                            }
                        }
                            },
                            Err(e) => {
                            proof {
                                let q = reader.count();
                                let res = (Err::<Option<CT_PPr>, OxmlError>(e), q, fuel as nat);
                                assert(ppr_default_start(x, tr)(o, t, n + 1, Err::<Option<CT_PPr>, OxmlError>(e), q));
                                lemma_flat_cap_start(x, tr, n, ends_at("pPrDefault"@), never_fails(), unchanged(), ppr_default_start(x, tr), o, f1, t, Err::<Option<CT_PPr>, OxmlError>(e), q, res);
                            assert(flat_cap_run(x, tr, n0, ends_at("pPrDefault"@), never_fails(), unchanged(), ppr_default_start(x, tr), None, budget as nat, res));
                            assert(ppr_default_read(x, tr, n0, res));
                            }
                            return Err(e);
                            },
                        }
                    } else {
                        match skip_to_end(reader, nm) {
                            Ok(_) => {
                        proof {
                            let q = reader.count();
                            assert(ppr_default_start(x, tr)(o, t, n + 1, Ok::<Option<CT_PPr>, OxmlError>(ppr), q));
                            assert forall|res: ReadOutcome<Option<CT_PPr>>|
                                #[trigger] flat_cap_run(x, tr, reader.count(), ends_at("pPrDefault"@), never_fails(), unchanged(), ppr_default_start(x, tr), ppr, fuel as nat, res)
                                implies flat_cap_run(x, tr, n, ends_at("pPrDefault"@), never_fails(), unchanged(), ppr_default_start(x, tr), o, f1, res) by {
                                lemma_flat_cap_start(x, tr, n, ends_at("pPrDefault"@), never_fails(), unchanged(), ppr_default_start(x, tr), o, f1, t, Ok::<Option<CT_PPr>, OxmlError>(ppr), q, res);
                            }
                        }
                            },
                            Err(e) => {
                            proof {
                                let q = reader.count();
                                let res = (Err::<Option<CT_PPr>, OxmlError>(e), q, fuel as nat);
                                assert(ppr_default_start(x, tr)(o, t, n + 1, Err::<Option<CT_PPr>, OxmlError>(e), q));
                                lemma_flat_cap_start(x, tr, n, ends_at("pPrDefault"@), never_fails(), unchanged(), ppr_default_start(x, tr), o, f1, t, Err::<Option<CT_PPr>, OxmlError>(e), q, res);
                            assert(flat_cap_run(x, tr, n0, ends_at("pPrDefault"@), never_fails(), unchanged(), ppr_default_start(x, tr), None, budget as nat, res));
                            assert(ppr_default_read(x, tr, n0, res));
                            }
                            return Err(e);
                            },
                        }
                    }
                },
                Ok(ReadEvent::End(nm)) => {
                    if name_is(nm.as_str(), "pPrDefault") {
                        proof {
                            assert(flat_cap_run(x, tr, n, ends_at("pPrDefault"@), never_fails(), unchanged(), ppr_default_start(x, tr), o, f1, (Ok::<Option<CT_PPr>, OxmlError>(ppr), reader.count(), fuel as nat)));
                            assert(flat_cap_run(x, tr, n0, ends_at("pPrDefault"@), never_fails(), unchanged(), ppr_default_start(x, tr), None, budget as nat, (Ok::<Option<CT_PPr>, OxmlError>(ppr), reader.count(), fuel as nat)));
                            assert(ppr_default_read(x, tr, n0, (Ok::<Option<CT_PPr>, OxmlError>(ppr), reader.count(), fuel as nat)));
                        }
                        return Ok(ppr);
                    }
                    proof {
                        assert forall|res: ReadOutcome<Option<CT_PPr>>|
                            #[trigger] flat_cap_run(x, tr, reader.count(), ends_at("pPrDefault"@), never_fails(), unchanged(), ppr_default_start(x, tr), ppr, fuel as nat, res)
                            implies flat_cap_run(x, tr, n, ends_at("pPrDefault"@), never_fails(), unchanged(), ppr_default_start(x, tr), o, f1, res) by {}
                    }
                },
                Ok(ReadEvent::Eof) => {
                    proof {
                        assert(flat_cap_run(x, tr, n, ends_at("pPrDefault"@), never_fails(), unchanged(), ppr_default_start(x, tr), o, f1, (Ok::<Option<CT_PPr>, OxmlError>(ppr), reader.count(), fuel as nat)));
                            assert(flat_cap_run(x, tr, n0, ends_at("pPrDefault"@), never_fails(), unchanged(), ppr_default_start(x, tr), None, budget as nat, (Ok::<Option<CT_PPr>, OxmlError>(ppr), reader.count(), fuel as nat)));
                            assert(ppr_default_read(x, tr, n0, (Ok::<Option<CT_PPr>, OxmlError>(ppr), reader.count(), fuel as nat)));
                    }
                    return Ok(ppr);
                },
                Ok(_) => {
                    proof {
                        assert forall|res: ReadOutcome<Option<CT_PPr>>|
                            #[trigger] flat_cap_run(x, tr, reader.count(), ends_at("pPrDefault"@), never_fails(), unchanged(), ppr_default_start(x, tr), ppr, fuel as nat, res)
                            implies flat_cap_run(x, tr, n, ends_at("pPrDefault"@), never_fails(), unchanged(), ppr_default_start(x, tr), o, f1, res) by {}
                    }
                },
                Err(e) => {
                    proof {
                        let res = (Err::<Option<CT_PPr>, OxmlError>(e), reader.count(), fuel as nat);
                        assert(flat_cap_run(x, tr, n, ends_at("pPrDefault"@), never_fails(), unchanged(), ppr_default_start(x, tr), o, f1, res));
                            assert(flat_cap_run(x, tr, n0, ends_at("pPrDefault"@), never_fails(), unchanged(), ppr_default_start(x, tr), None, budget as nat, res));
                            assert(ppr_default_read(x, tr, n0, res));
                    }
                    return Err(e);
                },
            }
        }
        proof {
            assert(flat_cap_run(x, tr, reader.count(), ends_at("pPrDefault"@), never_fails(), unchanged(), ppr_default_start(x, tr), ppr, 0nat, (Ok::<Option<CT_PPr>, OxmlError>(ppr), reader.count(), 0nat)));
                            assert(flat_cap_run(x, tr, n0, ends_at("pPrDefault"@), never_fails(), unchanged(), ppr_default_start(x, tr), None, budget as nat, (Ok::<Option<CT_PPr>, OxmlError>(ppr), reader.count(), 0nat)));
                            assert(ppr_default_read(x, tr, n0, (Ok::<Option<CT_PPr>, OxmlError>(ppr), reader.count(), 0nat)));
        }
        Ok(ppr)

    }
}

/// Reading never fails on an empty tag.
pub open spec fn never_fails<S>() -> spec_fn(S, Tag) -> bool {
    |o: S, t: Tag| false
}

/// An empty tag changes nothing.
pub open spec fn unchanged<S>() -> spec_fn(S, S, Tag) -> bool {
    |o: S, m: S, t: Tag| m == o
}

/// An empty tag changes nothing.
fn pass_empty<S>(v: &mut S, t: &Tag) -> (r: Result<(), OxmlError>)
    ensures
        r is Ok,
        *final(v) == *old(v),
{
    Ok(())
}

/// What a child element of `rPrDefault` does, read from call `p` on: run
/// properties are read by their reader and replace any before; any other
/// element is skipped as quick-xml's `read_to_end` does.
pub open spec fn rpr_default_start(x: Seq<u8>, tr: bool) -> spec_fn(Option<CT_RPr>, Tag, nat, Result<Option<CT_RPr>, OxmlError>, nat) -> bool {
    |o: Option<CT_RPr>, t: Tag, p: nat, m: Result<Option<CT_RPr>, OxmlError>, q: nat|
        if local_is(t.name@, "rPr"@) {
            exists|rb: Result<CT_RPr, OxmlError>, f: nat|
                #[trigger] rpr_run(x, tr, p, rpr_none(), budget_for(xml_unread(x, tr, p)), (rb, q, f)) && match rb {
                    Ok(b) => m == Ok::<Option<CT_RPr>, OxmlError>(Some(b)),
                    Err(e) => m == Err::<Option<CT_RPr>, OxmlError>(e),
                }
        } else {
            match xml_skip_to(x, tr, p, t.name@) {
                Some(q2) => q == q2 && m == Ok::<Option<CT_RPr>, OxmlError>(o),
                None => m is Err,
            }
        }
}

/// Reading the inside of an element holding default run properties, up to
/// its end tag `end`, from call `n` on with the budget for what is left
/// unread, ends in `res`.
pub open spec fn rpr_default_read(x: Seq<u8>, tr: bool, n: nat, end: Seq<char>, res: ReadOutcome<Option<CT_RPr>>) -> bool {
    flat_cap_run(x, tr, n, ends_at(end), never_fails(), unchanged(), rpr_default_start(x, tr), None, budget_for(xml_unread(x, tr, n)), res)
}

/// What a child element of `pPrDefault` does, read from call `p` on:
/// paragraph properties are read by their reader and replace any before;
/// any other element is skipped.
pub open spec fn ppr_default_start(x: Seq<u8>, tr: bool) -> spec_fn(Option<CT_PPr>, Tag, nat, Result<Option<CT_PPr>, OxmlError>, nat) -> bool {
    |o: Option<CT_PPr>, t: Tag, p: nat, m: Result<Option<CT_PPr>, OxmlError>, q: nat|
        if local_is(t.name@, "pPr"@) {
            exists|rb: Result<CT_PPr, OxmlError>, f: nat|
                #[trigger] ppr_run(x, tr, p, ppr_none(), budget_for(xml_unread(x, tr, p)), (rb, q, f)) && match rb {
                    Ok(b) => m == Ok::<Option<CT_PPr>, OxmlError>(Some(b)),
                    Err(e) => m == Err::<Option<CT_PPr>, OxmlError>(e),
                }
        } else {
            match xml_skip_to(x, tr, p, t.name@) {
                Some(q2) => q == q2 && m == Ok::<Option<CT_PPr>, OxmlError>(o),
                None => m is Err,
            }
        }
}

/// Reading the inside of `pPrDefault` from call `n` on, with the budget for
/// what is left unread, ends in `res`.
pub open spec fn ppr_default_read(x: Seq<u8>, tr: bool, n: nat, res: ReadOutcome<Option<CT_PPr>>) -> bool {
    flat_cap_run(x, tr, n, ends_at("pPrDefault"@), never_fails(), unchanged(), ppr_default_start(x, tr), None, budget_for(xml_unread(x, tr, n)), res)
}

/// What a child element of `docDefaults` does, read from call `p` on: the
/// default run or paragraph properties are read (`rpr_default_read`,
/// `ppr_default_read`) and replace those before; any other element is
/// skipped.
pub open spec fn defaults_start(x: Seq<u8>, tr: bool) -> spec_fn(CT_DocDefaults, Tag, nat, Result<CT_DocDefaults, OxmlError>, nat) -> bool {
    |o: CT_DocDefaults, t: Tag, p: nat, m: Result<CT_DocDefaults, OxmlError>, q: nat|
        if local_is(t.name@, "rPrDefault"@) {
            exists|h: ReadOutcome<Option<CT_RPr>>|
                #[trigger] rpr_default_read(x, tr, p, "rPrDefault"@, h) && q == h.1 && match h.0 {
                    Ok(v) => m == Ok::<CT_DocDefaults, OxmlError>(CT_DocDefaults { rpr: v, ..o }),
                    Err(e) => m == Err::<CT_DocDefaults, OxmlError>(e),
                }
        } else if local_is(t.name@, "pPrDefault"@) {
            exists|h: ReadOutcome<Option<CT_PPr>>|
                #[trigger] ppr_default_read(x, tr, p, h) && q == h.1 && match h.0 {
                    Ok(v) => m == Ok::<CT_DocDefaults, OxmlError>(CT_DocDefaults { ppr: v, ..o }),
                    Err(e) => m == Err::<CT_DocDefaults, OxmlError>(e),
                }
        } else {
            match xml_skip_to(x, tr, p, t.name@) {
                Some(q2) => q == q2 && m == Ok::<CT_DocDefaults, OxmlError>(o),
                None => m is Err,
            }
        }
}

/// Reading the document defaults from call `n` on, from none, with the
/// budget for what is left unread, ends in `res`.
pub open spec fn defaults_read(x: Seq<u8>, tr: bool, n: nat, res: ReadOutcome<CT_DocDefaults>) -> bool {
    flat_cap_run(x, tr, n, ends_at("docDefaults"@), never_fails(), unchanged(), defaults_start(x, tr),
        CT_DocDefaults { rpr: None, ppr: None }, budget_for(xml_unread(x, tr, n)), res)
}

/// What the attributes of a style's start tag give, read in order (a later
/// one of the same local name wins): the id (`styleId`, empty if none), the
/// type (`type`, paragraph if none; an unknown type is an error) and the
/// default mark (`default` of `1` or `true`).
pub open spec fn style_head(a: Seq<(Seq<char>, Seq<char>)>) -> Option<(Seq<char>, StyleType, bool)>
    decreases a.len(),
{
    if a.len() == 0 {
        Some((Seq::empty(), StyleType::Paragraph, false))
    } else {
        match style_head(a.drop_last()) {
            None => None,
            Some((id, ty, d)) => {
                let (k, v) = a.last();
                if local_part(k) == "styleId"@ {
                    Some((v, ty, d))
                } else if local_part(k) == "type"@ {
                    match style_type_parse(v) {
                        Some(t) => Some((id, t, d)),
                        None => None,
                    }
                } else if local_part(k) == "default"@ {
                    Some((id, ty, v == "1"@ || v == "true"@))
                } else {
                    Some((id, ty, d))
                }
            },
        }
    }
}

/// Read the id, type and default mark of a style from its start tag.
pub fn read_style_head(t: &Tag) -> (r: Result<(String, StyleType, bool), OxmlError>)
    ensures
        match r {
            Ok((id, ty, d)) => style_head(attr_views(t.attrs@)) == Some((id@, ty, d)),
            Err(_) => style_head(attr_views(t.attrs@)) is None,
        },
{
    let mut id = String::new();
    let mut ty = StyleType::Paragraph;
    let mut d = false;
    let mut i: usize = 0;
    proof { assert(attr_views(t.attrs@).take(0) =~= Seq::<(Seq<char>, Seq<char>)>::empty()); }
    while i < t.attrs.len()
        invariant
            i <= t.attrs@.len(),
            style_head(attr_views(t.attrs@).take(i as int)) == Some((id@, ty, d)),
        decreases t.attrs@.len() - i,
    {
        let (k, v) = &t.attrs[i];
        let l = crate::xml_read::local_name(k.as_str());
        proof {
            let s = attr_views(t.attrs@).take(i + 1);
            assert(s.drop_last() =~= attr_views(t.attrs@).take(i as int));
            assert(s.last() == (k@, v@));
        }
        if str_eq(l.as_str(), "styleId") {
            id = v.clone();
        } else if str_eq(l.as_str(), "type") {
            match StyleType::from_str(v.as_str()) {
                Ok(x) => {
                    ty = x;
                },
                Err(e) => {
                    proof {
                        let s = attr_views(t.attrs@).take(i + 1);
                        let full = attr_views(t.attrs@);
                        lemma_style_head_none(full, i as int + 1);
                    }
                    return Err(e);
                },
            }
        } else if str_eq(l.as_str(), "default") {
            d = str_eq(v.as_str(), "1") || str_eq(v.as_str(), "true");
        }
        i = i + 1;
    }
    proof { assert(attr_views(t.attrs@).take(i as int) =~= attr_views(t.attrs@)); }
    Ok((id, ty, d))
}

/// Once the head cannot be read, no longer list of attributes can.
proof fn lemma_style_head_none(a: Seq<(Seq<char>, Seq<char>)>, k: int)
    requires
        0 <= k <= a.len(),
        style_head(a.take(k)) is None,
    ensures
        style_head(a) is None,
    decreases a.len() - k,
{
    if k < a.len() {
        assert(a.take(k + 1).drop_last() =~= a.take(k));
        lemma_style_head_none(a, k + 1);
    } else {
        assert(a.take(k) =~= a);
    }
}

/// A style read from its start tag, with nothing read inside yet.
pub open spec fn style_blank(o: CT_Style, id: Seq<char>, ty: StyleType, d: bool) -> bool {
    &&& o.style_id@ == id && o.style_type == ty && o.is_default == d
    &&& o.name is None && o.based_on is None && o.next_style is None
    &&& o.ppr is None && o.rpr is None && o.extra_xml is None
}

/// Reading a style never fails on an empty element.
pub open spec fn style_fails() -> spec_fn(CT_Style, Tag) -> bool {
    |o: CT_Style, t: Tag| false
}

/// What an empty element does to a style: a name, the style it is based
/// on, or the next style, from its `val`; any other element is kept
/// verbatim.
pub open spec fn style_step() -> spec_fn(CT_Style, CT_Style, Tag) -> bool {
    |o: CT_Style, m: CT_Style, t: Tag|
        if local_is(t.name@, "name"@) {
            m == (CT_Style { name: m.name, ..o }) && opt_view(m.name) == first_attr(t.attrs@, "val"@)
        } else if local_is(t.name@, "basedOn"@) {
            m == (CT_Style { based_on: m.based_on, ..o }) && opt_view(m.based_on) == first_attr(t.attrs@, "val"@)
        } else if local_is(t.name@, "next"@) {
            m == (CT_Style { next_style: m.next_style, ..o }) && opt_view(m.next_style) == first_attr(
                t.attrs@,
                "val"@,
            )
        } else {
            m == (CT_Style { extra_xml: m.extra_xml, ..o }) && extra_added(o.extra_xml, m.extra_xml, empty_raw(t))
        }
}

/// A style with one more element kept verbatim.
pub open spec fn style_keep() -> spec_fn(CT_Style, CT_Style, Seq<u8>) -> bool {
    |o: CT_Style, m: CT_Style, b: Seq<u8>| m == (CT_Style { extra_xml: m.extra_xml, ..o }) && extra_added(o.extra_xml, m.extra_xml, b)
}

/// What a child element of a style does: paragraph and run properties are
/// read by their own readers; any other element is kept verbatim.
pub open spec fn style_start(x: Seq<u8>, tr: bool) -> spec_fn(CT_Style, Tag, nat, Result<CT_Style, OxmlError>, nat) -> bool {
    |o: CT_Style, t: Tag, p: nat, m: Result<CT_Style, OxmlError>, q: nat|
        if local_is(t.name@, "pPr"@) {
            exists|rb: Result<CT_PPr, OxmlError>, f: nat|
                #[trigger] ppr_run(x, tr, p, ppr_none(), budget_for(xml_unread(x, tr, p)), (rb, q, f)) && match rb {
                    Ok(b) => m == Ok::<CT_Style, OxmlError>(CT_Style { ppr: Some(b), ..o }),
                    Err(e) => m == Err::<CT_Style, OxmlError>(e),
                }
        } else if local_is(t.name@, "rPr"@) {
            exists|rb: Result<CT_RPr, OxmlError>, f: nat|
                #[trigger] rpr_run(x, tr, p, rpr_none(), budget_for(xml_unread(x, tr, p)), (rb, q, f)) && match rb {
                    Ok(b) => m == Ok::<CT_Style, OxmlError>(CT_Style { rpr: Some(b), ..o }),
                    Err(e) => m == Err::<CT_Style, OxmlError>(e),
                }
        } else {
            cap_start(x, tr, style_keep())(o, t, p, m, q)
        }
}

/// Reading the inside of a style from call `n` on, from the style `o` its
/// start tag gives, ends in `res`.
pub open spec fn style_run(x: Seq<u8>, tr: bool, n: nat, o: CT_Style, f: nat, res: ReadOutcome<CT_Style>) -> bool {
    flat_cap_run(x, tr, n, ends_at("style"@), style_fails(), style_step(), style_start(x, tr), o, f, res)
}

/// Read one empty element into a style.
fn read_style_empty(st: &mut CT_Style, t: &Tag) -> (r: Result<(), OxmlError>)
    ensures
        r is Ok,
        style_step()(*old(st), *final(st), *t),
{
    let nm = t.name.as_str();
    if name_is(nm, "name") {
        st.name = get_attr(&t.attrs, "val");
    } else if name_is(nm, "basedOn") {
        st.based_on = get_attr(&t.attrs, "val");
    } else if name_is(nm, "next") {
        st.next_style = get_attr(&t.attrs, "val");
    } else {
        push_extra(&mut st.extra_xml, capture_empty_element(t));
    }
    Ok(())
}

impl CT_Style {
    /// Read a style from the events after its start tag `start` up to its
    /// end (or the end of input): id, type and default mark from `start`
    /// (`read_style_head`); name, base and next style from the `val` of
    /// their empty elements; paragraph and run properties by their
    /// readers; any other child kept verbatim.
    pub fn from_xml(reader: &mut XmlReader, start: &Tag) -> (r: Result<Self, OxmlError>)
        ensures
            r matches Ok(s) ==> style_head(attr_views(start.attrs@)) == Some((s.style_id@, s.style_type, s.is_default)),
            style_head(attr_views(start.attrs@)) is None ==> r is Err && *final(reader) == *old(reader),
            final(reader).same_input(old(reader)),
            style_head(attr_views(start.attrs@)) matches Some((id, ty, d)) ==> exists|o: CT_Style, f: nat|
                #[trigger] style_run(
                    old(reader).input(),
                    old(reader).trims(),
                    old(reader).count(),
                    o,
                    budget_left(old(reader)),
                    (r, final(reader).count(), f),
                ) && style_blank(o, id, ty, d),
    {
        let ghost x = reader.input();
        let ghost tr = reader.trims();
        let ghost n0 = reader.count();
        let (style_id, style_type, is_default) = read_style_head(start)?;
        let mut st = CT_Style { style_id, style_type, name: None, based_on: None, next_style: None, is_default, ppr: None, rpr: None, extra_xml: None };
        let ghost o0 = st;
        let budget = event_budget(unread_len(reader));
        let mut fuel = budget;
        while fuel > 0
            invariant
                fuel <= budget,
                budget as nat == budget_for(xml_unread(x, tr, n0)),
                reader.input() == x,
                reader.trims() == tr,
                x == old(reader).input(),
                tr == old(reader).trims(),
                n0 == old(reader).count(),
                style_head(attr_views(start.attrs@)) == Some((o0.style_id@, o0.style_type, o0.is_default)),
                style_blank(o0, o0.style_id@, o0.style_type, o0.is_default),
                st.style_id == o0.style_id && st.style_type == o0.style_type && st.is_default == o0.is_default,
                forall|res: ReadOutcome<CT_Style>|
                    #[trigger] flat_cap_run(x, tr, reader.count(), ends_at("style"@), style_fails(), style_step(), style_start(x, tr), st, fuel as nat, res)
                        ==> style_run(x, tr, n0, o0, budget as nat, res),
            decreases fuel,
        {
            let ghost n = reader.count();
            let ghost o = st;
            let ghost f1 = fuel as nat;
            fuel = fuel - 1;
            match read_event(reader) {
                Ok(ReadEvent::Empty(t)) => {
                    if let Err(e) = read_style_empty(&mut st, &t) {
                        proof {
                            let res = (Err::<CT_Style, OxmlError>(e), reader.count(), fuel as nat);
                            assert(flat_cap_run(x, tr, n, ends_at("style"@), style_fails(), style_step(), style_start(x, tr), o, f1, res));
                            assert(style_run(x, tr, n0, o0, budget as nat, res));
                            assert(style_run(old(reader).input(), old(reader).trims(), old(reader).count(), o0, budget_left(old(reader)), res));
                        }
                        return Err(e);
                    }
                    proof {
                        assert(style_step()(o, st, t));
                        assert forall|res: ReadOutcome<CT_Style>|
                            #[trigger] flat_cap_run(x, tr, reader.count(), ends_at("style"@), style_fails(), style_step(), style_start(x, tr), st, fuel as nat, res)
                            implies flat_cap_run(x, tr, n, ends_at("style"@), style_fails(), style_step(), style_start(x, tr), o, f1, res) by {
                            lemma_flat_cap_empty(x, tr, n, ends_at("style"@), style_fails(), style_step(), style_start(x, tr), o, st, f1, t, res);
                        }
                    }
                },
                Ok(ReadEvent::Start(t)) => {
                    if name_is(t.name.as_str(), "pPr") {
                        let rb = CT_PPr::from_xml(reader);
                        let ghost grb = rb;
                        match rb {
                            Ok(b) => {
                                st.ppr = Some(b);
                        proof {
                            let q = reader.count();
                            assert(style_start(x, tr)(o, t, n + 1, Ok::<CT_Style, OxmlError>(st), q));
                            assert forall|res: ReadOutcome<CT_Style>|
                                #[trigger] flat_cap_run(x, tr, reader.count(), ends_at("style"@), style_fails(), style_step(), style_start(x, tr), st, fuel as nat, res)
                                implies flat_cap_run(x, tr, n, ends_at("style"@), style_fails(), style_step(), style_start(x, tr), o, f1, res) by {
                                lemma_flat_cap_start(x, tr, n, ends_at("style"@), style_fails(), style_step(), style_start(x, tr), o, f1, t, Ok::<CT_Style, OxmlError>(st), q, res);
                            }
                        }
                            },
                            Err(e) => {
                            proof {
                                let q = reader.count();
                                let res = (Err::<CT_Style, OxmlError>(e), q, fuel as nat);
                                assert(style_start(x, tr)(o, t, n + 1, Err::<CT_Style, OxmlError>(e), q));
                                lemma_flat_cap_start(x, tr, n, ends_at("style"@), style_fails(), style_step(), style_start(x, tr), o, f1, t, Err::<CT_Style, OxmlError>(e), q, res);
                            assert(style_run(x, tr, n0, o0, budget as nat, res));
                            assert(style_run(old(reader).input(), old(reader).trims(), old(reader).count(), o0, budget_left(old(reader)), res));
                            }
                            return Err(e);
                            },
                        }
                    } else if name_is(t.name.as_str(), "rPr") {
                        let rb = CT_RPr::from_xml(reader);
                        let ghost grb = rb;
                        match rb {
                            Ok(b) => {
                                st.rpr = Some(b);
                        proof {
                            let q = reader.count();
                            assert(style_start(x, tr)(o, t, n + 1, Ok::<CT_Style, OxmlError>(st), q));
                            assert forall|res: ReadOutcome<CT_Style>|
                                #[trigger] flat_cap_run(x, tr, reader.count(), ends_at("style"@), style_fails(), style_step(), style_start(x, tr), st, fuel as nat, res)
                                implies flat_cap_run(x, tr, n, ends_at("style"@), style_fails(), style_step(), style_start(x, tr), o, f1, res) by {
                                lemma_flat_cap_start(x, tr, n, ends_at("style"@), style_fails(), style_step(), style_start(x, tr), o, f1, t, Ok::<CT_Style, OxmlError>(st), q, res);
                            }
                        }
                            },
                            Err(e) => {
                            proof {
                                let q = reader.count();
                                let res = (Err::<CT_Style, OxmlError>(e), q, fuel as nat);
                                assert(style_start(x, tr)(o, t, n + 1, Err::<CT_Style, OxmlError>(e), q));
                                lemma_flat_cap_start(x, tr, n, ends_at("style"@), style_fails(), style_step(), style_start(x, tr), o, f1, t, Err::<CT_Style, OxmlError>(e), q, res);
                            assert(style_run(x, tr, n0, o0, budget as nat, res));
                            assert(style_run(old(reader).input(), old(reader).trims(), old(reader).count(), o0, budget_left(old(reader)), res));
                            }
                            return Err(e);
                            },
                        }
                    } else {
                        let raw = match capture_element(reader, &t) {
                            Ok(b) => b,
                            Err(e) => {
                            proof {
                                let q = reader.count();
                                let res = (Err::<CT_Style, OxmlError>(e), q, fuel as nat);
                                assert(style_start(x, tr)(o, t, n + 1, Err::<CT_Style, OxmlError>(e), q));
                                lemma_flat_cap_start(x, tr, n, ends_at("style"@), style_fails(), style_step(), style_start(x, tr), o, f1, t, Err::<CT_Style, OxmlError>(e), q, res);
                            assert(style_run(x, tr, n0, o0, budget as nat, res));
                            assert(style_run(old(reader).input(), old(reader).trims(), old(reader).count(), o0, budget_left(old(reader)), res));
                            }
                            return Err(e);
                            },
                        };
                        let ghost bb = raw@;
                        push_extra(&mut st.extra_xml, raw);
                        proof {
                            let q = reader.count();
                            assert(style_start(x, tr)(o, t, n + 1, Ok::<CT_Style, OxmlError>(st), q));
                            assert forall|res: ReadOutcome<CT_Style>|
                                #[trigger] flat_cap_run(x, tr, reader.count(), ends_at("style"@), style_fails(), style_step(), style_start(x, tr), st, fuel as nat, res)
                                implies flat_cap_run(x, tr, n, ends_at("style"@), style_fails(), style_step(), style_start(x, tr), o, f1, res) by {
                                lemma_flat_cap_start(x, tr, n, ends_at("style"@), style_fails(), style_step(), style_start(x, tr), o, f1, t, Ok::<CT_Style, OxmlError>(st), q, res);
                            }
                        }
                    }
                },
                Ok(ReadEvent::End(nm)) => {
                    if name_is(nm.as_str(), "style") {
                        proof {
                            assert(flat_cap_run(x, tr, n, ends_at("style"@), style_fails(), style_step(), style_start(x, tr), o, f1, (Ok::<CT_Style, OxmlError>(st), reader.count(), fuel as nat)));
                            assert(style_run(x, tr, n0, o0, budget as nat, (Ok::<CT_Style, OxmlError>(st), reader.count(), fuel as nat)));
                            assert(style_run(old(reader).input(), old(reader).trims(), old(reader).count(), o0, budget_left(old(reader)), (Ok::<CT_Style, OxmlError>(st), reader.count(), fuel as nat)));
                        }
                        return Ok(st);
                    }
                    proof {
                        assert forall|res: ReadOutcome<CT_Style>|
                            #[trigger] flat_cap_run(x, tr, reader.count(), ends_at("style"@), style_fails(), style_step(), style_start(x, tr), st, fuel as nat, res)
                            implies flat_cap_run(x, tr, n, ends_at("style"@), style_fails(), style_step(), style_start(x, tr), o, f1, res) by {}
                    }
                },
                Ok(ReadEvent::Eof) => {
                    proof {
                        assert(flat_cap_run(x, tr, n, ends_at("style"@), style_fails(), style_step(), style_start(x, tr), o, f1, (Ok::<CT_Style, OxmlError>(st), reader.count(), fuel as nat)));
                            assert(style_run(x, tr, n0, o0, budget as nat, (Ok::<CT_Style, OxmlError>(st), reader.count(), fuel as nat)));
                            assert(style_run(old(reader).input(), old(reader).trims(), old(reader).count(), o0, budget_left(old(reader)), (Ok::<CT_Style, OxmlError>(st), reader.count(), fuel as nat)));
                    }
                    return Ok(st);
                },
                Ok(_) => {
                    proof {
                        assert forall|res: ReadOutcome<CT_Style>|
                            #[trigger] flat_cap_run(x, tr, reader.count(), ends_at("style"@), style_fails(), style_step(), style_start(x, tr), st, fuel as nat, res)
                            implies flat_cap_run(x, tr, n, ends_at("style"@), style_fails(), style_step(), style_start(x, tr), o, f1, res) by {}
                    }
                },
                Err(e) => {
                    proof {
                        let res = (Err::<CT_Style, OxmlError>(e), reader.count(), fuel as nat);
                        assert(flat_cap_run(x, tr, n, ends_at("style"@), style_fails(), style_step(), style_start(x, tr), o, f1, res));
                            assert(style_run(x, tr, n0, o0, budget as nat, res));
                            assert(style_run(old(reader).input(), old(reader).trims(), old(reader).count(), o0, budget_left(old(reader)), res));
                    }
                    return Err(e);
                },
            }
        }
        proof {
            assert(flat_cap_run(x, tr, reader.count(), ends_at("style"@), style_fails(), style_step(), style_start(x, tr), st, 0nat, (Ok::<CT_Style, OxmlError>(st), reader.count(), 0nat)));
                            assert(style_run(x, tr, n0, o0, budget as nat, (Ok::<CT_Style, OxmlError>(st), reader.count(), 0nat)));
                            assert(style_run(old(reader).input(), old(reader).trims(), old(reader).count(), o0, budget_left(old(reader)), (Ok::<CT_Style, OxmlError>(st), reader.count(), 0nat)));
        }
        Ok(st)
    }
}

/// A styles part before anything is read into it.
pub open spec fn styles_blank(o: CT_Styles) -> bool {
    o.doc_defaults is None && o.styles@.len() == 0 && o.extra_xml is None
}

/// A styles part with one more element kept verbatim.
pub open spec fn styles_keep() -> spec_fn(CT_Styles, CT_Styles, Seq<u8>) -> bool {
    |o: CT_Styles, m: CT_Styles, b: Seq<u8>| m == (CT_Styles { extra_xml: m.extra_xml, ..o }) && extra_added(o.extra_xml, m.extra_xml, b)
}

/// What an empty tag does to a styles part: an empty root changes nothing,
/// any other is kept verbatim.
pub open spec fn styles_step() -> spec_fn(CT_Styles, CT_Styles, Tag) -> bool {
    |o: CT_Styles, m: CT_Styles, t: Tag|
        if local_is(t.name@, "styles"@) {
            m == o
        } else {
            styles_keep()(o, m, empty_raw(t))
        }
}

/// What a start tag does in a styles part, read from call `p` on: the
/// document defaults are read (`defaults_read`) and replace any before; a
/// style whose start tag reads (`style_head`) has its inside read
/// (`style_run`) and is added, one whose start tag does not is an error
/// that reads nothing more; the root reads nothing more; any other element
/// is kept verbatim.
pub open spec fn styles_start(x: Seq<u8>, tr: bool) -> spec_fn(CT_Styles, Tag, nat, Result<CT_Styles, OxmlError>, nat) -> bool {
    |o: CT_Styles, t: Tag, p: nat, m: Result<CT_Styles, OxmlError>, q: nat|
        if local_is(t.name@, "docDefaults"@) {
            exists|h: ReadOutcome<CT_DocDefaults>|
                #[trigger] defaults_read(x, tr, p, h) && q == h.1 && match h.0 {
                    Ok(d) => m == Ok::<CT_Styles, OxmlError>(CT_Styles { doc_defaults: Some(d), ..o }),
                    Err(e) => m == Err::<CT_Styles, OxmlError>(e),
                }
        } else if local_is(t.name@, "style"@) {
            match style_head(attr_views(t.attrs@)) {
                None => q == p && m is Err,
                Some((id, ty, d)) => exists|h: ReadOutcome<CT_Style>, so: CT_Style|
                    #[trigger] style_run(x, tr, p, so, budget_for(xml_unread(x, tr, p)), h) && style_blank(so, id, ty, d)
                        && q == h.1 && match h.0 {
                        Ok(s1) => (m matches Ok(s2) && s2 == (CT_Styles { styles: s2.styles, ..o }) && s2.styles@
                            == o.styles@.push(s1)),
                        Err(e) => m == Err::<CT_Styles, OxmlError>(e),
                    },
            }
        } else if local_is(t.name@, "styles"@) {
            q == p && m == Ok::<CT_Styles, OxmlError>(o)
        } else {
            cap_start(x, tr, styles_keep())(o, t, p, m, q)
        }
}

/// Reading a styles part from call `n` on of a reader over `x`, over what
/// `o` holds and with `f` events left, ends in `res`; only the end of input
/// ends it.
pub open spec fn styles_run(x: Seq<u8>, tr: bool, n: nat, o: CT_Styles, f: nat, res: ReadOutcome<CT_Styles>) -> bool {
    flat_cap_run(x, tr, n, no_end(), never_fails(), styles_step(), styles_start(x, tr), o, f, res)
}

/// Reading a styles part from call `n` on, from nothing, with the budget
/// for what is left unread, ends in `res`.
pub open spec fn styles_read(x: Seq<u8>, tr: bool, n: nat, res: ReadOutcome<CT_Styles>) -> bool {
    exists|o: CT_Styles| #[trigger] styles_blank(o) && styles_run(x, tr, n, o, budget_for(xml_unread(x, tr, n)), res)
}

/// A reading from nothing with the full budget is a styles part read.
proof fn lemma_styles_read(x: Seq<u8>, tr: bool, n: nat, o: CT_Styles, res: ReadOutcome<CT_Styles>)
    requires
        styles_blank(o),
        styles_run(x, tr, n, o, budget_for(xml_unread(x, tr, n)), res),
    ensures
        styles_read(x, tr, n, res),
{
}

/// Read one empty tag into a styles part.
fn read_styles_empty(sty: &mut CT_Styles, t: &Tag) -> (r: Result<(), OxmlError>)
    ensures
        r is Ok,
        styles_step()(*old(sty), *final(sty), *t),
{
    if !name_is(t.name.as_str(), "styles") {
        push_extra(&mut sty.extra_xml, capture_empty_element(t));
    }
    Ok(())
}

/// Read a styles part from the events of `reader`.
fn read_styles(reader: &mut XmlReader) -> (r: Result<CT_Styles, OxmlError>)
    ensures
        final(reader).same_input(old(reader)),
        exists|f: nat|
            #[trigger] styles_read(old(reader).input(), old(reader).trims(), old(reader).count(),
                (r, final(reader).count(), f)),
{
    let ghost x = reader.input();
    let ghost tr = reader.trims();
    let ghost n0 = reader.count();
    let mut sty = CT_Styles { doc_defaults: None, styles: Vec::new(), extra_xml: None };
    let ghost o0 = sty;
    let budget = event_budget(unread_len(reader));
    let mut fuel = budget;
    while fuel > 0
        invariant
            fuel <= budget,
            budget as nat == budget_for(xml_unread(x, tr, n0)),
            reader.input() == x,
            reader.trims() == tr,
            x == old(reader).input(),
            tr == old(reader).trims(),
            n0 == old(reader).count(),
            styles_blank(o0),
            forall|res: ReadOutcome<CT_Styles>|
                #[trigger] flat_cap_run(x, tr, reader.count(), no_end(), never_fails(), styles_step(), styles_start(x, tr), sty, fuel as nat, res)
                    ==> styles_run(x, tr, n0, o0, budget as nat, res),
        decreases fuel,
    {
        let ghost n = reader.count();
        let ghost o = sty;
        let ghost f1 = fuel as nat;
        fuel = fuel - 1;
        match read_event(reader) {
            Ok(ReadEvent::Empty(t)) => {
                if let Err(e) = read_styles_empty(&mut sty, &t) {
                    proof {
                        let res = (Err::<CT_Styles, OxmlError>(e), reader.count(), fuel as nat);
                        assert(flat_cap_run(x, tr, n, no_end(), never_fails(), styles_step(), styles_start(x, tr), o, f1, res));
                        assert(styles_run(x, tr, n0, o0, budget as nat, res));
                        lemma_styles_read(x, tr, n0, o0, res);
                    }
                    return Err(e);
                }
                proof {
                    assert(styles_step()(o, sty, t));
                    assert forall|res: ReadOutcome<CT_Styles>|
                        #[trigger] flat_cap_run(x, tr, reader.count(), no_end(), never_fails(), styles_step(), styles_start(x, tr), sty, fuel as nat, res)
                        implies flat_cap_run(x, tr, n, no_end(), never_fails(), styles_step(), styles_start(x, tr), o, f1, res) by {
                        lemma_flat_cap_empty(x, tr, n, no_end(), never_fails(), styles_step(), styles_start(x, tr), o, sty, f1, t, res);
                    }
                }
            },
            Ok(ReadEvent::Start(t)) => {
                let nm = t.name.as_str();
                if name_is(nm, "docDefaults") {
                    match CT_DocDefaults::from_xml(reader) {
                        Ok(dd) => {
                            sty.doc_defaults = Some(dd);
                    proof {
                        let q = reader.count();
                        assert(styles_start(x, tr)(o, t, n + 1, Ok::<CT_Styles, OxmlError>(sty), q));
                        assert forall|res: ReadOutcome<CT_Styles>|
                            #[trigger] flat_cap_run(x, tr, reader.count(), no_end(), never_fails(), styles_step(), styles_start(x, tr), sty, fuel as nat, res)
                            implies flat_cap_run(x, tr, n, no_end(), never_fails(), styles_step(), styles_start(x, tr), o, f1, res) by {
                            lemma_flat_cap_start(x, tr, n, no_end(), never_fails(), styles_step(), styles_start(x, tr), o, f1, t, Ok::<CT_Styles, OxmlError>(sty), q, res);
                        }
                    }
                        },
                        Err(e) => {
                        proof {
                            let q = reader.count();
                            let res = (Err::<CT_Styles, OxmlError>(e), q, fuel as nat);
                            assert(styles_start(x, tr)(o, t, n + 1, Err::<CT_Styles, OxmlError>(e), q));
                            lemma_flat_cap_start(x, tr, n, no_end(), never_fails(), styles_step(), styles_start(x, tr), o, f1, t, Err::<CT_Styles, OxmlError>(e), q, res);
                        assert(styles_run(x, tr, n0, o0, budget as nat, res));
                        lemma_styles_read(x, tr, n0, o0, res);
                        }
                        return Err(e);
                        },
                    }
                } else if name_is(nm, "style") {
                    match CT_Style::from_xml(reader, &t) {
                        Ok(s1) => {
                            sty.styles.push(s1);
                    proof {
                        let q = reader.count();
                        assert(styles_start(x, tr)(o, t, n + 1, Ok::<CT_Styles, OxmlError>(sty), q));
                        assert forall|res: ReadOutcome<CT_Styles>|
                            #[trigger] flat_cap_run(x, tr, reader.count(), no_end(), never_fails(), styles_step(), styles_start(x, tr), sty, fuel as nat, res)
                            implies flat_cap_run(x, tr, n, no_end(), never_fails(), styles_step(), styles_start(x, tr), o, f1, res) by {
                            lemma_flat_cap_start(x, tr, n, no_end(), never_fails(), styles_step(), styles_start(x, tr), o, f1, t, Ok::<CT_Styles, OxmlError>(sty), q, res);
                        }
                    }
                        },
                        Err(e) => {
                        proof {
                            let q = reader.count();
                            let res = (Err::<CT_Styles, OxmlError>(e), q, fuel as nat);
                            assert(styles_start(x, tr)(o, t, n + 1, Err::<CT_Styles, OxmlError>(e), q));
                            lemma_flat_cap_start(x, tr, n, no_end(), never_fails(), styles_step(), styles_start(x, tr), o, f1, t, Err::<CT_Styles, OxmlError>(e), q, res);
                        assert(styles_run(x, tr, n0, o0, budget as nat, res));
                        lemma_styles_read(x, tr, n0, o0, res);
                        }
                        return Err(e);
                        },
                    }
                } else if name_is(nm, "styles") {
                    proof {
                        let q = reader.count();
                        assert(styles_start(x, tr)(o, t, n + 1, Ok::<CT_Styles, OxmlError>(sty), q));
                        assert forall|res: ReadOutcome<CT_Styles>|
                            #[trigger] flat_cap_run(x, tr, reader.count(), no_end(), never_fails(), styles_step(), styles_start(x, tr), sty, fuel as nat, res)
                            implies flat_cap_run(x, tr, n, no_end(), never_fails(), styles_step(), styles_start(x, tr), o, f1, res) by {
                            lemma_flat_cap_start(x, tr, n, no_end(), never_fails(), styles_step(), styles_start(x, tr), o, f1, t, Ok::<CT_Styles, OxmlError>(sty), q, res);
                        }
                    }
                } else {
                    let raw = match capture_element(reader, &t) {
                        Ok(b) => b,
                        Err(e) => {
                        proof {
                            let q = reader.count();
                            let res = (Err::<CT_Styles, OxmlError>(e), q, fuel as nat);
                            assert(styles_start(x, tr)(o, t, n + 1, Err::<CT_Styles, OxmlError>(e), q));
                            lemma_flat_cap_start(x, tr, n, no_end(), never_fails(), styles_step(), styles_start(x, tr), o, f1, t, Err::<CT_Styles, OxmlError>(e), q, res);
                        assert(styles_run(x, tr, n0, o0, budget as nat, res));
                        lemma_styles_read(x, tr, n0, o0, res);
                        }
                        return Err(e);
                        },
                    };
                    let ghost bb = raw@;
                    push_extra(&mut sty.extra_xml, raw);
                    proof { assert(styles_keep()(o, sty, bb)); }
                    proof {
                        let q = reader.count();
                        assert(styles_start(x, tr)(o, t, n + 1, Ok::<CT_Styles, OxmlError>(sty), q));
                        assert forall|res: ReadOutcome<CT_Styles>|
                            #[trigger] flat_cap_run(x, tr, reader.count(), no_end(), never_fails(), styles_step(), styles_start(x, tr), sty, fuel as nat, res)
                            implies flat_cap_run(x, tr, n, no_end(), never_fails(), styles_step(), styles_start(x, tr), o, f1, res) by {
                            lemma_flat_cap_start(x, tr, n, no_end(), never_fails(), styles_step(), styles_start(x, tr), o, f1, t, Ok::<CT_Styles, OxmlError>(sty), q, res);
                        }
                    }
                }
            },
            Ok(ReadEvent::Eof) => {
                proof {
                    assert(flat_cap_run(x, tr, n, no_end(), never_fails(), styles_step(), styles_start(x, tr), o, f1, (Ok::<CT_Styles, OxmlError>(sty), reader.count(), fuel as nat)));
                        assert(styles_run(x, tr, n0, o0, budget as nat, (Ok::<CT_Styles, OxmlError>(sty), reader.count(), fuel as nat)));
                        lemma_styles_read(x, tr, n0, o0, (Ok::<CT_Styles, OxmlError>(sty), reader.count(), fuel as nat));
                }
                return Ok(sty);
            },
            Ok(_) => {
                proof {
                    assert forall|res: ReadOutcome<CT_Styles>|
                        #[trigger] flat_cap_run(x, tr, reader.count(), no_end(), never_fails(), styles_step(), styles_start(x, tr), sty, fuel as nat, res)
                        implies flat_cap_run(x, tr, n, no_end(), never_fails(), styles_step(), styles_start(x, tr), o, f1, res) by {}
                }
            },
            Err(e) => {
                proof {
                    let res = (Err::<CT_Styles, OxmlError>(e), reader.count(), fuel as nat);
                    assert(flat_cap_run(x, tr, n, no_end(), never_fails(), styles_step(), styles_start(x, tr), o, f1, res));
                        assert(styles_run(x, tr, n0, o0, budget as nat, res));
                        lemma_styles_read(x, tr, n0, o0, res);
                }
                return Err(e);
            },
        }
    }
    proof {
        assert(flat_cap_run(x, tr, reader.count(), no_end(), never_fails(), styles_step(), styles_start(x, tr), sty, 0nat, (Ok::<CT_Styles, OxmlError>(sty), reader.count(), 0nat)));
                        assert(styles_run(x, tr, n0, o0, budget as nat, (Ok::<CT_Styles, OxmlError>(sty), reader.count(), 0nat)));
                        lemma_styles_read(x, tr, n0, o0, (Ok::<CT_Styles, OxmlError>(sty), reader.count(), 0nat));
    }
    Ok(sty)
}

impl CT_Styles {
    /// Read a styles part: the document defaults, each style
    /// (`CT_Style::from_xml`), and any other element inside the root kept
    /// verbatim, as `styles_read` says over the events of a reader over
    /// `xml` that trims text.
    pub fn from_xml(xml: &[u8]) -> (r: Result<Self, OxmlError>)
        ensures
            exists|c: nat, f: nat| #[trigger] styles_read(xml@, true, 0, (r, c, f)),
    {
        let mut reader = reader_from_bytes(xml, true);
        read_styles(&mut reader)
    }

    /// Serialize the styles part.
    pub fn to_xml(&self) -> (r: Result<Vec<u8>, OxmlError>)
        ensures
            r matches Ok(b) && b@ == styles_xml(*self),
    {
        let mut out: Vec<u8> = Vec::new();
        emit(
            &mut out,
            XmlEvent::Decl(to_owned_string("1.0"), Some(to_owned_string("UTF-8")), Some(to_owned_string("yes"))),
        );
        let mut a: Vec<(String, String)> = Vec::new();
        push_attr(&mut a, "xmlns:w", to_owned_string(W_NS));
        push_attr(&mut a, "xmlns:r", to_owned_string(R_NS));
        proof { assert(attr_views(a@) =~= seq![("xmlns:w"@, W_NS@), ("xmlns:r"@, R_NS@)]); }
        emit_start_attrs(&mut out, "w:styles", a);
        match &self.doc_defaults {
            Some(d) => d.to_xml(&mut out),
            None => {},
        }
        write_extra(&mut out, &self.extra_xml);
        let ghost head = out@;
        let mut i: usize = 0;
        proof { assert(self.styles@.take(0) =~= Seq::<CT_Style>::empty()); }
        while i < self.styles.len()
            invariant
                i <= self.styles@.len(),
                out@ == head + styles_body(self.styles@.take(i as int)),
            decreases self.styles@.len() - i,
        {
            self.styles[i].to_xml(&mut out);
            proof {
                assert(self.styles@.take(i + 1).drop_last() =~= self.styles@.take(i as int));
                assert(out@ =~= head + styles_body(self.styles@.take(i + 1)));
            }
            i = i + 1;
        }
        proof { assert(self.styles@.take(i as int) =~= self.styles@); }
        emit_end(&mut out, "w:styles");
        proof { assert(out@ =~= styles_xml(*self)); }
        Ok(out)
    }
}

} // verus!
