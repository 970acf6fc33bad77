//! Core document properties (`docProps/core.xml`).

use vstd::prelude::*;

use crate::chars::{str_chars, str_eq, string_from_chars, string_from_utf8_lossy, to_owned_string, trim_chars, trimmed, utf8_lossy};
use crate::error::OxmlError;
use crate::opc::std_decl;
use crate::xml::{ev_views, write_indented, XmlEvent, XmlEventView, indented};
use crate::xml_read::{budget_for, xml_event, xml_unread};
use crate::xml_read::{
    event_budget, local_name, local_part, opt_view, read_event, reader_from_bytes, unescape_text, unread_len,
    xml_unescaped, ReadEvent,
};

verus! {

/// Dublin Core document metadata.
#[derive(Debug, Clone, Default, PartialEq)]
pub struct CoreProperties {
    pub title: Option<String>,
    pub creator: Option<String>,
    pub subject: Option<String>,
    pub description: Option<String>,
    pub keywords: Option<String>,
    pub last_modified_by: Option<String>,
    /// W3CDTF timestamp.
    pub created: Option<String>,
    /// W3CDTF timestamp.
    pub modified: Option<String>,
}

/// The namespaces of the core properties part.
pub open spec fn core_root_attrs() -> Seq<(Seq<char>, Seq<char>)> {
    seq![
        ("xmlns:cp"@, "http://schemas.openxmlformats.org/package/2006/metadata/core-properties"@),
        ("xmlns:dc"@, "http://purl.org/dc/elements/1.1/"@),
        ("xmlns:dcterms"@, "http://purl.org/dc/terms/"@),
        ("xmlns:dcmitype"@, "http://purl.org/dc/dcmitype/"@),
        ("xmlns:xsi"@, "http://www.w3.org/2001/XMLSchema-instance"@),
    ]
}

/// An element holding a text, if the text is set; a date also carries its
/// type.
pub open spec fn text_el_events(tag: Seq<char>, attrs: Seq<(Seq<char>, Seq<char>)>, v: Option<String>) -> Seq<
    XmlEventView,
> {
    match v {
        Some(s) => seq![XmlEventView::Start(tag, attrs), XmlEventView::Text(s@), XmlEventView::End(tag)],
        None => Seq::empty(),
    }
}

/// The type of a date element.
pub open spec fn date_attrs() -> Seq<(Seq<char>, Seq<char>)> {
    seq![("xsi:type"@, "dcterms:W3CDTF"@)]
}

/// The events of the core properties part: the declaration, the root with
/// its namespaces, title, subject, creator, keywords, description, last
/// editor, then the creation and modification dates, each if set.
pub open spec fn core_events(p: CoreProperties) -> Seq<XmlEventView> {
    seq![std_decl(), XmlEventView::Start("cp:coreProperties"@, core_root_attrs())] + text_el_events(
        "dc:title"@,
        Seq::empty(),
        p.title,
    ) + text_el_events("dc:subject"@, Seq::empty(), p.subject) + text_el_events(
        "dc:creator"@,
        Seq::empty(),
        p.creator,
    ) + text_el_events("cp:keywords"@, Seq::empty(), p.keywords) + text_el_events(
        "dc:description"@,
        Seq::empty(),
        p.description,
    ) + text_el_events("cp:lastModifiedBy"@, Seq::empty(), p.last_modified_by) + text_el_events(
        "dcterms:created"@,
        date_attrs(),
        p.created,
    ) + text_el_events("dcterms:modified"@, date_attrs(), p.modified) + seq![
        XmlEventView::End("cp:coreProperties"@),
    ]
}

/// Append the events of a text element.
fn push_text_el(evs: &mut Vec<XmlEvent>, tag: &str, date: bool, v: &Option<String>)
    ensures
        ev_views(final(evs)@) == ev_views(old(evs)@) + text_el_events(
            tag@,
            if date { date_attrs() } else { Seq::empty() },
            *v,
        ),
{
    match v {
        Some(s) => {
            let mut a: Vec<(String, String)> = Vec::new();
            if date {
                a.push((to_owned_string("xsi:type"), to_owned_string("dcterms:W3CDTF")));
            }
            proof {
                assert(crate::xml::attr_views(a@) =~= (if date { date_attrs() } else { Seq::empty() }));
            }
            let ghost e0 = ev_views(evs@);
            evs.push(XmlEvent::Start(to_owned_string(tag), a));
            evs.push(XmlEvent::Text(s.clone()));
            evs.push(XmlEvent::End(to_owned_string(tag)));
            proof {
                assert(ev_views(evs@) =~= e0 + text_el_events(
                    tag@,
                    if date { date_attrs() } else { Seq::empty() },
                    *v,
                ));
            }
        },
        None => {
            proof {
                assert(ev_views(evs@) =~= ev_views(old(evs)@) + text_el_events(
                    tag@,
                    if date { date_attrs() } else { Seq::empty() },
                    *v,
                ));
            }
        },
    }
}

/// The text one piece of character data gives: with references resolved
/// (a reference that cannot be resolved is kept as written).
pub open spec fn piece_text(raw: Seq<char>) -> Seq<char> {
    match xml_unescaped(raw) {
        Some(x) => x,
        None => raw,
    }
}

/// The text of one piece of character data.
pub fn piece_text_of(raw: &str) -> (r: String)
    ensures
        r@ == piece_text(raw@),
{
    match unescape_text(raw) {
        Some(x) => x,
        None => to_owned_string(raw),
    }
}

/// The text an event adds inside an element: character data, or an entity
/// or character reference (written back by the reader starting with `&`);
/// nothing for any other event.
pub open spec fn event_piece(ev: ReadEvent) -> Option<Seq<char>> {
    match ev {
        ReadEvent::Text(t) => Some(piece_text(t@)),
        ReadEvent::Other(b) => if b@.len() > 0 && b@[0] == 38u8 {
            Some(piece_text(utf8_lossy(b@)))
        } else {
            None
        },
        _ => None,
    }
}

/// The text an event adds inside an element.
pub fn event_piece_of(ev: &ReadEvent) -> (r: Option<String>)
    ensures
        opt_view(r) == event_piece(*ev),
{
    match ev {
        ReadEvent::Text(t) => Some(piece_text_of(t.as_str())),
        ReadEvent::Other(b) => {
            if b.len() > 0 && b[0] == 38u8 {
                let s = string_from_utf8_lossy(b.as_slice());
                Some(piece_text_of(s.as_str()))
            } else {
                None
            }
        },
        _ => None,
    }
}

/// The position of a property by the local name of its element: title,
/// creator, subject, description, keywords, last editor, created,
/// modified; -1 for any other name.
pub open spec fn core_slot(n: Seq<char>) -> int {
    if n == "title"@ { 0 } else if n == "creator"@ { 1 } else if n == "subject"@ { 2 }
    else if n == "description"@ { 3 } else if n == "keywords"@ { 4 } else if n == "lastModifiedBy"@ { 5 }
    else if n == "created"@ { 6 } else if n == "modified"@ { 7 } else { -1 }
}

/// The properties in that order.
pub open spec fn core_view(p: CoreProperties) -> Seq<Option<Seq<char>>> {
    seq![
        opt_view(p.title), opt_view(p.creator), opt_view(p.subject), opt_view(p.description),
        opt_view(p.keywords), opt_view(p.last_modified_by), opt_view(p.created), opt_view(p.modified),
    ]
}

/// What one event does, given the properties, the property whose element
/// is open (-1 for none) and the text read in it so far: a start tag opens
/// its property (or none) with no text; character data and references add
/// their text; an end tag sets the open property to the text read, trimmed,
/// if that is not empty, and closes it.
pub open spec fn core_step(v: Seq<Option<Seq<char>>>, cur: int, acc: Seq<char>, ev: ReadEvent) -> (
    Seq<Option<Seq<char>>>,
    int,
    Seq<char>,
) {
    match ev {
        ReadEvent::Start(t) => (v, core_slot(local_part(t.name@)), Seq::empty()),
        ReadEvent::End(_) => (
            if 0 <= cur < 8 && trimmed(acc).len() > 0 { v.update(cur, Some(trimmed(acc))) } else { v },
            -1,
            Seq::empty(),
        ),
        _ => match event_piece(ev) {
            Some(x) => (v, cur, acc + x),
            None => (v, cur, acc),
        },
    }
}

/// The position of a property by name.
fn core_slot_of(n: &str) -> (r: i32)
    ensures
        r == core_slot(n@),
{
    if str_eq(n, "title") { 0 } else if str_eq(n, "creator") { 1 } else if str_eq(n, "subject") { 2 }
    else if str_eq(n, "description") { 3 } else if str_eq(n, "keywords") { 4 }
    else if str_eq(n, "lastModifiedBy") { 5 } else if str_eq(n, "created") { 6 }
    else if str_eq(n, "modified") { 7 } else { -1 }
}

/// Document properties with nothing set.
pub open spec fn core_none() -> CoreProperties {
    CoreProperties {
        title: None,
        creator: None,
        subject: None,
        description: None,
        keywords: None,
        last_modified_by: None,
        created: None,
        modified: None,
    }
}

/// Reading the core properties part `x` (text not trimmed) from call `n`
/// on, in the state `st` (the values, the slot being read, the text
/// gathered for it) and with `f` events left: each event moves the state
/// as `core_step` says; the end of input or the last event allowed ends the
/// reading with the values; an error of the reader fails it.
pub open spec fn core_run(x: Seq<u8>, n: nat, st: (Seq<Option<Seq<char>>>, int, Seq<char>), f: nat) -> Result<
    Seq<Option<Seq<char>>>,
    OxmlError,
>
    decreases f,
{
    if f == 0 {
        Ok(st.0)
    } else {
        match xml_event(x, false, n) {
            Ok(ReadEvent::Eof) => Ok(st.0),
            Ok(ev) => core_run(x, n + 1, core_step(st.0, st.1, st.2, ev), (f - 1) as nat),
            Err(e) => Err(e),
        }
    }
}

impl CoreProperties {
    /// Set the property at position `k`.
    fn set_slot(&mut self, k: i32, v: String)
        requires
            0 <= k < 8,
        ensures
            core_view(*final(self)) == core_view(*old(self)).update(k as int, Some(v@)),
    {
        let s = Some(v);
        if k == 0 { self.title = s; } else if k == 1 { self.creator = s; } else if k == 2 { self.subject = s; }
        else if k == 3 { self.description = s; } else if k == 4 { self.keywords = s; }
        else if k == 5 { self.last_modified_by = s; } else if k == 6 { self.created = s; }
        else { self.modified = s; }
        proof { assert(core_view(*self) =~= core_view(*old(self)).update(k as int, Some(v@))); }
    }

    /// Process one event as `core_step` says.
    pub fn core_event(&mut self, cur: &mut i32, acc: &mut Vec<char>, ev: &ReadEvent)
        ensures
            (core_view(*final(self)), *final(cur) as int, final(acc)@) == core_step(
                core_view(*old(self)),
                *old(cur) as int,
                old(acc)@,
                *ev,
            ),
    {
        match ev {
            ReadEvent::Start(t) => {
                let l = local_name(t.name.as_str());
                *cur = core_slot_of(l.as_str());
                *acc = Vec::new();
            },
            ReadEvent::End(_) => {
                let t = trim_chars(acc.as_slice());
                if 0 <= *cur && *cur < 8 && t.len() > 0 {
                    let k = *cur;
                    self.set_slot(k, string_from_chars(t.as_slice()));
                }
                *cur = -1;
                *acc = Vec::new();
            },
            _ => {
                match event_piece_of(ev) {
                    Some(x) => {
                        let xs = str_chars(x.as_str());
                        crate::chars::append_chars(acc, xs.as_slice());
                    },
                    None => {},
                }
            },
        }
    }

    /// Read `docProps/core.xml`: each event as `core_event` says.
    pub fn from_xml(xml: &[u8]) -> (r: Result<Self, OxmlError>)
        ensures
            match core_run(xml@, 0, (core_view(core_none()), -1, Seq::empty()), budget_for(xml_unread(xml@, false, 0))) {
                Ok(v) => (r matches Ok(p) && core_view(p) == v),
                Err(e) => r == Err::<CoreProperties, OxmlError>(e),
            },
    {
        let mut reader = reader_from_bytes(xml, false);
        let mut props = CoreProperties {
            title: None,
            creator: None,
            subject: None,
            description: None,
            keywords: None,
            last_modified_by: None,
            created: None,
            modified: None,
        };
        let mut cur: i32 = -1;
        let mut acc: Vec<char> = Vec::new();
        let budget = event_budget(unread_len(&reader));
        let ghost goal = core_run(xml@, 0, (core_view(core_none()), -1, Seq::empty()), budget as nat);
        proof { assert(acc@ =~= Seq::<char>::empty()); }
        let mut fuel = budget;
        while fuel > 0
            invariant_except_break
                core_run(xml@, reader.count(), (core_view(props), cur as int, acc@), fuel as nat) == goal,
            invariant
                budget as nat == budget_for(xml_unread(xml@, false, 0)),
                goal == core_run(xml@, 0, (core_view(core_none()), -1, Seq::empty()), budget as nat),
                reader.input() == xml@,
                !reader.trims(),
            ensures
                goal == Ok::<Seq<Option<Seq<char>>>, OxmlError>(core_view(props)),
            decreases fuel,
        {
            let ghost n = reader.count();
            let ghost st = (core_view(props), cur as int, acc@);
            let ghost f1 = fuel as nat;
            fuel = fuel - 1;
            match read_event(&mut reader) {
                Ok(ReadEvent::Eof) => {
                    proof { assert(core_run(xml@, n, st, f1) == Ok::<Seq<Option<Seq<char>>>, OxmlError>(st.0)); }
                    break;
                },
                Ok(ev) => props.core_event(&mut cur, &mut acc, &ev),
                Err(e) => {
                    proof { assert(core_run(xml@, n, st, f1) == Err::<Seq<Option<Seq<char>>>, OxmlError>(e)); }
                    return Err(e);
                },
            }
        }
        Ok(props)
    }

    /// Serialize to `docProps/core.xml`, indented as quick-xml's indenting
    /// writer does.
    pub fn to_xml(&self) -> (r: Result<Vec<u8>, OxmlError>)
        ensures
            r matches Ok(b) && b@ == indented(core_events(*self)),
    {
        let mut evs: Vec<XmlEvent> = Vec::new();
        evs.push(XmlEvent::Decl(to_owned_string("1.0"), Some(to_owned_string("UTF-8")), Some(to_owned_string("yes"))));
        let mut a: Vec<(String, String)> = Vec::new();
        a.push((to_owned_string("xmlns:cp"), to_owned_string("http://schemas.openxmlformats.org/package/2006/metadata/core-properties")));
        a.push((to_owned_string("xmlns:dc"), to_owned_string("http://purl.org/dc/elements/1.1/")));
        a.push((to_owned_string("xmlns:dcterms"), to_owned_string("http://purl.org/dc/terms/")));
        a.push((to_owned_string("xmlns:dcmitype"), to_owned_string("http://purl.org/dc/dcmitype/")));
        a.push((to_owned_string("xmlns:xsi"), to_owned_string("http://www.w3.org/2001/XMLSchema-instance")));
        proof { assert(crate::xml::attr_views(a@) =~= core_root_attrs()); }
        evs.push(XmlEvent::Start(to_owned_string("cp:coreProperties"), a));
        proof { assert(ev_views(evs@) =~= seq![std_decl(), XmlEventView::Start("cp:coreProperties"@, core_root_attrs())]); }
        push_text_el(&mut evs, "dc:title", false, &self.title);
        push_text_el(&mut evs, "dc:subject", false, &self.subject);
        push_text_el(&mut evs, "dc:creator", false, &self.creator);
        push_text_el(&mut evs, "cp:keywords", false, &self.keywords);
        push_text_el(&mut evs, "dc:description", false, &self.description);
        push_text_el(&mut evs, "cp:lastModifiedBy", false, &self.last_modified_by);
        push_text_el(&mut evs, "dcterms:created", true, &self.created);
        push_text_el(&mut evs, "dcterms:modified", true, &self.modified);
        let ghost e0 = ev_views(evs@);
        evs.push(XmlEvent::End(to_owned_string("cp:coreProperties")));
        proof {
            assert(ev_views(evs@) =~= e0.push(XmlEventView::End("cp:coreProperties"@)));
            assert(ev_views(evs@) =~= core_events(*self));
        }
        Ok(write_indented(&evs))
    }
}

} // verus!
