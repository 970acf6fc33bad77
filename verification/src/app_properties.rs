//! Extended (application) properties (`docProps/app.xml`).

use vstd::prelude::*;

use crate::chars::{decimal, parse_u32, parse_u32_str, push_str, str_chars, str_eq, string_from_chars, to_owned_string, trim_chars, trimmed, u32_string};
use crate::core_properties::{event_piece, event_piece_of};
use crate::error::OxmlError;
use crate::opc::std_decl;
use crate::xml::{
    attr_views, element, emit, emit_element, emit_end, emit_start_attrs, emit_text, end_tag, push_attr,
    start_tag_attrs, text_bytes, view_bytes, XmlEvent,
};
use crate::xml_read::{local_name, local_part, opt_view, read_event, reader_from_bytes, unread_len, event_budget, ReadEvent};
use crate::xml_read::{budget_for, xml_event, xml_unread};
use crate::properties_read::ReadOutcome;

verus! {

/// Extended document properties.
#[derive(Debug, Clone, Default, PartialEq)]
pub struct AppProperties {
    pub application: Option<String>,
    pub app_version: Option<String>,
    pub company: Option<String>,
    pub template: Option<String>,
    pub pages: Option<u32>,
    pub words: Option<u32>,
    pub characters: Option<u32>,
}

impl AppProperties {
    /// Whether no property is set.
    pub fn is_empty(&self) -> (r: bool)
        ensures
            r == (self.application is None && self.app_version is None && self.company is None
                && self.template is None && self.pages is None && self.words is None
                && self.characters is None),
    {
        self.application.is_none() && self.app_version.is_none() && self.company.is_none()
            && self.template.is_none() && self.pages.is_none() && self.words.is_none()
            && self.characters.is_none()
    }
}


/// The namespace of the extended properties part.
pub const APP_NS: &'static str = "http://schemas.openxmlformats.org/officeDocument/2006/extended-properties";

/// An element holding a text, if set.
pub open spec fn app_text_el(tag: Seq<char>, v: Option<String>) -> Seq<u8> {
    match v {
        Some(s) => element(tag, text_bytes(s@)),
        None => Seq::empty(),
    }
}

/// An element holding a number, if set.
pub open spec fn app_num_el(tag: Seq<char>, v: Option<u32>) -> Seq<u8> {
    match v {
        Some(n) => element(tag, text_bytes(decimal(n as nat))),
        None => Seq::empty(),
    }
}

/// The extended properties part: the declaration, the root with its
/// namespace, then template, application, pages, words, characters,
/// company and application version, each if set.
pub open spec fn app_xml(p: AppProperties) -> Seq<u8> {
    view_bytes(std_decl()) + start_tag_attrs("Properties"@, seq![("xmlns"@, APP_NS@)]) + app_text_el(
        "Template"@,
        p.template,
    ) + app_text_el("Application"@, p.application) + app_num_el("Pages"@, p.pages) + app_num_el("Words"@, p.words)
        + app_num_el("Characters"@, p.characters) + app_text_el("Company"@, p.company) + app_text_el(
        "AppVersion"@,
        p.app_version,
    ) + end_tag("Properties"@)
}

/// The text properties: application, version, company, template.
pub open spec fn app_texts(p: AppProperties) -> Seq<Option<Seq<char>>> {
    seq![opt_view(p.application), opt_view(p.app_version), opt_view(p.company), opt_view(p.template)]
}

/// The position of a text property by its element name; -1 for others.
pub open spec fn app_text_slot(tag: Seq<char>) -> int {
    if tag == "Application"@ { 0 } else if tag == "AppVersion"@ { 1 } else if tag == "Company"@ { 2 }
    else if tag == "Template"@ { 3 } else { -1 }
}

/// What a piece of text read inside the element `tag` does: a text
/// property gets the piece appended (starting from empty); a number
/// property is read from the piece, trimmed (none where it is not a
/// number); other elements change nothing.
pub open spec fn app_value_added(o: AppProperties, n: AppProperties, tag: Seq<char>, value: Seq<char>) -> bool {
    let k = app_text_slot(tag);
    if k >= 0 {
        let old_text = match app_texts(o)[k] {
            Some(t) => t,
            None => Seq::empty(),
        };
        app_texts(n) == app_texts(o).update(k, Some(old_text + value)) && n.pages == o.pages && n.words == o.words
            && n.characters == o.characters
    } else {
        &&& app_texts(n) == app_texts(o)
        &&& n.pages == (if tag == "Pages"@ { parse_u32(trimmed(value)) } else { o.pages })
        &&& n.words == (if tag == "Words"@ { parse_u32(trimmed(value)) } else { o.words })
        &&& n.characters == (if tag == "Characters"@ { parse_u32(trimmed(value)) } else { o.characters })
    }
}

/// Append `value` to a text property.
fn append_text(field: &mut Option<String>, value: &str)
    ensures
        opt_view(*final(field)) == Some(match opt_view(*old(field)) {
            Some(t) => t,
            None => Seq::empty(),
        } + value@),
{
    let mut s = match field {
        Some(t) => t.clone(),
        None => String::new(),
    };
    push_str(&mut s, value);
    *field = Some(s);
}

/// A number read from a piece of text, trimmed.
fn parse_trimmed(value: &str) -> (r: Option<u32>)
    ensures
        r == parse_u32(trimmed(value@)),
{
    let t = trim_chars(str_chars(value).as_slice());
    let s = string_from_chars(t.as_slice());
    parse_u32_str(s.as_str())
}

/// The position of a text property by its element name.
fn app_text_slot_of(tag: &str) -> (r: i32)
    ensures
        r == app_text_slot(tag@),
{
    if str_eq(tag, "Application") { 0 } else if str_eq(tag, "AppVersion") { 1 }
    else if str_eq(tag, "Company") { 2 } else if str_eq(tag, "Template") { 3 } else { -1 }
}

/// Add a piece of text read inside the element `tag`.
pub fn append_value(p: &mut AppProperties, tag: &str, value: &str)
    ensures
        app_value_added(*old(p), *final(p), tag@, value@),
{
    let k = app_text_slot_of(tag);
    if k == 0 {
        append_text(&mut p.application, value);
    } else if k == 1 {
        append_text(&mut p.app_version, value);
    } else if k == 2 {
        append_text(&mut p.company, value);
    } else if k == 3 {
        append_text(&mut p.template, value);
    } else if str_eq(tag, "Pages") {
        p.pages = parse_trimmed(value);
    } else if str_eq(tag, "Words") {
        p.words = parse_trimmed(value);
    } else if str_eq(tag, "Characters") {
        p.characters = parse_trimmed(value);
    }
    proof {
        if k < 0 {
            reveal_strlit("Pages");
            reveal_strlit("Words");
            reveal_strlit("Characters");
            assert("Pages"@[0] != "Words"@[0]);
            assert("Pages"@.len() != "Characters"@.len());
            assert("Words"@.len() != "Characters"@.len());
            assert(app_texts(*p) =~= app_texts(*old(p)));
        } else {
            assert(app_texts(*p) =~= app_texts(*old(p)).update(k as int, Some(match app_texts(*old(p))[k as int] {
                Some(t) => t,
                None => Seq::empty(),
            } + value@)));
        }
    }
}

/// Append an optional text element.
fn write_text_el(out: &mut Vec<u8>, tag: &str, v: &Option<String>)
    ensures
        final(out)@ == old(out)@ + app_text_el(tag@, *v),
{
    match v {
        Some(s) => {
            let mut b: Vec<u8> = Vec::new();
            emit_text(&mut b, s.as_str());
            emit_element(out, tag, &b);
        },
        None => {
            proof { assert(out@ =~= old(out)@ + app_text_el(tag@, *v)); }
        },
    }
}

/// Append an optional number element.
fn write_num_el(out: &mut Vec<u8>, tag: &str, v: Option<u32>)
    ensures
        final(out)@ == old(out)@ + app_num_el(tag@, v),
{
    match v {
        Some(n) => {
            let t = u32_string(n);
            let mut b: Vec<u8> = Vec::new();
            emit_text(&mut b, t.as_str());
            emit_element(out, tag, &b);
        },
        None => {
            proof { assert(out@ =~= old(out)@ + app_num_el(tag@, v)); }
        },
    }
}

/// Document statistics with nothing set.
pub open spec fn app_none() -> AppProperties {
    AppProperties {
        application: None,
        app_version: None,
        company: None,
        template: None,
        pages: None,
        words: None,
        characters: None,
    }
}

/// Reading the application properties part `x` (text not trimmed) from
/// call `n` on, with the values `o` read so far, the local name `tag` of
/// the element last opened (none after an end tag) and `f` events left,
/// ends in `res`: the text and entity references inside an element are
/// added to the value its name stands for, as `append_value` adds them
/// (an empty text adds nothing); the end of input or the last event allowed
/// ends the reading, and an error of the reader fails it.
pub open spec fn app_run(
    x: Seq<u8>,
    n: nat,
    o: AppProperties,
    tag: Option<Seq<char>>,
    f: nat,
    res: ReadOutcome<AppProperties>,
) -> bool
    decreases f,
{
    if f == 0 {
        res == (Ok::<AppProperties, OxmlError>(o), n, 0nat)
    } else {
        let g = (f - 1) as nat;
        match xml_event(x, false, n) {
            Ok(ReadEvent::Start(t)) => app_run(x, n + 1, o, Some(local_part(t.name@)), g, res),
            Ok(ReadEvent::End(_)) => app_run(x, n + 1, o, None, g, res),
            Ok(ReadEvent::Eof) => res == (Ok::<AppProperties, OxmlError>(o), n + 1, g),
            Ok(ev) => match (tag, event_piece(ev)) {
                (Some(tg), Some(v)) => if !(ev is Text) || v.len() > 0 {
                    exists|m: AppProperties| #[trigger] app_value_added(o, m, tg, v) && app_run(x, n + 1, m, tag, g, res)
                } else {
                    app_run(x, n + 1, o, tag, g, res)
                },
                _ => app_run(x, n + 1, o, tag, g, res),
            },
            Err(e) => res == (Err::<AppProperties, OxmlError>(e), n + 1, g),
        }
    }
}

/// One step of `app_run` over a piece of text added to a value.
proof fn lemma_app_add(x: Seq<u8>, n: nat, o: AppProperties, m: AppProperties, tag: Option<Seq<char>>, ev: ReadEvent, f: nat, res: ReadOutcome<AppProperties>)
    requires
        f > 0,
        xml_event(x, false, n) == Ok::<ReadEvent, OxmlError>(ev),
        !(ev is Start) && !(ev is End) && !(ev is Eof),
        tag matches Some(tg) && event_piece(ev) matches Some(v) && (!(ev is Text) || v.len() > 0) && app_value_added(o, m, tg, v),
        app_run(x, n + 1, m, tag, (f - 1) as nat, res),
    ensures
        app_run(x, n, o, tag, f, res),
{
    match (tag, event_piece(ev)) {
        (Some(tg), Some(v)) => {
            assert(app_value_added(o, m, tg, v));
        },
        _ => {},
    }
}

impl AppProperties {
    /// Read `docProps/app.xml` (whitespace kept): each piece of text or
    /// reference inside an element is added as `append_value` says, under
    /// the local name of the last start tag; an end tag closes it.
    pub fn from_xml(xml: &[u8]) -> (r: Result<Self, OxmlError>)
        ensures
            exists|c: nat, f: nat|
                #[trigger] app_run(xml@, 0, app_none(), None, budget_for(xml_unread(xml@, false, 0)), (r, c, f)),
    {
        let mut reader = reader_from_bytes(xml, false);
        let mut p = AppProperties {
            application: None,
            app_version: None,
            company: None,
            template: None,
            pages: None,
            words: None,
            characters: None,
        };
        let mut tag: Option<String> = None;
        let budget = event_budget(unread_len(&reader));
        let mut fuel = budget;
        proof { reveal_strlit(""); }
        while fuel > 0
            invariant
                fuel <= budget,
                budget as nat == budget_for(xml_unread(xml@, false, 0)),
                reader.input() == xml@,
                !reader.trims(),
                ""@ == Seq::<char>::empty(),
                forall|res: ReadOutcome<AppProperties>|
                    #[trigger] app_run(xml@, reader.count(), p, opt_view(tag), fuel as nat, res) ==> app_run(
                        xml@,
                        0,
                        app_none(),
                        None,
                        budget as nat,
                        res,
                    ),
            decreases fuel,
        {
            let ghost n = reader.count();
            let ghost o = p;
            let ghost tg = opt_view(tag);
            let ghost f1 = fuel as nat;
            fuel = fuel - 1;
            let evr = read_event(&mut reader);
            match evr {
                Ok(ReadEvent::Start(t)) => {
                    tag = Some(local_name(t.name.as_str()));
                    proof {
                        assert forall|res: ReadOutcome<AppProperties>|
                            #[trigger] app_run(xml@, reader.count(), p, opt_view(tag), fuel as nat, res) implies app_run(
                            xml@, n, o, tg, f1, res) by {}
                    }
                },
                Ok(ReadEvent::End(_)) => {
                    tag = None;
                    proof {
                        assert forall|res: ReadOutcome<AppProperties>|
                            #[trigger] app_run(xml@, reader.count(), p, opt_view(tag), fuel as nat, res) implies app_run(
                            xml@, n, o, tg, f1, res) by {}
                    }
                },
                Ok(ReadEvent::Eof) => {
                    proof {
                        let res = (Ok::<AppProperties, OxmlError>(p), reader.count(), fuel as nat);
                        assert(app_run(xml@, n, o, tg, f1, res));
                        assert(app_run(xml@, 0, app_none(), None, budget as nat, res));
                    }
                    return Ok(p);
                },
                Ok(ev) => {
                    let ghost gv = ev;
                    match (&tag, event_piece_of(&ev)) {
                        (Some(t), Some(v)) => {
                            let is_text = match ev {
                                ReadEvent::Text(_) => true,
                                _ => false,
                            };
                            if !is_text || !str_eq(v.as_str(), "") {
                                proof {
                                    if is_text && v@.len() == 0 {
                                        assert(v@ =~= ""@);
                                    }
                                }
                                append_value(&mut p, t.as_str(), v.as_str());
                                proof {
                                    assert forall|res: ReadOutcome<AppProperties>|
                                        #[trigger] app_run(xml@, reader.count(), p, opt_view(tag), fuel as nat, res) implies app_run(
                                        xml@, n, o, tg, f1, res) by {
                                        lemma_app_add(xml@, n, o, p, tg, gv, f1, res);
                                    }
                                }
                            } else {
                                proof {
                                    assert forall|res: ReadOutcome<AppProperties>|
                                        #[trigger] app_run(xml@, reader.count(), p, opt_view(tag), fuel as nat, res) implies app_run(
                                        xml@, n, o, tg, f1, res) by {}
                                }
                            }
                        },
                        _ => {
                            proof {
                                assert forall|res: ReadOutcome<AppProperties>|
                                    #[trigger] app_run(xml@, reader.count(), p, opt_view(tag), fuel as nat, res) implies app_run(
                                    xml@, n, o, tg, f1, res) by {}
                            }
                        },
                    }
                },
                Err(e) => {
                    proof {
                        let res = (Err::<AppProperties, OxmlError>(e), reader.count(), fuel as nat);
                        assert(app_run(xml@, n, o, tg, f1, res));
                        assert(app_run(xml@, 0, app_none(), None, budget as nat, res));
                    }
                    return Err(e);
                },
            }
        }
        proof {
            let res = (Ok::<AppProperties, OxmlError>(p), reader.count(), 0nat);
            assert(app_run(xml@, reader.count(), p, opt_view(tag), 0nat, res));
            assert(app_run(xml@, 0, app_none(), None, budget as nat, res));
        }
        Ok(p)
    }

    /// Serialize to `docProps/app.xml`.
    pub fn to_xml(&self) -> (r: Result<Vec<u8>, OxmlError>)
        ensures
            r matches Ok(b) && b@ == app_xml(*self),
    {
        let mut out: Vec<u8> = Vec::new();
        emit(
            &mut out,
            XmlEvent::Decl(to_owned_string("1.0"), Some(to_owned_string("UTF-8")), Some(to_owned_string("yes"))),
        );
        let mut a: Vec<(String, String)> = Vec::new();
        push_attr(&mut a, "xmlns", to_owned_string(APP_NS));
        proof { assert(attr_views(a@) =~= seq![("xmlns"@, APP_NS@)]); }
        emit_start_attrs(&mut out, "Properties", a);
        write_text_el(&mut out, "Template", &self.template);
        write_text_el(&mut out, "Application", &self.application);
        write_num_el(&mut out, "Pages", self.pages);
        write_num_el(&mut out, "Words", self.words);
        write_num_el(&mut out, "Characters", self.characters);
        write_text_el(&mut out, "Company", &self.company);
        write_text_el(&mut out, "AppVersion", &self.app_version);
        emit_end(&mut out, "Properties");
        proof { assert(out@ =~= app_xml(*self)); }
        Ok(out)
    }
}

} // verus!
