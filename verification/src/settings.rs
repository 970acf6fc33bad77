//! Document settings (`word/settings.xml`).

use vstd::prelude::*;

use crate::chars::{decimal, i32_string, parse_i32, parse_i32_str, parse_u32, parse_u32_str, signed_decimal, to_owned_string, u32_string};
use crate::error::OxmlError;
use crate::namespace::W_NS;
use crate::opc::std_decl;
use crate::units::Twips;
use crate::xml::{
    attr_views, emit, emit_empty, emit_empty_attr, emit_empty_attrs, emit_end, emit_start_attrs, empty_tag,
    empty_tag_attr, empty_tag_attrs, end_tag, opt_attr, push_attr, push_opt_attr, raw_concat, start_tag_attrs,
    view_bytes, write_raws, XmlEvent,
};
use crate::properties_read::{flat_cap_run, lemma_flat_cap_empty, lemma_flat_cap_start, captured, ReadOutcome};
use crate::xml_read::{budget_for, empty_raw, xml_unread};
use crate::xml_read::{
    capture_element, capture_empty_element, event_budget, first_attr, get_attr, local_is, name_is, opt_view,
    read_event, reader_from_bytes, unread_len, ReadEvent, Tag,
};

verus! {

/// Theme font languages (`w:themeFontLang`).
#[derive(Debug, Clone, Default, PartialEq)]
pub struct ThemeFontLang {
    pub val: Option<String>,
    pub east_asia: Option<String>,
    pub bidi: Option<String>,
}

/// `CT_Settings` — the document settings this library models.
#[derive(Debug, Clone, Default, PartialEq)]
pub struct CT_Settings {
    /// Ask the application to update fields when the document opens.
    pub update_fields: bool,
    /// Different headers/footers for even and odd pages.
    pub even_odd_headers: bool,
    pub auto_hyphenation: bool,
    /// Document protection kind, if any.
    pub protection: Option<String>,
    pub default_tab_stop: Option<Twips>,
    pub mirror_margins: bool,
    pub track_changes: bool,
    pub zoom_percent: Option<u32>,
    pub theme_font_lang: Option<ThemeFontLang>,
    /// Unknown settings elements preserved verbatim.
    pub extra_xml: Vec<Vec<u8>>,
}

impl CT_Settings {
    /// Whether nothing is set (no settings part needs writing).
    pub fn is_empty(&self) -> (r: bool)
        ensures
            r == (!self.update_fields && !self.even_odd_headers && !self.auto_hyphenation
                && self.protection is None && self.default_tab_stop is None && !self.mirror_margins
                && !self.track_changes && self.zoom_percent is None && self.theme_font_lang is None
                && self.extra_xml@.len() == 0),
    {
        !self.update_fields && !self.even_odd_headers && !self.auto_hyphenation
            && self.protection.is_none() && self.default_tab_stop.is_none() && !self.mirror_margins
            && !self.track_changes && self.zoom_percent.is_none() && self.theme_font_lang.is_none()
            && self.extra_xml.len() == 0
    }
}


/// The settings part as written: the declaration, the root with the main
/// namespace, then zoom, mirrored margins, change tracking, protection
/// (enforced), default tab stop, automatic hyphenation, theme languages,
/// even and odd headers, field update, the elements kept verbatim, and the
/// root's end.
pub open spec fn settings_xml(s: CT_Settings) -> Seq<u8> {
    view_bytes(std_decl()) + start_tag_attrs("w:settings"@, seq![("xmlns:w"@, W_NS@)]) + (match s.zoom_percent {
        Some(z) => empty_tag_attr("w:zoom"@, "w:percent"@, decimal(z as nat)),
        None => Seq::empty(),
    }) + (if s.mirror_margins { empty_tag("w:mirrorMargins"@) } else { Seq::empty() }) + (if s.track_changes {
        empty_tag("w:trackChanges"@)
    } else {
        Seq::empty()
    }) + (match s.protection {
        Some(e) => empty_tag_attrs("w:documentProtection"@, seq![("w:edit"@, e@), ("w:enforcement"@, "1"@)]),
        None => Seq::empty(),
    }) + (match s.default_tab_stop {
        Some(t) => empty_tag_attr("w:defaultTabStop"@, "w:val"@, signed_decimal(t.0 as int)),
        None => Seq::empty(),
    }) + (if s.auto_hyphenation {
        empty_tag_attr("w:autoHyphenation"@, "w:val"@, "true"@)
    } else {
        Seq::empty()
    }) + (match s.theme_font_lang {
        Some(l) => empty_tag_attrs(
            "w:themeFontLang"@,
            opt_attr("w:val"@, l.val) + opt_attr("w:eastAsia"@, l.east_asia) + opt_attr("w:bidi"@, l.bidi),
        ),
        None => Seq::empty(),
    }) + (if s.even_odd_headers { empty_tag("w:evenAndOddHeaders"@) } else { Seq::empty() }) + (if s.update_fields {
        empty_tag_attr("w:updateFields"@, "w:val"@, "true"@)
    } else {
        Seq::empty()
    }) + raw_concat(s.extra_xml@) + end_tag("w:settings"@)
}

/// Whether a tag is one of the settings this library models.
pub open spec fn known_setting(t: Tag) -> bool {
    let n = t.name@;
    local_is(n, "updateFields"@) || local_is(n, "evenAndOddHeaders"@) || local_is(n, "autoHyphenation"@)
        || local_is(n, "mirrorMargins"@) || local_is(n, "trackChanges"@) || local_is(n, "documentProtection"@)
        || local_is(n, "defaultTabStop"@) || local_is(n, "zoom"@) || local_is(n, "themeFontLang"@)
}

/// A number attribute read as a signed number, if it is one.
pub open spec fn attr_parse_i32(t: Tag, local: Seq<char>) -> Option<i32> {
    match first_attr(t.attrs@, local) {
        Some(v) => parse_i32(v),
        None => None,
    }
}

/// A number attribute read as an unsigned number, if it is one.
pub open spec fn attr_parse_u32(t: Tag, local: Seq<char>) -> Option<u32> {
    match first_attr(t.attrs@, local) {
        Some(v) => parse_u32(v),
        None => None,
    }
}

/// What a known setting does to the settings `o`, giving `n`: a flag
/// element sets its flag (its value is not read); protection takes `edit`,
/// the tab stop `val`, zoom `percent` (a number that cannot be read gives
/// none), the theme languages `val`, `eastAsia` and `bidi` (attributes by
/// local name, the first of each).
pub open spec fn setting_applied(o: CT_Settings, n: CT_Settings, t: Tag) -> bool {
    let nm = t.name@;
    if local_is(nm, "updateFields"@) {
        n == CT_Settings { update_fields: true, ..o }
    } else if local_is(nm, "evenAndOddHeaders"@) {
        n == CT_Settings { even_odd_headers: true, ..o }
    } else if local_is(nm, "autoHyphenation"@) {
        n == CT_Settings { auto_hyphenation: true, ..o }
    } else if local_is(nm, "mirrorMargins"@) {
        n == CT_Settings { mirror_margins: true, ..o }
    } else if local_is(nm, "trackChanges"@) {
        n == CT_Settings { track_changes: true, ..o }
    } else if local_is(nm, "documentProtection"@) {
        opt_view(n.protection) == first_attr(t.attrs@, "edit"@) && n == CT_Settings { protection: n.protection, ..o }
    } else if local_is(nm, "defaultTabStop"@) {
        n == CT_Settings {
            default_tab_stop: match attr_parse_i32(t, "val"@) {
                Some(v) => Some(Twips(v)),
                None => None,
            },
            ..o
        }
    } else if local_is(nm, "zoom"@) {
        n == CT_Settings { zoom_percent: attr_parse_u32(t, "percent"@), ..o }
    } else {
        &&& n.theme_font_lang matches Some(l) && opt_view(l.val) == first_attr(t.attrs@, "val"@) && opt_view(
            l.east_asia,
        ) == first_attr(t.attrs@, "eastAsia"@) && opt_view(l.bidi) == first_attr(t.attrs@, "bidi"@)
        &&& n == CT_Settings { theme_font_lang: n.theme_font_lang, ..o }
    }
}

/// Settings with nothing set and no element kept.
pub open spec fn settings_blank(o: CT_Settings) -> bool {
    &&& !o.update_fields && !o.even_odd_headers && !o.auto_hyphenation
    &&& o.protection is None && o.default_tab_stop is None
    &&& !o.mirror_margins && !o.track_changes
    &&& o.zoom_percent is None && o.theme_font_lang is None
    &&& o.extra_xml@.len() == 0
}

/// The settings part is read to its end: no end tag stops it.
pub open spec fn settings_end() -> spec_fn(Seq<char>) -> bool {
    |m: Seq<char>| false
}

/// Reading settings never fails on an empty element.
pub open spec fn settings_fails() -> spec_fn(CT_Settings, Tag) -> bool {
    |o: CT_Settings, t: Tag| false
}

/// `m` is `o` with one more element kept verbatim.
pub open spec fn settings_keep(o: CT_Settings, m: CT_Settings, b: Seq<u8>) -> bool {
    &&& m == (CT_Settings { extra_xml: m.extra_xml, ..o })
    &&& m.extra_xml@.len() == o.extra_xml@.len() + 1
    &&& m.extra_xml@.drop_last() == o.extra_xml@
    &&& m.extra_xml@.last()@ == b
}

/// What an empty element does to the settings: the root changes nothing, a
/// known setting is applied, any other element is kept verbatim.
pub open spec fn settings_step() -> spec_fn(CT_Settings, CT_Settings, Tag) -> bool {
    |o: CT_Settings, m: CT_Settings, t: Tag|
        if local_is(t.name@, "settings"@) {
            m == o
        } else if known_setting(t) {
            setting_applied(o, m, t)
        } else {
            settings_keep(o, m, empty_raw(t))
        }
}

/// What a start tag does to the settings: the root changes nothing, a known
/// setting is applied (its inside is then read as further events), and
/// any other element is kept verbatim, whole.
pub open spec fn settings_start(x: Seq<u8>, tr: bool) -> spec_fn(CT_Settings, Tag, nat, Result<CT_Settings, OxmlError>, nat) -> bool {
    |o: CT_Settings, t: Tag, p: nat, m: Result<CT_Settings, OxmlError>, q: nat|
        if local_is(t.name@, "settings"@) {
            m == Ok::<CT_Settings, OxmlError>(o) && q == p
        } else if known_setting(t) {
            q == p && (m matches Ok(s2) && setting_applied(o, s2, t))
        } else {
            let c = captured(x, tr, p, t);
            q == c.1 && match c.0 {
                Ok(b) => (m matches Ok(s2) && settings_keep(o, s2, b)),
                Err(e) => m == Err::<CT_Settings, OxmlError>(e),
            }
        }
}

/// Reading the settings part `x` (trimming text), from the blank settings
/// `o` and with `f` events allowed, ends in `res`.
pub open spec fn settings_run(x: Seq<u8>, o: CT_Settings, f: nat, res: ReadOutcome<CT_Settings>) -> bool {
    flat_cap_run(x, true, 0, settings_end(), settings_fails(), settings_step(), settings_start(x, true), o, f, res)
}

impl CT_Settings {
    /// Apply a known setting element; whether it was one (otherwise
    /// nothing changes).
    pub fn apply_known(&mut self, t: &Tag) -> (r: bool)
        ensures
            r == known_setting(*t),
            r ==> setting_applied(*old(self), *final(self), *t),
            !r ==> *final(self) == *old(self),
    {
        let nm = t.name.as_str();
        if name_is(nm, "updateFields") {
            self.update_fields = true;
        } else if name_is(nm, "evenAndOddHeaders") {
            self.even_odd_headers = true;
        } else if name_is(nm, "autoHyphenation") {
            self.auto_hyphenation = true;
        } else if name_is(nm, "mirrorMargins") {
            self.mirror_margins = true;
        } else if name_is(nm, "trackChanges") {
            self.track_changes = true;
        } else if name_is(nm, "documentProtection") {
            self.protection = get_attr(&t.attrs, "edit");
        } else if name_is(nm, "defaultTabStop") {
            self.default_tab_stop = match get_attr(&t.attrs, "val") {
                Some(v) => match parse_i32_str(v.as_str()) {
                    Some(x) => Some(Twips(x)),
                    None => None,
                },
                None => None,
            };
        } else if name_is(nm, "zoom") {
            self.zoom_percent = match get_attr(&t.attrs, "percent") {
                Some(v) => parse_u32_str(v.as_str()),
                None => None,
            };
        } else if name_is(nm, "themeFontLang") {
            self.theme_font_lang = Some(ThemeFontLang {
                val: get_attr(&t.attrs, "val"),
                east_asia: get_attr(&t.attrs, "eastAsia"),
                bidi: get_attr(&t.attrs, "bidi"),
            });
        } else {
            return false;
        }
        true
    }

    /// Read a settings part: each known setting as `apply_known` says; any
    /// other element (but the root) kept verbatim.
    pub fn from_xml(xml: &[u8]) -> (r: Result<Self, OxmlError>)
        ensures
            exists|o: CT_Settings, c: nat, f: nat|
                settings_blank(o) && #[trigger] settings_run(xml@, o, budget_for(xml_unread(xml@, true, 0)), (r, c, f)),
    {
        let mut reader = reader_from_bytes(xml, true);
        let mut s = CT_Settings {
            update_fields: false,
            even_odd_headers: false,
            auto_hyphenation: false,
            protection: None,
            default_tab_stop: None,
            mirror_margins: false,
            track_changes: false,
            zoom_percent: None,
            theme_font_lang: None,
            extra_xml: Vec::new(),
        };
        let ghost o0 = s;
        let budget = event_budget(unread_len(&reader));
        let mut fuel = budget;
        while fuel > 0
            invariant
                fuel <= budget,
                budget as nat == budget_for(xml_unread(xml@, true, 0)),
                reader.input() == xml@,
                reader.trims(),
                settings_blank(o0),
                forall|res: ReadOutcome<CT_Settings>|
                    #[trigger] flat_cap_run(xml@, true, reader.count(), settings_end(), settings_fails(), settings_step(), settings_start(xml@, true), s, fuel as nat, res)
                        ==> settings_run(xml@, o0, budget as nat, res),
            decreases fuel,
        {
            let ghost n = reader.count();
            let ghost o = s;
            let ghost f1 = fuel as nat;
            fuel = fuel - 1;
            match read_event(&mut reader) {
                Ok(ReadEvent::Start(t)) => {
                    if !name_is(t.name.as_str(), "settings") && !s.apply_known(&t) {
                        let raw = match capture_element(&mut reader, &t) {
                            Ok(b) => b,
                            Err(e) => {
                                proof {
                                    let q = reader.count();
                                    let res = (Err::<CT_Settings, OxmlError>(e), q, fuel as nat);
                                    assert(settings_start(xml@, true)(o, t, n + 1, Err::<CT_Settings, OxmlError>(e), q));
                                    lemma_flat_cap_start(xml@, true, n, settings_end(), settings_fails(), settings_step(), settings_start(xml@, true), o, f1, t, Err::<CT_Settings, OxmlError>(e), q, res);
                            assert(settings_run(xml@, o0, budget as nat, res));
                                }
                                return Err(e);
                            },
                        };
                        let ghost bb = raw@;
                        s.extra_xml.push(raw);
                        proof { assert(s.extra_xml@.drop_last() =~= o.extra_xml@); }
                    }
                        proof {
                            let q = reader.count();
                            assert(settings_start(xml@, true)(o, t, n + 1, Ok::<CT_Settings, OxmlError>(s), q));
                            assert forall|res: ReadOutcome<CT_Settings>|
                                #[trigger] flat_cap_run(xml@, true, reader.count(), settings_end(), settings_fails(), settings_step(), settings_start(xml@, true), s, fuel as nat, res)
                                implies flat_cap_run(xml@, true, n, settings_end(), settings_fails(), settings_step(), settings_start(xml@, true), o, f1, res) by {
                                lemma_flat_cap_start(xml@, true, n, settings_end(), settings_fails(), settings_step(), settings_start(xml@, true), o, f1, t, Ok::<CT_Settings, OxmlError>(s), q, res);
                            }
                        }
                },
                Ok(ReadEvent::Empty(t)) => {
                    if !name_is(t.name.as_str(), "settings") && !s.apply_known(&t) {
                        s.extra_xml.push(capture_empty_element(&t));
                        proof { assert(s.extra_xml@.drop_last() =~= o.extra_xml@); }
                    }
                    proof {
                        assert(settings_step()(o, s, t));
                        assert forall|res: ReadOutcome<CT_Settings>|
                            #[trigger] flat_cap_run(xml@, true, reader.count(), settings_end(), settings_fails(), settings_step(), settings_start(xml@, true), s, fuel as nat, res)
                            implies flat_cap_run(xml@, true, n, settings_end(), settings_fails(), settings_step(), settings_start(xml@, true), o, f1, res) by {
                            lemma_flat_cap_empty(xml@, true, n, settings_end(), settings_fails(), settings_step(), settings_start(xml@, true), o, s, f1, t, res);
                        }
                    }
                },
                Ok(ReadEvent::Eof) => {
                    proof {
                        assert(flat_cap_run(xml@, true, n, settings_end(), settings_fails(), settings_step(), settings_start(xml@, true), o, f1, (Ok::<CT_Settings, OxmlError>(s), reader.count(), fuel as nat)));
                            assert(settings_run(xml@, o0, budget as nat, (Ok::<CT_Settings, OxmlError>(s), reader.count(), fuel as nat)));
                    }
                    return Ok(s);
                },
                Ok(_) => {
                    proof {
                        assert forall|res: ReadOutcome<CT_Settings>|
                            #[trigger] flat_cap_run(xml@, true, reader.count(), settings_end(), settings_fails(), settings_step(), settings_start(xml@, true), s, fuel as nat, res)
                            implies flat_cap_run(xml@, true, n, settings_end(), settings_fails(), settings_step(), settings_start(xml@, true), o, f1, res) by {}
                    }
                },
                Err(e) => {
                    proof {
                        let res = (Err::<CT_Settings, OxmlError>(e), reader.count(), fuel as nat);
                        assert(flat_cap_run(xml@, true, n, settings_end(), settings_fails(), settings_step(), settings_start(xml@, true), o, f1, res));
                            assert(settings_run(xml@, o0, budget as nat, res));
                    }
                    return Err(e);
                },
            }
        }
        proof {
            assert(flat_cap_run(xml@, true, reader.count(), settings_end(), settings_fails(), settings_step(), settings_start(xml@, true), s, 0nat, (Ok::<CT_Settings, OxmlError>(s), reader.count(), 0nat)));
                            assert(settings_run(xml@, o0, budget as nat, (Ok::<CT_Settings, OxmlError>(s), reader.count(), 0nat)));
        }
        Ok(s)
    }

    /// The settings part.
    pub fn to_bytes(&self) -> (r: Result<Vec<u8>, OxmlError>)
        ensures
            r matches Ok(b) && b@ == settings_xml(*self),
    {
        let mut out: Vec<u8> = Vec::new();
        emit(
            &mut out,
            XmlEvent::Decl(to_owned_string("1.0"), Some(to_owned_string("UTF-8")), Some(to_owned_string("yes"))),
        );
        let mut ra: Vec<(String, String)> = Vec::new();
        push_attr(&mut ra, "xmlns:w", to_owned_string(W_NS));
        proof { assert(attr_views(ra@) =~= seq![("xmlns:w"@, W_NS@)]); }
        emit_start_attrs(&mut out, "w:settings", ra);
        let ghost o1 = out@;
        match self.zoom_percent {
            Some(z) => {
                let v = u32_string(z);
                emit_empty_attr(&mut out, "w:zoom", "w:percent", v.as_str());
            },
            None => {},
        }
        if self.mirror_margins {
            emit_empty(&mut out, "w:mirrorMargins");
        }
        if self.track_changes {
            emit_empty(&mut out, "w:trackChanges");
        }
        match &self.protection {
            Some(e) => {
                let mut a: Vec<(String, String)> = Vec::new();
                push_attr(&mut a, "w:edit", e.clone());
                push_attr(&mut a, "w:enforcement", to_owned_string("1"));
                proof { assert(attr_views(a@) =~= seq![("w:edit"@, e@), ("w:enforcement"@, "1"@)]); }
                emit_empty_attrs(&mut out, "w:documentProtection", a);
            },
            None => {},
        }
        match self.default_tab_stop {
            Some(t) => {
                let v = i32_string(t.0);
                emit_empty_attr(&mut out, "w:defaultTabStop", "w:val", v.as_str());
            },
            None => {},
        }
        if self.auto_hyphenation {
            emit_empty_attr(&mut out, "w:autoHyphenation", "w:val", "true");
        }
        match &self.theme_font_lang {
            Some(l) => {
                let mut a: Vec<(String, String)> = Vec::new();
                push_opt_attr(&mut a, "w:val", &l.val);
                push_opt_attr(&mut a, "w:eastAsia", &l.east_asia);
                push_opt_attr(&mut a, "w:bidi", &l.bidi);
                proof {
                    assert(attr_views(a@) =~= opt_attr("w:val"@, l.val) + opt_attr("w:eastAsia"@, l.east_asia)
                        + opt_attr("w:bidi"@, l.bidi));
                }
                emit_empty_attrs(&mut out, "w:themeFontLang", a);
            },
            None => {},
        }
        if self.even_odd_headers {
            emit_empty(&mut out, "w:evenAndOddHeaders");
        }
        if self.update_fields {
            emit_empty_attr(&mut out, "w:updateFields", "w:val", "true");
        }
        write_raws(&mut out, &self.extra_xml);
        emit_end(&mut out, "w:settings");
        proof { assert(out@ =~= settings_xml(*self)); }
        Ok(out)
    }
}

} // verus!
