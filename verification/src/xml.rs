//! XML output: start and end tags, empty elements with attributes, and
//! escaped text, each written by quick-xml's `Writer`.

use vstd::prelude::*;

use quick_xml::events::Event::{Decl, Empty, End, Start, Text};
use quick_xml::events::{BytesDecl, BytesEnd, BytesStart, BytesText};
use quick_xml::Writer;

use crate::chars::{decimal, i32_string, signed_decimal, to_owned_string, u32_string, utf8};

verus! {

/// One XML event to write.
pub enum XmlEvent {
    /// `<name attr="value" ...>`
    Start(String, Vec<(String, String)>),
    /// `</name>`
    End(String),
    /// `<name attr="value" .../>`
    Empty(String, Vec<(String, String)>),
    /// Escaped character data.
    Text(String),
    /// `<?xml version="..." encoding="..." standalone="..."?>`, the last two
    /// where given.
    Decl(String, Option<String>, Option<String>),
}

/// How a character of text content is escaped: `<` `>` `&` `'` `"` and
/// carriage return become references, everything else stays.
pub open spec fn escape_text_char(c: char) -> Seq<char> {
    if c == '<' {
        "&lt;"@
    } else if c == '>' {
        "&gt;"@
    } else if c == '&' {
        "&amp;"@
    } else if c == '\'' {
        "&apos;"@
    } else if c == '"' {
        "&quot;"@
    } else if c == '\r' {
        "&#13;"@
    } else {
        seq![c]
    }
}

/// Escaped text content.
pub open spec fn xml_escape(s: Seq<char>) -> Seq<char>
    decreases s.len(),
{
    if s.len() == 0 {
        Seq::empty()
    } else {
        xml_escape(s.drop_last()) + escape_text_char(s.last())
    }
}

/// How a character of an attribute value is escaped: as in text, and also
/// newline and tab.
pub open spec fn escape_attr_char(c: char) -> Seq<char> {
    if c == '\n' {
        "&#10;"@
    } else if c == '\t' {
        "&#9;"@
    } else {
        escape_text_char(c)
    }
}

/// An escaped attribute value.
pub open spec fn xml_escape_attr(s: Seq<char>) -> Seq<char>
    decreases s.len(),
{
    if s.len() == 0 {
        Seq::empty()
    } else {
        xml_escape_attr(s.drop_last()) + escape_attr_char(s.last())
    }
}

/// ` key="value"`, the value escaped.
pub open spec fn attr_chars(key: Seq<char>, value: Seq<char>) -> Seq<char> {
    seq![' '] + key + seq!['=', '"'] + xml_escape_attr(value) + seq!['"']
}

/// The values of a list of attributes.
pub open spec fn attr_views(a: Seq<(String, String)>) -> Seq<(Seq<char>, Seq<char>)> {
    Seq::new(a.len(), |i: int| (a[i].0@, a[i].1@))
}

/// A list of attributes, each written as `attr_chars`.
pub open spec fn attrs_chars(attrs: Seq<(Seq<char>, Seq<char>)>) -> Seq<char>
    decreases attrs.len(),
{
    if attrs.len() == 0 {
        Seq::empty()
    } else {
        attrs_chars(attrs.drop_last()) + attr_chars(attrs.last().0, attrs.last().1)
    }
}

/// The value of an event: names, attributes and text as character
/// sequences.
pub enum XmlEventView {
    Start(Seq<char>, Seq<(Seq<char>, Seq<char>)>),
    End(Seq<char>),
    Empty(Seq<char>, Seq<(Seq<char>, Seq<char>)>),
    Text(Seq<char>),
    Decl(Seq<char>, Option<Seq<char>>, Option<Seq<char>>),
}

/// The value of an optional string.
pub open spec fn opt_chars(o: Option<String>) -> Option<Seq<char>> {
    match o {
        Some(s) => Some(s@),
        None => None,
    }
}

/// The value of an event.
pub open spec fn ev_view(ev: XmlEvent) -> XmlEventView {
    match ev {
        XmlEvent::Start(n, a) => XmlEventView::Start(n@, attr_views(a@)),
        XmlEvent::End(n) => XmlEventView::End(n@),
        XmlEvent::Empty(n, a) => XmlEventView::Empty(n@, attr_views(a@)),
        XmlEvent::Text(t) => XmlEventView::Text(t@),
        XmlEvent::Decl(v, e, st) => XmlEventView::Decl(v@, opt_chars(e), opt_chars(st)),
    }
}

/// The values of a list of events.
pub open spec fn ev_views(s: Seq<XmlEvent>) -> Seq<XmlEventView> {
    Seq::new(s.len(), |i: int| ev_view(s[i]))
}

/// The bytes of one event's value.
pub open spec fn view_bytes(ev: XmlEventView) -> Seq<u8> {
    match ev {
        XmlEventView::Start(name, attrs) => utf8(seq!['<'] + name + attrs_chars(attrs) + seq!['>']),
        XmlEventView::End(name) => utf8(seq!['<', '/'] + name + seq!['>']),
        XmlEventView::Empty(name, attrs) => utf8(seq!['<'] + name + attrs_chars(attrs) + seq!['/', '>']),
        XmlEventView::Text(t) => utf8(xml_escape(t)),
        XmlEventView::Decl(v, e, st) => utf8(decl_chars(v, e, st)),
    }
}

/// The bytes of one event.
pub open spec fn event_bytes(ev: XmlEvent) -> Seq<u8> {
    view_bytes(ev_view(ev))
}

/// The text of an XML declaration.
pub open spec fn decl_chars(v: Seq<char>, e: Option<Seq<char>>, st: Option<Seq<char>>) -> Seq<char> {
    "<?xml version=\""@ + v + match e {
        Some(x) => "\" encoding=\""@ + x,
        None => Seq::empty(),
    } + match st {
        Some(x) => "\" standalone=\""@ + x,
        None => Seq::empty(),
    } + "\"?>"@
}

/// `<name>`
pub open spec fn start_tag(name: Seq<char>) -> Seq<u8> {
    utf8(seq!['<'] + name + seq!['>'])
}

/// `</name>`
pub open spec fn end_tag(name: Seq<char>) -> Seq<u8> {
    utf8(seq!['<', '/'] + name + seq!['>'])
}

/// `<name key="value">`
pub open spec fn start_tag_attr(name: Seq<char>, key: Seq<char>, value: Seq<char>) -> Seq<u8> {
    utf8(seq!['<'] + name + attr_chars(key, value) + seq!['>'])
}

/// `<name key="value"/>`
pub open spec fn empty_tag_attr(name: Seq<char>, key: Seq<char>, value: Seq<char>) -> Seq<u8> {
    utf8(seq!['<'] + name + attr_chars(key, value) + seq!['/', '>'])
}

/// `<name/>`
pub open spec fn empty_tag(name: Seq<char>) -> Seq<u8> {
    utf8(seq!['<'] + name + seq!['/', '>'])
}

/// `<name a="x" b="y">`
pub open spec fn start_tag_attrs(name: Seq<char>, attrs: Seq<(Seq<char>, Seq<char>)>) -> Seq<u8> {
    utf8(seq!['<'] + name + attrs_chars(attrs) + seq!['>'])
}

/// `<name a="x" b="y"/>`
pub open spec fn empty_tag_attrs(name: Seq<char>, attrs: Seq<(Seq<char>, Seq<char>)>) -> Seq<u8> {
    utf8(seq!['<'] + name + attrs_chars(attrs) + seq!['/', '>'])
}

/// An attribute if the value is there, else none.
pub open spec fn opt_attr(key: Seq<char>, v: Option<String>) -> Seq<(Seq<char>, Seq<char>)> {
    match v {
        Some(s) => seq![(key, s@)],
        None => Seq::empty(),
    }
}

/// An attribute with an unsigned number if it is there, else none.
pub open spec fn opt_u32_attr(key: Seq<char>, v: Option<u32>) -> Seq<(Seq<char>, Seq<char>)> {
    match v {
        Some(n) => seq![(key, decimal(n as nat))],
        None => Seq::empty(),
    }
}

/// An attribute with a signed number if it is there, else none.
pub open spec fn opt_i32_attr(key: Seq<char>, v: Option<i32>) -> Seq<(Seq<char>, Seq<char>)> {
    match v {
        Some(n) => seq![(key, signed_decimal(n as int))],
        None => Seq::empty(),
    }
}

/// An attribute `1` (on) or `0` (off) if it is there, else none.
pub open spec fn opt_flag_attr(key: Seq<char>, v: Option<bool>) -> Seq<(Seq<char>, Seq<char>)> {
    match v {
        Some(b) => seq![(key, if b { "1"@ } else { "0"@ })],
        None => Seq::empty(),
    }
}

/// An element with attributes around a body.
pub open spec fn element_attrs(name: Seq<char>, attrs: Seq<(Seq<char>, Seq<char>)>, body: Seq<u8>) -> Seq<u8> {
    start_tag_attrs(name, attrs) + body + end_tag(name)
}

/// A toggle: `<tag/>` when on, `<tag w:val="false"/>` when off.
pub open spec fn toggle_xml(tag: Seq<char>, on: bool) -> Seq<u8> {
    if on {
        empty_tag(tag)
    } else {
        empty_tag_attr(tag, "w:val"@, "false"@)
    }
}

/// A toggle if it is set, else nothing.
pub open spec fn opt_toggle_xml(tag: Seq<char>, v: Option<bool>) -> Seq<u8> {
    match v {
        Some(b) => toggle_xml(tag, b),
        None => Seq::empty(),
    }
}

/// `<tag w:val="v"/>` if the value is set, else nothing.
pub open spec fn opt_val_xml(tag: Seq<char>, v: Option<String>) -> Seq<u8> {
    match v {
        Some(s) => empty_tag_attr(tag, "w:val"@, s@),
        None => Seq::empty(),
    }
}

/// `<tag w:val="n"/>` for an unsigned number if it is set, else nothing.
pub open spec fn opt_val_u32_xml(tag: Seq<char>, v: Option<u32>) -> Seq<u8> {
    match v {
        Some(n) => empty_tag_attr(tag, "w:val"@, decimal(n as nat)),
        None => Seq::empty(),
    }
}

/// `<tag w:val="n"/>` for a signed number if it is set, else nothing.
pub open spec fn opt_val_i32_xml(tag: Seq<char>, v: Option<i32>) -> Seq<u8> {
    match v {
        Some(n) => empty_tag_attr(tag, "w:val"@, signed_decimal(n as int)),
        None => Seq::empty(),
    }
}

/// Raw byte strings one after another.
pub open spec fn raw_concat(v: Seq<Vec<u8>>) -> Seq<u8>
    decreases v.len(),
{
    if v.len() == 0 {
        Seq::empty()
    } else {
        raw_concat(v.drop_last()) + v.last()@
    }
}

/// Preserved raw elements, if there are any.
pub open spec fn extra_bytes(e: Option<Vec<Vec<u8>>>) -> Seq<u8> {
    match e {
        Some(v) => raw_concat(v@),
        None => Seq::empty(),
    }
}

/// Escaped text.
pub open spec fn text_bytes(t: Seq<char>) -> Seq<u8> {
    utf8(xml_escape(t))
}

/// An element: start tag, body, end tag.
pub open spec fn element(name: Seq<char>, body: Seq<u8>) -> Seq<u8> {
    start_tag(name) + body + end_tag(name)
}

/// The bytes quick-xml's `Writer::write_event` puts on an empty `Vec<u8>`
/// for one event. From quick-xml's source: a start tag is `<`, the name,
/// each attribute pushed by `BytesStart::push_attribute` as a space, the
/// key, `="`, the value escaped (`<` `>` `&` `'` `"` CR LF TAB) and `"`,
/// then `>`; an empty element ends in `/>` instead (no space, the default
/// configuration); an end tag is `</`, the name, `>`; `BytesText::new`
/// escapes `<` `>` `&` `'` `"` CR; a declaration from `BytesDecl::new` is
/// `<?xml version="`, the version, then `" encoding="` and the encoding and
/// `" standalone="` and the flag where given, then `"?>`. Writing to a
/// `Vec<u8>` does not fail.
#[verifier::external_body]
pub(crate) fn write_event_bytes(ev: &XmlEvent) -> (r: Vec<u8>)
    ensures
        r@ == event_bytes(*ev),
{
    let mut w = Writer::new(vec![]);
    let _ = w.write_event(match ev {
        XmlEvent::Start(n, a) => Start(BytesStart::new(n).with_attributes(a.iter().map(|(k, v)| (&**k, &**v)))),
        XmlEvent::End(n) => End(BytesEnd::new(n)),
        XmlEvent::Empty(n, a) => Empty(BytesStart::new(n).with_attributes(a.iter().map(|(k, v)| (&**k, &**v)))),
        XmlEvent::Text(t) => Text(BytesText::new(t)),
        XmlEvent::Decl(v, e, s) => Decl(BytesDecl::new(v, e.as_deref(), s.as_deref())),
    });
    w.into_inner()
}

/// Append one event.
pub fn emit(out: &mut Vec<u8>, ev: XmlEvent)
    ensures
        final(out)@ == old(out)@ + event_bytes(ev),
{
    let mut b = write_event_bytes(&ev);
    out.append(&mut b);
}

/// Append `<name>`.
pub fn emit_start(out: &mut Vec<u8>, name: &str)
    ensures
        final(out)@ == old(out)@ + start_tag(name@),
{
    let ev = XmlEvent::Start(to_owned_string(name), Vec::new());
    proof {
        assert(attr_views(Seq::<(String, String)>::empty()) =~= Seq::<(Seq<char>, Seq<char>)>::empty());
        assert(seq!['<'] + name@ + attrs_chars(Seq::<(Seq<char>, Seq<char>)>::empty()) + seq!['>']
            =~= seq!['<'] + name@ + seq!['>']);
    }
    emit(out, ev);
}

/// Append `</name>`.
pub fn emit_end(out: &mut Vec<u8>, name: &str)
    ensures
        final(out)@ == old(out)@ + end_tag(name@),
{
    emit(out, XmlEvent::End(to_owned_string(name)));
}

/// One attribute is written as itself.
pub proof fn lemma_attrs_one(k: Seq<char>, v: Seq<char>)
    ensures
        attrs_chars(seq![(k, v)]) == attr_chars(k, v),
{
    let a = seq![(k, v)];
    assert(a.drop_last() =~= Seq::<(Seq<char>, Seq<char>)>::empty());
    assert(attrs_chars(a.drop_last()) =~= Seq::<char>::empty());
    assert(Seq::<char>::empty() + attr_chars(k, v) =~= attr_chars(k, v));
}

/// One attribute.
fn one_attr(key: &str, value: &str) -> (r: Vec<(String, String)>)
    ensures
        attr_views(r@) == seq![(key@, value@)],
{
    let r = vec![(to_owned_string(key), to_owned_string(value))];
    proof { assert(attr_views(r@) =~= seq![(key@, value@)]); }
    r
}

/// The attribute list `attrs` with `(key, value)` added at the end.
pub fn push_attr(attrs: &mut Vec<(String, String)>, key: &str, value: String)
    ensures
        attr_views(final(attrs)@) == attr_views(old(attrs)@).push((key@, value@)),
{
    attrs.push((to_owned_string(key), value));
    proof { assert(attr_views(attrs@) =~= attr_views(old(attrs)@).push((key@, value@))); }
}

/// The attribute list `attrs` with `(key, value)` added if the value is
/// there.
pub fn push_opt_attr(attrs: &mut Vec<(String, String)>, key: &str, value: &Option<String>)
    ensures
        attr_views(final(attrs)@) == attr_views(old(attrs)@) + opt_attr(key@, *value),
{
    match value {
        Some(v) => push_attr(attrs, key, v.clone()),
        None => {},
    }
    proof { assert(attr_views(attrs@) =~= attr_views(old(attrs)@) + opt_attr(key@, *value)); }
}

/// Append `<name key="value">`.
pub fn emit_start_attr(out: &mut Vec<u8>, name: &str, key: &str, value: &str)
    ensures
        final(out)@ == old(out)@ + start_tag_attr(name@, key@, value@),
{
    let a = one_attr(key, value);
    proof {
        let v = attr_views(a@);
        lemma_attrs_one(key@, value@);
    }
    emit(out, XmlEvent::Start(to_owned_string(name), a));
}

/// Append `<name key="value"/>`.
pub fn emit_empty_attr(out: &mut Vec<u8>, name: &str, key: &str, value: &str)
    ensures
        final(out)@ == old(out)@ + empty_tag_attr(name@, key@, value@),
{
    let a = one_attr(key, value);
    proof {
        let v = attr_views(a@);
        lemma_attrs_one(key@, value@);
    }
    emit(out, XmlEvent::Empty(to_owned_string(name), a));
}

/// Append `<name/>`.
pub fn emit_empty(out: &mut Vec<u8>, name: &str)
    ensures
        final(out)@ == old(out)@ + empty_tag(name@),
{
    let ev = XmlEvent::Empty(to_owned_string(name), Vec::new());
    proof {
        assert(attr_views(Seq::<(String, String)>::empty()) =~= Seq::<(Seq<char>, Seq<char>)>::empty());
        assert(seq!['<'] + name@ + attrs_chars(Seq::<(Seq<char>, Seq<char>)>::empty()) + seq!['/', '>']
            =~= seq!['<'] + name@ + seq!['/', '>']);
    }
    emit(out, ev);
}

/// Append `<name ...attrs...>`.
pub fn emit_start_attrs(out: &mut Vec<u8>, name: &str, attrs: Vec<(String, String)>)
    ensures
        final(out)@ == old(out)@ + start_tag_attrs(name@, attr_views(attrs@)),
{
    emit(out, XmlEvent::Start(to_owned_string(name), attrs));
}

/// Append `<name ...attrs.../>`.
pub fn emit_empty_attrs(out: &mut Vec<u8>, name: &str, attrs: Vec<(String, String)>)
    ensures
        final(out)@ == old(out)@ + empty_tag_attrs(name@, attr_views(attrs@)),
{
    emit(out, XmlEvent::Empty(to_owned_string(name), attrs));
}

/// Append raw bytes.
pub fn emit_raw(out: &mut Vec<u8>, raw: &Vec<u8>)
    ensures
        final(out)@ == old(out)@ + raw@,
{
    let mut b = raw.clone();
    out.append(&mut b);
}

/// Append escaped text.
pub fn emit_text(out: &mut Vec<u8>, t: &str)
    ensures
        final(out)@ == old(out)@ + text_bytes(t@),
{
    emit(out, XmlEvent::Text(to_owned_string(t)));
}

/// Add an unsigned-number attribute if it is there.
pub fn push_opt_u32_attr(attrs: &mut Vec<(String, String)>, key: &str, v: Option<u32>)
    ensures
        attr_views(final(attrs)@) == attr_views(old(attrs)@) + opt_u32_attr(key@, v),
{
    match v {
        Some(n) => push_attr(attrs, key, u32_string(n)),
        None => {},
    }
    proof { assert(attr_views(attrs@) =~= attr_views(old(attrs)@) + opt_u32_attr(key@, v)); }
}

/// Add a signed-number attribute if it is there.
pub fn push_opt_i32_attr(attrs: &mut Vec<(String, String)>, key: &str, v: Option<i32>)
    ensures
        attr_views(final(attrs)@) == attr_views(old(attrs)@) + opt_i32_attr(key@, v),
{
    match v {
        Some(n) => push_attr(attrs, key, i32_string(n)),
        None => {},
    }
    proof { assert(attr_views(attrs@) =~= attr_views(old(attrs)@) + opt_i32_attr(key@, v)); }
}

/// Add a `1`/`0` attribute if it is there.
pub fn push_opt_flag_attr(attrs: &mut Vec<(String, String)>, key: &str, v: Option<bool>)
    ensures
        attr_views(final(attrs)@) == attr_views(old(attrs)@) + opt_flag_attr(key@, v),
{
    match v {
        Some(b) => push_attr(attrs, key, to_owned_string(if b { "1" } else { "0" })),
        None => {},
    }
    proof { assert(attr_views(attrs@) =~= attr_views(old(attrs)@) + opt_flag_attr(key@, v)); }
}

/// Append an element around `body`.
pub fn emit_element(out: &mut Vec<u8>, name: &str, body: &Vec<u8>)
    ensures
        final(out)@ == old(out)@ + element(name@, body@),
{
    let ghost o = out@;
    emit_start(out, name);
    emit_raw(out, body);
    emit_end(out, name);
    proof { assert(out@ =~= o + element(name@, body@)); }
}

/// Append an element with attributes around `body`.
pub fn emit_element_attrs(out: &mut Vec<u8>, name: &str, attrs: Vec<(String, String)>, body: &Vec<u8>)
    ensures
        final(out)@ == old(out)@ + element_attrs(name@, attr_views(attrs@), body@),
{
    let ghost o = out@;
    let ghost a = attr_views(attrs@);
    emit_start_attrs(out, name, attrs);
    emit_raw(out, body);
    emit_end(out, name);
    proof { assert(out@ =~= o + element_attrs(name@, a, body@)); }
}

/// Append a toggle element.
pub fn write_toggle(out: &mut Vec<u8>, tag: &str, value: bool)
    ensures
        final(out)@ == old(out)@ + toggle_xml(tag@, value),
{
    if value {
        emit_empty(out, tag);
    } else {
        emit_empty_attr(out, tag, "w:val", "false");
    }
}

/// Append a toggle element if it is set.
pub fn write_opt_toggle(out: &mut Vec<u8>, tag: &str, value: Option<bool>)
    ensures
        final(out)@ == old(out)@ + opt_toggle_xml(tag@, value),
{
    match value {
        Some(b) => write_toggle(out, tag, b),
        None => {
            proof { assert(out@ =~= old(out)@ + opt_toggle_xml(tag@, value)); }
        },
    }
}

/// Append `<tag w:val="v"/>` if the value is set.
pub fn write_opt_val(out: &mut Vec<u8>, tag: &str, value: &Option<String>)
    ensures
        final(out)@ == old(out)@ + opt_val_xml(tag@, *value),
{
    match value {
        Some(s) => emit_empty_attr(out, tag, "w:val", s.as_str()),
        None => {
            proof { assert(out@ =~= old(out)@ + opt_val_xml(tag@, *value)); }
        },
    }
}

/// Append `<tag w:val="n"/>` for an unsigned number if it is set.
pub fn write_opt_val_u32(out: &mut Vec<u8>, tag: &str, value: Option<u32>)
    ensures
        final(out)@ == old(out)@ + opt_val_u32_xml(tag@, value),
{
    match value {
        Some(n) => {
            let s = u32_string(n);
            emit_empty_attr(out, tag, "w:val", s.as_str());
        },
        None => {
            proof { assert(out@ =~= old(out)@ + opt_val_u32_xml(tag@, value)); }
        },
    }
}

/// Append `<tag w:val="n"/>` for a signed number if it is set.
pub fn write_opt_val_i32(out: &mut Vec<u8>, tag: &str, value: Option<i32>)
    ensures
        final(out)@ == old(out)@ + opt_val_i32_xml(tag@, value),
{
    match value {
        Some(n) => {
            let s = i32_string(n);
            emit_empty_attr(out, tag, "w:val", s.as_str());
        },
        None => {
            proof { assert(out@ =~= old(out)@ + opt_val_i32_xml(tag@, value)); }
        },
    }
}

/// Append preserved raw elements.
pub fn write_extra(out: &mut Vec<u8>, extra: &Option<Vec<Vec<u8>>>)
    ensures
        final(out)@ == old(out)@ + extra_bytes(*extra),
{
    let ghost o = out@;
    match extra {
        Some(v) => {
            let mut i: usize = 0;
            proof { assert(v@.take(0) =~= Seq::<Vec<u8>>::empty()); }
            while i < v.len()
                invariant
                    i <= v@.len(),
                    out@ == o + raw_concat(v@.take(i as int)),
                decreases v@.len() - i,
            {
                emit_raw(out, &v[i]);
                proof {
                    assert(v@.take(i + 1).drop_last() =~= v@.take(i as int));
                    assert(out@ =~= o + raw_concat(v@.take(i + 1)));
                }
                i = i + 1;
            }
            proof { assert(v@.take(i as int) =~= v@); }
        },
        None => {
            proof { assert(out@ =~= o + extra_bytes(*extra)); }
        },
    }
}

/// Append the raw pieces one after another.
pub fn write_raws(out: &mut Vec<u8>, v: &Vec<Vec<u8>>)
    ensures
        final(out)@ == old(out)@ + raw_concat(v@),
{
    let ghost o = out@;
    let mut i: usize = 0;
    proof { assert(v@.take(0) =~= Seq::<Vec<u8>>::empty()); }
    while i < v.len()
        invariant
            i <= v@.len(),
            out@ == o + raw_concat(v@.take(i as int)),
        decreases v@.len() - i,
    {
        emit_raw(out, &v[i]);
        proof {
            assert(v@.take(i + 1).drop_last() =~= v@.take(i as int));
            assert(out@ =~= o + raw_concat(v@.take(i + 1)));
        }
        i = i + 1;
    }
    proof { assert(v@.take(i as int) =~= v@); }
}

/// Escaped text holds no `<`, `>`, quote or apostrophe of its own: markup
/// cannot be injected through text content.
pub proof fn lemma_xml_escape_safe(s: Seq<char>)
    ensures
        forall|i: int| 0 <= i < xml_escape(s).len() ==> {
            let c = #[trigger] xml_escape(s)[i];
            c != '<' && c != '>' && c != '"' && c != '\''
        },
    decreases s.len(),
{
    if s.len() > 0 {
        lemma_xml_escape_safe(s.drop_last());
        reveal_strlit("&lt;");
        reveal_strlit("&gt;");
        reveal_strlit("&amp;");
        reveal_strlit("&apos;");
        reveal_strlit("&quot;");
        reveal_strlit("&#13;");
        let a = xml_escape(s.drop_last());
        let b = escape_text_char(s.last());
        assert forall|i: int| 0 <= i < (a + b).len() implies {
            let c = #[trigger] (a + b)[i];
            c != '<' && c != '>' && c != '"' && c != '\''
        } by {
            if i >= a.len() {
                assert((a + b)[i] == b[i - a.len()]);
            } else {
                assert((a + b)[i] == a[i]);
            }
        }
    }
}

/// An escaped attribute value holds no `<`, `>`, quote, apostrophe,
/// newline or tab of its own: it cannot end its attribute early.
pub proof fn lemma_xml_escape_attr_safe(s: Seq<char>)
    ensures
        forall|i: int| 0 <= i < xml_escape_attr(s).len() ==> {
            let c = #[trigger] xml_escape_attr(s)[i];
            c != '<' && c != '>' && c != '"' && c != '\'' && c != '\n' && c != '\t'
        },
    decreases s.len(),
{
    if s.len() > 0 {
        lemma_xml_escape_attr_safe(s.drop_last());
        reveal_strlit("&lt;");
        reveal_strlit("&gt;");
        reveal_strlit("&amp;");
        reveal_strlit("&apos;");
        reveal_strlit("&quot;");
        reveal_strlit("&#13;");
        reveal_strlit("&#10;");
        reveal_strlit("&#9;");
        let a = xml_escape_attr(s.drop_last());
        let b = escape_attr_char(s.last());
        assert forall|i: int| 0 <= i < (a + b).len() implies {
            let c = #[trigger] (a + b)[i];
            c != '<' && c != '>' && c != '"' && c != '\'' && c != '\n' && c != '\t'
        } by {
            if i >= a.len() {
                assert((a + b)[i] == b[i - a.len()]);
            } else {
                assert((a + b)[i] == a[i]);
            }
        }
    }
}

/// The line break and indentation quick-xml's indenting `Writer` puts
/// before a tag: a newline and `level` spaces when a break is pending,
/// nothing otherwise.
pub open spec fn indent_prefix(pending: bool, level: nat) -> Seq<u8> {
    if pending {
        seq![10u8] + Seq::new(level, |i: int| 32u8)
    } else {
        Seq::empty()
    }
}

/// The indentation state after a list of events, written by a `Writer`
/// made with `new_with_indent(.., b' ', 2)`: the indentation grows by two
/// after a start tag and shrinks by two (not below zero) before an end tag;
/// a break is pending after every event but text.
pub open spec fn indent_state(evs: Seq<XmlEventView>) -> (nat, bool)
    decreases evs.len(),
{
    if evs.len() == 0 {
        (0, false)
    } else {
        let (level, _) = indent_state(evs.drop_last());
        match evs.last() {
            XmlEventView::Start(..) => ((level + 2) as nat, true),
            XmlEventView::End(..) => (if level >= 2 { (level - 2) as nat } else { 0 }, true),
            XmlEventView::Text(..) => (level, false),
            _ => (level, true),
        }
    }
}

/// The bytes an indenting `Writer` writes for a list of events: each event
/// after the line break and indentation due before it (an end tag is
/// indented at the level it closes back to; text gets none).
pub open spec fn indented(evs: Seq<XmlEventView>) -> Seq<u8>
    decreases evs.len(),
{
    if evs.len() == 0 {
        Seq::empty()
    } else {
        let (level, pending) = indent_state(evs.drop_last());
        let ev = evs.last();
        let prefix = match ev {
            XmlEventView::Text(..) => Seq::empty(),
            XmlEventView::End(..) => indent_prefix(pending, if level >= 2 { (level - 2) as nat } else { 0 }),
            _ => indent_prefix(pending, level),
        };
        indented(evs.drop_last()) + prefix + view_bytes(ev)
    }
}

#[verifier::external_type_specification]
#[verifier::external_body]
#[verifier::reject_recursive_types(W)]
pub struct ExWriter<W>(Writer<W>);

/// quick-xml's indenting `Writer` over a byte vector (two spaces a level),
/// with the events written to it so far as ghost state.
pub struct IndentWriter {
    inner: Writer<Vec<u8>>,
    evs: Ghost<Seq<XmlEventView>>,
}

impl IndentWriter {
    /// The events written so far.
    pub closed spec fn written(&self) -> Seq<XmlEventView> {
        self.evs@
    }
}

/// quick-xml's `Writer::new_with_indent` over an empty vector, indenting
/// with two spaces a level; nothing written yet.
#[verifier::external_body]
fn indent_writer() -> (w: IndentWriter)
    ensures
        w.written() == Seq::<XmlEventView>::empty(),
{
    IndentWriter { inner: Writer::new_with_indent(Vec::new(), b' ', 2), evs: Ghost(Seq::empty()) }
}

/// quick-xml's `Writer::write_event` on the indenting writer, the event
/// converted as `write_event_bytes` converts it; writing to a vector does
/// not fail.
#[verifier::external_body]
fn indent_write(w: &mut IndentWriter, ev: &XmlEvent)
    ensures
        final(w).written() == old(w).written().push(ev_view(*ev)),
{
    let _ = w.inner.write_event(match ev {
        XmlEvent::Start(n, a) => Start(BytesStart::new(n).with_attributes(a.iter().map(|(k, v)| (&**k, &**v)))),
        XmlEvent::End(n) => End(BytesEnd::new(n)),
        XmlEvent::Empty(n, a) => Empty(BytesStart::new(n).with_attributes(a.iter().map(|(k, v)| (&**k, &**v)))),
        XmlEvent::Text(t) => Text(BytesText::new(t)),
        XmlEvent::Decl(v, e, s) => Decl(BytesDecl::new(v, e.as_deref(), s.as_deref())),
    });
}

/// quick-xml's `Writer::into_inner` on the indenting writer. From
/// quick-xml's source (`Writer::write_event`, `write_wrapped` and
/// `Indentation`): each event is written as the plain writer writes it
/// (`event_bytes`); before a start tag, an empty tag or a declaration the
/// writer puts a line break and the current indentation unless the event
/// before was text or nothing was written; a start tag then adds a level,
/// and an end tag first drops one (never below zero) and then breaks the
/// line the same way; text gets no break. `indented` states this.
#[verifier::external_body]
fn indent_bytes(w: IndentWriter) -> (r: Vec<u8>)
    ensures
        r@ == indented(w.written()),
{
    w.inner.into_inner()
}

/// Write a list of events with quick-xml's indenting `Writer` (two spaces
/// a level).
pub fn write_indented(evs: &Vec<XmlEvent>) -> (r: Vec<u8>)
    ensures
        r@ == indented(ev_views(evs@)),
{
    let mut w = indent_writer();
    let mut i: usize = 0;
    proof { assert(ev_views(evs@).take(0) =~= Seq::<XmlEventView>::empty()); }
    while i < evs.len()
        invariant
            i <= evs@.len(),
            w.written() == ev_views(evs@).take(i as int),
        decreases evs@.len() - i,
    {
        indent_write(&mut w, &evs[i]);
        proof { assert(ev_views(evs@).take(i + 1) =~= ev_views(evs@).take(i as int).push(ev_view(evs@[i as int]))); }
        i = i + 1;
    }
    proof { assert(ev_views(evs@).take(i as int) =~= ev_views(evs@)); }
    indent_bytes(w)
}

} // verus!
