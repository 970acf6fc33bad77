//! XML input: events read by quick-xml's `Reader`, names matched by their
//! local part, attribute lookups, and the verbatim capture of elements that
//! the model does not know.

use vstd::prelude::*;

use quick_xml::events::{BytesStart, Event};
use quick_xml::name::QName;
use quick_xml::{Reader, Writer};

use crate::chars::{str_chars, utf8};
use crate::error::OxmlError;

verus! {

#[verifier::external_type_specification]
#[verifier::external_body]
#[verifier::reject_recursive_types(R)]
pub struct ExReader<R>(Reader<R>);

#[verifier::external_type_specification]
#[verifier::external_body]
pub struct ExBytesStart<'a>(BytesStart<'a>);

/// A start or empty tag as read: its qualified name, its attributes (key
/// and value as written in the document), and its text between `<` and
/// `>` (or `/>`).
pub struct Tag {
    pub name: String,
    pub attrs: Vec<(String, String)>,
    pub content: String,
}

/// One event read from a document.
pub enum ReadEvent {
    /// `<name ...>`
    Start(Tag),
    /// `<name .../>`
    Empty(Tag),
    /// `</name>`, with the qualified name.
    End(String),
    /// Character data as written.
    Text(String),
    /// Anything else (comment, CDATA, processing instruction, declaration,
    /// entity reference), as quick-xml writes it back.
    Other(Vec<u8>),
    /// The end of the input.
    Eof,
}

/// The tag of a start or empty event: quick-xml's `BytesStart::name`, the
/// items of `BytesStart::attributes` (key and value as written; a malformed
/// attribute is an XML error), and the tag's text (`BytesStart` dereferences
/// to it). It is called only inside `read_event`, whose result the named
/// event stream states; no clause of its own states what it returns.
#[verifier::external_body]
fn tag_of(e: &BytesStart) -> (r: Result<Tag, OxmlError>) {
    let attrs = e.attributes().map(|a| a.map(|a| (a.key.as_ref().to_string(), a.value.to_string())));
    match attrs.collect::<Result<Vec<_>, _>>() {
        Ok(a) => Ok(Tag { name: e.name().as_ref().to_string(), attrs: a, content: e.to_string() }),
        Err(x) => Err(OxmlError::Xml(x.to_string())),
    }
}

/// A quick-xml `Reader` over a byte slice. Beside it stand, as ghost
/// state, the bytes it was made over, whether it trims the whitespace
/// around text, and how many events it has handed out so far.
pub struct XmlReader<'a> {
    inner: Reader<&'a [u8]>,
    input: Ghost<Seq<u8>>,
    trim: Ghost<bool>,
    count: Ghost<nat>,
}

impl<'a> XmlReader<'a> {
    /// The bytes the reader was made over.
    pub closed spec fn input(&self) -> Seq<u8> {
        self.input@
    }

    /// Whether the reader trims the whitespace around text.
    pub closed spec fn trims(&self) -> bool {
        self.trim@
    }

    /// How many events the reader has handed out.
    pub closed spec fn count(&self) -> nat {
        self.count@
    }

    /// The event `k` places after the one the reader hands out next.
    pub open spec fn ahead(&self, k: nat) -> Result<ReadEvent, OxmlError> {
        xml_event(self.input(), self.trims(), self.count() + k)
    }

    /// Whether `other` reads the same input in the same way.
    pub open spec fn same_input(&self, other: &XmlReader) -> bool {
        self.input() == other.input() && self.trims() == other.trims()
    }
}

/// The event that quick-xml's `Reader::read_event`, converted as
/// `read_event` converts it, hands out at call `n` (counting from 0) of a
/// reader made over `xml` that trims text or not.
pub uninterp spec fn xml_event(xml: Seq<u8>, trim: bool, n: nat) -> Result<ReadEvent, OxmlError>;

/// How many bytes of `xml` such a reader has not consumed after `n` calls.
pub uninterp spec fn xml_unread(xml: Seq<u8>, trim: bool, n: nat) -> nat;

/// The next event of quick-xml's `Reader::read_event`, converted one for
/// one; other events are written back by quick-xml's `Writer`. The reader
/// is a slice reader with no other state than its input and configuration,
/// so the event is the one named for its input, trimming and count.
#[verifier::external_body]
pub fn read_event(reader: &mut XmlReader) -> (r: Result<ReadEvent, OxmlError>)
    ensures
        r == xml_event(old(reader).input(), old(reader).trims(), old(reader).count()),
        final(reader).same_input(old(reader)),
        final(reader).count() == old(reader).count() + 1,
{
    match reader.inner.read_event() {
        Ok(Event::Start(e)) => tag_of(&e).map(ReadEvent::Start),
        Ok(Event::Empty(e)) => tag_of(&e).map(ReadEvent::Empty),
        Ok(Event::End(e)) => Ok(ReadEvent::End(e.name().as_ref().to_string())),
        Ok(Event::Text(e)) => Ok(ReadEvent::Text(e.to_string())),
        Ok(Event::Eof) => Ok(ReadEvent::Eof),
        Ok(e) => {
            let mut w = Writer::new(Vec::new());
            let _ = w.write_event(e);
            Ok(ReadEvent::Other(w.into_inner()))
        },
        Err(e) => Err(OxmlError::Xml(e.to_string())),
    }
}

/// A quick-xml `Reader` over `xml` (`Reader::from_reader`), set to trim
/// the whitespace around text or not (`Config::trim_text`); it has handed
/// out no event yet.
#[verifier::external_body]
pub fn reader_from_bytes<'a>(xml: &'a [u8], trim: bool) -> (r: XmlReader<'a>)
    ensures
        r.input() == xml@,
        r.trims() == trim,
        r.count() == 0,
{
    let mut r = Reader::from_reader(xml);
    r.config_mut().trim_text(trim);
    XmlReader { inner: r, input: Ghost(xml@), trim: Ghost(trim), count: Ghost(0) }
}

/// What quick-xml's `Reader::read_text` gives for the end tag `name` after
/// call `n` of a reader over `xml` that trims text or not: the raw text up
/// to that end tag and the call the reader then stands at, or nothing where
/// it fails.
pub uninterp spec fn xml_text_to(xml: Seq<u8>, trim: bool, n: nat, name: Seq<char>) -> Option<(Seq<char>, nat)>;

/// The raw text up to the end tag `name`, which it consumes, as quick-xml's
/// `Reader::read_text` gives it (nested markup included, entities not
/// resolved); an error where the end tag never comes. Its source reads the
/// events one by one through the reader's own parser (with the trimming of
/// leading whitespace switched off while it does, which changes no state it
/// leaves behind), so the reader stands afterwards where it would after a
/// later call; the text and that call are named.
#[verifier::external_body]
pub(crate) fn read_text_to(reader: &mut XmlReader, name: &str) -> (r: Result<String, OxmlError>)
    ensures
        final(reader).same_input(old(reader)),
        match xml_text_to(old(reader).input(), old(reader).trims(), old(reader).count(), name@) {
            Some((t, q)) => (r matches Ok(s) && s@ == t && final(reader).count() == q && q > old(reader).count()),
            None => r is Err,
        },
{
    match reader.inner.read_text(QName(name)) {
        Ok(t) => Ok(String::from(&*t)),
        Err(e) => Err(OxmlError::Xml(e.to_string())),
    }
}

/// The call a reader over `xml` that trims text or not stands at after
/// quick-xml's `Reader::read_to_end` for the end tag `name`, started after
/// call `n`; nothing where it fails.
pub uninterp spec fn xml_skip_to(xml: Seq<u8>, trim: bool, n: nat, name: Seq<char>) -> Option<nat>;

/// Skip everything up to and including the end tag `name`, as quick-xml's
/// `Reader::read_to_end` does (nested elements of the same name counted);
/// an error where the end tag never comes. Its source reads the events one
/// by one through the reader's own parser, so the reader stands afterwards
/// where it would after a later call, which is named.
#[verifier::external_body]
pub(crate) fn skip_to_end(reader: &mut XmlReader, name: &str) -> (r: Result<(), OxmlError>)
    ensures
        final(reader).same_input(old(reader)),
        match xml_skip_to(old(reader).input(), old(reader).trims(), old(reader).count(), name@) {
            Some(q) => r is Ok && final(reader).count() == q && q > old(reader).count(),
            None => r is Err,
        },
{
    match reader.inner.read_to_end(QName(name)) {
        Ok(_) => Ok(()),
        Err(e) => Err(OxmlError::Xml(e.to_string())),
    }
}

/// What quick-xml's `escape::unescape` gives for `raw`: the predefined
/// entities and character references resolved, or nothing where an entity
/// is unknown or malformed.
pub uninterp spec fn xml_unescaped(raw: Seq<char>) -> Option<Seq<char>>;

/// quick-xml's `escape::unescape`. Its source returns the input unchanged
/// when it holds no `&`; the rest of what it does is named, not stated.
#[verifier::external_body]
pub(crate) fn unescape_text(raw: &str) -> (r: Option<String>)
    ensures
        opt_view(r) == xml_unescaped(raw@),
        !raw@.contains('&') ==> opt_view(r) == Some(raw@),
{
    quick_xml::escape::unescape(raw).ok().map(|c| c.into_owned())
}

/// The length of the input the reader has not consumed yet
/// (`Reader::get_ref` of a slice reader is the rest of the slice).
#[verifier::external_body]
pub fn unread_len(reader: &XmlReader) -> (r: usize)
    ensures
        r == xml_unread(reader.input(), reader.trims(), reader.count()),
{
    reader.inner.get_ref().len()
}

/// How many events a reader with `n` unread bytes can still produce: every
/// event but the end of input consumes at least one byte, and an empty tag
/// may be reported as a start and an end.
pub open spec fn budget_for(n: nat) -> nat {
    if n <= (u64::MAX - 2) / 2 {
        2 * n + 2
    } else {
        u64::MAX as nat
    }
}

/// The budget of events for `n` unread bytes.
pub fn event_budget(n: usize) -> (r: u64)
    ensures
        r == budget_for(n as nat),
        r >= 2,
{
    let m = n as u64;
    if m <= (u64::MAX - 2) / 2 {
        2 * m + 2
    } else {
        u64::MAX
    }
}

/// The budget of events for what `reader` has not read yet.
pub open spec fn budget_left(reader: &XmlReader) -> nat {
    budget_for(xml_unread(reader.input(), reader.trims(), reader.count()))
}

/// The position of the first `:` in a name.
pub open spec fn colon_at(s: Seq<char>) -> Option<int>
    decreases s.len(),
{
    if s.len() == 0 {
        None
    } else if s[0] == ':' {
        Some(0)
    } else {
        match colon_at(s.drop_first()) {
            Some(i) => Some(i + 1),
            None => None,
        }
    }
}

/// Whether a qualified name, with or without its prefix, is `local`: the
/// whole name equals it, or the part after the first `:` does.
pub open spec fn local_is(name: Seq<char>, local: Seq<char>) -> bool {
    name == local || (colon_at(name) matches Some(p) && name.skip(p + 1) == local)
}

/// `colon_at` finds the first colon.
proof fn lemma_colon_at(s: Seq<char>)
    ensures
        colon_at(s) matches Some(p) ==> 0 <= p < s.len() && s[p] == ':' && forall|k: int|
            0 <= k < p ==> s[k] != ':',
        colon_at(s) is None ==> forall|k: int| 0 <= k < s.len() ==> s[k] != ':',
    decreases s.len(),
{
    if s.len() > 0 && s[0] != ':' {
        lemma_colon_at(s.drop_first());
        assert forall|k: int| 1 <= k < s.len() implies s[k] == s.drop_first()[k - 1] by {}
    }
}

/// The index of the first `:` in `s`, if any.
fn find_colon(s: &Vec<char>) -> (r: Option<usize>)
    ensures
        match r {
            Some(p) => colon_at(s@) == Some(p as int) && p < s@.len(),
            None => colon_at(s@) is None,
        },
{
    proof { lemma_colon_at(s@); }
    let mut i: usize = 0;
    while i < s.len()
        invariant
            i <= s@.len(),
            forall|k: int| 0 <= k < i ==> s@[k] != ':',
            colon_at(s@) matches Some(p) ==> 0 <= p < s@.len() && s@[p] == ':' && forall|k: int|
                0 <= k < p ==> s@[k] != ':',
            colon_at(s@) is None ==> forall|k: int| 0 <= k < s@.len() ==> s@[k] != ':',
        decreases s@.len() - i,
    {
        if s[i] == ':' {
            proof {
                if let Some(p) = colon_at(s@) {
                    if p < i {
                        assert(s@[p] != ':');
                    } else if p > i {
                        assert(s@[i as int] != ':');
                    }
                }
            }
            return Some(i);
        }
        i = i + 1;
    }
    proof {
        if let Some(p) = colon_at(s@) {
            assert(s@[p] != ':');
        }
    }
    None
}

/// The local part of a qualified name: what follows its first `:`, or the
/// whole name.
pub open spec fn local_part(name: Seq<char>) -> Seq<char> {
    match colon_at(name) {
        Some(p) => name.skip(p + 1),
        None => name,
    }
}

/// The local part of a qualified name.
pub fn local_name(name: &str) -> (r: String)
    ensures
        r@ == local_part(name@),
{
    let n = str_chars(name);
    let len = n.len();
    match find_colon(&n) {
        Some(p) => {
            let mut out: Vec<char> = Vec::new();
            let mut k: usize = p + 1;
            while k < len
                invariant
                    len == n@.len(),
                    p + 1 <= k <= n@.len(),
                    out@ == n@.subrange(p + 1, k as int),
                decreases n@.len() - k,
            {
                out.push(n[k]);
                proof { assert(out@ =~= n@.subrange(p + 1, k + 1)); }
                k = k + 1;
            }
            proof { assert(out@ =~= name@.skip(p + 1)); }
            crate::chars::string_from_chars(out.as_slice())
        },
        None => crate::chars::to_owned_string(name),
    }
}

/// Whether a qualified name, with or without its prefix, is `local`.
pub fn name_is(name: &str, local: &str) -> (r: bool)
    ensures
        r == local_is(name@, local@),
{
    let n = str_chars(name);
    let l = str_chars(local);
    let nlen = n.len();
    if crate::chars::chars_eq(n.as_slice(), l.as_slice()) {
        return true;
    }
    match find_colon(&n) {
        Some(p) => {
            let rest = crate::html::slice_chars(n.as_slice(), p + 1, nlen);
            proof { assert(n@.subrange(p + 1, n@.len() as int) =~= n@.skip(p + 1)); }
            crate::chars::chars_eq(rest.as_slice(), l.as_slice())
        },
        None => false,
    }
}

/// The value of the first attribute whose key, with or without its
/// prefix, is `local`.
pub open spec fn first_attr(attrs: Seq<(String, String)>, local: Seq<char>) -> Option<Seq<char>>
    decreases attrs.len(),
{
    if attrs.len() == 0 {
        None
    } else if local_is(attrs[0].0@, local) {
        Some(attrs[0].1@)
    } else {
        first_attr(attrs.drop_first(), local)
    }
}

/// The value of the last attribute whose key, with or without its prefix,
/// is `local`; `d` when there is none.
pub open spec fn last_attr(attrs: Seq<(String, String)>, local: Seq<char>, d: Option<Seq<char>>) -> Option<Seq<char>>
    decreases attrs.len(),
{
    if attrs.len() == 0 {
        d
    } else if local_is(attrs.last().0@, local) {
        Some(attrs.last().1@)
    } else {
        last_attr(attrs.drop_last(), local, d)
    }
}

/// The view of an optional string.
pub open spec fn opt_view(o: Option<String>) -> Option<Seq<char>> {
    match o {
        Some(s) => Some(s@),
        None => None,
    }
}

/// The value of the first attribute named `local`, if any.
pub fn get_attr(attrs: &Vec<(String, String)>, local: &str) -> (r: Option<String>)
    ensures
        opt_view(r) == first_attr(attrs@, local@),
{
    let mut i: usize = 0;
    proof { assert(attrs@.skip(0) =~= attrs@); }
    while i < attrs.len()
        invariant
            i <= attrs@.len(),
            first_attr(attrs@.skip(i as int), local@) == first_attr(attrs@, local@),
        decreases attrs@.len() - i,
    {
        proof { assert(attrs@.skip(i as int).drop_first() =~= attrs@.skip(i + 1)); }
        if name_is(attrs[i].0.as_str(), local) {
            return Some(attrs[i].1.clone());
        }
        i = i + 1;
    }
    None
}

/// The value of the `val` attribute, if any.
pub fn get_val_attr(t: &Tag) -> (r: Option<String>)
    ensures
        opt_view(r) == first_attr(t.attrs@, "val"@),
{
    get_attr(&t.attrs, "val")
}

/// Whether a toggle's value turns it on: no value, or anything but
/// `false`, `0` and `off`.
pub open spec fn on_off(v: Option<Seq<char>>) -> bool {
    match v {
        Some(s) => !(s == "false"@ || s == "0"@ || s == "off"@),
        None => true,
    }
}

/// The state of a toggle element.
pub fn parse_toggle(t: &Tag) -> (r: bool)
    ensures
        r == on_off(first_attr(t.attrs@, "val"@)),
{
    match get_val_attr(t) {
        Some(v) => !(crate::chars::str_eq(v.as_str(), "false") || crate::chars::str_eq(v.as_str(), "0")
            || crate::chars::str_eq(v.as_str(), "off")),
        None => true,
    }
}

/// The bytes of an empty tag as written back: `<`, its text, `/>`.
pub open spec fn empty_raw(t: Tag) -> Seq<u8> {
    utf8(seq!['<'] + t.content@ + seq!['/', '>'])
}

/// The bytes of a start tag as written back: `<`, its text, `>`.
pub open spec fn start_raw(t: Tag) -> Seq<u8> {
    utf8(seq!['<'] + t.content@ + seq!['>'])
}

/// Append `<`, the characters of `s`, and `close`.
fn push_tag_bytes(out: &mut Vec<u8>, s: &str, close: &str)
    ensures
        final(out)@ == old(out)@ + utf8(seq!['<'] + s@ + close@),
{
    proof { reveal_strlit("<"); }
    let mut t = crate::chars::to_owned_string("<");
    crate::chars::push_str(&mut t, s);
    crate::chars::push_str(&mut t, close);
    let ghost tv = t@;
    let mut b = crate::chars::string_into_bytes(t);
    proof { assert(tv =~= seq!['<'] + s@ + close@); }
    out.append(&mut b);
}

/// A start tag written back as read.
pub fn start_tag_raw(t: &Tag) -> (r: Vec<u8>)
    ensures
        r@ == start_raw(*t),
{
    let mut out: Vec<u8> = Vec::new();
    proof {
        reveal_strlit(">");
        assert(seq!['<'] + t.content@ + ">"@ =~= seq!['<'] + t.content@ + seq!['>']);
    }
    push_tag_bytes(&mut out, t.content.as_str(), ">");
    proof { assert(out@ =~= Seq::<u8>::empty() + start_raw(*t)); }
    out
}

/// An empty element the model does not know, kept verbatim.
pub fn capture_empty_element(t: &Tag) -> (r: Vec<u8>)
    ensures
        r@ == empty_raw(*t),
{
    let mut out: Vec<u8> = Vec::new();
    proof {
        reveal_strlit("/>");
        assert(seq!['<'] + t.content@ + "/>"@ =~= seq!['<'] + t.content@ + seq!['/', '>']);
    }
    push_tag_bytes(&mut out, t.content.as_str(), "/>");
    proof { assert(out@ =~= Seq::<u8>::empty() + empty_raw(*t)); }
    out
}

/// The bytes of an end tag as written back: `</`, its name, `>`.
pub open spec fn end_raw(name: Seq<char>) -> Seq<u8> {
    utf8(seq!['<', '/'] + name + seq!['>'])
}

/// What capturing an element named `name` verbatim gives from call `n` of
/// a reader over `x` on, with `depth` elements of that name open, the bytes
/// `acc` kept so far and `f` events left to read: each event written back
/// and appended, until the end tag that closes depth 1, the end of input,
/// an error or the last event allowed. The result, the count of events
/// then read and the budget left.
pub open spec fn capture_run(x: Seq<u8>, tr: bool, n: nat, name: Seq<char>, depth: int, acc: Seq<u8>, f: nat) -> (
    Result<Seq<u8>, OxmlError>,
    nat,
    nat,
)
    decreases f,
{
    if f == 0 {
        (Ok(acc), n, 0)
    } else {
        let g = (f - 1) as nat;
        match xml_event(x, tr, n) {
            Ok(ReadEvent::Start(t)) => capture_run(
                x,
                tr,
                n + 1,
                name,
                if t.name@ == name && depth < u64::MAX { depth + 1 } else { depth },
                acc + start_raw(t),
                g,
            ),
            Ok(ReadEvent::Empty(t)) => capture_run(x, tr, n + 1, name, depth, acc + empty_raw(t), g),
            Ok(ReadEvent::End(m)) => {
                let d = if m@ == name { depth - 1 } else { depth };
                if d == 0 {
                    (Ok(acc + end_raw(m@)), n + 1, g)
                } else {
                    capture_run(x, tr, n + 1, name, d, acc + end_raw(m@), g)
                }
            },
            Ok(ReadEvent::Text(s)) => capture_run(x, tr, n + 1, name, depth, acc + utf8(s@), g),
            Ok(ReadEvent::Other(b)) => capture_run(x, tr, n + 1, name, depth, acc + b@, g),
            Ok(ReadEvent::Eof) => (Ok(acc), n + 1, g),
            Err(e) => (Err(e), n + 1, g),
        }
    }
}

/// The bytes of a result, by their view.
pub open spec fn bytes_res(r: Result<Vec<u8>, OxmlError>) -> Result<Seq<u8>, OxmlError> {
    match r {
        Ok(b) => Ok(b@),
        Err(e) => Err(e),
    }
}

/// What capturing the element `start` opens gives from the reader's next
/// event on, within `f` events.
pub open spec fn capture_from(reader: &XmlReader, start: Tag, f: nat) -> (Result<Seq<u8>, OxmlError>, nat, nat) {
    capture_run(reader.input(), reader.trims(), reader.count(), start.name@, 1, start_raw(start), f)
}

/// A whole element the model does not know, kept verbatim: its start tag,
/// everything read up to the end tag that closes it (counting nested
/// elements of the same name), and that end tag; reading stops early at the
/// end of input or when `budget` events have been read. Returns the bytes
/// and the budget left.
pub fn capture_element_within(reader: &mut XmlReader, start: &Tag, budget: u64) -> (r: (Result<Vec<u8>, OxmlError>, u64))
    ensures
        final(reader).same_input(old(reader)),
        (bytes_res(r.0), final(reader).count(), r.1 as nat) == capture_from(old(reader), *start, budget as nat),
        r.1 <= budget,
{
    let mut out: Vec<u8> = Vec::new();
    proof {
        reveal_strlit(">");
        assert(seq!['<'] + start.content@ + ">"@ =~= seq!['<'] + start.content@ + seq!['>']);
    }
    push_tag_bytes(&mut out, start.content.as_str(), ">");
    let ghost x = reader.input();
    let ghost tr = reader.trims();
    let ghost goal = capture_from(reader, *start, budget as nat);
    proof { assert(out@ =~= start_raw(*start)); }
    let mut depth: u64 = 1;
    let mut fuel = budget;
    while fuel > 0
        invariant
            fuel <= budget,
            depth >= 1,
            reader.input() == x,
            reader.trims() == tr,
            x == old(reader).input(),
            tr == old(reader).trims(),
            goal == capture_from(old(reader), *start, budget as nat),
            capture_run(x, tr, reader.count(), start.name@, depth as int, out@, fuel as nat) == goal,
        decreases fuel,
    {
        let ghost n = reader.count();
        let ghost before = out@;
        let ghost d0 = depth as int;
        fuel = fuel - 1;
        match read_event(reader) {
            Ok(ReadEvent::Start(t)) => {
                if crate::chars::str_eq(t.name.as_str(), start.name.as_str()) && depth < u64::MAX {
                    depth = depth + 1;
                }
                push_tag_bytes(&mut out, t.content.as_str(), ">");
                proof {
                    reveal_strlit(">");
                    assert(seq!['<'] + t.content@ + ">"@ =~= seq!['<'] + t.content@ + seq!['>']);
                }
            },
            Ok(ReadEvent::Empty(t)) => {
                push_tag_bytes(&mut out, t.content.as_str(), "/>");
                proof {
                    reveal_strlit("/>");
                    assert(seq!['<'] + t.content@ + "/>"@ =~= seq!['<'] + t.content@ + seq!['/', '>']);
                }
            },
            Ok(ReadEvent::End(nm)) => {
                if crate::chars::str_eq(nm.as_str(), start.name.as_str()) {
                    depth = depth - 1;
                }
                proof { reveal_strlit("/"); }
                let mut t = crate::chars::to_owned_string("/");
                crate::chars::push_str(&mut t, nm.as_str());
                push_tag_bytes(&mut out, t.as_str(), ">");
                proof {
                    reveal_strlit(">");
                    assert(seq!['<'] + t@ + ">"@ =~= seq!['<', '/'] + nm@ + seq!['>']);
                    assert(out@ == before + end_raw(nm@));
                }
                if depth == 0 {
                    return (Ok(out), fuel);
                }
            },
            Ok(ReadEvent::Text(s)) => {
                let mut b = crate::chars::string_into_bytes(s);
                out.append(&mut b);
            },
            Ok(ReadEvent::Other(b)) => {
                let mut b = b;
                out.append(&mut b);
            },
            Ok(ReadEvent::Eof) => {
                return (Ok(out), fuel);
            },
            Err(e) => {
                return (Err(e), fuel);
            },
        }
    }
    (Ok(out), fuel)
}

/// A whole element the model does not know, kept verbatim: its start tag,
/// everything read up to the end tag that closes it, and that end tag.
pub fn capture_element(reader: &mut XmlReader, start: &Tag) -> (r: Result<Vec<u8>, OxmlError>)
    ensures
        final(reader).same_input(old(reader)),
        (bytes_res(r), final(reader).count()) == {
            let c = capture_from(old(reader), *start, budget_left(old(reader)));
            (c.0, c.1)
        },
{
    let budget = event_budget(unread_len(reader));
    capture_element_within(reader, start, budget).0
}

/// A toggle reads back as written: on is written without a value, off
/// with the value `false`.
pub proof fn lemma_toggle_round_trip(on: bool)
    ensures
        on_off(if on { None } else { Some("false"@) }) == on,
{
}

/// The value of the last attribute whose key is exactly `key`.
pub open spec fn last_exact(attrs: Seq<(String, String)>, key: Seq<char>) -> Option<Seq<char>>
    decreases attrs.len(),
{
    if attrs.len() == 0 {
        None
    } else if attrs.last().0@ == key {
        Some(attrs.last().1@)
    } else {
        last_exact(attrs.drop_last(), key)
    }
}

/// The value of the last attribute whose key is exactly `key`.
pub fn last_exact_value(attrs: &Vec<(String, String)>, key: &str) -> (r: Option<String>)
    ensures
        opt_view(r) == last_exact(attrs@, key@),
{
    let mut k: usize = attrs.len();
    proof { assert(attrs@.take(k as int) =~= attrs@); }
    while k > 0
        invariant
            k <= attrs@.len(),
            last_exact(attrs@, key@) == last_exact(attrs@.take(k as int), key@),
        decreases k,
    {
        proof {
            assert(attrs@.take(k as int).drop_last() =~= attrs@.take(k - 1));
            assert(attrs@.take(k as int).last() == attrs@[k - 1]);
        }
        if crate::chars::str_eq(attrs[k - 1].0.as_str(), key) {
            return Some(attrs[k - 1].1.clone());
        }
        k = k - 1;
    }
    None
}

} // verus!
