//! Reading a theme part: the colour of each slot of the colour scheme and
//! the Latin typeface of the major and minor fonts.

use vstd::prelude::*;

use crate::xml_read::XmlReader;

use crate::chars::str_eq;
use crate::error::OxmlError;
use crate::theme::{Theme, ThemeColors};
use crate::xml_read::{budget_for, budget_left, xml_event, xml_unread};
use crate::xml_read::{
    event_budget, first_attr, get_attr, local_is, local_name, local_part, name_is, opt_view, read_event,
    reader_from_bytes, unread_len, ReadEvent, Tag,
};

verus! {

/// The position of a colour slot of the scheme, in the order `dk1`, `dk2`,
/// `lt1`, `lt2`, `accent1`..`accent6`, `hlink`, `folHlink`; -1 for any
/// other name.
pub open spec fn slot_index(n: Seq<char>) -> int {
    if n == "dk1"@ {
        0
    } else if n == "dk2"@ {
        1
    } else if n == "lt1"@ {
        2
    } else if n == "lt2"@ {
        3
    } else if n == "accent1"@ {
        4
    } else if n == "accent2"@ {
        5
    } else if n == "accent3"@ {
        6
    } else if n == "accent4"@ {
        7
    } else if n == "accent5"@ {
        8
    } else if n == "accent6"@ {
        9
    } else if n == "hlink"@ {
        10
    } else if n == "folHlink"@ {
        11
    } else {
        -1
    }
}

/// The colours of the slots in that order.
pub open spec fn colors_view(c: ThemeColors) -> Seq<Option<Seq<char>>> {
    seq![
        opt_view(c.dk1), opt_view(c.dk2), opt_view(c.lt1), opt_view(c.lt2), opt_view(c.accent1),
        opt_view(c.accent2), opt_view(c.accent3), opt_view(c.accent4), opt_view(c.accent5),
        opt_view(c.accent6), opt_view(c.hlink), opt_view(c.fol_hlink),
    ]
}

/// The colour an empty tag inside a slot gives: `srgbClr` its `val`,
/// `sysClr` its `lastClr` or else its `val` (attributes by local name, the
/// first of each); nothing for any other tag.
pub open spec fn scheme_color(t: Tag) -> Option<Seq<char>> {
    if local_is(t.name@, "srgbClr"@) {
        first_attr(t.attrs@, "val"@)
    } else if local_is(t.name@, "sysClr"@) {
        match first_attr(t.attrs@, "lastClr"@) {
            Some(v) => Some(v),
            None => first_attr(t.attrs@, "val"@),
        }
    } else {
        None
    }
}

/// What one event inside the colour scheme does, given the slot open (if
/// any): the slot colours after it, the slot then open, and whether the
/// scheme ends. A slot's start opens it and its end closes it; a colour
/// inside an open slot sets that slot; the scheme's end or the end of
/// input ends it.
pub open spec fn scheme_step(v: Seq<Option<Seq<char>>>, slot: Option<Seq<char>>, ev: ReadEvent) -> (
    Seq<Option<Seq<char>>>,
    Option<Seq<char>>,
    bool,
) {
    match ev {
        ReadEvent::Start(t) => {
            let l = local_part(t.name@);
            if slot_index(l) >= 0 {
                (v, Some(l), false)
            } else {
                (v, slot, false)
            }
        },
        ReadEvent::Empty(t) => match (slot, scheme_color(t)) {
            (Some(s), Some(hex)) => (if slot_index(s) >= 0 { v.update(slot_index(s), Some(hex)) } else { v }, slot, false),
            _ => (v, slot, false),
        },
        ReadEvent::End(n) => {
            let l = local_part(n@);
            if slot_index(l) >= 0 {
                (v, None, false)
            } else if l == "clrScheme"@ {
                (v, slot, true)
            } else {
                (v, slot, false)
            }
        },
        ReadEvent::Eof => (v, slot, true),
        _ => (v, slot, false),
    }
}

/// The position of a slot name.
fn slot_index_of(n: &str) -> (r: i32)
    ensures
        r == slot_index(n@),
{
    if str_eq(n, "dk1") {
        0
    } else if str_eq(n, "dk2") {
        1
    } else if str_eq(n, "lt1") {
        2
    } else if str_eq(n, "lt2") {
        3
    } else if str_eq(n, "accent1") {
        4
    } else if str_eq(n, "accent2") {
        5
    } else if str_eq(n, "accent3") {
        6
    } else if str_eq(n, "accent4") {
        7
    } else if str_eq(n, "accent5") {
        8
    } else if str_eq(n, "accent6") {
        9
    } else if str_eq(n, "hlink") {
        10
    } else if str_eq(n, "folHlink") {
        11
    } else {
        -1
    }
}

/// Set the colour of the slot at position `k`.
fn set_slot(c: &mut ThemeColors, k: i32, hex: String)
    requires
        0 <= k < 12,
    ensures
        colors_view(*final(c)) == colors_view(*old(c)).update(k as int, Some(hex@)),
{
    let h = Some(hex);
    if k == 0 {
        c.dk1 = h;
    } else if k == 1 {
        c.dk2 = h;
    } else if k == 2 {
        c.lt1 = h;
    } else if k == 3 {
        c.lt2 = h;
    } else if k == 4 {
        c.accent1 = h;
    } else if k == 5 {
        c.accent2 = h;
    } else if k == 6 {
        c.accent3 = h;
    } else if k == 7 {
        c.accent4 = h;
    } else if k == 8 {
        c.accent5 = h;
    } else if k == 9 {
        c.accent6 = h;
    } else if k == 10 {
        c.hlink = h;
    } else {
        c.fol_hlink = h;
    }
    proof { assert(colors_view(*c) =~= colors_view(*old(c)).update(k as int, Some(hex@))); }
}

/// The colour an empty tag inside a slot gives.
fn scheme_color_of(t: &Tag) -> (r: Option<String>)
    ensures
        opt_view(r) == scheme_color(*t),
{
    let nm = t.name.as_str();
    if name_is(nm, "srgbClr") {
        get_attr(&t.attrs, "val")
    } else if name_is(nm, "sysClr") {
        match get_attr(&t.attrs, "lastClr") {
            Some(v) => Some(v),
            None => get_attr(&t.attrs, "val"),
        }
    } else {
        None
    }
}

/// Process one event inside the colour scheme; whether the scheme ends.
pub fn scheme_event(c: &mut ThemeColors, slot: &mut Option<String>, ev: &ReadEvent) -> (r: bool)
    ensures
        (colors_view(*final(c)), opt_view(*final(slot)), r) == scheme_step(colors_view(*old(c)), opt_view(*old(slot)), *ev),
{
    match ev {
        ReadEvent::Start(t) => {
            let l = local_name(t.name.as_str());
            if slot_index_of(l.as_str()) >= 0 {
                *slot = Some(l);
            }
            false
        },
        ReadEvent::Empty(t) => {
            match slot {
                Some(s) => {
                    let k = slot_index_of(s.as_str());
                    match scheme_color_of(t) {
                        Some(hex) => {
                            if k >= 0 {
                                set_slot(c, k, hex);
                            }
                        },
                        None => {},
                    }
                },
                None => {},
            }
            false
        },
        ReadEvent::End(n) => {
            let l = local_name(n.as_str());
            if slot_index_of(l.as_str()) >= 0 {
                *slot = None;
                false
            } else {
                str_eq(l.as_str(), "clrScheme")
            }
        },
        ReadEvent::Eof => true,
        _ => false,
    }
}

/// The colours read from call `n` on of a reader over `x`, with the
/// colours `c` and slot `slot` so far and `f` events left: each event moves
/// them as `scheme_step` says until it ends the scheme; an error of the
/// reader fails the reading. The result and the call after it.
pub open spec fn scheme_run(x: Seq<u8>, tr: bool, n: nat, c: Seq<Option<Seq<char>>>, slot: Option<Seq<char>>, f: nat) -> (
    Result<Seq<Option<Seq<char>>>, OxmlError>,
    nat,
)
    decreases f,
{
    if f == 0 {
        (Ok(c), n)
    } else {
        match xml_event(x, tr, n) {
            Ok(ev) => {
                let st = scheme_step(c, slot, ev);
                if st.2 {
                    (Ok(st.0), n + 1)
                } else {
                    scheme_run(x, tr, n + 1, st.0, st.1, (f - 1) as nat)
                }
            },
            Err(e) => (Err(e), n + 1),
        }
    }
}

/// Read the colour scheme from the events after `<a:clrScheme>` up to its
/// end (or the end of input), each as `scheme_event` says.
pub fn parse_color_scheme(reader: &mut XmlReader, colors: &mut ThemeColors) -> (r: Result<(), OxmlError>)
    ensures
        final(reader).same_input(old(reader)),
        ({
            let c = scheme_run(old(reader).input(), old(reader).trims(), old(reader).count(), colors_view(*old(colors)),
                None, budget_left(old(reader)));
            match c.0 {
                Ok(v) => r is Ok && colors_view(*final(colors)) == v && final(reader).count() == c.1,
                Err(e) => r == Err::<(), OxmlError>(e),
            }
        }),
{
    let ghost x = reader.input();
    let ghost tr = reader.trims();
    let mut slot: Option<String> = None;
    let budget = event_budget(unread_len(reader));
    let ghost goal = scheme_run(x, tr, reader.count(), colors_view(*colors), None, budget as nat);
    let mut fuel = budget;
    while fuel > 0
        invariant_except_break
            scheme_run(x, tr, reader.count(), colors_view(*colors), opt_view(slot), fuel as nat) == goal,
        invariant
            reader.input() == x,
            reader.trims() == tr,
            x == old(reader).input(),
            tr == old(reader).trims(),
            goal == scheme_run(x, tr, old(reader).count(), colors_view(*old(colors)), None, budget_left(old(reader))),
        ensures
            goal == (Ok::<Seq<Option<Seq<char>>>, OxmlError>(colors_view(*colors)), reader.count()),
        decreases fuel,
    {
        let ghost n = reader.count();
        let ghost cv = colors_view(*colors);
        let ghost sv = opt_view(slot);
        let ghost f1 = fuel as nat;
        fuel = fuel - 1;
        match read_event(reader) {
            Ok(ev) => {
                if scheme_event(colors, &mut slot, &ev) {
                    proof { assert(scheme_run(x, tr, n, cv, sv, f1) == (Ok::<Seq<Option<Seq<char>>>, OxmlError>(colors_view(*colors)), reader.count())); }
                    break;
                }
            },
            Err(e) => {
                proof { assert(scheme_run(x, tr, n, cv, sv, f1) == (Err::<Seq<Option<Seq<char>>>, OxmlError>(e), reader.count())); }
                return Err(e);
            },
        }
    }
    Ok(())
}

/// What one event inside a font of the font scheme does, given the Latin
/// typeface so far: a `latin` empty tag sets it to its `typeface` (by local
/// name, the first; none if missing); the font's end `end` or the end of
/// input ends it.
pub open spec fn font_step(latin: Option<Seq<char>>, ev: ReadEvent, end: Seq<char>) -> (Option<Seq<char>>, bool) {
    match ev {
        ReadEvent::Empty(t) => if local_is(t.name@, "latin"@) {
            (first_attr(t.attrs@, "typeface"@), false)
        } else {
            (latin, false)
        },
        ReadEvent::End(n) => (latin, local_is(n@, end)),
        ReadEvent::Eof => (latin, true),
        _ => (latin, false),
    }
}

/// Process one event inside a font; whether the font ends.
pub fn font_event(latin: &mut Option<String>, ev: &ReadEvent, end: &str) -> (r: bool)
    ensures
        (opt_view(*final(latin)), r) == font_step(opt_view(*old(latin)), *ev, end@),
{
    match ev {
        ReadEvent::Empty(t) => {
            if name_is(t.name.as_str(), "latin") {
                *latin = get_attr(&t.attrs, "typeface");
            }
            false
        },
        ReadEvent::End(n) => name_is(n.as_str(), end),
        ReadEvent::Eof => true,
        _ => false,
    }
}

/// The Latin typeface read from call `n` on of a reader over `x`, with
/// the typeface `latin` so far, the font's end `end` and `f` events left:
/// each event moves it as `font_step` says until the font ends; an error of
/// the reader fails the reading. The result and the call after it.
pub open spec fn font_run(x: Seq<u8>, tr: bool, n: nat, latin: Option<Seq<char>>, end: Seq<char>, f: nat) -> (
    Result<Option<Seq<char>>, OxmlError>,
    nat,
)
    decreases f,
{
    if f == 0 {
        (Ok(latin), n)
    } else {
        match xml_event(x, tr, n) {
            Ok(ev) => {
                let st = font_step(latin, ev, end);
                if st.1 {
                    (Ok(st.0), n + 1)
                } else {
                    font_run(x, tr, n + 1, st.0, end, (f - 1) as nat)
                }
            },
            Err(e) => (Err(e), n + 1),
        }
    }
}

/// A typeface result by its view.
pub open spec fn font_res(r: Result<Option<String>, OxmlError>) -> Result<Option<Seq<char>>, OxmlError> {
    match r {
        Ok(l) => Ok(opt_view(l)),
        Err(e) => Err(e),
    }
}

/// Read the Latin typeface of a font from the events after its start up to
/// its end `end` (or the end of input), each as `font_event` says.
pub fn parse_font_scheme(reader: &mut XmlReader, end: &str) -> (r: Result<Option<String>, OxmlError>)
    ensures
        final(reader).same_input(old(reader)),
        ({
            let c = font_run(old(reader).input(), old(reader).trims(), old(reader).count(), None, end@,
                budget_left(old(reader)));
            &&& font_res(r) == c.0
            &&& r is Ok ==> final(reader).count() == c.1
        }),
{
    let ghost x = reader.input();
    let ghost tr = reader.trims();
    let mut latin: Option<String> = None;
    let budget = event_budget(unread_len(reader));
    let ghost goal = font_run(x, tr, reader.count(), None, end@, budget as nat);
    let mut fuel = budget;
    while fuel > 0
        invariant_except_break
            font_run(x, tr, reader.count(), opt_view(latin), end@, fuel as nat) == goal,
        invariant
            reader.input() == x,
            reader.trims() == tr,
            x == old(reader).input(),
            tr == old(reader).trims(),
            goal == font_run(x, tr, old(reader).count(), None, end@, budget_left(old(reader))),
        ensures
            goal == (Ok::<Option<Seq<char>>, OxmlError>(opt_view(latin)), reader.count()),
        decreases fuel,
    {
        let ghost n = reader.count();
        let ghost lv = opt_view(latin);
        let ghost f1 = fuel as nat;
        fuel = fuel - 1;
        match read_event(reader) {
            Ok(ev) => {
                if font_event(&mut latin, &ev, end) {
                    proof { assert(font_run(x, tr, n, lv, end@, f1) == (Ok::<Option<Seq<char>>, OxmlError>(opt_view(latin)), reader.count())); }
                    break;
                }
            },
            Err(e) => {
                proof { assert(font_run(x, tr, n, lv, end@, f1) == (Err::<Option<Seq<char>>, OxmlError>(e), reader.count())); }
                return Err(e);
            },
        }
    }
    Ok(latin)
}

/// A colour scheme with no colour set.
pub open spec fn colors_none() -> ThemeColors {
    ThemeColors {
        dk1: None,
        dk2: None,
        lt1: None,
        lt2: None,
        accent1: None,
        accent2: None,
        accent3: None,
        accent4: None,
        accent5: None,
        accent6: None,
        hlink: None,
        fol_hlink: None,
    }
}

/// Reading a theme part `x` (text trimmed) from call `n` on, with the
/// colours and the major and minor Latin typefaces read so far and `f`
/// events left: a colour scheme is read as `scheme_run` says and a major or
/// minor font as `font_run` says (each with the budget for what is left
/// unread); the end of input or the last event allowed ends the reading; an
/// error fails it.
pub open spec fn theme_run(x: Seq<u8>, n: nat, st: (Seq<Option<Seq<char>>>, Option<Seq<char>>, Option<Seq<char>>), f: nat) -> Result<(Seq<Option<Seq<char>>>, Option<Seq<char>>, Option<Seq<char>>), OxmlError>
    decreases f,
{
    if f == 0 {
        Ok(st)
    } else {
        let g = (f - 1) as nat;
        match xml_event(x, true, n) {
            Ok(ReadEvent::Start(t)) => if local_is(t.name@, "clrScheme"@) {
                let c = scheme_run(x, true, n + 1, st.0, None, budget_for(xml_unread(x, true, n + 1)));
                match c.0 {
                    Ok(v) => theme_run(x, c.1, (v, st.1, st.2), g),
                    Err(e) => Err(e),
                }
            } else if local_is(t.name@, "majorFont"@) {
                let c = font_run(x, true, n + 1, None, "majorFont"@, budget_for(xml_unread(x, true, n + 1)));
                match c.0 {
                    Ok(l) => theme_run(x, c.1, (st.0, l, st.2), g),
                    Err(e) => Err(e),
                }
            } else if local_is(t.name@, "minorFont"@) {
                let c = font_run(x, true, n + 1, None, "minorFont"@, budget_for(xml_unread(x, true, n + 1)));
                match c.0 {
                    Ok(l) => theme_run(x, c.1, (st.0, st.1, l), g),
                    Err(e) => Err(e),
                }
            } else {
                theme_run(x, n + 1, st, g)
            },
            Ok(ReadEvent::Eof) => Ok(st),
            Ok(_) => theme_run(x, n + 1, st, g),
            Err(e) => Err(e),
        }
    }
}

impl Theme {
    /// Read a theme part: its colour scheme (`parse_color_scheme`) and the
    /// Latin typefaces of its major and minor fonts (`parse_font_scheme`).
    pub fn from_xml(xml: &[u8]) -> (r: Result<Self, OxmlError>)
        ensures
            match theme_run(xml@, 0, (colors_view(colors_none()), None, None), budget_for(xml_unread(xml@, true, 0))) {
                Ok(v) => (r matches Ok(th) && colors_view(th.colors) == v.0 && opt_view(th.major_font) == v.1
                    && opt_view(th.minor_font) == v.2),
                Err(e) => r == Err::<Theme, OxmlError>(e),
            },
    {
        let mut reader = reader_from_bytes(xml, true);
        let mut colors = ThemeColors {
            dk1: None,
            dk2: None,
            lt1: None,
            lt2: None,
            accent1: None,
            accent2: None,
            accent3: None,
            accent4: None,
            accent5: None,
            accent6: None,
            hlink: None,
            fol_hlink: None,
        };
        let mut major_font: Option<String> = None;
        let mut minor_font: Option<String> = None;
        let budget = event_budget(unread_len(&reader));
        let ghost goal = theme_run(xml@, 0, (colors_view(colors_none()), None, None), budget as nat);
        let mut fuel = budget;
        while fuel > 0
            invariant_except_break
                theme_run(xml@, reader.count(), (colors_view(colors), opt_view(major_font), opt_view(minor_font)),
                    fuel as nat) == goal,
            invariant
                reader.input() == xml@,
                reader.trims(),
                goal == theme_run(xml@, 0, (colors_view(colors_none()), None, None), budget_for(xml_unread(xml@, true, 0))),
            ensures
                goal == Ok::<(Seq<Option<Seq<char>>>, Option<Seq<char>>, Option<Seq<char>>), OxmlError>((colors_view(colors), opt_view(major_font), opt_view(minor_font))),
            decreases fuel,
        {
            let ghost n = reader.count();
            let ghost st = (colors_view(colors), opt_view(major_font), opt_view(minor_font));
            let ghost f1 = fuel as nat;
            fuel = fuel - 1;
            match read_event(&mut reader) {
                Ok(ReadEvent::Start(t)) => {
                    let nm = t.name.as_str();
                    if name_is(nm, "clrScheme") {
                        if let Err(e) = parse_color_scheme(&mut reader, &mut colors) {
                            proof { assert(theme_run(xml@, n, st, f1) == Err::<(Seq<Option<Seq<char>>>, Option<Seq<char>>, Option<Seq<char>>), OxmlError>(e)); }
                            return Err(e);
                        }
                    } else if name_is(nm, "majorFont") {
                        match parse_font_scheme(&mut reader, "majorFont") {
                            Ok(l) => { major_font = l; },
                            Err(e) => {
                                proof { assert(theme_run(xml@, n, st, f1) == Err::<(Seq<Option<Seq<char>>>, Option<Seq<char>>, Option<Seq<char>>), OxmlError>(e)); }
                                return Err(e);
                            },
                        }
                    } else if name_is(nm, "minorFont") {
                        match parse_font_scheme(&mut reader, "minorFont") {
                            Ok(l) => { minor_font = l; },
                            Err(e) => {
                                proof { assert(theme_run(xml@, n, st, f1) == Err::<(Seq<Option<Seq<char>>>, Option<Seq<char>>, Option<Seq<char>>), OxmlError>(e)); }
                                return Err(e);
                            },
                        }
                    }
                },
                Ok(ReadEvent::Eof) => {
                    proof { assert(theme_run(xml@, n, st, f1) == Ok::<(Seq<Option<Seq<char>>>, Option<Seq<char>>, Option<Seq<char>>), OxmlError>(st)); }
                    break;
                },
                Ok(_) => {},
                Err(e) => {
                    proof { assert(theme_run(xml@, n, st, f1) == Err::<(Seq<Option<Seq<char>>>, Option<Seq<char>>, Option<Seq<char>>), OxmlError>(e)); }
                    return Err(e);
                },
            }
        }
        Ok(Theme { colors, major_font, minor_font })
    }
}

} // verus!
