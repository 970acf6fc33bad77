//! Style resolution: cascade styles along `basedOn` chains and generate list
//! numbering markers.

use vstd::prelude::*;

use crate::chars::{
    decimal, digit_char, digit_to_char, push_char, push_decimal, replace_all, replace_all_chars,
    str_chars, str_eq, string_from_chars,
};
use crate::numbering::{
    abstract_for, find_level, first_level, level_format, level_start, CT_Lvl, CT_Numbering,
    ST_NumberFormat,
};
use crate::properties::{ppr_is_empty, ppr_merged, rpr_is_empty, rpr_merged, CT_PPr, CT_RPr};
use crate::styles::{first_default_of, first_style_with_id, lemma_first_style_with_id, CT_Style,
    CT_Styles, StyleType};
use crate::text::RunContent;

verus! {

/// A fully resolved paragraph with merged properties and numbering info.
#[derive(Debug, Clone)]
pub struct ResolvedParagraph {
    /// Merged paragraph properties (style chain + direct formatting).
    pub ppr: CT_PPr,
    /// Resolved runs with merged run properties.
    pub runs: Vec<ResolvedRun>,
    /// Numbering marker info (if paragraph is part of a list).
    pub numbering: Option<ResolvedNumbering>,
}

/// A run with fully resolved properties.
#[derive(Debug, Clone)]
pub struct ResolvedRun {
    /// Merged run properties.
    pub rpr: CT_RPr,
    /// Run content items.
    pub content: Vec<RunContent>,
}

/// Resolved numbering marker for a list paragraph.
#[derive(Debug, Clone)]
pub struct ResolvedNumbering {
    /// The text of the marker (e.g., "1.", "a)", bullet char).
    pub marker_text: String,
    /// Run properties for the marker.
    pub marker_rpr: CT_RPr,
}

/// Tracks numbering counters across paragraphs, keyed by (numId, ilvl).
pub struct NumberingState {
    counters: Vec<(u32, u32, u32)>,
}

/// The counter recorded for (`n`, `l`): the last entry for that key.
pub open spec fn lookup_count(e: Seq<(u32, u32, u32)>, n: u32, l: u32) -> Option<u32>
    decreases e.len(),
{
    if e.len() == 0 {
        None
    } else if e.last().0 == n && e.last().1 == l {
        Some(e.last().2)
    } else {
        lookup_count(e.drop_last(), n, l)
    }
}

/// Whether advancing (`num_id`, `ilvl`) clears the counter of (`n`, `l`): the
/// same list, a level below up to level 8.
pub open spec fn reset_by(num_id: u32, ilvl: u32, n: u32, l: u32) -> bool {
    n == num_id && ilvl < l && l <= 8
}

impl NumberingState {
    /// The counter for (`n`, `l`), if one has been started.
    pub closed spec fn count(self, n: u32, l: u32) -> Option<u32> {
        lookup_count(self.counters@, n, l)
    }

    /// The value a counter shows: its count, or 0 when never advanced.
    pub open spec fn shown(self, n: u32, l: u32) -> u32 {
        match self.count(n, l) {
            Some(c) => c,
            None => 0,
        }
    }

    /// The value `advance` gives (`n`, `l`) with start value `start`.
    pub open spec fn next_value(self, n: u32, l: u32, start: u32) -> int {
        match self.count(n, l) {
            Some(c) => c + 1,
            None => start as int,
        }
    }

    /// No counter is running.
    pub fn new() -> (r: Self)
        ensures
            forall|n: u32, l: u32| r.count(n, l) is None,
    {
        NumberingState { counters: Vec::new() }
    }

    /// Advance the counter for the given numId/ilvl and return the new value:
    /// one more than the counter, or `start` for a counter not yet running.
    /// The counters of deeper levels (up to 8) of the same list are reset.
    pub fn advance(&mut self, num_id: u32, ilvl: u32, start: u32) -> (v: u32)
        requires
            ilvl < u32::MAX,
            match old(self).count(num_id, ilvl) {
                Some(c) => c < u32::MAX,
                None => start >= 1,
            },
        ensures
            v == old(self).next_value(num_id, ilvl, start),
            forall|n: u32, l: u32| #[trigger] final(self).count(n, l) == if n == num_id && l == ilvl {
                Some(v)
            } else if reset_by(num_id, ilvl, n, l) {
                None
            } else {
                old(self).count(n, l)
            },
    {
        let cur = self.lookup(num_id, ilvl);
        let v = match cur {
            Some(c) => c + 1,
            None => start,
        };
        let mut kept: Vec<(u32, u32, u32)> = Vec::new();
        let mut i: usize = 0;
        while i < self.counters.len()
            invariant
                i <= self.counters@.len(),
                forall|n: u32, l: u32| #[trigger] lookup_count(kept@, n, l) == if (n == num_id && l == ilvl)
                    || reset_by(num_id, ilvl, n, l) {
                    None
                } else {
                    lookup_count(self.counters@.subrange(0, i as int), n, l)
                },
            decreases self.counters@.len() - i,
        {
            let e = self.counters[i];
            let drop = e.0 == num_id && (e.1 == ilvl || (ilvl < e.1 && e.1 <= 8));
            let ghost before = kept@;
            if !drop {
                kept.push(e);
            }
            proof {
                assert(self.counters@.subrange(0, i + 1).drop_last()
                    =~= self.counters@.subrange(0, i as int));
                assert(self.counters@.subrange(0, i + 1).last() == e);
                if !drop {
                    assert(kept@.drop_last() =~= before);
                }
                assert forall|n: u32, l: u32| #[trigger] lookup_count(kept@, n, l) == if (n == num_id
                    && l == ilvl) || reset_by(num_id, ilvl, n, l) {
                    None
                } else {
                    lookup_count(self.counters@.subrange(0, i + 1), n, l)
                } by {
                    assert(lookup_count(before, n, l) == if (n == num_id && l == ilvl) || reset_by(
                        num_id, ilvl, n, l) {
                        None
                    } else {
                        lookup_count(self.counters@.subrange(0, i as int), n, l)
                    });
                }
            }
            i = i + 1;
        }
        proof { assert(self.counters@.subrange(0, i as int) =~= self.counters@); }
        let ghost before = kept@;
        kept.push((num_id, ilvl, v));
        proof {
            assert(kept@.drop_last() =~= before);
            assert forall|n: u32, l: u32| #[trigger] lookup_count(kept@, n, l) == if n == num_id && l == ilvl {
                Some(v)
            } else {
                lookup_count(before, n, l)
            } by {}
        }
        self.counters = kept;
        v
    }

    /// The counter for (`n`, `l`), read from the entries.
    fn lookup(&self, n: u32, l: u32) -> (r: Option<u32>)
        ensures
            r == self.count(n, l),
    {
        let mut i: usize = self.counters.len();
        proof { assert(self.counters@.subrange(0, i as int) =~= self.counters@); }
        while i > 0
            invariant
                i <= self.counters@.len(),
                lookup_count(self.counters@, n, l) == lookup_count(self.counters@.subrange(0, i as int), n, l),
            decreases i,
        {
            let e = self.counters[i - 1];
            proof {
                assert(self.counters@.subrange(0, i as int).drop_last()
                    =~= self.counters@.subrange(0, i - 1));
            }
            if e.0 == n && e.1 == l {
                return Some(e.2);
            }
            i = i - 1;
        }
        None
    }

    /// Get the current count for a level (without advancing); 0 when never advanced.
    pub fn current(&self, num_id: u32, ilvl: u32) -> (r: u32)
        ensures
            r == self.shown(num_id, ilvl),
    {
        match self.lookup(num_id, ilvl) {
            Some(c) => c,
            None => 0,
        }
    }
}


/// What one call of `advance` with (`num_id`, `ilvl`, `start`) returning
/// `v` does to the counters, as its contract states.
pub open spec fn advance_step(s: NumberingState, t: NumberingState, op: (u32, u32, u32), v: u32) -> bool {
    &&& v == s.next_value(op.0, op.1, op.2)
    &&& forall|n: u32, l: u32| #[trigger] t.count(n, l) == if n == op.0 && l == op.1 {
        Some(v)
    } else if reset_by(op.0, op.1, n, l) {
        None
    } else {
        s.count(n, l)
    }
}

/// The value (`n`, `l`) shows after the calls `ops` returned `vals`: the
/// value returned by the last call for (`n`, `l`), or 0 when there was
/// none or a call for a higher level of the same list came after it.
pub open spec fn shown_after(ops: Seq<(u32, u32, u32)>, vals: Seq<u32>, n: u32, l: u32) -> u32
    decreases ops.len(),
{
    if ops.len() == 0 || vals.len() != ops.len() {
        0
    } else if ops.last().0 == n && ops.last().1 == l {
        vals.last()
    } else if reset_by(ops.last().0, ops.last().1, n, l) {
        0
    } else {
        shown_after(ops.drop_last(), vals.drop_last(), n, l)
    }
}

/// Starting from no counters, after any sequence of `advance` calls each
/// counter shows the value of the last call for it, or 0 where there was
/// none or a call for a higher level of the same list (up to level 8)
/// came after it.
pub proof fn lemma_numbering_counters(states: Seq<NumberingState>, ops: Seq<(u32, u32, u32)>, vals: Seq<u32>)
    requires
        states.len() == ops.len() + 1,
        vals.len() == ops.len(),
        forall|n: u32, l: u32| #[trigger] states[0].count(n, l) is None,
        forall|i: int| 0 <= i < ops.len() ==> advance_step(#[trigger] states[i], states[i + 1], ops[i], vals[i]),
    ensures
        forall|n: u32, l: u32| #[trigger] states.last().shown(n, l) == shown_after(ops, vals, n, l),
    decreases ops.len(),
{
    if ops.len() == 0 {
        assert forall|n: u32, l: u32| #[trigger] states.last().shown(n, l) == shown_after(ops, vals, n, l) by {
            assert(states[0].count(n, l) is None);
        }
    } else {
        let k = ops.len() - 1;
        lemma_numbering_counters(states.drop_last(), ops.drop_last(), vals.drop_last());
        assert(advance_step(states[k], states[k + 1], ops[k], vals[k]));
        assert forall|n: u32, l: u32| #[trigger] states.last().shown(n, l) == shown_after(ops, vals, n, l) by {
            assert(states.drop_last().last() == states[k]);
            assert(states.last() == states[k + 1]);
            assert(states[k + 1].count(n, l) == if n == ops[k].0 && l == ops[k].1 {
                Some(vals[k])
            } else if reset_by(ops[k].0, ops[k].1, n, l) {
                None
            } else {
                states[k].count(n, l)
            });
            assert(states.drop_last().last().shown(n, l) == shown_after(ops.drop_last(), vals.drop_last(), n, l));
        }
    }
}
} // verus!

verus! {

/// Roman numeral of `n` (upper case), built greedily from the largest value:
/// M, CM, D, CD, C, XC, L, XL, X, IX, V, IV, I. Empty for zero.
pub open spec fn roman(n: nat) -> Seq<char>
    decreases n,
{
    if n >= 1000 {
        seq!['M'] + roman((n - 1000) as nat)
    } else if n >= 900 {
        seq!['C', 'M'] + roman((n - 900) as nat)
    } else if n >= 500 {
        seq!['D'] + roman((n - 500) as nat)
    } else if n >= 400 {
        seq!['C', 'D'] + roman((n - 400) as nat)
    } else if n >= 100 {
        seq!['C'] + roman((n - 100) as nat)
    } else if n >= 90 {
        seq!['X', 'C'] + roman((n - 90) as nat)
    } else if n >= 50 {
        seq!['L'] + roman((n - 50) as nat)
    } else if n >= 40 {
        seq!['X', 'L'] + roman((n - 40) as nat)
    } else if n >= 10 {
        seq!['X'] + roman((n - 10) as nat)
    } else if n >= 9 {
        seq!['I', 'X'] + roman((n - 9) as nat)
    } else if n >= 5 {
        seq!['V'] + roman((n - 5) as nat)
    } else if n >= 4 {
        seq!['I', 'V'] + roman((n - 4) as nat)
    } else if n >= 1 {
        seq!['I'] + roman((n - 1) as nat)
    } else {
        Seq::empty()
    }
}

/// The lower-case form of an ASCII letter; other characters are unchanged.
pub open spec fn ascii_lower(c: char) -> char {
    if 'A' <= c && c <= 'Z' { ((c as u32) + 32) as char } else { c }
}

/// Lower-cases the ASCII letters of `s`.
pub open spec fn lower(s: Seq<char>) -> Seq<char> {
    s.map_values(|c: char| ascii_lower(c))
}

/// The lower-case form of an ASCII letter.
pub fn to_ascii_lower(c: char) -> (r: char)
    ensures
        r == ascii_lower(c),
{
    if 'A' <= c && c <= 'Z' {
        let u: u32 = (c as u32) + 32;
        assert(u == (c as u32) + 32);
        char_from_ascii(u)
    } else {
        c
    }
}

/// The character with ASCII code `u`.
fn char_from_ascii(u: u32) -> (r: char)
    requires
        u < 128,
    ensures
        r == u as char,
{
    let b: u8 = u as u8;
    b as char
}

/// Format `n` as a Roman numeral, upper or lower case.
pub fn to_roman(n: u32, upper: bool) -> (r: String)
    ensures
        r@ == if upper { roman(n as nat) } else { lower(roman(n as nat)) },
{
    let mut m: u32 = n;
    let mut out: Vec<char> = Vec::new();
    while m > 0
        invariant
            out@ + roman(m as nat) == roman(n as nat),
        decreases m,
    {
        let ghost before = out@;
        let ghost m0 = m;
        if m >= 1000 {
            out.push('M'); m = m - 1000;
        } else if m >= 900 {
            out.push('C'); out.push('M'); m = m - 900;
        } else if m >= 500 {
            out.push('D'); m = m - 500;
        } else if m >= 400 {
            out.push('C'); out.push('D'); m = m - 400;
        } else if m >= 100 {
            out.push('C'); m = m - 100;
        } else if m >= 90 {
            out.push('X'); out.push('C'); m = m - 90;
        } else if m >= 50 {
            out.push('L'); m = m - 50;
        } else if m >= 40 {
            out.push('X'); out.push('L'); m = m - 40;
        } else if m >= 10 {
            out.push('X'); m = m - 10;
        } else if m >= 9 {
            out.push('I'); out.push('X'); m = m - 9;
        } else if m >= 5 {
            out.push('V'); m = m - 5;
        } else if m >= 4 {
            out.push('I'); out.push('V'); m = m - 4;
        } else {
            out.push('I'); m = m - 1;
        }
        proof {
            assert(before + roman(m0 as nat) == roman(n as nat));
            assert(out@ + roman(m as nat) =~= before + roman(m0 as nat));
        }
    }
    proof { assert(out@ =~= roman(n as nat)); }
    if !upper {
        let mut low: Vec<char> = Vec::new();
        let mut i: usize = 0;
        while i < out.len()
            invariant
                i <= out@.len(),
                low@ =~= lower(out@).subrange(0, i as int),
            decreases out@.len() - i,
        {
            low.push(to_ascii_lower(out[i]));
            i = i + 1;
        }
        return string_from_chars(low.as_slice());
    }
    string_from_chars(out.as_slice())
}

/// The letter numbering of `n`: A..Z (or a..z) for 1..26, repeating from 27;
/// empty for zero.
pub open spec fn letter(n: nat, upper: bool) -> Seq<char> {
    if n == 0 {
        Seq::empty()
    } else {
        seq![((if upper { 65int } else { 97int }) + (n - 1) % 26) as char]
    }
}

/// Format `n` as a letter, wrapping after Z.
pub fn to_letter(n: u32, upper: bool) -> (r: String)
    ensures
        r@ == letter(n as nat, upper),
{
    if n == 0 {
        return String::new();
    }
    let base: u32 = if upper { 65 } else { 97 };
    let idx: u32 = (n - 1) % 26;
    let c = char_from_ascii(base + idx);
    let mut s = String::new();
    push_char(&mut s, c);
    proof { assert(s@ =~= letter(n as nat, upper)); }
    s
}

/// The text of counter value `n` in format `fmt`.
pub open spec fn number_text(n: u32, fmt: ST_NumberFormat) -> Seq<char> {
    match fmt {
        ST_NumberFormat::Decimal => decimal(n as nat),
        ST_NumberFormat::Ordinal => decimal(n as nat),
        ST_NumberFormat::UpperRoman => roman(n as nat),
        ST_NumberFormat::LowerRoman => lower(roman(n as nat)),
        ST_NumberFormat::UpperLetter => letter(n as nat, true),
        ST_NumberFormat::LowerLetter => letter(n as nat, false),
        ST_NumberFormat::Bullet => Seq::empty(),
        ST_NumberFormat::NoNumber => Seq::empty(),
    }
}

/// Format a number according to `fmt`.
pub fn format_number(n: u32, fmt: ST_NumberFormat) -> (r: String)
    ensures
        r@ == number_text(n, fmt),
{
    match fmt {
        ST_NumberFormat::Decimal | ST_NumberFormat::Ordinal => {
            let mut s = String::new();
            push_decimal(&mut s, n as u64);
            proof { assert(s@ =~= decimal(n as nat)); }
            s
        },
        ST_NumberFormat::UpperRoman => to_roman(n, true),
        ST_NumberFormat::LowerRoman => to_roman(n, false),
        ST_NumberFormat::UpperLetter => to_letter(n, true),
        ST_NumberFormat::LowerLetter => to_letter(n, false),
        ST_NumberFormat::Bullet | ST_NumberFormat::NoNumber => String::new(),
    }
}

} // verus!

verus! {

/// The placeholder for level `k` (0-based) in a level text: "%" and `k + 1`.
pub open spec fn level_placeholder(k: nat) -> Seq<char> {
    seq!['%', digit_char(k + 1)]
}

/// The number format of level `k` of a definition: that of its first level
/// with index `k`, decimal when there is none or it sets none.
pub open spec fn format_of_level(levels: Seq<CT_Lvl>, k: u32) -> ST_NumberFormat {
    match first_level(levels, k) {
        Some(i) => level_format(levels[i]),
        None => ST_NumberFormat::Decimal,
    }
}

/// The counter shown for level `k`: `current_count` for the current level,
/// otherwise what `state` shows for it.
pub open spec fn level_value(state: NumberingState, num_id: u32, current_ilvl: u32,
    current_count: u32, k: u32) -> u32 {
    if k == current_ilvl { current_count } else { state.shown(num_id, k) }
}

/// The level text `s` with the placeholders of levels `k..9` replaced, in
/// order, by the formatted counters of those levels.
pub open spec fn fill_levels(s: Seq<char>, k: nat, levels: Seq<CT_Lvl>, state: NumberingState,
    num_id: u32, current_ilvl: u32, current_count: u32) -> Seq<char>
    decreases 9 - k,
{
    if k >= 9 {
        s
    } else {
        fill_levels(
            replace_all(s, level_placeholder(k), number_text(
                level_value(state, num_id, current_ilvl, current_count, k as u32),
                format_of_level(levels, k as u32),
            )),
            k + 1, levels, state, num_id, current_ilvl, current_count,
        )
    }
}

/// The marker text for a level text: the template itself when `num_id` has
/// no abstract definition, otherwise the template with every level
/// placeholder "%1".."%9" replaced by that level's formatted counter.
pub open spec fn lvl_text_filled(template: Seq<char>, num_id: u32, current_ilvl: u32,
    current_count: u32, numbering: CT_Numbering, state: NumberingState) -> Seq<char> {
    match abstract_for(numbering, num_id) {
        Some(a) => fill_levels(template, 0, numbering.abstract_nums@[a].levels@, state, num_id,
            current_ilvl, current_count),
        None => template,
    }
}

/// Format level text by substituting %1, %2, etc. with formatted counters.
pub fn format_lvl_text(
    template: &str,
    num_id: u32,
    current_ilvl: u32,
    current_count: u32,
    numbering: &CT_Numbering,
    state: &NumberingState,
) -> (r: String)
    ensures
        r@ == lvl_text_filled(template@, num_id, current_ilvl, current_count, *numbering, *state),
{
    let abs = match numbering.get_abstract_num_for(num_id) {
        Some(a) => a,
        None => {
            return crate::chars::to_owned_string(template);
        },
    };
    let mut result = str_chars(template);
    let mut k: u32 = 0;
    while k < 9
        invariant
            k <= 9,
            abstract_for(*numbering, num_id) matches Some(a) && *abs == numbering.abstract_nums@[a],
            fill_levels(result@, k as nat, abs.levels@, *state, num_id, current_ilvl, current_count)
                == lvl_text_filled(template@, num_id, current_ilvl, current_count, *numbering, *state),
        decreases 9 - k,
    {
        let mut placeholder: Vec<char> = Vec::new();
        placeholder.push('%');
        placeholder.push(digit_to_char((k + 1) as u64));
        proof { assert(placeholder@ =~= level_placeholder(k as nat)); }
        let count = if k == current_ilvl { current_count } else { state.current(num_id, k) };
        proof { crate::numbering::lemma_first_level(abs.levels@, k); }
        let fmt = match find_level(&abs.levels, k) {
            Some(i) => match abs.levels[i].num_fmt {
                Some(f) => f,
                None => ST_NumberFormat::Decimal,
            },
            None => ST_NumberFormat::Decimal,
        };
        let formatted = format_number(count, fmt);
        let fc = str_chars(formatted.as_str());
        result = replace_all_chars(result.as_slice(), placeholder.as_slice(), fc.as_slice());
        k = k + 1;
    }
    string_from_chars(result.as_slice())
}

/// The level a marker is generated from: level `ilvl` of the definition
/// `num_id` uses.
pub open spec fn marker_level(numbering: CT_Numbering, num_id: u32, ilvl: u32) -> Option<CT_Lvl> {
    match abstract_for(numbering, num_id) {
        Some(a) => match first_level(numbering.abstract_nums@[a].levels@, ilvl) {
            Some(i) => Some(numbering.abstract_nums@[a].levels@[i]),
            None => None,
        },
        None => None,
    }
}

/// A level's text template, "%1." when unset.
pub open spec fn level_template(l: CT_Lvl) -> Seq<char> {
    match l.lvl_text {
        Some(t) => t@,
        None => "%1."@,
    }
}

/// Whether generating a marker for (`num_id`, `ilvl`) stays within the
/// counters' range: a numbered level's counter is below the maximum (or, not
/// yet running, starts at 1 or more) and the level index is below the maximum.
pub open spec fn marker_in_range(numbering: CT_Numbering, state: NumberingState, num_id: u32,
    ilvl: u32) -> bool {
    match marker_level(numbering, num_id, ilvl) {
        Some(l) => level_format(l) != ST_NumberFormat::Bullet ==> ilvl < u32::MAX
            && match state.count(num_id, ilvl) {
            Some(c) => c < u32::MAX,
            None => level_start(l) >= 1,
        },
        None => true,
    }
}

/// Generate the marker text for a numbered/bulleted list item.
///
/// A bullet level's marker is its level text and leaves the counters alone;
/// a numbered level advances its counter (resetting deeper levels) and fills
/// the level text with the counters.
pub fn generate_marker(
    num_id: u32,
    ilvl: u32,
    numbering: &CT_Numbering,
    state: &mut NumberingState,
) -> (r: Option<ResolvedNumbering>)
    requires
        marker_in_range(*numbering, *old(state), num_id, ilvl),
    ensures
        r is None <==> marker_level(*numbering, num_id, ilvl) is None,
        r is None ==> *final(state) == *old(state),
        r matches Some(m) ==> marker_level(*numbering, num_id, ilvl) matches Some(l) && ({
            &&& (level_format(l) == ST_NumberFormat::Bullet ==> m.marker_text@ == level_template(l)
                && *final(state) == *old(state))
            &&& (level_format(l) != ST_NumberFormat::Bullet ==> {
                let v = old(state).next_value(num_id, ilvl, level_start(l));
                &&& forall|n: u32, k: u32| #[trigger] final(state).count(n, k) == if n == num_id
                    && k == ilvl {
                    Some(v as u32)
                } else if reset_by(num_id, ilvl, n, k) {
                    None
                } else {
                    old(state).count(n, k)
                }
                &&& m.marker_text@ == lvl_text_filled(level_template(l), num_id, ilvl, v as u32,
                    *numbering, *final(state))
            })
            &&& (l.rpr matches Some(x) ==> m.marker_rpr.same_formatting(x))
            &&& (l.rpr is None ==> rpr_is_empty(m.marker_rpr))
        }),
{
    let abs = match numbering.get_abstract_num_for(num_id) {
        Some(a) => a,
        None => {
            return None;
        },
    };
    let li = match find_level(&abs.levels, ilvl) {
        Some(i) => i,
        None => {
            return None;
        },
    };
    proof { crate::numbering::lemma_first_level(abs.levels@, ilvl); }
    let lvl = &abs.levels[li];
    let num_fmt = match lvl.num_fmt {
        Some(f) => f,
        None => ST_NumberFormat::Decimal,
    };
    let start = match lvl.start {
        Some(s) => s,
        None => 1,
    };
    let template: &str = match &lvl.lvl_text {
        Some(t) => t.as_str(),
        None => "%1.",
    };
    let marker_text = if num_fmt == ST_NumberFormat::Bullet {
        crate::chars::to_owned_string(template)
    } else {
        let count = state.advance(num_id, ilvl, start);
        format_lvl_text(template, num_id, ilvl, count, numbering, state)
    };
    let marker_rpr = match &lvl.rpr {
        Some(x) => x.clone(),
        None => CT_RPr::default(),
    };
    Some(ResolvedNumbering { marker_text, marker_rpr })
}

} // verus!

verus! {

/// The chain from the style with id `id` up through its `basedOn`
/// ancestors, stopping at a missing style or an id already in `seen` (a
/// cycle), or when `fuel` runs out.
pub open spec fn chain_from(styles: Seq<CT_Style>, id: Seq<char>, seen: Seq<Seq<char>>, fuel: nat)
    -> Seq<CT_Style>
    decreases fuel,
{
    if fuel == 0 || seen.contains(id) {
        Seq::empty()
    } else {
        match first_style_with_id(styles, id) {
            None => Seq::empty(),
            Some(i) => seq![styles[i]] + match styles[i].based_on {
                Some(b) => chain_from(styles, b@, seen.push(id), (fuel - 1) as nat),
                None => Seq::empty(),
            },
        }
    }
}

/// The style chain of `id`: the style, its parent, its grandparent, … as
/// long as each exists and no id repeats. (One step more than there are
/// styles is always enough.)
pub open spec fn style_chain(styles: Seq<CT_Style>, id: Seq<char>) -> Seq<CT_Style> {
    chain_from(styles, id, Seq::empty(), styles.len() + 1)
}

/// Whether a chain of styles starts at `id`, each style's `basedOn` names
/// the next, no id repeats, and none is in `seen`.
pub open spec fn chain_shaped(c: Seq<CT_Style>, id: Seq<char>, seen: Seq<Seq<char>>) -> bool {
    ids_shaped(c.map_values(|s: CT_Style| s.style_id@), c.map_values(|s: CT_Style| opt_str(s.based_on)), id, seen)
}

/// An optional string's characters.
pub open spec fn opt_str(o: Option<String>) -> Option<Seq<char>> {
    match o {
        Some(s) => Some(s@),
        None => None,
    }
}

/// The shape of a chain given its ids and bases.
pub open spec fn ids_shaped(ids: Seq<Seq<char>>, bases: Seq<Option<Seq<char>>>, id: Seq<char>, seen: Seq<Seq<char>>) -> bool {
    &&& ids.len() == bases.len()
    &&& ids.len() > 0 ==> ids[0] == id
    &&& forall|i: int| 0 <= i < ids.len() - 1 ==> #[trigger] bases[i] == Some(ids[i + 1])
    &&& forall|i: int| 0 <= i < ids.len() ==> !seen.contains(#[trigger] ids[i])
    &&& forall|i: int, j: int| 0 <= i < j < ids.len() ==> #[trigger] ids[i] != #[trigger] ids[j]
}

/// A chain with one more id in front keeps its shape.
proof fn lemma_ids_cons(
    hid: Seq<char>,
    hb: Seq<char>,
    ids: Seq<Seq<char>>,
    bases: Seq<Option<Seq<char>>>,
    seen: Seq<Seq<char>>,
)
    requires
        !seen.contains(hid),
        ids_shaped(ids, bases, hb, seen.push(hid)),
    ensures
        ids_shaped(seq![hid] + ids, seq![Some(hb)] + bases, hid, seen),
{
    let ci = seq![hid] + ids;
    let cb = seq![Some(hb)] + bases;
    assert forall|i: int| 0 <= i < ci.len() implies !seen.contains(#[trigger] ci[i]) by {
        if i > 0 {
            assert(ci[i] == ids[i - 1]);
            assert(!seen.push(hid).contains(ids[i - 1]));
            if seen.contains(ids[i - 1]) {
                let w = choose|w: int| 0 <= w < seen.len() && seen[w] == ids[i - 1];
                assert(seen.push(hid)[w] == seen[w]);
            }
        }
    }
    assert forall|i: int, j: int| 0 <= i < j < ci.len() implies #[trigger] ci[i] != #[trigger] ci[j] by {
        assert(ci[j] == ids[j - 1]);
        if i == 0 {
            assert(!seen.push(hid).contains(ids[j - 1]));
            assert(seen.push(hid)[seen.len() as int] == hid);
        } else {
            assert(ci[i] == ids[i - 1]);
        }
    }
    assert forall|i: int| 0 <= i < ci.len() - 1 implies #[trigger] cb[i] == Some(ci[i + 1]) by {
        assert(ci[i + 1] == ids[i]);
        if i > 0 {
            assert(cb[i] == bases[i - 1]);
        }
    }
}

/// A chain read from `id`, with the ids in `seen` already visited, has
/// that shape.
#[verifier::rlimit(40)]
pub proof fn lemma_chain_from_shape(styles: Seq<CT_Style>, id: Seq<char>, seen: Seq<Seq<char>>, fuel: nat)
    ensures
        chain_shaped(chain_from(styles, id, seen, fuel), id, seen),
    decreases fuel,
{
    if !(fuel == 0 || seen.contains(id)) {
        crate::styles::lemma_first_style_with_id(styles, id);
        match first_style_with_id(styles, id) {
            None => {},
            Some(k) => {
                let head = styles[k];
                match head.based_on {
                    Some(b) => {
                        lemma_chain_from_shape(styles, b@, seen.push(id), (fuel - 1) as nat);
                        let rest = chain_from(styles, b@, seen.push(id), (fuel - 1) as nat);
                        let f = |s: CT_Style| s.style_id@;
                        let g = |s: CT_Style| opt_str(s.based_on);
                        lemma_ids_cons(id, b@, rest.map_values(f), rest.map_values(g), seen);
                        let c = chain_from(styles, id, seen, fuel);
                        assert(c == seq![head] + rest);
                        assert(c.map_values(f) =~= seq![id] + rest.map_values(f));
                        assert(c.map_values(g) =~= seq![Some(b@)] + rest.map_values(g));
                    },
                    None => {
                        let c = chain_from(styles, id, seen, fuel);
                        assert(c =~= seq![head]);
                        assert(c.map_values(|s: CT_Style| s.style_id@) =~= seq![id]);
                    },
                }
            },
        }
    }
}

/// The style chain of `id` starts at the style with that id, each style's
/// `basedOn` names the next one, and no id occurs twice.
pub proof fn lemma_style_chain_shape(styles: Seq<CT_Style>, id: Seq<char>)
    ensures
        chain_shaped(style_chain(styles, id), id, Seq::empty()),
{
    lemma_chain_from_shape(styles, id, Seq::empty(), styles.len() + 1);
}

/// Each style of a chain is the first style with the id its predecessor is
/// based on, and the chain starts at the first style with `id`.
proof fn lemma_chain_from_steps(styles: Seq<CT_Style>, id: Seq<char>, seen: Seq<Seq<char>>, fuel: nat)
    ensures
        ({
            let c = chain_from(styles, id, seen, fuel);
            &&& c.len() > 0 ==> (first_style_with_id(styles, id) matches Some(i) && c[0] == styles[i])
            &&& fuel > 0 && !seen.contains(id) && first_style_with_id(styles, id) is Some ==> c.len() > 0
            &&& forall|k: int|
                0 <= k < c.len() - 1 ==> (#[trigger] c[k].based_on matches Some(b) && first_style_with_id(
                    styles,
                    b@,
                ) matches Some(j) && c[k + 1] == styles[j])
        }),
    decreases fuel,
{
    if fuel > 0 && !seen.contains(id) {
        if let Some(i) = first_style_with_id(styles, id) {
            let c = chain_from(styles, id, seen, fuel);
            match styles[i].based_on {
                Some(b) => {
                    let rest = chain_from(styles, b@, seen.push(id), (fuel - 1) as nat);
                    lemma_chain_from_steps(styles, b@, seen.push(id), (fuel - 1) as nat);
                    assert(c == seq![styles[i]] + rest);
                    assert forall|k: int| 0 <= k < c.len() - 1 implies (#[trigger] c[k].based_on matches Some(b2)
                        && first_style_with_id(styles, b2@) matches Some(j) && c[k + 1] == styles[j]) by {
                        if k == 0 {
                            assert(c[0] == styles[i]);
                            assert(c[1] == rest[0]);
                        } else {
                            assert(c[k] == rest[k - 1]);
                            assert(c[k + 1] == rest[k]);
                        }
                    }
                },
                None => {
                    assert(c =~= seq![styles[i]]);
                },
            }
        }
    }
}

/// The style chain as `get_by_id` walks it: empty exactly when no style
/// has the id; otherwise it starts at the style `get_by_id` finds for the
/// id, and each next style is the one `get_by_id` finds for the id its
/// predecessor is based on.
pub proof fn lemma_style_chain_steps(styles: Seq<CT_Style>, id: Seq<char>)
    ensures
        ({
            let c = style_chain(styles, id);
            &&& (c.len() == 0) == (first_style_with_id(styles, id) is None)
            &&& c.len() > 0 ==> (first_style_with_id(styles, id) matches Some(i) && c[0] == styles[i])
            &&& forall|k: int|
                0 <= k < c.len() - 1 ==> (#[trigger] c[k].based_on matches Some(b) && first_style_with_id(
                    styles,
                    b@,
                ) matches Some(j) && c[k + 1] == styles[j])
        }),
{
    lemma_chain_from_steps(styles, id, Seq::empty(), styles.len() + 1);
}

/// The ids of a sequence of styles.
pub open spec fn style_ids(styles: Seq<CT_Style>) -> Seq<Seq<char>> {
    styles.map_values(|s: CT_Style| s.style_id@)
}

/// Distinct ids that all name styles are no more than the styles.
proof fn lemma_distinct_ids_bounded(ids: Seq<Seq<char>>, styles: Seq<CT_Style>)
    requires
        ids.no_duplicates(),
        forall|k: int| 0 <= k < ids.len() ==> #[trigger] first_style_with_id(styles, ids[k]) is Some,
    ensures
        ids.len() <= styles.len(),
{
    let pool = style_ids(styles);
    assert forall|x: Seq<char>| ids.to_set().contains(x) implies pool.to_set().contains(x) by {
        let k = choose|k: int| 0 <= k < ids.len() && ids[k] == x;
        assert(first_style_with_id(styles, ids[k]) is Some);
        lemma_first_style_with_id(styles, x);
        let i = first_style_with_id(styles, x)->0;
        assert(pool[i] == x);
    }
    ids.unique_seq_to_set();
    pool.lemma_cardinality_of_set();
    vstd::seq_lib::seq_to_set_is_finite(pool);
    vstd::set_lib::lemma_len_subset(ids.to_set(), pool.to_set());
}

/// The character sequences of a sequence of string slices.
pub open spec fn str_views(v: Seq<&str>) -> Seq<Seq<char>> {
    v.map_values(|s: &str| s@)
}

/// Whether `ids` holds `id`.
fn seen_contains(ids: &Vec<&str>, id: &str) -> (r: bool)
    ensures
        r == str_views(ids@).contains(id@),
{
    let ghost v = str_views(ids@);
    let mut i: usize = 0;
    while i < ids.len()
        invariant
            i <= ids@.len(),
            v == str_views(ids@),
            forall|k: int| 0 <= k < i ==> v[k] != id@,
        decreases ids@.len() - i,
    {
        if str_eq(ids[i], id) {
            assert(v[i as int] == id@);
            return true;
        }
        i = i + 1;
    }
    false
}

/// Collect the style chain from the given style up through basedOn
/// ancestors, stopping at a missing style or a repeated id.
pub fn collect_style_chain<'a>(style_id: &str, styles: &'a CT_Styles) -> (r: Vec<&'a CT_Style>)
    ensures
        r@.len() == style_chain(styles.styles@, style_id@).len(),
        forall|i: int| 0 <= i < r@.len() ==> *r@[i] == style_chain(styles.styles@, style_id@)[i],
{
    let ghost all = styles.styles@;
    let ghost target = style_chain(all, style_id@);
    let mut chain: Vec<&'a CT_Style> = Vec::new();
    let mut seen: Vec<&str> = Vec::new();
    let mut current: &str = style_id;
    let ghost mut rest = target;
    proof {
        assert(str_views(seen@) =~= Seq::<Seq<char>>::empty());
    }
    loop
        invariant_except_break
            rest == chain_from(all, current@, str_views(seen@),
                (all.len() + 1 - seen@.len()) as nat),
            chain@.len() + rest.len() == target.len(),
            forall|i: int| 0 <= i < rest.len() ==> rest[i] == target[chain@.len() + i],
        invariant
            all == styles.styles@,
            target == style_chain(all, style_id@),
            str_views(seen@).no_duplicates(),
            forall|k: int| 0 <= k < seen@.len() ==> #[trigger] first_style_with_id(all,
                str_views(seen@)[k]) is Some,
            seen@.len() <= all.len(),
            chain@.len() <= target.len(),
            forall|i: int| 0 <= i < chain@.len() ==> *chain@[i] == target[i],
        ensures
            chain@.len() == target.len(),
            forall|i: int| 0 <= i < chain@.len() ==> *chain@[i] == target[i],
        decreases all.len() + 1 - seen@.len(),
    {
        let ghost sv = str_views(seen@);
        if seen_contains(&seen, current) {
            assert(rest.len() == 0);
            break;
        }
        proof { lemma_first_style_with_id(all, current@); }
        match styles.position_of(current) {
            Some(i) => {
                let style = &styles.styles[i];
                proof {
                    assert(rest.len() >= 1);
                    assert(rest[0] == all[i as int]);
                }
                chain.push(style);
                seen.push(current);
                proof {
                    let nv = str_views(seen@);
                    assert(nv =~= sv.push(current@));
                    assert forall|a: int, b: int| 0 <= a < nv.len() && 0 <= b < nv.len() && a != b
                        implies nv[a] != nv[b] by {
                        if a < sv.len() && b < sv.len() {
                        } else if a == sv.len() {
                            assert(!sv.contains(current@));
                            assert(nv[b] == sv[b]);
                        } else {
                            assert(!sv.contains(current@));
                            assert(nv[a] == sv[a]);
                        }
                    }
                    assert forall|k: int| 0 <= k < nv.len() implies #[trigger] first_style_with_id(all,
                        nv[k]) is Some by {
                        if k < sv.len() {
                            assert(nv[k] == sv[k]);
                        }
                    }
                    lemma_distinct_ids_bounded(nv, all);
                }
                match &style.based_on {
                    Some(b) => {
                        proof {
                            let old_rest = rest;
                            rest = chain_from(all, b@, str_views(seen@),
                                (all.len() + 1 - seen@.len()) as nat);
                            assert(old_rest =~= seq![all[i as int]] + rest);
                            assert forall|k: int| 0 <= k < rest.len() implies rest[k]
                                == target[chain@.len() + k] by {
                                assert(rest[k] == old_rest[k + 1]);
                            }
                        }
                        current = b.as_str();
                    },
                    None => {
                        proof {
                            assert(rest =~= seq![all[i as int]]);
                        }
                        break;
                    },
                }
            },
            None => {
                assert(rest.len() == 0);
                break;
            },
        }
    }
    chain
}

} // verus!

verus! {

/// Paragraph properties with nothing set.
pub open spec fn empty_ppr() -> CT_PPr {
    CT_PPr {
        style_id: None,
        jc: None,
        space_before: None,
        space_after: None,
        line_spacing: None,
        line_rule: None,
        before_autospacing: None,
        after_autospacing: None,
        ind_left: None,
        ind_right: None,
        ind_first_line: None,
        ind_hanging: None,
        keep_next: None,
        keep_lines: None,
        page_break_before: None,
        widow_control: None,
        suppress_auto_hyphens: None,
        outline_lvl: None,
        borders: None,
        tabs: None,
        shading: None,
        rpr: None,
        num_ilvl: None,
        num_id: None,
        sect_pr: None,
        drop_cap_lines: None,
        ppr_change: None,
        extra_xml: None,
    }
}

/// Run properties with nothing set.
pub open spec fn empty_rpr() -> CT_RPr {
    CT_RPr {
        style_id: None,
        font_ascii: None,
        font_hansi: None,
        font_east_asia: None,
        font_cs: None,
        font_ascii_theme: None,
        font_hansi_theme: None,
        bold: None,
        bold_cs: None,
        italic: None,
        italic_cs: None,
        underline: None,
        strike: None,
        dstrike: None,
        sz: None,
        sz_cs: None,
        color: None,
        color_theme: None,
        highlight: None,
        caps: None,
        small_caps: None,
        vert_align: None,
        spacing: None,
        width_scale: None,
        position: None,
        shading: None,
        vanish: None,
        kern: None,
        ligatures: None,
        lang: None,
        rpr_change: None,
        extra_xml: None,
    }
}

/// `e` with `p` laid over it, where there is one.
pub open spec fn with_ppr(e: CT_PPr, p: Option<CT_PPr>) -> CT_PPr {
    match p {
        Some(x) => ppr_merged(e, x),
        None => e,
    }
}

/// `e` with `p` laid over it, where there is one.
pub open spec fn with_rpr(e: CT_RPr, p: Option<CT_RPr>) -> CT_RPr {
    match p {
        Some(x) => rpr_merged(e, x),
        None => e,
    }
}

/// The paragraph properties of a style chain laid over `e`, from the most
/// basic style (the chain's last) to the most derived (its first).
pub open spec fn chain_pprs(e: CT_PPr, chain: Seq<CT_Style>) -> CT_PPr
    decreases chain.len(),
{
    if chain.len() == 0 {
        e
    } else {
        chain_pprs(with_ppr(e, chain.last().ppr), chain.drop_last())
    }
}

/// The run properties of a style chain laid over `e`, from the most basic
/// style to the most derived.
pub open spec fn chain_rprs(e: CT_RPr, chain: Seq<CT_Style>) -> CT_RPr
    decreases chain.len(),
{
    if chain.len() == 0 {
        e
    } else {
        chain_rprs(with_rpr(e, chain.last().rpr), chain.drop_last())
    }
}

/// The document defaults' paragraph properties, if any.
pub open spec fn default_ppr(styles: CT_Styles) -> Option<CT_PPr> {
    match styles.doc_defaults {
        Some(d) => d.ppr,
        None => None,
    }
}

/// The document defaults' run properties, if any.
pub open spec fn default_rpr(styles: CT_Styles) -> Option<CT_RPr> {
    match styles.doc_defaults {
        Some(d) => d.rpr,
        None => None,
    }
}

/// The effective paragraph properties of a paragraph with the given style:
/// the document defaults, then the style chain (or, without a style, the
/// default paragraph style).
pub open spec fn resolved_ppr(style_id: Option<Seq<char>>, styles: CT_Styles) -> CT_PPr {
    let base = with_ppr(empty_ppr(), default_ppr(styles));
    match style_id {
        Some(id) => chain_pprs(base, style_chain(styles.styles@, id)),
        None => match first_default_of(styles.styles@, StyleType::Paragraph) {
            Some(i) => with_ppr(base, styles.styles@[i].ppr),
            None => base,
        },
    }
}

/// The paragraph style a run's properties start from: the given one, else
/// the default paragraph style's id.
pub open spec fn para_style_for_runs(style_id: Option<Seq<char>>, styles: CT_Styles) -> Option<
    Seq<char>,
> {
    match style_id {
        Some(id) => Some(id),
        None => match first_default_of(styles.styles@, StyleType::Paragraph) {
            Some(i) => Some(styles.styles@[i].style_id@),
            None => None,
        },
    }
}

/// The effective run properties of a run: the document defaults, then the
/// paragraph style chain, then the character style chain.
pub open spec fn resolved_rpr(
    para_style_id: Option<Seq<char>>,
    run_style_id: Option<Seq<char>>,
    styles: CT_Styles,
) -> CT_RPr {
    let base = with_rpr(empty_rpr(), default_rpr(styles));
    let after_para = match para_style_for_runs(para_style_id, styles) {
        Some(id) => chain_rprs(base, style_chain(styles.styles@, id)),
        None => base,
    };
    match run_style_id {
        Some(id) => chain_rprs(after_para, style_chain(styles.styles@, id)),
        None => after_para,
    }
}

/// Every property set is like itself.
pub proof fn lemma_ppr_same_refl(a: CT_PPr)
    ensures
        a.same_formatting(a),
{
}

/// Agreement on the typed properties is transitive.
pub proof fn lemma_ppr_same_trans(a: CT_PPr, b: CT_PPr, c: CT_PPr)
    requires
        a.same_formatting(b),
        b.same_formatting(c),
    ensures
        a.same_formatting(c),
{
}

/// Merging respects agreement of the base.
pub proof fn lemma_ppr_merged_congruent(a: CT_PPr, b: CT_PPr, o: CT_PPr)
    requires
        a.same_formatting(b),
    ensures
        ppr_merged(a, o).same_formatting(ppr_merged(b, o)),
{
}

/// Laying a chain over agreeing bases gives agreeing results.
pub proof fn lemma_chain_pprs_congruent(a: CT_PPr, b: CT_PPr, chain: Seq<CT_Style>)
    requires
        a.same_formatting(b),
    ensures
        chain_pprs(a, chain).same_formatting(chain_pprs(b, chain)),
    decreases chain.len(),
{
    if chain.len() > 0 {
        match chain.last().ppr {
            Some(x) => lemma_ppr_merged_congruent(a, b, x),
            None => {},
        }
        lemma_chain_pprs_congruent(with_ppr(a, chain.last().ppr), with_ppr(b, chain.last().ppr),
            chain.drop_last());
    }
}

/// Laying a chain over agreeing bases gives agreeing results.
pub proof fn lemma_chain_rprs_congruent(a: CT_RPr, b: CT_RPr, chain: Seq<CT_Style>)
    requires
        a.same_formatting(b),
    ensures
        chain_rprs(a, chain).same_formatting(chain_rprs(b, chain)),
    decreases chain.len(),
{
    if chain.len() > 0 {
        lemma_chain_rprs_congruent(with_rpr(a, chain.last().rpr), with_rpr(b, chain.last().rpr),
            chain.drop_last());
    }
}

/// Lay the paragraph properties of `style_id`'s chain over `effective`.
fn apply_chain_ppr(effective: &mut CT_PPr, style_id: &str, styles: &CT_Styles)
    ensures
        final(effective).same_formatting(chain_pprs(*old(effective), style_chain(styles.styles@,
            style_id@))),
{
    let chain = collect_style_chain(style_id, styles);
    let ghost sc = style_chain(styles.styles@, style_id@);
    let ghost target = chain_pprs(*effective, sc);
    let ghost mut g = *effective;
    let mut i: usize = chain.len();
    proof {
        lemma_ppr_same_refl(*effective);
        assert(sc.take(i as int) =~= sc);
    }
    while i > 0
        invariant
            i <= chain@.len(),
            chain@.len() == sc.len(),
            forall|k: int| 0 <= k < chain@.len() ==> *chain@[k] == sc[k],
            effective.same_formatting(g),
            chain_pprs(g, sc.take(i as int)) == target,
        decreases i,
    {
        let style = chain[i - 1];
        let ghost before = *effective;
        match &style.ppr {
            Some(p) => {
                effective.merge_from(p);
                proof {
                    lemma_ppr_merged_congruent(before, g, *p);
                    lemma_ppr_same_trans(*effective, ppr_merged(before, *p), ppr_merged(g, *p));
                }
            },
            None => {},
        }
        proof {
            let t = sc.take(i as int);
            assert(t.last() == sc[i - 1]);
            assert(t.drop_last() =~= sc.take(i - 1));
            g = with_ppr(g, sc[i - 1].ppr);
        }
        i = i - 1;
    }
    proof {
        assert(sc.take(0) =~= Seq::<CT_Style>::empty());
    }
}

/// Lay the run properties of `style_id`'s chain over `effective`.
fn apply_chain_rpr(effective: &mut CT_RPr, style_id: &str, styles: &CT_Styles)
    ensures
        final(effective).same_formatting(chain_rprs(*old(effective), style_chain(styles.styles@,
            style_id@))),
{
    let chain = collect_style_chain(style_id, styles);
    let ghost sc = style_chain(styles.styles@, style_id@);
    let ghost target = chain_rprs(*effective, sc);
    let ghost mut g = *effective;
    let mut i: usize = chain.len();
    proof {
        assert(sc.take(i as int) =~= sc);
    }
    while i > 0
        invariant
            i <= chain@.len(),
            chain@.len() == sc.len(),
            forall|k: int| 0 <= k < chain@.len() ==> *chain@[k] == sc[k],
            effective.same_formatting(g),
            chain_rprs(g, sc.take(i as int)) == target,
        decreases i,
    {
        let style = chain[i - 1];
        match &style.rpr {
            Some(p) => {
                effective.merge_from(p);
            },
            None => {},
        }
        proof {
            let t = sc.take(i as int);
            assert(t.last() == sc[i - 1]);
            assert(t.drop_last() =~= sc.take(i - 1));
            g = with_rpr(g, sc[i - 1].rpr);
        }
        i = i - 1;
    }
    proof {
        assert(sc.take(0) =~= Seq::<CT_Style>::empty());
    }
}

/// Resolve paragraph properties by walking the style inheritance chain.
pub fn resolve_paragraph_properties(style_id: Option<&str>, styles: &CT_Styles) -> (r: CT_PPr)
    ensures
        r.same_formatting(resolved_ppr(
            match style_id {
                Some(s) => Some(s@),
                None => None,
            },
            *styles,
        )),
{
    let mut effective = CT_PPr::default();
    proof { lemma_ppr_same_refl(effective); }
    let ghost base = with_ppr(empty_ppr(), default_ppr(*styles));
    match &styles.doc_defaults {
        Some(d) => match &d.ppr {
            Some(p) => {
                effective.merge_from(p);
            },
            None => {},
        },
        None => {},
    }
    assert(effective.same_formatting(base));
    match style_id {
        Some(sid) => {
            let ghost e0 = effective;
            apply_chain_ppr(&mut effective, sid, styles);
            proof {
                let sc = style_chain(styles.styles@, sid@);
                lemma_chain_pprs_congruent(e0, base, sc);
                lemma_ppr_same_trans(effective, chain_pprs(e0, sc), chain_pprs(base, sc));
            }
        },
        None => {
            match styles.get_default(StyleType::Paragraph) {
                Some(ds) => match &ds.ppr {
                    Some(p) => {
                        let ghost e0 = effective;
                        effective.merge_from(p);
                        proof {
                            lemma_ppr_merged_congruent(e0, base, *p);
                            lemma_ppr_same_trans(effective, ppr_merged(e0, *p), ppr_merged(base, *p));
                        }
                    },
                    None => {},
                },
                None => {},
            }
        },
    }
    effective
}

/// Resolve run properties by walking paragraph and character style chains.
pub fn resolve_run_properties(
    para_style_id: Option<&str>,
    run_style_id: Option<&str>,
    styles: &CT_Styles,
) -> (r: CT_RPr)
    ensures
        r.same_formatting(resolved_rpr(
            match para_style_id {
                Some(s) => Some(s@),
                None => None,
            },
            match run_style_id {
                Some(s) => Some(s@),
                None => None,
            },
            *styles,
        )),
{
    let mut effective = CT_RPr::default();
    match &styles.doc_defaults {
        Some(d) => match &d.rpr {
            Some(p) => {
                effective.merge_from(p);
            },
            None => {},
        },
        None => {},
    }
    let ghost base = with_rpr(empty_rpr(), default_rpr(*styles));
    assert(effective.same_formatting(base));
    let para_sid: Option<&str> = match para_style_id {
        Some(s) => Some(s),
        None => match styles.get_default(StyleType::Paragraph) {
            Some(ds) => Some(ds.style_id.as_str()),
            None => None,
        },
    };
    match para_sid {
        Some(sid) => {
            let ghost e0 = effective;
            apply_chain_rpr(&mut effective, sid, styles);
            proof {
                lemma_chain_rprs_congruent(e0, base, style_chain(styles.styles@, sid@));
            }
        },
        None => {},
    }
    match run_style_id {
        Some(sid) => {
            let ghost e0 = effective;
            apply_chain_rpr(&mut effective, sid, styles);
            proof {
                let pr = match para_style_id {
                    Some(s) => Some(s@),
                    None => None,
                };
                let ap = match para_style_for_runs(pr, *styles) {
                    Some(id) => chain_rprs(base, style_chain(styles.styles@, id)),
                    None => base,
                };
                lemma_chain_rprs_congruent(e0, ap, style_chain(styles.styles@, sid@));
            }
        },
        None => {},
    }
    effective
}

/// In a style chain (most derived style first), the most derived style's
/// paragraph properties are laid over last: over everything its base styles
/// give, so that each property it sets wins.
pub proof fn lemma_chain_pprs_derived_last(e: CT_PPr, chain: Seq<CT_Style>)
    requires
        chain.len() > 0,
    ensures
        chain_pprs(e, chain) == with_ppr(chain_pprs(e, chain.drop_first()), chain[0].ppr),
    decreases chain.len(),
{
    if chain.len() > 1 {
        let e2 = with_ppr(e, chain.last().ppr);
        lemma_chain_pprs_derived_last(e2, chain.drop_last());
        assert(chain.drop_last().drop_first() =~= chain.drop_first().drop_last());
        assert(chain.drop_first().last() == chain.last());
        assert(chain.drop_last()[0] == chain[0]);
        assert(chain_pprs(e, chain) == chain_pprs(e2, chain.drop_last()));
        assert(chain_pprs(e, chain.drop_first()) == chain_pprs(e2, chain.drop_first().drop_last()));
    } else {
        assert(chain.drop_first() =~= Seq::<CT_Style>::empty());
        assert(chain.drop_last() =~= Seq::<CT_Style>::empty());
        let x = with_ppr(e, chain[0].ppr);
        assert(chain_pprs(x, chain.drop_last()) == x);
        assert(chain_pprs(e, chain.drop_first()) == e);
    }
}

/// In a style chain (most derived style first), the most derived style's
/// run properties are laid over last, so that each property it sets wins.
pub proof fn lemma_chain_rprs_derived_last(e: CT_RPr, chain: Seq<CT_Style>)
    requires
        chain.len() > 0,
    ensures
        chain_rprs(e, chain) == with_rpr(chain_rprs(e, chain.drop_first()), chain[0].rpr),
    decreases chain.len(),
{
    if chain.len() > 1 {
        let e2 = with_rpr(e, chain.last().rpr);
        lemma_chain_rprs_derived_last(e2, chain.drop_last());
        assert(chain.drop_last().drop_first() =~= chain.drop_first().drop_last());
        assert(chain.drop_first().last() == chain.last());
        assert(chain.drop_last()[0] == chain[0]);
        assert(chain_rprs(e, chain) == chain_rprs(e2, chain.drop_last()));
        assert(chain_rprs(e, chain.drop_first()) == chain_rprs(e2, chain.drop_first().drop_last()));
    } else {
        assert(chain.drop_first() =~= Seq::<CT_Style>::empty());
        assert(chain.drop_last() =~= Seq::<CT_Style>::empty());
        let x = with_rpr(e, chain[0].rpr);
        assert(chain_rprs(x, chain.drop_last()) == x);
        assert(chain_rprs(e, chain.drop_first()) == e);
    }
}


/// A character style's run properties win: each property that the run
/// style (the first style with the run style's id) sets is the resolved
/// run properties' value, whatever the paragraph style chain and the
/// document defaults set.
pub proof fn lemma_run_style_wins(
    para_style_id: Option<Seq<char>>,
    run_style_id: Seq<char>,
    styles: CT_Styles,
    i: int,
    x: CT_RPr,
)
    requires
        first_style_with_id(styles.styles@, run_style_id) == Some(i),
        styles.styles@[i].rpr == Some(x),
    ensures
        ({
            let r = resolved_rpr(para_style_id, Some(run_style_id), styles);
            &&& x.bold is Some ==> r.bold == x.bold
            &&& x.italic is Some ==> r.italic == x.italic
            &&& x.underline is Some ==> r.underline == x.underline
            &&& x.strike is Some ==> r.strike == x.strike
            &&& x.dstrike is Some ==> r.dstrike == x.dstrike
            &&& x.sz is Some ==> r.sz == x.sz
            &&& x.color is Some ==> r.color == x.color
            &&& x.highlight is Some ==> r.highlight == x.highlight
            &&& x.font_ascii is Some ==> r.font_ascii == x.font_ascii
            &&& x.vert_align is Some ==> r.vert_align == x.vert_align
        }),
{
    let ss = styles.styles@;
    let chain = style_chain(ss, run_style_id);
    lemma_chain_from_steps(ss, run_style_id, Seq::empty(), (ss.len() + 1) as nat);
    assert(!Seq::<Seq<char>>::empty().contains(run_style_id));
    assert(chain.len() > 0);
    assert(chain[0] == ss[i]);
    let base = with_rpr(empty_rpr(), default_rpr(styles));
    let after_para = match para_style_for_runs(para_style_id, styles) {
        Some(id) => chain_rprs(base, style_chain(ss, id)),
        None => base,
    };
    lemma_chain_rprs_derived_last(after_para, chain);
    assert(resolved_rpr(para_style_id, Some(run_style_id), styles) == rpr_merged(chain_rprs(after_para, chain.drop_first()), x));
}

/// The value of a Roman numeral digit (0 for any other character).
pub open spec fn roman_digit(c: char) -> int {
    if c == 'I' {
        1
    } else if c == 'V' {
        5
    } else if c == 'X' {
        10
    } else if c == 'L' {
        50
    } else if c == 'C' {
        100
    } else if c == 'D' {
        500
    } else if c == 'M' {
        1000
    } else {
        0
    }
}

/// The number a Roman numeral denotes, read from the left: a digit followed
/// by a larger one counts as their difference, any other digit as itself.
pub open spec fn roman_value(s: Seq<char>) -> int
    decreases s.len(),
{
    if s.len() == 0 {
        0
    } else if s.len() >= 2 && roman_digit(s[0]) < roman_digit(s[1]) {
        roman_digit(s[1]) - roman_digit(s[0]) + roman_value(s.skip(2))
    } else {
        roman_digit(s[0]) + roman_value(s.skip(1))
    }
}

/// The numeral of a positive number starts with a digit worth no more
/// than the number.
proof fn lemma_roman_first(n: nat)
    requires
        n > 0,
    ensures
        roman(n).len() > 0,
        roman_digit(roman(n)[0]) <= n,
{
}

/// Reading one digit, or one subtractive pair, in front of the numeral of
/// `m`, where the numeral's first digit does not exceed it.
proof fn lemma_roman_prefix(p: Seq<char>, m: nat)
    requires
        roman_value(roman(m)) == m,
        p.len() == 1 || (p.len() == 2 && roman_digit(p[0]) < roman_digit(p[1])),
        p.len() == 1 && m > 0 ==> roman_digit(roman(m)[0]) <= roman_digit(p[0]),
    ensures
        roman_value(p + roman(m)) == (if p.len() == 1 {
            roman_digit(p[0])
        } else {
            roman_digit(p[1]) - roman_digit(p[0])
        }) + m,
{
    let s = p + roman(m);
    if m == 0 {
        assert(roman(m) =~= Seq::<char>::empty());
    } else {
        lemma_roman_first(m);
    }
    assert(s[0] == p[0]);
    if p.len() == 1 {
        assert(s.skip(1) =~= roman(m));
        if s.len() >= 2 {
            assert(s[1] == roman(m)[0]);
        }
    } else {
        assert(s[1] == p[1]);
        assert(s.skip(2) =~= roman(m));
    }
}

/// Roman numerals read back: the numeral `roman` writes for `n` denotes
/// `n`.
pub proof fn lemma_roman_value(n: nat)
    ensures
        roman_value(roman(n)) == n,
    decreases n,
{
    if n == 0 {
        assert(roman(n) =~= Seq::<char>::empty());
    } else {
        let (p, m): (Seq<char>, nat) = if n >= 1000 {
            (seq!['M'], (n - 1000) as nat)
        } else if n >= 900 {
            (seq!['C', 'M'], (n - 900) as nat)
        } else if n >= 500 {
            (seq!['D'], (n - 500) as nat)
        } else if n >= 400 {
            (seq!['C', 'D'], (n - 400) as nat)
        } else if n >= 100 {
            (seq!['C'], (n - 100) as nat)
        } else if n >= 90 {
            (seq!['X', 'C'], (n - 90) as nat)
        } else if n >= 50 {
            (seq!['L'], (n - 50) as nat)
        } else if n >= 40 {
            (seq!['X', 'L'], (n - 40) as nat)
        } else if n >= 10 {
            (seq!['X'], (n - 10) as nat)
        } else if n >= 9 {
            (seq!['I', 'X'], (n - 9) as nat)
        } else if n >= 5 {
            (seq!['V'], (n - 5) as nat)
        } else if n >= 4 {
            (seq!['I', 'V'], (n - 4) as nat)
        } else {
            (seq!['I'], (n - 1) as nat)
        };
        assert(roman(n) == p + roman(m));
        lemma_roman_value(m);
        if m > 0 {
            lemma_roman_first(m);
        }
        lemma_roman_prefix(p, m);
    }
}


/// A paragraph style's own properties win over its base styles and the
/// document defaults: each paragraph property the style (the first style
/// with the id) sets is the resolved value.
pub proof fn lemma_para_style_wins(style_id: Seq<char>, styles: CT_Styles, i: int, x: CT_PPr)
    requires
        first_style_with_id(styles.styles@, style_id) == Some(i),
        styles.styles@[i].ppr == Some(x),
    ensures
        ({
            let r = resolved_ppr(Some(style_id), styles);
            &&& x.jc is Some ==> r.jc == x.jc
            &&& x.space_before is Some ==> r.space_before == x.space_before
            &&& x.space_after is Some ==> r.space_after == x.space_after
            &&& x.ind_left is Some ==> r.ind_left == x.ind_left
            &&& x.ind_first_line is Some ==> r.ind_first_line == x.ind_first_line
            &&& x.keep_next is Some ==> r.keep_next == x.keep_next
        }),
{
    let ss = styles.styles@;
    let chain = style_chain(ss, style_id);
    lemma_chain_from_steps(ss, style_id, Seq::empty(), (ss.len() + 1) as nat);
    assert(!Seq::<Seq<char>>::empty().contains(style_id));
    assert(chain.len() > 0);
    assert(chain[0] == ss[i]);
    let base = with_ppr(empty_ppr(), default_ppr(styles));
    lemma_chain_pprs_derived_last(base, chain);
    assert(resolved_ppr(Some(style_id), styles) == ppr_merged(chain_pprs(base, chain.drop_first()), x));
}

/// Without a character style, the paragraph style's run properties win
/// over its base styles and the document defaults.
pub proof fn lemma_para_style_run_props(style_id: Seq<char>, styles: CT_Styles, i: int, x: CT_RPr)
    requires
        first_style_with_id(styles.styles@, style_id) == Some(i),
        styles.styles@[i].rpr == Some(x),
    ensures
        ({
            let r = resolved_rpr(Some(style_id), None, styles);
            &&& x.bold is Some ==> r.bold == x.bold
            &&& x.italic is Some ==> r.italic == x.italic
            &&& x.sz is Some ==> r.sz == x.sz
            &&& x.color is Some ==> r.color == x.color
            &&& x.font_ascii is Some ==> r.font_ascii == x.font_ascii
        }),
{
    let ss = styles.styles@;
    let chain = style_chain(ss, style_id);
    lemma_chain_from_steps(ss, style_id, Seq::empty(), (ss.len() + 1) as nat);
    assert(!Seq::<Seq<char>>::empty().contains(style_id));
    assert(chain.len() > 0);
    assert(chain[0] == ss[i]);
    let base = with_rpr(empty_rpr(), default_rpr(styles));
    lemma_chain_rprs_derived_last(base, chain);
    assert(resolved_rpr(Some(style_id), None, styles) == rpr_merged(chain_rprs(base, chain.drop_first()), x));
}

} // verus!
