//! Regular-expression replacement across the runs of paragraphs, tables and
//! headers/footers. The regex crate finds each match; mapping the match
//! onto the runs is `replace_match`.

use vstd::prelude::*;

use regex::{Captures, Regex};

use crate::chars::{str_chars, string_from_chars, utf8, utf8_char};
use crate::header_footer::CT_HdrFtr;
use crate::placeholder::{clamp_links, para_chars, replace_match, search_text, span_kept};
use crate::table::{CellContent, CT_Row, CT_Tbl, CT_Tc};
use crate::text::{CT_P, CT_R};

verus! {

#[verifier::external_type_specification]
#[verifier::external_body]
pub struct ExRegex(Regex);

#[verifier::external_type_specification]
#[verifier::external_body]
pub struct ExCaptures<'h>(Captures<'h>);

/// Whether regex's `Regex::new` compiles `pattern` (with its default size
/// limits, a function of the pattern alone).
pub uninterp spec fn regex_valid(pattern: Seq<char>) -> bool;

/// The byte range of the first match of `pattern` in `haystack` whose
/// search starts at byte `start`, as regex's `Regex::captures_at` and
/// `Captures::get_match` give it; nothing where there is none.
pub uninterp spec fn regex_find(pattern: Seq<char>, haystack: Seq<char>, start: nat) -> Option<(nat, nat)>;

/// What regex's `Captures::expand` makes of `replacement` for that match:
/// `$name` / `${name}` references to its capture groups filled in.
pub uninterp spec fn regex_expand(pattern: Seq<char>, haystack: Seq<char>, start: nat, replacement: Seq<char>) -> Seq<char>;

/// A compiled regular expression, with the pattern it was compiled from.
pub struct Pattern {
    re: Regex,
    pattern: Ghost<Seq<char>>,
}

impl View for Pattern {
    type V = Seq<char>;

    closed spec fn view(&self) -> Seq<char> {
        self.pattern@
    }
}

/// The captures of a match, with the pattern, the haystack and the start
/// of the search that found it.
struct Found<'h> {
    caps: Captures<'h>,
    search: Ghost<(Seq<char>, Seq<char>, nat)>,
}

impl<'h> View for Found<'h> {
    type V = (Seq<char>, Seq<char>, nat);

    closed spec fn view(&self) -> (Seq<char>, Seq<char>, nat) {
        self.search@
    }
}

/// regex's `Regex::new`: the compiled expression, or the error message
/// where the pattern does not compile; whether it compiles is named.
#[verifier::external_body]
fn regex_new(pattern: &str) -> (r: Result<Regex, String>)
    ensures
        (r is Ok) == regex_valid(pattern@),
{
    match Regex::new(pattern) {
        Ok(re) => Ok(re),
        Err(e) => Err(e.to_string()),
    }
}

impl Pattern {
    /// Compile `pattern`; the error message of the regex crate where it
    /// does not compile.
    pub fn new(pattern: &str) -> (r: Result<Pattern, String>)
        ensures
            (r is Ok) == regex_valid(pattern@),
            r matches Ok(p) ==> p@ == pattern@,
    {
        match regex_new(pattern) {
            Ok(re) => Ok(Pattern { re, pattern: Ghost(pattern@) }),
            Err(e) => Err(e),
        }
    }
}

/// regex's `Regex::captures_at`: the first match in `haystack` whose
/// search starts at byte `start` (look-around sees the whole haystack);
/// which one is named (`regex_find`). The expression was compiled from the
/// pattern `p` holds, which no other code can change.
#[verifier::external_body]
fn regex_captures_at<'h>(p: &Pattern, haystack: &'h str, start: usize) -> (r: Option<Found<'h>>)
    requires
        start <= utf8(haystack@).len(),
    ensures
        (r is Some) == (regex_find(p@, haystack@, start as nat) is Some),
        r matches Some(f) ==> f@ == (p@, haystack@, start as nat),
{
    match p.re.captures_at(haystack, start) {
        Some(caps) => Some(Found { caps, search: Ghost((p@, haystack@, start as nat)) }),
        None => None,
    }
}

/// regex's `Captures::get_match`: the byte range of the whole match, the
/// one `regex_find` names for the search that found it. regex documents
/// that a match starts no earlier than the search and ends within the
/// haystack, its start before its end.
#[verifier::external_body]
fn captures_range(f: &Found) -> (r: (usize, usize))
    ensures
        regex_find(f@.0, f@.1, f@.2) is Some ==> regex_find(f@.0, f@.1, f@.2) == Some((r.0 as nat, r.1 as nat)),
        regex_find(f@.0, f@.1, f@.2) is Some ==> f@.2 <= r.0 <= r.1 <= utf8(f@.1).len(),
{
    let m = f.caps.get_match();
    (m.start(), m.end())
}

/// regex's `Captures::expand`: `replacement` with `$name` / `${name}`
/// references to capture groups of the match filled in, as `regex_expand`
/// names it.
#[verifier::external_body]
fn captures_expand(f: &Found, replacement: &str) -> (r: String)
    ensures
        r@ == regex_expand(f@.0, f@.1, f@.2, replacement@),
{
    let mut dst = String::new();
    f.caps.expand(replacement, &mut dst);
    dst
}

/// The character position, at or after `k`, whose UTF-8 prefix of `s` is
/// `b` bytes long; none where `b` falls inside a character or beyond the
/// text.
pub open spec fn char_at_byte(s: Seq<char>, b: nat, k: nat) -> Option<nat>
    decreases s.len() - k,
{
    if utf8(s.take(k as int)).len() == b {
        Some(k)
    } else if k >= s.len() || utf8(s.take(k as int)).len() > b {
        None
    } else {
        char_at_byte(s, b, k + 1)
    }
}

/// A character position found at or after `k` lies between `k` and the
/// end.
pub proof fn lemma_char_at_byte_range(s: Seq<char>, b: nat, k: nat)
    requires
        k <= s.len(),
    ensures
        char_at_byte(s, b, k) matches Some(j) ==> k <= j <= s.len(),
    decreases s.len() - k,
{
    if !(utf8(s.take(k as int)).len() == b) && !(k >= s.len() || utf8(s.take(k as int)).len() > b) {
        lemma_char_at_byte_range(s, b, k + 1);
    }
}

/// The text and the number of replacements that replacing every match of
/// `pat` in `s` by `rep` gives, scanning from character `from`: the next
/// match is searched from the UTF-8 offset of `from` (`regex_find`), its
/// bounds taken as character positions (`char_at_byte`), and it is replaced
/// by `rep` with its capture groups filled in (`regex_expand`); the scan
/// goes on after the text put in. No match, a match that is empty or whose
/// bounds fall inside a character, or a text whose size no longer fits a
/// `usize`, ends it.
pub open spec fn regex_scan(pat: Seq<char>, s: Seq<char>, from: nat, rep: Seq<char>) -> (Seq<char>, nat)
    decreases s.len() - from,
{
    if from > s.len() || utf8(s.take(from as int)).len() > usize::MAX {
        (s, 0)
    } else {
        let b = utf8(s.take(from as int)).len();
        match regex_find(pat, s, b) {
            None => (s, 0),
            Some((bs, be)) => match char_at_byte(s, bs, from) {
                None => (s, 0),
                Some(ms) => match char_at_byte(s, be, ms) {
                    None => (s, 0),
                    Some(me) => {
                        let x = regex_expand(pat, s, b, rep);
                        if me <= ms || x.len() > usize::MAX - ms {
                            (s, 0)
                        } else {
                            proof {
                                lemma_char_at_byte_range(s, bs, from);
                                lemma_char_at_byte_range(s, be, ms);
                            }
                            let r = regex_scan(pat, s.take(ms as int) + x + s.skip(me as int), ms + x.len(), rep);
                            (r.0, r.1 + 1)
                        }
                    },
                },
            },
        }
    }
}

/// The number of bytes of a character in UTF-8.
fn char_utf8_len(c: char) -> (r: usize)
    ensures
        r == utf8_char(c).len(),
{
    let n = c as u32;
    if n < 0x80 {
        1
    } else if n < 0x800 {
        2
    } else if n < 0x10000 {
        3
    } else {
        4
    }
}

/// The character position whose UTF-8 prefix of `cs` is `b` bytes long, at
/// or after character `from` (whose prefix is `fb` bytes); none where `b`
/// falls inside a character or beyond the text.
fn char_index_of_byte(cs: &[char], from: usize, fb: usize, b: usize) -> (r: Option<usize>)
    requires
        from <= cs@.len(),
        fb == utf8(cs@.take(from as int)).len(),
    ensures
        match r {
            Some(k) => char_at_byte(cs@, b as nat, from as nat) == Some(k as nat),
            None => char_at_byte(cs@, b as nat, from as nat) is None,
        },
        r matches Some(k) ==> from <= k <= cs@.len() && utf8(cs@.take(k as int)).len() == b,
{
    let mut k: usize = from;
    let mut acc: usize = fb;
    loop
        invariant
            from <= k <= cs@.len(),
            acc == utf8(cs@.take(k as int)).len(),
            char_at_byte(cs@, b as nat, k as nat) == char_at_byte(cs@, b as nat, from as nat),
        decreases cs@.len() - k,
    {
        if acc == b {
            return Some(k);
        }
        if acc > b || k == cs.len() {
            return None;
        }
        let l = char_utf8_len(cs[k]);
        proof { assert(cs@.take(k + 1).drop_last() =~= cs@.take(k as int)); }
        if l > b - acc {
            proof {
                assert(utf8(cs@.take(k + 1)) == utf8(cs@.take(k + 1).drop_last()) + utf8_char(cs@.take(k + 1).last()));
                assert(char_at_byte(cs@, b as nat, (k + 1) as nat) is None);
            }
            return None;
        }
        proof {
            assert(utf8(cs@.take(k + 1)) == utf8(cs@.take(k + 1).drop_last()) + utf8_char(cs@.take(k + 1).last()));
        }
        acc = acc + l;
        k = k + 1;
    }
}

/// The UTF-8 length of `cs`, if it fits a `usize`.
fn utf8_len(cs: &[char]) -> (r: Option<usize>)
    ensures
        r matches Some(n) ==> n == utf8(cs@).len(),
        r is None ==> utf8(cs@).len() > usize::MAX,
{
    let mut k: usize = 0;
    let mut acc: usize = 0;
    while k < cs.len()
        invariant
            k <= cs@.len(),
            acc == utf8(cs@.take(k as int)).len(),
        decreases cs@.len() - k,
    {
        let l = char_utf8_len(cs[k]);
        proof { assert(cs@.take(k + 1).drop_last() =~= cs@.take(k as int)); }
        if l > usize::MAX - acc {
            proof {
                assert(cs@ =~= cs@.take(k + 1) + cs@.skip(k + 1));
                lemma_utf8_take_concat(cs@.take(k + 1), cs@.skip(k + 1));
                assert(utf8(cs@.take(k + 1)) == utf8(cs@.take(k + 1).drop_last()) + utf8_char(cs@.take(k + 1).last()));
            }
            return None;
        }
        acc = acc + l;
        k = k + 1;
    }
    proof { assert(cs@.take(k as int) =~= cs@); }
    Some(acc)
}

/// The UTF-8 length of a prefix is that of the prefix before its last
/// character plus that character's.
proof fn lemma_utf8_take_concat(a: Seq<char>, b: Seq<char>)
    ensures
        utf8(a + b).len() == utf8(a).len() + utf8(b).len(),
    decreases b.len(),
{
    if b.len() > 0 {
        lemma_utf8_take_concat(a, b.drop_last());
        assert((a + b).drop_last() =~= a + b.drop_last());
    } else {
        assert(a + b =~= a);
    }
}

/// `new` is `old` after the spans of `steps` were replaced one after
/// another, each by its text and run by run as `span_kept` says.
pub open spec fn span_steps(old: Seq<CT_R>, new: Seq<CT_R>, steps: Seq<(int, int, Seq<char>)>) -> bool
    decreases steps.len(),
{
    if steps.len() == 0 {
        new == old
    } else {
        let (ms, me, x) = steps.last();
        exists|mid: Seq<CT_R>, sel: Seq<int>|
            #[trigger] span_kept(mid, new, sel, ms, me, x) && span_steps(old, mid, steps.drop_last())
    }
}

/// One more span replaced extends the steps.
proof fn lemma_span_steps_push(
    old: Seq<CT_R>,
    mid: Seq<CT_R>,
    new: Seq<CT_R>,
    steps: Seq<(int, int, Seq<char>)>,
    ms: int,
    me: int,
    x: Seq<char>,
    sel: Seq<int>,
)
    requires
        span_steps(old, mid, steps),
        span_kept(mid, new, sel, ms, me, x),
    ensures
        span_steps(old, new, steps.push((ms, me, x))),
{
    let sp = steps.push((ms, me, x));
    assert(sp.drop_last() =~= steps);
    assert(sp.last() == (ms, me, x));
    assert(span_kept(mid, new, sel, sp.last().0, sp.last().1, sp.last().2));
}

/// Replace every match of `re` in a paragraph by `replacement`, with
/// capture group references (`$1`, `${name}`) filled in.
///
/// The searched text is scanned once from the left: each match found
/// (`Regex::captures_at` from the end of the last replacement) is put in
/// place by `replace_match`, which keeps the formatting of the run where the
/// match begins; the search goes on after the text put in. An empty match,
/// or one whose bounds do not fall between characters, ends the scan.
/// Returns the number of replacements; the text and the count are those
/// `regex_scan` gives.
pub fn replace_regex_in_paragraph(para: &mut CT_P, re: &Pattern, replacement: &str) -> (r: usize)
    ensures
        para_chars(final(para).runs@) == regex_scan(re@, para_chars(old(para).runs@), 0, replacement@).0,
        r == regex_scan(re@, para_chars(old(para).runs@), 0, replacement@).1,
        exists|steps: Seq<(int, int, Seq<char>)>| #[trigger] span_steps(old(para).runs@, final(para).runs@, steps),
        r == 0 ==> *final(para) == *old(para),
        r > 0 ==> final(para).hyperlinks@ == clamp_links(old(para).hyperlinks@, final(para).runs@.len()),
        final(para).runs@.len() <= old(para).runs@.len(),
        final(para).properties == old(para).properties,
        final(para).extra_xml == old(para).extra_xml,
{
    let ghost h0 = para.hyperlinks@;
    let ghost goal = regex_scan(re@, para_chars(para.runs@), 0, replacement@);
    let ghost mut steps: Seq<(int, int, Seq<char>)> = Seq::empty();
    let mut total: usize = 0;
    let mut from: usize = 0;
    let first = search_text(&para.runs);
    let n0 = first.len();
    loop
        invariant
            total == 0 ==> *para == *old(para),
            total > 0 ==> para.hyperlinks@ == clamp_links(h0, para.runs@.len()),
            para.runs@.len() <= old(para).runs@.len(),
            para.properties == old(para).properties,
            para.extra_xml == old(para).extra_xml,
            h0 == old(para).hyperlinks@,
            from <= para_chars(para.runs@).len(),
            total + (para_chars(para.runs@).len() - from) <= n0,
            goal == regex_scan(re@, para_chars(old(para).runs@), 0, replacement@),
            regex_scan(re@, para_chars(para.runs@), from as nat, replacement@).0 == goal.0,
            regex_scan(re@, para_chars(para.runs@), from as nat, replacement@).1 + total == goal.1,
            span_steps(old(para).runs@, para.runs@, steps),
        ensures
            para_chars(para.runs@) == goal.0,
            total == goal.1,
            span_steps(old(para).runs@, para.runs@, steps),
            total == 0 ==> *para == *old(para),
            total > 0 ==> para.hyperlinks@ == clamp_links(h0, para.runs@.len()),
            para.runs@.len() <= old(para).runs@.len(),
            para.properties == old(para).properties,
            para.extra_xml == old(para).extra_xml,
        decreases para_chars(para.runs@).len() - from,
    {
        let full = search_text(&para.runs);
        let ghost s = full@;
        let text = string_from_chars(full.as_slice());
        let prefix_len = match utf8_len(crate::opc::prefix_chars(full.as_slice(), from).as_slice()) {
            Some(n) => n,
            None => {
                break;
            },
        };
        proof {
            assert(full@ =~= full@.take(from as int) + full@.skip(from as int));
            lemma_utf8_take_concat(full@.take(from as int), full@.skip(from as int));
        }
        let caps = match regex_captures_at(re, text.as_str(), prefix_len) {
            Some(c) => c,
            None => {
                break;
            },
        };
        let (bs, be) = captures_range(&caps);
        let ms = match char_index_of_byte(full.as_slice(), from, prefix_len, bs) {
            Some(k) => k,
            None => {
                break;
            },
        };
        let me = match char_index_of_byte(full.as_slice(), ms, bs, be) {
            Some(k) => k,
            None => {
                break;
            },
        };
        if me <= ms {
            break;
        }
        let expanded = captures_expand(&caps, replacement);
        let xs = str_chars(expanded.as_str());
        if xs.len() > usize::MAX - ms {
            break;
        }
        let ghost before = para_chars(para.runs@);
        let ghost bruns = para.runs@;
        let ghost nruns = para.runs@.len();
        let full_len = full.len();
        proof { assert(before.len() == full_len); }
        replace_match(para, ms, me, expanded.as_str());
        proof {
            let sk = choose|sk: Seq<int>| #[trigger] span_kept(bruns, para.runs@, sk, ms as int, me as int, expanded@);
            lemma_span_steps_push(old(para).runs@, bruns, para.runs@, steps, ms as int, me as int, expanded@, sk);
            steps = steps.push((ms as int, me as int, expanded@));
            lemma_take_skip_len(before, ms as int, me as int, expanded@);
            if total > 0 {
                crate::placeholder::lemma_clamp_links_twice(h0, nruns, para.runs@.len());
            }
            assert(regex_scan(re@, s, from as nat, replacement@) == (
                regex_scan(re@, para_chars(para.runs@), (ms + xs@.len()) as nat, replacement@).0,
                regex_scan(re@, para_chars(para.runs@), (ms + xs@.len()) as nat, replacement@).1 + 1,
            ));
        }
        from = ms + xs.len();
        total = total + 1;
    }
    total
}

/// The length of `s[..a] + r + s[b..]`.
proof fn lemma_take_skip_len(s: Seq<char>, a: int, b: int, r: Seq<char>)
    requires
        0 <= a <= b <= s.len(),
    ensures
        (s.take(a) + r + s.skip(b)).len() == s.len() - (b - a) + r.len(),
{
}

/// `n`, or the largest `usize` where it is larger.
pub open spec fn sat(n: nat) -> nat {
    if n > usize::MAX {
        usize::MAX as nat
    } else {
        n
    }
}

/// `new` is the paragraph `old` with every match replaced as
/// `replace_regex_in_paragraph` does: the text `regex_scan` gives, reached
/// by replacing one span after another run by run (`span_steps`), the
/// paragraph's own properties and raw XML kept.
pub open spec fn regex_para(old: CT_P, new: CT_P, pat: Seq<char>, rep: Seq<char>) -> bool {
    &&& para_chars(new.runs@) == regex_scan(pat, para_chars(old.runs@), 0, rep).0
    &&& exists|steps: Seq<(int, int, Seq<char>)>| #[trigger] span_steps(old.runs@, new.runs@, steps)
    &&& new.properties == old.properties
    &&& new.extra_xml == old.extra_xml
}

/// The number of replacements in a paragraph.
pub open spec fn regex_count(p: CT_P, pat: Seq<char>, rep: Seq<char>) -> nat {
    regex_scan(pat, para_chars(p.runs@), 0, rep).1
}

/// The number of replacements in a sequence of paragraphs.
pub open spec fn regex_paras_count(ps: Seq<CT_P>, pat: Seq<char>, rep: Seq<char>) -> nat
    decreases ps.len(),
{
    if ps.len() == 0 {
        0
    } else {
        regex_paras_count(ps.drop_last(), pat, rep) + regex_count(ps.last(), pat, rep)
    }
}

/// The number of replacements in a cell content item, nested tables
/// included.
pub open spec fn rx_content_count(c: CellContent, pat: Seq<char>, rep: Seq<char>) -> nat
    decreases c,
{
    match c {
        CellContent::Paragraph(p) => regex_count(p, pat, rep),
        CellContent::Table(t) => rx_rows_count(t.rows@, pat, rep),
        CellContent::RawXml(_) => 0,
    }
}

/// The number of replacements in a sequence of rows.
pub open spec fn rx_rows_count(rs: Seq<CT_Row>, pat: Seq<char>, rep: Seq<char>) -> nat
    decreases rs,
{
    if rs.len() == 0 {
        0
    } else {
        rx_rows_count(rs.drop_last(), pat, rep) + rx_cells_count(rs.last().cells@, pat, rep)
    }
}

/// The number of replacements in a sequence of cells.
pub open spec fn rx_cells_count(cs: Seq<CT_Tc>, pat: Seq<char>, rep: Seq<char>) -> nat
    decreases cs,
{
    if cs.len() == 0 {
        0
    } else {
        rx_cells_count(cs.drop_last(), pat, rep) + rx_contents_count(cs.last().content@, pat, rep)
    }
}

/// The number of replacements in a sequence of cell content items.
pub open spec fn rx_contents_count(items: Seq<CellContent>, pat: Seq<char>, rep: Seq<char>) -> nat
    decreases items,
{
    if items.len() == 0 {
        0
    } else {
        rx_contents_count(items.drop_last(), pat, rep) + rx_content_count(items.last(), pat, rep)
    }
}

/// `new` is `old` with every paragraph replaced as `regex_para` says,
/// nested tables included; everything else is as it was.
pub open spec fn rx_content(old: CellContent, new: CellContent, pat: Seq<char>, rep: Seq<char>) -> bool
    decreases old,
{
    match old {
        CellContent::Paragraph(p) => new matches CellContent::Paragraph(q) && regex_para(p, q, pat, rep),
        CellContent::Table(t) => new matches CellContent::Table(u) && u.properties == t.properties && u.grid
            == t.grid && u.extra_xml == t.extra_xml && rx_rows(t.rows@, u.rows@, pat, rep),
        CellContent::RawXml(_) => new == old,
    }
}

/// Rows replaced pointwise: same number, same properties and raw XML, and
/// cells replaced.
pub open spec fn rx_rows(old: Seq<CT_Row>, new: Seq<CT_Row>, pat: Seq<char>, rep: Seq<char>) -> bool
    decreases old,
{
    &&& old.len() == new.len()
    &&& old.len() > 0 ==> {
        &&& rx_rows(old.drop_last(), new.drop_last(), pat, rep)
        &&& new.last().properties == old.last().properties
        &&& new.last().extra_xml == old.last().extra_xml
        &&& rx_cells(old.last().cells@, new.last().cells@, pat, rep)
    }
}

/// Cells replaced pointwise: same number, same properties, and content
/// replaced.
pub open spec fn rx_cells(old: Seq<CT_Tc>, new: Seq<CT_Tc>, pat: Seq<char>, rep: Seq<char>) -> bool
    decreases old,
{
    &&& old.len() == new.len()
    &&& old.len() > 0 ==> {
        &&& rx_cells(old.drop_last(), new.drop_last(), pat, rep)
        &&& new.last().properties == old.last().properties
        &&& rx_contents(old.last().content@, new.last().content@, pat, rep)
    }
}

/// Content items replaced pointwise.
pub open spec fn rx_contents(old: Seq<CellContent>, new: Seq<CellContent>, pat: Seq<char>, rep: Seq<char>) -> bool
    decreases old,
{
    &&& old.len() == new.len()
    &&& old.len() > 0 ==> {
        &&& rx_contents(old.drop_last(), new.drop_last(), pat, rep)
        &&& rx_content(old.last(), new.last(), pat, rep)
    }
}

/// Replace every match in each paragraph of a slice; the counts are added,
/// stopping at the largest `usize`.
pub fn replace_regex_in_paragraphs(paras: &mut [CT_P], re: &Pattern, replacement: &str) -> (r: usize)
    ensures
        final(paras)@.len() == old(paras)@.len(),
        forall|i: int|
            0 <= i < old(paras)@.len() ==> regex_para(#[trigger] old(paras)@[i], final(paras)@[i], re@, replacement@),
        r == sat(regex_paras_count(old(paras)@, re@, replacement@)),
{
    let ghost ops = paras@;
    let mut total: usize = 0;
    let mut i: usize = 0;
    while i < paras.len()
        invariant
            i <= paras@.len(),
            ops == old(paras)@,
            paras@.len() == ops.len(),
            forall|k: int| 0 <= k < i ==> regex_para(#[trigger] ops[k], paras@[k], re@, replacement@),
            forall|k: int| i <= k < paras@.len() ==> #[trigger] paras@[k] == ops[k],
            total == sat(regex_paras_count(ops.take(i as int), re@, replacement@)),
        decreases paras@.len() - i,
    {
        let ghost prev = paras@;
        let c = replace_regex_in_paragraph(&mut paras[i], re, replacement);
        proof {
            assert(paras@ == prev.update(i as int, paras@[i as int]));
            assert(ops.take(i + 1).drop_last() =~= ops.take(i as int));
        }
        total = total.saturating_add(c);
        i = i + 1;
    }
    proof { assert(ops.take(i as int) =~= ops); }
    total
}

/// Replace every match in a table's cells, nested tables included; the
/// counts are added, stopping at the largest `usize`.
pub fn replace_regex_in_table(table: &mut CT_Tbl, re: &Pattern, replacement: &str) -> (r: usize)
    ensures
        r == sat(rx_rows_count(old(table).rows@, re@, replacement@)),
        rx_rows(old(table).rows@, final(table).rows@, re@, replacement@),
        final(table).properties == old(table).properties,
        final(table).grid == old(table).grid,
        final(table).extra_xml == old(table).extra_xml,
    decreases *old(table),
{
    let ghost pat = re@;
    let ghost rep = replacement@;
    let ghost orows = table.rows@;
    let mut rows: Vec<CT_Row> = Vec::new();
    std::mem::swap(&mut rows, &mut table.rows);
    let mut new_rows: Vec<CT_Row> = Vec::new();
    let mut count: usize = 0;
    let ghost mut i: int = 0;
    proof {
        assert(rows@ =~= orows.skip(0));
        assert(orows.take(0) =~= Seq::<CT_Row>::empty());
    }
    while rows.len() > 0
        invariant
            pat == re@,
            rep == replacement@,
            orows == old(table).rows@,
            0 <= i <= orows.len(),
            rows@ == orows.skip(i),
            count == sat(rx_rows_count(orows.take(i), pat, rep)),
            rx_rows(orows.take(i), new_rows@, pat, rep),
            table.properties == old(table).properties,
            table.grid == old(table).grid,
            table.extra_xml == old(table).extra_xml,
        decreases rows@.len(),
    {
        proof {
            assert(orows[i] == rows@[0]);
        }
        let row = rows.remove(0);
        let CT_Row { properties: row_props, cells, extra_xml: row_xml } = row;
        let ghost ocells = cells@;
        let ghost base = rx_rows_count(orows.take(i), pat, rep);
        let mut cells = cells;
        let mut new_cells: Vec<CT_Tc> = Vec::new();
        let ghost mut j: int = 0;
        proof {
            assert(cells@ =~= ocells.skip(0));
            assert(ocells.take(0) =~= Seq::<CT_Tc>::empty());
        }
        while cells.len() > 0
            invariant
                pat == re@,
                rep == replacement@,
                orows == old(table).rows@,
                0 <= i < orows.len(),
                ocells == orows[i].cells@,
                0 <= j <= ocells.len(),
                cells@ == ocells.skip(j),
                count == sat(base + rx_cells_count(ocells.take(j), pat, rep)),
                rx_cells(ocells.take(j), new_cells@, pat, rep),
            decreases cells@.len(),
        {
            proof {
                assert(ocells[j] == cells@[0]);
            }
            let cell = cells.remove(0);
            let CT_Tc { properties: cell_props, content } = cell;
            let ghost oitems = content@;
            let ghost base2 = base + rx_cells_count(ocells.take(j), pat, rep);
            let mut items = content;
            let mut new_items: Vec<CellContent> = Vec::new();
            let ghost mut k: int = 0;
            proof {
                assert(items@ =~= oitems.skip(0));
                assert(oitems.take(0) =~= Seq::<CellContent>::empty());
            }
            while items.len() > 0
                invariant
                    pat == re@,
                    rep == replacement@,
                    orows == old(table).rows@,
                    0 <= i < orows.len(),
                    ocells == orows[i].cells@,
                    0 <= j < ocells.len(),
                    oitems == ocells[j].content@,
                    0 <= k <= oitems.len(),
                    items@ == oitems.skip(k),
                    count == sat(base2 + rx_contents_count(oitems.take(k), pat, rep)),
                    rx_contents(oitems.take(k), new_items@, pat, rep),
                decreases items@.len(),
            {
                proof {
                    assert(oitems[k] == items@[0]);
                }
                let ghost old_new = new_items@;
                let ghost oitem = oitems[k];
                let item = items.remove(0);
                match item {
                    CellContent::Paragraph(mut p) => {
                        let c = replace_regex_in_paragraph(&mut p, re, replacement);
                        count = count.saturating_add(c);
                        new_items.push(CellContent::Paragraph(p));
                    },
                    CellContent::Table(mut nested) => {
                        proof {
                            assert(decreases_to!(*old(table) => nested));
                        }
                        let c = replace_regex_in_table(&mut nested, re, replacement);
                        count = count.saturating_add(c);
                        new_items.push(CellContent::Table(nested));
                    },
                    CellContent::RawXml(x) => {
                        new_items.push(CellContent::RawXml(x));
                    },
                }
                proof {
                    assert(rx_content(oitem, new_items@.last(), pat, rep));
                    assert(oitems.take(k + 1).drop_last() =~= oitems.take(k));
                    assert(oitems.take(k + 1).last() == oitem);
                    assert(rx_contents_count(oitems.take(k + 1), pat, rep) == rx_contents_count(oitems.take(k), pat, rep)
                        + rx_content_count(oitem, pat, rep));
                    k = k + 1;
                    assert(new_items@.drop_last() =~= old_new);
                    assert(oitems.take(k).drop_last() =~= oitems.take(k - 1));
                    assert(items@ =~= oitems.skip(k));
                }
            }
            proof {
                assert(oitems.take(k) =~= oitems);
            }
            let ghost old_cells = new_cells@;
            new_cells.push(CT_Tc { properties: cell_props, content: new_items });
            proof {
                j = j + 1;
                assert(new_cells@.drop_last() =~= old_cells);
                assert(ocells.take(j).drop_last() =~= ocells.take(j - 1));
                assert(cells@ =~= ocells.skip(j));
            }
        }
        proof {
            assert(ocells.take(j) =~= ocells);
        }
        let ghost old_rows = new_rows@;
        new_rows.push(CT_Row { properties: row_props, cells: new_cells, extra_xml: row_xml });
        proof {
            i = i + 1;
            assert(new_rows@.drop_last() =~= old_rows);
            assert(orows.take(i).drop_last() =~= orows.take(i - 1));
            assert(rows@ =~= orows.skip(i));
        }
    }
    proof {
        assert(orows.take(i) =~= orows);
    }
    table.rows = new_rows;
    count
}

/// Replace every match in a header or footer's paragraphs.
pub fn replace_regex_in_header_footer(hf: &mut CT_HdrFtr, re: &Pattern, replacement: &str) -> (r: usize)
    ensures
        final(hf).paragraphs@.len() == old(hf).paragraphs@.len(),
        forall|i: int|
            0 <= i < old(hf).paragraphs@.len() ==> regex_para(#[trigger] old(hf).paragraphs@[i], final(hf).paragraphs@[i], re@, replacement@),
        r == sat(regex_paras_count(old(hf).paragraphs@, re@, replacement@)),
        final(hf).extra_namespaces == old(hf).extra_namespaces,
        final(hf).extra_xml == old(hf).extra_xml,
{
    replace_regex_in_paragraphs(hf.paragraphs.as_mut_slice(), re, replacement)
}

} // verus!
