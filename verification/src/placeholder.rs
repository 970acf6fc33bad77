//! Placeholder replacement across paragraphs, tables, and headers/footers.
//!
//! A placeholder like `{{name}}` may be split across several runs. The
//! searched text of a paragraph is the concatenation of its text items;
//! it is scanned once from the left; each occurrence found gets the
//! replacement where it begins (keeping that run's formatting), the rest of
//! the occurrence is removed from the runs it spans, and the search goes on
//! after the text put in.

use vstd::prelude::*;

use crate::chars::{occurs_at, str_chars, string_from_chars};
use crate::header_footer::CT_HdrFtr;
use crate::table::{CellContent, CT_Row, CT_Tbl, CT_Tc};
use crate::text::{edge_space, needs_preserve, CT_P, CT_R, CT_Text, HyperlinkSpan, RunContent};

pub mod xml_parts;
pub mod regex_replace;
pub use xml_parts::{replace_in_chart_xml, replace_in_xml_part};
pub use regex_replace::{
    Pattern,
    replace_regex_in_header_footer, replace_regex_in_paragraph, replace_regex_in_paragraphs, replace_regex_in_table,
};

verus! {

/// The characters an item contributes to the searched text: those of a text
/// item, nothing for any other item.
pub open spec fn item_chars(c: RunContent) -> Seq<char> {
    match c {
        RunContent::Text(t) => t.text@,
        _ => Seq::empty(),
    }
}

/// The searched text of a run's items.
pub open spec fn items_chars(items: Seq<RunContent>) -> Seq<char>
    decreases items.len(),
{
    if items.len() == 0 {
        Seq::empty()
    } else {
        items_chars(items.drop_last()) + item_chars(items.last())
    }
}

/// The searched text of a sequence of runs: their text items, in order.
pub open spec fn para_chars(runs: Seq<CT_R>) -> Seq<char>
    decreases runs.len(),
{
    if runs.len() == 0 {
        Seq::empty()
    } else {
        para_chars(runs.drop_last()) + items_chars(runs.last().content@)
    }
}

/// The items of a run that are not text, in order.
pub open spec fn items_nontext(items: Seq<RunContent>) -> Seq<RunContent>
    decreases items.len(),
{
    if items.len() == 0 {
        Seq::empty()
    } else {
        items_nontext(items.drop_last()) + if items.last() is Text {
            Seq::empty()
        } else {
            seq![items.last()]
        }
    }
}

/// The items that are not text of a sequence of runs, in order.
pub open spec fn para_nontext(runs: Seq<CT_R>) -> Seq<RunContent>
    decreases runs.len(),
{
    if runs.len() == 0 {
        Seq::empty()
    } else {
        para_nontext(runs.drop_last()) + items_nontext(runs.last().content@)
    }
}

/// `sel` picks, in increasing order, a run of `old` for each run of `new`
/// with the same properties and raw XML.
pub open spec fn runs_kept(old: Seq<CT_R>, new: Seq<CT_R>, sel: Seq<int>) -> bool {
    &&& sel.len() == new.len()
    &&& forall|i: int, j: int| 0 <= i < j < sel.len() ==> sel[i] < sel[j]
    &&& forall|i: int|
        0 <= i < sel.len() ==> 0 <= #[trigger] sel[i] < old.len() && new[i].properties == old[sel[i]].properties
            && new[i].extra_xml == old[sel[i]].extra_xml
}

/// Picking runs twice picks runs.
pub proof fn lemma_runs_kept_compose(a: Seq<CT_R>, b: Seq<CT_R>, c: Seq<CT_R>, s1: Seq<int>, s2: Seq<int>)
    requires
        runs_kept(a, b, s1),
        runs_kept(b, c, s2),
    ensures
        runs_kept(a, c, Seq::new(s2.len(), |i: int| s1[s2[i]])),
{
    let s = Seq::new(s2.len(), |i: int| s1[s2[i]]);
    assert forall|i: int, j: int| 0 <= i < j < s.len() implies s[i] < s[j] by {
        assert(s2[i] < s2[j]);
        assert(0 <= s2[i] < b.len() && 0 <= s2[j] < b.len());
    }
    assert forall|i: int| 0 <= i < s.len() implies 0 <= #[trigger] s[i] < a.len() && c[i].properties
        == a[s[i]].properties && c[i].extra_xml == a[s[i]].extra_xml by {
        assert(0 <= s2[i] < b.len());
        assert(0 <= s1[s2[i]] < a.len());
    }
}

/// Every run keeps itself.
pub proof fn lemma_runs_kept_same(a: Seq<CT_R>)
    ensures
        runs_kept(a, a, Seq::new(a.len(), |i: int| i)),
{
}

/// Runs with no item but text read as their searched text.
pub proof fn lemma_plain_runs_text(runs: Seq<CT_R>)
    requires
        para_nontext(runs).len() == 0,
    ensures
        crate::text::runs_text(runs) == para_chars(runs),
    decreases runs.len(),
{
    if runs.len() > 0 {
        assert(para_nontext(runs) == para_nontext(runs.drop_last()) + items_nontext(runs.last().content@));
        lemma_plain_runs_text(runs.drop_last());
        lemma_plain_items_text(runs.last().content@);
    }
}

/// Items with none but text read as their searched text.
pub proof fn lemma_plain_items_text(items: Seq<RunContent>)
    requires
        items_nontext(items).len() == 0,
    ensures
        crate::text::run_text(items) == items_chars(items),
    decreases items.len(),
{
    if items.len() > 0 {
        lemma_plain_items_text(items.drop_last());
    }
}

/// The first position at or after `i` where `pat` occurs in `s`.
pub open spec fn occurrence_from(s: Seq<char>, pat: Seq<char>, i: int) -> Option<int>
    decreases s.len() + 1 - i,
{
    if i < 0 || i + pat.len() > s.len() {
        None
    } else if occurs_at(s, pat, i) {
        Some(i)
    } else {
        occurrence_from(s, pat, i + 1)
    }
}

/// The first position where `pat` occurs in `s`.
pub open spec fn first_occurrence(s: Seq<char>, pat: Seq<char>) -> Option<int> {
    occurrence_from(s, pat, 0)
}

/// The number of occurrences of `pat` that a single pass from the left
/// finds in `s`, each search resuming after the occurrence found (so they
/// do not overlap); none for an empty pattern.
pub open spec fn match_count(s: Seq<char>, pat: Seq<char>) -> nat
    decreases s.len(),
{
    if pat.len() == 0 || s.len() < pat.len() {
        0
    } else if s.subrange(0, pat.len() as int) == pat {
        1 + match_count(s.skip(pat.len() as int), pat)
    } else {
        match_count(s.skip(1), pat)
    }
}

/// The number of replacements made in the text `s`: every occurrence that
/// `replace_all` replaces.
pub open spec fn steps_of(s: Seq<char>, pat: Seq<char>, rep: Seq<char>) -> nat {
    match_count(s, pat)
}

/// Whether the number of replacements made in `s` fits a `usize`.
pub open spec fn replacement_ends(s: Seq<char>, pat: Seq<char>, rep: Seq<char>) -> bool {
    steps_of(s, pat, rep) <= usize::MAX
}

/// There are no more occurrences than characters.
pub proof fn lemma_count_le_len(s: Seq<char>, pat: Seq<char>)
    ensures
        match_count(s, pat) <= s.len(),
    decreases s.len(),
{
    if !(pat.len() == 0 || s.len() < pat.len()) {
        if s.subrange(0, pat.len() as int) == pat {
            lemma_count_le_len(s.skip(pat.len() as int), pat);
        } else {
            lemma_count_le_len(s.skip(1), pat);
        }
    }
}

/// Where no occurrence begins before `m`, the pass copies `s[..m]` and goes
/// on from `m`.
pub proof fn lemma_pass_skip(s: Seq<char>, pat: Seq<char>, rep: Seq<char>, m: int)
    requires
        pat.len() > 0,
        0 <= m <= s.len(),
        forall|j: int| 0 <= j < m ==> !occurs_at(s, pat, j),
    ensures
        crate::chars::replace_all(s, pat, rep) == s.take(m) + crate::chars::replace_all(s.skip(m), pat, rep),
        match_count(s, pat) == match_count(s.skip(m), pat),
    decreases m,
{
    if m == 0 {
        assert(s.skip(0) =~= s);
        assert(s.take(0) + crate::chars::replace_all(s, pat, rep) =~= crate::chars::replace_all(s, pat, rep));
    } else if s.len() < pat.len() {
        assert(s.take(m) + s.skip(m) =~= s);
    } else {
        assert(!occurs_at(s, pat, 0));
        let t = s.skip(1);
        assert forall|j: int| 0 <= j < m - 1 implies !occurs_at(t, pat, j) by {
            assert(!occurs_at(s, pat, j + 1));
            if j + pat.len() <= t.len() {
                assert(t.subrange(j, j + pat.len()) =~= s.subrange(j + 1, j + 1 + pat.len()));
            }
        }
        lemma_pass_skip(t, pat, rep, m - 1);
        assert(t.skip(m - 1) =~= s.skip(m));
        assert(seq![s[0]] + t.take(m - 1) =~= s.take(m));
    }
}

/// At an occurrence, the pass puts `rep` in its place and goes on after it.
pub proof fn lemma_pass_match(s: Seq<char>, pat: Seq<char>, rep: Seq<char>)
    requires
        pat.len() > 0,
        occurs_at(s, pat, 0),
    ensures
        crate::chars::replace_all(s, pat, rep) == rep + crate::chars::replace_all(s.skip(pat.len() as int), pat, rep),
        match_count(s, pat) == 1 + match_count(s.skip(pat.len() as int), pat),
{
}

/// With no occurrence left, the pass changes nothing.
pub proof fn lemma_pass_none(s: Seq<char>, pat: Seq<char>, rep: Seq<char>)
    requires
        pat.len() > 0,
        forall|j: int| 0 <= j ==> !occurs_at(s, pat, j),
    ensures
        crate::chars::replace_all(s, pat, rep) == s,
        match_count(s, pat) == 0,
{
    lemma_pass_skip(s, pat, rep, s.len() as int);
    assert(s.skip(s.len() as int) =~= Seq::<char>::empty());
    assert(s.take(s.len() as int) =~= s);
    assert(crate::chars::replace_all(Seq::<char>::empty(), pat, rep) == Seq::<char>::empty());
}

/// The first occurrence found from `i` is an occurrence at or after `i`, and
/// none lies between.
pub proof fn lemma_occurrence_from(s: Seq<char>, pat: Seq<char>, i: int)
    requires
        0 <= i,
    ensures
        occurrence_from(s, pat, i) matches Some(k) ==> i <= k && occurs_at(s, pat, k) && forall|
            j: int,
        | i <= j < k ==> !occurs_at(s, pat, j),
        occurrence_from(s, pat, i) is None ==> forall|j: int| i <= j ==> !occurs_at(s, pat, j),
    decreases s.len() + 1 - i,
{
    if i + pat.len() <= s.len() && !occurs_at(s, pat, i) {
        lemma_occurrence_from(s, pat, i + 1);
    }
}

/// Position `i` of `hay` begins the first occurrence of `pat` at or after
/// `from`, or there is none.
pub fn find_chars(hay: &[char], pat: &[char]) -> (r: Option<usize>)
    ensures
        r matches Some(i) ==> first_occurrence(hay@, pat@) == Some(i as int),
        r is None ==> first_occurrence(hay@, pat@) is None,
{
    proof { lemma_occurrence_from(hay@, pat@, 0); }
    if pat.len() > hay.len() {
        return None;
    }
    let mut i: usize = 0;
    while i <= hay.len() - pat.len()
        invariant
            pat@.len() <= hay@.len(),
            i <= hay@.len() - pat@.len() + 1,
            occurrence_from(hay@, pat@, 0) == occurrence_from(hay@, pat@, i as int),
        decreases hay@.len() - pat@.len() + 1 - i,
    {
        if crate::chars::match_at(hay, pat, i) {
            return Some(i);
        }
        if i == hay.len() - pat.len() {
            proof { lemma_occurrence_from(hay@, pat@, i + 1); }
            return None;
        }
        i = i + 1;
    }
    None
}

/// `k` kept within `0..=len`.
pub open spec fn clamp(k: int, len: int) -> int {
    if k < 0 {
        0
    } else if k > len {
        len
    } else {
        k
    }
}

/// The text `x` with the span `ms..me` cut out and, where the span begins
/// inside `x`, `rep` put in its place.
pub open spec fn cut(x: Seq<char>, ms: int, me: int, rep: Seq<char>) -> Seq<char> {
    x.take(clamp(ms, x.len() as int)) + (if ms < x.len() {
        rep
    } else {
        Seq::empty()
    }) + x.skip(clamp(me, x.len() as int))
}

/// What a text item `t` starting at position `s` of the searched text keeps
/// when the span `ms..me` is replaced by `rep`: the characters outside the
/// span, with `rep` where the span begins if it begins inside `t`.
pub open spec fn item_out(t: Seq<char>, s: int, ms: int, me: int, rep: Seq<char>) -> Seq<char> {
    t.take(clamp(ms - s, t.len() as int)) + (if s <= ms < s + t.len() {
        rep
    } else {
        Seq::empty()
    }) + t.skip(clamp(me - s, t.len() as int))
}

/// Cutting a span distributes over appending a text item.
pub proof fn lemma_cut_append(x: Seq<char>, t: Seq<char>, ms: int, me: int, rep: Seq<char>)
    requires
        0 <= ms < me,
    ensures
        cut(x + t, ms, me, rep) == cut(x, ms, me, rep) + item_out(t, x.len() as int, ms, me, rep),
{
    let s = x.len() as int;
    let e = s + t.len();
    let xt = x + t;
    if e <= ms {
        assert(xt.take(clamp(ms, e)) =~= xt);
        assert(xt.skip(clamp(me, e)) =~= Seq::<char>::empty());
        assert(x.take(clamp(ms, s)) =~= x);
        assert(x.skip(clamp(me, s)) =~= Seq::<char>::empty());
        assert(t.take(clamp(ms - s, t.len() as int)) =~= t);
        assert(t.skip(clamp(me - s, t.len() as int)) =~= Seq::<char>::empty());
    } else if s >= me {
        assert(xt.take(clamp(ms, e)) =~= x.take(ms));
        assert(x.take(clamp(ms, s)) =~= x.take(ms));
        assert(xt.skip(clamp(me, e)) =~= x.skip(me) + t);
        assert(x.skip(clamp(me, s)) =~= x.skip(me));
        assert(t.take(clamp(ms - s, t.len() as int)) =~= Seq::<char>::empty());
        assert(t.skip(clamp(me - s, t.len() as int)) =~= t);
    } else if s <= ms {
        assert(xt.take(clamp(ms, e)) =~= x + t.take(ms - s));
        assert(x.take(clamp(ms, s)) =~= x);
        assert(x.skip(clamp(me, s)) =~= Seq::<char>::empty());
        assert(xt.skip(clamp(me, e)) =~= t.skip(clamp(me - s, t.len() as int)));
    } else {
        assert(xt.take(clamp(ms, e)) =~= x.take(ms));
        assert(x.take(clamp(ms, s)) =~= x.take(ms));
        assert(x.skip(clamp(me, s)) =~= Seq::<char>::empty());
        assert(xt.skip(clamp(me, e)) =~= t.skip(clamp(me - s, t.len() as int)));
        assert(t.take(clamp(ms - s, t.len() as int)) =~= Seq::<char>::empty());
    }
}

/// `t[..a] + rep + t[b..]`.
pub fn splice_chars(t: &[char], a: usize, rep: &[char], b: usize) -> (r: Vec<char>)
    requires
        a <= t@.len(),
        b <= t@.len(),
    ensures
        r@ == t@.take(a as int) + rep@ + t@.skip(b as int),
{
    let mut out: Vec<char> = Vec::new();
    let mut k: usize = 0;
    while k < a
        invariant
            k <= a <= t@.len(),
            out@ == t@.take(k as int),
        decreases a - k,
    {
        out.push(t[k]);
        k = k + 1;
        proof { assert(out@ =~= t@.take(k as int)); }
    }
    crate::chars::append_chars(&mut out, rep);
    let mut k: usize = b;
    let ghost mid = out@;
    proof { assert(mid == t@.take(a as int) + rep@); }
    while k < t.len()
        invariant
            b <= k <= t@.len(),
            out@ == mid + t@.subrange(b as int, k as int),
        decreases t@.len() - k,
    {
        out.push(t[k]);
        k = k + 1;
        proof { assert(out@ =~= mid + t@.subrange(b as int, k as int)); }
    }
    proof { assert(t@.subrange(b as int, k as int) =~= t@.skip(b as int)); }
    out
}

/// The searched text of a paragraph's runs: the characters of their text
/// items, concatenated in order.
pub fn search_text(runs: &Vec<CT_R>) -> (r: Vec<char>)
    ensures
        r@ == para_chars(runs@),
{
    let mut out: Vec<char> = Vec::new();
    let mut i: usize = 0;
    while i < runs.len()
        invariant
            i <= runs@.len(),
            out@ == para_chars(runs@.take(i as int)),
        decreases runs@.len() - i,
    {
        let items = &runs[i].content;
        let ghost before = out@;
        let mut j: usize = 0;
        while j < items.len()
            invariant
                i < runs@.len(),
                items == runs@[i as int].content,
                j <= items@.len(),
                out@ == before + items_chars(items@.take(j as int)),
            decreases items@.len() - j,
        {
            proof { assert(items@.take(j + 1).drop_last() =~= items@.take(j as int)); }
            match &items[j] {
                RunContent::Text(t) => {
                    let cs = str_chars(t.text.as_str());
                    crate::chars::append_chars(&mut out, cs.as_slice());
                },
                _ => {},
            }
            j = j + 1;
            proof { assert(out@ =~= before + items_chars(items@.take(j as int))); }
        }
        proof {
            assert(items@.take(j as int) =~= items@);
            assert(runs@.take(i + 1).drop_last() =~= runs@.take(i as int));
        }
        i = i + 1;
    }
    proof { assert(runs@.take(i as int) =~= runs@); }
    out
}

/// A text item lying wholly outside the span keeps all its characters.
pub proof fn lemma_item_out_whole(t: Seq<char>, s: int, ms: int, me: int, rep: Seq<char>)
    requires
        s + t.len() <= ms || s >= me,
        ms < me,
    ensures
        item_out(t, s, ms, me, rep) == t,
{
    if s + t.len() <= ms {
        assert(t.take(clamp(ms - s, t.len() as int)) =~= t);
        assert(t.skip(clamp(me - s, t.len() as int)) =~= Seq::<char>::empty());
    } else {
        assert(t.take(clamp(ms - s, t.len() as int)) =~= Seq::<char>::empty());
        assert(t.skip(clamp(me - s, t.len() as int)) =~= t);
    }
    assert(item_out(t, s, ms, me, rep) =~= t);
}

/// Where run `i` ends in the searched text of `runs`.
pub open spec fn run_end(runs: Seq<CT_R>, i: int) -> int {
    para_chars(runs.take(i + 1)).len() as int
}

/// The first run, from `i` on, that ends after position `m` (the number
/// of runs if none does).
pub open spec fn first_end_after(runs: Seq<CT_R>, m: int, i: int) -> int
    decreases runs.len() - i,
{
    if i < 0 || i >= runs.len() {
        runs.len() as int
    } else if run_end(runs, i) > m {
        i
    } else {
        first_end_after(runs, m, i + 1)
    }
}

/// `first_end_after` is the first such run.
pub proof fn lemma_first_end_after(runs: Seq<CT_R>, m: int, i: int)
    requires
        0 <= i <= runs.len(),
    ensures
        i <= first_end_after(runs, m, i) <= runs.len(),
        forall|j: int| i <= j < first_end_after(runs, m, i) ==> run_end(runs, j) <= m,
        first_end_after(runs, m, i) < runs.len() ==> run_end(runs, first_end_after(runs, m, i)) > m,
    decreases runs.len() - i,
{
    if i < runs.len() && run_end(runs, i) <= m {
        lemma_first_end_after(runs, m, i + 1);
    }
}

/// The number of characters of a run's text items.
fn run_text_len(run: &CT_R) -> (r: usize)
    requires
        items_chars(run.content@).len() <= usize::MAX,
    ensures
        r == items_chars(run.content@).len(),
{
    let mut n: usize = 0;
    let mut j: usize = 0;
    while j < run.content.len()
        invariant
            j <= run.content@.len(),
            items_chars(run.content@).len() <= usize::MAX,
            n == items_chars(run.content@.take(j as int)).len(),
        decreases run.content@.len() - j,
    {
        proof {
            assert(run.content@.take(j + 1).drop_last() =~= run.content@.take(j as int));
            lemma_items_chars_prefix(run.content@, j + 1);
        }
        match &run.content[j] {
            RunContent::Text(t) => {
                let cs = str_chars(t.text.as_str());
                n = n + cs.len();
            },
            _ => {},
        }
        j = j + 1;
    }
    proof { assert(run.content@.take(j as int) =~= run.content@); }
    n
}

/// Where run `j` starts in the searched text of `runs`.
pub open spec fn run_start(runs: Seq<CT_R>, j: int) -> int {
    para_chars(runs.take(j)).len() as int
}

/// `new` is `old` with the span `ms..me` of its searched text replaced by
/// `rep`, run by run: `sel` picks for each new run the old run it comes
/// from (`runs_kept`: same properties and raw XML), whose text it holds
/// with the part inside the span cut out and `rep` put where the span
/// begins (`item_out`); text outside the span stays in its run.
pub open spec fn span_kept(old: Seq<CT_R>, new: Seq<CT_R>, sel: Seq<int>, ms: int, me: int, rep: Seq<char>) -> bool {
    &&& runs_kept(old, new, sel)
    &&& forall|i: int|
        0 <= i < sel.len() ==> #[trigger] items_chars(new[i].content@) == item_out(
            items_chars(old[sel[i]].content@),
            run_start(old, sel[i]),
            ms,
            me,
            rep,
        )
}

/// The runs with the span `ms..me` of their searched text replaced by `rep`.
///
/// Runs wholly before or after the span are kept as they are. In a run the
/// span touches, the text item where the span begins keeps the characters
/// before it and receives `rep` (and, if the span also ends there, the
/// characters after it); text items wholly inside the span are removed;
/// the text item where the span ends keeps the characters after it, and is
/// removed if none are left; other items are kept, and a touched run left
/// with no items is removed. The run where the span begins keeps its
/// properties and raw XML.
#[verifier::spinoff_prover]
#[verifier::rlimit(80)]
fn replace_span(runs: Vec<CT_R>, ms: usize, me: usize, rep: &[char]) -> (out: Vec<CT_R>)
    requires
        ms < me,
        me <= para_chars(runs@).len(),
        para_chars(runs@).len() <= usize::MAX,
    ensures
        para_chars(out@) == cut(para_chars(runs@), ms as int, me as int, rep@),
        out@.len() <= runs@.len(),
        ({
            let a = first_end_after(runs@, ms as int, 0);
            &&& a < runs@.len()
            &&& a < out@.len()
            &&& out@.take(a) == runs@.take(a)
            &&& out@[a].properties == runs@[a].properties
            &&& out@[a].extra_xml == runs@[a].extra_xml
        }),
        para_nontext(out@) == para_nontext(runs@),
        exists|sel: Seq<int>| #[trigger] runs_kept(runs@, out@, sel),
        exists|sel: Seq<int>| #[trigger] span_kept(runs@, out@, sel, ms as int, me as int, rep@),
{
    let ghost all = runs@;
    let ghost a = first_end_after(all, ms as int, 0);
    proof {
        lemma_first_end_after(all, ms as int, 0);
        assert(all.take(all.len() as int) =~= all);
        if a >= all.len() {
            assert(run_end(all, all.len() - 1) <= ms) by {
                if all.len() == 0 {
                    assert(para_chars(all) =~= Seq::<char>::empty()) by {
                        assert(all =~= Seq::<CT_R>::empty());
                    }
                }
            }
            if all.len() > 0 {
                assert(all.take(all.len() - 1 + 1) =~= all);
            } else {
                assert(all =~= Seq::<CT_R>::empty());
            }
        }
    }
    let mut rest = runs;
    let mut out: Vec<CT_R> = Vec::new();
    let mut pos: usize = 0;
    let ghost mut k: int = 0;
    let ghost mut sel: Seq<int> = Seq::empty();
    let no_chars: Vec<char> = Vec::new();
    proof {
        assert(all.take(0) =~= Seq::<CT_R>::empty());
        assert(rest@ =~= all.skip(0));
        assert(cut(Seq::<char>::empty(), ms as int, me as int, rep@) =~= Seq::<char>::empty());
    }
    while rest.len() > 0
        invariant
            0 <= k <= all.len(),
            rest@ == all.skip(k),
            pos == para_chars(all.take(k)).len(),
            para_chars(all).len() <= usize::MAX,
            para_chars(out@) == cut(para_chars(all.take(k)), ms as int, me as int, rep@),
            out@.len() <= k,
            ms < me,
            no_chars@.len() == 0,
            0 <= a < all.len(),
            forall|j: int| 0 <= j < a ==> run_end(all, j) <= ms,
            run_end(all, a) > ms,
            k <= a ==> out@ == all.take(k),
            k > a ==> a < out@.len() && out@.take(a) == all.take(a) && out@[a].properties == all[a].properties
                && out@[a].extra_xml == all[a].extra_xml,
            para_nontext(out@) == para_nontext(all.take(k)),
            runs_kept(all, out@, sel),
            forall|i: int| 0 <= i < sel.len() ==> #[trigger] sel[i] < k,
            forall|i: int|
                0 <= i < sel.len() ==> #[trigger] items_chars(out@[i].content@) == item_out(
                    items_chars(all[sel[i]].content@),
                    run_start(all, sel[i]),
                    ms as int,
                    me as int,
                    rep@,
                ),
        decreases rest@.len(),
    {
        let ghost x = para_chars(all.take(k));
        let ghost before_out = para_chars(out@);
        let ghost out0 = out@;
        proof {
            lemma_para_chars_prefix(all, k + 1);
            assert(all.take(k + 1).drop_last() =~= all.take(k));
            assert(all[k] == rest@[0]);
            assert(x + items_chars(all[k].content@) == para_chars(all.take(k + 1)));
        }
        let run = rest.remove(0);
        let len = run_text_len(&run);
        if pos + len <= ms || pos >= me {
            proof {
                lemma_cut_whole_run(x, items_chars(run.content@), ms as int, me as int, rep@);
                assert(out0.push(run).drop_last() =~= out0);
                if k < a {
                    assert(out0.push(run) =~= all.take(k + 1));
                } else if k == a {
                    assert(run_end(all, a) == pos + len);
                    if a > 0 {
                        assert(run_end(all, a - 1) <= ms);
                        assert(all.take(a - 1 + 1) =~= all.take(k));
                    } else {
                        assert(all.take(0) =~= Seq::<CT_R>::empty());
                    }
                    assert(false);
                } else {
                    assert(out0.push(run).take(a) =~= out0.take(a));
                }
            }
            out.push(run);
            proof {
                assert(out@.drop_last() =~= out0);
                assert(all.take(k + 1).drop_last() =~= all.take(k));
                assert(out@.last() == all[k]);
                let sel2 = sel.push(k);
                assert forall|i: int| 0 <= i < sel2.len() implies 0 <= #[trigger] sel2[i] < all.len()
                    && out@[i].properties == all[sel2[i]].properties && out@[i].extra_xml == all[sel2[i]].extra_xml by {
                    if i < sel.len() {
                        assert(sel2[i] == sel[i]);
                        assert(out@[i] == out0[i]);
                    }
                }
                lemma_item_out_whole(items_chars(all[k].content@), pos as int, ms as int, me as int, rep@);
                assert(run_start(all, k) == pos);
                assert forall|i: int| 0 <= i < sel2.len() implies #[trigger] items_chars(out@[i].content@) == item_out(
                    items_chars(all[sel2[i]].content@), run_start(all, sel2[i]), ms as int, me as int, rep@) by {
                    if i < sel.len() {
                        assert(sel2[i] == sel[i]);
                        assert(out@[i] == out0[i]);
                    }
                }
                sel = sel2;
            }
            pos = pos + len;
        } else {
            let ghost touched_start = pos;
            let CT_R { properties, content, extra_xml } = run;
            let ghost items0 = content@;
            let mut items = content;
            let mut new_items: Vec<RunContent> = Vec::new();
            let ghost mut j: int = 0;
            proof {
                assert(items0.take(0) =~= Seq::<RunContent>::empty());
                assert(items@ =~= items0.skip(0));
                assert(x + items_chars(items0.take(0)) =~= x);
                assert(before_out + items_chars(new_items@) =~= before_out);
            }
            while items.len() > 0
                invariant
                    0 <= j <= items0.len(),
                    items@ == items0.skip(j),
                    pos == x.len() + items_chars(items0.take(j)).len(),
                    x.len() + items_chars(items0).len() <= usize::MAX,
                    cut(x + items_chars(items0.take(j)), ms as int, me as int, rep@) == before_out
                        + items_chars(new_items@),
                    ms < me,
                    no_chars@.len() == 0,
                    touched_start == x.len(),
                    touched_start <= ms && pos > ms ==> new_items@.len() > 0,
                    items_nontext(new_items@) == items_nontext(items0.take(j)),
                decreases items@.len(),
            {
                let ghost y = x + items_chars(items0.take(j));
                let ghost old_new = new_items@;
                proof {
                    lemma_items_chars_prefix(items0, j + 1);
                    assert(items0.take(j + 1).drop_last() =~= items0.take(j));
                    assert(items0[j] == items@[0]);
                    assert(x + items_chars(items0.take(j + 1)) =~= y + item_chars(items0[j]));
                }
                let item = items.remove(0);
                match item {
                    RunContent::Text(t) => {
                        let cs = str_chars(t.text.as_str());
                        let len = cs.len();
                        let s = pos;
                        let e = pos + len;
                        proof { lemma_cut_append(y, t.text@, ms as int, me as int, rep@); }
                        if e <= ms || s >= me {
                            proof { lemma_item_out_whole(t.text@, s as int, ms as int, me as int, rep@); }
                            new_items.push(RunContent::Text(t));
                        } else {
                            let a: usize = if ms >= s { ms - s } else { 0 };
                            let b: usize = if me - s > len { len } else { me - s };
                            let starts_here = s <= ms;
                            let nc = if starts_here {
                                splice_chars(cs.as_slice(), a, rep, b)
                            } else {
                                splice_chars(cs.as_slice(), a, no_chars.as_slice(), b)
                            };
                            proof {
                                assert(nc@ =~= item_out(t.text@, s as int, ms as int, me as int, rep@));
                            }
                            if starts_here || nc.len() > 0 {
                                let text = string_from_chars(nc.as_slice());
                                let preserve_space = edge_space(nc.as_slice());
                                new_items.push(RunContent::Text(CT_Text { text, preserve_space }));
                            }
                        }
                        pos = e;
                    },
                    other => {
                        new_items.push(other);
                    },
                }
                proof {
                    j = j + 1;
                    assert(items0.take(j).drop_last() =~= items0.take(j - 1));
                    if new_items@ != old_new {
                        assert(new_items@.drop_last() =~= old_new);
                    }
                    lemma_items_chars_push(old_new, new_items@);
                    assert(x + items_chars(items0.take(j)) =~= y + item_chars(items0[j - 1]));
                    assert(items@ =~= items0.skip(j));
                }
            }
            proof {
                assert(items0.take(j) =~= items0);
                assert(x + items_chars(items0) == para_chars(all.take(k + 1)));
                if k == a {
                    assert(run_end(all, a) == pos);
                    if a > 0 {
                        assert(all.take(a - 1 + 1) =~= all.take(k));
                        assert(run_end(all, a - 1) <= ms);
                    } else {
                        assert(all.take(0) =~= Seq::<CT_R>::empty());
                    }
                    assert(new_items@.len() > 0);
                }
                if k < a {
                    assert(run_end(all, k) <= ms);
                    assert(run_end(all, k) == pos);
                    assert(false);
                }
            }
            proof {
                assert(all.take(k + 1).drop_last() =~= all.take(k));
                assert(all.take(k + 1).last() == all[k]);
                assert(all[k].content@ == items0);
            }
            if new_items.len() > 0 {
                let ghost ni = new_items@;
                out.push(CT_R { properties, content: new_items, extra_xml });
                proof {
                    assert(out@.drop_last() =~= out0);
                    assert(out@.last().content@ == ni);
                    let sel2 = sel.push(k);
                    assert forall|i: int| 0 <= i < sel2.len() implies 0 <= #[trigger] sel2[i] < all.len()
                        && out@[i].properties == all[sel2[i]].properties && out@[i].extra_xml == all[sel2[i]].extra_xml by {
                        if i < sel.len() {
                            assert(sel2[i] == sel[i]);
                            assert(out@[i] == out0[i]);
                        }
                    }
                    lemma_cut_append(x, items_chars(items0), ms as int, me as int, rep@);
                    let io = item_out(items_chars(items0), x.len() as int, ms as int, me as int, rep@);
                    assert(before_out + items_chars(ni) == before_out + io);
                    assert(items_chars(ni) =~= (before_out + items_chars(ni)).skip(before_out.len() as int));
                    assert(io =~= (before_out + io).skip(before_out.len() as int));
                    assert(run_start(all, k) == x.len());
                    assert forall|i: int| 0 <= i < sel2.len() implies #[trigger] items_chars(out@[i].content@) == item_out(
                        items_chars(all[sel2[i]].content@), run_start(all, sel2[i]), ms as int, me as int, rep@) by {
                        if i < sel.len() {
                            assert(sel2[i] == sel[i]);
                            assert(out@[i] == out0[i]);
                        }
                    }
                    sel = sel2;
                    if k > a {
                        assert(out@.take(a) =~= out0.take(a));
                    } else {
                        assert(out0 == all.take(k));
                        assert(out@.take(a) =~= all.take(a));
                    }
                }
            } else {
                proof {
                    assert(items_chars(new_items@) =~= Seq::<char>::empty()) by {
                        assert(new_items@ =~= Seq::<RunContent>::empty());
                    }
                    assert(items_nontext(new_items@) =~= Seq::<RunContent>::empty()) by {
                        assert(new_items@ =~= Seq::<RunContent>::empty());
                    }
                    assert(para_nontext(all.take(k + 1)) =~= para_nontext(all.take(k)));
                }
            }
        }
        proof {
            k = k + 1;
            assert(rest@ =~= all.skip(k));
        }
    }
    proof {
        assert(all.take(k) =~= all);
        assert(span_kept(all, out@, sel, ms as int, me as int, rep@));
    }
    out
}

/// A run wholly outside the span keeps all its characters.
pub proof fn lemma_cut_whole_run(x: Seq<char>, t: Seq<char>, ms: int, me: int, rep: Seq<char>)
    requires
        0 <= ms < me,
        x.len() + t.len() <= ms || x.len() >= me,
    ensures
        cut(x + t, ms, me, rep) == cut(x, ms, me, rep) + t,
{
    lemma_cut_append(x, t, ms, me, rep);
    lemma_item_out_whole(t, x.len() as int, ms, me, rep);
}

/// The searched text of a prefix of runs is a prefix of the searched text.
pub proof fn lemma_para_chars_prefix(runs: Seq<CT_R>, k: int)
    requires
        0 <= k <= runs.len(),
    ensures
        para_chars(runs.take(k)).len() <= para_chars(runs).len(),
    decreases runs.len() - k,
{
    if k < runs.len() {
        lemma_para_chars_prefix(runs, k + 1);
        assert(runs.take(k + 1).drop_last() =~= runs.take(k));
    } else {
        assert(runs.take(k) =~= runs);
    }
}

/// The searched text of a prefix of items is no longer than the whole.
pub proof fn lemma_items_chars_prefix(items: Seq<RunContent>, k: int)
    requires
        0 <= k <= items.len(),
    ensures
        items_chars(items.take(k)).len() <= items_chars(items).len(),
    decreases items.len() - k,
{
    if k < items.len() {
        lemma_items_chars_prefix(items, k + 1);
        assert(items.take(k + 1).drop_last() =~= items.take(k));
    } else {
        assert(items.take(k) =~= items);
    }
}

/// Pushing one item adds its characters.
pub proof fn lemma_items_chars_push(a: Seq<RunContent>, b: Seq<RunContent>)
    requires
        b == a || (b.len() == a.len() + 1 && b.drop_last() == a),
    ensures
        b == a ==> items_chars(b) == items_chars(a),
        b != a ==> items_chars(b) == items_chars(a) + item_chars(b.last()),
{
}

/// The hyperlink spans that still start within the first `n` runs, each
/// ending no later than run `n`.
pub open spec fn clamp_links(h: Seq<HyperlinkSpan>, n: nat) -> Seq<HyperlinkSpan>
    decreases h.len(),
{
    if h.len() == 0 {
        Seq::empty()
    } else {
        let rest = clamp_links(h.drop_last(), n);
        let l = h.last();
        if l.run_start < n {
            rest.push(HyperlinkSpan { run_end: if l.run_end > n { n as usize } else { l.run_end }, ..l })
        } else {
            rest
        }
    }
}

/// Clamping to `a` runs and then to `b <= a` runs is clamping to `b` runs.
pub proof fn lemma_clamp_links_twice(h: Seq<HyperlinkSpan>, a: nat, b: nat)
    requires
        b <= a,
    ensures
        clamp_links(clamp_links(h, a), b) == clamp_links(h, b),
    decreases h.len(),
{
    if h.len() > 0 {
        lemma_clamp_links_twice(h.drop_last(), a, b);
        let rest = clamp_links(h.drop_last(), a);
        let l = h.last();
        if l.run_start < a {
            let l2 = HyperlinkSpan { run_end: if l.run_end > a { a as usize } else { l.run_end }, ..l };
            assert(rest.push(l2).drop_last() =~= rest);
            assert(rest.push(l2).last() == l2);
        }
    }
}

/// `new` is `old` after the spans `spans` of its searched text were
/// replaced by `rep` one after another, each run by run as `span_kept`
/// says, and each over an occurrence of `pat` in the text it was replaced
/// in.
pub open spec fn span_chain(old: Seq<CT_R>, new: Seq<CT_R>, spans: Seq<(int, int)>, pat: Seq<char>, rep: Seq<char>) -> bool
    decreases spans.len(),
{
    if spans.len() == 0 {
        new == old
    } else {
        let (ms, me) = spans.last();
        exists|mid: Seq<CT_R>, sel: Seq<int>|
            #[trigger] span_kept(mid, new, sel, ms, me, rep) && span_chain(old, mid, spans.drop_last(), pat, rep)
                && me == ms + pat.len() && occurs_at(para_chars(mid), pat, ms)
    }
}

/// One more span replaced extends a chain.
pub proof fn lemma_span_chain_push(
    old: Seq<CT_R>,
    mid: Seq<CT_R>,
    new: Seq<CT_R>,
    spans: Seq<(int, int)>,
    ms: int,
    me: int,
    sel: Seq<int>,
    pat: Seq<char>,
    rep: Seq<char>,
)
    requires
        span_chain(old, mid, spans, pat, rep),
        span_kept(mid, new, sel, ms, me, rep),
        me == ms + pat.len(),
        occurs_at(para_chars(mid), pat, ms),
    ensures
        span_chain(old, new, spans.push((ms, me)), pat, rep),
{
    let sp = spans.push((ms, me));
    assert(sp.drop_last() =~= spans);
    assert(sp.last() == (ms, me));
    assert(span_kept(mid, new, sel, sp.last().0, sp.last().1, rep));
}

/// What replacing every occurrence does to a paragraph: its searched text
/// becomes `replace_all` of the old one (one pass from the left, each
/// search resuming after the replacement put in); no run is added; the
/// paragraph's properties and raw XML stay; and, if anything was replaced,
/// hyperlink spans are clamped to the remaining runs (otherwise nothing
/// changes); every run left is a run of the old paragraph, in order, with
/// its properties and raw XML; and the items that are not text stay as
/// they were, in order.
#[verifier::opaque]
pub open spec fn replaced_para(old: CT_P, new: CT_P, pat: Seq<char>, rep: Seq<char>) -> bool {
    let x = para_chars(old.runs@);
    let n = steps_of(x, pat, rep);
    &&& para_chars(new.runs@) == crate::chars::replace_all(x, pat, rep)
    &&& new.runs@.len() <= old.runs@.len()
    &&& n == 0 ==> new == old
    &&& n > 0 ==> new.hyperlinks@ == clamp_links(old.hyperlinks@, new.runs@.len())
    &&& n > 0 ==> {
        let a0 = first_touched_run(old.runs@, pat);
        &&& a0 < old.runs@.len() && a0 < new.runs@.len()
        &&& new.runs@.take(a0) == old.runs@.take(a0)
        &&& new.runs@[a0].properties == old.runs@[a0].properties
        &&& new.runs@[a0].extra_xml == old.runs@[a0].extra_xml
    }
    &&& new.properties == old.properties
    &&& new.extra_xml == old.extra_xml
    &&& para_nontext(new.runs@) == para_nontext(old.runs@)
    &&& exists|sel: Seq<int>| #[trigger] runs_kept(old.runs@, new.runs@, sel)
    &&& exists|spans: Seq<(int, int)>| #[trigger] span_chain(old.runs@, new.runs@, spans, pat, rep)
}

/// The run where the first occurrence of `pat` begins: the first run that
/// ends after its start (0 when there is none).
pub open spec fn first_touched_run(runs: Seq<CT_R>, pat: Seq<char>) -> int {
    match first_occurrence(para_chars(runs), pat) {
        Some(m) => first_end_after(runs, m, 0),
        None => 0,
    }
}

/// Runs that agree on a prefix of `c` runs, all ending by `m`, have their
/// first run ending after `m` no earlier than `c`.
proof fn lemma_prefix_runs_end(cur: Seq<CT_R>, old: Seq<CT_R>, c: int, m: int)
    requires
        0 <= c <= cur.len(),
        c <= old.len(),
        cur.take(c) == old.take(c),
        forall|j: int| 0 <= j < c ==> run_end(old, j) <= m,
    ensures
        first_end_after(cur, m, 0) >= c,
{
    lemma_first_end_after(cur, m, 0);
    let f = first_end_after(cur, m, 0);
    if f < c {
        assert(cur.take(f + 1) =~= cur.take(c).take(f + 1));
        assert(old.take(f + 1) =~= old.take(c).take(f + 1));
        assert(run_end(cur, f) == run_end(old, f));
    }
}

/// Keep the hyperlink spans that start within the runs, clamping their ends
/// to the number of runs.
fn reindex_hyperlinks(para: &mut CT_P)
    ensures
        final(para).hyperlinks@ == clamp_links(old(para).hyperlinks@, old(para).runs@.len()),
        final(para).runs == old(para).runs,
        final(para).properties == old(para).properties,
        final(para).extra_xml == old(para).extra_xml,
{
    let n = para.runs.len();
    let mut rest: Vec<HyperlinkSpan> = Vec::new();
    std::mem::swap(&mut rest, &mut para.hyperlinks);
    let ghost h = rest@;
    let mut kept: Vec<HyperlinkSpan> = Vec::new();
    let ghost mut k: int = 0;
    proof {
        assert(h.take(0) =~= Seq::<HyperlinkSpan>::empty());
        assert(rest@ =~= h.skip(0));
    }
    while rest.len() > 0
        invariant
            0 <= k <= h.len(),
            rest@ == h.skip(k),
            kept@ == clamp_links(h.take(k), n as nat),
        decreases rest@.len(),
    {
        proof {
            assert(h.take(k + 1).drop_last() =~= h.take(k));
            assert(h[k] == rest@[0]);
        }
        let mut l = rest.remove(0);
        if l.run_start < n {
            if l.run_end > n {
                l.run_end = n;
            }
            kept.push(l);
        }
        proof {
            k = k + 1;
            assert(rest@ =~= h.skip(k));
        }
    }
    proof { assert(h.take(k) =~= h); }
    para.hyperlinks = kept;
}

/// One replacement of the pass: with the text so far `outp` followed by
/// the rest of the original from `k`, and the first occurrence in that
/// rest at `j`, the pass goes on from after the occurrence with `rep` put
/// in its place.
proof fn lemma_pass_advance(
    x0: Seq<char>,
    k: int,
    outp: Seq<char>,
    full: Seq<char>,
    total: nat,
    j: int,
    pat: Seq<char>,
    rep: Seq<char>,
)
    requires
        pat.len() > 0,
        0 <= k <= x0.len(),
        full == outp + x0.skip(k),
        occurs_at(x0.skip(k), pat, j),
        forall|i: int| 0 <= i < j ==> !occurs_at(x0.skip(k), pat, i),
        crate::chars::replace_all(x0, pat, rep) == outp + crate::chars::replace_all(x0.skip(k), pat, rep),
        match_count(x0, pat) == total + match_count(x0.skip(k), pat),
    ensures
        k + j + pat.len() <= x0.len(),
        full.len() == outp.len() + x0.len() - k,
        full.take(outp.len() + j) + rep + full.skip(outp.len() + j + pat.len()) == (outp + x0.skip(k).take(j)
            + rep) + x0.skip(k + j + pat.len()),
        crate::chars::replace_all(x0, pat, rep) == (outp + x0.skip(k).take(j) + rep) + crate::chars::replace_all(
            x0.skip(k + j + pat.len()),
            pat,
            rep,
        ),
        match_count(x0, pat) == total + 1 + match_count(x0.skip(k + j + pat.len()), pat),
{
    let r0 = x0.skip(k);
    let p = pat.len() as int;
    lemma_pass_skip(r0, pat, rep, j);
    assert(r0.skip(j).subrange(0, p) =~= r0.subrange(j, j + p));
    lemma_pass_match(r0.skip(j), pat, rep);
    assert(r0.skip(j).skip(p) =~= x0.skip(k + j + p));
    assert(full.take(outp.len() + j) =~= outp + r0.take(j));
    assert(full.skip(outp.len() + j + p) =~= x0.skip(k + j + p));
    assert(full.take(outp.len() + j) + rep + full.skip(outp.len() + j + p) =~= (outp + r0.take(j) + rep)
        + x0.skip(k + j + p));
    assert(crate::chars::replace_all(x0, pat, rep) =~= (outp + r0.take(j) + rep) + crate::chars::replace_all(
        x0.skip(k + j + p),
        pat,
        rep,
    ));
}

/// Replace all occurrences of `placeholder` with `replacement` in a paragraph.
///
/// Handles placeholders split across multiple runs. The replacement takes
/// the formatting of the run where the occurrence begins. The searched text
/// is scanned once from the left; after each replacement the search goes on
/// after the text put in. The number of replacements is returned.
#[verifier::rlimit(60)]
pub fn replace_in_paragraph(para: &mut CT_P, placeholder: &str, replacement: &str) -> (r: usize)
    ensures
        placeholder@.len() == 0 ==> r == 0 && *final(para) == *old(para),
        placeholder@.len() > 0 ==> r == steps_of(para_chars(old(para).runs@), placeholder@,
            replacement@) && replaced_para(*old(para), *final(para), placeholder@, replacement@),
        placeholder@.len() > 0 && para_nontext(old(para).runs@).len() == 0 ==> crate::text::runs_text(
            final(para).runs@,
        ) == crate::chars::replace_all(crate::text::runs_text(old(para).runs@), placeholder@, replacement@),
{
    let pat = str_chars(placeholder);
    if pat.len() == 0 {
        return 0;
    }
    let rep = str_chars(replacement);
    let first = search_text(&para.runs);
    let first_len = first.len();
    let ghost x0 = para_chars(para.runs@);
    proof { assert(x0.len() == first_len); }
    let ghost h0 = para.hyperlinks@;
    let ghost n0 = para.runs@.len();
    proof {
        lemma_count_le_len(x0, pat@);
        assert(x0.skip(0) =~= x0);
        assert(Seq::<char>::empty() + x0.skip(0) =~= x0);
        assert(Seq::<char>::empty() + crate::chars::replace_all(x0.skip(0), pat@, rep@) =~= crate::chars::replace_all(x0, pat@, rep@));
    }
    let ghost mut k: int = 0;
    let ghost mut outp: Seq<char> = Seq::empty();
    let ghost mut m0: int = 0;
    let ghost mut a0: int = 0;
    let ghost mut gsel: Seq<int> = Seq::new(n0, |i: int| i);
    let ghost mut gspans: Seq<(int, int)> = Seq::empty();
    proof { lemma_runs_kept_same(para.runs@); }
    let mut last_ms: usize = 0;
    let mut started = false;
    let mut total: usize = 0;
    loop
        invariant
            pat@ == placeholder@,
            rep@ == replacement@,
            pat@.len() > 0,
            x0 == para_chars(old(para).runs@),
            x0.len() <= usize::MAX,
            0 <= k <= x0.len(),
            para_chars(para.runs@) == outp + x0.skip(k),
            started ==> last_ms + rep@.len() == outp.len(),
            !started ==> outp.len() == 0,
            crate::chars::replace_all(x0, pat@, rep@) == outp + crate::chars::replace_all(x0.skip(k), pat@, rep@),
            match_count(x0, pat@) == total + match_count(x0.skip(k), pat@),
            match_count(x0, pat@) <= x0.len(),
            para.runs@.len() <= n0,
            total == 0 ==> para.runs == old(para).runs && para.hyperlinks == old(para).hyperlinks,
            total > 0 ==> para.hyperlinks@ == clamp_links(h0, para.runs@.len()),
            para.properties == old(para).properties,
            para.extra_xml == old(para).extra_xml,
            h0 == old(para).hyperlinks@,
            n0 == old(para).runs@.len(),
            total == 0 ==> k == 0 && !started,
            total > 0 ==> started,
            total > 0 ==> first_occurrence(x0, pat@) == Some(m0) && outp.len() >= m0,
            total > 0 ==> a0 == first_touched_run(old(para).runs@, pat@),
            total > 0 ==> a0 < para.runs@.len() && a0 < old(para).runs@.len()
                && para.runs@.take(a0) == old(para).runs@.take(a0)
                && para.runs@[a0].properties == old(para).runs@[a0].properties
                && para.runs@[a0].extra_xml == old(para).runs@[a0].extra_xml,
            para_nontext(para.runs@) == para_nontext(old(para).runs@),
            runs_kept(old(para).runs@, para.runs@, gsel),
            span_chain(old(para).runs@, para.runs@, gspans, pat@, rep@),
        ensures
            match_count(x0.skip(k), pat@) == 0,
            crate::chars::replace_all(x0.skip(k), pat@, rep@) == x0.skip(k),
        decreases x0.len() - k,
    {
        let full = search_text(&para.runs);
        let full_len = full.len();
        proof { assert(outp.len() <= full_len); }
        let from: usize = if started { last_ms + rep.len() } else { 0 };
        let rest = crate::opc::tail_from(full.as_slice(), from);
        proof { assert(rest@ =~= x0.skip(k)); }
        let j = match find_chars(rest.as_slice(), pat.as_slice()) {
            Some(j) => j,
            None => {
                proof {
                    lemma_occurrence_from(rest@, pat@, 0);
                    lemma_pass_none(rest@, pat@, rep@);
                }
                break;
            },
        };
        let ghost r0 = rest@;
        proof {
            lemma_occurrence_from(r0, pat@, 0);
            lemma_pass_advance(x0, k, outp, full@, total as nat, j as int, pat@, rep@);
        }
        let ms = from + j;
        let me = ms + pat.len();
        let mut runs: Vec<CT_R> = Vec::new();
        std::mem::swap(&mut runs, &mut para.runs);
        let ghost before = runs@;
        proof {
            if total == 0 {
                assert(x0.skip(0) =~= x0);
                m0 = j as int;
                a0 = first_end_after(before, m0, 0);
                assert(before == old(para).runs@);
                assert(ms == j);
            } else {
                assert(a0 == first_end_after(old(para).runs@, m0, 0));
                assert(from == outp.len());
                assert(ms >= m0);
                lemma_first_end_after(old(para).runs@, m0, 0);
                lemma_prefix_runs_end(before, old(para).runs@, a0, ms as int);
            }
        }
        let new_runs = replace_span(runs, ms, me, rep.as_slice());
        proof {
            let sk = choose|sk: Seq<int>| #[trigger] span_kept(before, new_runs@, sk, ms as int, me as int, rep@);
            assert(r0.subrange(j as int, j + pat@.len()) == pat@);
            assert(para_chars(before).subrange(ms as int, me as int) =~= r0.subrange(j as int, j + pat@.len()));
            assert(occurs_at(para_chars(before), pat@, ms as int));
            lemma_span_chain_push(old(para).runs@, before, new_runs@, gspans, ms as int, me as int, sk, pat@, rep@);
            gspans = gspans.push((ms as int, me as int));
        }
        proof {
            let s2 = choose|s2: Seq<int>| #[trigger] runs_kept(before, new_runs@, s2);
            lemma_runs_kept_compose(old(para).runs@, before, new_runs@, gsel, s2);
            gsel = Seq::new(s2.len(), |i: int| gsel[s2[i]]);
        }
        proof {
            let a = first_end_after(before, ms as int, 0);
            lemma_first_end_after(before, ms as int, 0);
            lemma_first_end_after(old(para).runs@, m0, 0);
            assert(0 <= a0 <= a);
            assert(a < new_runs@.len());
            assert(new_runs@.take(a0) =~= new_runs@.take(a).take(a0));
            assert(before.take(a0) =~= before.take(a).take(a0));
            if a0 < a {
                assert(new_runs@[a0] == new_runs@.take(a)[a0]);
                assert(before[a0] == before.take(a)[a0]);
            }
        }
        proof {
            let outp2 = outp + r0.take(j as int) + rep@;
            assert(cut(full@, ms as int, me as int, rep@) =~= full@.take(ms as int) + rep@
                + full@.skip(me as int));
            k = k + j + pat@.len();
            outp = outp2;
        }
        para.runs = new_runs;
        reindex_hyperlinks(para);
        proof {
            if total > 0 {
                lemma_clamp_links_twice(h0, before.len(), para.runs@.len());
            }
        }
        last_ms = ms;
        started = true;
        total = total + 1;
    }
    proof {
        reveal(replaced_para);
        assert(span_chain(old(para).runs@, para.runs@, gspans, pat@, rep@));
        assert(outp + x0.skip(k) == crate::chars::replace_all(x0, pat@, rep@));
        assert(runs_kept(old(para).runs@, para.runs@, gsel));
        if para_nontext(old(para).runs@).len() == 0 {
            lemma_plain_runs_text(old(para).runs@);
            lemma_plain_runs_text(para.runs@);
        }
    }
    total
}

/// The total number of replacement steps over a sequence of paragraphs.
pub open spec fn paras_steps(ps: Seq<CT_P>, pat: Seq<char>, rep: Seq<char>) -> nat
    decreases ps.len(),
{
    if ps.len() == 0 {
        0
    } else {
        paras_steps(ps.drop_last(), pat, rep) + steps_of(para_chars(ps.last().runs@), pat, rep)
    }
}

/// Whether the replacements of every paragraph, and their total, fit a
/// `usize`.
pub open spec fn paras_replacement_ends(ps: Seq<CT_P>, pat: Seq<char>, rep: Seq<char>) -> bool {
    &&& forall|i: int| 0 <= i < ps.len() ==> replacement_ends(#[trigger] para_chars(ps[i].runs@), pat, rep)
    &&& paras_steps(ps, pat, rep) <= usize::MAX
}

/// The step count of a prefix is at most that of the whole.
pub proof fn lemma_paras_steps_prefix(ps: Seq<CT_P>, pat: Seq<char>, rep: Seq<char>, k: int)
    requires
        0 <= k <= ps.len(),
    ensures
        paras_steps(ps.take(k), pat, rep) <= paras_steps(ps, pat, rep),
    decreases ps.len() - k,
{
    if k < ps.len() {
        lemma_paras_steps_prefix(ps, pat, rep, k + 1);
        assert(ps.take(k + 1).drop_last() =~= ps.take(k));
    } else {
        assert(ps.take(k) =~= ps);
    }
}

/// Replace all occurrences of `placeholder` in each paragraph of a slice.
#[verifier::spinoff_prover]
#[verifier::rlimit(30)]
pub fn replace_in_paragraphs(paras: &mut [CT_P], placeholder: &str, replacement: &str) -> (r: usize)
    requires
        placeholder@.len() > 0 ==> paras_replacement_ends(old(paras)@, placeholder@, replacement@),
    ensures
        placeholder@.len() == 0 ==> r == 0 && final(paras)@ == old(paras)@,
        placeholder@.len() > 0 ==> {
            &&& r == paras_steps(old(paras)@, placeholder@, replacement@)
            &&& final(paras)@.len() == old(paras)@.len()
            &&& forall|i: int| 0 <= i < old(paras)@.len() ==> replaced_para(
                #[trigger] old(paras)@[i], final(paras)@[i], placeholder@, replacement@)
        },
{
    let pat_chars = str_chars(placeholder);
    if pat_chars.len() == 0 {
        return 0;
    }
    let ghost ps = paras@;
    let ghost pat = placeholder@;
    let ghost rep = replacement@;
    let mut total: usize = 0;
    let mut i: usize = 0;
    while i < paras.len()
        invariant
            i <= paras@.len(),
            paras@.len() == ps.len(),
            ps == old(paras)@,
            pat == placeholder@,
            rep == replacement@,
            pat.len() > 0,
            paras_replacement_ends(ps, pat, rep),
            total == paras_steps(ps.take(i as int), pat, rep),
            forall|k: int| i <= k < ps.len() ==> paras@[k] == ps[k],
            forall|k: int| 0 <= k < i ==> replaced_para(#[trigger] ps[k], paras@[k], pat, rep),
        decreases ps.len() - i,
    {
        proof {
            lemma_paras_steps_prefix(ps, pat, rep, i + 1);
            assert(ps.take(i + 1).drop_last() =~= ps.take(i as int));
            assert(replacement_ends(para_chars(ps[i as int].runs@), pat, rep));
        }
        let ghost prev = paras@;
        let c = replace_in_paragraph(&mut paras[i], placeholder, replacement);
        proof {
            assert(paras@ == prev.update(i as int, paras@[i as int]));
        }
        total = total + c;
        i = i + 1;
    }
    proof {
        assert(ps.take(i as int) =~= ps);
    }
    total
}

/// The characters `s` with `s[a..b]` replaced by `rep`.
fn splice_span(s: &Vec<char>, a: usize, b: usize, rep: &[char]) -> (r: Vec<char>)
    requires
        a <= b <= s@.len(),
    ensures
        r@ == s@.take(a as int) + rep@ + s@.skip(b as int),
{
    let mut out: Vec<char> = Vec::new();
    let mut k: usize = 0;
    while k < a
        invariant
            k <= a <= b <= s@.len(),
            out@ == s@.take(k as int),
        decreases a - k,
    {
        out.push(s[k]);
        proof { assert(out@ =~= s@.take(k + 1)); }
        k = k + 1;
    }
    crate::chars::append_chars(&mut out, rep);
    let ghost mid = out@;
    let mut j: usize = b;
    while j < s.len()
        invariant
            b <= j <= s@.len(),
            mid == s@.take(a as int) + rep@,
            out@ == mid + s@.subrange(b as int, j as int),
        decreases s@.len() - j,
    {
        out.push(s[j]);
        proof { assert(out@ =~= mid + s@.subrange(b as int, j + 1)); }
        j = j + 1;
    }
    proof { assert(s@.subrange(b as int, j as int) =~= s@.skip(b as int)); }
    out
}

/// The number of replacements in `s`, if at most `limit`.
pub fn settle_steps(s: &[char], pat: &[char], rep: &[char], limit: usize) -> (r: Option<usize>)
    requires
        pat@.len() > 0,
    ensures
        match r {
            Some(n) => n <= limit && n == steps_of(s@, pat@, rep@),
            None => steps_of(s@, pat@, rep@) > limit,
        },
{
    let mut pos: usize = 0;
    let mut count: usize = 0;
    let sl = s.len();
    proof { assert(s@.skip(0) =~= s@); }
    loop
        invariant
            pat@.len() > 0,
            sl == s@.len(),
            pos <= s@.len(),
            count <= limit,
            count + match_count(s@.skip(pos as int), pat@) == match_count(s@, pat@),
        decreases s@.len() - pos,
    {
        let rest = crate::opc::tail_from(s, pos);
        match find_chars(rest.as_slice(), pat) {
            None => {
                proof {
                    lemma_occurrence_from(rest@, pat@, 0);
                    lemma_pass_none(rest@, pat@, rep@);
                }
                return Some(count);
            },
            Some(j) => {
                let ghost r0 = rest@;
                proof {
                    lemma_occurrence_from(r0, pat@, 0);
                    lemma_pass_skip(r0, pat@, rep@, j as int);
                    assert(occurs_at(r0.skip(j as int), pat@, 0)) by {
                        assert(r0.skip(j as int).subrange(0, pat@.len() as int) =~= r0.subrange(j as int, j + pat@.len()));
                    }
                    lemma_pass_match(r0.skip(j as int), pat@, rep@);
                    assert(r0.skip(j as int).skip(pat@.len() as int) =~= s@.skip(pos + j + pat@.len()));
                    assert(j + pat@.len() <= r0.len());
                }
                if count == limit {
                    return None;
                }
                count = count + 1;
                pos = pos + j + pat.len();
            },
        }
    }
}

/// A paragraph whose replacements exceed what is left of the count means
/// the total does not fit a `usize`.
proof fn lemma_settle_fails(ps: Seq<CT_P>, pat: Seq<char>, rep: Seq<char>, i: int, limit: nat)
    requires
        0 <= i < ps.len(),
        limit + paras_steps(ps.take(i), pat, rep) == usize::MAX,
        steps_of(para_chars(ps[i].runs@), pat, rep) > limit,
    ensures
        !paras_replacement_ends(ps, pat, rep),
{
    lemma_paras_steps_prefix(ps, pat, rep, i + 1);
    assert(ps.take(i + 1).drop_last() =~= ps.take(i));
    assert(ps.take(i + 1).last() == ps[i]);
}

/// One more paragraph adds its replacements to the count.
proof fn lemma_settle_count(ps: Seq<CT_P>, pat: Seq<char>, rep: Seq<char>, i: int, n: nat)
    requires
        0 <= i < ps.len(),
        n == steps_of(para_chars(ps[i].runs@), pat, rep),
    ensures
        paras_steps(ps.take(i + 1), pat, rep) == paras_steps(ps.take(i), pat, rep) + n,
{
    assert(ps.take(i + 1).drop_last() =~= ps.take(i));
    assert(ps.take(i + 1).last() == ps[i]);
}

/// One more paragraph whose count fits keeps every paragraph so far
/// fitting.
proof fn lemma_settle_ends(ps: Seq<CT_P>, pat: Seq<char>, rep: Seq<char>, i: int, n: nat)
    requires
        0 <= i < ps.len(),
        n == steps_of(para_chars(ps[i].runs@), pat, rep),
        n <= usize::MAX,
        first_paras_end(ps, i, pat, rep),
    ensures
        first_paras_end(ps, i + 1, pat, rep),
{
    assert forall|k: int| 0 <= k < i + 1 implies replacement_ends(#[trigger] para_chars(ps[k].runs@), pat, rep) by {
        if k < i {
            assert(first_paras_end(ps, i, pat, rep));
        }
    }
}

/// Whether the replacements of each of the first `i` paragraphs fit a `usize`.
pub open spec fn first_paras_end(ps: Seq<CT_P>, i: int, pat: Seq<char>, rep: Seq<char>) -> bool {
    forall|k: int| 0 <= k < i ==> replacement_ends(#[trigger] para_chars(ps[k].runs@), pat, rep)
}

/// Whether the total number of replacements of `placeholder` over the
/// paragraphs fits a `usize`; the total if so.
#[verifier::spinoff_prover]
#[verifier::rlimit(30)]
pub fn paras_settle(paras: &[CT_P], placeholder: &str, replacement: &str) -> (r: Option<usize>)
    requires
        placeholder@.len() > 0,
    ensures
        r is Some <==> paras_replacement_ends(paras@, placeholder@, replacement@),
        r matches Some(n) ==> n == paras_steps(paras@, placeholder@, replacement@),
{
    let pat = str_chars(placeholder);
    let rep = str_chars(replacement);
    let ghost ps = paras@;
    let mut total: usize = 0;
    let mut i: usize = 0;
    proof { assert(ps.take(0) =~= Seq::<CT_P>::empty()); }
    while i < paras.len()
        invariant
            i <= ps.len(),
            ps == paras@,
            pat@ == placeholder@,
            rep@ == replacement@,
            pat@.len() > 0,
            first_paras_end(ps, i as int, pat@, rep@),
            total == paras_steps(ps.take(i as int), pat@, rep@),
        decreases ps.len() - i,
    {
        let text = search_text(&paras[i].runs);
        match settle_steps(text.as_slice(), pat.as_slice(), rep.as_slice(), usize::MAX - total) {
            Some(n) => {
                proof {
                    lemma_settle_count(ps, pat@, rep@, i as int, n as nat);
                    lemma_settle_ends(ps, pat@, rep@, i as int, n as nat);
                }
                total = total + n;
            },
            None => {
                proof { lemma_settle_fails(ps, pat@, rep@, i as int, (usize::MAX - total) as nat); }
                return None;
            },
        }
        i = i + 1;
    }
    proof {
        assert(ps.take(i as int) =~= ps);
        assert(first_paras_end(ps, ps.len() as int, pat@, rep@));
    }
    Some(total)
}

/// Replace all occurrences of `placeholder` in each paragraph, as
/// `replace_in_paragraphs` does, where the total number of replacements
/// fits a `usize`; otherwise the paragraphs are left unchanged
/// and nothing is returned.
pub fn replace_in_paragraphs_checked(paras: &mut [CT_P], placeholder: &str, replacement: &str) -> (r: Option<usize>)
    ensures
        placeholder@.len() == 0 ==> r == Some(0usize) && final(paras)@ == old(paras)@,
        placeholder@.len() > 0 ==> (r is Some <==> paras_replacement_ends(old(paras)@, placeholder@, replacement@)),
        r is None ==> final(paras)@ == old(paras)@,
        placeholder@.len() > 0 && r is Some ==> {
            &&& r == Some(paras_steps(old(paras)@, placeholder@, replacement@) as usize)
            &&& final(paras)@.len() == old(paras)@.len()
            &&& forall|i: int| 0 <= i < old(paras)@.len() ==> replaced_para(
                #[trigger] old(paras)@[i], final(paras)@[i], placeholder@, replacement@)
        },
{
    if str_chars(placeholder).len() == 0 {
        return Some(replace_in_paragraphs(paras, placeholder, replacement));
    }
    match paras_settle(paras, placeholder, replacement) {
        Some(_) => Some(replace_in_paragraphs(paras, placeholder, replacement)),
        None => None,
    }
}

/// Replace all occurrences of `placeholder` in a header or footer.
pub fn replace_in_header_footer(hf: &mut CT_HdrFtr, placeholder: &str, replacement: &str) -> (r:
    usize)
    requires
        placeholder@.len() > 0 ==> paras_replacement_ends(old(hf).paragraphs@, placeholder@,
            replacement@),
    ensures
        placeholder@.len() == 0 ==> r == 0 && final(hf).paragraphs@ == old(hf).paragraphs@,
        placeholder@.len() > 0 ==> {
            &&& r == paras_steps(old(hf).paragraphs@, placeholder@, replacement@)
            &&& final(hf).paragraphs@.len() == old(hf).paragraphs@.len()
            &&& forall|i: int| 0 <= i < old(hf).paragraphs@.len() ==> replaced_para(
                #[trigger] old(hf).paragraphs@[i], final(hf).paragraphs@[i], placeholder@,
                replacement@)
        },
        final(hf).extra_namespaces == old(hf).extra_namespaces,
        final(hf).extra_xml == old(hf).extra_xml,
{
    let r = replace_in_paragraphs(hf.paragraphs.as_mut_slice(), placeholder, replacement);
    proof {
        if placeholder@.len() == 0 {
            assert(hf.paragraphs@ =~= old(hf).paragraphs@);
        }
    }
    r
}

/// The replacement steps a cell content item needs: those of a paragraph,
/// or the sum over a nested table's paragraphs; none for raw XML.
pub open spec fn content_steps(c: CellContent, pat: Seq<char>, rep: Seq<char>) -> nat
    decreases c,
{
    match c {
        CellContent::Paragraph(p) => steps_of(para_chars(p.runs@), pat, rep),
        CellContent::Table(t) => rows_steps(t.rows@, pat, rep),
        CellContent::RawXml(_) => 0,
    }
}

/// The replacement steps of a sequence of rows.
pub open spec fn rows_steps(rs: Seq<CT_Row>, pat: Seq<char>, rep: Seq<char>) -> nat
    decreases rs,
{
    if rs.len() == 0 {
        0
    } else {
        rows_steps(rs.drop_last(), pat, rep) + cells_steps(rs.last().cells@, pat, rep)
    }
}

/// The replacement steps of a sequence of cells.
pub open spec fn cells_steps(cs: Seq<CT_Tc>, pat: Seq<char>, rep: Seq<char>) -> nat
    decreases cs,
{
    if cs.len() == 0 {
        0
    } else {
        cells_steps(cs.drop_last(), pat, rep) + contents_steps(cs.last().content@, pat, rep)
    }
}

/// The replacement steps of a sequence of cell content items.
pub open spec fn contents_steps(items: Seq<CellContent>, pat: Seq<char>, rep: Seq<char>) -> nat
    decreases items,
{
    if items.len() == 0 {
        0
    } else {
        contents_steps(items.drop_last(), pat, rep) + content_steps(items.last(), pat, rep)
    }
}

/// Whether the replacements fit a `usize` in every paragraph of a cell content item
/// (nested tables included).
pub open spec fn content_ends(c: CellContent, pat: Seq<char>, rep: Seq<char>) -> bool
    decreases c,
{
    match c {
        CellContent::Paragraph(p) => replacement_ends(para_chars(p.runs@), pat, rep),
        CellContent::Table(t) => rows_ends(t.rows@, pat, rep),
        CellContent::RawXml(_) => true,
    }
}

/// Whether the replacements fit a `usize` in every paragraph of a sequence of rows.
pub open spec fn rows_ends(rs: Seq<CT_Row>, pat: Seq<char>, rep: Seq<char>) -> bool
    decreases rs,
{
    rs.len() > 0 ==> rows_ends(rs.drop_last(), pat, rep) && cells_ends(rs.last().cells@, pat, rep)
}

/// Whether the replacements fit a `usize` in every paragraph of a sequence of cells.
pub open spec fn cells_ends(cs: Seq<CT_Tc>, pat: Seq<char>, rep: Seq<char>) -> bool
    decreases cs,
{
    cs.len() > 0 ==> cells_ends(cs.drop_last(), pat, rep) && contents_ends(cs.last().content@, pat,
        rep)
}

/// Whether the replacements fit a `usize` in every paragraph of a sequence of items.
pub open spec fn contents_ends(items: Seq<CellContent>, pat: Seq<char>, rep: Seq<char>) -> bool
    decreases items,
{
    items.len() > 0 ==> contents_ends(items.drop_last(), pat, rep) && content_ends(items.last(),
        pat, rep)
}

/// `new` is `old` with every paragraph replaced as `replace_in_paragraph`
/// does, nested tables included; everything else is as it was.
pub open spec fn content_replaced(old: CellContent, new: CellContent, pat: Seq<char>, rep: Seq<
    char,
>) -> bool
    decreases old,
{
    match old {
        CellContent::Paragraph(p) => new matches CellContent::Paragraph(q) && replaced_para(p, q,
            pat, rep),
        CellContent::Table(t) => new matches CellContent::Table(u) && u.properties == t.properties
            && u.grid == t.grid && u.extra_xml == t.extra_xml && rows_replaced(t.rows@, u.rows@, pat,
            rep),
        CellContent::RawXml(_) => new == old,
    }
}

/// Rows replaced pointwise: same number, same properties and raw XML, and
/// cells replaced.
pub open spec fn rows_replaced(old: Seq<CT_Row>, new: Seq<CT_Row>, pat: Seq<char>, rep: Seq<char>) -> bool
    decreases old,
{
    &&& old.len() == new.len()
    &&& old.len() > 0 ==> {
        &&& rows_replaced(old.drop_last(), new.drop_last(), pat, rep)
        &&& new.last().properties == old.last().properties
        &&& new.last().extra_xml == old.last().extra_xml
        &&& cells_replaced(old.last().cells@, new.last().cells@, pat, rep)
    }
}

/// Cells replaced pointwise: same number, same properties, and content
/// replaced.
pub open spec fn cells_replaced(old: Seq<CT_Tc>, new: Seq<CT_Tc>, pat: Seq<char>, rep: Seq<char>) -> bool
    decreases old,
{
    &&& old.len() == new.len()
    &&& old.len() > 0 ==> {
        &&& cells_replaced(old.drop_last(), new.drop_last(), pat, rep)
        &&& new.last().properties == old.last().properties
        &&& contents_replaced(old.last().content@, new.last().content@, pat, rep)
    }
}

/// Content items replaced pointwise.
pub open spec fn contents_replaced(old: Seq<CellContent>, new: Seq<CellContent>, pat: Seq<char>, rep: Seq<char>) -> bool
    decreases old,
{
    &&& old.len() == new.len()
    &&& old.len() > 0 ==> {
        &&& contents_replaced(old.drop_last(), new.drop_last(), pat, rep)
        &&& content_replaced(old.last(), new.last(), pat, rep)
    }
}

/// A row's cells need no more steps than all rows; a prefix and the next
/// row together need no more either.
pub proof fn lemma_rows_prefix(rs: Seq<CT_Row>, pat: Seq<char>, rep: Seq<char>, i: int)
    requires
        0 <= i < rs.len(),
    ensures
        rows_steps(rs.take(i), pat, rep) + cells_steps(rs[i].cells@, pat, rep) <= rows_steps(rs, pat, rep),
        rows_steps(rs.take(i + 1), pat, rep) == rows_steps(rs.take(i), pat, rep) + cells_steps(rs[i].cells@, pat, rep),
        rows_ends(rs, pat, rep) ==> cells_ends(rs[i].cells@, pat, rep),
    decreases rs.len() - i,
{
    assert(rs.take(i + 1).drop_last() =~= rs.take(i));
    if i + 1 < rs.len() {
        lemma_rows_prefix(rs, pat, rep, i + 1);
        assert(rs.take(i + 2).drop_last() =~= rs.take(i + 1));
        if rows_ends(rs, pat, rep) {
            lemma_rows_ends_prefix(rs, pat, rep, i + 1);
        }
    } else {
        assert(rs.take(i + 1) =~= rs);
    }
}

/// Counts that fit for all rows fit for every prefix of them.
pub proof fn lemma_rows_ends_prefix(rs: Seq<CT_Row>, pat: Seq<char>, rep: Seq<char>, i: int)
    requires
        0 <= i <= rs.len(),
        rows_ends(rs, pat, rep),
    ensures
        rows_ends(rs.take(i), pat, rep),
    decreases rs.len() - i,
{
    if i < rs.len() {
        lemma_rows_ends_prefix(rs, pat, rep, i + 1);
        assert(rs.take(i + 1).drop_last() =~= rs.take(i));
    } else {
        assert(rs.take(i) =~= rs);
    }
}

/// As `lemma_rows_prefix`, for cells.
pub proof fn lemma_cells_prefix(cs: Seq<CT_Tc>, pat: Seq<char>, rep: Seq<char>, i: int)
    requires
        0 <= i < cs.len(),
    ensures
        cells_steps(cs.take(i), pat, rep) + contents_steps(cs[i].content@, pat, rep) <= cells_steps(cs, pat, rep),
        cells_steps(cs.take(i + 1), pat, rep) == cells_steps(cs.take(i), pat, rep) + contents_steps(cs[i].content@, pat, rep),
        cells_ends(cs, pat, rep) ==> contents_ends(cs[i].content@, pat, rep),
    decreases cs.len() - i,
{
    assert(cs.take(i + 1).drop_last() =~= cs.take(i));
    if i + 1 < cs.len() {
        lemma_cells_prefix(cs, pat, rep, i + 1);
        assert(cs.take(i + 2).drop_last() =~= cs.take(i + 1));
        if cells_ends(cs, pat, rep) {
            lemma_cells_ends_prefix(cs, pat, rep, i + 1);
        }
    } else {
        assert(cs.take(i + 1) =~= cs);
    }
}

/// Counts that fit for all cells fit for every prefix of them.
pub proof fn lemma_cells_ends_prefix(cs: Seq<CT_Tc>, pat: Seq<char>, rep: Seq<char>, i: int)
    requires
        0 <= i <= cs.len(),
        cells_ends(cs, pat, rep),
    ensures
        cells_ends(cs.take(i), pat, rep),
    decreases cs.len() - i,
{
    if i < cs.len() {
        lemma_cells_ends_prefix(cs, pat, rep, i + 1);
        assert(cs.take(i + 1).drop_last() =~= cs.take(i));
    } else {
        assert(cs.take(i) =~= cs);
    }
}

/// As `lemma_rows_prefix`, for content items.
pub proof fn lemma_contents_prefix(items: Seq<CellContent>, pat: Seq<char>, rep: Seq<char>, i: int)
    requires
        0 <= i < items.len(),
    ensures
        contents_steps(items.take(i), pat, rep) + content_steps(items[i], pat, rep) <= contents_steps(items, pat, rep),
        contents_steps(items.take(i + 1), pat, rep) == contents_steps(items.take(i), pat, rep) + content_steps(items[i], pat, rep),
        contents_ends(items, pat, rep) ==> content_ends(items[i], pat, rep),
    decreases items.len() - i,
{
    assert(items.take(i + 1).drop_last() =~= items.take(i));
    if i + 1 < items.len() {
        lemma_contents_prefix(items, pat, rep, i + 1);
        assert(items.take(i + 2).drop_last() =~= items.take(i + 1));
        if contents_ends(items, pat, rep) {
            lemma_contents_ends_prefix(items, pat, rep, i + 1);
        }
    } else {
        assert(items.take(i + 1) =~= items);
    }
}

/// Counts that fit for all items fit for every prefix of them.
pub proof fn lemma_contents_ends_prefix(items: Seq<CellContent>, pat: Seq<char>, rep: Seq<char>, i: int)
    requires
        0 <= i <= items.len(),
        contents_ends(items, pat, rep),
    ensures
        contents_ends(items.take(i), pat, rep),
    decreases items.len() - i,
{
    if i < items.len() {
        lemma_contents_ends_prefix(items, pat, rep, i + 1);
        assert(items.take(i + 1).drop_last() =~= items.take(i));
    } else {
        assert(items.take(i) =~= items);
    }
}

/// Replace all occurrences of `placeholder` in a table's paragraphs,
/// nested tables included. Returns the number of replacement steps.
pub fn replace_in_table(table: &mut CT_Tbl, placeholder: &str, replacement: &str) -> (r: usize)
    requires
        placeholder@.len() > 0 ==> rows_ends(old(table).rows@, placeholder@, replacement@)
            && rows_steps(old(table).rows@, placeholder@, replacement@) <= usize::MAX,
    ensures
        placeholder@.len() == 0 ==> r == 0 && final(table).rows@ == old(table).rows@,
        placeholder@.len() > 0 ==> r == rows_steps(old(table).rows@, placeholder@, replacement@)
            && rows_replaced(old(table).rows@, final(table).rows@, placeholder@, replacement@),
        final(table).properties == old(table).properties,
        final(table).grid == old(table).grid,
        final(table).extra_xml == old(table).extra_xml,
    decreases *old(table),
{
    let pat_chars = str_chars(placeholder);
    if pat_chars.len() == 0 {
        return 0;
    }
    let ghost pat = placeholder@;
    let ghost rep = replacement@;
    let ghost orows = table.rows@;
    let mut rows: Vec<CT_Row> = Vec::new();
    std::mem::swap(&mut rows, &mut table.rows);
    let mut new_rows: Vec<CT_Row> = Vec::new();
    let mut count: usize = 0;
    let ghost mut i: int = 0;
    proof {
        assert(rows@ =~= orows.skip(0));
        assert(orows.take(0) =~= Seq::<CT_Row>::empty());
    }
    while rows.len() > 0
        invariant
            pat == placeholder@,
            rep == replacement@,
            pat.len() > 0,
            orows == old(table).rows@,
            rows_ends(orows, pat, rep),
            rows_steps(orows, pat, rep) <= usize::MAX,
            0 <= i <= orows.len(),
            rows@ == orows.skip(i),
            count == rows_steps(orows.take(i), pat, rep),
            rows_replaced(orows.take(i), new_rows@, pat, rep),
            table.properties == old(table).properties,
            table.grid == old(table).grid,
            table.extra_xml == old(table).extra_xml,
        decreases rows@.len(),
    {
        proof {
            lemma_rows_prefix(orows, pat, rep, i);
            assert(orows[i] == rows@[0]);
        }
        let row = rows.remove(0);
        let CT_Row { properties: row_props, cells, extra_xml: row_xml } = row;
        let ghost ocells = cells@;
        let ghost base = count as int;
        let mut cells = cells;
        let mut new_cells: Vec<CT_Tc> = Vec::new();
        let ghost mut j: int = 0;
        proof {
            assert(cells@ =~= ocells.skip(0));
            assert(ocells.take(0) =~= Seq::<CT_Tc>::empty());
        }
        while cells.len() > 0
            invariant
                pat == placeholder@,
                rep == replacement@,
                pat.len() > 0,
                orows == old(table).rows@,
                0 <= i < orows.len(),
                ocells == orows[i].cells@,
                cells_ends(ocells, pat, rep),
                base + cells_steps(ocells, pat, rep) <= usize::MAX,
                0 <= j <= ocells.len(),
                cells@ == ocells.skip(j),
                count == base + cells_steps(ocells.take(j), pat, rep),
                cells_replaced(ocells.take(j), new_cells@, pat, rep),
            decreases cells@.len(),
        {
            proof {
                lemma_cells_prefix(ocells, pat, rep, j);
                assert(ocells[j] == cells@[0]);
            }
            let cell = cells.remove(0);
            let CT_Tc { properties: cell_props, content } = cell;
            let ghost oitems = content@;
            let ghost base2 = count as int;
            let mut items = content;
            let mut new_items: Vec<CellContent> = Vec::new();
            let ghost mut k: int = 0;
            proof {
                assert(items@ =~= oitems.skip(0));
                assert(oitems.take(0) =~= Seq::<CellContent>::empty());
            }
            while items.len() > 0
                invariant
                    pat == placeholder@,
                    rep == replacement@,
                    pat.len() > 0,
                    orows == old(table).rows@,
                    0 <= i < orows.len(),
                    ocells == orows[i].cells@,
                    0 <= j < ocells.len(),
                    oitems == ocells[j].content@,
                    contents_ends(oitems, pat, rep),
                    base2 + contents_steps(oitems, pat, rep) <= usize::MAX,
                    0 <= k <= oitems.len(),
                    items@ == oitems.skip(k),
                    count == base2 + contents_steps(oitems.take(k), pat, rep),
                    contents_replaced(oitems.take(k), new_items@, pat, rep),
                decreases items@.len(),
            {
                proof {
                    lemma_contents_prefix(oitems, pat, rep, k);
                    assert(oitems[k] == items@[0]);
                }
                let ghost old_new = new_items@;
                let ghost oitem = oitems[k];
                let item = items.remove(0);
                match item {
                    CellContent::Paragraph(mut p) => {
                        let c = replace_in_paragraph(&mut p, placeholder, replacement);
                        count = count + c;
                        new_items.push(CellContent::Paragraph(p));
                    },
                    CellContent::Table(mut nested) => {
                        proof {
                            assert(decreases_to!(*old(table) => nested));
                        }
                        let c = replace_in_table(&mut nested, placeholder, replacement);
                        count = count + c;
                        new_items.push(CellContent::Table(nested));
                    },
                    CellContent::RawXml(x) => {
                        new_items.push(CellContent::RawXml(x));
                    },
                }
                proof {
                    assert(content_replaced(oitem, new_items@.last(), pat, rep));
                    k = k + 1;
                    assert(new_items@.drop_last() =~= old_new);
                    assert(oitems.take(k).drop_last() =~= oitems.take(k - 1));
                    assert(items@ =~= oitems.skip(k));
                }
            }
            proof {
                assert(oitems.take(k) =~= oitems);
            }
            let ghost old_cells = new_cells@;
            new_cells.push(CT_Tc { properties: cell_props, content: new_items });
            proof {
                j = j + 1;
                assert(new_cells@.drop_last() =~= old_cells);
                assert(ocells.take(j).drop_last() =~= ocells.take(j - 1));
                assert(cells@ =~= ocells.skip(j));
            }
        }
        proof {
            assert(ocells.take(j) =~= ocells);
        }
        let ghost old_rows = new_rows@;
        new_rows.push(CT_Row { properties: row_props, cells: new_cells, extra_xml: row_xml });
        proof {
            i = i + 1;
            assert(new_rows@.drop_last() =~= old_rows);
            assert(orows.take(i).drop_last() =~= orows.take(i - 1));
            assert(rows@ =~= orows.skip(i));
        }
    }
    proof {
        assert(orows.take(i) =~= orows);
    }
    table.rows = new_rows;
    count
}


/// Replace the characters `ms..me` of a paragraph's searched text by
/// `rep`, as `replace_span` does to its runs: the runs before the one where
/// the span begins are kept, that run keeps its properties and raw XML,
/// hyperlink spans are clamped to the runs left, and the paragraph's own
/// properties and raw XML stay.
pub fn replace_match(para: &mut CT_P, ms: usize, me: usize, rep: &str)
    requires
        ms < me,
        me <= para_chars(old(para).runs@).len(),
        para_chars(old(para).runs@).len() <= usize::MAX,
    ensures
        para_chars(final(para).runs@) == para_chars(old(para).runs@).take(ms as int) + rep@ + para_chars(
            old(para).runs@,
        ).skip(me as int),
        final(para).runs@.len() <= old(para).runs@.len(),
        ({
            let a = first_end_after(old(para).runs@, ms as int, 0);
            &&& a < old(para).runs@.len() && a < final(para).runs@.len()
            &&& final(para).runs@.take(a) == old(para).runs@.take(a)
            &&& final(para).runs@[a].properties == old(para).runs@[a].properties
            &&& final(para).runs@[a].extra_xml == old(para).runs@[a].extra_xml
        }),
        final(para).hyperlinks@ == clamp_links(old(para).hyperlinks@, final(para).runs@.len()),
        final(para).properties == old(para).properties,
        final(para).extra_xml == old(para).extra_xml,
        exists|sel: Seq<int>| #[trigger] span_kept(old(para).runs@, final(para).runs@, sel, ms as int, me as int, rep@),
{
    let rc = str_chars(rep);
    let mut runs: Vec<CT_R> = Vec::new();
    std::mem::swap(&mut runs, &mut para.runs);
    let new_runs = replace_span(runs, ms, me, rc.as_slice());
    proof {
        let x = para_chars(old(para).runs@);
        assert(cut(x, ms as int, me as int, rc@) =~= x.take(ms as int) + rep@ + x.skip(me as int));
    }
    para.runs = new_runs;
    reindex_hyperlinks(para);
}

} // verus!
