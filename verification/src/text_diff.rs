//! Paragraph-level comparison of two documents: a longest common
//! subsequence of their paragraph texts, and the listing of the paragraphs
//! removed from the first and added in the second around it.
use vstd::prelude::*;

use crate::chars::str_eq;

verus! {

/// The texts of a list of strings.
pub open spec fn texts(a: Seq<String>) -> Seq<Seq<char>> {
    a.map_values(|s: String| s@)
}

/// Whether `x` is a subsequence of `y`: its items occur in `y` in order,
/// not necessarily next to each other.
pub open spec fn is_subseq(x: Seq<Seq<char>>, y: Seq<Seq<char>>) -> bool
    decreases y.len(),
{
    if x.len() == 0 {
        true
    } else if y.len() == 0 {
        false
    } else if x.last() == y.last() {
        is_subseq(x.drop_last(), y.drop_last())
    } else {
        is_subseq(x, y.drop_last())
    }
}

/// The length of a longest common subsequence of the first `i` items of
/// `a` and the first `j` items of `b`.
pub open spec fn lcs_len(a: Seq<Seq<char>>, b: Seq<Seq<char>>, i: nat, j: nat) -> nat
    decreases i + j,
{
    if i == 0 || j == 0 {
        0
    } else if a[i - 1] == b[j - 1] {
        lcs_len(a, b, (i - 1) as nat, (j - 1) as nat) + 1
    } else {
        let up = lcs_len(a, b, (i - 1) as nat, j);
        let left = lcs_len(a, b, i, (j - 1) as nat);
        if up >= left {
            up
        } else {
            left
        }
    }
}

/// The common subsequence that walking back from `(i, j)` gives: take a
/// matching last item, else drop the last item of `a` unless that loses
/// length, else the last item of `b`.
pub open spec fn lcs_walk(a: Seq<Seq<char>>, b: Seq<Seq<char>>, i: nat, j: nat) -> Seq<Seq<char>>
    decreases i + j,
{
    if i == 0 || j == 0 {
        seq![]
    } else if a[i - 1] == b[j - 1] {
        lcs_walk(a, b, (i - 1) as nat, (j - 1) as nat).push(a[i - 1])
    } else if lcs_len(a, b, (i - 1) as nat, j) >= lcs_len(a, b, i, (j - 1) as nat) {
        lcs_walk(a, b, (i - 1) as nat, j)
    } else {
        lcs_walk(a, b, i, (j - 1) as nat)
    }
}

proof fn lemma_subseq_extend(x: Seq<Seq<char>>, y: Seq<Seq<char>>, c: Seq<char>)
    requires
        is_subseq(x, y),
    ensures
        is_subseq(x, y.push(c)),
    decreases y.len(), 1nat,
{
    assert(y.push(c).drop_last() =~= y);
    if x.len() > 0 && x.last() == c {
        lemma_subseq_drop_last(x, y);
    }
}

proof fn lemma_subseq_drop_last(x: Seq<Seq<char>>, y: Seq<Seq<char>>)
    requires
        is_subseq(x, y),
        x.len() > 0,
    ensures
        is_subseq(x.drop_last(), y),
    decreases y.len(), 0nat,
{
    if x.last() == y.last() {
        lemma_subseq_extend(x.drop_last(), y.drop_last(), y.last());
    } else {
        lemma_subseq_drop_last(x, y.drop_last());
        lemma_subseq_extend(x.drop_last(), y.drop_last(), y.last());
    }
    assert(y.drop_last().push(y.last()) =~= y);
}

proof fn lemma_lcs_len_bound(a: Seq<Seq<char>>, b: Seq<Seq<char>>, i: nat, j: nat)
    ensures
        lcs_len(a, b, i, j) <= i,
        lcs_len(a, b, i, j) <= j,
    decreases i + j,
{
    if i > 0 && j > 0 {
        lemma_lcs_len_bound(a, b, (i - 1) as nat, (j - 1) as nat);
        lemma_lcs_len_bound(a, b, (i - 1) as nat, j);
        lemma_lcs_len_bound(a, b, i, (j - 1) as nat);
    }
}

proof fn lemma_lcs_walk(a: Seq<Seq<char>>, b: Seq<Seq<char>>, i: nat, j: nat)
    requires
        i <= a.len(),
        j <= b.len(),
    ensures
        is_subseq(lcs_walk(a, b, i, j), a.take(i as int)),
        is_subseq(lcs_walk(a, b, i, j), b.take(j as int)),
        lcs_walk(a, b, i, j).len() == lcs_len(a, b, i, j),
    decreases i + j,
{
    if i > 0 && j > 0 {
        let ai = (i - 1) as nat;
        let bj = (j - 1) as nat;
        assert(a.take(i as int).drop_last() =~= a.take(ai as int));
        assert(b.take(j as int).drop_last() =~= b.take(bj as int));
        assert(a.take(ai as int).push(a[ai as int]) =~= a.take(i as int));
        assert(b.take(bj as int).push(b[bj as int]) =~= b.take(j as int));
        if a[ai as int] == b[bj as int] {
            lemma_lcs_walk(a, b, ai, bj);
            let w = lcs_walk(a, b, ai, bj);
            assert(w.push(a[ai as int]).drop_last() =~= w);
        } else if lcs_len(a, b, ai, j) >= lcs_len(a, b, i, bj) {
            lemma_lcs_walk(a, b, ai, j);
            lemma_subseq_extend(lcs_walk(a, b, ai, j), a.take(ai as int), a[ai as int]);
        } else {
            lemma_lcs_walk(a, b, i, bj);
            lemma_subseq_extend(lcs_walk(a, b, i, bj), b.take(bj as int), b[bj as int]);
        }
    }
}

/// No common subsequence of the first `i` items of `a` and the first `j`
/// items of `b` is longer than `lcs_len(a, b, i, j)`.
pub proof fn lemma_lcs_longest(a: Seq<Seq<char>>, b: Seq<Seq<char>>, i: nat, j: nat, x: Seq<Seq<char>>)
    requires
        i <= a.len(),
        j <= b.len(),
        is_subseq(x, a.take(i as int)),
        is_subseq(x, b.take(j as int)),
    ensures
        x.len() <= lcs_len(a, b, i, j),
    decreases i + j,
{
    if x.len() > 0 && i > 0 && j > 0 {
        let ai = (i - 1) as nat;
        let bj = (j - 1) as nat;
        assert(a.take(i as int).drop_last() =~= a.take(ai as int));
        assert(b.take(j as int).drop_last() =~= b.take(bj as int));
        let c = x.last();
        if a[ai as int] == b[bj as int] {
            if c == a[ai as int] {
                lemma_lcs_longest(a, b, ai, bj, x.drop_last());
            } else {
                lemma_lcs_longest(a, b, ai, bj, x);
            }
        } else if c != a[ai as int] {
            lemma_lcs_longest(a, b, ai, j, x);
        } else {
            lemma_lcs_longest(a, b, i, bj, x);
        }
    }
}

/// One row of the length table: `row[q] == lcs_len(a, b, p, q)` for every
/// `q` up to the length of `b`.
pub open spec fn table_row(a: Seq<Seq<char>>, b: Seq<Seq<char>>, p: nat, row: Seq<usize>) -> bool {
    &&& row.len() == b.len() + 1
    &&& forall|q: int| 0 <= q <= b.len() ==> #[trigger] row[q] == lcs_len(a, b, p, q as nat)
}

/// The row of the length table for the first `i + 1` items of `a`.
fn next_row(a: &[String], b: &[String], i: usize, prev: &Vec<usize>) -> (row: Vec<usize>)
    requires
        i < a@.len(),
        table_row(texts(a@), texts(b@), i as nat, prev@),
    ensures
        table_row(texts(a@), texts(b@), (i + 1) as nat, row@),
{
    let ghost ta = texts(a@);
    let ghost tb = texts(b@);
    let n = b.len();
    let mut row: Vec<usize> = Vec::new();
    row.push(0);
    let mut j: usize = 0;
    while j < n
        invariant
            i < a@.len(),
            n == b@.len(),
            ta == texts(a@),
            tb == texts(b@),
            table_row(ta, tb, i as nat, prev@),
            j <= n,
            row@.len() == j + 1,
            forall|q: int| 0 <= q <= j ==> #[trigger] row@[q] == lcs_len(ta, tb, (i + 1) as nat, q as nat),
        decreases n - j,
    {
        proof {
            lemma_lcs_len_bound(ta, tb, i as nat, j as nat);
            assert(prev@[j as int] == lcs_len(ta, tb, i as nat, j as nat));
            assert(prev@[j + 1] == lcs_len(ta, tb, i as nat, (j + 1) as nat));
            assert(ta[i as int] == a@[i as int]@);
            assert(tb[j as int] == b@[j as int]@);
        }
        let v = if str_eq(a[i].as_str(), b[j].as_str()) {
            prev[j] + 1
        } else {
            let up = prev[j + 1];
            let left = row[j];
            if up >= left {
                up
            } else {
                left
            }
        };
        row.push(v);
        j = j + 1;
    }
    row
}

/// A longest common subsequence of two lists of strings.
pub fn compute_lcs(a: &[String], b: &[String]) -> (r: Vec<String>)
    ensures
        is_subseq(texts(r@), texts(a@)),
        is_subseq(texts(r@), texts(b@)),
        r@.len() == lcs_len(texts(a@), texts(b@), a@.len(), b@.len()),
        forall|x: Seq<Seq<char>>|
            is_subseq(x, texts(a@)) && is_subseq(x, texts(b@)) ==> x.len() <= r@.len(),
{
    let ghost ta = texts(a@);
    let ghost tb = texts(b@);
    let m = a.len();
    let n = b.len();
    let mut first: Vec<usize> = Vec::new();
    let mut q: usize = 0;
    first.push(0);
    while q < n
        invariant
            n == b@.len(),
            q <= n,
            first@.len() == q + 1,
            forall|k: int| 0 <= k <= q ==> #[trigger] first@[k] == 0,
        decreases n - q,
    {
        first.push(0);
        q = q + 1;
    }
    let mut dp: Vec<Vec<usize>> = Vec::new();
    dp.push(first);
    let mut i: usize = 0;
    while i < m
        invariant
            m == a@.len(),
            n == b@.len(),
            ta == texts(a@),
            tb == texts(b@),
            i <= m,
            dp@.len() == i + 1,
            forall|p: int| 0 <= p <= i ==> table_row(ta, tb, p as nat, #[trigger] dp@[p]@),
        decreases m - i,
    {
        let row = next_row(a, b, i, &dp[i]);
        dp.push(row);
        i = i + 1;
    }
    // walk back from the full table
    let mut rev: Vec<String> = Vec::new();
    let ghost mut tail: Seq<Seq<char>> = seq![];
    let mut i: usize = m;
    let mut j: usize = n;
    while i > 0 && j > 0
        invariant
            m == a@.len(),
            n == b@.len(),
            ta == texts(a@),
            tb == texts(b@),
            i <= m,
            j <= n,
            dp@.len() == m + 1,
            forall|p: int| 0 <= p <= m ==> table_row(ta, tb, p as nat, #[trigger] dp@[p]@),
            lcs_walk(ta, tb, m as nat, n as nat) == lcs_walk(ta, tb, i as nat, j as nat) + tail,
            tail.len() == rev@.len(),
            forall|t: int| 0 <= t < tail.len() ==> #[trigger] tail[t] == rev@[rev@.len() - 1 - t]@,
        decreases i + j,
    {
        proof {
            assert(ta[i - 1] == a@[i - 1]@);
            assert(tb[j - 1] == b@[j - 1]@);
            assert(table_row(ta, tb, (i - 1) as nat, dp@[i - 1]@));
            assert(table_row(ta, tb, i as nat, dp@[i as int]@));
            assert(dp@[i - 1]@[j as int] == lcs_len(ta, tb, (i - 1) as nat, j as nat));
            assert(dp@[i as int]@[j - 1] == lcs_len(ta, tb, i as nat, (j - 1) as nat));
        }
        if str_eq(a[i - 1].as_str(), b[j - 1].as_str()) {
            let ghost c = ta[i - 1];
            let ghost old_tail = tail;
            let ghost old_rev = rev@;
            rev.push(a[i - 1].clone());
            proof {
                tail = seq![c] + old_tail;
                assert(lcs_walk(ta, tb, i as nat, j as nat) == lcs_walk(ta, tb, (i - 1) as nat, (j - 1) as nat).push(c));
                assert(lcs_walk(ta, tb, (i - 1) as nat, (j - 1) as nat).push(c) + old_tail =~= lcs_walk(
                    ta,
                    tb,
                    (i - 1) as nat,
                    (j - 1) as nat,
                ) + tail);
                assert forall|t: int| 0 <= t < tail.len() implies #[trigger] tail[t] == rev@[rev@.len() - 1 - t]@ by {
                    if t > 0 {
                        assert(tail[t] == old_tail[t - 1]);
                        assert(rev@[rev@.len() - 1 - t] == old_rev[old_rev.len() - 1 - (t - 1)]);
                    }
                }
            }
            i = i - 1;
            j = j - 1;
        } else if dp[i - 1][j] >= dp[i][j - 1] {
            i = i - 1;
        } else {
            j = j - 1;
        }
    }
    proof {
        assert(lcs_walk(ta, tb, i as nat, j as nat) =~= Seq::<Seq<char>>::empty());
        assert(lcs_walk(ta, tb, m as nat, n as nat) =~= tail);
    }
    let mut out: Vec<String> = Vec::new();
    let mut k: usize = rev.len();
    while k > 0
        invariant
            k <= rev@.len(),
            tail.len() == rev@.len(),
            forall|t: int| 0 <= t < tail.len() ==> #[trigger] tail[t] == rev@[rev@.len() - 1 - t]@,
            out@.len() == rev@.len() - k,
            forall|t: int| 0 <= t < out@.len() ==> #[trigger] out@[t]@ == tail[t],
        decreases k,
    {
        out.push(rev[k - 1].clone());
        proof {
            let t = out@.len() - 1;
            assert(tail[t] == rev@[rev@.len() - 1 - t]@);
        }
        k = k - 1;
    }
    proof {
        assert(texts(out@) =~= tail);
        lemma_lcs_walk(ta, tb, m as nat, n as nat);
        assert(ta.take(m as int) =~= ta);
        assert(tb.take(n as int) =~= tb);
        assert forall|x: Seq<Seq<char>>| is_subseq(x, ta) && is_subseq(x, tb) implies x.len() <= out@.len() by {
            lemma_lcs_longest(ta, tb, m as nat, n as nat, x);
        }
    }
    out
}

/// A line of a paragraph listing: removed from the first document or added
/// in the second, with its 1-based paragraph number there.
#[derive(Debug, Clone, PartialEq, Eq)]
pub enum DiffLine {
    Removed(usize, String),
    Added(usize, String),
}

/// A listing line as `(added, number, text)`.
pub open spec fn line_view(d: DiffLine) -> (bool, nat, Seq<char>) {
    match d {
        DiffLine::Removed(n, t) => (false, n as nat, t@),
        DiffLine::Added(n, t) => (true, n as nat, t@),
    }
}

/// The listing lines as `(added, number, text)`.
pub open spec fn lines_view(v: Seq<DiffLine>) -> Seq<(bool, nat, Seq<char>)> {
    v.map_values(|d: DiffLine| line_view(d))
}

/// The first position at or after `i` holding `t`, or the end.
pub open spec fn first_from(a: Seq<Seq<char>>, i: int, t: Seq<char>) -> int
    decreases a.len() - i,
{
    if i < 0 || i >= a.len() || a[i] == t {
        i
    } else {
        first_from(a, i + 1, t)
    }
}

/// The lines `a[from..to]`, numbered from `from + 1`.
pub open spec fn numbered(a: Seq<Seq<char>>, from: int, to: int, added: bool) -> Seq<(bool, nat, Seq<char>)> {
    Seq::new(if from < to { (to - from) as nat } else { 0 }, |t: int| (added, (from + t + 1) as nat, a[from + t]))
}

/// The listing of `a` against `b` around the common lines `l` from `l[k]`
/// on, with `a` read from `i` and `b` from `j`: the lines of `a` before the
/// next occurrence of `l[k]` are removed, those of `b` before it added, and
/// the common line is passed over; after the last common line, the rest of
/// `a` is removed and the rest of `b` added.
pub open spec fn listing(
    a: Seq<Seq<char>>,
    b: Seq<Seq<char>>,
    l: Seq<Seq<char>>,
    i: int,
    j: int,
    k: int,
) -> Seq<(bool, nat, Seq<char>)>
    decreases l.len() - k,
{
    if k < 0 || k >= l.len() {
        numbered(a, i, a.len() as int, false) + numbered(b, j, b.len() as int, true)
    } else {
        let i2 = first_from(a, i, l[k]);
        let j2 = first_from(b, j, l[k]);
        numbered(a, i, i2, false) + numbered(b, j, j2, true) + listing(a, b, l, i2 + 1, j2 + 1, k + 1)
    }
}

proof fn lemma_first_from(a: Seq<Seq<char>>, i: int, t: Seq<char>)
    requires
        0 <= i,
    ensures
        i <= first_from(a, i, t),
        i <= a.len() ==> first_from(a, i, t) <= a.len(),
    decreases a.len() - i,
{
    if i < a.len() && a[i] != t {
        lemma_first_from(a, i + 1, t);
    }
}

/// Past the end of `a` (or of `b`) every reading position lists alike.
proof fn lemma_listing_past_end(
    a: Seq<Seq<char>>,
    b: Seq<Seq<char>>,
    l: Seq<Seq<char>>,
    i: int,
    i2: int,
    j: int,
    j2: int,
    k: int,
)
    requires
        0 <= i,
        0 <= i2,
        0 <= j,
        0 <= j2,
        0 <= k,
        i == i2 || (i > a.len() && i2 > a.len()),
        j == j2 || (j > b.len() && j2 > b.len()),
    ensures
        listing(a, b, l, i, j, k) == listing(a, b, l, i2, j2, k),
    decreases l.len() - k,
{
    assert(numbered(a, i, a.len() as int, false) =~= numbered(a, i2, a.len() as int, false));
    assert(numbered(b, j, b.len() as int, true) =~= numbered(b, j2, b.len() as int, true));
    if k < l.len() {
        let n1 = first_from(a, i, l[k]);
        let n2 = first_from(a, i2, l[k]);
        let m1 = first_from(b, j, l[k]);
        let m2 = first_from(b, j2, l[k]);
        lemma_first_from(a, i, l[k]);
        lemma_first_from(a, i2, l[k]);
        lemma_first_from(b, j, l[k]);
        lemma_first_from(b, j2, l[k]);
        assert(numbered(a, i, n1, false) =~= numbered(a, i2, n2, false));
        assert(numbered(b, j, m1, true) =~= numbered(b, j2, m2, true));
        lemma_listing_past_end(a, b, l, n1 + 1, n2 + 1, m1 + 1, m2 + 1, k + 1);
    }
}

/// Append the lines `a[from..to]` numbered from `from + 1`.
fn push_numbered(out: &mut Vec<DiffLine>, a: &[String], from: usize, to: usize, added: bool)
    requires
        from <= to <= a@.len(),
        a@.len() < usize::MAX,
    ensures
        lines_view(final(out)@) == lines_view(old(out)@)
            + numbered(texts(a@), from as int, to as int, added),
{
    let ghost start = lines_view(out@);
    let mut k: usize = from;
    while k < to
        invariant
            from <= k <= to <= a@.len(),
            a@.len() < usize::MAX,
            lines_view(out@) == start + numbered(texts(a@), from as int, k as int, added),
        decreases to - k,
    {
        let t = a[k].clone();
        let d = if added { DiffLine::Added(k + 1, t) } else { DiffLine::Removed(k + 1, t) };
        let ghost before = lines_view(out@);
        out.push(d);
        proof {
            assert(lines_view(out@) =~= before.push(line_view(d)));
            assert(start + numbered(texts(a@), from as int, (k + 1) as int, added) =~= (start + numbered(
                texts(a@),
                from as int,
                k as int,
                added,
            )).push((added, (k + 1) as nat, a@[k as int]@)));
        }
        k = k + 1;
    }
}

/// The first position at or after `i` holding `t`, or the end.
fn find_from(a: &[String], i: usize, t: &String) -> (r: usize)
    requires
        i <= a@.len(),
    ensures
        r == first_from(texts(a@), i as int, t@),
{
    let mut k: usize = i;
    while k < a.len() && !str_eq(a[k].as_str(), t.as_str())
        invariant
            i <= k <= a@.len(),
            first_from(texts(a@), k as int, t@) == first_from(texts(a@), i as int, t@),
        decreases a@.len() - k,
    {
        proof { assert(texts(a@)[k as int] == a@[k as int]@); }
        k = k + 1;
    }
    proof {
        if k < a@.len() {
            assert(texts(a@)[k as int] == a@[k as int]@);
        }
    }
    k
}

/// The paragraph listing of `a` against `b`: around a longest common
/// subsequence of the two, the lines removed from `a` and added in `b`.
pub fn diff_lines(a: &[String], b: &[String]) -> (r: Vec<DiffLine>)
    requires
        a@.len() < usize::MAX,
        b@.len() < usize::MAX,
    ensures
        exists|l: Seq<Seq<char>>|
            {
                &&& is_subseq(l, texts(a@))
                &&& is_subseq(l, texts(b@))
                &&& l.len() == lcs_len(texts(a@), texts(b@), a@.len(), b@.len())
                &&& lines_view(r@) == #[trigger] listing(texts(a@), texts(b@), l, 0, 0, 0)
            },
{
    let lcs = compute_lcs(a, b);
    let ghost l = texts(lcs@);
    let ghost ta = texts(a@);
    let ghost tb = texts(b@);
    let mut out: Vec<DiffLine> = Vec::new();
    let mut i: usize = 0;
    let mut j: usize = 0;
    let mut k: usize = 0;
    while k < lcs.len()
        invariant
            a@.len() < usize::MAX,
            b@.len() < usize::MAX,
            l == texts(lcs@),
            ta == texts(a@),
            tb == texts(b@),
            k <= lcs@.len(),
            i <= a@.len() + 1,
            j <= b@.len() + 1,
            lines_view(out@) + listing(ta, tb, l, i as int, j as int, k as int)
                == listing(ta, tb, l, 0, 0, 0),
        decreases lcs@.len() - k,
    {
        let ghost before = lines_view(out@);
        let i2 = if i <= a.len() { find_from(a, i, &lcs[k]) } else { i };
        let j2 = if j <= b.len() { find_from(b, j, &lcs[k]) } else { j };
        proof {
            if i <= a@.len() { lemma_first_from(ta, i as int, l[k as int]); }
            if j <= b@.len() { lemma_first_from(tb, j as int, l[k as int]); }
            assert(i2 == first_from(ta, i as int, l[k as int]));
            assert(j2 == first_from(tb, j as int, l[k as int]));
        }
        if i < i2 {
            push_numbered(&mut out, a, i, i2, false);
        } else {
            proof { assert(numbered(ta, i as int, i2 as int, false) =~= Seq::<(bool, nat, Seq<char>)>::empty()); }
        }
        let ghost mid = lines_view(out@);
        if j < j2 {
            push_numbered(&mut out, b, j, j2, true);
        } else {
            proof { assert(numbered(tb, j as int, j2 as int, true) =~= Seq::<(bool, nat, Seq<char>)>::empty()); }
        }
        proof {
            assert(lines_view(out@) + listing(ta, tb, l, i2 + 1, j2 + 1, k + 1) =~= before
                + listing(ta, tb, l, i as int, j as int, k as int));
        }
        let ni = if i2 < a.len() { i2 + 1 } else { a.len() + 1 };
        let nj = if j2 < b.len() { j2 + 1 } else { b.len() + 1 };
        proof { lemma_listing_past_end(ta, tb, l, i2 + 1, ni as int, j2 + 1, nj as int, k + 1); }
        i = ni;
        j = nj;
        k = k + 1;
    }
    let ghost before = lines_view(out@);
    if i < a.len() {
        push_numbered(&mut out, a, i, a.len(), false);
    } else {
        proof { assert(numbered(ta, i as int, ta.len() as int, false) =~= Seq::<(bool, nat, Seq<char>)>::empty()); }
    }
    if j < b.len() {
        push_numbered(&mut out, b, j, b.len(), true);
    } else {
        proof { assert(numbered(tb, j as int, tb.len() as int, true) =~= Seq::<(bool, nat, Seq<char>)>::empty()); }
    }
    proof {
        assert(lines_view(out@) =~= before + listing(ta, tb, l, i as int, j as int, k as int));
        assert(lines_view(out@) == listing(ta, tb, l, 0, 0, 0));
    }
    out
}

} // verus!
