//! Markdown (GFM) generation from the document model.

use vstd::prelude::*;

use crate::chars::{push_char, push_str, str_chars, str_eq, string_from_chars};
use crate::document::{BodyContent, CT_Body};
use crate::html::{detect_heading_level, detect_list, heading_level, link_for, link_for_exec, list_info};
use crate::numbering::CT_Numbering;
use crate::styles::CT_Styles;
use crate::table::{CellContent, CT_Tbl, CT_Tc};
use crate::text::{BreakType, CT_P, CT_R, RunContent};

verus! {

/// Whether `c` is Unicode white space (the `White_Space` property, as
/// `char::is_whitespace` decides).
pub open spec fn is_ws(c: char) -> bool {
    let n = c as u32;
    (0x09 <= n && n <= 0x0D) || n == 0x20 || n == 0x85 || n == 0xA0 || n == 0x1680 || (0x2000 <= n
        && n <= 0x200A) || n == 0x2028 || n == 0x2029 || n == 0x202F || n == 0x205F || n == 0x3000
}

/// Whether `c` is white space.
pub fn is_whitespace(c: char) -> (r: bool)
    ensures
        r == is_ws(c),
{
    let n = c as u32;
    (0x09 <= n && n <= 0x0D) || n == 0x20 || n == 0x85 || n == 0xA0 || n == 0x1680 || (0x2000 <= n
        && n <= 0x200A) || n == 0x2028 || n == 0x2029 || n == 0x202F || n == 0x205F || n == 0x3000
}

/// `s` without leading white space.
pub open spec fn trim_start(s: Seq<char>) -> Seq<char>
    decreases s.len(),
{
    if s.len() > 0 && is_ws(s[0]) {
        trim_start(s.drop_first())
    } else {
        s
    }
}

/// `s` without trailing white space.
pub open spec fn trim_end(s: Seq<char>) -> Seq<char>
    decreases s.len(),
{
    if s.len() > 0 && is_ws(s.last()) {
        trim_end(s.drop_last())
    } else {
        s
    }
}

/// `s` without leading and trailing white space (`str::trim`).
pub open spec fn trim(s: Seq<char>) -> Seq<char> {
    trim_end(trim_start(s))
}

/// `s` trimmed of white space at both ends.
pub fn trim_chars(s: &str) -> (r: String)
    ensures
        r@ == trim(s@),
{
    let cs = str_chars(s);
    let mut a: usize = 0;
    proof { assert(cs@.skip(0) =~= cs@); }
    while a < cs.len() && is_whitespace(cs[a])
        invariant
            a <= cs@.len(),
            trim_start(cs@) == trim_start(cs@.skip(a as int)),
        decreases cs@.len() - a,
    {
        proof { assert(cs@.skip(a as int).drop_first() =~= cs@.skip(a + 1)); }
        a = a + 1;
    }
    let mut b: usize = cs.len();
    let ghost t = cs@.skip(a as int);
    proof {
        assert(cs@.skip(0) =~= cs@);
        assert(t =~= cs@.subrange(a as int, b as int));
    }
    while b > a && is_whitespace(cs[b - 1])
        invariant
            a <= b <= cs@.len(),
            trim_end(t) == trim_end(cs@.subrange(a as int, b as int)),
            t == cs@.skip(a as int),
        decreases b,
    {
        proof { assert(cs@.subrange(a as int, b as int).drop_last() =~= cs@.subrange(a as int, b - 1)); }
        b = b - 1;
    }
    proof { assert(trim_start(cs@) == t); }
    string_from_chars(crate::html::slice_chars(cs.as_slice(), a, b).as_slice())
}

/// The Markdown text of a run's content, before formatting: text, tabs,
/// and breaks (hard line breaks, or a rule for a page break).
pub open spec fn md_item(c: RunContent) -> Seq<char> {
    match c {
        RunContent::Text(t) => t.text@,
        RunContent::Tab => seq!['\t'],
        RunContent::Break(b) => match b {
            BreakType::Line => "  \n"@,
            BreakType::Page => "\n---\n"@,
            BreakType::Column => "  \n"@,
        },
        _ => Seq::empty(),
    }
}

/// The raw Markdown text of content items.
pub open spec fn md_items(items: Seq<RunContent>) -> Seq<char>
    decreases items.len(),
{
    if items.len() == 0 {
        Seq::empty()
    } else {
        md_items(items.drop_last()) + md_item(items.last())
    }
}

/// The Markdown of a run: its text wrapped as `***bold italic***`,
/// `**bold**`, `*italic*` or `~~struck~~` (empty text unwrapped).
pub open spec fn md_run(run: CT_R) -> Seq<char> {
    let raw = md_items(run.content@);
    let (bold, italic, strike) = match run.properties {
        Some(r) => (r.bold == Some(true), r.italic == Some(true), r.strike == Some(true) || r.dstrike == Some(true)),
        None => (false, false, false),
    };
    if raw.len() == 0 {
        raw
    } else if bold && italic {
        "***"@ + raw + "***"@
    } else if bold {
        "**"@ + raw + "**"@
    } else if italic {
        "*"@ + raw + "*"@
    } else if strike {
        "~~"@ + raw + "~~"@
    } else {
        raw
    }
}

/// Collect text from a single run, applying Markdown formatting.
pub fn collect_run_text(run: &CT_R) -> (r: String)
    ensures
        r@ == md_run(*run),
{
    let mut raw = String::new();
    let mut i: usize = 0;
    while i < run.content.len()
        invariant
            i <= run.content@.len(),
            raw@ == md_items(run.content@.take(i as int)),
        decreases run.content@.len() - i,
    {
        proof { assert(run.content@.take(i + 1).drop_last() =~= run.content@.take(i as int)); }
        match &run.content[i] {
            RunContent::Text(t) => push_str(&mut raw, t.text.as_str()),
            RunContent::Tab => push_char(&mut raw, '\t'),
            RunContent::Break(b) => match b {
                BreakType::Line => push_str(&mut raw, "  \n"),
                BreakType::Page => push_str(&mut raw, "\n---\n"),
                BreakType::Column => push_str(&mut raw, "  \n"),
            },
            _ => {},
        }
        i = i + 1;
        proof { assert(raw@ =~= md_items(run.content@.take(i as int))); }
    }
    proof { assert(run.content@.take(i as int) =~= run.content@); }
    if str_chars(raw.as_str()).len() == 0 {
        return raw;
    }
    let (bold, italic, strike) = match &run.properties {
        Some(r) => (r.bold == Some(true), r.italic == Some(true), r.strike == Some(true) || r.dstrike == Some(true)),
        None => (false, false, false),
    };
    let mut out = String::new();
    if bold && italic {
        push_str(&mut out, "***");
        push_str(&mut out, raw.as_str());
        push_str(&mut out, "***");
    } else if bold {
        push_str(&mut out, "**");
        push_str(&mut out, raw.as_str());
        push_str(&mut out, "**");
    } else if italic {
        push_str(&mut out, "*");
        push_str(&mut out, raw.as_str());
        push_str(&mut out, "*");
    } else if strike {
        push_str(&mut out, "~~");
        push_str(&mut out, raw.as_str());
        push_str(&mut out, "~~");
    } else {
        return raw;
    }
    proof { assert(out@ =~= md_run(*run)); }
    out
}

/// A Markdown link: `[text](url)`.
pub open spec fn md_link(text: Seq<char>, url: Seq<char>) -> Seq<char> {
    seq!['['] + text + "]("@ + url + seq![')']
}

/// The Markdown of the runs from `i` on, inside the link `cur` whose text
/// so far is `lt`: consecutive runs in the same link become one link.
pub open spec fn md_runs_from(
    p: CT_P,
    urls: Seq<(String, String)>,
    i: int,
    cur: Option<Seq<char>>,
    lt: Seq<char>,
) -> Seq<char>
    decreases p.runs@.len() - i,
{
    if i < 0 || i >= p.runs@.len() {
        match cur {
            Some(u) => md_link(lt, u),
            None => Seq::empty(),
        }
    } else {
        let next = link_for(p.hyperlinks@, urls, i);
        let rt = md_run(p.runs@[i]);
        let (emitted, cur2, lt2) = match (cur, next) {
            (Some(u), None) => (md_link(lt, u), None, Seq::empty()),
            (Some(o), Some(n)) => if o != n {
                (md_link(lt, o), Some(n), Seq::empty())
            } else {
                (Seq::empty(), cur, lt)
            },
            (None, Some(u)) => (Seq::empty(), Some(u), lt),
            (None, None) => (Seq::empty(), None, lt),
        };
        if cur2 is Some {
            emitted + md_runs_from(p, urls, i + 1, cur2, lt2 + rt)
        } else {
            emitted + rt + md_runs_from(p, urls, i + 1, cur2, lt2)
        }
    }
}

/// The Markdown text of a paragraph's runs.
pub open spec fn md_para_text(p: CT_P, urls: Seq<(String, String)>) -> Seq<char> {
    md_runs_from(p, urls, 0, None, Seq::empty())
}

/// Collect all text from a paragraph, applying inline formatting and links.
pub fn collect_paragraph_text(para: &CT_P, hyperlink_urls: &Vec<(String, String)>) -> (r: String)
    ensures
        r@ == md_para_text(*para, hyperlink_urls@),
{
    let mut out = String::new();
    let mut current: Option<&str> = None;
    let mut link_text = String::new();
    let mut i: usize = 0;
    while i < para.runs.len()
        invariant
            i <= para.runs@.len(),
            out@ + md_runs_from(*para, hyperlink_urls@, i as int, match current {
                Some(c) => Some(c@),
                None => None,
            }, link_text@) == md_para_text(*para, hyperlink_urls@),
            current is None ==> link_text@.len() == 0,
        decreases para.runs@.len() - i,
    {
        let in_link = link_for_exec(&para.hyperlinks, hyperlink_urls, i);
        let ghost cur_v = match current { Some(c) => Some(c@), None => None::<Seq<char>> };
        let ghost lt_v = link_text@;
        let ghost before = out@;
        match (current, in_link) {
            (Some(url), None) => {
                push_char(&mut out, '[');
                push_str(&mut out, link_text.as_str());
                push_str(&mut out, "](");
                push_str(&mut out, url);
                push_char(&mut out, ')');
                link_text = String::new();
                current = None;
            },
            (Some(old), Some(new)) => {
                if !str_eq(old, new) {
                    push_char(&mut out, '[');
                    push_str(&mut out, link_text.as_str());
                    push_str(&mut out, "](");
                    push_str(&mut out, old);
                    push_char(&mut out, ')');
                    link_text = String::new();
                    current = Some(new);
                }
            },
            (None, Some(url)) => {
                current = Some(url);
            },
            (None, None) => {},
        }
        let rt = collect_run_text(&para.runs[i]);
        let ghost mid = out@;
        if current.is_some() {
            push_str(&mut link_text, rt.as_str());
        } else {
            push_str(&mut out, rt.as_str());
        }
        proof {
            let next_v = link_for(para.hyperlinks@, hyperlink_urls@, i as int);
            let rtv = md_run(para.runs@[i as int]);
            let cur2 = match current { Some(c) => Some(c@), None => None::<Seq<char>> };
            let emitted = mid.subrange(before.len() as int, mid.len() as int);
            assert(mid =~= before + emitted);
            if current.is_some() {
                vstd::seq_lib::lemma_concat_associative(before, emitted,
                    md_runs_from(*para, hyperlink_urls@, i + 1, cur2, link_text@));
            } else {
                vstd::seq_lib::lemma_concat_associative(before, emitted, rtv);
                vstd::seq_lib::lemma_concat_associative(before, emitted + rtv,
                    md_runs_from(*para, hyperlink_urls@, i + 1, cur2, link_text@));
                vstd::seq_lib::lemma_concat_associative(before + emitted, rtv,
                    md_runs_from(*para, hyperlink_urls@, i + 1, cur2, link_text@));
            }
        }
        i = i + 1;
    }
    match current {
        Some(url) => {
            push_char(&mut out, '[');
            push_str(&mut out, link_text.as_str());
            push_str(&mut out, "](");
            push_str(&mut out, url);
            push_char(&mut out, ')');
        },
        None => {},
    }
    proof { assert(out@ =~= md_para_text(*para, hyperlink_urls@)); }
    out
}

/// `s` repeated `n` times.
pub open spec fn repeat(s: Seq<char>, n: nat) -> Seq<char>
    decreases n,
{
    if n == 0 {
        Seq::empty()
    } else {
        repeat(s, (n - 1) as nat) + s
    }
}

/// Appends `s` `n` times.
fn push_repeat(out: &mut String, s: &str, n: u64)
    ensures
        final(out)@ == old(out)@ + repeat(s@, n as nat),
{
    let mut k: u64 = 0;
    proof { assert(old(out)@ + repeat(s@, 0) =~= old(out)@); }
    while k < n
        invariant
            k <= n,
            out@ == old(out)@ + repeat(s@, k as nat),
        decreases n - k,
    {
        push_str(out, s);
        k = k + 1;
        proof { assert(out@ =~= old(out)@ + repeat(s@, k as nat)); }
    }
}

/// The Markdown of a paragraph: a `#` heading, a list item indented by
/// level (`1. ` ordered, `- ` otherwise), or plain text; a paragraph with
/// only white space (and neither) is an empty line.
pub open spec fn md_para(
    p: CT_P,
    styles: CT_Styles,
    numbering: Option<CT_Numbering>,
    urls: Seq<(String, String)>,
) -> Seq<char> {
    let hl = heading_level(p.properties, styles);
    let li = list_info(p, numbering);
    let text = md_para_text(p, urls);
    if trim(text).len() == 0 && hl is None && li is None {
        seq!['\n']
    } else {
        match hl {
            Some(level) => repeat(seq!['#'], (if level < 6 { level } else { 6 }) as nat) + seq![' ']
                + trim(text) + "\n\n"@,
            None => match li {
                Some((ordered, ilvl)) => repeat("  "@, ilvl as nat) + (if ordered { "1. "@ } else {
                    "- "@
                }) + trim(text) + seq!['\n'],
                None => text + "\n\n"@,
            },
        }
    }
}

/// Emit a paragraph as Markdown.
fn emit_paragraph(
    out: &mut String,
    para: &CT_P,
    styles: &CT_Styles,
    numbering: Option<&CT_Numbering>,
    hyperlink_urls: &Vec<(String, String)>,
)
    ensures
        final(out)@ == old(out)@ + md_para(*para, *styles, match numbering {
            Some(n) => Some(*n),
            None => None,
        }, hyperlink_urls@),
{
    let heading = detect_heading_level(para.properties.as_ref(), styles);
    let list = detect_list(para, numbering);
    let text = collect_paragraph_text(para, hyperlink_urls);
    let trimmed = trim_chars(text.as_str());
    let empty = str_chars(trimmed.as_str()).len() == 0;
    if empty && heading.is_none() && list.is_none() {
        push_char(out, '\n');
        return;
    }
    match heading {
        Some(level) => {
            let n: u64 = if level < 6 { level } else { 6 };
            push_repeat(out, "#", n);
            push_char(out, ' ');
            push_str(out, trimmed.as_str());
            push_str(out, "\n\n");
            proof {
                reveal_strlit("#");
                assert("#"@ =~= seq!['#']);
            }
        },
        None => match list {
            Some((ordered, ilvl)) => {
                push_repeat(out, "  ", ilvl as u64);
                if ordered {
                    push_str(out, "1. ");
                } else {
                    push_str(out, "- ");
                }
                push_str(out, trimmed.as_str());
                push_char(out, '\n');
            },
            None => {
                push_str(out, text.as_str());
                push_str(out, "\n\n");
            },
        },
    }
    proof {
        assert(final(out)@ =~= old(out)@ + md_para(*para, *styles, match numbering {
            Some(n) => Some(*n),
            None => None,
        }, hyperlink_urls@));
    }
}

/// The texts a cell contributes: each paragraph's trimmed text when not
/// empty, and a marker for a nested table.
pub open spec fn md_cell_parts(items: Seq<CellContent>, urls: Seq<(String, String)>) -> Seq<Seq<char>>
    decreases items.len(),
{
    if items.len() == 0 {
        Seq::empty()
    } else {
        let rest = md_cell_parts(items.drop_last(), urls);
        match items.last() {
            CellContent::Paragraph(p) => {
                let t = trim(md_para_text(p, urls));
                if t.len() > 0 { rest.push(t) } else { rest }
            },
            CellContent::Table(_) => rest.push("(nested table)"@),
            CellContent::RawXml(_) => rest,
        }
    }
}

/// Texts joined with single spaces.
pub open spec fn join_space(parts: Seq<Seq<char>>) -> Seq<char>
    decreases parts.len(),
{
    if parts.len() == 0 {
        Seq::empty()
    } else if parts.len() == 1 {
        parts[0]
    } else {
        join_space(parts.drop_last()) + seq![' '] + parts.last()
    }
}

/// The text of a table cell.
pub open spec fn md_cell_text(c: CT_Tc, urls: Seq<(String, String)>) -> Seq<char> {
    join_space(md_cell_parts(c.content@, urls))
}

/// Collect text from a table cell.
fn collect_cell_text(cell: &CT_Tc, hyperlink_urls: &Vec<(String, String)>) -> (r: String)
    ensures
        r@ == md_cell_text(*cell, hyperlink_urls@),
{
    let mut out = String::new();
    let mut count: usize = 0;
    let mut k: usize = 0;
    proof { assert(cell.content@.take(0) =~= Seq::<CellContent>::empty()); }
    while k < cell.content.len()
        invariant
            k <= cell.content@.len(),
            out@ == join_space(md_cell_parts(cell.content@.take(k as int), hyperlink_urls@)),
            count == md_cell_parts(cell.content@.take(k as int), hyperlink_urls@).len(),
            count <= k,
        decreases cell.content@.len() - k,
    {
        let ghost parts = md_cell_parts(cell.content@.take(k as int), hyperlink_urls@);
        proof { assert(cell.content@.take(k + 1).drop_last() =~= cell.content@.take(k as int)); }
        match &cell.content[k] {
            CellContent::Paragraph(p) => {
                let text = collect_paragraph_text(p, hyperlink_urls);
                let t = trim_chars(text.as_str());
                if str_chars(t.as_str()).len() > 0 {
                    if count > 0 {
                        push_char(&mut out, ' ');
                    }
                    push_str(&mut out, t.as_str());
                    proof {
                        let np = parts.push(t@);
                        assert(np.drop_last() =~= parts);
                        if count == 0 { assert(out@ =~= join_space(np)); } else { assert(out@ =~= join_space(np)); }
                    }
                    count = count + 1;
                }
            },
            CellContent::Table(_) => {
                if count > 0 {
                    push_char(&mut out, ' ');
                }
                push_str(&mut out, "(nested table)");
                proof {
                    let np = parts.push("(nested table)"@);
                    assert(np.drop_last() =~= parts);
                    assert(out@ =~= join_space(np));
                }
                count = count + 1;
            },
            CellContent::RawXml(_) => {},
        }
        k = k + 1;
    }
    proof { assert(cell.content@.take(k as int) =~= cell.content@); }
    out
}

/// The largest number of cells in a row.
pub open spec fn max_cells(rows: Seq<crate::table::CT_Row>) -> nat
    decreases rows.len(),
{
    if rows.len() == 0 {
        0
    } else {
        let m = max_cells(rows.drop_last());
        if rows.last().cells@.len() > m { rows.last().cells@.len() } else { m }
    }
}

/// The cells of a row as ` text |` pieces.
pub open spec fn md_cells_line(cells: Seq<CT_Tc>, urls: Seq<(String, String)>) -> Seq<char>
    decreases cells.len(),
{
    if cells.len() == 0 {
        Seq::empty()
    } else {
        md_cells_line(cells.drop_last(), urls) + seq![' '] + trim(md_cell_text(cells.last(), urls))
            + " |"@
    }
}

/// One table row as a pipe-table line, padded with empty cells to `width`.
pub open spec fn md_row_line(row: crate::table::CT_Row, width: nat, urls: Seq<(String, String)>) -> Seq<char> {
    seq!['|'] + md_cells_line(row.cells@, urls) + repeat("  |"@, (width - row.cells@.len()) as nat)
        + seq!['\n']
}

/// The data rows (after the header) of a pipe table.
pub open spec fn md_rows_lines(rows: Seq<crate::table::CT_Row>, width: nat, urls: Seq<(String, String)>) -> Seq<char>
    decreases rows.len(),
{
    if rows.len() == 0 {
        Seq::empty()
    } else {
        md_rows_lines(rows.drop_last(), width, urls) + md_row_line(rows.last(), width, urls)
    }
}

/// A table as a GFM pipe table: the first row as header, a separator, the
/// other rows, and a blank line; nothing for a table without cells.
pub open spec fn md_table(t: CT_Tbl, urls: Seq<(String, String)>) -> Seq<char> {
    let rows = t.rows@;
    let w = max_cells(rows);
    if rows.len() == 0 || w == 0 {
        Seq::empty()
    } else {
        md_row_line(rows[0], w, urls) + seq!['|'] + repeat(" --- |"@, w) + seq!['\n'] + md_rows_lines(
            rows.skip(1),
            w,
            urls,
        ) + seq!['\n']
    }
}

/// Emits one table row line.
fn emit_row_line(out: &mut String, row: &crate::table::CT_Row, width: usize, hyperlink_urls: &Vec<(String, String)>)
    requires
        row.cells@.len() <= width,
    ensures
        final(out)@ == old(out)@ + md_row_line(*row, width as nat, hyperlink_urls@),
{
    let ghost o = out@;
    push_char(out, '|');
    let ghost o1 = out@;
    let mut j: usize = 0;
    proof { assert(row.cells@.take(0) =~= Seq::<CT_Tc>::empty()); assert(o1 + Seq::<char>::empty() =~= o1); }
    while j < row.cells.len()
        invariant
            j <= row.cells@.len(),
            out@ == o1 + md_cells_line(row.cells@.take(j as int), hyperlink_urls@),
        decreases row.cells@.len() - j,
    {
        proof { assert(row.cells@.take(j + 1).drop_last() =~= row.cells@.take(j as int)); }
        let text = collect_cell_text(&row.cells[j], hyperlink_urls);
        let t = trim_chars(text.as_str());
        push_char(out, ' ');
        push_str(out, t.as_str());
        push_str(out, " |");
        j = j + 1;
        proof { assert(out@ =~= o1 + md_cells_line(row.cells@.take(j as int), hyperlink_urls@)); }
    }
    proof { assert(row.cells@.take(j as int) =~= row.cells@); }
    push_repeat(out, "  |", (width - row.cells.len()) as u64);
    push_char(out, '\n');
    proof { assert(out@ =~= o + md_row_line(*row, width as nat, hyperlink_urls@)); }
}

/// Emit a table as a GFM pipe table.
fn emit_table(out: &mut String, tbl: &CT_Tbl, hyperlink_urls: &Vec<(String, String)>)
    ensures
        final(out)@ == old(out)@ + md_table(*tbl, hyperlink_urls@),
{
    let rows = &tbl.rows;
    let mut width: usize = 0;
    let mut i: usize = 0;
    while i < rows.len()
        invariant
            i <= rows@.len(),
            width == max_cells(rows@.take(i as int)),
            forall|k: int| 0 <= k < i ==> rows@[k].cells@.len() <= width,
        decreases rows@.len() - i,
    {
        proof { assert(rows@.take(i + 1).drop_last() =~= rows@.take(i as int)); }
        if rows[i].cells.len() > width {
            width = rows[i].cells.len();
        }
        i = i + 1;
    }
    proof { assert(rows@.take(i as int) =~= rows@); }
    if rows.len() == 0 || width == 0 {
        proof { assert(old(out)@ + Seq::<char>::empty() =~= old(out)@); }
        return;
    }
    let ghost o = out@;
    emit_row_line(out, &rows[0], width, hyperlink_urls);
    push_char(out, '|');
    push_repeat(out, " --- |", width as u64);
    push_char(out, '\n');
    let ghost o2 = out@;
    let ghost rest = rows@.skip(1);
    let mut r: usize = 1;
    proof { assert(rest.take(0) =~= Seq::<crate::table::CT_Row>::empty()); assert(o2 + Seq::<char>::empty() =~= o2); }
    while r < rows.len()
        invariant
            1 <= r <= rows@.len(),
            rest == rows@.skip(1),
            forall|k: int| 0 <= k < rows@.len() ==> rows@[k].cells@.len() <= width,
            out@ == o2 + md_rows_lines(rest.take(r - 1), width as nat, hyperlink_urls@),
        decreases rows@.len() - r,
    {
        proof {
            assert(rest.take(r as int).drop_last() =~= rest.take(r - 1));
            assert(rest.take(r as int).last() == rows@[r as int]);
        }
        emit_row_line(out, &rows[r], width, hyperlink_urls);
        r = r + 1;
    }
    push_char(out, '\n');
    proof {
        assert(rest.take(r - 1) =~= rest);
        assert(out@ =~= o + md_table(*tbl, hyperlink_urls@));
    }
}

/// The Markdown of a document body: its paragraphs and tables in order.
pub open spec fn md_body(
    items: Seq<BodyContent>,
    styles: CT_Styles,
    numbering: Option<CT_Numbering>,
    urls: Seq<(String, String)>,
) -> Seq<char>
    decreases items.len(),
{
    if items.len() == 0 {
        Seq::empty()
    } else {
        md_body(items.drop_last(), styles, numbering, urls) + match items.last() {
            BodyContent::Paragraph(p) => md_para(p, styles, numbering, urls),
            BodyContent::Table(t) => md_table(t, urls),
            BodyContent::RawXml(_) => Seq::empty(),
        }
    }
}

/// Emit the full body content as Markdown.
pub fn emit_markdown(
    body: &CT_Body,
    styles: &CT_Styles,
    numbering: Option<&CT_Numbering>,
    hyperlink_urls: &Vec<(String, String)>,
) -> (r: String)
    ensures
        r@ == md_body(body.content@, *styles, match numbering {
            Some(n) => Some(*n),
            None => None,
        }, hyperlink_urls@),
{
    let mut out = String::new();
    let mut i: usize = 0;
    while i < body.content.len()
        invariant
            i <= body.content@.len(),
            out@ == md_body(body.content@.take(i as int), *styles, match numbering {
                Some(n) => Some(*n),
                None => None,
            }, hyperlink_urls@),
        decreases body.content@.len() - i,
    {
        proof {
            assert(body.content@.take(i + 1).drop_last() =~= body.content@.take(i as int));
            assert(body.content@.take(i + 1).last() == body.content@[i as int]);
        }
        match &body.content[i] {
            BodyContent::Paragraph(p) => emit_paragraph(&mut out, p, styles, numbering, hyperlink_urls),
            BodyContent::Table(t) => emit_table(&mut out, t, hyperlink_urls),
            BodyContent::RawXml(_) => {
                proof { assert(out@ + Seq::<char>::empty() =~= out@); }
            },
        }
        i = i + 1;
    }
    proof { assert(body.content@.take(i as int) =~= body.content@); }
    out
}

/// Convert a document to Markdown.
pub fn to_markdown(input: &crate::html::HtmlInput) -> (r: String)
    ensures
        r@ == md_body(input.document.body.content@, input.styles, input.numbering,
            input.hyperlink_urls@),
{
    emit_markdown(&input.document.body, &input.styles, input.numbering.as_ref(), &input.hyperlink_urls)
}


/// The Markdown of a run wraps its text by its emphasis: `**` on both
/// sides when bold only, `*` when italic only, `***` when both, `~~` when
/// struck only; a run without text or emphasis gives its text as it is.
pub proof fn lemma_md_run_emphasis(run: CT_R)
    ensures
        ({
            let raw = md_items(run.content@);
            let bold = run.properties matches Some(r) && r.bold == Some(true);
            let italic = run.properties matches Some(r) && r.italic == Some(true);
            let strike = run.properties matches Some(r) && (r.strike == Some(true) || r.dstrike == Some(true));
            &&& raw.len() == 0 ==> md_run(run).len() == 0
            &&& raw.len() > 0 && bold && !italic ==> md_run(run) == seq!['*', '*'] + raw + seq!['*', '*']
            &&& raw.len() > 0 && italic && !bold ==> md_run(run) == seq!['*'] + raw + seq!['*']
            &&& raw.len() > 0 && bold && italic ==> md_run(run) == seq!['*', '*', '*'] + raw + seq!['*', '*', '*']
            &&& raw.len() > 0 && !bold && !italic && strike ==> md_run(run) == seq!['~', '~'] + raw + seq!['~', '~']
            &&& !bold && !italic && !strike ==> md_run(run) == raw
        }),
{
    reveal_strlit("~~");
    reveal_strlit("**");
    reveal_strlit("*");
    reveal_strlit("***");
}

/// A run holding the text `t` alone, bold and not italic, is written as
/// `**t**`.
pub proof fn lemma_md_bold_text(run: CT_R, t: crate::text::CT_Text)
    requires
        run.content@ == seq![RunContent::Text(t)],
        t.text@.len() > 0,
        run.properties matches Some(r) && r.bold == Some(true) && r.italic != Some(true),
    ensures
        md_run(run) == seq!['*', '*'] + t.text@ + seq!['*', '*'],
{
    assert(run.content@.drop_last() =~= Seq::<RunContent>::empty());
    assert(md_items(run.content@.drop_last()) == Seq::<char>::empty());
    assert(run.content@.last() == RunContent::Text(t));
    assert(md_items(run.content@) =~= Seq::<char>::empty() + t.text@);
    lemma_md_run_emphasis(run);
}

} // verus!
