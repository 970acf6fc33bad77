//! Office math: equation trees and a reader for a subset of LaTeX.

use vstd::prelude::*;

use crate::chars::{str_chars, str_eq, string_from_chars, to_owned_string};
use crate::xml::{
    element, emit_empty_attr, emit_end, emit_start, emit_start_attr, emit_text, empty_tag_attr,
    end_tag, start_tag, start_tag_attr, text_bytes,
};

verus! {

/// A node of an equation tree.
#[derive(Debug)]
pub enum MathNode {
    /// A run of text.
    Run(String),
    /// Numerator over denominator.
    Fraction(Box<MathNode>, Box<MathNode>),
    /// Base with superscript.
    Sup(Box<MathNode>, Box<MathNode>),
    /// Base with subscript.
    Sub(Box<MathNode>, Box<MathNode>),
    /// Base with subscript and superscript.
    SubSup(Box<MathNode>, Box<MathNode>, Box<MathNode>),
    /// Root: optional degree, radicand.
    Radical(Option<Box<MathNode>>, Box<MathNode>),
    /// N-ary operator (sum, integral, product): symbol, lower limit, upper
    /// limit, body.
    Nary(String, Box<MathNode>, Box<MathNode>, Box<MathNode>),
    /// Delimited group: opening and closing characters, contents.
    Delimiter(String, String, Vec<MathNode>),
    /// Function application: name, argument.
    Func(String, Box<MathNode>),
    /// Accent: combining character, base.
    Accent(String, Box<MathNode>),
    /// Matrix of rows of cells.
    Matrix(Vec<Vec<MathNode>>),
    /// Overbar.
    Bar(Box<MathNode>),
    /// Nodes one after another.
    Sequence(Vec<MathNode>),
}

/// The mathematical value of an equation tree: the same shape, with text
/// as character sequences.
pub enum MathView {
    Run(Seq<char>),
    Fraction(Box<MathView>, Box<MathView>),
    Sup(Box<MathView>, Box<MathView>),
    Sub(Box<MathView>, Box<MathView>),
    SubSup(Box<MathView>, Box<MathView>, Box<MathView>),
    Radical(Option<Box<MathView>>, Box<MathView>),
    Nary(Seq<char>, Box<MathView>, Box<MathView>, Box<MathView>),
    Delimiter(Seq<char>, Seq<char>, Seq<MathView>),
    Func(Seq<char>, Box<MathView>),
    Accent(Seq<char>, Box<MathView>),
    Matrix(Seq<Seq<MathView>>),
    Bar(Box<MathView>),
    Sequence(Seq<MathView>),
}

/// The value of an equation tree.
pub open spec fn mview(n: MathNode) -> MathView
    decreases n,
{
    match n {
        MathNode::Run(s) => MathView::Run(s@),
        MathNode::Fraction(a, b) => MathView::Fraction(Box::new(mview(*a)), Box::new(mview(*b))),
        MathNode::Sup(a, b) => MathView::Sup(Box::new(mview(*a)), Box::new(mview(*b))),
        MathNode::Sub(a, b) => MathView::Sub(Box::new(mview(*a)), Box::new(mview(*b))),
        MathNode::SubSup(a, b, c) => MathView::SubSup(Box::new(mview(*a)), Box::new(mview(*b)),
            Box::new(mview(*c))),
        MathNode::Radical(d, r) => MathView::Radical(
            match d {
                Some(x) => Some(Box::new(mview(*x))),
                None => None,
            },
            Box::new(mview(*r)),
        ),
        MathNode::Nary(c, a, b, e) => MathView::Nary(c@, Box::new(mview(*a)), Box::new(mview(*b)),
            Box::new(mview(*e))),
        MathNode::Delimiter(b, e, items) => MathView::Delimiter(b@, e@, mviews(items@)),
        MathNode::Func(f, a) => MathView::Func(f@, Box::new(mview(*a))),
        MathNode::Accent(c, a) => MathView::Accent(c@, Box::new(mview(*a))),
        MathNode::Matrix(rows) => MathView::Matrix(mrows(rows@)),
        MathNode::Bar(a) => MathView::Bar(Box::new(mview(*a))),
        MathNode::Sequence(items) => MathView::Sequence(mviews(items@)),
    }
}

/// The values of a sequence of trees.
pub open spec fn mviews(s: Seq<MathNode>) -> Seq<MathView>
    decreases s,
{
    if s.len() == 0 {
        Seq::empty()
    } else {
        mviews(s.drop_last()).push(mview(s.last()))
    }
}

/// The values of matrix rows.
pub open spec fn mrows(s: Seq<Vec<MathNode>>) -> Seq<Seq<MathView>>
    decreases s,
{
    if s.len() == 0 {
        Seq::empty()
    } else {
        mrows(s.drop_last()).push(mviews(s.last()@))
    }
}

impl MathNode {
    /// A run of text.
    pub fn run(s: &str) -> (r: MathNode)
        ensures
            mview(r) == MathView::Run(s@),
    {
        MathNode::Run(to_owned_string(s))
    }
}

/// A LaTeX token.
#[derive(Debug)]
pub enum Tok {
    /// `{`
    Open,
    /// `}`
    Close,
    /// `^`
    Sup,
    /// `_`
    Sub,
    /// `\name`
    Cmd(String),
    /// A single visible character.
    Sym(String),
}

/// The value of a token.
pub enum TokView {
    Open,
    Close,
    Sup,
    Sub,
    Cmd(Seq<char>),
    Sym(Seq<char>),
}

/// The value of a token.
pub open spec fn tview(t: Tok) -> TokView {
    match t {
        Tok::Open => TokView::Open,
        Tok::Close => TokView::Close,
        Tok::Sup => TokView::Sup,
        Tok::Sub => TokView::Sub,
        Tok::Cmd(s) => TokView::Cmd(s@),
        Tok::Sym(s) => TokView::Sym(s@),
    }
}

/// The values of a sequence of tokens.
pub open spec fn tviews(s: Seq<Tok>) -> Seq<TokView> {
    Seq::new(s.len(), |i: int| tview(s[i]))
}

/// Whether `c` is an ASCII letter.
pub open spec fn is_ascii_alpha(c: char) -> bool {
    ('a' <= c && c <= 'z') || ('A' <= c && c <= 'Z')
}

/// The end of the run of ASCII letters starting at `j`.
pub open spec fn alpha_end(s: Seq<char>, j: int) -> int
    decreases s.len() - j,
{
    if 0 <= j < s.len() && is_ascii_alpha(s[j]) {
        alpha_end(s, j + 1)
    } else {
        j
    }
}

/// `alpha_end` lies between `j` and the end, past letters only.
pub proof fn lemma_alpha_end(s: Seq<char>, j: int)
    requires
        0 <= j <= s.len(),
    ensures
        j <= alpha_end(s, j) <= s.len(),
        forall|k: int| j <= k < alpha_end(s, j) ==> is_ascii_alpha(s[k]),
        alpha_end(s, j) < s.len() ==> !is_ascii_alpha(s[alpha_end(s, j)]),
    decreases s.len() - j,
{
    if j < s.len() && is_ascii_alpha(s[j]) {
        lemma_alpha_end(s, j + 1);
    }
}

/// The tokens of `s` from position `i` on: braces, `^`, `_`, commands
/// (`\` and a run of ASCII letters, or `\` and any one character as a
/// symbol), and every other character but space, tab and newline as a
/// symbol.
pub open spec fn lex_from(s: Seq<char>, i: int) -> Seq<TokView>
    decreases s.len() - i,
{
    if i < 0 || i >= s.len() {
        Seq::empty()
    } else {
        let c = s[i];
        if c == '{' {
            seq![TokView::Open] + lex_from(s, i + 1)
        } else if c == '}' {
            seq![TokView::Close] + lex_from(s, i + 1)
        } else if c == '^' {
            seq![TokView::Sup] + lex_from(s, i + 1)
        } else if c == '_' {
            seq![TokView::Sub] + lex_from(s, i + 1)
        } else if c == ' ' || c == '\t' || c == '\n' {
            lex_from(s, i + 1)
        } else if c == '\\' {
            let j = alpha_end(s, i + 1);
            if j == i + 1 {
                if i + 1 < s.len() {
                    seq![TokView::Sym(seq![s[i + 1]])] + lex_from(s, i + 2)
                } else {
                    Seq::empty()
                }
            } else if i + 1 < j <= s.len() {
                seq![TokView::Cmd(s.subrange(i + 1, j))] + lex_from(s, j)
            } else {
                Seq::empty()
            }
        } else {
            seq![TokView::Sym(seq![c])] + lex_from(s, i + 1)
        }
    }
}

/// A `String` of one character.
fn char_string(c: char) -> (r: String)
    ensures
        r@ == seq![c],
{
    let mut s = String::new();
    crate::chars::push_char(&mut s, c);
    proof { assert(s@ =~= seq![c]); }
    s
}

/// Split a LaTeX source into tokens.
pub fn lex(src: &str) -> (r: Vec<Tok>)
    ensures
        tviews(r@) == lex_from(src@, 0),
{
    let cs = str_chars(src);
    let mut toks: Vec<Tok> = Vec::new();
    let mut i: usize = 0;
    proof { assert(tviews(toks@) =~= Seq::<TokView>::empty()); }
    while i < cs.len()
        invariant
            i <= cs@.len(),
            cs@ == src@,
            tviews(toks@) + lex_from(cs@, i as int) == lex_from(cs@, 0),
        decreases cs@.len() - i,
    {
        let c = cs[i];
        let ghost before = tviews(toks@);
        if c == '{' || c == '}' || c == '^' || c == '_' {
            let t = if c == '{' { Tok::Open } else if c == '}' { Tok::Close } else if c == '^' { Tok::Sup } else { Tok::Sub };
            toks.push(t);
            proof { assert(tviews(toks@) =~= before.push(tview(t))); }
            i = i + 1;
        } else if c == ' ' || c == '\t' || c == '\n' {
            i = i + 1;
        } else if c == '\\' {
            let mut j: usize = i + 1;
            proof { lemma_alpha_end(cs@, i + 1); }
            while j < cs.len() && (('a' <= cs[j] && cs[j] <= 'z') || ('A' <= cs[j] && cs[j] <= 'Z'))
                invariant
                    i + 1 <= j <= cs@.len(),
                    alpha_end(cs@, i + 1) == alpha_end(cs@, j as int),
                decreases cs@.len() - j,
            {
                j = j + 1;
            }
            proof { lemma_alpha_end(cs@, j as int); }
            if j == i + 1 {
                if i + 1 < cs.len() {
                    let t = Tok::Sym(char_string(cs[i + 1]));
                    toks.push(t);
                    proof { assert(tviews(toks@) =~= before.push(tview(t))); }
                    i = i + 2;
                } else {
                    i = cs.len();
                    proof { assert(lex_from(cs@, i as int) =~= Seq::<TokView>::empty()); }
                }
            } else {
                let name = string_from_chars(crate::html::slice_chars(cs.as_slice(), i + 1, j).as_slice());
                let t = Tok::Cmd(name);
                toks.push(t);
                proof { assert(tviews(toks@) =~= before.push(tview(t))); }
                i = j;
            }
        } else {
            let t = Tok::Sym(char_string(c));
            toks.push(t);
            proof { assert(tviews(toks@) =~= before.push(tview(t))); }
            i = i + 1;
        }
    }
    proof { assert(tviews(toks@) + Seq::<TokView>::empty() =~= tviews(toks@)); }
    toks
}

/// The Greek letter a command names, if it names one.
pub open spec fn greek_of(name: Seq<char>) -> Option<Seq<char>> {
    if name == "alpha"@ { Some("\u{03B1}"@) }
    else if name == "beta"@ { Some("\u{03B2}"@) }
    else if name == "gamma"@ { Some("\u{03B3}"@) }
    else if name == "delta"@ { Some("\u{03B4}"@) }
    else if name == "epsilon"@ { Some("\u{03B5}"@) }
    else if name == "theta"@ { Some("\u{03B8}"@) }
    else if name == "lambda"@ { Some("\u{03BB}"@) }
    else if name == "mu"@ { Some("\u{03BC}"@) }
    else if name == "pi"@ { Some("\u{03C0}"@) }
    else if name == "rho"@ { Some("\u{03C1}"@) }
    else if name == "sigma"@ { Some("\u{03C3}"@) }
    else if name == "phi"@ { Some("\u{03C6}"@) }
    else if name == "omega"@ { Some("\u{03C9}"@) }
    else if name == "tau"@ { Some("\u{03C4}"@) }
    else if name == "Gamma"@ { Some("\u{0393}"@) }
    else if name == "Delta"@ { Some("\u{0394}"@) }
    else if name == "Theta"@ { Some("\u{0398}"@) }
    else if name == "Lambda"@ { Some("\u{039B}"@) }
    else if name == "Pi"@ { Some("\u{03A0}"@) }
    else if name == "Sigma"@ { Some("\u{03A3}"@) }
    else if name == "Phi"@ { Some("\u{03A6}"@) }
    else if name == "Omega"@ { Some("\u{03A9}"@) }
    else { None }
}

/// The Greek letter a command names.
pub fn greek(name: &str) -> (r: Option<&'static str>)
    ensures
        r matches Some(g) ==> greek_of(name@) == Some(g@),
        r is None ==> greek_of(name@) is None,
{
    if str_eq(name, "alpha") { Some("\u{03B1}") }
    else if str_eq(name, "beta") { Some("\u{03B2}") }
    else if str_eq(name, "gamma") { Some("\u{03B3}") }
    else if str_eq(name, "delta") { Some("\u{03B4}") }
    else if str_eq(name, "epsilon") { Some("\u{03B5}") }
    else if str_eq(name, "theta") { Some("\u{03B8}") }
    else if str_eq(name, "lambda") { Some("\u{03BB}") }
    else if str_eq(name, "mu") { Some("\u{03BC}") }
    else if str_eq(name, "pi") { Some("\u{03C0}") }
    else if str_eq(name, "rho") { Some("\u{03C1}") }
    else if str_eq(name, "sigma") { Some("\u{03C3}") }
    else if str_eq(name, "phi") { Some("\u{03C6}") }
    else if str_eq(name, "omega") { Some("\u{03C9}") }
    else if str_eq(name, "tau") { Some("\u{03C4}") }
    else if str_eq(name, "Gamma") { Some("\u{0393}") }
    else if str_eq(name, "Delta") { Some("\u{0394}") }
    else if str_eq(name, "Theta") { Some("\u{0398}") }
    else if str_eq(name, "Lambda") { Some("\u{039B}") }
    else if str_eq(name, "Pi") { Some("\u{03A0}") }
    else if str_eq(name, "Sigma") { Some("\u{03A3}") }
    else if str_eq(name, "Phi") { Some("\u{03A6}") }
    else if str_eq(name, "Omega") { Some("\u{03A9}") }
    else { None }
}

/// One node for several: the node itself when there is exactly one, else
/// their sequence.
pub open spec fn flat(v: Seq<MathView>) -> MathView {
    if v.len() == 1 {
        v[0]
    } else {
        MathView::Sequence(v)
    }
}

/// An empty run.
pub open spec fn empty_run() -> MathView {
    MathView::Run(Seq::empty())
}

/// A delimiter symbol at `pos` (consumed), else `(` (nothing consumed).
pub open spec fn take_delim_at(t: Seq<TokView>, pos: int) -> (Seq<char>, int) {
    if 0 <= pos < t.len() && t[pos] is Sym {
        (t[pos]->Sym_0, pos + 1)
    } else {
        ("("@, pos)
    }
}

/// A sequence of atoms up to a closing brace or the end, with `^` and `_`
/// attaching the next atom as a script to the previous item (or to an empty
/// run): the item (or the sequence) and where reading stopped.
pub open spec fn p_seq(t: Seq<TokView>, pos: int) -> (MathView, int)
    decreases t.len() - pos, 2int,
{
    let (items, p) = seq_loop(t, pos, Seq::empty());
    (flat(items), p)
}

/// The items of a sequence read from `pos`, after `items`.
pub open spec fn seq_loop(t: Seq<TokView>, pos: int, items: Seq<MathView>) -> (Seq<MathView>, int)
    decreases t.len() - pos, 1int,
{
    if pos < 0 || pos >= t.len() || t[pos] is Close {
        (items, pos)
    } else if t[pos] is Sup || t[pos] is Sub {
        let (script, p2) = p_atom(t, pos + 1);
        let base = if items.len() > 0 { items.last() } else { empty_run() };
        let rest = if items.len() > 0 { items.drop_last() } else { items };
        let node = if t[pos] is Sup {
            MathView::Sup(Box::new(base), Box::new(script))
        } else {
            MathView::Sub(Box::new(base), Box::new(script))
        };
        if pos < p2 <= t.len() {
            seq_loop(t, p2, rest.push(node))
        } else {
            (rest.push(node), p2)
        }
    } else {
        let (a, p2) = p_atom(t, pos);
        if pos < p2 <= t.len() {
            seq_loop(t, p2, items.push(a))
        } else {
            (items.push(a), p2)
        }
    }
}

/// One atom: a braced group, a command with its arguments, or a symbol
/// (an empty run at the end, or for a stray `}` `^` `_`).
pub open spec fn p_atom(t: Seq<TokView>, pos: int) -> (MathView, int)
    decreases t.len() - pos, 0int,
{
    if pos < 0 || pos >= t.len() {
        (empty_run(), pos)
    } else {
        match t[pos] {
            TokView::Open => {
                let (inner, p2) = p_seq(t, pos + 1);
                let p3 = if 0 <= p2 < t.len() && t[p2] is Close { p2 + 1 } else { p2 };
                (inner, p3)
            },
            TokView::Cmd(name) => p_cmd(name, t, pos + 1),
            TokView::Sym(s) => (MathView::Run(s), pos + 1),
            _ => (empty_run(), pos + 1),
        }
    }
}

/// The degree atoms of a root, up to `]`.
pub open spec fn deg_loop(t: Seq<TokView>, pos: int, deg: Seq<MathView>) -> (Seq<MathView>, int)
    decreases t.len() - pos, 1int,
{
    if pos < 0 || pos >= t.len() || t[pos] == TokView::Sym("]"@) {
        (deg, pos)
    } else {
        let (a, p2) = p_atom(t, pos);
        if pos < p2 <= t.len() {
            deg_loop(t, p2, deg.push(a))
        } else {
            (deg.push(a), p2)
        }
    }
}

/// The atoms of a `\left` group, up to `\right` and its delimiter.
pub open spec fn left_loop(t: Seq<TokView>, pos: int, inner: Seq<MathView>) -> (Seq<MathView>, int)
    decreases t.len() - pos, 1int,
{
    if pos < 0 || pos >= t.len() {
        (inner, pos)
    } else if t[pos] == TokView::Cmd("right"@) {
        (inner, take_delim_at(t, pos + 1).1)
    } else {
        let (a, p2) = p_atom(t, pos);
        if pos < p2 <= t.len() {
            left_loop(t, p2, inner.push(a))
        } else {
            (inner.push(a), p2)
        }
    }
}

/// One look for a limit of an n-ary operator: `_` sets the lower, `^` the
/// upper one.
pub open spec fn nary_step(t: Seq<TokView>, pos: int, lo: MathView, hi: MathView) -> (MathView, MathView, int)
    decreases t.len() - pos, 1int,
{
    if 0 <= pos < t.len() && t[pos] is Sub {
        let (a, p) = p_atom(t, pos + 1);
        (a, hi, p)
    } else if 0 <= pos < t.len() && t[pos] is Sup {
        let (a, p) = p_atom(t, pos + 1);
        (lo, a, p)
    } else {
        (lo, hi, pos)
    }
}

/// A root after `\sqrt`: an optional degree in square brackets, then the
/// radicand.
pub open spec fn p_sqrt(t: Seq<TokView>, pos: int) -> (MathView, int)
    decreases t.len() - pos, 2int,
{
    if 0 <= pos < t.len() && t[pos] == TokView::Sym("["@) {
        let (deg, p1) = deg_loop(t, pos + 1, Seq::empty());
        let p2 = if p1 < t.len() { p1 + 1 } else { p1 };
        if pos <= p2 <= t.len() {
            let (rad, p3) = p_atom(t, p2);
            (MathView::Radical(Some(Box::new(flat(deg))), Box::new(rad)), p3)
        } else {
            (MathView::Radical(Some(Box::new(flat(deg))), Box::new(empty_run())), p2)
        }
    } else {
        let (rad, p1) = p_atom(t, pos);
        (MathView::Radical(None, Box::new(rad)), p1)
    }
}

/// A delimited group after `\left`: the opening delimiter, the atoms up to
/// `\right` (whose delimiter is skipped), closed by `)`.
pub open spec fn p_left(t: Seq<TokView>, pos: int) -> (MathView, int)
    decreases t.len() - pos, 2int,
{
    let (beg, p1) = take_delim_at(t, pos);
    if pos <= p1 {
        let (inner, p2) = left_loop(t, p1, Seq::empty());
        (MathView::Delimiter(beg, ")"@, seq![flat(inner)]), p2)
    } else {
        (MathView::Delimiter(beg, ")"@, seq![flat(Seq::empty())]), p1)
    }
}

/// An n-ary operator with symbol `chr`: up to two limits, then the body.
pub open spec fn p_nary(chr: Seq<char>, t: Seq<TokView>, pos: int) -> (MathView, int)
    decreases t.len() - pos, 2int,
{
    let (lo1, hi1, p1) = nary_step(t, pos, empty_run(), empty_run());
    if pos <= p1 <= t.len() {
        let (lo2, hi2, p2) = nary_step(t, p1, lo1, hi1);
        if pos <= p2 <= t.len() {
            let (body, p3) = p_atom(t, p2);
            (MathView::Nary(chr, Box::new(lo2), Box::new(hi2), Box::new(body)), p3)
        } else {
            (MathView::Nary(chr, Box::new(lo2), Box::new(hi2), Box::new(empty_run())), p2)
        }
    } else {
        (MathView::Nary(chr, Box::new(lo1), Box::new(hi1), Box::new(empty_run())), p1)
    }
}

/// Whether a command names a function (`\sin` and the like).
pub open spec fn is_func_name(name: Seq<char>) -> bool {
    name == "sin"@ || name == "cos"@ || name == "tan"@ || name == "log"@ || name == "ln"@
        || name == "exp"@ || name == "lim"@
}

/// The node a command reads, with its arguments.
pub open spec fn p_cmd(name: Seq<char>, t: Seq<TokView>, pos: int) -> (MathView, int)
    decreases t.len() - pos, 3int,
{
    if name == "frac"@ {
        let (num, p1) = p_atom(t, pos);
        if pos <= p1 <= t.len() {
            let (den, p2) = p_atom(t, p1);
            (MathView::Fraction(Box::new(num), Box::new(den)), p2)
        } else {
            (MathView::Fraction(Box::new(num), Box::new(empty_run())), p1)
        }
    } else if name == "sqrt"@ {
        p_sqrt(t, pos)
    } else if name == "left"@ {
        p_left(t, pos)
    } else if name == "sum"@ {
        p_nary("\u{2211}"@, t, pos)
    } else if name == "int"@ {
        p_nary("\u{222B}"@, t, pos)
    } else if name == "prod"@ {
        p_nary("\u{220F}"@, t, pos)
    } else if name == "hat"@ {
        let (a, p1) = p_atom(t, pos);
        (MathView::Accent("\u{0302}"@, Box::new(a)), p1)
    } else if name == "bar"@ || name == "overline"@ {
        let (a, p1) = p_atom(t, pos);
        (MathView::Accent("\u{0305}"@, Box::new(a)), p1)
    } else if name == "vec"@ {
        let (a, p1) = p_atom(t, pos);
        (MathView::Accent("\u{20D7}"@, Box::new(a)), p1)
    } else if is_func_name(name) {
        let (a, p1) = p_atom(t, pos);
        (MathView::Func(name, Box::new(a)), p1)
    } else {
        (MathView::Run(symbol_of(name)), pos)
    }
}

/// The text a symbol command stands for: operators and relations, Greek
/// letters, or the command's own name.
pub open spec fn symbol_of(name: Seq<char>) -> Seq<char> {
    if name == "cdot"@ { "\u{22C5}"@ }
    else if name == "times"@ { "\u{00D7}"@ }
    else if name == "pm"@ { "\u{00B1}"@ }
    else if name == "leq"@ || name == "le"@ { "\u{2264}"@ }
    else if name == "geq"@ || name == "ge"@ { "\u{2265}"@ }
    else if name == "neq"@ || name == "ne"@ { "\u{2260}"@ }
    else if name == "infty"@ { "\u{221E}"@ }
    else if name == "to"@ || name == "rightarrow"@ { "\u{2192}"@ }
    else {
        match greek_of(name) {
            Some(g) => g,
            None => name,
        }
    }
}

/// The tree a LaTeX source reads as.
pub open spec fn latex_tree(src: Seq<char>) -> MathView {
    p_seq(lex_from(src, 0), 0).0
}

/// `mviews` keeps the length and maps each tree to its value.
pub proof fn lemma_mviews(s: Seq<MathNode>)
    ensures
        mviews(s).len() == s.len(),
        forall|i: int| 0 <= i < s.len() ==> mviews(s)[i] == mview(s[i]),
    decreases s.len(),
{
    if s.len() > 0 {
        lemma_mviews(s.drop_last());
    }
}

/// The value of a sequence with one more tree.
pub proof fn lemma_mviews_push(s: Seq<MathNode>, x: MathNode)
    ensures
        mviews(s.push(x)) == mviews(s).push(mview(x)),
{
    assert(s.push(x).drop_last() =~= s);
}

/// Whether a token is `}`.
fn tok_is_close(t: &Tok) -> (r: bool)
    ensures
        r == (tview(*t) is Close),
{
    match t {
        Tok::Close => true,
        _ => false,
    }
}

/// Whether a token is `^`.
fn tok_is_sup(t: &Tok) -> (r: bool)
    ensures
        r == (tview(*t) is Sup),
{
    match t {
        Tok::Sup => true,
        _ => false,
    }
}

/// Whether a token is `_`.
fn tok_is_sub(t: &Tok) -> (r: bool)
    ensures
        r == (tview(*t) is Sub),
{
    match t {
        Tok::Sub => true,
        _ => false,
    }
}

/// Whether a token is the symbol `c`.
fn tok_is_sym(t: &Tok, c: &str) -> (r: bool)
    ensures
        r == (tview(*t) == TokView::Sym(c@)),
{
    match t {
        Tok::Sym(s) => str_eq(s.as_str(), c),
        _ => false,
    }
}

/// Whether a token is the command `c`.
fn tok_is_cmd(t: &Tok, c: &str) -> (r: bool)
    ensures
        r == (tview(*t) == TokView::Cmd(c@)),
{
    match t {
        Tok::Cmd(s) => str_eq(s.as_str(), c),
        _ => false,
    }
}

/// An empty run.
fn empty_run_node() -> (r: MathNode)
    ensures
        mview(r) == empty_run(),
{
    MathNode::Run(String::new())
}

/// One node for several.
fn flatten(v: Vec<MathNode>) -> (r: MathNode)
    ensures
        mview(r) == flat(mviews(v@)),
{
    proof { lemma_mviews(v@); }
    let mut v = v;
    if v.len() == 1 {
        let x = v.pop().unwrap();
        x
    } else {
        MathNode::Sequence(v)
    }
}

/// The delimiter at `pos`, if a symbol stands there, else `(`.
fn take_delim(toks: &Vec<Tok>, pos: usize) -> (r: (String, usize))
    requires
        pos <= toks@.len(),
    ensures
        (r.0@, r.1 as int) == take_delim_at(tviews(toks@), pos as int),
        pos <= r.1 <= toks@.len(),
{
    if pos < toks.len() {
        match &toks[pos] {
            Tok::Sym(s) => {
                return (s.clone(), pos + 1);
            },
            _ => {},
        }
    }
    (to_owned_string("("), pos)
}

/// Read a sequence from `pos`.
fn parse_seq(toks: &Vec<Tok>, pos: usize) -> (r: (MathNode, usize))
    requires
        pos <= toks@.len(),
    ensures
        (mview(r.0), r.1 as int) == p_seq(tviews(toks@), pos as int),
        pos <= r.1 <= toks@.len(),
    decreases toks@.len() - pos, 2int,
{
    let ghost t = tviews(toks@);
    let mut items: Vec<MathNode> = Vec::new();
    let mut cur: usize = pos;
    proof { assert(mviews(items@) =~= Seq::<MathView>::empty()); }
    while cur < toks.len() && !tok_is_close(&toks[cur])
        invariant
            t == tviews(toks@),
            pos <= cur <= toks@.len(),
            seq_loop(t, cur as int, mviews(items@)) == seq_loop(t, pos as int, Seq::empty()),
        decreases toks@.len() - cur,
    {
        let is_sup = tok_is_sup(&toks[cur]);
        if is_sup || tok_is_sub(&toks[cur]) {
            let (script, p2) = parse_atom(toks, cur + 1);
            let ghost old_items = items@;
            proof { lemma_mviews(old_items); }
            let base = match items.pop() {
                Some(b) => b,
                None => empty_run_node(),
            };
            proof {
                if old_items.len() > 0 {
                    assert(mviews(old_items).drop_last() =~= mviews(items@));
                } else {
                    assert(mviews(items@) =~= mviews(old_items));
                }
            }
            let node = if is_sup {
                MathNode::Sup(Box::new(base), Box::new(script))
            } else {
                MathNode::Sub(Box::new(base), Box::new(script))
            };
            proof { lemma_mviews_push(items@, node); }
            items.push(node);
            cur = p2;
        } else {
            let (a, p2) = parse_atom(toks, cur);
            proof { lemma_mviews_push(items@, a); }
            items.push(a);
            cur = p2;
        }
    }
    let r = flatten(items);
    (r, cur)
}

/// Read one atom at `pos`.
fn parse_atom(toks: &Vec<Tok>, pos: usize) -> (r: (MathNode, usize))
    requires
        pos <= toks@.len(),
    ensures
        (mview(r.0), r.1 as int) == p_atom(tviews(toks@), pos as int),
        pos <= r.1 <= toks@.len(),
        pos < toks@.len() ==> pos < r.1,
    decreases toks@.len() - pos, 0int,
{
    if pos >= toks.len() {
        return (empty_run_node(), pos);
    }
    match &toks[pos] {
        Tok::Open => {
            let (inner, p2) = parse_seq(toks, pos + 1);
            let p3 = if p2 < toks.len() && tok_is_close(&toks[p2]) { p2 + 1 } else { p2 };
            (inner, p3)
        },
        Tok::Cmd(name) => parse_cmd(name.as_str(), toks, pos + 1),
        Tok::Sym(s) => (MathNode::Run(s.clone()), pos + 1),
        _ => (empty_run_node(), pos + 1),
    }
}

/// One limit of an n-ary operator, if `_` or `^` stands at `pos`.
fn nary_limit(toks: &Vec<Tok>, pos: usize, lo: MathNode, hi: MathNode) -> (r: (MathNode, MathNode, usize))
    requires
        pos <= toks@.len(),
    ensures
        (mview(r.0), mview(r.1), r.2 as int) == nary_step(tviews(toks@), pos as int, mview(lo), mview(hi)),
        pos <= r.2 <= toks@.len(),
    decreases toks@.len() - pos, 1int,
{
    if pos < toks.len() && tok_is_sub(&toks[pos]) {
        let (a, p) = parse_atom(toks, pos + 1);
        (a, hi, p)
    } else if pos < toks.len() && tok_is_sup(&toks[pos]) {
        let (a, p) = parse_atom(toks, pos + 1);
        (lo, a, p)
    } else {
        (lo, hi, pos)
    }
}

/// Read a root after `\sqrt`.
fn parse_sqrt(toks: &Vec<Tok>, pos: usize) -> (r: (MathNode, usize))
    requires
        pos <= toks@.len(),
    ensures
        (mview(r.0), r.1 as int) == p_sqrt(tviews(toks@), pos as int),
        pos <= r.1 <= toks@.len(),
    decreases toks@.len() - pos, 2int,
{
    let ghost t = tviews(toks@);
    if pos < toks.len() && tok_is_sym(&toks[pos], "[") {
        let mut deg: Vec<MathNode> = Vec::new();
        let mut cur: usize = pos + 1;
        proof { assert(mviews(deg@) =~= Seq::<MathView>::empty()); }
        while cur < toks.len() && !tok_is_sym(&toks[cur], "]")
            invariant
                t == tviews(toks@),
                pos + 1 <= cur <= toks@.len(),
                deg_loop(t, cur as int, mviews(deg@)) == deg_loop(t, pos + 1, Seq::empty()),
            decreases toks@.len() - cur,
        {
            let (a, p2) = parse_atom(toks, cur);
            proof { lemma_mviews_push(deg@, a); }
            deg.push(a);
            cur = p2;
        }
        let p2 = if cur < toks.len() { cur + 1 } else { cur };
        let (rad, p3) = parse_atom(toks, p2);
        let d = flatten(deg);
        (MathNode::Radical(Some(Box::new(d)), Box::new(rad)), p3)
    } else {
        let (rad, p1) = parse_atom(toks, pos);
        (MathNode::Radical(None, Box::new(rad)), p1)
    }
}

/// Read a delimited group after `\left`.
fn parse_left(toks: &Vec<Tok>, pos: usize) -> (r: (MathNode, usize))
    requires
        pos <= toks@.len(),
    ensures
        (mview(r.0), r.1 as int) == p_left(tviews(toks@), pos as int),
        pos <= r.1 <= toks@.len(),
    decreases toks@.len() - pos, 2int,
{
    let ghost t = tviews(toks@);
    let (beg, p1) = take_delim(toks, pos);
    let mut inner: Vec<MathNode> = Vec::new();
    let mut cur: usize = p1;
    proof { assert(mviews(inner@) =~= Seq::<MathView>::empty()); }
    loop
        invariant_except_break
            left_loop(t, cur as int, mviews(inner@)) == left_loop(t, p1 as int, Seq::empty()),
        invariant
            t == tviews(toks@),
            pos <= p1 <= cur <= toks@.len(),
        ensures
            (mviews(inner@), cur as int) == left_loop(t, p1 as int, Seq::empty()),
        decreases toks@.len() - cur,
    {
        if cur >= toks.len() {
            break;
        }
        if tok_is_cmd(&toks[cur], "right") {
            let (_d, q) = take_delim(toks, cur + 1);
            cur = q;
            break;
        }
        let (a, p2) = parse_atom(toks, cur);
        proof { lemma_mviews_push(inner@, a); }
        inner.push(a);
        cur = p2;
    }
    let f = flatten(inner);
    let items = vec![f];
    proof {
        lemma_mviews(items@);
        assert(mviews(items@) =~= seq![mview(f)]);
    }
    (MathNode::Delimiter(beg, to_owned_string(")"), items), cur)
}

/// Read an n-ary operator with symbol `chr`.
fn parse_nary(chr: String, toks: &Vec<Tok>, pos: usize) -> (r: (MathNode, usize))
    requires
        pos <= toks@.len(),
    ensures
        (mview(r.0), r.1 as int) == p_nary(chr@, tviews(toks@), pos as int),
        pos <= r.1 <= toks@.len(),
    decreases toks@.len() - pos, 2int,
{
    let (lo1, hi1, p1) = nary_limit(toks, pos, empty_run_node(), empty_run_node());
    let (lo2, hi2, p2) = nary_limit(toks, p1, lo1, hi1);
    let (body, p3) = parse_atom(toks, p2);
    (MathNode::Nary(chr, Box::new(lo2), Box::new(hi2), Box::new(body)), p3)
}

/// Whether a command names a function.
fn is_func(name: &str) -> (r: bool)
    ensures
        r == is_func_name(name@),
{
    str_eq(name, "sin") || str_eq(name, "cos") || str_eq(name, "tan") || str_eq(name, "log")
        || str_eq(name, "ln") || str_eq(name, "exp") || str_eq(name, "lim")
}

/// The text a symbol command stands for.
fn symbol(name: &str) -> (r: String)
    ensures
        r@ == symbol_of(name@),
{
    if str_eq(name, "cdot") {
        to_owned_string("\u{22C5}")
    } else if str_eq(name, "times") {
        to_owned_string("\u{00D7}")
    } else if str_eq(name, "pm") {
        to_owned_string("\u{00B1}")
    } else if str_eq(name, "leq") || str_eq(name, "le") {
        to_owned_string("\u{2264}")
    } else if str_eq(name, "geq") || str_eq(name, "ge") {
        to_owned_string("\u{2265}")
    } else if str_eq(name, "neq") || str_eq(name, "ne") {
        to_owned_string("\u{2260}")
    } else if str_eq(name, "infty") {
        to_owned_string("\u{221E}")
    } else if str_eq(name, "to") || str_eq(name, "rightarrow") {
        to_owned_string("\u{2192}")
    } else {
        match greek(name) {
            Some(g) => to_owned_string(g),
            None => to_owned_string(name),
        }
    }
}

/// Read a command's node, with its arguments from `pos`.
fn parse_cmd(name: &str, toks: &Vec<Tok>, pos: usize) -> (r: (MathNode, usize))
    requires
        pos <= toks@.len(),
    ensures
        (mview(r.0), r.1 as int) == p_cmd(name@, tviews(toks@), pos as int),
        pos <= r.1 <= toks@.len(),
    decreases toks@.len() - pos, 3int,
{
    if str_eq(name, "frac") {
        let (num, p1) = parse_atom(toks, pos);
        let (den, p2) = parse_atom(toks, p1);
        (MathNode::Fraction(Box::new(num), Box::new(den)), p2)
    } else if str_eq(name, "sqrt") {
        parse_sqrt(toks, pos)
    } else if str_eq(name, "left") {
        parse_left(toks, pos)
    } else if str_eq(name, "sum") {
        parse_nary(to_owned_string("\u{2211}"), toks, pos)
    } else if str_eq(name, "int") {
        parse_nary(to_owned_string("\u{222B}"), toks, pos)
    } else if str_eq(name, "prod") {
        parse_nary(to_owned_string("\u{220F}"), toks, pos)
    } else if str_eq(name, "hat") {
        let (a, p1) = parse_atom(toks, pos);
        (MathNode::Accent(to_owned_string("\u{0302}"), Box::new(a)), p1)
    } else if str_eq(name, "bar") || str_eq(name, "overline") {
        let (a, p1) = parse_atom(toks, pos);
        (MathNode::Accent(to_owned_string("\u{0305}"), Box::new(a)), p1)
    } else if str_eq(name, "vec") {
        let (a, p1) = parse_atom(toks, pos);
        (MathNode::Accent(to_owned_string("\u{20D7}"), Box::new(a)), p1)
    } else if is_func(name) {
        let (a, p1) = parse_atom(toks, pos);
        (MathNode::Func(to_owned_string(name), Box::new(a)), p1)
    } else {
        (MathNode::Run(symbol(name)), pos)
    }
}

/// Read a subset of LaTeX as an equation tree: `\frac`, `^` and `_`
/// scripts, `\sqrt` with an optional degree, `\sum` `\int` `\prod` with
/// limits, `\left ... \right`, accents, functions, Greek letters and
/// operators. Unknown commands stand for their own name; reading never
/// fails.
pub fn from_latex(src: &str) -> (r: MathNode)
    ensures
        mview(r) == latex_tree(src@),
{
    let toks = lex(src);
    let (r, _p) = parse_seq(&toks, 0);
    r
}

/// Whether a command name is one the reader knows: a structure (fraction,
/// root, delimiters, large operators, accents), a function, an operator
/// or relation, or a Greek letter.
pub open spec fn known_command(name: Seq<char>) -> bool {
    ||| name == "frac"@ || name == "sqrt"@ || name == "left"@ || name == "sum"@ || name == "int"@
        || name == "prod"@
    ||| name == "hat"@ || name == "bar"@ || name == "overline"@ || name == "vec"@
    ||| is_func_name(name)
    ||| name == "cdot"@ || name == "times"@ || name == "pm"@ || name == "leq"@ || name == "le"@
        || name == "geq"@ || name == "ge"@ || name == "neq"@ || name == "ne"@ || name == "infty"@
        || name == "to"@ || name == "rightarrow"@
    ||| greek_of(name) is Some
}

/// A run of ASCII letters from `j` to the end ends there.
proof fn lemma_alpha_end_all(s: Seq<char>, j: int)
    requires
        0 <= j <= s.len(),
        forall|k: int| j <= k < s.len() ==> is_ascii_alpha(#[trigger] s[k]),
    ensures
        alpha_end(s, j) == s.len(),
    decreases s.len() - j,
{
    if j < s.len() {
        lemma_alpha_end_all(s, j + 1);
    }
}

/// An unknown command stands for its own name: a source that is `\`
/// followed by ASCII letters naming no command the reader knows reads as
/// a run of that name.
pub proof fn lemma_unknown_command(name: Seq<char>)
    requires
        name.len() > 0,
        forall|k: int| 0 <= k < name.len() ==> is_ascii_alpha(#[trigger] name[k]),
        !known_command(name),
    ensures
        latex_tree(seq!['\\'] + name) == MathView::Run(name),
{
    let s = seq!['\\'] + name;
    assert forall|k: int| 1 <= k < s.len() implies is_ascii_alpha(#[trigger] s[k]) by {
        assert(s[k] == name[k - 1]);
    }
    lemma_alpha_end_all(s, 1);
    assert(s.subrange(1, s.len() as int) =~= name);
    assert(lex_from(s, s.len() as int) =~= Seq::<TokView>::empty());
    let t = lex_from(s, 0);
    assert(t =~= seq![TokView::Cmd(name)]);
    assert(symbol_of(name) == name);
    assert(p_cmd(name, t, 1) == (MathView::Run(name), 1int));
    assert(p_atom(t, 0) == (MathView::Run(name), 1int));
    assert(seq_loop(t, 1, seq![MathView::Run(name)]) == (seq![MathView::Run(name)], 1int));
    assert(Seq::<MathView>::empty().push(MathView::Run(name)) =~= seq![MathView::Run(name)]);
    assert(seq_loop(t, 0, Seq::empty()) == (seq![MathView::Run(name)], 1int));
}

/// A math run: `<m:r><m:t>text</m:t></m:r>`.
pub open spec fn run_xml(s: Seq<char>) -> Seq<u8> {
    element("m:r"@, element("m:t"@, text_bytes(s)))
}

/// The OMML of an equation tree (without an enclosing `m:oMath`).
pub open spec fn omml(v: MathView) -> Seq<u8>
    decreases v,
{
    match v {
        MathView::Run(s) => run_xml(s),
        MathView::Sequence(items) => omml_seq(items),
        MathView::Fraction(a, b) => element(
            "m:f"@,
            element("m:num"@, omml(*a)) + element("m:den"@, omml(*b)),
        ),
        MathView::Sup(a, b) => element(
            "m:sSup"@,
            element("m:e"@, omml(*a)) + element("m:sup"@, omml(*b)),
        ),
        MathView::Sub(a, b) => element(
            "m:sSub"@,
            element("m:e"@, omml(*a)) + element("m:sub"@, omml(*b)),
        ),
        MathView::SubSup(a, b, c) => element(
            "m:sSubSup"@,
            element("m:e"@, omml(*a)) + element("m:sub"@, omml(*b)) + element("m:sup"@, omml(*c)),
        ),
        MathView::Radical(d, r) => element(
            "m:rad"@,
            element(
                "m:radPr"@,
                empty_tag_attr("m:degHide"@, "m:val"@, if d is None { "1"@ } else { "0"@ }),
            ) + match d {
                Some(x) => element("m:deg"@, omml(*x)),
                None => element("m:deg"@, Seq::empty()),
            } + element("m:e"@, omml(*r)),
        ),
        MathView::Nary(c, a, b, e) => element(
            "m:nary"@,
            element("m:naryPr"@, empty_tag_attr("m:chr"@, "m:val"@, c)) + element("m:sub"@, omml(*a))
                + element("m:sup"@, omml(*b)) + element("m:e"@, omml(*e)),
        ),
        MathView::Delimiter(b, e, items) => element(
            "m:d"@,
            element(
                "m:dPr"@,
                empty_tag_attr("m:begChr"@, "m:val"@, b) + empty_tag_attr("m:endChr"@, "m:val"@, e),
            ) + omml_args(items),
        ),
        MathView::Func(name, a) => element(
            "m:func"@,
            element("m:fName"@, run_xml(name)) + element("m:e"@, omml(*a)),
        ),
        MathView::Accent(c, a) => element(
            "m:acc"@,
            element("m:accPr"@, empty_tag_attr("m:chr"@, "m:val"@, c)) + element("m:e"@, omml(*a)),
        ),
        MathView::Matrix(rows) => element("m:m"@, omml_rows(rows)),
        MathView::Bar(a) => element(
            "m:bar"@,
            element("m:barPr"@, empty_tag_attr("m:pos"@, "m:val"@, "top"@)) + element("m:e"@, omml(*a)),
        ),
    }
}

/// The OMML of trees one after another.
pub open spec fn omml_seq(s: Seq<MathView>) -> Seq<u8>
    decreases s,
{
    if s.len() == 0 {
        Seq::empty()
    } else {
        omml_seq(s.drop_last()) + omml(s.last())
    }
}

/// Each tree in its own `m:e`.
pub open spec fn omml_args(s: Seq<MathView>) -> Seq<u8>
    decreases s,
{
    if s.len() == 0 {
        Seq::empty()
    } else {
        omml_args(s.drop_last()) + element("m:e"@, omml(s.last()))
    }
}

/// Each row in an `m:mr`, its cells each in an `m:e`.
pub open spec fn omml_rows(rows: Seq<Seq<MathView>>) -> Seq<u8>
    decreases rows,
{
    if rows.len() == 0 {
        Seq::empty()
    } else {
        omml_rows(rows.drop_last()) + element("m:mr"@, omml_args(rows.last()))
    }
}

/// The namespace of Office math.
pub open spec fn m_ns() -> Seq<char> {
    crate::namespace::M_NS@
}

/// A standalone `m:oMathPara` holding one `m:oMath`, with the math
/// namespace declared on the outer element.
pub open spec fn omath_para(v: MathView) -> Seq<u8> {
    start_tag_attr("m:oMathPara"@, "xmlns:m"@, m_ns()) + element("m:oMath"@, omml(v))
        + end_tag("m:oMathPara"@)
}

/// The values of the first `i` trees, then one more.
proof fn lemma_mviews_take(s: Seq<MathNode>, i: int)
    requires
        0 <= i < s.len(),
    ensures
        mviews(s.take(i + 1)) == mviews(s.take(i)).push(mview(s[i])),
{
    assert(s.take(i + 1) =~= s.take(i).push(s[i]));
    lemma_mviews_push(s.take(i), s[i]);
}

/// Append a math run.
fn write_run(out: &mut Vec<u8>, s: &str)
    ensures
        final(out)@ == old(out)@ + run_xml(s@),
{
    let ghost o = out@;
    emit_start(out, "m:r");
    emit_start(out, "m:t");
    emit_text(out, s);
    emit_end(out, "m:t");
    emit_end(out, "m:r");
    proof {
        assert(out@ =~= o + run_xml(s@));
    }
}

/// Append one child tree in an element named `tag`.
fn write_arg(out: &mut Vec<u8>, tag: &str, node: &MathNode)
    ensures
        final(out)@ == old(out)@ + element(tag@, omml(mview(*node))),
    decreases node, 2int,
{
    let ghost o = out@;
    emit_start(out, tag);
    node.write(out);
    emit_end(out, tag);
    proof {
        assert(out@ =~= o + element(tag@, omml(mview(*node))));
    }
}

/// Append each tree of `items` in its own `m:e`.
fn write_args(out: &mut Vec<u8>, items: &Vec<MathNode>)
    ensures
        final(out)@ == old(out)@ + omml_args(mviews(items@)),
    decreases items, 2int,
{
    let ghost o = out@;
    let mut i: usize = 0;
    proof { assert(items@.take(0) =~= Seq::<MathNode>::empty()); }
    while i < items.len()
        invariant
            i <= items@.len(),
            out@ == o + omml_args(mviews(items@.take(i as int))),
        decreases items@.len() - i,
    {
        write_arg(out, "m:e", &items[i]);
        proof {
            lemma_mviews_take(items@, i as int);
            assert(mviews(items@.take(i + 1)).drop_last() =~= mviews(items@.take(i as int)));
            assert(out@ =~= o + omml_args(mviews(items@.take(i + 1))));
        }
        i = i + 1;
    }
    proof { assert(items@.take(i as int) =~= items@); }
}

/// Append trees one after another.
fn write_seq(out: &mut Vec<u8>, items: &Vec<MathNode>)
    ensures
        final(out)@ == old(out)@ + omml_seq(mviews(items@)),
    decreases items, 2int,
{
    let ghost o = out@;
    let mut i: usize = 0;
    proof { assert(items@.take(0) =~= Seq::<MathNode>::empty()); }
    while i < items.len()
        invariant
            i <= items@.len(),
            out@ == o + omml_seq(mviews(items@.take(i as int))),
        decreases items@.len() - i,
    {
        items[i].write(out);
        proof {
            lemma_mviews_take(items@, i as int);
            assert(mviews(items@.take(i + 1)).drop_last() =~= mviews(items@.take(i as int)));
            assert(out@ =~= o + omml_seq(mviews(items@.take(i + 1))));
        }
        i = i + 1;
    }
    proof { assert(items@.take(i as int) =~= items@); }
}

/// Append matrix rows, each in an `m:mr`.
fn write_rows(out: &mut Vec<u8>, rows: &Vec<Vec<MathNode>>)
    ensures
        final(out)@ == old(out)@ + omml_rows(mrows(rows@)),
    decreases rows, 3int,
{
    let ghost o = out@;
    let mut i: usize = 0;
    proof { assert(rows@.take(0) =~= Seq::<Vec<MathNode>>::empty()); }
    while i < rows.len()
        invariant
            i <= rows@.len(),
            out@ == o + omml_rows(mrows(rows@.take(i as int))),
        decreases rows@.len() - i,
    {
        emit_start(out, "m:mr");
        write_args(out, &rows[i]);
        emit_end(out, "m:mr");
        proof {
            assert(rows@.take(i + 1).drop_last() =~= rows@.take(i as int));
            assert(mrows(rows@.take(i + 1)).drop_last() =~= mrows(rows@.take(i as int)));
            assert(out@ =~= o + omml_rows(mrows(rows@.take(i + 1))));
        }
        i = i + 1;
    }
    proof { assert(rows@.take(i as int) =~= rows@); }
}

/// Append a fraction or a scripted base.
fn write_scripts(out: &mut Vec<u8>, node: &MathNode)
    requires
        mview(*node) is Fraction || mview(*node) is Sup || mview(*node) is Sub || mview(*node) is SubSup,
    ensures
        final(out)@ == old(out)@ + omml(mview(*node)),
    decreases node, 0int,
{
    let ghost o = out@;
    match node {
        MathNode::Fraction(a, b) => {
                emit_start(out, "m:f");
                write_arg(out, "m:num", a);
                write_arg(out, "m:den", b);
                emit_end(out, "m:f");
                proof { assert(out@ =~= o + omml(mview(*node))); }
        },
        MathNode::Sup(a, b) => {
                emit_start(out, "m:sSup");
                write_arg(out, "m:e", a);
                write_arg(out, "m:sup", b);
                emit_end(out, "m:sSup");
                proof { assert(out@ =~= o + omml(mview(*node))); }
        },
        MathNode::Sub(a, b) => {
                emit_start(out, "m:sSub");
                write_arg(out, "m:e", a);
                write_arg(out, "m:sub", b);
                emit_end(out, "m:sSub");
                proof { assert(out@ =~= o + omml(mview(*node))); }
        },
        MathNode::SubSup(a, b, c) => {
                emit_start(out, "m:sSubSup");
                write_arg(out, "m:e", a);
                write_arg(out, "m:sub", b);
                write_arg(out, "m:sup", c);
                emit_end(out, "m:sSubSup");
                proof { assert(out@ =~= o + omml(mview(*node))); }
        },
        _ => {},
    }
}

/// Append a root or an n-ary operator.
fn write_radical_nary(out: &mut Vec<u8>, node: &MathNode)
    requires
        mview(*node) is Radical || mview(*node) is Nary,
    ensures
        final(out)@ == old(out)@ + omml(mview(*node)),
    decreases node, 0int,
{
    let ghost o = out@;
    match node {
        MathNode::Radical(d, r) => {
                emit_start(out, "m:rad");
                emit_start(out, "m:radPr");
                emit_empty_attr(out, "m:degHide", "m:val", if d.is_none() { "1" } else { "0" });
                emit_end(out, "m:radPr");
                match d {
                    Some(x) => write_arg(out, "m:deg", x),
                    None => {
                        emit_start(out, "m:deg");
                        emit_end(out, "m:deg");
                    },
                }
                write_arg(out, "m:e", r);
                emit_end(out, "m:rad");
                proof { assert(out@ =~= o + omml(mview(*node))); }
        },
        MathNode::Nary(c, a, b, e) => {
                emit_start(out, "m:nary");
                emit_start(out, "m:naryPr");
                emit_empty_attr(out, "m:chr", "m:val", c.as_str());
                emit_end(out, "m:naryPr");
                write_arg(out, "m:sub", a);
                write_arg(out, "m:sup", b);
                write_arg(out, "m:e", e);
                emit_end(out, "m:nary");
                proof { assert(out@ =~= o + omml(mview(*node))); }
        },
        _ => {},
    }
}

/// Append a delimited group, a function or a matrix.
fn write_grouped(out: &mut Vec<u8>, node: &MathNode)
    requires
        mview(*node) is Delimiter || mview(*node) is Func || mview(*node) is Matrix,
    ensures
        final(out)@ == old(out)@ + omml(mview(*node)),
    decreases node, 0int,
{
    let ghost o = out@;
    match node {
        MathNode::Delimiter(b, e, items) => {
                emit_start(out, "m:d");
                emit_start(out, "m:dPr");
                emit_empty_attr(out, "m:begChr", "m:val", b.as_str());
                emit_empty_attr(out, "m:endChr", "m:val", e.as_str());
                emit_end(out, "m:dPr");
                write_args(out, items);
                emit_end(out, "m:d");
                proof { assert(out@ =~= o + omml(mview(*node))); }
        },
        MathNode::Func(name, a) => {
                emit_start(out, "m:func");
                emit_start(out, "m:fName");
                write_run(out, name.as_str());
                emit_end(out, "m:fName");
                write_arg(out, "m:e", a);
                emit_end(out, "m:func");
                proof { assert(out@ =~= o + omml(mview(*node))); }
        },
        MathNode::Matrix(rows) => {
                emit_start(out, "m:m");
                write_rows(out, rows);
                emit_end(out, "m:m");
                proof { assert(out@ =~= o + omml(mview(*node))); }
        },
        _ => {},
    }
}

/// Append an accent or an overbar.
fn write_accent_bar(out: &mut Vec<u8>, node: &MathNode)
    requires
        mview(*node) is Accent || mview(*node) is Bar,
    ensures
        final(out)@ == old(out)@ + omml(mview(*node)),
    decreases node, 0int,
{
    let ghost o = out@;
    match node {
        MathNode::Accent(c, a) => {
                emit_start(out, "m:acc");
                emit_start(out, "m:accPr");
                emit_empty_attr(out, "m:chr", "m:val", c.as_str());
                emit_end(out, "m:accPr");
                write_arg(out, "m:e", a);
                emit_end(out, "m:acc");
                proof { assert(out@ =~= o + omml(mview(*node))); }
        },
        MathNode::Bar(a) => {
                emit_start(out, "m:bar");
                emit_start(out, "m:barPr");
                emit_empty_attr(out, "m:pos", "m:val", "top");
                emit_end(out, "m:barPr");
                write_arg(out, "m:e", a);
                emit_end(out, "m:bar");
                proof { assert(out@ =~= o + omml(mview(*node))); }
        },
        _ => {},
    }
}

impl MathNode {
    /// Append the node's OMML (without an enclosing `m:oMath`).
    pub fn write(&self, out: &mut Vec<u8>)
        ensures
            final(out)@ == old(out)@ + omml(mview(*self)),
        decreases self, 1int,
    {
        match self {
            MathNode::Run(s) => write_run(out, s.as_str()),
            MathNode::Sequence(items) => write_seq(out, items),
            MathNode::Fraction(..) | MathNode::Sup(..) | MathNode::Sub(..) | MathNode::SubSup(..) => {
                write_scripts(out, self)
            },
            MathNode::Radical(..) | MathNode::Nary(..) => write_radical_nary(out, self),
            MathNode::Delimiter(..) | MathNode::Func(..) | MathNode::Matrix(..) => write_grouped(out, self),
            MathNode::Accent(..) | MathNode::Bar(..) => write_accent_bar(out, self),
        }
    }

    /// The node as a standalone `m:oMathPara` block, the math namespace
    /// declared on it, so that it stands on its own outside a document.
    pub fn to_omath_para_bytes(&self) -> (r: Result<Vec<u8>, crate::error::OxmlError>)
        ensures
            r matches Ok(b) && b@ == omath_para(mview(*self)),
    {
        let mut out: Vec<u8> = Vec::new();
        emit_start_attr(&mut out, "m:oMathPara", "xmlns:m", crate::namespace::M_NS);
        emit_start(&mut out, "m:oMath");
        self.write(&mut out);
        emit_end(&mut out, "m:oMath");
        emit_end(&mut out, "m:oMathPara");
        proof { assert(out@ =~= omath_para(mview(*self))); }
        Ok(out)
    }
}

} // verus!
