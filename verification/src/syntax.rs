//! Syntax highlighting of Rust source lines for code blocks: a line is cut
//! into tokens (comments, string literals, attributes, words and single
//! characters), each word classified as keyword, type name, number or plain
//! text, and each kind given its colour.
use vstd::prelude::*;

use crate::chars::{is_whitespace, str_chars, str_eq, string_from_chars, text_start, to_owned_string, whitespace};

verus! {

/// What a token of a code line is.
#[derive(Debug, Clone, Copy, PartialEq, Eq, Structural)]
pub enum TokenKind {
    Keyword,
    String,
    Comment,
    Function,
    Type,
    Number,
    Macro,
    Plain,
}

/// Whether `char::is_alphanumeric` holds of `c`.
pub uninterp spec fn alphanumeric(c: char) -> bool;

/// Whether `char::is_uppercase` holds of `c`.
pub uninterp spec fn uppercase(c: char) -> bool;

/// `char::is_alphanumeric`: the Unicode Alphabetic or Numeric property;
/// its value is named, not stated.
#[verifier::external_body]
fn is_alphanumeric(c: char) -> (r: bool)
    ensures
        r == alphanumeric(c),
{
    c.is_alphanumeric()
}

/// `char::is_uppercase`: the Unicode Uppercase property; its value is
/// named, not stated.
#[verifier::external_body]
fn is_uppercase(c: char) -> (r: bool)
    ensures
        r == uppercase(c),
{
    c.is_uppercase()
}

/// The words highlighted as keywords.
pub open spec fn rust_keywords() -> Seq<Seq<char>> {
    seq![
        "use"@, "fn"@, "let"@, "mut"@, "pub"@, "struct"@, "impl"@, "async"@, "await"@,
        "match"@, "if"@, "else"@, "for"@, "in"@, "return"@, "self"@, "Self"@, "crate"@, "mod"@,
        "true"@, "false"@, "Ok"@, "Err"@, "Some"@, "None"@, "where"@, "trait"@, "enum"@, "type"@,
    ]
}

/// Whether `c` is an ASCII decimal digit.
pub open spec fn ascii_digit(c: char) -> bool {
    '0' <= c && c <= '9'
}

/// The kind of a word: a keyword if listed, a type name if it starts with
/// an uppercase letter, a number if it is made of digits and dots only,
/// plain text otherwise.
pub open spec fn word_kind(w: Seq<char>, keywords: Seq<Seq<char>>) -> TokenKind {
    if keywords.contains(w) {
        TokenKind::Keyword
    } else if w.len() > 0 && uppercase(w[0]) {
        TokenKind::Type
    } else if forall|k: int| 0 <= k < w.len() ==> ascii_digit(#[trigger] w[k]) || w[k] == '.' {
        TokenKind::Number
    } else {
        TokenKind::Plain
    }
}

/// Classify a word against a list of keywords.
pub fn classify_word(word: &str, keywords: &[&str]) -> (r: TokenKind)
    ensures
        r == word_kind(word@, keywords@.map_values(|k: &str| k@)),
{
    let ghost kws = keywords@.map_values(|k: &str| k@);
    let mut i: usize = 0;
    while i < keywords.len()
        invariant
            i <= keywords@.len(),
            kws == keywords@.map_values(|k: &str| k@),
            forall|k: int| 0 <= k < i ==> kws[k] != word@,
        decreases keywords@.len() - i,
    {
        if str_eq(keywords[i], word) {
            proof { assert(kws[i as int] == word@); }
            return TokenKind::Keyword;
        }
        i = i + 1;
    }
    proof {
        assert(!kws.contains(word@)) by {
            if kws.contains(word@) {
                let k = choose|k: int| 0 <= k < kws.len() && kws[k] == word@;
                assert(kws[k] != word@);
            }
        }
    }
    let cs = str_chars(word);
    if cs.len() > 0 && is_uppercase(cs[0]) {
        return TokenKind::Type;
    }
    let mut j: usize = 0;
    while j < cs.len()
        invariant
            j <= cs@.len(),
            cs@ == word@,
            kws == keywords@.map_values(|k: &str| k@),
            !kws.contains(word@),
            !(word@.len() > 0 && uppercase(word@[0])),
            forall|k: int| 0 <= k < j ==> ascii_digit(#[trigger] cs@[k]) || cs@[k] == '.',
        decreases cs@.len() - j,
    {
        let c = cs[j];
        if !(('0' <= c && c <= '9') || c == '.') {
            proof { assert(!(ascii_digit(cs@[j as int]) || cs@[j as int] == '.')); }
            return TokenKind::Plain;
        }
        j = j + 1;
    }
    TokenKind::Number
}

/// The colour of a token kind as a hex RGB string; plain text has none.
pub open spec fn kind_color(kind: TokenKind) -> Option<Seq<char>> {
    match kind {
        TokenKind::Keyword => Some("0000FF"@),
        TokenKind::String => Some("A31515"@),
        TokenKind::Comment => Some("008000"@),
        TokenKind::Function => Some("795E26"@),
        TokenKind::Type => Some("267F99"@),
        TokenKind::Number => Some("098658"@),
        TokenKind::Macro => Some("AF00DB"@),
        TokenKind::Plain => None,
    }
}

/// The colour of a token kind.
pub fn token_color(kind: &TokenKind) -> (r: Option<&'static str>)
    ensures
        match r {
            Some(c) => kind_color(*kind) == Some(c@),
            None => kind_color(*kind) is None,
        },
{
    match kind {
        TokenKind::Keyword => Some("0000FF"),
        TokenKind::String => Some("A31515"),
        TokenKind::Comment => Some("008000"),
        TokenKind::Function => Some("795E26"),
        TokenKind::Type => Some("267F99"),
        TokenKind::Number => Some("098658"),
        TokenKind::Macro => Some("AF00DB"),
        TokenKind::Plain => None,
    }
}

/// Where a string literal opened before `j` closes: just after the first
/// `"` at or after `j` that does not follow a backslash, or at the end of
/// the line.
pub open spec fn string_close(s: Seq<char>, j: int) -> int
    decreases s.len() - j,
{
    if j >= s.len() {
        s.len() as int
    } else if s[j] == '"' && !(j >= 1 && s[j - 1] == '\\') {
        j + 1
    } else {
        string_close(s, j + 1)
    }
}

/// Where an attribute starting at `j` ends: just after the first `]` at or
/// after `j`, or at the end of the line.
pub open spec fn bracket_close(s: Seq<char>, j: int) -> int
    decreases s.len() - j,
{
    if j >= s.len() {
        s.len() as int
    } else if s[j] == ']' {
        j + 1
    } else {
        bracket_close(s, j + 1)
    }
}

pub proof fn lemma_string_close(s: Seq<char>, j: int)
    requires
        j <= s.len(),
    ensures
        j <= string_close(s, j) <= s.len(),
    decreases s.len() - j,
{
    if j < s.len() {
        lemma_string_close(s, j + 1);
    }
}

pub proof fn lemma_bracket_close(s: Seq<char>, j: int)
    requires
        j <= s.len(),
    ensures
        j <= bracket_close(s, j) <= s.len(),
    decreases s.len() - j,
{
    if j < s.len() {
        lemma_bracket_close(s, j + 1);
    }
}

/// The token of a collected word, if any.
pub open spec fn word_token(w: Seq<char>, keywords: Seq<Seq<char>>) -> Seq<(TokenKind, Seq<char>)> {
    if w.len() == 0 {
        seq![]
    } else {
        seq![(word_kind(w, keywords), w)]
    }
}

/// Whether `c` continues a word.
pub open spec fn word_char(c: char) -> bool {
    alphanumeric(c) || c == '_'
}

/// The tokens of `s` from position `i`, with the word `cur` collected
/// before it: a `"` opens a string literal, a `#` an attribute up to its
/// `]`, letters, digits and `_` extend the word, and any other character
/// is a plain token of its own; a word ends at the first character that
/// does not extend it.
pub open spec fn code_tokens(s: Seq<char>, i: int, cur: Seq<char>, keywords: Seq<Seq<char>>) -> Seq<
    (TokenKind, Seq<char>),
>
    decreases s.len() - i,
{
    if i < 0 || i >= s.len() {
        word_token(cur, keywords)
    } else if s[i] == '"' {
        let e = string_close(s, i + 1);
        proof { lemma_string_close(s, i + 1); }
        word_token(cur, keywords) + seq![(TokenKind::String, s.subrange(i, e))] + code_tokens(
            s,
            e,
            seq![],
            keywords,
        )
    } else if s[i] == '#' {
        let e = bracket_close(s, i);
        proof { lemma_bracket_close(s, i + 1); }
        word_token(cur, keywords) + seq![(TokenKind::Macro, s.subrange(i, e))] + code_tokens(
            s,
            e,
            seq![],
            keywords,
        )
    } else if word_char(s[i]) {
        code_tokens(s, i + 1, cur.push(s[i]), keywords)
    } else {
        word_token(cur, keywords) + seq![(TokenKind::Plain, seq![s[i]])] + code_tokens(
            s,
            i + 1,
            seq![],
            keywords,
        )
    }
}

/// Whether the line, past its leading whitespace, starts with `//`.
pub open spec fn is_comment_line(s: Seq<char>) -> bool {
    let k = text_start(s, 0);
    k + 2 <= s.len() && s[k] == '/' && s[k + 1] == '/'
}



/// The tokens of a line of Rust: the whole line as one comment if it is
/// one, else its tokens from the start.
pub open spec fn rust_line_tokens(s: Seq<char>) -> Seq<(TokenKind, Seq<char>)> {
    if is_comment_line(s) {
        seq![(TokenKind::Comment, s)]
    } else {
        code_tokens(s, 0, seq![], rust_keywords())
    }
}

/// The tokens with their text as character sequences.
pub open spec fn tokens_view(v: Seq<(TokenKind, String)>) -> Seq<(TokenKind, Seq<char>)> {
    v.map_values(|t: (TokenKind, String)| (t.0, t.1@))
}

/// Whether the line is a comment: skip leading whitespace, then look for
/// `//`.
fn comment_line(cs: &Vec<char>) -> (r: bool)
    ensures
        r == is_comment_line(cs@),
{
    let n = cs.len();
    let mut k: usize = 0;
    while k < n && is_whitespace(cs[k])
        invariant
            k <= n,
            n == cs@.len(),
            text_start(cs@, k as int) == text_start(cs@, 0),
        decreases n - k,
    {
        k = k + 1;
    }
    n >= 2 && k <= n - 2 && cs[k] == '/' && cs[k + 1] == '/'
}

/// Append the token of the word `cs[ws..i]`, if it is not empty.
fn flush_word(tokens: &mut Vec<(TokenKind, String)>, cs: &Vec<char>, ws: usize, i: usize, keywords: &[&str])
    requires
        ws <= i <= cs@.len(),
    ensures
        tokens_view(final(tokens)@) == tokens_view(old(tokens)@) + word_token(
            cs@.subrange(ws as int, i as int),
            keywords@.map_values(|k: &str| k@),
        ),
{
    if ws < i {
        let part = chars_between(cs, ws, i);
        let w = string_from_chars(part.as_slice());
        let kind = classify_word(w.as_str(), keywords);
        let ghost before = tokens_view(tokens@);
        tokens.push((kind, w));
        proof {
            assert(tokens_view(tokens@) =~= before.push((kind, cs@.subrange(ws as int, i as int))));
        }
    } else {
        proof {
            assert(tokens_view(tokens@) =~= tokens_view(tokens@) + Seq::<(TokenKind, Seq<char>)>::empty());
        }
    }
}

/// The characters `cs[a..b]`.
fn chars_between(cs: &Vec<char>, a: usize, b: usize) -> (r: Vec<char>)
    requires
        a <= b <= cs@.len(),
    ensures
        r@ == cs@.subrange(a as int, b as int),
{
    let mut r: Vec<char> = Vec::new();
    let mut k: usize = a;
    while k < b
        invariant
            a <= k <= b <= cs@.len(),
            r@ == cs@.subrange(a as int, k as int),
        decreases b - k,
    {
        r.push(cs[k]);
        proof { assert(r@ =~= cs@.subrange(a as int, k + 1)); }
        k = k + 1;
    }
    r
}

/// Where the string literal opened at `i` closes.
fn string_close_at(cs: &Vec<char>, i: usize) -> (r: usize)
    requires
        i < cs@.len(),
    ensures
        r == string_close(cs@, i + 1),
{
    let n = cs.len();
    let mut j: usize = i + 1;
    while j < n
        invariant
            n == cs@.len(),
            i + 1 <= j <= cs@.len(),
            string_close(cs@, j as int) == string_close(cs@, i + 1),
        decreases cs@.len() - j,
    {
        if cs[j] == '"' && cs[j - 1] != '\\' {
            return j + 1;
        }
        j = j + 1;
    }
    j
}

/// Where the attribute starting at `i` ends.
fn bracket_close_at(cs: &Vec<char>, i: usize) -> (r: usize)
    requires
        i < cs@.len(),
    ensures
        r == bracket_close(cs@, i as int),
{
    let mut j: usize = i;
    while j < cs.len()
        invariant
            i <= j <= cs@.len(),
            bracket_close(cs@, j as int) == bracket_close(cs@, i as int),
        decreases cs@.len() - j,
    {
        if cs[j] == ']' {
            return j + 1;
        }
        j = j + 1;
    }
    j
}

/// Cut a line of Rust into highlighted tokens: a comment line is one
/// comment token; otherwise string literals, attributes (`#` up to `]`),
/// words (classified as keyword, type, number or plain) and single other
/// characters, in order.
pub fn tokenize_rust(line: &str) -> (r: Vec<(TokenKind, String)>)
    ensures
        tokens_view(r@) == rust_line_tokens(line@),
{
    let cs = str_chars(line);
    if comment_line(&cs) {
        let mut v: Vec<(TokenKind, String)> = Vec::new();
        v.push((TokenKind::Comment, to_owned_string(line)));
        proof { assert(tokens_view(v@) =~= seq![(TokenKind::Comment, line@)]); }
        return v;
    }
    let keywords = [
        "use", "fn", "let", "mut", "pub", "struct", "impl", "async", "await",
        "match", "if", "else", "for", "in", "return", "self", "Self", "crate", "mod",
        "true", "false", "Ok", "Err", "Some", "None", "where", "trait", "enum", "type",
    ];
    let kw: &[&str] = &keywords;
    proof { assert(kw@.map_values(|k: &str| k@) =~= rust_keywords()); }
    let ghost s = cs@;
    let mut tokens: Vec<(TokenKind, String)> = Vec::new();
    let mut ws: usize = 0;
    let mut i: usize = 0;
    proof {
        assert(s.subrange(0, 0) =~= Seq::<char>::empty());
        assert(tokens_view(tokens@) =~= Seq::<(TokenKind, Seq<char>)>::empty());
    }
    while i < cs.len()
        invariant
            s == cs@,
            s == line@,
            ws <= i <= s.len(),
            kw@.map_values(|k: &str| k@) == rust_keywords(),
            tokens_view(tokens@) + code_tokens(s, i as int, s.subrange(ws as int, i as int), rust_keywords())
                == code_tokens(s, 0, seq![], rust_keywords()),
        decreases s.len() - i,
    {
        let ch = cs[i];
        let ghost cur = s.subrange(ws as int, i as int);
        let ghost before = tokens_view(tokens@);
        if ch == '"' {
            flush_word(&mut tokens, &cs, ws, i, kw);
            let e = string_close_at(&cs, i);
            proof { lemma_string_close(s, i + 1); }
            let lit = chars_between(&cs, i, e);
            let ghost mid = tokens_view(tokens@);
            tokens.push((TokenKind::String, string_from_chars(lit.as_slice())));
            proof {
                assert(tokens_view(tokens@) =~= mid.push((TokenKind::String, s.subrange(i as int, e as int))));
                assert(s.subrange(e as int, e as int) =~= Seq::<char>::empty());
                assert(tokens_view(tokens@) + code_tokens(s, e as int, seq![], rust_keywords()) =~= before
                    + code_tokens(s, i as int, cur, rust_keywords()));
            }
            i = e;
            ws = e;
        } else if ch == '#' {
            flush_word(&mut tokens, &cs, ws, i, kw);
            let e = bracket_close_at(&cs, i);
            proof { lemma_bracket_close(s, i as int); }
            let lit = chars_between(&cs, i, e);
            let ghost mid = tokens_view(tokens@);
            tokens.push((TokenKind::Macro, string_from_chars(lit.as_slice())));
            proof {
                assert(tokens_view(tokens@) =~= mid.push((TokenKind::Macro, s.subrange(i as int, e as int))));
                assert(s.subrange(e as int, e as int) =~= Seq::<char>::empty());
                assert(tokens_view(tokens@) + code_tokens(s, e as int, seq![], rust_keywords()) =~= before
                    + code_tokens(s, i as int, cur, rust_keywords()));
            }
            i = e;
            ws = e;
        } else if is_alphanumeric(ch) || ch == '_' {
            proof { assert(s.subrange(ws as int, i + 1) =~= cur.push(ch)); }
            i = i + 1;
        } else {
            flush_word(&mut tokens, &cs, ws, i, kw);
            let mut one = String::new();
            crate::chars::push_char(&mut one, ch);
            let ghost mid = tokens_view(tokens@);
            tokens.push((TokenKind::Plain, one));
            proof {
                assert(tokens_view(tokens@) =~= mid.push((TokenKind::Plain, seq![ch])));
                assert(s.subrange(i + 1, i + 1) =~= Seq::<char>::empty());
                assert(tokens_view(tokens@) + code_tokens(s, i + 1, seq![], rust_keywords()) =~= before
                    + code_tokens(s, i as int, cur, rust_keywords()));
            }
            i = i + 1;
            ws = i;
        }
    }
    let ghost before = tokens_view(tokens@);
    flush_word(&mut tokens, &cs, ws, i, kw);
    proof {
        assert(tokens_view(tokens@) =~= before + code_tokens(s, i as int, s.subrange(ws as int, i as int), rust_keywords()));
    }
    tokens
}


/// The words Rust highlighting treats as keywords.
pub open spec fn is_rust_keyword(k: Seq<char>) -> bool {
    ||| k == "use"@ || k == "fn"@ || k == "let"@ || k == "mut"@ || k == "pub"@ || k == "struct"@
    ||| k == "impl"@ || k == "async"@ || k == "await"@ || k == "match"@ || k == "if"@ || k == "else"@
    ||| k == "for"@ || k == "in"@ || k == "return"@ || k == "self"@ || k == "Self"@ || k == "crate"@
    ||| k == "mod"@ || k == "true"@ || k == "false"@ || k == "Ok"@ || k == "Err"@ || k == "Some"@
    ||| k == "None"@ || k == "where"@ || k == "trait"@ || k == "enum"@ || k == "type"@
}

/// Each of those words is classified as a keyword.
pub proof fn lemma_keywords_classified(k: Seq<char>)
    requires
        is_rust_keyword(k),
    ensures
        word_kind(k, rust_keywords()) == TokenKind::Keyword,
{
    let kw = rust_keywords();
    let i: int = choose|i: int| 0 <= i < kw.len() && kw[i] == k;
    assert(kw.contains(k)) by {
        if k == "use"@ { assert(kw[0] == k); }
        else if k == "fn"@ { assert(kw[1] == k); }
        else if k == "let"@ { assert(kw[2] == k); }
        else if k == "mut"@ { assert(kw[3] == k); }
        else if k == "pub"@ { assert(kw[4] == k); }
        else if k == "struct"@ { assert(kw[5] == k); }
        else if k == "impl"@ { assert(kw[6] == k); }
        else if k == "async"@ { assert(kw[7] == k); }
        else if k == "await"@ { assert(kw[8] == k); }
        else if k == "match"@ { assert(kw[9] == k); }
        else if k == "if"@ { assert(kw[10] == k); }
        else if k == "else"@ { assert(kw[11] == k); }
        else if k == "for"@ { assert(kw[12] == k); }
        else if k == "in"@ { assert(kw[13] == k); }
        else if k == "return"@ { assert(kw[14] == k); }
        else if k == "self"@ { assert(kw[15] == k); }
        else if k == "Self"@ { assert(kw[16] == k); }
        else if k == "crate"@ { assert(kw[17] == k); }
        else if k == "mod"@ { assert(kw[18] == k); }
        else if k == "true"@ { assert(kw[19] == k); }
        else if k == "false"@ { assert(kw[20] == k); }
        else if k == "Ok"@ { assert(kw[21] == k); }
        else if k == "Err"@ { assert(kw[22] == k); }
        else if k == "Some"@ { assert(kw[23] == k); }
        else if k == "None"@ { assert(kw[24] == k); }
        else if k == "where"@ { assert(kw[25] == k); }
        else if k == "trait"@ { assert(kw[26] == k); }
        else if k == "enum"@ { assert(kw[27] == k); }
        else { assert(kw[28] == k); }
    }
}

/// Collecting the characters of a word from `j` on, up to its end.
proof fn lemma_word_collected(s: Seq<char>, k: Seq<char>, j: int)
    requires
        0 <= j <= k.len() <= s.len(),
        s.subrange(0, k.len() as int) == k,
        forall|m: int| 0 <= m < k.len() ==> word_char(#[trigger] k[m]) && k[m] != '"' && k[m] != '#',
    ensures
        code_tokens(s, j, k.take(j), rust_keywords()) == code_tokens(s, k.len() as int, k, rust_keywords()),
    decreases k.len() - j,
{
    if j < k.len() {
        assert(s[j] == k[j]);
        assert(k.take(j).push(k[j]) =~= k.take(j + 1));
        lemma_word_collected(s, k, j + 1);
    } else {
        assert(k.take(j) =~= k);
    }
}

/// A keyword at the start of a line of code, as a whole word, is its first
/// token, highlighted as a keyword.
pub proof fn lemma_leading_keyword(k: Seq<char>, rest: Seq<char>)
    requires
        is_rust_keyword(k),
        forall|m: int| 0 <= m < k.len() ==> word_char(#[trigger] k[m]) && k[m] != '"' && k[m] != '#',
        rest.len() == 0 || !word_char(rest[0]),
        !is_comment_line(k + rest),
    ensures
        rust_line_tokens(k + rest).len() > 0,
        rust_line_tokens(k + rest)[0] == (TokenKind::Keyword, k),
{
    let s = k + rest;
    lemma_keywords_classified(k);
    assert(k.len() > 0) by {
        reveal_strlit("use"); reveal_strlit("fn"); reveal_strlit("let"); reveal_strlit("mut");
        reveal_strlit("pub"); reveal_strlit("struct"); reveal_strlit("impl"); reveal_strlit("async");
        reveal_strlit("await"); reveal_strlit("match"); reveal_strlit("if"); reveal_strlit("else");
        reveal_strlit("for"); reveal_strlit("in"); reveal_strlit("return"); reveal_strlit("self");
        reveal_strlit("Self"); reveal_strlit("crate"); reveal_strlit("mod"); reveal_strlit("true");
        reveal_strlit("false"); reveal_strlit("Ok"); reveal_strlit("Err"); reveal_strlit("Some");
        reveal_strlit("None"); reveal_strlit("where"); reveal_strlit("trait"); reveal_strlit("enum");
        reveal_strlit("type");
    }
    assert(s.subrange(0, k.len() as int) =~= k);
    lemma_word_collected(s, k, 0);
    assert(k.take(0) =~= Seq::<char>::empty());
    let n = k.len() as int;
    if n < s.len() {
        assert(s[n] == rest[0]);
    }
    assert(word_token(k, rust_keywords()) == seq![(TokenKind::Keyword, k)]);
}

} // verus!
