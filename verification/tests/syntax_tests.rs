use docxkit::syntax::TokenKind::{Keyword, Macro, Number, Plain, Type};
use docxkit::syntax::{classify_word, token_color, tokenize_rust, TokenKind};

fn toks(v: &[(TokenKind, &str)]) -> Vec<(TokenKind, String)> {
    v.iter().map(|(k, s)| (*k, s.to_string())).collect()
}

#[test]
fn tokenize_let_statement() {
    assert_eq!(
        tokenize_rust("let x = 5;"),
        toks(&[
            (Keyword, "let"),
            (Plain, " "),
            (Plain, "x"),
            (Plain, " "),
            (Plain, "="),
            (Plain, " "),
            (Number, "5"),
            (Plain, ";"),
        ])
    );
}

#[test]
fn tokenize_comment_line() {
    assert_eq!(tokenize_rust("    // note"), toks(&[(TokenKind::Comment, "    // note")]));
}

#[test]
fn tokenize_string_with_escaped_quote() {
    assert_eq!(
        tokenize_rust("f(\"a\\\"b\");"),
        toks(&[(Plain, "f"), (Plain, "("), (TokenKind::String, "\"a\\\"b\""), (Plain, ")"), (Plain, ";")])
    );
}

#[test]
fn tokenize_unterminated_string_runs_to_end() {
    assert_eq!(tokenize_rust("x\"abc"), toks(&[(TokenKind::Plain, "x"), (TokenKind::String, "\"abc")]));
}

#[test]
fn tokenize_attribute_and_type() {
    assert_eq!(
        tokenize_rust("#[derive(Debug)] struct Point_2;"),
        toks(&[
            (Macro, "#[derive(Debug)]"),
            (Plain, " "),
            (Keyword, "struct"),
            (Plain, " "),
            (Type, "Point_2"),
            (Plain, ";"),
        ])
    );
}

#[test]
fn classify_words() {
    let kws = ["fn", "let"];
    assert_eq!(classify_word("fn", &kws), TokenKind::Keyword);
    assert_eq!(classify_word("Vec", &kws), TokenKind::Type);
    assert_eq!(classify_word("3.14", &kws), TokenKind::Number);
    assert_eq!(classify_word("x1", &kws), TokenKind::Plain);
}

#[test]
fn token_colors() {
    assert_eq!(token_color(&TokenKind::Keyword), Some("0000FF"));
    assert_eq!(token_color(&TokenKind::String), Some("A31515"));
    assert_eq!(token_color(&TokenKind::Macro), Some("AF00DB"));
    assert_eq!(token_color(&TokenKind::Plain), None);
}
