//! The trailing-newline rule and the tokenizer.

use snow_formatter::normalize_trailing_newline;
use snow_formatter::lexer::{tokenize, TokenKind};

#[test]
fn normalize_keeps_empty() {
    assert_eq!(normalize_trailing_newline(String::new()), "");
}

#[test]
fn normalize_adds_missing_newline() {
    assert_eq!(normalize_trailing_newline("abc".to_string()), "abc\n");
}

#[test]
fn normalize_collapses_many_newlines() {
    assert_eq!(normalize_trailing_newline("abc\n\n\n".to_string()), "abc\n");
    assert_eq!(normalize_trailing_newline("a\nb\n".to_string()), "a\nb\n");
}

#[test]
fn normalize_newlines_only() {
    assert_eq!(normalize_trailing_newline("\n\n".to_string()), "\n");
}

#[test]
fn normalize_is_idempotent() {
    for s in ["", "x", "x\n", "x\n\n", "\n", "a b  \n\n"] {
        let once = normalize_trailing_newline(s.to_string());
        assert_eq!(normalize_trailing_newline(once.clone()), once);
    }
}

fn kinds_and_texts(sql: &str) -> Vec<(TokenKind, String)> {
    tokenize(sql).expect("tokens").into_iter().map(|t| (t.kind, t.text)).collect()
}

#[test]
fn tokenize_is_lossless() {
    let sql = "select a.b, 'x''y' -- c\n/* d */ \"Q\" $$ e $$ 1.5 >= ->> :: ;";
    let joined: String = tokenize(sql).expect("tokens").into_iter().map(|t| t.text).collect();
    assert_eq!(joined, sql);
}

#[test]
fn tokenize_kinds() {
    assert_eq!(
        kinds_and_texts("x1 'a' \"B\" 2.5 -- c"),
        vec![
            (TokenKind::Word, "x1".to_string()),
            (TokenKind::Whitespace, " ".to_string()),
            (TokenKind::Str, "'a'".to_string()),
            (TokenKind::Whitespace, " ".to_string()),
            (TokenKind::QuotedIdent, "\"B\"".to_string()),
            (TokenKind::Whitespace, " ".to_string()),
            (TokenKind::Number, "2.5".to_string()),
            (TokenKind::Whitespace, " ".to_string()),
            (TokenKind::LineComment, "-- c".to_string()),
        ],
    );
}

#[test]
fn tokenize_operators() {
    assert_eq!(
        kinds_and_texts("a=>b->>c::d<=e"),
        vec![
            (TokenKind::Word, "a".to_string()),
            (TokenKind::Symbol, "=>".to_string()),
            (TokenKind::Word, "b".to_string()),
            (TokenKind::Symbol, "->>".to_string()),
            (TokenKind::Word, "c".to_string()),
            (TokenKind::Symbol, "::".to_string()),
            (TokenKind::Word, "d".to_string()),
            (TokenKind::Symbol, "<=".to_string()),
            (TokenKind::Word, "e".to_string()),
        ],
    );
}

#[test]
fn tokenize_dollar_forms() {
    assert_eq!(
        kinds_and_texts("$1 $$x$$"),
        vec![
            (TokenKind::Word, "$1".to_string()),
            (TokenKind::Whitespace, " ".to_string()),
            (TokenKind::DollarStr, "$$x$$".to_string()),
        ],
    );
}

#[test]
fn tokenize_unterminated_is_none() {
    assert!(tokenize("'abc").is_none());
    assert!(tokenize("/* abc").is_none());
    assert!(tokenize("$$ abc").is_none());
    assert!(tokenize("\"abc").is_none());
}

#[test]
fn token_kind_predicates() {
    assert!(TokenKind::Whitespace.is_trivia());
    assert!(TokenKind::LineComment.is_trivia() && TokenKind::LineComment.is_comment());
    assert!(TokenKind::BlockComment.is_comment());
    assert!(!TokenKind::Word.is_trivia() && !TokenKind::Word.is_comment());
}

#[test]
fn tokenize_exponent_literals() {
    assert_eq!(
        kinds_and_texts("1e-5 2E+3 1e-x 3-4"),
        vec![
            (TokenKind::Number, "1e-5".to_string()),
            (TokenKind::Whitespace, " ".to_string()),
            (TokenKind::Number, "2E+3".to_string()),
            (TokenKind::Whitespace, " ".to_string()),
            (TokenKind::Number, "1e".to_string()),
            (TokenKind::Symbol, "-".to_string()),
            (TokenKind::Word, "x".to_string()),
            (TokenKind::Whitespace, " ".to_string()),
            (TokenKind::Number, "3".to_string()),
            (TokenKind::Symbol, "-".to_string()),
            (TokenKind::Number, "4".to_string()),
        ],
    );
}
