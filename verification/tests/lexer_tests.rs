use checkbe::diagnostics::{Diagnostics, Severity};
use checkbe::lexer::lex;
use checkbe::token::TokenKind;

fn kinds(source: &str) -> (Vec<TokenKind>, Diagnostics) {
    let mut diagnostics = Diagnostics::new();
    let tokens = lex(source, &mut diagnostics);
    (tokens.into_iter().map(|t| t.kind).collect(), diagnostics)
}

#[test]
fn lexes_declaration() {
    let (k, d) = kinds("let int x = 5");
    assert!(!d.has_errors());
    assert_eq!(k.len(), 6);
    assert!(matches!(k[0], TokenKind::Let));
    assert!(matches!(k[1], TokenKind::IntType));
    assert!(matches!(&k[2], TokenKind::Identifier(n) if n == "x"));
    assert!(matches!(k[3], TokenKind::Assign));
    assert!(matches!(k[4], TokenKind::IntLiteral(5)));
    assert!(matches!(k[5], TokenKind::Eof));
}

#[test]
fn empty_source_gives_only_eof() {
    let (k, d) = kinds("");
    assert_eq!(k.len(), 1);
    assert!(matches!(k[0], TokenKind::Eof));
    assert_eq!(d.items().len(), 0);
}

#[test]
fn keeps_float_text() {
    let (k, _) = kinds("3.25");
    assert!(matches!(&k[0], TokenKind::FloatLiteral(t) if t == "3.25"));
}

#[test]
fn lexes_operators() {
    let (k, d) = kinds("a == b != c <= d >= e && f || !g -> h");
    assert!(!d.has_errors());
    assert!(matches!(k[1], TokenKind::EqEq));
    assert!(matches!(k[3], TokenKind::NotEq));
    assert!(matches!(k[5], TokenKind::LessEq));
    assert!(matches!(k[7], TokenKind::GreaterEq));
    assert!(matches!(k[9], TokenKind::AndAnd));
    assert!(matches!(k[11], TokenKind::OrOr));
    assert!(matches!(k[12], TokenKind::Bang));
    assert!(matches!(k[14], TokenKind::Arrow));
}

#[test]
fn skips_comments() {
    let (k, d) = kinds("// a comment\nx");
    assert!(!d.has_errors());
    assert_eq!(k.len(), 2);
    assert!(matches!(&k[0], TokenKind::Identifier(n) if n == "x"));
}

#[test]
fn tracks_lines_and_columns() {
    let mut diagnostics = Diagnostics::new();
    let tokens = lex("let\n  x", &mut diagnostics);
    assert_eq!((tokens[0].span.line, tokens[0].span.column), (1, 1));
    assert_eq!((tokens[1].span.line, tokens[1].span.column), (2, 3));
}

#[test]
fn string_literal_keeps_escaped_interpolation() {
    let (k, d) = kinds("\"Hello, \\(name)\"");
    assert!(!d.has_errors());
    assert!(matches!(&k[0], TokenKind::StringLiteral(s) if s == "Hello, \\(name)"));
}

#[test]
fn unterminated_string_is_an_error() {
    let (_, d) = kinds("\"abc");
    assert!(d.has_errors());
    assert_eq!(d.items()[0].severity, Severity::Error);
}

#[test]
fn unknown_character_is_an_error() {
    let (_, d) = kinds("let @");
    assert!(d.has_errors());
}
