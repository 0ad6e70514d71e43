use bitterasm::lexer::lex;
use bitterasm::token::{Span, Token, TokenKind};

fn kinds(source: &str) -> Vec<TokenKind> {
    lex(source).unwrap().into_iter().map(|token| token.kind).collect()
}

#[test]
fn lexes_invocation() {
    assert_eq!(
        kinds("mov r1, 42\n"),
        vec![
            TokenKind::Identifier("mov".into()),
            TokenKind::Identifier("r1".into()),
            TokenKind::Comma,
            TokenKind::Integer("42".into()),
            TokenKind::Newline,
            TokenKind::Eof,
        ]
    );
}

#[test]
fn lexes_import() {
    assert_eq!(
        kinds("from tinycpu.native import *\n"),
        vec![
            TokenKind::From,
            TokenKind::Identifier("tinycpu".into()),
            TokenKind::Dot,
            TokenKind::Identifier("native".into()),
            TokenKind::Import,
            TokenKind::Star,
            TokenKind::Newline,
            TokenKind::Eof,
        ]
    );
}

#[test]
fn lexes_label() {
    assert_eq!(
        kinds("start:\n"),
        vec![TokenKind::Identifier("start".into()), TokenKind::Colon, TokenKind::Newline, TokenKind::Eof]
    );
}

#[test]
fn lexes_number_bases() {
    assert_eq!(
        kinds("42 0xff 0b1010 0o755\n"),
        vec![
            TokenKind::Integer("42".into()),
            TokenKind::Integer("0xff".into()),
            TokenKind::Integer("0b1010".into()),
            TokenKind::Integer("0o755".into()),
            TokenKind::Newline,
            TokenKind::Eof,
        ]
    );
}

#[test]
fn lexes_number_separators() {
    assert_eq!(
        kinds("1_000 0xff_ff 0b1010_0101\n"),
        vec![
            TokenKind::Integer("1_000".into()),
            TokenKind::Integer("0xff_ff".into()),
            TokenKind::Integer("0b1010_0101".into()),
            TokenKind::Newline,
            TokenKind::Eof,
        ]
    );
}

#[test]
fn ignores_comments_but_preserves_newline() {
    assert_eq!(
        kinds("mov r1, 42 # hello\nnop\n"),
        vec![
            TokenKind::Identifier("mov".into()),
            TokenKind::Identifier("r1".into()),
            TokenKind::Comma,
            TokenKind::Integer("42".into()),
            TokenKind::Newline,
            TokenKind::Identifier("nop".into()),
            TokenKind::Newline,
            TokenKind::Eof,
        ]
    );
}

#[test]
fn lexes_metaprogramming() {
    assert_eq!(
        kinds("@if foo == 42 {\n@emit 0xff\n}\n"),
        vec![
            TokenKind::At,
            TokenKind::Identifier("if".into()),
            TokenKind::Identifier("foo".into()),
            TokenKind::EqualEqual,
            TokenKind::Integer("42".into()),
            TokenKind::LBrace,
            TokenKind::Newline,
            TokenKind::At,
            TokenKind::Identifier("emit".into()),
            TokenKind::Integer("0xff".into()),
            TokenKind::Newline,
            TokenKind::RBrace,
            TokenKind::Newline,
            TokenKind::Eof,
        ]
    );
}

#[test]
fn lexes_match_fat_arrow() {
    assert_eq!(
        kinds("@match x { 0 => {} }\n"),
        vec![
            TokenKind::At,
            TokenKind::Identifier("match".into()),
            TokenKind::Identifier("x".into()),
            TokenKind::LBrace,
            TokenKind::Integer("0".into()),
            TokenKind::FatArrow,
            TokenKind::LBrace,
            TokenKind::RBrace,
            TokenKind::RBrace,
            TokenKind::Newline,
            TokenKind::Eof,
        ]
    );
}

#[test]
fn lexes_range() {
    assert_eq!(
        kinds("0..N\n"),
        vec![
            TokenKind::Integer("0".into()),
            TokenKind::DotDot,
            TokenKind::Identifier("N".into()),
            TokenKind::Newline,
            TokenKind::Eof,
        ]
    );
}

#[test]
fn lexes_member_access_distinct_from_range() {
    assert_eq!(
        kinds("arr.len\n"),
        vec![
            TokenKind::Identifier("arr".into()),
            TokenKind::Dot,
            TokenKind::Identifier("len".into()),
            TokenKind::Newline,
            TokenKind::Eof,
        ]
    );
}

#[test]
fn lexes_string_escapes() {
    assert_eq!(kinds("\"hello\\nworld\""), vec![TokenKind::String("hello\nworld".into()), TokenKind::Eof]);
}

#[test]
fn lexes_char_literal_as_its_codepoint() {
    assert_eq!(kinds("'a'"), vec![TokenKind::Integer("97".into()), TokenKind::Eof]);
}

#[test]
fn lexes_escaped_char_literal() {
    assert_eq!(kinds("'\\n'"), vec![TokenKind::Integer("10".into()), TokenKind::Eof]);
}

#[test]
fn rejects_empty_char_literal() {
    assert!(lex("''").is_err());
}

#[test]
fn rejects_multi_character_char_literal() {
    assert!(lex("'ab'").is_err());
}

#[test]
fn spans_are_byte_offsets() {
    let tokens = lex("mov r1").unwrap();

    assert_eq!(tokens[0].span, Span::new(0, 3));
    assert_eq!(tokens[1].span, Span::new(4, 6));
    assert_eq!(tokens[2].span, Span::new(6, 6));
}

#[test]
fn supports_unicode_identifiers() {
    let tokens = lex("λ foo\n").unwrap();

    assert_eq!(tokens[0], Token { kind: TokenKind::Identifier("λ".into()), span: Span::new(0, 2) });
}

#[test]
fn rejects_unknown_characters() {
    let error = lex("mov r1, ?").unwrap_err();

    assert!(error.message.contains("unexpected character"));
}

#[test]
fn lexes_backtick() {
    assert_eq!(
        kinds("`foo`\n"),
        vec![
            TokenKind::Backtick,
            TokenKind::Identifier("foo".into()),
            TokenKind::Backtick,
            TokenKind::Newline,
            TokenKind::Eof,
        ]
    );
}

#[test]
fn lexes_escapes_outside_strings() {
    assert_eq!(
        kinds("\\`\\$\n"),
        vec![TokenKind::Escaped('`'), TokenKind::Escaped('$'), TokenKind::Newline, TokenKind::Eof]
    );
}

#[test]
fn rejects_unknown_escape_outside_strings() {
    let error = lex("\\n").unwrap_err();

    assert!(error.message.contains("unknown escape sequence"));
}

#[test]
fn rejects_unterminated_escape_outside_strings() {
    let error = lex("\\").unwrap_err();

    assert_eq!(error.message, "unterminated escape sequence");
}

#[test]
fn rejects_unterminated_strings() {
    let error = lex("\"hello").unwrap_err();

    assert_eq!(error.message, "unterminated string literal");
}
