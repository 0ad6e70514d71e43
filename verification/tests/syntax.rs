use bitterasm::facets::{payload_shape, PayloadShape};
use bitterasm::facets::syntax::{parse_pattern, PatternSegment};
use bitterasm::token::TokenKind;

#[test]
fn escaped_dollar_in_pattern_is_a_literal_token_not_a_capture_delimiter() {
    let params = vec!["imm".to_string()];
    let pattern = parse_pattern(
        vec![
            TokenKind::Identifier("mov".to_string()),
            TokenKind::Escaped('$'),
            TokenKind::Dollar,
            TokenKind::Identifier("imm".to_string()),
            TokenKind::Dollar,
        ],
        &params,
    )
    .expect("escaped dollar should parse as a literal pattern token");

    assert_eq!(
        pattern.segments,
        vec![
            PatternSegment::Literal(vec![TokenKind::Identifier("mov".to_string()), TokenKind::Dollar]),
            PatternSegment::Capture("imm".to_string()),
        ],
    );
}

#[test]
fn lint_levels_take_an_expression_payload() {
    for name in ["allow", "expect", "warn", "deny", "forbid"] {
        assert_eq!(payload_shape(name), Some(PayloadShape::Expr));
    }
    assert_eq!(payload_shape("syntax"), Some(PayloadShape::Pattern));
    assert_eq!(payload_shape("lints"), None);
}
