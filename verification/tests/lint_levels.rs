use bitterasm::ast::{CallArgument, Expr, Facet, FacetPayload};
use bitterasm::diagnostics::lint::{effective_level, emit_lint, facet_directives, is_lint_facet};
use bitterasm::diagnostics::{Diagnostic, LintConfig, LintLevel, LintName, Severity};
use bitterasm::token::Span;

fn identifier(name: &str) -> Expr {
    Expr::Identifier { name: name.to_string(), span: Span::new(0, 0) }
}

fn facet(name: &str, payload: Expr, at: usize) -> Facet {
    Facet { name: name.to_string(), payload: FacetPayload::Expr(payload), span: Span::new(at, at + 1) }
}

fn lints(names: &[&str]) -> Expr {
    Expr::Call {
        callee: Box::new(identifier("lints")),
        arguments: names
            .iter()
            .map(|name| CallArgument { name: None, value: identifier(name), span: Span::new(0, 0) })
            .collect(),
        span: Span::new(0, 0),
    }
}

#[test]
fn lint_facets_are_the_five_levels() {
    for name in ["allow", "expect", "warn", "deny", "forbid"] {
        assert!(is_lint_facet(name));
    }
    assert!(!is_lint_facet("invariant"));
    assert!(!is_lint_facet("Allow"));
}

#[test]
fn facets_select_lints_and_groups() {
    let facets = vec![
        facet("allow", identifier("unused_parameter"), 1),
        facet("deny", lints(&["unreachable_code", "unused"]), 2),
        facet("invariant", identifier("unused_import"), 3),
        facet("warn", identifier("no_such_lint"), 4),
    ];
    let directives = facet_directives(&facets);
    assert_eq!(
        directives,
        vec![
            (LintName::UNUSED_PARAMETER, LintLevel::Allow, Span::new(1, 2)),
            (LintName::UNREACHABLE_CODE, LintLevel::Deny, Span::new(2, 3)),
            (LintName::UNUSED_PARAMETER, LintLevel::Deny, Span::new(2, 3)),
            (LintName::UNUSED_IMPORT, LintLevel::Deny, Span::new(2, 3)),
        ]
    );
}

#[test]
fn a_call_other_than_lints_selects_nothing() {
    let call = Expr::Call {
        callee: Box::new(identifier("other")),
        arguments: vec![CallArgument { name: None, value: identifier("unused"), span: Span::new(0, 0) }],
        span: Span::new(0, 0),
    };
    assert!(facet_directives(&[facet("deny", call, 0)]).is_empty());
}

#[test]
fn declaration_directives_apply_in_order() {
    let global = LintConfig::default();
    let span = Span::new(0, 0);
    let directives = [
        (LintName::UNUSED_PARAMETER, LintLevel::Deny, span),
        (LintName::UNUSED_IMPORT, LintLevel::Allow, span),
        (LintName::UNUSED_PARAMETER, LintLevel::Allow, span),
    ];
    assert_eq!(effective_level(LintName::UNUSED_PARAMETER, &global, &directives), LintLevel::Allow);
    assert_eq!(effective_level(LintName::UNREACHABLE_CODE, &global, &directives), global.level(LintName::UNREACHABLE_CODE));
}

#[test]
fn a_forbidden_lint_cannot_be_lowered() {
    let mut global = LintConfig::default();
    global.set("unused_parameter", LintLevel::Forbid).unwrap();
    let span = Span::new(0, 0);
    let directives = [(LintName::UNUSED_PARAMETER, LintLevel::Allow, span)];
    assert_eq!(effective_level(LintName::UNUSED_PARAMETER, &global, &directives), LintLevel::Forbid);

    // A declaration can forbid, and then nothing after it lowers the lint.
    let global = LintConfig::default();
    let directives = [
        (LintName::UNUSED_PARAMETER, LintLevel::Forbid, span),
        (LintName::UNUSED_PARAMETER, LintLevel::Allow, span),
    ];
    assert_eq!(effective_level(LintName::UNUSED_PARAMETER, &global, &directives), LintLevel::Forbid);
}

#[test]
fn levels_decide_what_is_reported() {
    let warning = || Diagnostic::warning(LintName::UNUSED_PARAMETER, "parameter `x` is never used".to_string());
    let mut output = Vec::new();
    emit_lint(warning(), LintLevel::Allow, &mut output);
    emit_lint(warning(), LintLevel::Expect, &mut output);
    assert!(output.is_empty());

    emit_lint(warning(), LintLevel::Warn, &mut output);
    assert_eq!(output.len(), 1);
    assert_eq!(output[0].severity, Severity::Warning);

    emit_lint(warning(), LintLevel::Deny, &mut output);
    emit_lint(warning(), LintLevel::Forbid, &mut output);
    assert_eq!(output.len(), 3);
    assert_eq!(output[1].severity, Severity::Error);
    assert_eq!(output[2].severity, Severity::Error);
    assert_eq!(output[2].message, "parameter `x` is never used");
}
