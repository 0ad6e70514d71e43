use bitterasm::diagnostics::{
    lex_error, parse_error, parse_lint_config, render_text, Diagnostic, DiagnosticFormat, LabelStyle,
    LintConfig, LintLevel, LintName, RenderOptions, Severity, SourceId, SourceMap,
};
use bitterasm::lexer::LexError;
use bitterasm::parser::ParseError;
use bitterasm::token::Span;

#[test]
fn parse_errors_keep_their_source_span() {
    let diagnostic = parse_error(ParseError::new("expected expression".to_string(), Span::new(4, 5)), SourceId(2));
    assert_eq!(diagnostic.message, "expected expression");
    assert_eq!(diagnostic.labels[0].source, SourceId(2));
    assert_eq!(diagnostic.labels[0].span, Span::new(4, 5));
}

#[test]
fn project_lint_configuration_sets_groups_and_individual_lints() {
    let config = parse_lint_config(
        "indent_width = 2\n\n[lints]\nunused = \"allow\"\nunreachable_code = \"deny\"\n",
        "bitterasm.toml",
    )
    .unwrap();
    assert_eq!(config.level(LintName::UNUSED_PARAMETER), LintLevel::Allow);
    assert_eq!(config.level(LintName::UNUSED_IMPORT), LintLevel::Allow);
    assert_eq!(config.level(LintName::UNREACHABLE_CODE), LintLevel::Deny);
}

#[test]
fn lex_errors_point_at_the_invalid_token() {
    let diagnostic = lex_error(LexError::new("unexpected character `?`".to_string(), 8, 9), SourceId(0));
    assert_eq!(diagnostic.severity, Severity::Error);
    assert_eq!(diagnostic.message, "unexpected character `?`");
    assert_eq!(diagnostic.labels.len(), 1);
    assert_eq!(diagnostic.labels[0].message.as_deref(), Some("invalid token starts here"));
    assert_eq!(diagnostic.labels[0].style, LabelStyle::Primary);
}

#[test]
fn every_lint_warns_by_default() {
    let config = LintConfig::default();
    for name in ["unused_parameter", "unused_import", "unreachable_code", "generated_declarations", "unfulfilled_lint_expectation"] {
        let lint = LintName::named(name).unwrap();
        assert_eq!(lint.as_str(), name);
        assert_eq!(config.level(lint), LintLevel::Warn);
    }
    assert_eq!(LintName::named("unused"), None);
}

#[test]
fn setting_a_lint_changes_only_that_lint() {
    let mut config = LintConfig::default();
    assert_eq!(config.set("unused_import", LintLevel::Forbid), Ok(()));
    assert_eq!(config.level(LintName::UNUSED_IMPORT), LintLevel::Forbid);
    assert_eq!(config.level(LintName::UNUSED_PARAMETER), LintLevel::Warn);
    assert_eq!(config.set("warnings", LintLevel::Deny), Ok(()));
    assert_eq!(config.level(LintName::UNUSED_IMPORT), LintLevel::Deny);
    assert_eq!(config.level(LintName::UNFULFILLED_EXPECTATION), LintLevel::Deny);
    assert_eq!(config.set("bogus", LintLevel::Allow), Err("unknown lint or lint group `bogus`".to_string()));
    assert_eq!(config.level(LintName::UNUSED_IMPORT), LintLevel::Deny);
}

#[test]
fn lint_groups_list_their_lints() {
    assert_eq!(LintName::group("unused"), Some(vec![LintName::UNUSED_PARAMETER, LintName::UNUSED_IMPORT]));
    assert_eq!(LintName::group("all").map(|g| g.len()), Some(5));
    assert_eq!(LintName::group("warnings").map(|g| g.len()), Some(5));
    assert_eq!(LintName::group("nope"), None);
}

#[test]
fn lint_levels_parse_by_name() {
    assert_eq!(LintLevel::parse("allow"), Ok(LintLevel::Allow));
    assert_eq!(LintLevel::parse("expect"), Ok(LintLevel::Expect));
    assert_eq!(LintLevel::parse("forbid"), Ok(LintLevel::Forbid));
    assert_eq!(LintLevel::parse("loud"), Err("unknown lint level `loud`".to_string()));
    assert_eq!("deny".parse::<LintLevel>(), Ok(LintLevel::Deny));
}

#[test]
fn lint_configuration_errors_name_the_file_and_line() {
    let missing = parse_lint_config("[lints]\nunused allow\n", "demo.toml").unwrap_err();
    assert_eq!(missing, "demo.toml:2: expected `lint = level`");
    let unknown = parse_lint_config("[lints]\n# comment\nbogus = \"warn\"\n", "demo.toml").unwrap_err();
    assert_eq!(unknown, "demo.toml:3: unknown lint or lint group `bogus`");
    let level = parse_lint_config("[lints]\nunused = \"loud\"\n", "demo.toml").unwrap_err();
    assert_eq!(level, "unknown lint level `loud`");
    let other = parse_lint_config("[format]\nanything goes here\n", "demo.toml").unwrap();
    assert_eq!(other.level(LintName::UNUSED_IMPORT), LintLevel::Warn);
}

#[test]
fn plain_renderer_includes_location_excerpt_and_lint_name() {
    let mut sources = SourceMap::new();
    let source = sources.add("demo.basm".to_string(), "macro f(value: int) {\n}\n".to_string());
    let diagnostic = Diagnostic::warning(LintName::UNUSED_PARAMETER, "unused parameter".to_string())
        .primary(source, Span::new(8, 18), "unused here".to_string());
    let rendered = render_text(&[diagnostic], &sources, RenderOptions::default());
    assert!(rendered.contains("warning: unused parameter [unused_parameter]"));
    assert!(rendered.contains("demo.basm:1:9"));
    assert!(rendered.contains("unused here"));
}

#[test]
fn rendered_excerpt_marks_the_span() {
    let mut sources = SourceMap::new();
    let source = sources.add("a.basm".to_string(), "nop\nmov r1, ?\n".to_string());
    let diagnostic = Diagnostic::error("unexpected character".to_string())
        .primary(source, Span::new(12, 13), "here".to_string())
        .note("a note".to_string())
        .help("a hint".to_string());
    let rendered = render_text(&[diagnostic], &sources, RenderOptions::default());
    assert_eq!(
        rendered,
        "error: unexpected character\n  --> a.basm:2:9\n  |\n2 | mov r1, ?\n  |         ^ here\n  = note: a note\n  = help: a hint\n"
    );
}

#[test]
fn colored_terminal_output_paints_the_severity() {
    let sources = SourceMap::new();
    let diagnostic = Diagnostic::error("boom".to_string());
    let options = RenderOptions { format: DiagnosticFormat::Terminal, color: true };
    assert_eq!(render_text(&[diagnostic], &sources, options), "\x1b[31;1merror\x1b[0m: boom\n");
}

#[test]
fn source_files_report_lines_and_columns() {
    let mut sources = SourceMap::new();
    let id = sources.add("u.basm".to_string(), "λx\nab\n".to_string());
    let again = sources.add("u.basm".to_string(), "ignored".to_string());
    assert_eq!(id, again);
    let file = sources.get(id).unwrap();
    assert_eq!(file.line_column(0), (1, 1));
    assert_eq!(file.line_column(2), (1, 2));
    assert_eq!(file.line_column(4), (2, 1));
    assert_eq!(file.line_column(100), (3, 1));
    assert_eq!(file.line(2), Some("ab".to_string()));
    assert_eq!(file.line(4), None);
    assert_eq!(file.line_start(2), Some(4));
    assert_eq!(file.line_start(0), None);
    assert!(sources.get(SourceId(5)).is_none());
}

#[test]
fn a_span_is_located_in_the_one_file_that_holds_it() {
    let mut sources = SourceMap::new();
    let first = sources.add("a.basm".to_string(), "mov r1, 7\n".to_string());
    let _second = sources.add("b.basm".to_string(), "add r2, 9\n".to_string());
    assert_eq!(sources.locate_span(Span::new(0, 3), Some("mov")), Some(first));
    assert_eq!(sources.locate_span(Span::new(0, 3), None), None);
    assert_eq!(sources.locate_span(Span::new(0, 40), None), None);
}
