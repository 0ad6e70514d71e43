//! Diagnostics: what the tools report (errors, lint warnings), where in
//! the sources it points, and how a report is rendered as text.
pub mod diagnostic;
pub mod errors;
pub mod lint;
pub mod renderer;
pub mod source_map;

pub use diagnostic::{Diagnostic, Label, LabelStyle, Severity};
pub use errors::{lex_error, parse_error};
pub use lint::{parse_lint_config, LintConfig, LintLevel, LintName};
pub use renderer::{render_text, DiagnosticFormat, RenderOptions};
pub use source_map::{SourceFile, SourceId, SourceMap};
