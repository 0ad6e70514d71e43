//! Lexer and parser errors as diagnostics.
use vstd::prelude::*;

use super::diagnostic::{Diagnostic, Label, LabelStyle, Severity};
use super::source_map::SourceId;
use crate::lexer::LexError;
use crate::parser::ParseError;

verus! {

/// The diagnostic for an error that points at one span: an error with the
/// error's message and one primary label saying `label`.
pub open spec fn span_error(d: Diagnostic, message: String, source: SourceId, span: crate::token::Span, label: Seq<char>) -> bool {
    &&& d.severity == Severity::Error
    &&& d.code is None
    &&& d.lint is None
    &&& d.message == message
    &&& d.labels@.len() == 1
    &&& d.labels@[0].source == source
    &&& d.labels@[0].span == span
    &&& d.labels@[0].message matches Some(m) && m@ == label
    &&& d.labels@[0].style == LabelStyle::Primary
    &&& d.notes@.len() == 0
    &&& d.help@.len() == 0
}

/// A parse error in `source`, labelled "could not parse this".
pub fn parse_error(error: ParseError, source: SourceId) -> (d: Diagnostic)
    ensures
        span_error(d, error.message, source, error.span, "could not parse this"@),
{
    Diagnostic::error(error.message).primary(source, error.span, String::from_str("could not parse this"))
}

/// A lex error in `source`, labelled "invalid token starts here".
pub fn lex_error(error: LexError, source: SourceId) -> (d: Diagnostic)
    ensures
        span_error(d, error.message, source, error.span, "invalid token starts here"@),
{
    Diagnostic::error(error.message).primary(source, error.span, String::from_str("invalid token starts here"))
}

} // verus!
