//! A diagnostic: a severity, a message, and labelled spans of source.
use vstd::prelude::*;

use super::lint::LintName;
use super::source_map::SourceId;
use crate::token::Span;

verus! {

#[derive(Debug, Clone, Copy, PartialEq, Eq, Structural)]
pub enum Severity {
    Error,
    Warning,
    Note,
    Help,
}

#[derive(Debug, Clone, Copy, PartialEq, Eq, Structural)]
pub enum LabelStyle {
    Primary,
    Secondary,
}

/// A span of one source file, with what to say about it.
#[derive(Debug, Clone, PartialEq, Eq)]
pub struct Label {
    pub source: SourceId,
    pub span: Span,
    pub message: Option<String>,
    pub style: LabelStyle,
}

#[derive(Debug, Clone, PartialEq, Eq)]
pub struct Diagnostic {
    pub severity: Severity,
    pub code: Option<String>,
    pub lint: Option<LintName>,
    pub message: String,
    pub labels: Vec<Label>,
    pub notes: Vec<String>,
    pub help: Vec<String>,
}

impl Diagnostic {
    /// An error with no labels, notes or help yet.
    pub fn error(message: String) -> (d: Diagnostic)
        ensures
            d.severity == Severity::Error,
            d.code is None,
            d.lint is None,
            d.message == message,
            d.labels@ == Seq::<Label>::empty(),
            d.notes@ == Seq::<String>::empty(),
            d.help@ == Seq::<String>::empty(),
    {
        Diagnostic {
            severity: Severity::Error,
            code: None,
            lint: None,
            message,
            labels: Vec::new(),
            notes: Vec::new(),
            help: Vec::new(),
        }
    }

    /// A warning raised by `lint`, with no labels, notes or help yet.
    pub fn warning(lint: LintName, message: String) -> (d: Diagnostic)
        ensures
            d.severity == Severity::Warning,
            d.code is None,
            d.lint == Some(lint),
            d.message == message,
            d.labels@ == Seq::<Label>::empty(),
            d.notes@ == Seq::<String>::empty(),
            d.help@ == Seq::<String>::empty(),
    {
        Diagnostic {
            severity: Severity::Warning,
            code: None,
            lint: Some(lint),
            message,
            labels: Vec::new(),
            notes: Vec::new(),
            help: Vec::new(),
        }
    }

    /// This diagnostic with a primary label added after the others.
    pub fn primary(self, source: SourceId, span: Span, message: String) -> (d: Diagnostic)
        ensures
            d.labels@ == self.labels@.push(
                (Label { source, span, message: Some(message), style: LabelStyle::Primary }),
            ),
            d.severity == self.severity,
            d.code == self.code,
            d.lint == self.lint,
            d.message == self.message,
            d.notes == self.notes,
            d.help == self.help,
    {
        let mut d = self;
        d.labels.push(Label { source, span, message: Some(message), style: LabelStyle::Primary });
        d
    }

    /// This diagnostic with a note added after the others.
    pub fn note(self, note: String) -> (d: Diagnostic)
        ensures
            d.notes@ == self.notes@.push(note),
            d.severity == self.severity,
            d.code == self.code,
            d.lint == self.lint,
            d.message == self.message,
            d.labels == self.labels,
            d.help == self.help,
    {
        let mut d = self;
        d.notes.push(note);
        d
    }

    /// This diagnostic with a help line added after the others.
    pub fn help(self, help: String) -> (d: Diagnostic)
        ensures
            d.help@ == self.help@.push(help),
            d.severity == self.severity,
            d.code == self.code,
            d.lint == self.lint,
            d.message == self.message,
            d.labels == self.labels,
            d.notes == self.notes,
    {
        let mut d = self;
        d.help.push(help);
        d
    }
}

} // verus!
