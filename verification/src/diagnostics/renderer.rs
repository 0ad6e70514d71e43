//! Diagnostics as text for a terminal or a log: a headline, each label's
//! location with an excerpt of its line and a marker under the span, then
//! the notes and help.
use vstd::prelude::*;
use vstd::utf8::*;

use super::diagnostic::{Diagnostic, Label, LabelStyle, Severity};
use super::lint::lint_text;
use super::source_map::{char_count, line_start_at, line_starts_upto, newline_count, SourceFile, SourceMap};
use crate::text::{decimal, decimal_string, decimal_width, push_char, split_lines};

verus! {

#[derive(Debug, Clone, Copy, PartialEq, Eq, Structural)]
pub enum DiagnosticFormat {
    Terminal,
    Plain,
    Json,
}

#[derive(Debug, Clone, Copy)]
pub struct RenderOptions {
    pub format: DiagnosticFormat,
    pub color: bool,
}

impl Default for RenderOptions {
    /// Plain text without color.
    fn default() -> (options: RenderOptions)
        ensures
            options.format == DiagnosticFormat::Plain,
            !options.color,
    {
        RenderOptions { format: DiagnosticFormat::Plain, color: false }
    }
}

// ================
// the text of a report
// ================

pub open spec fn severity_word(severity: Severity) -> Seq<char> {
    match severity {
        Severity::Error => "error"@,
        Severity::Warning => "warning"@,
        Severity::Note => "note"@,
        Severity::Help => "help"@,
    }
}

/// The severity as shown: bold red (errors) or yellow (the rest) on a
/// colored terminal, plain otherwise.
pub open spec fn severity_shown(severity: Severity, options: RenderOptions) -> Seq<char> {
    if options.color && options.format == DiagnosticFormat::Terminal {
        let color = if severity == Severity::Error {
            "31"@
        } else {
            "33"@
        };
        "\x1b["@ + color + ";1m"@ + severity_word(severity) + "\x1b[0m"@
    } else {
        severity_word(severity)
    }
}

/// `severity: message [lint]` and a newline.
pub open spec fn headline(d: Diagnostic, options: RenderOptions) -> Seq<char> {
    severity_shown(d.severity, options) + ": "@ + d.message@ + match d.lint {
        Some(lint) => " ["@ + lint_text(lint) + "]"@,
        None => Seq::empty(),
    } + "\n"@
}

pub open spec fn spaces(n: nat) -> Seq<char> {
    repeated(' ', n)
}

pub open spec fn repeated(c: char, n: nat) -> Seq<char> {
    Seq::new(n, |i: int| c)
}

pub open spec fn min_nat(a: nat, b: nat) -> nat {
    if a < b {
        a
    } else {
        b
    }
}

/// Where line `line` (from 1) starts, or 0.
pub open spec fn line_start_or_zero(b: Seq<u8>, line: nat) -> nat {
    let starts = line_starts_upto(b, b.len() as int);
    if 1 <= line <= starts.len() {
        starts[line - 1] as nat
    } else {
        0
    }
}

/// A label: `  --> file:line:column`, then the line's text between two
/// gutter lines, with a marker (`^` primary, `-` secondary) under the
/// span's characters (at least one) and the label's message. A label into
/// a file the map lacks shows nothing.
pub open spec fn label_text(label: Label, sources: Seq<SourceFile>) -> Seq<char> {
    if label.source.0 < sources.len() {
        let file = sources[label.source.0 as int];
        let b = file.bytes();
        let o = min_nat(label.span.start as nat, b.len());
        let line = newline_count(b, o as int) + 1;
        let column = char_count(b, line_start_at(b, o as int), o as int) + 1;
        let location = "  --> "@ + file.name@ + ":"@ + decimal(line) + ":"@ + decimal(column) + "\n"@;
        let lines = split_lines(file.source@);
        if line <= lines.len() {
            let gutter = spaces(decimal(line).len());
            let end = min_nat(label.span.end as nat, b.len());
            let start_column = char_count(b, line_start_or_zero(b, line) as int, o as int);
            let counted = char_count(b, min_nat(label.span.start as nat, end) as int, end as int);
            let width = if counted == 0 {
                1
            } else {
                counted
            };
            let marker = if label.style == LabelStyle::Primary {
                '^'
            } else {
                '-'
            };
            location + gutter + " |\n"@ + decimal(line) + " | "@ + lines[line - 1] + "\n"@ + gutter
                + " | "@ + spaces(start_column) + repeated(marker, width) + match label.message {
                Some(m) => " "@ + m@,
                None => Seq::empty(),
            } + "\n"@
        } else {
            location
        }
    } else {
        Seq::empty()
    }
}

pub open spec fn labels_text(labels: Seq<Label>, sources: Seq<SourceFile>) -> Seq<char>
    decreases labels.len(),
{
    if labels.len() == 0 {
        Seq::empty()
    } else {
        labels_text(labels.drop_last(), sources) + label_text(labels.last(), sources)
    }
}

/// `  = kind: text` lines, one per entry.
pub open spec fn remarks_text(kind: Seq<char>, entries: Seq<String>) -> Seq<char>
    decreases entries.len(),
{
    if entries.len() == 0 {
        Seq::empty()
    } else {
        remarks_text(kind, entries.drop_last()) + "  = "@ + kind + ": "@ + entries.last()@ + "\n"@
    }
}

pub open spec fn diagnostic_text(d: Diagnostic, sources: Seq<SourceFile>, options: RenderOptions) -> Seq<char> {
    headline(d, options) + labels_text(d.labels@, sources) + remarks_text("note"@, d.notes@)
        + remarks_text("help"@, d.help@)
}

pub open spec fn report_text(ds: Seq<Diagnostic>, sources: Seq<SourceFile>, options: RenderOptions) -> Seq<char>
    decreases ds.len(),
{
    if ds.len() == 0 {
        Seq::empty()
    } else {
        report_text(ds.drop_last(), sources, options) + diagnostic_text(ds.last(), sources, options)
    }
}

/// A report of several diagnostics is their reports one after another, in
/// order: rendering two lists is rendering each.
pub proof fn lemma_report_concatenates(
    first: Seq<Diagnostic>,
    second: Seq<Diagnostic>,
    sources: Seq<SourceFile>,
    options: RenderOptions,
)
    ensures
        report_text(first + second, sources, options) == report_text(first, sources, options) + report_text(
            second,
            sources,
            options,
        ),
    decreases second.len(),
{
    if second.len() == 0 {
        assert(first + second =~= first);
        assert(report_text(first, sources, options) + report_text(second, sources, options) =~= report_text(
            first,
            sources,
            options,
        ));
    } else {
        lemma_report_concatenates(first, second.drop_last(), sources, options);
        assert((first + second).drop_last() =~= first + second.drop_last());
        assert((first + second).last() == second.last());
    }
}

/// A diagnostic's report begins with its severity (`error`, `warning`,
/// `note` or `help`; on a colored terminal errors in bold red, the others
/// in bold yellow), a colon, a space and its message.
pub proof fn lemma_report_starts_with_severity_and_message(d: Diagnostic, sources: Seq<SourceFile>, options: RenderOptions)
    ensures
        ({
            let word = match d.severity {
                Severity::Error => "error"@,
                Severity::Warning => "warning"@,
                Severity::Note => "note"@,
                Severity::Help => "help"@,
            };
            let shown = if options.color && options.format == DiagnosticFormat::Terminal {
                if d.severity == Severity::Error {
                    "\x1b[31;1m"@ + word + "\x1b[0m"@
                } else {
                    "\x1b[33;1m"@ + word + "\x1b[0m"@
                }
            } else {
                word
            };
            let prefix = shown + ": "@ + d.message@;
            prefix.len() <= diagnostic_text(d, sources, options).len() && diagnostic_text(d, sources, options).subrange(
                0,
                prefix.len() as int,
            ) == prefix
        }),
{
    reveal_strlit("\x1b[");
    reveal_strlit("31");
    reveal_strlit("33");
    reveal_strlit(";1m");
    reveal_strlit("\x1b[31;1m");
    reveal_strlit("\x1b[33;1m");
    let word = severity_word(d.severity);
    let shown = severity_shown(d.severity, options);
    let prefix = shown + ": "@ + d.message@;
    let text = diagnostic_text(d, sources, options);
    assert("\x1b["@ + "31"@ + ";1m"@ =~= "\x1b[31;1m"@);
    assert("\x1b["@ + "33"@ + ";1m"@ =~= "\x1b[33;1m"@);
    assert(text.subrange(0, prefix.len() as int) =~= prefix);
}

/// A label can be shown: a span start inside its file falls on a character
/// boundary.
pub open spec fn label_showable(label: Label, sources: Seq<SourceFile>) -> bool {
    label.source.0 < sources.len() ==> {
        let b = sources[label.source.0 as int].bytes();
        label.span.start < b.len() ==> is_char_boundary(b, label.span.start as int)
    }
}

pub open spec fn showable(ds: Seq<Diagnostic>, sources: Seq<SourceFile>) -> bool {
    forall|i: int, j: int|
        0 <= i < ds.len() && 0 <= j < ds[i].labels@.len() ==> label_showable(
            #[trigger] ds[i].labels@[j],
            sources,
        )
}

// ================
// rendering
// ================

/// The diagnostics as text, in the terminal or plain format. This library
/// does not render JSON: given `DiagnosticFormat::Json` it writes the plain
/// text.
pub fn render_text(diagnostics: &[Diagnostic], sources: &SourceMap, options: RenderOptions) -> (text: String)
    requires
        sources.wf(),
        showable(diagnostics@, sources.view()),
    ensures
        text@ == report_text(diagnostics@, sources.view(), options),
{
    let mut output = String::new();
    let mut i: usize = 0;
    while i < diagnostics.len()
        invariant
            sources.wf(),
            showable(diagnostics@, sources.view()),
            i <= diagnostics@.len(),
            output@ == report_text(diagnostics@.take(i as int), sources.view(), options),
        decreases diagnostics@.len() - i,
    {
        let d = &diagnostics[i];
        let mut k: usize = 0;
        while k < d.labels.len()
            invariant
                sources.wf(),
                showable(diagnostics@, sources.view()),
                i < diagnostics@.len(),
                *d == diagnostics@[i as int],
                k <= d.labels@.len(),
                forall|j: int| 0 <= j < d.labels@.len() ==> label_showable(#[trigger] d.labels@[j], sources.view()),
            decreases d.labels@.len() - k,
        {
            assert(label_showable(diagnostics@[i as int].labels@[k as int], sources.view()));
            k += 1;
        }
        let piece = render_diagnostic(d, sources, options);
        output.append(piece.as_str());
        assert(diagnostics@.take(i + 1).drop_last() =~= diagnostics@.take(i as int));
        i += 1;
    }
    assert(diagnostics@.take(diagnostics@.len() as int) =~= diagnostics@);
    output
}

fn render_diagnostic(d: &Diagnostic, sources: &SourceMap, options: RenderOptions) -> (text: String)
    requires
        sources.wf(),
        forall|j: int| 0 <= j < d.labels@.len() ==> label_showable(#[trigger] d.labels@[j], sources.view()),
    ensures
        text@ == diagnostic_text(*d, sources.view(), options),
{
    let mut output = String::new();
    let word = match d.severity {
        Severity::Error => "error",
        Severity::Warning => "warning",
        Severity::Note => "note",
        Severity::Help => "help",
    };
    if options.color && matches!(options.format, DiagnosticFormat::Terminal) {
        let color = if matches!(d.severity, Severity::Error) {
            "31"
        } else {
            "33"
        };
        output.append("\x1b[");
        output.append(color);
        output.append(";1m");
        output.append(word);
        output.append("\x1b[0m");
    } else {
        output.append(word);
    }
    output.append(": ");
    output.append(d.message.as_str());
    match d.lint {
        Some(lint) => {
            output.append(" [");
            output.append(lint.as_str());
            output.append("]");
        },
        None => {},
    }
    output.append("\n");
    assert(output@ =~= headline(*d, options));
    let mut k: usize = 0;
    while k < d.labels.len()
        invariant
            sources.wf(),
            forall|j: int| 0 <= j < d.labels@.len() ==> label_showable(#[trigger] d.labels@[j], sources.view()),
            k <= d.labels@.len(),
            output@ == headline(*d, options) + labels_text(d.labels@.take(k as int), sources.view()),
        decreases d.labels@.len() - k,
    {
        let piece = render_label(&d.labels[k], sources);
        let ghost before = output@;
        output.append(piece.as_str());
        assert(d.labels@.take(k + 1).drop_last() =~= d.labels@.take(k as int));
        assert(output@ =~= headline(*d, options) + labels_text(d.labels@.take(k + 1), sources.view()));
        k += 1;
    }
    assert(d.labels@.take(d.labels@.len() as int) =~= d.labels@);
    let ghost after_labels = output@;
    append_remarks(&mut output, "note", &d.notes);
    append_remarks(&mut output, "help", &d.help);
    assert(output@ =~= diagnostic_text(*d, sources.view(), options));
    output
}

fn append_remarks(output: &mut String, kind: &str, entries: &Vec<String>)
    ensures
        final(output)@ == old(output)@ + remarks_text(kind@, entries@),
{
    let ghost start = output@;
    let mut k: usize = 0;
    while k < entries.len()
        invariant
            k <= entries@.len(),
            output@ == start + remarks_text(kind@, entries@.take(k as int)),
        decreases entries@.len() - k,
    {
        output.append("  = ");
        output.append(kind);
        output.append(": ");
        output.append(entries[k].as_str());
        output.append("\n");
        assert(entries@.take(k + 1).drop_last() =~= entries@.take(k as int));
        assert(output@ =~= start + remarks_text(kind@, entries@.take(k + 1)));
        k += 1;
    }
    assert(entries@.take(entries@.len() as int) =~= entries@);
}

fn render_label(label: &Label, sources: &SourceMap) -> (text: String)
    requires
        sources.wf(),
        label_showable(*label, sources.view()),
    ensures
        text@ == label_text(*label, sources.view()),
{
    let mut output = String::new();
    let file = match sources.get(label.source) {
        Some(file) => file,
        None => {
            return output;
        },
    };
    let (line, column) = file.line_column(label.span.start);
    let ghost b = file.bytes();
    let ghost o = min_nat(label.span.start as nat, b.len());
    proof {
        super::source_map::lemma_counts_bounded(b, 0, o as int);
        super::source_map::lemma_counts_bounded(b, line_start_at(b, o as int), o as int);
    }
    output.append("  --> ");
    output.append(file.name.as_str());
    output.append(":");
    let line_text = decimal_string(line as u64);
    output.append(line_text.as_str());
    output.append(":");
    let column_text = decimal_string(column as u64);
    output.append(column_text.as_str());
    output.append("\n");
    assert(output@ =~= "  --> "@ + file.name@ + ":"@ + decimal((newline_count(b, o as int) + 1) as nat) + ":"@
        + decimal((char_count(b, line_start_at(b, o as int), o as int) + 1) as nat) + "\n"@);
    let text = match file.line(line) {
        Some(text) => text,
        None => {
            return output;
        },
    };
    let bytes = file.source.as_str().as_bytes();
    let gutter = decimal_width(line as u64);
    let ghost location = output@;
    append_repeated(&mut output, ' ', gutter);
    output.append(" |\n");
    output.append(line_text.as_str());
    output.append(" | ");
    output.append(text.as_str());
    output.append("\n");
    append_repeated(&mut output, ' ', gutter);
    output.append(" | ");
    let line_start = match file.line_start(line) {
        Some(start) => start,
        None => 0,
    };
    let o_exec = if label.span.start < bytes.len() {
        label.span.start
    } else {
        bytes.len()
    };
    let start_column = count_chars(bytes, line_start, o_exec);
    let end = if label.span.end < bytes.len() {
        label.span.end
    } else {
        bytes.len()
    };
    let from = if label.span.start < end {
        label.span.start
    } else {
        end
    };
    let counted = count_chars(bytes, from, end);
    let width = if counted == 0 {
        1
    } else {
        counted
    };
    let marker = if matches!(label.style, LabelStyle::Primary) {
        '^'
    } else {
        '-'
    };
    append_repeated(&mut output, ' ', start_column);
    append_repeated(&mut output, marker, width);
    match &label.message {
        Some(message) => {
            output.append(" ");
            output.append(message.as_str());
        },
        None => {},
    }
    output.append("\n");
    assert(output@ =~= label_text(*label, sources.view()));
    output
}

/// The number of characters whose encoding starts in `bytes[from..to]`.
fn count_chars(bytes: &[u8], from: usize, to: usize) -> (n: usize)
    requires
        to <= bytes@.len(),
    ensures
        n == char_count(bytes@, from as int, to as int),
{
    let mut n: usize = 0;
    let mut k = from;
    if k >= to {
        return 0;
    }
    while k < to
        invariant
            from <= k <= to <= bytes@.len(),
            n == char_count(bytes@, from as int, k as int),
            n <= k - from,
        decreases to - k,
    {
        if !(0x80 <= bytes[k] && bytes[k] <= 0xbf) {
            n += 1;
        }
        k += 1;
    }
    n
}

fn append_repeated(output: &mut String, c: char, n: usize)
    ensures
        final(output)@ == old(output)@ + repeated(c, n as nat),
{
    let ghost start = output@;
    let mut k: usize = 0;
    while k < n
        invariant
            k <= n,
            output@ == start + repeated(c, k as nat),
        decreases n - k,
    {
        push_char(output, c);
        assert(repeated(c, (k + 1) as nat) =~= repeated(c, k as nat).push(c));
        k += 1;
    }
}

} // verus!
