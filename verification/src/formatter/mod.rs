//! Formatting: re-indents and re-wraps BitterASM text, re-fills comments
//! and limits blank lines.
use vstd::prelude::*;

pub mod config;
pub mod generics;
pub mod indentation;
pub mod signature;
pub mod wrapping;

pub use config::{parse_config, FormatConfig, NewlineStyle};

use crate::lexer::{lex_spec, token_models};
use crate::text::{chars_are, chars_of, contains_seq, contains_str, split_lines, trim_chars, trim_spec};
use crate::token::{SpecToken, SpecTokenKind, Token, TokenKind, TokenKindG};
use generics::{
    collapse_short_generics, collapse_spec, lemma_lines_len_push, lemma_tokens_in_len, lemma_tokens_in_split,
    lex_failure, lex_failure_message,
};
use indentation::{
    contains_facet, contains_facet_spec, delimiters_after, generic_depth_after, indent_spec, is_facet,
    is_facet_spec, kind_models, leading_closers, leading_closers_spec, leading_generic_closers,
    leading_generic_closers_spec, lemma_delimiters_grow, lemma_generic_depth_grow, line_tokens, make_indent,
    tokens_in, update_delimiters, update_generic_depth,
};
use signature::{join_lines, lines_len, normalize_macro_signatures, normalize_signatures_spec, starts_with};
use wrapping::{
    sat_sub, split_inline_facets, split_inline_facets_spec, text_models, wrap_code, wrap_code_spec, wrap_comment,
    wrap_comment_spec,
};

verus! {

// ================
// the whole text
// ================

/// The newline the output uses: CRLF where asked for, or where `Auto`
/// finds one in the source; LF otherwise.
pub open spec fn newline_of(source: Seq<char>, style: NewlineStyle) -> Seq<char> {
    match style {
        NewlineStyle::Auto => if contains_seq(source, "\r\n"@) {
            "\r\n"@
        } else {
            "\n"@
        },
        NewlineStyle::Windows => "\r\n"@,
        NewlineStyle::Unix => "\n"@,
    }
}

/// The text with CRLF and lone CR line endings both made LF.
pub open spec fn unix_newlines(s: Seq<char>) -> Seq<char>
    decreases s.len(),
{
    if s.len() == 0 {
        s
    } else {
        let before = unix_newlines(s.drop_last());
        let c = s.last();
        if c == '\r' {
            before.push('\n')
        } else if c == '\n' && s.len() >= 2 && s[s.len() - 2] == '\r' {
            before
        } else {
            before.push(c)
        }
    }
}

/// A block declaration at the top level: `macro`, `struct`, `enum` or
/// `type`, possibly `pub`.
pub open spec fn is_top_level_declaration_spec(content: Seq<char>) -> bool {
    let rest = if starts_with(content, "pub "@) {
        content.skip(4)
    } else {
        content
    };
    starts_with(rest, "macro "@) || starts_with(rest, "struct "@) || starts_with(rest, "enum "@) || starts_with(
        rest,
        "type "@,
    )
}

/// Whether any of the tokens is `{`.
pub open spec fn opens_brace(lt: Seq<SpecToken>) -> bool {
    exists|i: int| 0 <= i < lt.len() && (#[trigger] lt[i]).kind is LBrace
}

/// The entries no greater than `n`, in order.
pub open spec fn at_most(s: Seq<usize>, n: nat) -> Seq<usize>
    decreases s.len(),
{
    if s.len() == 0 {
        s
    } else {
        let before = at_most(s.drop_last(), n);
        if s.last() <= n {
            before.push(s.last())
        } else {
            before
        }
    }
}

/// The formatter's state between lines: the output so far, the open
/// delimiters and generic lists, the depths of facet blocks, the blank
/// lines just seen, and where the next line starts.
pub struct FormatState {
    pub result: Seq<Seq<char>>,
    pub delimiters: Seq<SpecTokenKind>,
    pub generic: nat,
    pub facet_blocks: Seq<usize>,
    pub blank_lines: nat,
    pub offset: int,
}

/// The lines a non-blank line becomes.
pub open spec fn laid_out(
    content: Seq<char>,
    lt: Seq<SpecToken>,
    offset: int,
    state: FormatState,
    line_depth: nat,
    depth_bias: nat,
    config: FormatConfig,
) -> Seq<Seq<char>> {
    if content[0] == '#' {
        wrap_comment_spec(content, indent_spec(line_depth, config), config.comment_width as nat)
    } else {
        match split_inline_facets_spec(content, lt, offset, line_depth, config) {
            Some(lines) => lines,
            None => wrap_code_spec(content, lt, offset, state.delimiters, state.generic, depth_bias, config),
        }
    }
}

pub open spec fn format_step(state: FormatState, line: Seq<char>, tokens: Seq<SpecToken>, config: FormatConfig) -> FormatState {
    let end = state.offset + line.len();
    let lt = tokens_in(tokens, state.offset, end);
    let content = trim_spec(line, false);
    if content.len() == 0 {
        FormatState {
            result: if state.result.len() > 0 && state.blank_lines < config.max_blank_lines {
                state.result.push(Seq::empty())
            } else {
                state.result
            },
            blank_lines: state.blank_lines + 1,
            offset: end + 1,
            ..state
        }
    } else {
        let separated = if state.delimiters.len() == 0 && state.result.len() > 0 && trim_spec(
            state.result.last(),
            false,
        ) == "}"@ && is_top_level_declaration_spec(content) {
            state.result.push(Seq::empty())
        } else {
            state.result
        };
        let facet_indent = config.indent_facets && is_facet_spec(lt);
        let depth_bias = state.facet_blocks.len() + if facet_indent {
            1nat
        } else {
            0nat
        };
        let line_depth = sat_sub(state.delimiters.len() as int, leading_closers_spec(lt) as int) + sat_sub(
            state.generic as int,
            leading_generic_closers_spec(lt) as int,
        ) + depth_bias;
        let delimiters = delimiters_after(state.delimiters, lt);
        let opened = config.indent_facets && (facet_indent || contains_facet_spec(lt)) && opens_brace(lt)
            && delimiters.len() > state.delimiters.len();
        let blocks = if opened {
            state.facet_blocks.push(delimiters.len() as usize)
        } else {
            state.facet_blocks
        };
        FormatState {
            result: separated + laid_out(content, lt, state.offset, state, line_depth, depth_bias, config),
            delimiters,
            generic: generic_depth_after(state.generic, lt),
            facet_blocks: at_most(blocks, delimiters.len()),
            blank_lines: 0,
            offset: end + 1,
        }
    }
}

pub open spec fn format_upto(pieces: Seq<Seq<char>>, k: int, tokens: Seq<SpecToken>, config: FormatConfig) -> FormatState
    decreases k,
{
    if k <= 0 {
        FormatState {
            result: Seq::empty(),
            delimiters: Seq::empty(),
            generic: 0,
            facet_blocks: Seq::empty(),
            blank_lines: 0,
            offset: 0,
        }
    } else {
        format_step(format_upto(pieces, k - 1, tokens, config), pieces[k - 1], tokens, config)
    }
}

/// A line holding nothing but whitespace.
pub open spec fn is_blank_piece(line: Seq<char>) -> bool {
    trim_spec(line, false).len() == 0
}

/// `count` empty lines.
pub open spec fn empty_lines(count: int) -> Seq<Seq<char>> {
    Seq::new(count as nat, |i: int| Seq::<char>::empty())
}

/// Blank lines at the start of the text produce nothing: until the first
/// non-blank line there is no output.
pub proof fn lemma_leading_blank_lines_vanish(
    pieces: Seq<Seq<char>>,
    tokens: Seq<SpecToken>,
    config: FormatConfig,
    k: int,
)
    requires
        0 <= k <= pieces.len(),
        forall|j: int| 0 <= j < k ==> is_blank_piece(#[trigger] pieces[j]),
    ensures
        format_upto(pieces, k, tokens, config).result.len() == 0,
    decreases k,
{
    if k > 0 {
        lemma_leading_blank_lines_vanish(pieces, tokens, config, k - 1);
        assert(is_blank_piece(pieces[k - 1]));
    }
}

/// Blank lines are limited run by run: after a non-blank line, a run of
/// `n` blank lines becomes `min(n, max_blank_lines)` empty lines in the
/// output (once there is output to separate), however many blank lines
/// came earlier in the file.
pub proof fn lemma_blank_runs_are_limited_one_by_one(
    pieces: Seq<Seq<char>>,
    tokens: Seq<SpecToken>,
    config: FormatConfig,
    k: int,
    n: int,
)
    requires
        0 < k,
        0 <= n,
        k + n <= pieces.len(),
        !is_blank_piece(pieces[k - 1]),
        forall|j: int| k <= j < k + n ==> is_blank_piece(#[trigger] pieces[j]),
        format_upto(pieces, k, tokens, config).result.len() > 0,
    ensures
        format_upto(pieces, k + n, tokens, config).result == format_upto(pieces, k, tokens, config).result
            + empty_lines(if n < config.max_blank_lines { n } else { config.max_blank_lines as int }),
        format_upto(pieces, k + n, tokens, config).blank_lines == n,
    decreases n,
{
    if n == 0 {
        assert(format_upto(pieces, k, tokens, config).result =~= format_upto(pieces, k, tokens, config).result
            + empty_lines(0));
    } else {
        lemma_blank_runs_are_limited_one_by_one(pieces, tokens, config, k, n - 1);
        let before = format_upto(pieces, k + n - 1, tokens, config);
        assert(is_blank_piece(pieces[k + n - 1]));
        assert(format_upto(pieces, k + n, tokens, config) == format_step(before, pieces[k + n - 1], tokens, config));
        let base = format_upto(pieces, k, tokens, config).result;
        let m = config.max_blank_lines as int;
        if n - 1 < m {
            assert(base + empty_lines(n) =~= (base + empty_lines(n - 1)).push(Seq::empty()));
        } else {
            assert(empty_lines(m) =~= empty_lines(if n < m { n } else { m }));
        }
    }
}

/// The lines without the blank ones at the end.
pub open spec fn without_trailing_blanks(lines: Seq<Seq<char>>) -> Seq<Seq<char>>
    decreases lines.len(),
{
    if lines.len() > 0 && lines.last().len() == 0 {
        without_trailing_blanks(lines.drop_last())
    } else {
        lines
    }
}

/// What formatting a text gives: its lines re-indented by the delimiters
/// open at each line, long lines wrapped, comments re-filled, blank lines
/// limited, each line ended by the chosen newline; or the lex error that
/// stops it.
pub open spec fn format_spec(source: Seq<char>, config: FormatConfig) -> Result<Seq<char>, Seq<char>> {
    let newline = newline_of(source, config.newline_style);
    let signatures = normalize_signatures_spec(unix_newlines(source), config);
    match collapse_spec(signatures, config) {
        Err(e) => Err(e),
        Ok(text) => match lex_spec(text) {
            Err(e) => Err(lex_failure(text, e)),
            Ok(tokens) => {
                let pieces = split_lines(text);
                let state = format_upto(pieces, pieces.len() as int, tokens, config);
                Ok(join_lines(without_trailing_blanks(state.result), newline) + newline)
            },
        },
    }
}

/// Formatted text always ends with the chosen newline: whatever the
/// input, a successful format leaves the file ending in a line break.
pub proof fn lemma_format_ends_with_newline(source: Seq<char>, config: FormatConfig)
    ensures
        format_spec(source, config) matches Ok(text) ==> {
            let newline = newline_of(source, config.newline_style);
            text.len() >= newline.len() && text.skip(text.len() - newline.len()) == newline
        },
{
    if format_spec(source, config) is Ok {
        let newline = newline_of(source, config.newline_style);
        let signatures = normalize_signatures_spec(unix_newlines(source), config);
        let text = collapse_spec(signatures, config)->Ok_0;
        let tokens = lex_spec(text)->Ok_0;
        let pieces = split_lines(text);
        let state = format_upto(pieces, pieces.len() as int, tokens, config);
        let body = join_lines(without_trailing_blanks(state.result), newline);
        assert(format_spec(source, config) == Ok::<Seq<char>, Seq<char>>(body + newline));
        assert((body + newline).skip(body.len() as int) =~= newline);
    }
}

// ================
// formatting
// ================

/// Formats whitespace while keeping every token and comment.
pub fn format_source(source: &str, config: &FormatConfig) -> (result: Result<String, String>)
    requires
        source@.len() < usize::MAX / 4,
    ensures
        match format_spec(source@, *config) {
            Ok(text) => result matches Ok(t) && t@ == text,
            Err(message) => result matches Err(m) && m@ == message,
        },
{
    let windows = match config.newline_style {
        NewlineStyle::Auto => contains_str(source, "\r\n"),
        NewlineStyle::Windows => true,
        NewlineStyle::Unix => false,
    };
    let newline = if windows {
        "\r\n"
    } else {
        "\n"
    };
    assert(newline@ == newline_of(source@, config.newline_style));
    let chars = chars_of(source);
    let unix = to_unix_newlines(chars.as_slice());
    let signatures = normalize_macro_signatures(&unix, config);
    let text = collapse_short_generics(&signatures, config)?;
    let tokens = match crate::lexer::lex_chars(text.clone()) {
        Ok(tokens) => tokens,
        Err(_) => {
            return Err(lex_failure_message(&text));
        },
    };
    proof {
        crate::lexer::lemma_lex_from_count(text@, 0);
    }
    let lines = format_lines(&text, &tokens, config);
    let mut count = lines.len();
    assert(lines@.take(count as int) =~= lines@);
    while count > 0 && lines[count - 1].as_str().is_empty()
        invariant
            count <= lines@.len(),
            without_trailing_blanks(text_models(lines@)) == without_trailing_blanks(text_models(lines@.take(count as int))),
        decreases count,
    {
        proof {
            assert(text_models(lines@.take(count as int)).drop_last() =~= text_models(lines@.take(count - 1)));
            assert(lines@[count - 1]@.len() == 0);
        }
        count -= 1;
    }
    proof {
        if count > 0 {
            assert(lines@[count - 1]@.len() != 0);
        }
        assert(without_trailing_blanks(text_models(lines@.take(count as int))) == text_models(lines@.take(count as int)));
    }
    let mut output = String::new();
    let mut k: usize = 0;
    while k < count
        invariant
            count <= lines@.len(),
            k <= count,
            output@ == join_lines(text_models(lines@.take(k as int)), newline@),
        decreases count - k,
    {
        assert(text_models(lines@.take(k + 1)).drop_last() =~= text_models(lines@.take(k as int)));
        assert(text_models(lines@.take(k + 1)).last() == lines@[k as int]@);
        if k > 0 {
            output.append(newline);
        } else {
            assert(text_models(lines@.take(1))[0] == lines@[0]@);
            assert(output@ =~= Seq::<char>::empty());
        }
        output.append(lines[k].as_str());
        k += 1;
    }
    output.append(newline);
    assert(lines@.take(count as int) == lines@.take(count as int));
    Ok(output)
}

/// CRLF and lone CR made LF.
fn to_unix_newlines(chars: &[char]) -> (unix: Vec<char>)
    ensures
        unix@ == unix_newlines(chars@),
        unix@.len() <= chars@.len(),
{
    let mut unix: Vec<char> = Vec::new();
    let mut i: usize = 0;
    while i < chars.len()
        invariant
            i <= chars@.len(),
            unix@ == unix_newlines(chars@.take(i as int)),
            unix@.len() <= i,
        decreases chars@.len() - i,
    {
        let ghost prefix = chars@.take(i + 1);
        assert(prefix.drop_last() =~= chars@.take(i as int));
        assert(prefix.last() == chars@[i as int]);
        let c = chars[i];
        if c == '\r' {
            unix.push('\n');
        } else if c == '\n' && i >= 1 && chars[i - 1] == '\r' {
            assert(prefix[prefix.len() - 2] == chars@[i - 1]);
        } else {
            proof {
                if i >= 1 {
                    assert(prefix[prefix.len() - 2] == chars@[i - 1]);
                }
            }
            unix.push(c);
        }
        i += 1;
    }
    assert(chars@.take(chars@.len() as int) =~= chars@);
    unix
}

fn is_top_level_declaration(content: &[char]) -> (top: bool)
    ensures
        top == is_top_level_declaration_spec(content@),
{
    let rest = if signature::starts_with_exec(content, "pub ") {
        proof {
            reveal_strlit("pub ");
        }
        signature::slice_from(content, 4)
    } else {
        let all = signature::slice_from(content, 0);
        assert(content@.skip(0) =~= content@);
        all
    };
    signature::starts_with_exec(rest.as_slice(), "macro ") || signature::starts_with_exec(rest.as_slice(), "struct ")
        || signature::starts_with_exec(rest.as_slice(), "enum ") || signature::starts_with_exec(
        rest.as_slice(),
        "type ",
    )
}

fn has_brace(lt: &[Token]) -> (found: bool)
    ensures
        found == opens_brace(token_models(lt@)),
{
    let ghost t = token_models(lt@);
    let mut i: usize = 0;
    while i < lt.len()
        invariant
            t == token_models(lt@),
            i <= lt@.len(),
            forall|j: int| 0 <= j < i ==> !((#[trigger] t[j]).kind is LBrace),
        decreases lt@.len() - i,
    {
        if matches!(lt[i].kind, TokenKindG::LBrace) {
            assert(t[i as int].kind is LBrace);
            return true;
        }
        i += 1;
    }
    false
}

fn keep_at_most(blocks: &Vec<usize>, n: usize) -> (kept: Vec<usize>)
    ensures
        kept@ == at_most(blocks@, n as nat),
        kept@.len() <= blocks@.len(),
{
    let mut kept: Vec<usize> = Vec::new();
    let mut i: usize = 0;
    while i < blocks.len()
        invariant
            i <= blocks@.len(),
            kept@ == at_most(blocks@.take(i as int), n as nat),
            kept@.len() <= i,
        decreases blocks@.len() - i,
    {
        assert(blocks@.take(i + 1).drop_last() =~= blocks@.take(i as int));
        if blocks[i] <= n {
            kept.push(blocks[i]);
        }
        i += 1;
    }
    assert(blocks@.take(blocks@.len() as int) =~= blocks@);
    kept
}

/// Whether the text, trimmed, is a lone `}`.
fn is_closing_brace_line(line: &String) -> (closing: bool)
    ensures
        closing == (trim_spec(line@, false) == "}"@),
{
    let chars = chars_of(line.as_str());
    let trimmed = trim_chars(chars.as_slice(), 0, chars.len(), false);
    assert(chars@.subrange(0, chars@.len() as int) =~= chars@);
    chars_are(trimmed.as_slice(), "}")
}

fn append_lines(result: &mut Vec<String>, more: Vec<String>)
    ensures
        text_models(final(result)@) == text_models(old(result)@) + text_models(more@),
{
    let ghost start = text_models(result@);
    let mut more = more;
    let ghost all = text_models(more@);
    let mut taken: Vec<String> = Vec::new();
    let mut k: usize = 0;
    while k < more.len()
        invariant
            all == text_models(more@),
            k <= more@.len(),
            text_models(result@) == start + all.take(k as int),
        decreases more@.len() - k,
    {
        let line = more[k].clone();
        let ghost before = text_models(result@);
        result.push(line);
        assert(text_models(result@) =~= before.push(all[k as int]));
        assert(all.take(k + 1) =~= all.take(k as int).push(all[k as int]));
        k += 1;
    }
    assert(all.take(all.len() as int) =~= all);
}

proof fn lemma_lines_count(lines: Seq<Seq<char>>)
    ensures
        lines.len() <= lines_len(lines),
    decreases lines.len(),
{
    if lines.len() > 0 {
        lemma_lines_count(lines.drop_last());
    }
}

/// Lays out one non-blank line and moves the formatter's state past it.
fn format_content_line(
    content: &[char],
    lt: &[Token],
    offset: usize,
    result: &mut Vec<String>,
    delimiters: &mut Vec<TokenKind>,
    generic_depth: &mut usize,
    facet_blocks: &mut Vec<usize>,
    config: &FormatConfig,
    state: Ghost<FormatState>,
)
    requires
        content@.len() > 0,
        text_models(old(result)@) == state@.result,
        kind_models(old(delimiters)@) == state@.delimiters,
        *old(generic_depth) == state@.generic,
        old(facet_blocks)@ == state@.facet_blocks,
        old(delimiters)@.len() + lt@.len() + *old(generic_depth) + old(facet_blocks)@.len() + 3 < usize::MAX,
    ensures
        ({
            let lts = token_models(lt@);
            let facet_indent = config.indent_facets && is_facet_spec(lts);
            let depth_bias = state@.facet_blocks.len() + if facet_indent {
                1nat
            } else {
                0nat
            };
            let line_depth = sat_sub(state@.delimiters.len() as int, leading_closers_spec(lts) as int) + sat_sub(
                state@.generic as int,
                leading_generic_closers_spec(lts) as int,
            ) + depth_bias;
            let separated = if state@.delimiters.len() == 0 && state@.result.len() > 0 && trim_spec(
                state@.result.last(),
                false,
            ) == "}"@ && is_top_level_declaration_spec(content@) {
                state@.result.push(Seq::empty())
            } else {
                state@.result
            };
            let delims = delimiters_after(state@.delimiters, lts);
            let opened = config.indent_facets && (facet_indent || contains_facet_spec(lts)) && opens_brace(lts)
                && delims.len() > state@.delimiters.len();
            let blocks = if opened {
                state@.facet_blocks.push(delims.len() as usize)
            } else {
                state@.facet_blocks
            };
            &&& text_models(final(result)@) == separated + laid_out(
                content@,
                lts,
                offset as int,
                state@,
                line_depth,
                depth_bias,
                *config,
            )
            &&& kind_models(final(delimiters)@) == delims
            &&& *final(generic_depth) == generic_depth_after(state@.generic, lts)
            &&& final(facet_blocks)@ == at_most(blocks, delims.len())
            &&& final(facet_blocks)@.len() <= old(facet_blocks)@.len() + 1
        }),
{
    if delimiters.len() == 0 && result.len() > 0 && is_closing_brace_line(&result[result.len() - 1])
        && is_top_level_declaration(content) {
        let ghost before = text_models(result@);
        result.push(String::new());
        assert(text_models(result@) =~= before.push(Seq::<char>::empty()));
    }
    let closers = leading_closers(lt);
    let generic_closers = leading_generic_closers(lt);
    let facet_indent = config.indent_facets && is_facet(lt);
    let depth_bias = facet_blocks.len() + if facet_indent {
        1
    } else {
        0
    };
    let line_depth = (if delimiters.len() >= closers {
        delimiters.len() - closers
    } else {
        0
    }) + (if *generic_depth >= generic_closers {
        *generic_depth - generic_closers
    } else {
        0
    }) + depth_bias;
    let indent = make_indent(line_depth, config);
    let lines = if content[0] == '#' {
        wrap_comment(content, &indent, config.comment_width)
    } else {
        match split_inline_facets(content, lt, offset, line_depth, config) {
            Some(lines) => lines,
            None => wrap_code(content, lt, offset, delimiters.as_slice(), *generic_depth, depth_bias, config),
        }
    };
    append_lines(result, lines);
    let previous_depth = delimiters.len();
    proof {
        lemma_generic_depth_grow(*generic_depth as nat, token_models(lt@));
    }
    update_delimiters(delimiters, lt);
    update_generic_depth(generic_depth, lt);
    let opened = config.indent_facets && (facet_indent || contains_facet(lt)) && has_brace(lt) && delimiters.len()
        > previous_depth;
    if opened {
        facet_blocks.push(delimiters.len());
    }
    let kept = keep_at_most(facet_blocks, delimiters.len());
    *facet_blocks = kept;
}

/// Lays out every line of the (normalized) text.
fn format_lines(text: &Vec<char>, tokens: &Vec<Token>, config: &FormatConfig) -> (lines: Vec<String>)
    requires
        text@.len() < usize::MAX / 4,
        tokens@.len() <= text@.len() + 1,
    ensures
        ({
            let pieces = split_lines(text@);
            text_models(lines@) == format_upto(pieces, pieces.len() as int, token_models(tokens@), *config).result
        }),
{
    broadcast use vstd::std_specs::vec::axiom_spec_len;

    let ghost t = token_models(tokens@);
    let pieces = crate::text::lines_of_chars(text.as_slice());
    let ghost all = split_lines(text@);
    proof {
        signature::lemma_split_join(text@);
        lemma_lines_count(all);
    }
    let mut result: Vec<String> = Vec::new();
    let mut delimiters: Vec<TokenKind> = Vec::new();
    let mut generic_depth: usize = 0;
    let mut facet_blocks: Vec<usize> = Vec::new();
    let mut blank_lines: usize = 0;
    let mut offset: usize = 0;
    let mut k: usize = 0;
    while k < pieces.len()
        invariant
            t == token_models(tokens@),
            pieces@.len() == all.len(),
            all == split_lines(text@),
            forall|i: int| 0 <= i < pieces@.len() ==> #[trigger] pieces@[i]@ == all[i],
            k <= pieces@.len(),
            lines_len(all) == text@.len() + 1,
            text@.len() < usize::MAX / 4,
            tokens@.len() <= text@.len() + 1,
            ({
                let state = format_upto(all, k as int, t, *config);
                &&& text_models(result@) == state.result
                &&& kind_models(delimiters@) == state.delimiters
                &&& generic_depth == state.generic
                &&& facet_blocks@ == state.facet_blocks
                &&& blank_lines == state.blank_lines
                &&& offset == state.offset
            }),
            offset <= lines_len(all.take(k as int)),
            delimiters@.len() <= tokens_in(t, 0, offset as int).len(),
            generic_depth <= tokens_in(t, 0, offset as int).len(),
            facet_blocks@.len() <= k,
            blank_lines <= k,
            all.len() <= text@.len() + 1,
        decreases pieces@.len() - k,
    {
        let line = &pieces[k];
        proof {
            assert(all.take(k + 1).drop_last() =~= all.take(k as int));
            assert(all.take(k + 1).last() == all[k as int]);
            generics::lemma_lines_len_prefix(all, k + 1);
            assert(lines_len(all.take(k + 1)) == lines_len(all.take(k as int)) + all[k as int].len() + 1);
        }
        let end = offset + line.len();
        let lt = line_tokens(tokens.as_slice(), offset, end);
        let ghost lts = token_models(lt@);
        proof {
            lemma_tokens_in_split(t, 0, offset as int, end as int);
            lemma_tokens_in_split(t, 0, end as int, end + 1);
            lemma_tokens_in_len(t, 0, end as int);
            lemma_delimiters_grow(kind_models(delimiters@), lts);
            lemma_generic_depth_grow(generic_depth as nat, lts);
        }
        let content = trim_chars(line.as_slice(), 0, line.len(), false);
        assert(line@.subrange(0, line@.len() as int) =~= line@);
        let ghost state = format_upto(all, k as int, t, *config);
        assert(format_upto(all, k + 1, t, *config) == format_step(state, all[k as int], t, *config));
        assert(lt@.len() == lts.len());
        assert(tokens@.len() == t.len());
        if content.len() == 0 {
            if result.len() > 0 && blank_lines < config.max_blank_lines {
                let ghost before = text_models(result@);
                result.push(String::new());
                assert(text_models(result@) =~= before.push(Seq::<char>::empty()));
            }
            blank_lines = blank_lines + 1;
        } else {
            blank_lines = 0;
            format_content_line(
                content.as_slice(),
                lt.as_slice(),
                offset,
                &mut result,
                &mut delimiters,
                &mut generic_depth,
                &mut facet_blocks,
                config,
                Ghost(state),
            );
        }
        offset = end + 1;
        k += 1;
    }
    assert(all.take(all.len() as int) =~= all);
    result
}

proof fn lemma_no_trailing_blank(lines: Seq<Seq<char>>)
    ensures
        without_trailing_blanks(lines).len() > 0 ==> without_trailing_blanks(lines).last().len() > 0,
    decreases lines.len(),
{
    if lines.len() > 0 && lines.last().len() == 0 {
        lemma_no_trailing_blank(lines.drop_last());
    }
}

/// Formatted text is its lines joined by the chosen newline, plus one
/// newline at the end, and its last line (if any) is not blank.
pub proof fn lemma_formatted_text_ends_cleanly(source: Seq<char>, config: FormatConfig)
    ensures
        format_spec(source, config) matches Ok(text) ==> exists|lines: Seq<Seq<char>>|
            #![trigger join_lines(lines, newline_of(source, config.newline_style))]
            text == join_lines(lines, newline_of(source, config.newline_style)) + newline_of(
                source,
                config.newline_style,
            ) && (lines.len() > 0 ==> lines.last().len() > 0),
{
    let newline = newline_of(source, config.newline_style);
    if let Ok(text) = format_spec(source, config) {
        let signatures = normalize_signatures_spec(unix_newlines(source), config);
        let collapsed = collapse_spec(signatures, config)->Ok_0;
        let tokens = lex_spec(collapsed)->Ok_0;
        let pieces = split_lines(collapsed);
        let result = format_upto(pieces, pieces.len() as int, tokens, config).result;
        let lines = without_trailing_blanks(result);
        lemma_no_trailing_blank(result);
        assert(text == join_lines(lines, newline) + newline);
    }
}

} // verus!
