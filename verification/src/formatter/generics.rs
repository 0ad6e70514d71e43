//! Rejoins a generic argument list split over several lines when it fits
//! on one line (this also repairs lists an older formatter split at their
//! commas).
use vstd::prelude::*;
use vstd::utf8::*;

use super::config::FormatConfig;
use super::indentation::{generic_depth_after, line_tokens, lemma_generic_depth_grow, tokens_in, update_generic_depth};
use super::signature::{append_chars, indent_len, join_lines, join_with_newlines, line_models, lines_len};
use crate::lexer::{lex_spec, token_models, LexErrorModel};
use crate::text::{split_lines, string_from_chars, trim_chars, trim_spec, trim_start_spec};
use crate::token::{SpecToken, Token};

verus! {

/// A run of lines being joined: the joined text and the lines as they were.
pub struct Group {
    pub joined: Seq<char>,
    pub originals: Seq<Seq<char>>,
}

pub struct CollapseState {
    pub output: Seq<Seq<char>>,
    pub group: Option<Group>,
    pub depth: nat,
    pub offset: int,
}

/// The byte length of a line's indentation.
pub open spec fn indent_bytes(line: Seq<char>) -> nat {
    (encode_utf8(line.take(indent_len(line) as int)).len() as usize) as nat
}

pub open spec fn collapse_step(state: CollapseState, line: Seq<char>, tokens: Seq<SpecToken>, config: FormatConfig) -> CollapseState {
    let end = state.offset + line.len();
    let lt = tokens_in(tokens, state.offset, end);
    let depth = generic_depth_after(state.depth, lt);
    let trimmed = trim_spec(line, false);
    let next_offset = end + 1;
    match state.group {
        Some(group) => {
            let joined = if trimmed.len() > 0 {
                group.joined.push(' ') + trimmed
            } else {
                group.joined
            };
            let originals = group.originals.push(line);
            if depth == 0 {
                let first = originals[0];
                let output = if indent_bytes(first) + joined.len() <= config.max_width {
                    state.output.push(first.take(indent_len(first) as int) + joined)
                } else {
                    state.output + originals
                };
                CollapseState { output, group: None, depth, offset: next_offset }
            } else {
                CollapseState { group: Some(Group { joined, originals }), depth, offset: next_offset, ..state }
            }
        },
        None => if state.depth == 0 && depth > 0 {
            CollapseState {
                group: Some(Group { joined: trimmed, originals: seq![line] }),
                depth,
                offset: next_offset,
                ..state
            }
        } else {
            CollapseState { output: state.output.push(line), depth, offset: next_offset, ..state }
        },
    }
}

pub open spec fn collapse_upto(pieces: Seq<Seq<char>>, k: int, tokens: Seq<SpecToken>, config: FormatConfig) -> CollapseState
    decreases k,
{
    if k <= 0 {
        CollapseState { output: Seq::empty(), group: None, depth: 0, offset: 0 }
    } else {
        collapse_step(collapse_upto(pieces, k - 1, tokens, config), pieces[k - 1], tokens, config)
    }
}

/// The text of a lex error as the formatter reports it.
pub open spec fn lex_failure(source: Seq<char>, e: LexErrorModel) -> Seq<char> {
    let b = crate::lexer::byte_error(source, e);
    "lex error: "@ + b.message + " at byte "@ + crate::text::decimal(b.span.start as nat) + ".."@
        + crate::text::decimal(b.span.end as nat)
}

/// Short multi-line generic argument lists joined onto one line, or the
/// lex error that stops it.
pub open spec fn collapse_spec(source: Seq<char>, config: FormatConfig) -> Result<Seq<char>, Seq<char>> {
    if !config.collapse_short_multiline_generics {
        Ok(source)
    } else {
        match lex_spec(source) {
            Err(e) => Err(lex_failure(source, e)),
            Ok(tokens) => {
                let pieces = split_lines(source);
                let state = collapse_upto(pieces, pieces.len() as int, tokens, config);
                let output = match state.group {
                    Some(group) => state.output + group.originals,
                    None => state.output,
                };
                Ok(join_lines(output, seq!['\n']))
            },
        }
    }
}

/// The formatter's message for a text that does not lex.
pub fn lex_failure_message(source: &Vec<char>) -> (message: String)
    requires
        lex_spec(source@) is Err,
    ensures
        message@ == lex_failure(source@, lex_spec(source@)->Err_0),
{
    let text = string_from_chars(source.as_slice());
    match crate::lexer::lex(text.as_str()) {
        Ok(_) => {
            // lex_spec(source) is an error, so `lex` reports one
            String::new()
        },
        Err(error) => {
            let mut message = String::from_str("lex error: ");
            message.append(error.message.as_str());
            message.append(" at byte ");
            let start = crate::text::decimal_string(error.span.start as u64);
            message.append(start.as_str());
            message.append("..");
            let end = crate::text::decimal_string(error.span.end as u64);
            message.append(end.as_str());
            message
        },
    }
}

/// Joins short multi-line generic argument lists onto one line.
pub fn collapse_short_generics(source: &Vec<char>, config: &FormatConfig) -> (result: Result<Vec<char>, String>)
    requires
        source@.len() < usize::MAX,
    ensures
        match collapse_spec(source@, *config) {
            Ok(text) => result matches Ok(t) && t@ == text && t@.len() <= source@.len(),
            Err(message) => result matches Err(m) && m@ == message,
        },
{
    broadcast use vstd::std_specs::vec::axiom_spec_len;

    if !config.collapse_short_multiline_generics {
        return Ok(source.clone());
    }
    let tokens = match crate::lexer::lex_chars(source.clone()) {
        Ok(tokens) => tokens,
        Err(_) => {
            return Err(lex_failure_message(source));
        },
    };
    let ghost t = token_models(tokens@);
    let pieces = crate::text::lines_of_chars(source.as_slice());
    let ghost all = split_lines(source@);
    proof {
        super::signature::lemma_split_join(source@);
    }
    let mut output: Vec<Vec<char>> = Vec::new();
    let mut in_group = false;
    let mut joined: Vec<char> = Vec::new();
    let mut originals: Vec<Vec<char>> = Vec::new();
    let mut depth: usize = 0;
    let mut offset: usize = 0;
    let mut k: usize = 0;
    while k < pieces.len()
        invariant
            t == token_models(tokens@),
            pieces@.len() == all.len(),
            all == split_lines(source@),
            forall|i: int| 0 <= i < pieces@.len() ==> #[trigger] pieces@[i]@ == all[i],
            k <= pieces@.len(),
            lines_len(all) == source@.len() + 1,
            source@.len() < usize::MAX,
            ({
                let state = collapse_upto(all, k as int, t, *config);
                &&& line_models(output@) == state.output
                &&& depth == state.depth
                &&& offset == state.offset
                &&& in_group == state.group is Some
                &&& (state.group matches Some(g) ==> joined@ == g.joined && line_models(originals@)
                    == g.originals && g.originals.len() > 0 && indent_len(g.originals[0])
                    + g.joined.len() + 1 <= lines_len(g.originals))
            }),
            offset <= lines_len(all.take(k as int)),
            depth <= tokens_in(t, 0, offset as int).len(),
            lines_len(line_models(output@)) + (if in_group {
                lines_len(line_models(originals@))
            } else {
                0
            }) <= lines_len(all.take(k as int)),
        decreases pieces@.len() - k,
    {
        let line = &pieces[k];
        proof {
            assert(all.take(k + 1).drop_last() =~= all.take(k as int));
            assert(all.take(k + 1).last() == all[k as int]);
            lemma_lines_len_prefix(all, k + 1);
            assert(lines_len(all.take(k + 1)) == lines_len(all.take(k as int)) + all[k as int].len() + 1);
        }
        let end = offset + line.len();
        let lt = line_tokens(tokens.as_slice(), offset, end);
        let depth_before = depth;
        proof {
            lemma_tokens_in_split(t, 0, offset as int, end as int);
            lemma_tokens_in_split(t, 0, end as int, end + 1);
            lemma_tokens_in_len(t, 0, end as int);
            assert(tokens@.len() == tokens.len());
        }
        update_generic_depth(&mut depth, lt.as_slice());
        let trimmed = trim_chars(line.as_slice(), 0, line.len(), false);
        proof {
            assert(line@.subrange(0, line@.len() as int) =~= line@);
            assert(all.take(k + 1).drop_last() =~= all.take(k as int));
            assert(all.take(k + 1).last() == all[k as int]);
            crate::text::lemma_trim_len(line@);
            lemma_indent_trim(line@);
            lemma_generic_depth_grow(depth_before as nat, token_models(lt@));
        }
        if in_group {
            let ghost old_joined = joined@;
            if trimmed.len() > 0 {
                joined.push(' ');
                append_chars(&mut joined, trimmed.as_slice());
            }
            assert(joined@.len() <= old_joined.len() + 1 + line@.len());
            let ghost before_originals = line_models(originals@);
            originals.push(line.clone());
            assert(line_models(originals@) =~= before_originals.push(line@));
            proof {
                lemma_lines_len_push(before_originals, line@);
                assert(line_models(originals@)[0] == before_originals[0]);
                assert(indent_len(line_models(originals@)[0]) + joined@.len() + 1 <= lines_len(
                    line_models(originals@),
                ));
            }
            if depth == 0 {
                let first = &originals[0];
                let indent = leading_whitespace(first.as_slice());
                let indent_text = string_from_chars(indent.as_slice());
                let width = indent_text.as_str().len();
                if (width as u128) + (joined.len() as u128) <= config.max_width as u128 {
                    let mut collapsed: Vec<char> = Vec::new();
                    append_chars(&mut collapsed, indent.as_slice());
                    append_chars(&mut collapsed, joined.as_slice());
                    proof {
                        crate::text::lemma_trim_start_len(first@, false);
                        assert(collapsed@.len() == indent_len(first@) + joined@.len());
                    }
                    let ghost before_output = line_models(output@);
                    output.push(collapsed);
                    assert(line_models(output@) =~= before_output.push(collapsed@));
                    proof {
                        lemma_lines_len_push(before_output, collapsed@);
                    }
                } else {
                    let mut j: usize = 0;
                    let ghost before_output = line_models(output@);
                    while j < originals.len()
                        invariant
                            j <= originals@.len(),
                            line_models(output@) == before_output + line_models(originals@).take(j as int),
                        decreases originals@.len() - j,
                    {
                        let ghost prior = line_models(output@);
                        output.push(originals[j].clone());
                        assert(line_models(output@) =~= prior.push(originals@[j as int]@));
                        assert(line_models(originals@).take(j + 1) =~= line_models(originals@).take(j as int).push(
                            originals@[j as int]@,
                        ));
                        j += 1;
                    }
                    assert(line_models(originals@).take(originals@.len() as int) =~= line_models(originals@));
                    proof {
                        lemma_lines_len_concat(before_output, line_models(originals@));
                    }
                }
                in_group = false;
                joined = Vec::new();
                originals = Vec::new();
            }
        } else if depth_before == 0 && depth > 0 {
            in_group = true;
            joined = trimmed;
            originals = Vec::new();
            originals.push(line.clone());
            assert(line_models(originals@) =~= seq![line@]);
            proof {
                lemma_lines_len_push(Seq::empty(), line@);
                assert(seq![line@] =~= Seq::<Seq<char>>::empty().push(line@));
            }
        } else {
            let ghost before_output = line_models(output@);
            output.push(line.clone());
            assert(line_models(output@) =~= before_output.push(line@));
            proof {
                lemma_lines_len_push(before_output, line@);
            }
        }
        offset = end + 1;
        k += 1;
    }
    assert(all.take(all.len() as int) =~= all);
    if in_group {
        let mut j: usize = 0;
        let ghost before_output = line_models(output@);
        while j < originals.len()
            invariant
                j <= originals@.len(),
                line_models(output@) == before_output + line_models(originals@).take(j as int),
            decreases originals@.len() - j,
        {
            let ghost prior = line_models(output@);
            output.push(originals[j].clone());
            assert(line_models(output@) =~= prior.push(originals@[j as int]@));
            assert(line_models(originals@).take(j + 1) =~= line_models(originals@).take(j as int).push(
                originals@[j as int]@,
            ));
            j += 1;
        }
        assert(line_models(originals@).take(originals@.len() as int) =~= line_models(originals@));
        proof {
            lemma_lines_len_concat(before_output, line_models(originals@));
        }
    }
    let text = join_with_newlines(&output);
    proof {
        if output@.len() > 0 {
            super::signature::lemma_join_len(line_models(output@));
        }
    }
    Ok(text)
}

/// A line's leading whitespace.
fn leading_whitespace(line: &[char]) -> (indent: Vec<char>)
    ensures
        indent@ == line@.take(indent_len(line@) as int),
{
    let ghost ts = trim_start_spec(line@, false);
    let mut n: usize = 0;
    assert(line@.skip(0) =~= line@);
    while n < line.len() && crate::text::char_is_whitespace(line[n])
        invariant
            n <= line@.len(),
            ts == trim_start_spec(line@.skip(n as int), false),
        decreases line@.len() - n,
    {
        assert(line@.skip(n as int).drop_first() =~= line@.skip(n + 1));
        n += 1;
    }
    assert(ts == line@.skip(n as int));
    let mut indent: Vec<char> = Vec::new();
    let mut k: usize = 0;
    while k < n
        invariant
            k <= n <= line@.len(),
            indent@ == line@.take(k as int),
        decreases n - k,
    {
        indent.push(line[k]);
        assert(line@.take(k + 1) =~= line@.take(k as int).push(line@[k as int]));
        k += 1;
    }
    indent
}

pub proof fn lemma_lines_len_push(lines: Seq<Seq<char>>, line: Seq<char>)
    ensures
        lines_len(lines.push(line)) == lines_len(lines) + line.len() + 1,
{
    assert(lines.push(line).drop_last() =~= lines);
}

proof fn lemma_indent_trim(line: Seq<char>)
    ensures
        indent_len(line) + trim_spec(line, false).len() <= line.len(),
{
    crate::text::lemma_trim_start_len(line, false);
    crate::text::lemma_trim_end_len(trim_start_spec(line, false), false);
}

pub proof fn lemma_lines_len_prefix(all: Seq<Seq<char>>, k: int)
    requires
        0 <= k <= all.len(),
    ensures
        lines_len(all.take(k)) <= lines_len(all),
    decreases all.len() - k,
{
    if k < all.len() {
        lemma_lines_len_prefix(all, k + 1);
        assert(all.take(k + 1).drop_last() =~= all.take(k));
    } else {
        assert(all.take(k) =~= all);
    }
}

pub proof fn lemma_lines_len_concat(a: Seq<Seq<char>>, b: Seq<Seq<char>>)
    ensures
        lines_len(a + b) == lines_len(a) + lines_len(b),
    decreases b.len(),
{
    if b.len() == 0 {
        assert(a + b =~= a);
    } else {
        lemma_lines_len_concat(a, b.drop_last());
        assert((a + b).drop_last() =~= a + b.drop_last());
    }
}

/// Tokens before `b` are those before `a` and those in `a..b`.
pub proof fn lemma_tokens_in_split(t: Seq<SpecToken>, lo: int, a: int, b: int)
    requires
        lo <= a <= b,
    ensures
        tokens_in(t, lo, b).len() == tokens_in(t, lo, a).len() + tokens_in(t, a, b).len(),
    decreases t.len(),
{
    if t.len() > 0 {
        lemma_tokens_in_split(t.drop_last(), lo, a, b);
    }
}

pub proof fn lemma_tokens_in_len(t: Seq<SpecToken>, a: int, b: int)
    ensures
        tokens_in(t, a, b).len() <= t.len(),
    decreases t.len(),
{
    if t.len() > 0 {
        lemma_tokens_in_len(t.drop_last(), a, b);
    }
}

} // verus!
