//! Moves a macro's `| pub` and `| -> type` signature lines back onto its
//! declaration line; genuine facets stay as `| ...` continuation lines.
use vstd::prelude::*;

use super::config::FormatConfig;
use crate::text::{chars_are, split_lines, trim_chars, trim_spec};

verus! {

/// The total length of the lines plus one separator after each.
pub open spec fn lines_len(lines: Seq<Seq<char>>) -> nat
    decreases lines.len(),
{
    if lines.len() == 0 {
        0
    } else {
        lines_len(lines.drop_last()) + lines.last().len() + 1
    }
}

/// The lines joined with `sep` between them.
pub open spec fn join_lines(lines: Seq<Seq<char>>, sep: Seq<char>) -> Seq<char>
    decreases lines.len(),
{
    if lines.len() == 0 {
        Seq::empty()
    } else if lines.len() == 1 {
        lines[0]
    } else {
        join_lines(lines.drop_last(), sep) + sep + lines.last()
    }
}

pub proof fn lemma_join_len(lines: Seq<Seq<char>>)
    requires
        lines.len() > 0,
    ensures
        join_lines(lines, seq!['\n']).len() + 1 == lines_len(lines),
    decreases lines.len(),
{
    assert(lines_len(lines) == lines_len(lines.drop_last()) + lines.last().len() + 1);
    if lines.len() > 1 {
        lemma_join_len(lines.drop_last());
        assert(join_lines(lines, seq!['\n']) == join_lines(lines.drop_last(), seq!['\n']) + seq!['\n']
            + lines.last());
    } else {
        assert(lines.drop_last().len() == 0);
        assert(lines_len(lines.drop_last()) == 0);
    }
}

/// Splitting at newlines and joining back gives the text.
pub proof fn lemma_split_join(s: Seq<char>)
    ensures
        join_lines(split_lines(s), seq!['\n']) == s,
        lines_len(split_lines(s)) == s.len() + 1,
    decreases s.len(),
{
    crate::text::lemma_split_lines_nonempty(s);
    if s.len() == 0 {
        let lines = split_lines(s);
        assert(lines.drop_last().len() == 0);
        assert(lines_len(lines) == lines_len(lines.drop_last()) + lines.last().len() + 1);
        assert(join_lines(lines, seq!['\n']) =~= s);
    } else {
        let rest = split_lines(s.drop_last());
        lemma_split_join(s.drop_last());
        crate::text::lemma_split_lines_nonempty(s.drop_last());
        let lines = split_lines(s);
        if s.last() == '\n' {
            assert(lines.drop_last() =~= rest);
            assert(lines_len(lines) == lines_len(rest) + 0 + 1);
            assert(join_lines(lines, seq!['\n']) =~= s);
        } else {
            assert(lines.drop_last() =~= rest.drop_last());
            if rest.len() > 1 {
                assert(join_lines(rest, seq!['\n']) == join_lines(rest.drop_last(), seq!['\n']) + seq!['\n']
                    + rest.last());
                assert(join_lines(lines, seq!['\n']) =~= join_lines(rest, seq!['\n']).push(s.last()));
            } else {
                assert(join_lines(lines, seq!['\n']) =~= join_lines(rest, seq!['\n']).push(s.last()));
            }
            assert(s =~= s.drop_last().push(s.last()));
            lemma_update_len(rest, rest.len() - 1, rest.last().push(s.last()));
        }
    }
}

pub open spec fn starts_with(s: Seq<char>, prefix: Seq<char>) -> bool {
    s.len() >= prefix.len() && s.take(prefix.len() as int) == prefix
}

/// A line declaring a macro.
pub open spec fn is_macro_line(trimmed: Seq<char>) -> bool {
    starts_with(trimmed, "macro "@) || starts_with(trimmed, "pub macro "@)
}

/// The number of leading whitespace characters of `s`.
pub open spec fn indent_len(s: Seq<char>) -> nat {
    (s.len() - crate::text::trim_start_spec(s, false).len()) as nat
}

/// `line` with `pub ` inserted before its first non-blank character,
/// unless it already starts with `pub `.
pub open spec fn with_pub(line: Seq<char>) -> Seq<char> {
    let at = indent_len(line) as int;
    if starts_with(line.skip(at), "pub "@) {
        line
    } else {
        line.take(at) + "pub "@ + line.skip(at)
    }
}

/// The lines so far, and which of them (if any) is the macro declaration
/// that following signature lines attach to.
pub struct SignatureState {
    pub lines: Seq<Seq<char>>,
    pub macro_line: Option<int>,
}

pub open spec fn signature_step(state: SignatureState, line: Seq<char>, config: FormatConfig) -> SignatureState {
    let trimmed = trim_spec(line, false);
    if is_macro_line(trimmed) {
        SignatureState { lines: state.lines.push(line), macro_line: Some(state.lines.len() as int) }
    } else if state.macro_line is Some && 0 <= state.macro_line->0 < state.lines.len() {
        let index = state.macro_line->0;
        if config.pub_on_declaration && trimmed == "| pub"@ {
            SignatureState { lines: state.lines.update(index, with_pub(state.lines[index])), ..state }
        } else if config.return_type_on_declaration && starts_with(trimmed, "| ->"@) {
            SignatureState {
                lines: state.lines.update(index, state.lines[index] + " ->"@ + trimmed.skip(4)),
                ..state
            }
        } else if trimmed.len() == 0 || trimmed[0] == '|' {
            SignatureState { lines: state.lines.push(line), ..state }
        } else {
            SignatureState { lines: state.lines.push(line), macro_line: None }
        }
    } else {
        SignatureState { lines: state.lines.push(line), ..state }
    }
}

pub open spec fn signature_upto(pieces: Seq<Seq<char>>, k: int, config: FormatConfig) -> SignatureState
    decreases k,
{
    if k <= 0 {
        SignatureState { lines: Seq::empty(), macro_line: None }
    } else {
        signature_step(signature_upto(pieces, k - 1, config), pieces[k - 1], config)
    }
}

/// The source with signature lines folded into their macro declarations
/// (unchanged where both rules are off).
pub open spec fn normalize_signatures_spec(source: Seq<char>, config: FormatConfig) -> Seq<char> {
    if !config.pub_on_declaration && !config.return_type_on_declaration {
        source
    } else {
        let pieces = split_lines(source);
        join_lines(signature_upto(pieces, pieces.len() as int, config).lines, seq!['\n'])
    }
}

pub fn starts_with_exec(s: &[char], prefix: &str) -> (found: bool)
    ensures
        found == starts_with(s@, prefix@),
{
    let p = crate::text::chars_of(prefix);
    if p.len() > s.len() {
        return false;
    }
    let mut k: usize = 0;
    while k < p.len()
        invariant
            p@ == prefix@,
            p@.len() <= s@.len(),
            k <= p@.len(),
            forall|m: int| 0 <= m < k ==> s@[m] == p@[m],
        decreases p@.len() - k,
    {
        if s[k] != p[k] {
            assert(s@.take(p@.len() as int)[k as int] != p@[k as int]);
            return false;
        }
        k += 1;
    }
    assert(s@.take(p@.len() as int) =~= p@);
    true
}

fn add_pub(line: &Vec<char>) -> (updated: Vec<char>)
    ensures
        updated@ == with_pub(line@),
{
    let trimmed_start = leading_blank_count(line.as_slice());
    let rest = slice_from(line.as_slice(), trimmed_start);
    if starts_with_exec(rest.as_slice(), "pub ") {
        return line.clone();
    }
    let mut out: Vec<char> = Vec::new();
    let mut k: usize = 0;
    while k < trimmed_start
        invariant
            trimmed_start <= line@.len(),
            k <= trimmed_start,
            out@ == line@.take(k as int),
        decreases trimmed_start - k,
    {
        out.push(line[k]);
        assert(line@.take(k + 1) =~= line@.take(k as int).push(line@[k as int]));
        k += 1;
    }
    let p = crate::text::chars_of("pub ");
    let ghost before = out@;
    append_chars(&mut out, p.as_slice());
    append_chars(&mut out, rest.as_slice());
    assert(out@ =~= line@.take(trimmed_start as int) + "pub "@ + line@.skip(trimmed_start as int));
    out
}

/// The number of leading whitespace characters.
fn leading_blank_count(s: &[char]) -> (n: usize)
    ensures
        n == indent_len(s@),
        n <= s@.len(),
{
    let ghost ts = crate::text::trim_start_spec(s@, false);
    let mut n: usize = 0;
    assert(s@.skip(0) =~= s@);
    while n < s.len() && crate::text::char_is_whitespace(s[n])
        invariant
            n <= s@.len(),
            ts == crate::text::trim_start_spec(s@.skip(n as int), false),
        decreases s@.len() - n,
    {
        assert(s@.skip(n as int).drop_first() =~= s@.skip(n + 1));
        n += 1;
    }
    proof {
        assert(ts == s@.skip(n as int));
    }
    n
}

pub fn slice_from(s: &[char], from: usize) -> (rest: Vec<char>)
    requires
        from <= s@.len(),
    ensures
        rest@ == s@.skip(from as int),
{
    let mut rest: Vec<char> = Vec::new();
    let mut k = from;
    while k < s.len()
        invariant
            from <= k <= s@.len(),
            rest@ == s@.subrange(from as int, k as int),
        decreases s@.len() - k,
    {
        rest.push(s[k]);
        assert(s@.subrange(from as int, k + 1) =~= s@.subrange(from as int, k as int).push(s@[k as int]));
        k += 1;
    }
    assert(s@.subrange(from as int, s@.len() as int) =~= s@.skip(from as int));
    rest
}

pub fn append_chars(out: &mut Vec<char>, more: &[char])
    ensures
        final(out)@ == old(out)@ + more@,
{
    let ghost start = out@;
    let mut k: usize = 0;
    while k < more.len()
        invariant
            k <= more@.len(),
            out@ == start + more@.take(k as int),
        decreases more@.len() - k,
    {
        out.push(more[k]);
        assert(more@.take(k + 1) =~= more@.take(k as int).push(more@[k as int]));
        k += 1;
    }
    assert(more@.take(more@.len() as int) =~= more@);
}

/// Lines joined with newlines.
pub fn join_with_newlines(lines: &Vec<Vec<char>>) -> (text: Vec<char>)
    ensures
        text@ == join_lines(line_models(lines@), seq!['\n']),
{
    let mut text: Vec<char> = Vec::new();
    let mut k: usize = 0;
    while k < lines.len()
        invariant
            k <= lines@.len(),
            text@ == join_lines(line_models(lines@.take(k as int)), seq!['\n']),
        decreases lines@.len() - k,
    {
        assert(line_models(lines@.take(k + 1)).drop_last() =~= line_models(lines@.take(k as int)));
        assert(line_models(lines@.take(k + 1)).last() == lines@[k as int]@);
        if k > 0 {
            text.push('\n');
        } else {
            assert(line_models(lines@.take(1))[0] == lines@[0]@);
        }
        let ghost before = text@;
        append_chars(&mut text, lines[k].as_slice());
        k += 1;
    }
    assert(lines@.take(lines@.len() as int) =~= lines@);
    text
}

pub open spec fn line_models(lines: Seq<Vec<char>>) -> Seq<Seq<char>> {
    lines.map_values(|l: Vec<char>| l@)
}

/// Folds `| pub` and `| -> type` lines into the macro declaration above them.
pub fn normalize_macro_signatures(source: &Vec<char>, config: &FormatConfig) -> (normalized: Vec<char>)
    ensures
        normalized@ == normalize_signatures_spec(source@, *config),
        normalized@.len() <= source@.len(),
{
    broadcast use vstd::std_specs::vec::axiom_spec_len;

    if !config.pub_on_declaration && !config.return_type_on_declaration {
        return source.clone();
    }
    let pieces = crate::text::lines_of_chars(source.as_slice());
    let ghost all = split_lines(source@);
    let mut lines: Vec<Vec<char>> = Vec::new();
    let mut macro_line: Option<usize> = None;
    let mut k: usize = 0;
    proof {
        lemma_split_join(source@);
    }
    while k < pieces.len()
        invariant
            pieces@.len() == all.len(),
            all == split_lines(source@),
            forall|i: int| 0 <= i < pieces@.len() ==> #[trigger] pieces@[i]@ == all[i],
            k <= pieces@.len(),
            lines@.len() <= k,
            ({
                let state = signature_upto(all, k as int, *config);
                &&& line_models(lines@) == state.lines
                &&& macro_line == match state.macro_line {
                    Some(i) => Some(i as usize),
                    None => None::<usize>,
                }
                &&& (state.macro_line matches Some(i) ==> 0 <= i < state.lines.len())
            }),
            lines_len(line_models(lines@)) <= lines_len(all.take(k as int)),
            lines_len(all) == source@.len() + 1,
        decreases pieces@.len() - k,
    {
        let line = &pieces[k];
        let trimmed = trim_chars(line.as_slice(), 0, line.len(), false);
        proof {
            assert(line@.subrange(0, line@.len() as int) =~= line@);
            assert(all.take(k + 1).drop_last() =~= all.take(k as int));
        }
        let ghost before_lines = line_models(lines@);
        let ghost prev = signature_upto(all, k as int, *config);
        let ghost next = signature_step(prev, all[k as int], *config);
        assert(signature_upto(all, k + 1, *config) == next);
        assert(trimmed@ == trim_spec(all[k as int], false));
        if starts_with_exec(trimmed.as_slice(), "macro ") || starts_with_exec(trimmed.as_slice(), "pub macro ") {
            lines.push(line.clone());
            macro_line = Some(lines.len() - 1);
            assert(line_models(lines@) =~= before_lines.push(line@));
            assert(line_models(lines@).drop_last() =~= before_lines);
            assert(line_models(lines@) == next.lines);
        } else {
            let mut handled = false;
            match macro_line {
                Some(index) => {
                    if config.pub_on_declaration && chars_are(trimmed.as_slice(), "| pub") {
                        proof {
                            reveal_strlit("| pub");
                            crate::text::lemma_trim_len(line@);
                        }
                        let updated = add_pub(&lines[index]);
                        proof {
                            lemma_with_pub_len(lines@[index as int]@);
                            lemma_update_len(before_lines, index as int, updated@);
                        }
                        lines.set(index, updated);
                        assert(line_models(lines@) =~= before_lines.update(index as int, updated@));
                        assert(line_models(lines@) == next.lines);
                        assert(trimmed@.len() == 5);
                        handled = true;
                    } else if config.return_type_on_declaration && starts_with_exec(trimmed.as_slice(), "| ->") {
                        proof {
                            reveal_strlit("| ->");
                        }
                        let mut updated: Vec<char> = Vec::new();
                        append_chars(&mut updated, lines[index].as_slice());
                        let arrow = crate::text::chars_of(" ->");
                        append_chars(&mut updated, arrow.as_slice());
                        let rest = slice_from(trimmed.as_slice(), 4);
                        append_chars(&mut updated, rest.as_slice());
                        proof {
                            reveal_strlit("| ->");
                            reveal_strlit(" ->");
                            crate::text::lemma_trim_len(line@);
                            lemma_update_len(before_lines, index as int, updated@);
                        }
                        let ghost updated_len = updated@.len();
                        lines.set(index, updated);
                        assert(line_models(lines@) =~= before_lines.update(index as int, updated@));
                        assert(line_models(lines@) == next.lines);
                        assert(updated_len == before_lines[index as int].len() + 3 + trimmed@.len() - 4);
                        handled = true;
                    } else if trimmed.len() == 0 || trimmed[0] == '|' {
                        lines.push(line.clone());
                        assert(line_models(lines@) =~= before_lines.push(line@));
            assert(line_models(lines@).drop_last() =~= before_lines);
                        assert(line_models(lines@) == next.lines);
                        handled = true;
                    } else {
                        macro_line = None;
                    }
                },
                None => {},
            }
            if !handled {
                lines.push(line.clone());
                assert(line_models(lines@) =~= before_lines.push(line@));
            assert(line_models(lines@).drop_last() =~= before_lines);
            }
        }
        assert(line_models(lines@) == next.lines);
        assert(macro_line == match next.macro_line {
            Some(i) => Some(i as usize),
            None => None::<usize>,
        });
        proof {
            assert(all.take(k + 1).last() == all[k as int]);
            assert(lines_len(all.take(k + 1)) == lines_len(all.take(k as int)) + all[k as int].len() + 1);
        }
        k += 1;
    }
    assert(all.take(all.len() as int) =~= all);
    let text = join_with_newlines(&lines);
    proof {
        if lines@.len() > 0 {
            lemma_join_len(line_models(lines@));
        }
    }
    text
}

proof fn lemma_with_pub_len(line: Seq<char>)
    ensures
        with_pub(line).len() <= line.len() + 4,
{
    reveal_strlit("pub ");
    crate::text::lemma_trim_start_len(line, false);
}

proof fn lemma_update_len(lines: Seq<Seq<char>>, index: int, value: Seq<char>)
    requires
        0 <= index < lines.len(),
    ensures
        lines_len(lines.update(index, value)) == lines_len(lines) - lines[index].len() + value.len(),
    decreases lines.len(),
{
    if index < lines.len() - 1 {
        lemma_update_len(lines.drop_last(), index, value);
        assert(lines.update(index, value).drop_last() =~= lines.drop_last().update(index, value));
    } else {
        assert(lines.update(index, value).drop_last() =~= lines.drop_last());
    }
}

} // verus!
