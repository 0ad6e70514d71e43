//! Laying out one logical line: a comment re-filled to the comment width,
//! facets moved onto lines of their own, and a long delimited list split
//! one item per line.
use vstd::prelude::*;

use super::config::FormatConfig;
use super::indentation::{
    facet_at, facet_starts_at, indent_spec, is_closer, is_opener, kind_models, leading_closers,
    leading_closers_spec, leading_generic_closers, leading_generic_closers_spec, make_indent, opens_generic,
    opens_generic_exec,
};
use crate::lexer::token_models;
use crate::text::{char_is_whitespace, is_whitespace, push_char, string_from_chars, trim_chars, trim_spec};
use crate::token::{SpecToken, SpecTokenKind, Token, TokenKind, TokenKindG};

verus! {

pub open spec fn text_models(lines: Seq<String>) -> Seq<Seq<char>> {
    lines.map_values(|s: String| s@)
}

pub open spec fn sat_sub(a: int, b: int) -> nat {
    if a >= b {
        (a - b) as nat
    } else {
        0
    }
}

/// `s[a..b]`, with both ends kept inside `s` and an empty result where
/// they cross.
pub open spec fn slice(s: Seq<char>, a: int, b: int) -> Seq<char> {
    let lo = if a < s.len() {
        a
    } else {
        s.len() as int
    };
    let hi = if b < s.len() {
        b
    } else {
        s.len() as int
    };
    if 0 <= lo <= hi {
        s.subrange(lo, hi)
    } else {
        Seq::empty()
    }
}

/// `s[a..b]` trimmed of whitespace.
pub open spec fn piece(s: Seq<char>, a: int, b: int) -> Seq<char> {
    trim_spec(slice(s, a, b), false)
}

pub fn trimmed_piece(s: &[char], a: usize, b: usize) -> (p: Vec<char>)
    ensures
        p@ == piece(s@, a as int, b as int),
{
    let lo = if a < s.len() {
        a
    } else {
        s.len()
    };
    let hi = if b < s.len() {
        b
    } else {
        s.len()
    };
    if lo <= hi {
        trim_chars(s, lo, hi, false)
    } else {
        let empty: Vec<char> = Vec::new();
        proof {
            assert(trim_spec(Seq::<char>::empty(), false) =~= Seq::<char>::empty());
        }
        empty
    }
}

/// `indent` followed by `text`, as one line.
pub fn indented(indent: &String, text: &[char]) -> (line: String)
    ensures
        line@ == indent@ + text@,
{
    let mut line = indent.clone();
    let rest = string_from_chars(text);
    line.append(rest.as_str());
    line
}

// ================
// comments
// ================

/// The words of `s`: its maximal runs of non-whitespace characters.
pub open spec fn words_of(s: Seq<char>) -> Seq<Seq<char>>
    decreases s.len(),
{
    if s.len() == 0 {
        Seq::empty()
    } else {
        let before = words_of(s.drop_last());
        let c = s.last();
        if is_whitespace(c) {
            before
        } else if s.len() >= 2 && !is_whitespace(s[s.len() - 2]) && before.len() > 0 {
            before.update(before.len() - 1, before.last().push(c))
        } else {
            before.push(seq![c])
        }
    }
}

/// Greedy filling: the finished lines and the line being filled, after
/// placing `words` at most `available` characters wide (a word longer
/// than that gets a line of its own).
pub open spec fn fill(words: Seq<Seq<char>>, available: nat, prefix: Seq<char>) -> (Seq<Seq<char>>, Seq<char>)
    decreases words.len(),
{
    if words.len() == 0 {
        (Seq::empty(), Seq::empty())
    } else {
        let (lines, current) = fill(words.drop_last(), available, prefix);
        let word = words.last();
        let (lines, current) = if current.len() > 0 && current.len() + 1 + word.len() > available {
            (lines.push(prefix + current), Seq::<char>::empty())
        } else {
            (lines, current)
        };
        let current = if current.len() > 0 {
            current.push(' ')
        } else {
            current
        };
        (lines, current + word)
    }
}

/// The text of a `#` comment after the marker, trimmed.
pub open spec fn comment_body(comment: Seq<char>) -> Seq<char> {
    if comment.len() > 0 && comment[0] == '#' {
        trim_spec(comment.drop_first(), false)
    } else {
        trim_spec(comment, false)
    }
}

/// A comment re-filled to `width` columns at the given indentation.
pub open spec fn wrap_comment_spec(comment: Seq<char>, indent: Seq<char>, width: nat) -> Seq<Seq<char>> {
    let text = comment_body(comment);
    let prefix = indent + seq!['#'];
    if text.len() == 0 {
        seq![prefix]
    } else {
        let prefix = prefix.push(' ');
        let available = if sat_sub(width as int, prefix.len() as int) == 0 {
            1
        } else {
            sat_sub(width as int, prefix.len() as int)
        };
        let (lines, current) = fill(words_of(text), available, prefix);
        lines.push(prefix + current)
    }
}

fn words(s: &[char]) -> (w: Vec<Vec<char>>)
    ensures
        w@.len() == words_of(s@).len(),
        forall|i: int| 0 <= i < w@.len() ==> #[trigger] w@[i]@ == words_of(s@)[i],
{
    let mut w: Vec<Vec<char>> = Vec::new();
    let mut previous_in_word = false;
    let mut i: usize = 0;
    while i < s.len()
        invariant
            i <= s@.len(),
            w@.len() == words_of(s@.take(i as int)).len(),
            forall|k: int| 0 <= k < w@.len() ==> #[trigger] w@[k]@ == words_of(s@.take(i as int))[k],
            previous_in_word == (i > 0 && !is_whitespace(s@[i - 1]) && w@.len() > 0),
        decreases s@.len() - i,
    {
        let c = s[i];
        let ghost before = words_of(s@.take(i as int));
        assert(s@.take(i + 1).drop_last() =~= s@.take(i as int));
        assert(s@.take(i + 1).last() == c);
        if char_is_whitespace(c) {
            previous_in_word = false;
        } else if previous_in_word {
            let last = w.len() - 1;
            let mut word = w[last].clone();
            word.push(c);
            w.set(last, word);
            assert(s@.take(i + 1)[i - 1] == s@[i - 1]);
            previous_in_word = true;
        } else {
            let mut word: Vec<char> = Vec::new();
            word.push(c);
            assert(word@ =~= seq![c]);
            w.push(word);
            proof {
                if i > 0 {
                    assert(s@.take(i + 1)[i - 1] == s@[i - 1]);
                }
            }
            previous_in_word = true;
        }
        i += 1;
    }
    assert(s@.take(s@.len() as int) =~= s@);
    w
}

/// A `#` comment re-filled to `width` columns.
pub fn wrap_comment(comment: &[char], indent: &String, width: usize) -> (lines: Vec<String>)
    ensures
        text_models(lines@) == wrap_comment_spec(comment@, indent@, width as nat),
{
    let text = if comment.len() > 0 && comment[0] == '#' {
        let t = trim_chars(comment, 1, comment.len(), false);
        assert(comment@.subrange(1, comment@.len() as int) =~= comment@.drop_first());
        t
    } else {
        let t = trim_chars(comment, 0, comment.len(), false);
        assert(comment@.subrange(0, comment@.len() as int) =~= comment@);
        t
    };
    let mut prefix = indent.clone();
    push_char(&mut prefix, '#');
    assert(prefix@ =~= indent@ + seq!['#']);
    let mut lines: Vec<String> = Vec::new();
    if text.len() == 0 {
        lines.push(prefix);
        assert(text_models(lines@) =~= seq![indent@ + seq!['#']]);
        return lines;
    }
    push_char(&mut prefix, ' ');
    assert(prefix@ =~= indent@ + seq!['#', ' ']);
    let used = prefix_width(&prefix);
    let available = if width > used && width - used > 0 {
        width - used
    } else {
        1
    };
    let ws = words(text.as_slice());
    let mut current: Vec<char> = Vec::new();
    let mut k: usize = 0;
    while k < ws.len()
        invariant
            prefix@ == indent@ + seq!['#', ' '],
            ws@.len() == words_of(text@).len(),
            forall|i: int| 0 <= i < ws@.len() ==> #[trigger] ws@[i]@ == words_of(text@)[i],
            k <= ws@.len(),
            (text_models(lines@), current@) == fill(words_of(text@).take(k as int), available as nat, prefix@),
        decreases ws@.len() - k,
    {
        let word = &ws[k];
        assert(words_of(text@).take(k + 1).drop_last() =~= words_of(text@).take(k as int));
        if current.len() > 0 && current.len() as u128 + 1 + word.len() as u128 > available as u128 {
            let ghost before = lines@;
            lines.push(indented(&prefix, current.as_slice()));
            assert(text_models(lines@) =~= text_models(before).push(prefix@ + current@));
            current = Vec::new();
        }
        if current.len() > 0 {
            current.push(' ');
        }
        let mut j: usize = 0;
        let ghost base = current@;
        while j < word.len()
            invariant
                j <= word@.len(),
                current@ == base + word@.take(j as int),
            decreases word@.len() - j,
        {
            current.push(word[j]);
            assert(word@.take(j + 1) =~= word@.take(j as int).push(word@[j as int]));
            j += 1;
        }
        assert(word@.take(word@.len() as int) =~= word@);
        k += 1;
    }
    assert(words_of(text@).take(ws@.len() as int) =~= words_of(text@));
    let ghost before = lines@;
    lines.push(indented(&prefix, current.as_slice()));
    assert(text_models(lines@) =~= text_models(before).push(prefix@ + current@));
    proof {
        let p = indent@ + seq!['#'];
        assert(p.push(' ') =~= prefix@);
    }
    lines
}

/// The number of characters of a short prefix.
fn prefix_width(prefix: &String) -> (n: usize)
    ensures
        n == prefix@.len(),
{
    let chars = crate::text::chars_of(prefix.as_str());
    chars.len()
}

// ================
// facets on lines of their own
// ================

/// Where a line's positions are measured from: its first token, or the
/// line's own start.
pub open spec fn source_start(lt: Seq<SpecToken>, line_offset: int) -> int {
    if lt.len() > 0 {
        lt[0].span.start as int
    } else {
        line_offset
    }
}

/// The positions, among the first `k` token pairs, where a facet starts
/// strictly inside the content.
pub open spec fn facet_splits(lt: Seq<SpecToken>, k: int, start: int, content_len: int) -> Seq<usize>
    decreases k,
{
    if k <= 0 {
        Seq::empty()
    } else {
        let before = facet_splits(lt, k - 1, start, content_len);
        let position = sat_sub(lt[k - 1].span.start as int, start);
        if facet_at(lt, k - 1) && 0 < position < content_len {
            before.push(position as usize)
        } else {
            before
        }
    }
}

pub open spec fn pair_count(lt: Seq<SpecToken>) -> int {
    if lt.len() >= 2 {
        lt.len() - 1
    } else {
        0
    }
}

/// A line holding facets after other text, split before each facet; the
/// facets one level deeper where facets are indented.
pub open spec fn split_inline_facets_spec(
    content: Seq<char>,
    lt: Seq<SpecToken>,
    line_offset: int,
    base_depth: nat,
    config: FormatConfig,
) -> Option<Seq<Seq<char>>> {
    if !config.facets_on_new_line {
        None
    } else {
        let splits = facet_splits(lt, pair_count(lt), source_start(lt, line_offset), content.len() as int);
        if splits.len() == 0 {
            None
        } else {
            let ends = splits.push(content.len() as usize);
            Some(
                Seq::new(
                    ends.len(),
                    |i: int|
                        indent_spec(
                            base_depth + if i > 0 && config.indent_facets {
                                1nat
                            } else {
                                0nat
                            },
                            config,
                        ) + piece(
                            content,
                            if i == 0 {
                                0
                            } else {
                                ends[i - 1] as int
                            },
                            ends[i] as int,
                        ),
                ),
            )
        }
    }
}

pub fn split_inline_facets(
    content: &[char],
    lt: &[Token],
    line_offset: usize,
    base_depth: usize,
    config: &FormatConfig,
) -> (lines: Option<Vec<String>>)
    requires
        base_depth < usize::MAX,
    ensures
        match split_inline_facets_spec(
            content@,
            token_models(lt@),
            line_offset as int,
            base_depth as nat,
            *config,
        ) {
            Some(expected) => lines matches Some(v) && text_models(v@) == expected,
            None => lines is None,
        },
{
    if !config.facets_on_new_line {
        return None;
    }
    let ghost t = token_models(lt@);
    let start = if lt.len() > 0 {
        lt[0].span.start
    } else {
        line_offset
    };
    let pairs: usize = if lt.len() >= 2 {
        lt.len() - 1
    } else {
        0
    };
    let mut splits: Vec<usize> = Vec::new();
    let mut i: usize = 0;
    while i < pairs
        invariant
            t == token_models(lt@),
            pairs == pair_count(t),
            i <= pairs,
            pairs < lt@.len() || pairs == 0,
            splits@.len() <= i,
            splits@ == facet_splits(t, i as int, start as int, content@.len() as int),
        decreases pairs - i,
    {
        if facet_starts_at(lt, i) {
            let position = if lt[i].span.start >= start {
                lt[i].span.start - start
            } else {
                0
            };
            if 0 < position && position < content.len() {
                splits.push(position);
            }
        }
        i += 1;
    }
    if splits.len() == 0 {
        return None;
    }
    let ghost ends = splits@.push(content@.len() as usize);
    let mut lines: Vec<String> = Vec::new();
    let mut from: usize = 0;
    let mut k: usize = 0;
    while k <= splits.len()
        invariant
            base_depth < usize::MAX,
            splits@.len() < usize::MAX,
            ends == splits@.push(content@.len() as usize),
            k <= ends.len(),
            lines@.len() == k,
            from == (if k == 0 {
                0
            } else {
                ends[k - 1] as int
            }),
            forall|j: int|
                0 <= j < k ==> #[trigger] lines@[j]@ == indent_spec(
                    base_depth as nat + if j > 0 && config.indent_facets {
                        1nat
                    } else {
                        0nat
                    },
                    *config,
                ) + piece(
                    content@,
                    if j == 0 {
                        0
                    } else {
                        ends[j - 1] as int
                    },
                    ends[j] as int,
                ),
        decreases splits@.len() + 1 - k,
    {
        let end = if k < splits.len() {
            splits[k]
        } else {
            content.len()
        };
        let depth = if k > 0 && config.indent_facets {
            base_depth + 1
        } else {
            base_depth
        };
        let indent = make_indent(depth, config);
        let text = trimmed_piece(content, from, end);
        lines.push(indented(&indent, text.as_slice()));
        from = end;
        k += 1;
    }
    let ghost expected = split_inline_facets_spec(content@, t, line_offset as int, base_depth as nat, *config);
    assert(text_models(lines@) =~= expected->0);
    Some(lines)
}

// ================
// long delimited lists
// ================

/// What a scan of a line's tokens gathers: the open delimiters and generic
/// depth as it goes, and, as (position, depth) pairs, the list-separating
/// commas and the delimiters opened and closed.
pub struct Scan {
    pub open: Seq<SpecTokenKind>,
    pub generic: nat,
    pub breaks: Seq<(usize, usize)>,
    pub openings: Seq<(usize, usize)>,
    pub closings: Seq<(usize, usize)>,
}

/// A comma separates list items when it sits directly in parentheses or
/// brackets, or in braces opened on this line, outside generic arguments.
pub open spec fn separates_items(scan: Scan, outer_len: nat) -> bool {
    &&& scan.generic == 0
    &&& scan.open.len() > 0
    &&& {
        let last = scan.open.last();
        last is LParen || last is LBracket || (last is LBrace && scan.open.len() > outer_len)
    }
}

pub open spec fn scan_step(scan: Scan, previous: Option<SpecToken>, t: SpecToken, start: int, outer_len: nat) -> Scan {
    if previous matches Some(p) && opens_generic(p, t) {
        Scan { generic: scan.generic + 1, ..scan }
    } else if t.kind is Greater && scan.generic > 0 {
        Scan { generic: (scan.generic - 1) as nat, ..scan }
    } else if t.kind is ShiftRight && scan.generic > 0 {
        Scan { generic: sat_sub(scan.generic as int, 2), ..scan }
    } else if is_opener(t.kind) {
        let open = scan.open.push(t.kind);
        Scan {
            open,
            openings: scan.openings.push((sat_sub(t.span.end as int, start) as usize, open.len() as usize)),
            ..scan
        }
    } else if is_closer(t.kind) {
        Scan {
            closings: scan.closings.push((sat_sub(t.span.start as int, start) as usize, scan.open.len() as usize)),
            open: if scan.open.len() > 0 {
                scan.open.drop_last()
            } else {
                scan.open
            },
            ..scan
        }
    } else if t.kind is Comma && separates_items(scan, outer_len) {
        Scan { breaks: scan.breaks.push((sat_sub(t.span.end as int, start) as usize, scan.open.len() as usize)), ..scan }
    } else {
        scan
    }
}

/// The scan after the first `k` tokens.
pub open spec fn scan_upto(lt: Seq<SpecToken>, k: int, start: int, outer: Seq<SpecTokenKind>, outer_generic: nat) -> Scan
    decreases k,
{
    if k <= 0 {
        Scan {
            open: outer,
            generic: outer_generic,
            breaks: Seq::empty(),
            openings: Seq::empty(),
            closings: Seq::empty(),
        }
    } else {
        let previous = if k >= 2 {
            Some(lt[k - 2])
        } else {
            None
        };
        scan_step(scan_upto(lt, k - 1, start, outer, outer_generic), previous, lt[k - 1], start, outer.len())
    }
}

pub proof fn lemma_scan_bounds(lt: Seq<SpecToken>, k: int, start: int, outer: Seq<SpecTokenKind>, outer_generic: nat)
    requires
        0 <= k <= lt.len(),
    ensures
        ({
            let scan = scan_upto(lt, k, start, outer, outer_generic);
            &&& scan.open.len() <= outer.len() + k
            &&& scan.generic <= outer_generic + k
            &&& scan.breaks.len() <= k
            &&& scan.openings.len() <= k
            &&& scan.closings.len() <= k
            &&& forall|i: int| 0 <= i < scan.breaks.len() ==> #[trigger] scan.breaks[i].1 <= outer.len() + k
        }),
    decreases k,
{
    if k > 0 {
        lemma_scan_bounds(lt, k - 1, start, outer, outer_generic);
    }
}

/// The first (position, depth) pair whose depth is at most `depth`.
pub open spec fn first_at_most(pairs: Seq<(usize, usize)>, depth: nat) -> Option<(usize, usize)>
    decreases pairs.len(),
{
    if pairs.len() == 0 {
        None
    } else if pairs[0].1 <= depth {
        Some(pairs[0])
    } else {
        first_at_most(pairs.drop_first(), depth)
    }
}

/// The first pair at exactly `depth` whose position is past `after`.
pub open spec fn first_at(pairs: Seq<(usize, usize)>, depth: nat, after: int) -> Option<(usize, usize)>
    decreases pairs.len(),
{
    if pairs.len() == 0 {
        None
    } else if pairs[0].1 == depth && pairs[0].0 > after {
        Some(pairs[0])
    } else {
        first_at(pairs.drop_first(), depth, after)
    }
}

/// The least depth among the pairs (0 for none).
pub open spec fn least_depth(pairs: Seq<(usize, usize)>) -> nat
    decreases pairs.len(),
{
    if pairs.len() == 0 {
        0
    } else if pairs.len() == 1 {
        pairs[0].1 as nat
    } else {
        let rest = least_depth(pairs.drop_last());
        if (pairs.last().1 as nat) < rest {
            pairs.last().1 as nat
        } else {
            rest
        }
    }
}

/// The positions of the pairs at `depth`, no further than `limit`.
pub open spec fn positions_at(pairs: Seq<(usize, usize)>, depth: nat, limit: int) -> Seq<usize>
    decreases pairs.len(),
{
    if pairs.len() == 0 {
        Seq::empty()
    } else {
        let before = positions_at(pairs.drop_last(), depth, limit);
        if pairs.last().1 == depth && pairs.last().0 <= limit {
            before.push(pairs.last().0)
        } else {
            before
        }
    }
}

/// The item lines cut at `ends`, starting at `from`, indented `indent`,
/// and where the last cut leaves off.
pub open spec fn cut_items(content: Seq<char>, ends: Seq<usize>, from: int, indent: Seq<char>) -> (Seq<Seq<char>>, int)
    decreases ends.len(),
{
    if ends.len() == 0 {
        (Seq::empty(), from)
    } else {
        let (lines, start) = cut_items(content, ends.drop_last(), from, indent);
        (lines.push(indent + piece(content, start, ends.last() as int)), ends.last() as int)
    }
}

/// A line too long for the width (or opening a list it does not close)
/// laid out one list item per line: the text up to the list's opening,
/// each item one level deeper, then the rest from the list's closing.
pub open spec fn list_layout(
    content: Seq<char>,
    scan: Scan,
    first_indent: Seq<char>,
    depth_bias: nat,
    config: FormatConfig,
) -> Seq<Seq<char>> {
    let list_depth = least_depth(scan.breaks);
    let body_start: int = match first_at(scan.openings, list_depth, -1) {
        Some((position, _)) => position as int,
        None => 0,
    };
    let body_end: int = match first_at(scan.closings, list_depth, body_start) {
        Some((position, _)) => position as int,
        None => content.len() as int,
    };
    let head = if body_start > 0 {
        seq![first_indent + piece(content, 0, body_start)]
    } else {
        Seq::empty()
    };
    let item_indent = indent_spec(list_depth + depth_bias, config);
    let (items, start) = cut_items(content, positions_at(scan.breaks, list_depth, body_end), body_start, item_indent);
    let last_item = if piece(content, start, body_end).len() > 0 {
        seq![item_indent + piece(content, start, body_end)]
    } else {
        Seq::empty()
    };
    let closing = if body_end < content.len() {
        seq![indent_spec(sat_sub(list_depth as int, 1) + depth_bias, config) + piece(content, body_end, content.len() as int)]
    } else {
        Seq::empty()
    };
    head + items + last_item + closing
}

/// How a line of code is laid out.
pub open spec fn wrap_code_spec(
    content: Seq<char>,
    lt: Seq<SpecToken>,
    line_offset: int,
    outer: Seq<SpecTokenKind>,
    outer_generic: nat,
    depth_bias: nat,
    config: FormatConfig,
) -> Seq<Seq<char>> {
    let closers = leading_closers_spec(lt);
    let base = sat_sub(outer.len() as int, closers as int) + sat_sub(
        outer_generic as int,
        leading_generic_closers_spec(lt) as int,
    ) + depth_bias;
    let first_indent = indent_spec(base, config);
    let scan = scan_upto(lt, lt.len() as int, source_start(lt, line_offset), outer, outer_generic);
    let multiline = scan.open.len() > outer.len() && scan.breaks.len() > 0;
    if first_indent.len() + content.len() <= config.max_width && !multiline {
        let split = if closers == 0 {
            first_at_most(scan.closings, outer.len())
        } else {
            None
        };
        match split {
            Some((position, depth)) => if piece(content, 0, position as int).len() > 0 {
                seq![
                    first_indent + piece(content, 0, position as int),
                    indent_spec(sat_sub(depth as int, 1) + depth_bias, config) + piece(
                        content,
                        position as int,
                        content.len() as int,
                    ),
                ]
            } else {
                seq![first_indent + content]
            },
            None => seq![first_indent + content],
        }
    } else if scan.breaks.len() == 0 {
        seq![first_indent + content]
    } else {
        list_layout(content, scan, first_indent, depth_bias, config)
    }
}

fn find_at_most(pairs: &Vec<(usize, usize)>, depth: usize) -> (found: Option<(usize, usize)>)
    ensures
        found == first_at_most(pairs@, depth as nat),
        found matches Some(p) ==> p.1 <= depth,
{
    let mut i: usize = 0;
    assert(pairs@.skip(0) =~= pairs@);
    while i < pairs.len()
        invariant
            i <= pairs@.len(),
            first_at_most(pairs@, depth as nat) == first_at_most(pairs@.skip(i as int), depth as nat),
        decreases pairs@.len() - i,
    {
        assert(pairs@.skip(i as int)[0] == pairs@[i as int]);
        if pairs[i].1 <= depth {
            return Some(pairs[i]);
        }
        assert(pairs@.skip(i as int).drop_first() =~= pairs@.skip(i + 1));
        i += 1;
    }
    None
}

fn find_at(pairs: &Vec<(usize, usize)>, depth: usize, after: Option<usize>) -> (found: Option<(usize, usize)>)
    ensures
        found == first_at(
            pairs@,
            depth as nat,
            match after {
                Some(a) => a as int,
                None => -1,
            },
        ),
{
    let ghost a = match after {
        Some(a) => a as int,
        None => -1,
    };
    let mut i: usize = 0;
    assert(pairs@.skip(0) =~= pairs@);
    while i < pairs.len()
        invariant
            i <= pairs@.len(),
            a == match after {
                Some(x) => x as int,
                None => -1,
            },
            first_at(pairs@, depth as nat, a) == first_at(pairs@.skip(i as int), depth as nat, a),
        decreases pairs@.len() - i,
    {
        assert(pairs@.skip(i as int)[0] == pairs@[i as int]);
        let past = match after {
            Some(x) => pairs[i].0 > x,
            None => true,
        };
        if pairs[i].1 == depth && past {
            return Some(pairs[i]);
        }
        assert(pairs@.skip(i as int).drop_first() =~= pairs@.skip(i + 1));
        i += 1;
    }
    None
}

fn least(pairs: &Vec<(usize, usize)>) -> (depth: usize)
    ensures
        depth == least_depth(pairs@),
{
    if pairs.len() == 0 {
        return 0;
    }
    let mut best = pairs[0].1;
    let mut i: usize = 1;
    assert(pairs@.take(1).drop_last() =~= Seq::<(usize, usize)>::empty());
    while i < pairs.len()
        invariant
            1 <= i <= pairs@.len(),
            best == least_depth(pairs@.take(i as int)),
        decreases pairs@.len() - i,
    {
        assert(pairs@.take(i + 1).drop_last() =~= pairs@.take(i as int));
        if pairs[i].1 < best {
            best = pairs[i].1;
        }
        i += 1;
    }
    assert(pairs@.take(pairs@.len() as int) =~= pairs@);
    best
}

fn positions(pairs: &Vec<(usize, usize)>, depth: usize, limit: usize) -> (found: Vec<usize>)
    ensures
        found@ == positions_at(pairs@, depth as nat, limit as int),
{
    let mut found: Vec<usize> = Vec::new();
    let mut i: usize = 0;
    while i < pairs.len()
        invariant
            i <= pairs@.len(),
            found@ == positions_at(pairs@.take(i as int), depth as nat, limit as int),
        decreases pairs@.len() - i,
    {
        assert(pairs@.take(i + 1).drop_last() =~= pairs@.take(i as int));
        if pairs[i].1 == depth && pairs[i].0 <= limit {
            found.push(pairs[i].0);
        }
        i += 1;
    }
    assert(pairs@.take(pairs@.len() as int) =~= pairs@);
    found
}

fn copy_kinds(kinds: &[TokenKind]) -> (copy: Vec<TokenKind>)
    ensures
        kind_models(copy@) == kind_models(kinds@),
{
    let mut copy: Vec<TokenKind> = Vec::new();
    let mut i: usize = 0;
    while i < kinds.len()
        invariant
            i <= kinds@.len(),
            kind_models(copy@) == kind_models(kinds@.take(i as int)),
        decreases kinds@.len() - i,
    {
        let ghost before = copy@;
        copy.push(kinds[i].clone_kind());
        assert(kinds@.take(i + 1) =~= kinds@.take(i as int).push(kinds@[i as int]));
        assert(kind_models(copy@) =~= kind_models(before).push(kinds@[i as int]@));
        assert(kind_models(kinds@.take(i + 1)) =~= kind_models(kinds@.take(i as int)).push(kinds@[i as int]@));
        i += 1;
    }
    assert(kinds@.take(kinds@.len() as int) =~= kinds@);
    copy
}

/// One step of the scan over a line's tokens.
fn scan_token(
    open: &mut Vec<TokenKind>,
    generic: &mut usize,
    breaks: &mut Vec<(usize, usize)>,
    openings: &mut Vec<(usize, usize)>,
    closings: &mut Vec<(usize, usize)>,
    previous: Option<&Token>,
    t: &Token,
    start: usize,
    outer_len: usize,
)
    requires
        *old(generic) < usize::MAX,
        old(open)@.len() < usize::MAX,
    ensures
        ({
            let before = Scan {
                open: kind_models(old(open)@),
                generic: *old(generic) as nat,
                breaks: old(breaks)@,
                openings: old(openings)@,
                closings: old(closings)@,
            };
            let after = scan_step(
                before,
                match previous {
                    Some(p) => Some(p@),
                    None => None,
                },
                t@,
                start as int,
                outer_len as nat,
            );
            &&& kind_models(final(open)@) == after.open
            &&& *final(generic) == after.generic
            &&& final(breaks)@ == after.breaks
            &&& final(openings)@ == after.openings
            &&& final(closings)@ == after.closings
        }),
{
    let opens = match previous {
        Some(p) => opens_generic_exec(p, t),
        None => false,
    };
    if opens {
        *generic = *generic + 1;
        return;
    }
    if matches!(t.kind, TokenKindG::Greater) && *generic > 0 {
        *generic = *generic - 1;
        return;
    }
    if matches!(t.kind, TokenKindG::ShiftRight) && *generic > 0 {
        *generic = if *generic >= 2 {
            *generic - 2
        } else {
            0
        };
        return;
    }
    match t.kind {
        TokenKindG::LParen | TokenKindG::LBracket | TokenKindG::LBrace => {
            let ghost before = open@;
            open.push(t.kind.clone_kind());
            assert(kind_models(open@) =~= kind_models(before).push(t@.kind));
            let position = if t.span.end >= start {
                t.span.end - start
            } else {
                0
            };
            openings.push((position, open.len()));
        },
        TokenKindG::RParen | TokenKindG::RBracket | TokenKindG::RBrace => {
            let position = if t.span.start >= start {
                t.span.start - start
            } else {
                0
            };
            closings.push((position, open.len()));
            let ghost before = open@;
            let _ = open.pop();
            proof {
                if before.len() > 0 {
                    assert(kind_models(open@) =~= kind_models(before).drop_last());
                }
            }
        },
        TokenKindG::Comma => {
            let separates = *generic == 0 && open.len() > 0 && match open[open.len() - 1] {
                TokenKindG::LParen | TokenKindG::LBracket => true,
                TokenKindG::LBrace => open.len() > outer_len,
                _ => false,
            };
            if separates {
                let position = if t.span.end >= start {
                    t.span.end - start
                } else {
                    0
                };
                breaks.push((position, open.len()));
            }
        },
        _ => {},
    }
}

/// How a line of code is laid out: as it is where it fits the width;
/// split before a delimiter closing an earlier line's list; or one list
/// item per line.
pub fn wrap_code(
    content: &[char],
    lt: &[Token],
    line_offset: usize,
    outer: &[TokenKind],
    outer_generic: usize,
    depth_bias: usize,
    config: &FormatConfig,
) -> (lines: Vec<String>)
    requires
        outer@.len() + lt@.len() + outer_generic + depth_bias + 1 < usize::MAX,
    ensures
        text_models(lines@) == wrap_code_spec(
            content@,
            token_models(lt@),
            line_offset as int,
            kind_models(outer@),
            outer_generic as nat,
            depth_bias as nat,
            *config,
        ),
{
    let ghost t = token_models(lt@);
    let ghost outer_kinds = kind_models(outer@);
    let closers = leading_closers(lt);
    let generic_closers = leading_generic_closers(lt);
    let base = (if outer.len() >= closers {
        outer.len() - closers
    } else {
        0
    }) + (if outer_generic >= generic_closers {
        outer_generic - generic_closers
    } else {
        0
    }) + depth_bias;
    let first_indent = make_indent(base, config);
    let start = if lt.len() > 0 {
        lt[0].span.start
    } else {
        line_offset
    };
    let mut open = copy_kinds(outer);
    let mut generic = outer_generic;
    let mut breaks: Vec<(usize, usize)> = Vec::new();
    let mut openings: Vec<(usize, usize)> = Vec::new();
    let mut closings: Vec<(usize, usize)> = Vec::new();
    let mut i: usize = 0;
    while i < lt.len()
        invariant
            t == token_models(lt@),
            outer_kinds == kind_models(outer@),
            outer@.len() + lt@.len() + outer_generic + depth_bias + 1 < usize::MAX,
            i <= lt@.len(),
            start == source_start(t, line_offset as int),
            ({
                let scan = scan_upto(t, i as int, start as int, outer_kinds, outer_generic as nat);
                &&& kind_models(open@) == scan.open
                &&& generic == scan.generic
                &&& breaks@ == scan.breaks
                &&& openings@ == scan.openings
                &&& closings@ == scan.closings
            }),
        decreases lt@.len() - i,
    {
        proof {
            lemma_scan_bounds(t, i as int, start as int, outer_kinds, outer_generic as nat);
        }
        let previous = if i > 0 {
            Some(&lt[i - 1])
        } else {
            None
        };
        scan_token(
            &mut open,
            &mut generic,
            &mut breaks,
            &mut openings,
            &mut closings,
            previous,
            &lt[i],
            start,
            outer.len(),
        );
        i += 1;
    }
    let ghost scan = scan_upto(t, t.len() as int, start as int, outer_kinds, outer_generic as nat);
    proof {
        lemma_scan_bounds(t, t.len() as int, start as int, outer_kinds, outer_generic as nat);
    }
    let multiline = open.len() > outer.len() && breaks.len() > 0;
    let indent_width = prefix_width(&first_indent);
    let mut lines: Vec<String> = Vec::new();
    if (indent_width as u128) + (content.len() as u128) <= config.max_width as u128 && !multiline {
        let split = if closers == 0 {
            find_at_most(&closings, outer.len())
        } else {
            None
        };
        match split {
            Some((position, depth)) => {
                let before = trimmed_piece(content, 0, position);
                if before.len() > 0 {
                    lines.push(indented(&first_indent, before.as_slice()));
                    let closing_depth = (if depth >= 1 {
                        depth - 1
                    } else {
                        0
                    }) + depth_bias;
                    let closing_indent = make_indent(closing_depth, config);
                    let after = trimmed_piece(content, position, content.len());
                    lines.push(indented(&closing_indent, after.as_slice()));
                    assert(text_models(lines@) =~= wrap_code_spec(
                        content@,
                        t,
                        line_offset as int,
                        outer_kinds,
                        outer_generic as nat,
                        depth_bias as nat,
                        *config,
                    ));
                    return lines;
                }
            },
            None => {},
        }
        lines.push(indented(&first_indent, content));
        assert(text_models(lines@) =~= wrap_code_spec(
            content@,
            t,
            line_offset as int,
            outer_kinds,
            outer_generic as nat,
            depth_bias as nat,
            *config,
        ));
        return lines;
    }
    if breaks.len() == 0 {
        lines.push(indented(&first_indent, content));
        assert(text_models(lines@) =~= wrap_code_spec(
            content@,
            t,
            line_offset as int,
            outer_kinds,
            outer_generic as nat,
            depth_bias as nat,
            *config,
        ));
        return lines;
    }
    let lines = lay_out_list(content, &breaks, &openings, &closings, &first_indent, depth_bias, config, Ghost(scan));
    lines
}

fn lay_out_list(
    content: &[char],
    breaks: &Vec<(usize, usize)>,
    openings: &Vec<(usize, usize)>,
    closings: &Vec<(usize, usize)>,
    first_indent: &String,
    depth_bias: usize,
    config: &FormatConfig,
    scan: Ghost<Scan>,
) -> (lines: Vec<String>)
    requires
        scan@.breaks == breaks@,
        scan@.openings == openings@,
        scan@.closings == closings@,
        breaks@.len() > 0,
        forall|i: int| 0 <= i < breaks@.len() ==> #[trigger] breaks@[i].1 + depth_bias < usize::MAX,
    ensures
        text_models(lines@) == list_layout(content@, scan@, first_indent@, depth_bias as nat, *config),
{
    let list_depth = least(breaks);
    proof {
        lemma_least_depth_member(breaks@);
    }
    let body_start = match find_at(openings, list_depth, None) {
        Some((position, _)) => position,
        None => 0,
    };
    let body_end = match find_at(closings, list_depth, Some(body_start)) {
        Some((position, _)) => position,
        None => content.len(),
    };
    let mut lines: Vec<String> = Vec::new();
    if body_start > 0 {
        let head = trimmed_piece(content, 0, body_start);
        lines.push(indented(first_indent, head.as_slice()));
    }
    let ghost head_lines = text_models(lines@);
    let item_indent = make_indent(list_depth + depth_bias, config);
    let ends = positions(breaks, list_depth, body_end);
    let mut from = body_start;
    let mut k: usize = 0;
    while k < ends.len()
        invariant
            k <= ends@.len(),
            text_models(lines@) == head_lines + cut_items(content@, ends@.take(k as int), body_start as int, item_indent@).0,
            from == cut_items(content@, ends@.take(k as int), body_start as int, item_indent@).1,
        decreases ends@.len() - k,
    {
        assert(ends@.take(k + 1).drop_last() =~= ends@.take(k as int));
        let end = ends[k];
        let item = trimmed_piece(content, from, end);
        let ghost before = lines@;
        lines.push(indented(&item_indent, item.as_slice()));
        assert(text_models(lines@) =~= text_models(before).push(item_indent@ + item@));
        from = end;
        k += 1;
    }
    assert(ends@.take(ends@.len() as int) =~= ends@);
    let ghost item_lines = text_models(lines@);
    let last = trimmed_piece(content, from, body_end);
    if last.len() > 0 {
        lines.push(indented(&item_indent, last.as_slice()));
        assert(text_models(lines@) =~= item_lines + seq![item_indent@ + last@]);
    } else {
        assert(text_models(lines@) =~= item_lines + Seq::<Seq<char>>::empty());
    }
    let ghost with_last = text_models(lines@);
    if body_end < content.len() {
        let closing_depth = (if list_depth >= 1 {
            list_depth - 1
        } else {
            0
        }) + depth_bias;
        let closing_indent = make_indent(closing_depth, config);
        let rest = trimmed_piece(content, body_end, content.len());
        lines.push(indented(&closing_indent, rest.as_slice()));
        assert(text_models(lines@) =~= with_last + seq![closing_indent@ + rest@]);
    } else {
        assert(text_models(lines@) =~= with_last + Seq::<Seq<char>>::empty());
    }
    assert(text_models(lines@) =~= list_layout(content@, scan@, first_indent@, depth_bias as nat, *config));
    lines
}

proof fn lemma_least_depth_member(pairs: Seq<(usize, usize)>)
    requires
        pairs.len() > 0,
    ensures
        exists|i: int| 0 <= i < pairs.len() && #[trigger] pairs[i].1 == least_depth(pairs),
    decreases pairs.len(),
{
    if pairs.len() == 1 {
        assert(pairs[0].1 == least_depth(pairs));
    } else {
        lemma_least_depth_member(pairs.drop_last());
        let i = choose|i: int| 0 <= i < pairs.drop_last().len() && #[trigger] pairs.drop_last()[i].1 == least_depth(pairs.drop_last());
        if (pairs.last().1 as nat) < least_depth(pairs.drop_last()) {
            assert(pairs[pairs.len() - 1].1 == least_depth(pairs));
        } else {
            assert(pairs[i].1 == least_depth(pairs));
        }
    }
}

} // verus!
