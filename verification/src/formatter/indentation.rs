//! What a line's tokens say about indentation: how many closers lead it,
//! whether it is a facet line, and how the open delimiters and generic
//! argument lists change across it.
use vstd::prelude::*;

use super::config::FormatConfig;
use crate::facets::{payload_shape, registered_shape};
use crate::lexer::token_models;
use crate::text::push_char;
use crate::token::{SpecToken, SpecTokenKind, Token, TokenKind, TokenKindG};

verus! {

pub open spec fn is_opener(kind: SpecTokenKind) -> bool {
    kind is LParen || kind is LBracket || kind is LBrace
}

pub open spec fn is_closer(kind: SpecTokenKind) -> bool {
    kind is RParen || kind is RBracket || kind is RBrace
}

/// The tokens of `tokens` that start in `offset..end`, in order.
pub open spec fn tokens_in(tokens: Seq<SpecToken>, offset: int, end: int) -> Seq<SpecToken>
    decreases tokens.len(),
{
    if tokens.len() == 0 {
        Seq::empty()
    } else {
        let t = tokens.last();
        let rest = tokens_in(tokens.drop_last(), offset, end);
        if offset <= t.span.start < end {
            rest.push(t)
        } else {
            rest
        }
    }
}

pub fn copy_token(t: &Token) -> (copy: Token)
    ensures
        copy@ == t@,
{
    Token::new(t.kind.clone_kind(), t.span.start, t.span.end)
}

/// The tokens that start on the line `offset..end`.
pub fn line_tokens(tokens: &[Token], offset: usize, end: usize) -> (line: Vec<Token>)
    ensures
        token_models(line@) == tokens_in(token_models(tokens@), offset as int, end as int),
        line@.len() <= tokens@.len(),
{
    let mut line: Vec<Token> = Vec::new();
    let mut i: usize = 0;
    while i < tokens.len()
        invariant
            i <= tokens@.len(),
            line@.len() <= i,
            token_models(line@) == tokens_in(token_models(tokens@.take(i as int)), offset as int, end as int),
        decreases tokens@.len() - i,
    {
        assert(token_models(tokens@.take(i + 1)).drop_last() =~= token_models(tokens@.take(i as int)));
        assert(token_models(tokens@.take(i + 1)).last() == tokens@[i as int]@);
        if offset <= tokens[i].span.start && tokens[i].span.start < end {
            let ghost before = line@;
            line.push(copy_token(&tokens[i]));
            assert(token_models(line@) =~= token_models(before).push(tokens@[i as int]@));
        }
        i += 1;
    }
    assert(tokens@.take(tokens@.len() as int) =~= tokens@);
    line
}

/// How many closing delimiters begin the line.
pub open spec fn leading_closers_spec(lt: Seq<SpecToken>) -> nat
    decreases lt.len(),
{
    if lt.len() > 0 && is_closer(lt[0].kind) {
        1 + leading_closers_spec(lt.drop_first())
    } else {
        0
    }
}

pub fn leading_closers(lt: &[Token]) -> (n: usize)
    ensures
        n == leading_closers_spec(token_models(lt@)),
{
    let ghost t = token_models(lt@);
    let mut n: usize = 0;
    assert(t.skip(0) =~= t);
    while n < lt.len() && matches!(lt[n].kind, TokenKindG::RParen | TokenKindG::RBracket | TokenKindG::RBrace)
        invariant
            n <= lt@.len(),
            t == token_models(lt@),
            leading_closers_spec(t) == n + leading_closers_spec(t.skip(n as int)),
        decreases lt@.len() - n,
    {
        assert(t.skip(n as int).drop_first() =~= t.skip(n + 1));
        n += 1;
    }
    n
}

/// `>` closes one generic list at the start of a line, `>>` two.
pub open spec fn leading_generic_closers_spec(lt: Seq<SpecToken>) -> nat {
    if lt.len() > 0 && lt[0].kind is Greater {
        1
    } else if lt.len() > 0 && lt[0].kind is ShiftRight {
        2
    } else {
        0
    }
}

pub fn leading_generic_closers(lt: &[Token]) -> (n: usize)
    ensures
        n == leading_generic_closers_spec(token_models(lt@)),
{
    if lt.len() == 0 {
        0
    } else {
        match lt[0].kind {
            TokenKindG::Greater => 1,
            TokenKindG::ShiftRight => 2,
            _ => 0,
        }
    }
}

/// A facet line starts with `|`.
pub open spec fn is_facet_spec(lt: Seq<SpecToken>) -> bool {
    lt.len() > 0 && lt[0].kind is Pipe
}

pub fn is_facet(lt: &[Token]) -> (facet: bool)
    ensures
        facet == is_facet_spec(token_models(lt@)),
{
    lt.len() > 0 && matches!(lt[0].kind, TokenKindG::Pipe)
}

/// `|` followed by the name of a registered facet, at position `i`.
pub open spec fn facet_at(lt: Seq<SpecToken>, i: int) -> bool {
    &&& 0 <= i
    &&& i + 1 < lt.len()
    &&& lt[i].kind is Pipe
    &&& lt[i + 1].kind matches TokenKindG::Identifier(name) && registered_shape(name) is Some
}

pub fn facet_starts_at(lt: &[Token], i: usize) -> (facet: bool)
    requires
        i + 1 < lt@.len(),
    ensures
        facet == facet_at(token_models(lt@), i as int),
{
    if !matches!(lt[i].kind, TokenKindG::Pipe) {
        return false;
    }
    match &lt[i + 1].kind {
        TokenKindG::Identifier(name) => payload_shape(name.as_str()).is_some(),
        _ => false,
    }
}

/// Whether the line holds a facet.
pub open spec fn contains_facet_spec(lt: Seq<SpecToken>) -> bool {
    exists|i: int| #[trigger] facet_at(lt, i)
}

pub fn contains_facet(lt: &[Token]) -> (found: bool)
    ensures
        found == contains_facet_spec(token_models(lt@)),
{
    let ghost t = token_models(lt@);
    let mut i: usize = 0;
    while lt.len() > 0 && i < lt.len() - 1
        invariant
            t == token_models(lt@),
            i <= lt@.len(),
            forall|j: int| 0 <= j < i ==> !#[trigger] facet_at(t, j),
        decreases lt@.len() - i,
    {
        if facet_starts_at(lt, i) {
            return true;
        }
        i += 1;
    }
    assert forall|j: int| !#[trigger] facet_at(t, j) by {
        if 0 <= j < i {
        }
    }
    false
}

// ================
// open delimiters
// ================

pub open spec fn delimiter_step(open: Seq<SpecTokenKind>, t: SpecToken) -> Seq<SpecTokenKind> {
    if is_opener(t.kind) {
        open.push(t.kind)
    } else if is_closer(t.kind) {
        if open.len() > 0 {
            open.drop_last()
        } else {
            open
        }
    } else {
        open
    }
}

/// The open delimiters after the line's tokens.
pub open spec fn delimiters_after(open: Seq<SpecTokenKind>, lt: Seq<SpecToken>) -> Seq<SpecTokenKind>
    decreases lt.len(),
{
    if lt.len() == 0 {
        open
    } else {
        delimiter_step(delimiters_after(open, lt.drop_last()), lt.last())
    }
}

pub proof fn lemma_delimiters_grow(open: Seq<SpecTokenKind>, lt: Seq<SpecToken>)
    ensures
        delimiters_after(open, lt).len() <= open.len() + lt.len(),
    decreases lt.len(),
{
    if lt.len() > 0 {
        lemma_delimiters_grow(open, lt.drop_last());
    }
}

pub fn delimiter_push_pop(open: &mut Vec<TokenKind>, t: &Token)
    ensures
        kind_models(final(open)@) == delimiter_step(kind_models(old(open)@), t@),
{
    match t.kind {
        TokenKindG::LParen | TokenKindG::LBracket | TokenKindG::LBrace => {
            let ghost before = open@;
            open.push(t.kind.clone_kind());
            assert(kind_models(open@) =~= kind_models(before).push(t@.kind));
        },
        TokenKindG::RParen | TokenKindG::RBracket | TokenKindG::RBrace => {
            let ghost before = open@;
            let _ = open.pop();
            proof {
                if before.len() > 0 {
                    assert(kind_models(open@) =~= kind_models(before).drop_last());
                }
            }
        },
        _ => {},
    }
}

pub open spec fn kind_models(kinds: Seq<TokenKind>) -> Seq<SpecTokenKind> {
    kinds.map_values(|k: TokenKind| k@)
}

pub fn update_delimiters(open: &mut Vec<TokenKind>, lt: &[Token])
    ensures
        kind_models(final(open)@) == delimiters_after(kind_models(old(open)@), token_models(lt@)),
{
    let ghost start = kind_models(open@);
    let mut i: usize = 0;
    while i < lt.len()
        invariant
            i <= lt@.len(),
            kind_models(open@) == delimiters_after(start, token_models(lt@.take(i as int))),
        decreases lt@.len() - i,
    {
        assert(token_models(lt@.take(i + 1)).drop_last() =~= token_models(lt@.take(i as int)));
        delimiter_push_pop(open, &lt[i]);
        i += 1;
    }
    assert(lt@.take(lt@.len() as int) =~= lt@);
}

// ================
// generic argument lists
// ================

/// A `<` opens a generic list when it directly follows a name or a
/// closing `>`/`>>`.
pub open spec fn opens_generic(previous: SpecToken, t: SpecToken) -> bool {
    &&& t.kind is Less
    &&& previous.span.end == t.span.start
    &&& (previous.kind is Identifier || previous.kind is Greater || previous.kind is ShiftRight)
}

pub open spec fn generic_step(depth: nat, previous: Option<SpecToken>, t: SpecToken) -> nat {
    if previous matches Some(p) && opens_generic(p, t) {
        depth + 1
    } else if t.kind is Greater && depth > 0 {
        (depth - 1) as nat
    } else if t.kind is ShiftRight && depth > 0 {
        if depth >= 2 {
            (depth - 2) as nat
        } else {
            0
        }
    } else {
        depth
    }
}

/// The generic-list depth after the line's tokens.
pub open spec fn generic_depth_after(depth: nat, lt: Seq<SpecToken>) -> nat
    decreases lt.len(),
{
    if lt.len() == 0 {
        depth
    } else {
        let previous = if lt.len() >= 2 {
            Some(lt[lt.len() - 2])
        } else {
            None
        };
        generic_step(generic_depth_after(depth, lt.drop_last()), previous, lt.last())
    }
}

pub proof fn lemma_generic_depth_grow(depth: nat, lt: Seq<SpecToken>)
    ensures
        generic_depth_after(depth, lt) <= depth + lt.len(),
    decreases lt.len(),
{
    if lt.len() > 0 {
        lemma_generic_depth_grow(depth, lt.drop_last());
    }
}

/// Whether `previous` and `t` open a generic list.
pub fn opens_generic_exec(previous: &Token, t: &Token) -> (opens: bool)
    ensures
        opens == opens_generic(previous@, t@),
{
    matches!(t.kind, TokenKindG::Less) && previous.span.end == t.span.start && matches!(
        previous.kind,
        TokenKindG::Identifier(_) | TokenKindG::Greater | TokenKindG::ShiftRight
    )
}

pub fn update_generic_depth(depth: &mut usize, lt: &[Token])
    requires
        *old(depth) + lt@.len() <= usize::MAX,
    ensures
        *final(depth) == generic_depth_after(*old(depth) as nat, token_models(lt@)),
{
    let ghost start = *depth as nat;
    let mut i: usize = 0;
    while i < lt.len()
        invariant
            i <= lt@.len(),
            start + lt@.len() <= usize::MAX,
            *depth == generic_depth_after(start, token_models(lt@.take(i as int))),
        decreases lt@.len() - i,
    {
        let ghost prefix = token_models(lt@.take(i + 1));
        assert(prefix.drop_last() =~= token_models(lt@.take(i as int)));
        proof {
            lemma_generic_depth_grow(start, token_models(lt@.take(i as int)));
        }
        let opens = i > 0 && opens_generic_exec(&lt[i - 1], &lt[i]);
        if opens {
            *depth = *depth + 1;
        } else if matches!(lt[i].kind, TokenKindG::Greater) && *depth > 0 {
            *depth = *depth - 1;
        } else if matches!(lt[i].kind, TokenKindG::ShiftRight) && *depth > 0 {
            *depth = if *depth >= 2 {
                *depth - 2
            } else {
                0
            };
        }
        i += 1;
    }
    assert(lt@.take(lt@.len() as int) =~= lt@);
}

// ================
// indentation text
// ================

pub open spec fn repeated(c: char, n: nat) -> Seq<char> {
    Seq::new(n, |i: int| c)
}

pub open spec fn saturating_product(a: nat, b: nat) -> nat {
    if a * b > usize::MAX {
        usize::MAX as nat
    } else {
        a * b
    }
}

/// `depth` levels of indentation: tabs, or `indent_width` spaces each.
pub open spec fn indent_spec(depth: nat, config: FormatConfig) -> Seq<char> {
    if config.hard_tabs {
        repeated('\t', depth)
    } else {
        repeated(' ', saturating_product(depth, config.indent_width as nat))
    }
}

/// Indentation is `depth` tabs with hard tabs, else `indent_width` spaces
/// per level: one more level adds exactly one tab or `indent_width` spaces.
pub proof fn lemma_indentation_per_level(depth: nat, config: FormatConfig)
    requires
        (depth + 1) * config.indent_width <= usize::MAX,
    ensures
        config.hard_tabs ==> indent_spec(depth, config).len() == depth && forall|i: int|
            0 <= i < depth ==> #[trigger] indent_spec(depth, config)[i] == '\t',
        !config.hard_tabs ==> indent_spec(depth, config).len() == depth * config.indent_width && forall|i: int|
            0 <= i < depth * config.indent_width ==> #[trigger] indent_spec(depth, config)[i] == ' ',
        indent_spec(depth + 1, config) == indent_spec(depth, config) + indent_spec(1, config),
        !config.hard_tabs ==> indent_spec(1, config).len() == config.indent_width,
{
    assert((depth + 1) * config.indent_width == depth * config.indent_width + config.indent_width)
        by (nonlinear_arith);
    assert(depth * config.indent_width <= (depth + 1) * config.indent_width) by (nonlinear_arith);
    assert(indent_spec(depth + 1, config) =~= indent_spec(depth, config) + indent_spec(1, config));
}

pub fn make_indent(depth: usize, config: &FormatConfig) -> (indent: String)
    ensures
        indent@ == indent_spec(depth as nat, *config),
{
    let mut indent = String::new();
    let (c, n) = if config.hard_tabs {
        ('\t', depth)
    } else {
        let count = match depth.checked_mul(config.indent_width) {
            Some(product) => product,
            None => usize::MAX,
        };
        (' ', count)
    };
    let mut k: usize = 0;
    while k < n
        invariant
            k <= n,
            indent@ == repeated(c, k as nat),
        decreases n - k,
    {
        push_char(&mut indent, c);
        assert(repeated(c, (k + 1) as nat) =~= repeated(c, k as nat).push(c));
        k += 1;
    }
    indent
}

} // verus!
