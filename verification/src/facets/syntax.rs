//! `syntax` — macro-only, at most one as a facet. Lets a macro declare its
//! own call-site shape instead of the default `name arg, arg, ...`, e.g.
//! `syntax { mov $dst$, $value$ }`: each `$...$` pair captures an
//! expression and binds it to the parameter of that name.
//!
//! The standalone form (`syntax name(a, b) = { ... }`) reuses the same
//! pattern grammar and [`parse_pattern`] to override an existing macro's
//! call-site shape from outside its declaration.
//!
//! This file owns the pattern data and its token-level parsing and
//! validation; matching patterns against a live token stream is the
//! parser's business.
use vstd::prelude::*;

use crate::text::{concat3, str_eq};
use crate::token::{SpecTokenKind, TokenKind, TokenKindG};

use super::{DeclKind, PayloadShape, Violation};

verus! {

pub const PAYLOAD: PayloadShape = PayloadShape::Pattern;

pub fn check(decl_kind: DeclKind, count: usize) -> (result: Result<(), Violation>)
    ensures
        result == (if decl_kind != DeclKind::Macro {
            Err(Violation::NotApplicable)
        } else if count > 1 {
            Err(Violation::TooMany)
        } else {
            Ok::<(), Violation>(())
        }),
{
    if !matches!(decl_kind, DeclKind::Macro) {
        return Err(Violation::NotApplicable);
    }
    if count > 1 {
        return Err(Violation::TooMany);
    }
    Ok(())
}

#[derive(Debug, Clone, PartialEq)]
pub enum PatternSegment {
    Literal(Vec<TokenKind>),
    Capture(String),
}

/// The mathematical model of a [`PatternSegment`].
pub enum SpecSegment {
    Literal(Seq<SpecTokenKind>),
    Capture(Seq<char>),
}

pub open spec fn kinds_view(kinds: Seq<TokenKind>) -> Seq<SpecTokenKind> {
    kinds.map_values(|k: TokenKind| k@)
}

impl View for PatternSegment {
    type V = SpecSegment;

    open spec fn view(&self) -> SpecSegment {
        match self {
            PatternSegment::Literal(kinds) => SpecSegment::Literal(kinds_view(kinds@)),
            PatternSegment::Capture(name) => SpecSegment::Capture(name@),
        }
    }
}

pub open spec fn segments_view(segments: Seq<PatternSegment>) -> Seq<SpecSegment> {
    segments.map_values(|s: PatternSegment| s@)
}

pub open spec fn strings_view(names: Seq<String>) -> Seq<Seq<char>> {
    names.map_values(|s: String| s@)
}

#[derive(Debug, Clone, PartialEq)]
pub struct SyntaxPattern {
    pub segments: Vec<PatternSegment>,
    /// Declared params, in declaration order: how captured expressions are
    /// reordered into positional operands.
    pub param_order: Vec<String>,
}

// ---------------------------------------------------------------------------
// The pattern grammar
// ---------------------------------------------------------------------------

pub open spec fn unknown_escape_literal_message(c: char) -> Seq<char> {
    "unknown escaped syntax-pattern literal `\\"@.push(c) + "`"@
}

/// A literal pattern token, with `\$` and `` \` `` turned into the plain
/// tokens they spell.
pub open spec fn unescape_literal(kind: SpecTokenKind) -> Result<SpecTokenKind, Seq<char>> {
    match kind {
        TokenKindG::Escaped(c) => if c == '$' {
            Ok(TokenKindG::Dollar)
        } else if c == '`' {
            Ok(TokenKindG::Backtick)
        } else {
            Err(unknown_escape_literal_message(c))
        },
        other => Ok(other),
    }
}

pub open spec fn close_literal(segments: Seq<SpecSegment>, literal: Seq<SpecTokenKind>) -> Seq<SpecSegment> {
    if literal.len() > 0 {
        segments.push(SpecSegment::Literal(literal))
    } else {
        segments
    }
}

/// Splits tokens `k..` into literal runs and `$name$` captures, given the
/// segments and the open literal run so far.
pub open spec fn split_from(
    tokens: Seq<SpecTokenKind>,
    k: int,
    literal: Seq<SpecTokenKind>,
    segments: Seq<SpecSegment>,
) -> Result<Seq<SpecSegment>, Seq<char>>
    decreases tokens.len() - k,
{
    if k < 0 || k >= tokens.len() {
        Ok(close_literal(segments, literal))
    } else if tokens[k] != TokenKindG::<Seq<char>>::Dollar {
        match unescape_literal(tokens[k]) {
            Ok(kind) => split_from(tokens, k + 1, literal.push(kind), segments),
            Err(message) => Err(message),
        }
    } else if k + 1 < tokens.len() && tokens[k + 1] is Identifier {
        if k + 2 < tokens.len() && tokens[k + 2] == TokenKindG::<Seq<char>>::Dollar {
            split_from(
                tokens,
                k + 3,
                Seq::empty(),
                close_literal(segments, literal).push(SpecSegment::Capture(tokens[k + 1]->Identifier_0)),
            )
        } else {
            Err(
                "a `$...$` capture must contain exactly one identifier (unterminated capture: missing closing `$`)"@,
            )
        }
    } else {
        Err("a `$...$` capture must contain exactly one identifier"@)
    }
}

/// The names captured by the first `k` segments, in order.
pub open spec fn capture_names(segments: Seq<SpecSegment>, k: int) -> Seq<Seq<char>>
    decreases k,
{
    if k <= 0 {
        Seq::empty()
    } else {
        match segments[k - 1] {
            SpecSegment::Capture(name) => capture_names(segments, k - 1).push(name),
            SpecSegment::Literal(_) => capture_names(segments, k - 1),
        }
    }
}

/// How many of the first `k` captures are `name`.
pub open spec fn count_of(captures: Seq<Seq<char>>, name: Seq<char>, k: int) -> nat
    decreases k,
{
    if k <= 0 {
        0
    } else {
        count_of(captures, name, k - 1) + if captures[k - 1] == name {
            1nat
        } else {
            0nat
        }
    }
}

/// The first capture among the first `k` that names no parameter.
pub open spec fn first_unknown_capture(captures: Seq<Seq<char>>, params: Seq<Seq<char>>, k: int) -> Option<
    Seq<char>,
>
    decreases k,
{
    if k <= 0 {
        None
    } else {
        match first_unknown_capture(captures, params, k - 1) {
            Some(name) => Some(name),
            None => if params.contains(captures[k - 1]) {
                None
            } else {
                Some(captures[k - 1])
            },
        }
    }
}

/// The first of the first `k` parameters not captured exactly once.
pub open spec fn first_bad_param(captures: Seq<Seq<char>>, params: Seq<Seq<char>>, k: int) -> Option<
    Seq<char>,
>
    decreases k,
{
    if k <= 0 {
        None
    } else {
        match first_bad_param(captures, params, k - 1) {
            Some(message) => Some(message),
            None => {
                let p = params[k - 1];
                let n = count_of(captures, p, captures.len() as int);
                if n == 0 {
                    Some("parameter `"@ + p + "` is never captured (`$"@ + p + "$`)"@)
                } else if n > 1 {
                    Some("parameter `"@ + p + "` is captured more than once"@)
                } else {
                    None
                }
            },
        }
    }
}

pub open spec fn captures_check(segments: Seq<SpecSegment>, params: Seq<Seq<char>>) -> Result<(), Seq<char>> {
    let captures = capture_names(segments, segments.len() as int);
    match first_unknown_capture(captures, params, captures.len() as int) {
        Some(name) => Err("`$"@ + name + "$` doesn't name a declared parameter"@),
        None => match first_bad_param(captures, params, params.len() as int) {
            Some(message) => Err(message),
            None => Ok(()),
        },
    }
}

/// The first pair of adjacent captures among the first `k` segments.
pub open spec fn gaps_check(segments: Seq<SpecSegment>, k: int) -> Result<(), Seq<char>>
    decreases k,
{
    if k <= 1 {
        Ok(())
    } else {
        match gaps_check(segments, k - 1) {
            Err(message) => Err(message),
            Ok(()) => match (segments[k - 2], segments[k - 1]) {
                (SpecSegment::Capture(a), SpecSegment::Capture(b)) => Err(
                    "`$"@ + a + "$` and `$"@ + b
                        + "$` need a literal between them to tell where one ends and the other begins"@,
                ),
                _ => Ok(()),
            },
        }
    }
}

/// A whole pattern: its segments once split and validated against the
/// declared parameters, or the first problem found.
pub open spec fn pattern_spec(tokens: Seq<SpecTokenKind>, params: Seq<Seq<char>>) -> Result<
    Seq<SpecSegment>,
    Seq<char>,
> {
    match split_from(tokens, 0, Seq::empty(), Seq::empty()) {
        Err(message) => Err(message),
        Ok(segments) => match captures_check(segments, params) {
            Err(message) => Err(message),
            Ok(()) => match gaps_check(segments, segments.len() as int) {
                Err(message) => Err(message),
                Ok(()) => Ok(segments),
            },
        },
    }
}

// ---------------------------------------------------------------------------
// Implementation
// ---------------------------------------------------------------------------

/// Parses a `syntax` facet's or override's raw `{ ... }` tokens (braces and
/// any `Newline`/`Eof` already stripped) into a pattern, and validates it
/// against the declared `params`. A pattern need not start with (or
/// contain) the macro's own name. Errors are plain messages the parser
/// turns into a parse error at the pattern's span.
pub fn parse_pattern(tokens: Vec<TokenKind>, params: &[String]) -> (result: Result<SyntaxPattern, String>)
    ensures
        match pattern_spec(kinds_view(tokens@), strings_view(params@)) {
            Ok(segments) => result matches Ok(p) && segments_view(p.segments@) == segments
                && p.param_order@ == params@,
            Err(message) => result matches Err(m) && m@ == message,
        },
{
    let segments = split_into_segments(tokens)?;
    validate_captures(&segments, params)?;
    validate_no_empty_gaps(&segments)?;
    Ok(SyntaxPattern { segments, param_order: clone_strings(params) })
}

pub open spec fn first_literal_token(pattern: SyntaxPattern) -> Option<SpecTokenKind> {
    if pattern.segments@.len() > 0 {
        match pattern.segments@[0] {
            PatternSegment::Literal(tokens) => if tokens@.len() > 0 {
                Some(tokens@[0]@)
            } else {
                None
            },
            PatternSegment::Capture(_) => None,
        }
    } else {
        None
    }
}

/// Whether the pattern's first segment is a literal starting with the
/// identifier `name`: such a pattern is only tried where a statement's
/// leading identifier already is `name`. Any other pattern is tried at
/// every identifier-led statement.
pub fn is_anchored(pattern: &SyntaxPattern, name: &str) -> (anchored: bool)
    ensures
        anchored == (first_literal_token(*pattern) == Some(TokenKindG::<Seq<char>>::Identifier(name@))),
{
    if pattern.segments.len() == 0 {
        return false;
    }
    match &pattern.segments[0] {
        PatternSegment::Literal(tokens) => {
            if tokens.len() == 0 {
                return false;
            }
            match &tokens[0] {
                TokenKindG::Identifier(first) => str_eq(first.as_str(), name),
                _ => false,
            }
        },
        PatternSegment::Capture(_) => false,
    }
}

/// Whether the pattern starts with a literal token that cannot start a
/// statement (anything but a word, e.g. `[rel $target$]`): such a pattern
/// is tried wherever an operand starts, and a match becomes a call of the
/// pattern's macro.
pub fn is_operand_pattern(pattern: &SyntaxPattern) -> (operand: bool)
    ensures
        operand == (match first_literal_token(*pattern) {
            Some(kind) => !crate::token::is_word(kind),
            None => false,
        }),
{
    if pattern.segments.len() == 0 {
        return false;
    }
    match &pattern.segments[0] {
        PatternSegment::Literal(tokens) => {
            if tokens.len() == 0 {
                return false;
            }
            tokens[0].word_text().is_none()
        },
        PatternSegment::Capture(_) => false,
    }
}

fn split_into_segments(tokens: Vec<TokenKind>) -> (result: Result<Vec<PatternSegment>, String>)
    ensures
        match split_from(kinds_view(tokens@), 0, Seq::empty(), Seq::empty()) {
            Ok(segments) => result matches Ok(v) && segments_view(v@) == segments,
            Err(message) => result matches Err(m) && m@ == message,
        },
{
    let ghost t = kinds_view(tokens@);
    let mut segments: Vec<PatternSegment> = Vec::new();
    let mut literal: Vec<TokenKind> = Vec::new();
    let mut k: usize = 0;
    assert(segments_view(segments@) =~= Seq::<SpecSegment>::empty());
    assert(kinds_view(literal@) =~= Seq::<SpecTokenKind>::empty());
    while k < tokens.len()
        invariant
            t == kinds_view(tokens@),
            k <= tokens@.len(),
            split_from(t, 0, Seq::empty(), Seq::empty()) == split_from(
                t,
                k as int,
                kinds_view(literal@),
                segments_view(segments@),
            ),
        decreases tokens@.len() - k,
    {
        let token = &tokens[k];
        if !matches!(token, TokenKindG::Dollar) {
            let kind = unescape_literal_token(token)?;
            let ghost before = literal@;
            literal.push(kind);
            assert(kinds_view(literal@) =~= kinds_view(before).push(kind@));
            k += 1;
            continue;
        }
        let ghost before_segments = segments@;
        let ghost before_literal = literal@;
        if literal.len() > 0 {
            let mut run: Vec<TokenKind> = Vec::new();
            std::mem::swap(&mut run, &mut literal);
            segments.push(PatternSegment::Literal(run));
            assert(segments_view(segments@) =~= segments_view(before_segments).push(
                SpecSegment::Literal(kinds_view(run@)),
            ));
        } else {
            assert(kinds_view(before_literal) =~= Seq::<SpecTokenKind>::empty());
        }
        assert(segments_view(segments@) == close_literal(
            segments_view(before_segments),
            kinds_view(before_literal),
        ));
        if k + 1 >= tokens.len() {
            return Err(String::from_str("a `$...$` capture must contain exactly one identifier"));
        }
        let name = match &tokens[k + 1] {
            TokenKindG::Identifier(name) => name.clone(),
            _ => {
                return Err(String::from_str("a `$...$` capture must contain exactly one identifier"));
            },
        };
        if k + 2 >= tokens.len() || !matches!(&tokens[k + 2], TokenKindG::Dollar) {
            return Err(
                String::from_str(
                    "a `$...$` capture must contain exactly one identifier (unterminated capture: missing closing `$`)",
                ),
            );
        }
        let ghost before_capture = segments@;
        segments.push(PatternSegment::Capture(name));
        assert(segments_view(segments@) =~= segments_view(before_capture).push(SpecSegment::Capture(name@)));
        assert(kinds_view(literal@) =~= Seq::<SpecTokenKind>::empty());
        k += 3;
    }
    let ghost before_segments = segments@;
    if literal.len() > 0 {
        let mut run: Vec<TokenKind> = Vec::new();
        std::mem::swap(&mut run, &mut literal);
        segments.push(PatternSegment::Literal(run));
        assert(segments_view(segments@) =~= segments_view(before_segments).push(
            SpecSegment::Literal(kinds_view(run@)),
        ));
    }
    Ok(segments)
}

fn unescape_literal_token(token: &TokenKind) -> (result: Result<TokenKind, String>)
    ensures
        match unescape_literal(token@) {
            Ok(kind) => result matches Ok(k) && k@ == kind,
            Err(message) => result matches Err(m) && m@ == message,
        },
{
    match token {
        TokenKindG::Escaped(ch) => {
            if *ch == '$' {
                Ok(TokenKindG::Dollar)
            } else if *ch == '`' {
                Ok(TokenKindG::Backtick)
            } else {
                let mut message = String::from_str("unknown escaped syntax-pattern literal `\\");
                crate::text::push_char(&mut message, *ch);
                message.append("`");
                Err(message)
            }
        },
        other => Ok(other.clone_kind()),
    }
}

fn validate_captures(segments: &Vec<PatternSegment>, params: &[String]) -> (result: Result<(), String>)
    ensures
        match captures_check(segments_view(segments@), strings_view(params@)) {
            Ok(()) => result is Ok,
            Err(message) => result matches Err(m) && m@ == message,
        },
{
    let ghost segs = segments_view(segments@);
    let ghost ps = strings_view(params@);
    let captures = capture_list(segments);
    let ghost caps = capture_names(segs, segs.len() as int);
    let mut k: usize = 0;
    while k < captures.len()
        invariant
            segs == segments_view(segments@),
            caps == capture_names(segs, segs.len() as int),
            strings_view(captures@) == caps,
            ps == strings_view(params@),
            k <= captures@.len(),
            first_unknown_capture(caps, ps, k as int) is None,
        decreases captures@.len() - k,
    {
        let name = &captures[k];
        if !contains_string(params, name) {
            assert(caps[k as int] == name@);
            proof {
                lemma_first_unknown_stays(caps, ps, k as int + 1);
            }
            return Err(concat3("`$", name.as_str(), "$` doesn't name a declared parameter"));
        }
        k += 1;
    }
    let mut m: usize = 0;
    while m < params.len()
        invariant
            segs == segments_view(segments@),
            caps == capture_names(segs, segs.len() as int),
            strings_view(captures@) == caps,
            ps == strings_view(params@),
            first_unknown_capture(caps, ps, caps.len() as int) is None,
            m <= params@.len(),
            first_bad_param(caps, ps, m as int) is None,
        decreases params@.len() - m,
    {
        let param = &params[m];
        let count = count_string(&captures, param);
        assert(ps[m as int] == param@);
        if count == 0 {
            proof {
                lemma_first_bad_stays(caps, ps, m as int + 1);
            }
            let mut message = concat3("parameter `", param.as_str(), "` is never captured (`$");
            message.append(param.as_str());
            message.append("$`)");
            return Err(message);
        } else if count > 1 {
            proof {
                lemma_first_bad_stays(caps, ps, m as int + 1);
            }
            return Err(concat3("parameter `", param.as_str(), "` is captured more than once"));
        }
        m += 1;
    }
    Ok(())
}

fn validate_no_empty_gaps(segments: &Vec<PatternSegment>) -> (result: Result<(), String>)
    ensures
        match gaps_check(segments_view(segments@), segments@.len() as int) {
            Ok(()) => result is Ok,
            Err(message) => result matches Err(m) && m@ == message,
        },
{
    let ghost segs = segments_view(segments@);
    let mut k: usize = 1;
    while k < segments.len()
        invariant
            segs == segments_view(segments@),
            1 <= k,
            k <= segments@.len() || segments@.len() == 0,
            gaps_check(segs, k as int) == Ok::<(), Seq<char>>(()),
        decreases segments@.len() - k,
    {
        match (&segments[k - 1], &segments[k]) {
            (PatternSegment::Capture(a), PatternSegment::Capture(b)) => {
                proof {
                    lemma_gaps_stay(segs, k as int + 1);
                }
                let mut message = concat3("`$", a.as_str(), "$` and `$");
                message.append(b.as_str());
                message.append(
                    "$` need a literal between them to tell where one ends and the other begins",
                );
                return Err(message);
            },
            _ => {},
        }
        k += 1;
    }
    Ok(())
}

// ---------------------------------------------------------------------------
// Helpers
// ---------------------------------------------------------------------------

fn clone_strings(items: &[String]) -> (copy: Vec<String>)
    ensures
        copy@ == items@,
{
    let mut copy: Vec<String> = Vec::new();
    let mut k: usize = 0;
    while k < items.len()
        invariant
            k <= items@.len(),
            copy@ == items@.take(k as int),
        decreases items@.len() - k,
    {
        copy.push(items[k].clone());
        assert(copy@ =~= items@.take(k + 1));
        k += 1;
    }
    assert(items@.take(items@.len() as int) =~= items@);
    copy
}

/// The captured names, in order.
fn capture_list(segments: &Vec<PatternSegment>) -> (names: Vec<String>)
    ensures
        strings_view(names@) == capture_names(segments_view(segments@), segments@.len() as int),
{
    let ghost segs = segments_view(segments@);
    let mut names: Vec<String> = Vec::new();
    let mut k: usize = 0;
    while k < segments.len()
        invariant
            segs == segments_view(segments@),
            k <= segments@.len(),
            strings_view(names@) == capture_names(segs, k as int),
        decreases segments@.len() - k,
    {
        if let PatternSegment::Capture(name) = &segments[k] {
            let ghost before = names@;
            names.push(name.clone());
            assert(strings_view(names@) =~= strings_view(before).push(name@));
        }
        k += 1;
    }
    names
}

fn contains_string(items: &[String], name: &String) -> (found: bool)
    ensures
        found == strings_view(items@).contains(name@),
{
    let mut k: usize = 0;
    while k < items.len()
        invariant
            k <= items@.len(),
            forall|m: int| 0 <= m < k ==> items@[m]@ != name@,
        decreases items@.len() - k,
    {
        if str_eq(items[k].as_str(), name.as_str()) {
            assert(strings_view(items@)[k as int] == name@);
            return true;
        }
        k += 1;
    }
    proof {
        if strings_view(items@).contains(name@) {
            let m = choose|m: int| 0 <= m < items@.len() && strings_view(items@)[m] == name@;
            assert(items@[m]@ == name@);
        }
    }
    false
}

fn count_string(items: &Vec<String>, name: &String) -> (count: usize)
    ensures
        count == count_of(strings_view(items@), name@, items@.len() as int),
{
    let ghost v = strings_view(items@);
    let mut count: usize = 0;
    let mut k: usize = 0;
    while k < items.len()
        invariant
            v == strings_view(items@),
            k <= items@.len(),
            count == count_of(v, name@, k as int),
            count <= k,
        decreases items@.len() - k,
    {
        if str_eq(items[k].as_str(), name.as_str()) {
            count += 1;
        }
        k += 1;
    }
    count
}

proof fn lemma_first_unknown_stays(caps: Seq<Seq<char>>, params: Seq<Seq<char>>, k: int)
    requires
        0 < k <= caps.len(),
        first_unknown_capture(caps, params, k - 1) is None,
        !params.contains(caps[k - 1]),
    ensures
        first_unknown_capture(caps, params, caps.len() as int) == Some(caps[k - 1]),
    decreases caps.len() - k,
{
    if k < caps.len() {
        lemma_first_unknown_from(caps, params, k, caps[k - 1]);
    }
}

proof fn lemma_first_unknown_from(caps: Seq<Seq<char>>, params: Seq<Seq<char>>, k: int, name: Seq<char>)
    requires
        0 < k <= caps.len(),
        first_unknown_capture(caps, params, k) == Some(name),
    ensures
        first_unknown_capture(caps, params, caps.len() as int) == Some(name),
    decreases caps.len() - k,
{
    if k < caps.len() {
        lemma_first_unknown_from(caps, params, k + 1, name);
    }
}

proof fn lemma_first_bad_stays(caps: Seq<Seq<char>>, params: Seq<Seq<char>>, k: int)
    requires
        0 < k <= params.len(),
        first_bad_param(caps, params, k) is Some,
    ensures
        first_bad_param(caps, params, params.len() as int) == first_bad_param(caps, params, k),
    decreases params.len() - k,
{
    if k < params.len() {
        lemma_first_bad_stays(caps, params, k + 1);
    }
}

proof fn lemma_gaps_stay(segments: Seq<SpecSegment>, k: int)
    requires
        1 < k <= segments.len(),
        gaps_check(segments, k) is Err,
    ensures
        gaps_check(segments, segments.len() as int) == gaps_check(segments, k),
    decreases segments.len() - k,
{
    if k < segments.len() {
        lemma_gaps_stay(segments, k + 1);
    }
}

} // verus!
