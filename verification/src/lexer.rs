//! Turns `.basm` source text into a flat [`Token`] stream. Newlines are
//! their own tokens (statements are newline-terminated), comments run from
//! `#` to the end of the line, and `>>` always lexes as one
//! [`TokenKind::ShiftRight`]; the parser splits it where it closes two
//! generic lists.
//!
//! Outside string literals a backslash only starts `` \` `` or `\$`,
//! lexed as [`TokenKind::Escaped`]; anything else after it is an error.
//!
//! The lexer walks characters. [`lex`] reports spans as byte offsets into
//! the UTF-8 source, as every other stage expects; [`lex_chars`] reports
//! them as character indices, which is what the formatter works in.
use vstd::prelude::*;
use vstd::utf8::*;

use crate::text::{byte_offset, byte_offsets, lemma_byte_offset_step, chars_of, decimal, decimal_string, char_is_alphabetic, char_is_alphanumeric, is_alphabetic, is_alphanumeric, is_ascii_letter, push_char, string_of};
use crate::token::{Span, SpecToken, SpecTokenKind, Token, TokenKind, TokenKindG};

verus! {

#[derive(Debug, Clone, PartialEq, Eq)]
pub struct LexError {
    pub message: String,
    pub span: Span,
}

/// The mathematical model of a [`LexError`].
pub struct LexErrorModel {
    pub message: Seq<char>,
    pub span: Span,
}

impl View for LexError {
    type V = LexErrorModel;

    open spec fn view(&self) -> LexErrorModel {
        LexErrorModel { message: self.message@, span: self.span }
    }
}

impl LexError {
    pub fn new(message: String, start: usize, end: usize) -> (error: LexError)
        ensures
            error.message == message,
            error.span == (Span { start, end }),
    {
        LexError { message, span: Span { start, end } }
    }
}

// ===========================================================================
// The language of tokens, as a function of the source characters
// ===========================================================================

pub open spec fn error_at(message: Seq<char>, start: int, end: int) -> LexErrorModel {
    LexErrorModel { message, span: Span { start: start as usize, end: end as usize } }
}

/// The character classes the lexer scans runs of.
#[derive(Clone, Copy)]
pub enum CharClass {
    HorizontalSpace,
    NotNewline,
    IdentifierContinue,
    Decimal,
    Hex,
    Binary,
    Octal,
}

pub open spec fn in_class(class: CharClass, c: char) -> bool {
    match class {
        CharClass::HorizontalSpace => c == ' ' || c == '\t' || c == '\r',
        CharClass::NotNewline => c != '\n',
        CharClass::IdentifierContinue => c == '_' || if (c as u32) < 128 {
            is_ascii_letter(c) || ('0' <= c && c <= '9')
        } else {
            is_alphanumeric(c)
        },
        CharClass::Decimal => '0' <= c && c <= '9',
        CharClass::Hex => ('0' <= c && c <= '9') || ('a' <= c && c <= 'f') || ('A' <= c && c
            <= 'F'),
        CharClass::Binary => c == '0' || c == '1',
        CharClass::Octal => '0' <= c && c <= '7',
    }
}

/// An identifier starts with `_` or a letter: an ASCII letter, or beyond
/// ASCII any character with the Unicode `Alphabetic` property.
pub open spec fn is_identifier_start(c: char) -> bool {
    c == '_' || if (c as u32) < 128 {
        is_ascii_letter(c)
    } else {
        is_alphabetic(c)
    }
}

/// The end of the run of `class` characters that starts at `i`.
pub open spec fn scan(s: Seq<char>, i: int, class: CharClass) -> int
    decreases s.len() - i,
{
    if 0 <= i < s.len() && in_class(class, s[i]) {
        scan(s, i + 1, class)
    } else {
        i
    }
}

/// The end of a run of digits from `class` that starts at `i`, where single
/// underscores may separate digits but two may not stand side by side.
pub open spec fn digits_end(s: Seq<char>, i: int, class: CharClass, after_underscore: bool) -> int
    decreases s.len() - i,
{
    if 0 <= i < s.len() && in_class(class, s[i]) {
        digits_end(s, i + 1, class, false)
    } else if 0 <= i < s.len() && s[i] == '_' && !after_underscore {
        digits_end(s, i + 1, class, true)
    } else {
        i
    }
}

pub open spec fn char_at(s: Seq<char>, k: int, c: char) -> bool {
    0 <= k < s.len() && s[k] == c
}

pub open spec fn keyword_kind(text: Seq<char>) -> SpecTokenKind {
    if text == seq!['f', 'r', 'o', 'm'] {
        TokenKindG::From
    } else if text == seq!['i', 'm', 'p', 'o', 'r', 't'] {
        TokenKindG::Import
    } else if text == seq!['a', 's'] {
        TokenKindG::As
    } else if text == seq!['p', 'u', 'b'] {
        TokenKindG::Pub
    } else if text == seq!['m', 'a', 'c', 'r', 'o'] {
        TokenKindG::Macro
    } else if text == seq!['t', 'y', 'p', 'e'] {
        TokenKindG::Type
    } else if text == seq!['s', 't', 'r', 'u', 'c', 't'] {
        TokenKindG::Struct
    } else if text == seq!['e', 'n', 'u', 'm'] {
        TokenKindG::Enum
    } else if text == seq!['c', 'o', 'n', 's', 't'] {
        TokenKindG::Const
    } else {
        TokenKindG::Identifier(text)
    }
}

/// The nine keywords read as their own tokens; any other word is an
/// identifier spelling exactly that word.
pub proof fn lemma_keywords(text: Seq<char>)
    ensures
        keyword_kind("from"@) == SpecTokenKind::From,
        keyword_kind("import"@) == SpecTokenKind::Import,
        keyword_kind("as"@) == SpecTokenKind::As,
        keyword_kind("pub"@) == SpecTokenKind::Pub,
        keyword_kind("macro"@) == SpecTokenKind::Macro,
        keyword_kind("type"@) == SpecTokenKind::Type,
        keyword_kind("struct"@) == SpecTokenKind::Struct,
        keyword_kind("enum"@) == SpecTokenKind::Enum,
        keyword_kind("const"@) == SpecTokenKind::Const,
        text != "from"@ && text != "import"@ && text != "as"@ && text != "pub"@ && text != "macro"@ && text != "type"@ && text != "struct"@ && text != "enum"@ && text != "const"@ ==> keyword_kind(text) == SpecTokenKind::Identifier(text),
{
    reveal_strlit("from");
    reveal_strlit("import");
    reveal_strlit("as");
    reveal_strlit("pub");
    reveal_strlit("macro");
    reveal_strlit("type");
    reveal_strlit("struct");
    reveal_strlit("enum");
    reveal_strlit("const");
    assert("from"@ =~= seq!['f', 'r', 'o', 'm']);
    assert("import"@ =~= seq!['i', 'm', 'p', 'o', 'r', 't']);
    assert("as"@ =~= seq!['a', 's']);
    assert("pub"@ =~= seq!['p', 'u', 'b']);
    assert("macro"@ =~= seq!['m', 'a', 'c', 'r', 'o']);
    assert("type"@ =~= seq!['t', 'y', 'p', 'e']);
    assert("struct"@ =~= seq!['s', 't', 'r', 'u', 'c', 't']);
    assert("enum"@ =~= seq!['e', 'n', 'u', 'm']);
    assert("const"@ =~= seq!['c', 'o', 'n', 's', 't']);
}

/// A run of a character class ends at the first character outside it.
proof fn lemma_scan_run(s: Seq<char>, i: int, j: int, class: CharClass)
    requires
        0 <= i <= j <= s.len(),
        forall|k: int| i <= k < j ==> in_class(class, #[trigger] s[k]),
        j == s.len() || !in_class(class, s[j]),
    ensures
        scan(s, i, class) == j,
    decreases j - i,
{
    if i < j {
        lemma_scan_run(s, i + 1, j, class);
    }
}

/// Layout: a line break is a `Newline` token; spaces, tabs and carriage
/// returns, and a `#` comment up to the end of its line, give no token and
/// are skipped whole.
pub proof fn lemma_layout_tokens(s: Seq<char>, i: int, j: int)
    requires
        0 <= i < j <= s.len(),
    ensures
        s[i] == '\n' ==> lex_step(s, i) == Ok::<(int, Option<SpecTokenKind>), LexErrorModel>((i + 1, Some(SpecTokenKind::Newline))),
        s[i] == '#' && (forall|k: int| i <= k < j ==> #[trigger] s[k] != '\n') && (j == s.len() || s[j] == '\n')
            ==> lex_step(s, i) == Ok::<(int, Option<SpecTokenKind>), LexErrorModel>((j, None)),
        (forall|k: int| i <= k < j ==> #[trigger] s[k] == ' ' || s[k] == '\t' || s[k] == '\r') && (j == s.len() || (s[j]
            != ' ' && s[j] != '\t' && s[j] != '\r')) ==> lex_step(s, i) == Ok::<(int, Option<SpecTokenKind>), LexErrorModel>(
            (j, None),
        ),
{
    if s[i] == '#' && (forall|k: int| i <= k < j ==> #[trigger] s[k] != '\n') && (j == s.len() || s[j] == '\n') {
        lemma_scan_run(s, i, j, CharClass::NotNewline);
    }
    if (forall|k: int| i <= k < j ==> #[trigger] s[k] == ' ' || s[k] == '\t' || s[k] == '\r') && (j == s.len() || (s[j]
        != ' ' && s[j] != '\t' && s[j] != '\r')) {
        assert(in_class(CharClass::HorizontalSpace, s[i]));
        lemma_scan_run(s, i, j, CharClass::HorizontalSpace);
    }
}

/// A run of digits of a class ends at the first character that is neither
/// such a digit nor an underscore.
proof fn lemma_digit_run(s: Seq<char>, i: int, j: int, class: CharClass, after_underscore: bool)
    requires
        0 <= i <= j <= s.len(),
        forall|k: int| i <= k < j ==> in_class(class, #[trigger] s[k]),
        j == s.len() || (!in_class(class, s[j]) && s[j] != '_'),
    ensures
        digits_end(s, i, class, after_underscore) == j,
    decreases j - i,
{
    if i < j {
        lemma_digit_run(s, i + 1, j, class, false);
    }
}

/// A decimal digit, `0` to `9`.
pub open spec fn is_decimal_char(c: char) -> bool {
    '0' <= c <= '9'
}

/// A hexadecimal digit: `0` to `9`, `a` to `f`, `A` to `F`.
pub open spec fn is_hex_char(c: char) -> bool {
    ('0' <= c <= '9') || ('a' <= c <= 'f') || ('A' <= c <= 'F')
}

/// Integer literals: a decimal literal runs over its digits; after `0x`
/// (or `0X`) the digits are hexadecimal, after `0b` binary and after `0o`
/// octal; each literal ends at the first character that is neither one of
/// its digits nor an underscore.
pub proof fn lemma_integer_literals(s: Seq<char>, i: int, j: int)
    requires
        0 <= i < j <= s.len(),
        j == s.len() || s[j] != '_',
    ensures
        is_decimal_char(s[i]) && s[i] != '0' && (forall|k: int| i <= k < j ==> is_decimal_char(#[trigger] s[k]))
            && (j == s.len() || !is_decimal_char(s[j])) ==> number_end(s, i) == Ok::<int, LexErrorModel>(j),
        i + 2 < j && s[i] == '0' && (s[i + 1] == 'x' || s[i + 1] == 'X') && (forall|k: int|
            i + 2 <= k < j ==> is_hex_char(#[trigger] s[k])) && (j == s.len() || !is_hex_char(s[j])) ==> number_end(s, i)
            == Ok::<int, LexErrorModel>(j),
        i + 2 < j && s[i] == '0' && (s[i + 1] == 'b' || s[i + 1] == 'B') && (forall|k: int|
            i + 2 <= k < j ==> #[trigger] s[k] == '0' || s[k] == '1') && (j == s.len() || (s[j] != '0' && s[j]
            != '1')) ==> number_end(s, i) == Ok::<int, LexErrorModel>(j),
        i + 2 < j && s[i] == '0' && (s[i + 1] == 'o' || s[i + 1] == 'O') && (forall|k: int|
            i + 2 <= k < j ==> '0' <= #[trigger] s[k] <= '7') && (j == s.len() || !('0' <= s[j] <= '7'))
            ==> number_end(s, i) == Ok::<int, LexErrorModel>(j),
{
    if is_decimal_char(s[i]) && s[i] != '0' && (forall|k: int| i <= k < j ==> is_decimal_char(#[trigger] s[k]))
        && (j == s.len() || !is_decimal_char(s[j])) {
        lemma_digit_run(s, i, j, CharClass::Decimal, false);
    }
    if i + 2 < j && s[i] == '0' && (s[i + 1] == 'x' || s[i + 1] == 'X') && (forall|k: int|
        i + 2 <= k < j ==> is_hex_char(#[trigger] s[k])) && (j == s.len() || !is_hex_char(s[j])) {
        lemma_digit_run(s, i + 2, j, CharClass::Hex, false);
    }
    if i + 2 < j && s[i] == '0' && (s[i + 1] == 'b' || s[i + 1] == 'B') && (forall|k: int|
        i + 2 <= k < j ==> #[trigger] s[k] == '0' || s[k] == '1') && (j == s.len() || (s[j] != '0' && s[j] != '1')) {
        lemma_digit_run(s, i + 2, j, CharClass::Binary, false);
    }
    if i + 2 < j && s[i] == '0' && (s[i + 1] == 'o' || s[i + 1] == 'O') && (forall|k: int|
        i + 2 <= k < j ==> '0' <= #[trigger] s[k] <= '7') && (j == s.len() || !('0' <= s[j] <= '7')) {
        lemma_digit_run(s, i + 2, j, CharClass::Octal, false);
    }
}

/// Where an integer literal starting at `i` ends, or why it is malformed.
pub open spec fn number_end(s: Seq<char>, i: int) -> Result<int, LexErrorModel> {
    if s[i] == '0' && (char_at(s, i + 1, 'x') || char_at(s, i + 1, 'X')) {
        let j = digits_end(s, i + 2, CharClass::Hex, false);
        if j == i + 2 {
            Err(error_at("expected hexadecimal digits after 0x"@, i, j))
        } else {
            Ok(j)
        }
    } else if s[i] == '0' && (char_at(s, i + 1, 'b') || char_at(s, i + 1, 'B')) {
        let j = digits_end(s, i + 2, CharClass::Binary, false);
        if j == i + 2 {
            Err(error_at("expected binary digits after 0b"@, i, j))
        } else {
            Ok(j)
        }
    } else if s[i] == '0' && (char_at(s, i + 1, 'o') || char_at(s, i + 1, 'O')) {
        let j = digits_end(s, i + 2, CharClass::Octal, false);
        if j == i + 2 {
            Err(error_at("expected octal digits after 0o"@, i, j))
        } else {
            Ok(j)
        }
    } else if s[i] == '0' {
        Ok(digits_end(s, i + 1, CharClass::Decimal, false))
    } else {
        Ok(digits_end(s, i, CharClass::Decimal, false))
    }
}

pub open spec fn unknown_escape_message(c: char) -> Seq<char> {
    "unknown escape sequence \\"@.push(c)
}

/// The character a `\c` escape inside a string literal stands for.
pub open spec fn string_escape(c: char) -> Option<char> {
    if c == 'n' {
        Some('\n')
    } else if c == 'r' {
        Some('\r')
    } else if c == 't' {
        Some('\t')
    } else if c == '0' {
        Some('\0')
    } else if c == '\\' {
        Some('\\')
    } else if c == '"' {
        Some('"')
    } else {
        None
    }
}

/// The character a `\c` escape inside a char literal stands for.
pub open spec fn char_escape(c: char) -> Option<char> {
    if c == 'n' {
        Some('\n')
    } else if c == 'r' {
        Some('\r')
    } else if c == 't' {
        Some('\t')
    } else if c == '0' {
        Some('\0')
    } else if c == '\\' {
        Some('\\')
    } else if c == '\'' {
        Some('\'')
    } else {
        None
    }
}

/// The rest of a string literal opened at `start`, from position `k` on,
/// with `value` decoded so far: where it ends and its full value.
pub open spec fn string_body(s: Seq<char>, start: int, k: int, value: Seq<char>) -> Result<
    (int, Seq<char>),
    LexErrorModel,
>
    decreases s.len() - k,
{
    if k < 0 || k >= s.len() {
        Err(error_at("unterminated string literal"@, start, k))
    } else if s[k] == '"' {
        Ok((k + 1, value))
    } else if s[k] == '\\' {
        if k + 1 >= s.len() {
            Err(error_at("unterminated escape sequence"@, start, k + 1))
        } else {
            match string_escape(s[k + 1]) {
                Some(e) => string_body(s, start, k + 2, value.push(e)),
                None => Err(error_at(unknown_escape_message(s[k + 1]), k, k + 2)),
            }
        }
    } else if s[k] == '\n' {
        Err(error_at("unterminated string literal"@, start, k))
    } else {
        string_body(s, start, k + 1, value.push(s[k]))
    }
}

/// Escapes inside a string literal: wherever it stands, `\n`, `\r`, `\t`,
/// `\0`, `\\` and `\"` add a line feed (U+000A), a carriage return
/// (U+000D), a tab (U+0009), a NUL (U+0000), a backslash and a double
/// quote to the value, and reading goes on after the two characters.
pub proof fn lemma_string_escapes_decode(s: Seq<char>, start: int, k: int, value: Seq<char>)
    requires
        0 <= k,
        k + 1 < s.len(),
        s[k] == '\\',
    ensures
        s[k + 1] == 'n' ==> string_body(s, start, k, value) == string_body(s, start, k + 2, value.push('\u{a}')),
        s[k + 1] == 'r' ==> string_body(s, start, k, value) == string_body(s, start, k + 2, value.push('\u{d}')),
        s[k + 1] == 't' ==> string_body(s, start, k, value) == string_body(s, start, k + 2, value.push('\u{9}')),
        s[k + 1] == '0' ==> string_body(s, start, k, value) == string_body(s, start, k + 2, value.push('\u{0}')),
        s[k + 1] == '\\' ==> string_body(s, start, k, value) == string_body(s, start, k + 2, value.push('\u{5c}')),
        s[k + 1] == '"' ==> string_body(s, start, k, value) == string_body(s, start, k + 2, value.push('\u{22}')),
{
}

/// A one-escape string literal anywhere in a text lexes to a string token
/// holding the one character the escape stands for, and lexing goes on
/// right after the closing quote.
pub proof fn lemma_escaped_string_token(s: Seq<char>, i: int)
    requires
        0 <= i,
        i + 3 < s.len(),
        s[i] == '"',
        s[i + 1] == '\\',
        s[i + 3] == '"',
    ensures
        s[i + 2] == 'n' ==> lex_step(s, i) == Ok::<(int, Option<SpecTokenKind>), LexErrorModel>((i + 4, Some(TokenKindG::String(seq!['\u{a}'])))),
        s[i + 2] == 'r' ==> lex_step(s, i) == Ok::<(int, Option<SpecTokenKind>), LexErrorModel>((i + 4, Some(TokenKindG::String(seq!['\u{d}'])))),
        s[i + 2] == 't' ==> lex_step(s, i) == Ok::<(int, Option<SpecTokenKind>), LexErrorModel>((i + 4, Some(TokenKindG::String(seq!['\u{9}'])))),
        s[i + 2] == '0' ==> lex_step(s, i) == Ok::<(int, Option<SpecTokenKind>), LexErrorModel>((i + 4, Some(TokenKindG::String(seq!['\u{0}'])))),
        s[i + 2] == '\\' ==> lex_step(s, i) == Ok::<(int, Option<SpecTokenKind>), LexErrorModel>((i + 4, Some(TokenKindG::String(seq!['\u{5c}'])))),
        s[i + 2] == '"' ==> lex_step(s, i) == Ok::<(int, Option<SpecTokenKind>), LexErrorModel>((i + 4, Some(TokenKindG::String(seq!['\u{22}'])))),
{
    lemma_string_escapes_decode(s, i, i + 1, Seq::empty());
    assert(string_body(s, i, i + 3, Seq::empty().push(string_escape(s[i + 2])->Some_0)) == Ok::<(int, Seq<char>), LexErrorModel>(
        (i + 4, Seq::empty().push(string_escape(s[i + 2])->Some_0)),
    ));
    assert(!in_class(CharClass::HorizontalSpace, '"'));
    assert(!is_identifier_start('"'));
}

/// A char literal opening at `i`: where it ends and the codepoint it names.
pub open spec fn char_literal(s: Seq<char>, i: int) -> Result<(int, char), LexErrorModel> {
    let j = i + 1;
    let body: Result<(int, char), LexErrorModel> = if j >= s.len() {
        Err(error_at("unterminated char literal"@, i, j))
    } else if s[j] == '\'' {
        Err(error_at("a char literal can't be empty"@, i, j))
    } else if s[j] == '\\' {
        if j + 1 >= s.len() {
            Err(error_at("unterminated escape sequence"@, i, j + 1))
        } else {
            match char_escape(s[j + 1]) {
                Some(e) => Ok((j + 2, e)),
                None => Err(error_at(unknown_escape_message(s[j + 1]), j, j + 2)),
            }
        }
    } else if s[j] == '\n' {
        Err(error_at("unterminated char literal"@, i, j))
    } else {
        Ok((j + 1, s[j]))
    };
    match body {
        Err(e) => Err(e),
        Ok((k, c)) => if char_at(s, k, '\'') {
            Ok((k + 1, c))
        } else {
            Err(error_at("a char literal must contain exactly one character"@, i, k))
        },
    }
}

/// A char literal names one character: a plain one stands for itself, and
/// the escapes `\n`, `\r`, `\t`, `\0`, `\\` and `\'` for a line feed,
/// a carriage return, a tab, a NUL, a backslash and a single quote; the
/// literal ends after its closing quote.
pub proof fn lemma_char_literal_names_one_character(s: Seq<char>, i: int)
    requires
        0 <= i,
        i + 2 < s.len(),
        s[i] == '\'',
    ensures
        s[i + 1] != '\\' && s[i + 1] != '\'' && s[i + 1] != '\n' && s[i + 2] == '\'' ==> char_literal(s, i)
            == Ok::<(int, char), LexErrorModel>((i + 3, s[i + 1])),
        i + 3 < s.len() && s[i + 1] == '\\' && s[i + 3] == '\'' ==> {
            &&& s[i + 2] == 'n' ==> char_literal(s, i) == Ok::<(int, char), LexErrorModel>((i + 4, '\u{a}'))
            &&& s[i + 2] == 'r' ==> char_literal(s, i) == Ok::<(int, char), LexErrorModel>((i + 4, '\u{d}'))
            &&& s[i + 2] == 't' ==> char_literal(s, i) == Ok::<(int, char), LexErrorModel>((i + 4, '\u{9}'))
            &&& s[i + 2] == '0' ==> char_literal(s, i) == Ok::<(int, char), LexErrorModel>((i + 4, '\u{0}'))
            &&& s[i + 2] == '\\' ==> char_literal(s, i) == Ok::<(int, char), LexErrorModel>((i + 4, '\u{5c}'))
            &&& s[i + 2] == '\'' ==> char_literal(s, i) == Ok::<(int, char), LexErrorModel>((i + 4, '\u{27}'))
        },
{
}

/// A backslash escape outside a string, opening at `i`.
pub open spec fn escape_token(s: Seq<char>, i: int) -> Result<(int, char), LexErrorModel> {
    if i + 1 >= s.len() {
        Err(error_at("unterminated escape sequence"@, i, i + 1))
    } else if s[i + 1] == '`' || s[i + 1] == '$' {
        Ok((i + 2, s[i + 1]))
    } else {
        Err(error_at(unknown_escape_message(s[i + 1]), i, i + 2))
    }
}

/// Operators and punctuation: the longest spelling wins (`->` over `-`,
/// `>>` over `>`, `...` over `..` over `.`), each token spans exactly its
/// characters, and each spelling reads as its own token.
pub proof fn lemma_punctuation(s: Seq<char>, i: int)
    requires
        0 <= i < s.len(),
    ensures
        s[i] == '-' && char_at(s, i + 1, '>') ==> punctuation(s, i) == Some((i + 2, SpecTokenKind::Arrow)),
        s[i] == '=' && char_at(s, i + 1, '=') ==> punctuation(s, i) == Some((i + 2, SpecTokenKind::EqualEqual)),
        s[i] == '=' && char_at(s, i + 1, '>') ==> punctuation(s, i) == Some((i + 2, SpecTokenKind::FatArrow)),
        s[i] == '!' && char_at(s, i + 1, '=') ==> punctuation(s, i) == Some((i + 2, SpecTokenKind::BangEqual)),
        s[i] == '<' && char_at(s, i + 1, '=') ==> punctuation(s, i) == Some((i + 2, SpecTokenKind::LessEqual)),
        s[i] == '<' && char_at(s, i + 1, '<') ==> punctuation(s, i) == Some((i + 2, SpecTokenKind::ShiftLeft)),
        s[i] == '>' && char_at(s, i + 1, '=') ==> punctuation(s, i) == Some((i + 2, SpecTokenKind::GreaterEqual)),
        s[i] == '>' && char_at(s, i + 1, '>') ==> punctuation(s, i) == Some((i + 2, SpecTokenKind::ShiftRight)),
        s[i] == '&' && char_at(s, i + 1, '&') ==> punctuation(s, i) == Some((i + 2, SpecTokenKind::AndAnd)),
        s[i] == '|' && char_at(s, i + 1, '|') ==> punctuation(s, i) == Some((i + 2, SpecTokenKind::OrOr)),
        s[i] == '.' && char_at(s, i + 1, '.') && !char_at(s, i + 2, '.') ==> punctuation(s, i) == Some((i + 2, SpecTokenKind::DotDot)),
        s[i] == '.' && char_at(s, i + 1, '.') && char_at(s, i + 2, '.') ==> punctuation(s, i) == Some((i + 3, SpecTokenKind::Ellipsis)),
        s[i] == ',' ==> punctuation(s, i) == Some((i + 1, SpecTokenKind::Comma)),
        s[i] == ':' ==> punctuation(s, i) == Some((i + 1, SpecTokenKind::Colon)),
        s[i] == ';' ==> punctuation(s, i) == Some((i + 1, SpecTokenKind::Semicolon)),
        s[i] == '(' ==> punctuation(s, i) == Some((i + 1, SpecTokenKind::LParen)),
        s[i] == ')' ==> punctuation(s, i) == Some((i + 1, SpecTokenKind::RParen)),
        s[i] == '[' ==> punctuation(s, i) == Some((i + 1, SpecTokenKind::LBracket)),
        s[i] == ']' ==> punctuation(s, i) == Some((i + 1, SpecTokenKind::RBracket)),
        s[i] == '{' ==> punctuation(s, i) == Some((i + 1, SpecTokenKind::LBrace)),
        s[i] == '}' ==> punctuation(s, i) == Some((i + 1, SpecTokenKind::RBrace)),
        s[i] == '*' ==> punctuation(s, i) == Some((i + 1, SpecTokenKind::Star)),
        s[i] == '+' ==> punctuation(s, i) == Some((i + 1, SpecTokenKind::Plus)),
        s[i] == '/' ==> punctuation(s, i) == Some((i + 1, SpecTokenKind::Slash)),
        s[i] == '%' ==> punctuation(s, i) == Some((i + 1, SpecTokenKind::Percent)),
        s[i] == '^' ==> punctuation(s, i) == Some((i + 1, SpecTokenKind::Caret)),
        s[i] == '~' ==> punctuation(s, i) == Some((i + 1, SpecTokenKind::Tilde)),
        s[i] == '@' ==> punctuation(s, i) == Some((i + 1, SpecTokenKind::At)),
        s[i] == '$' ==> punctuation(s, i) == Some((i + 1, SpecTokenKind::Dollar)),
        s[i] == '`' ==> punctuation(s, i) == Some((i + 1, SpecTokenKind::Backtick)),
        s[i] == '.' && !char_at(s, i + 1, '.') ==> punctuation(s, i) == Some((i + 1, SpecTokenKind::Dot)),
        s[i] == '-' && !char_at(s, i + 1, '>') ==> punctuation(s, i) == Some((i + 1, SpecTokenKind::Minus)),
        s[i] == '=' && !char_at(s, i + 1, '=') && !char_at(s, i + 1, '>') ==> punctuation(s, i) == Some((i + 1, SpecTokenKind::Equal)),
        s[i] == '!' && !char_at(s, i + 1, '=') ==> punctuation(s, i) == Some((i + 1, SpecTokenKind::Bang)),
        s[i] == '<' && !char_at(s, i + 1, '=') && !char_at(s, i + 1, '<') ==> punctuation(s, i) == Some((i + 1, SpecTokenKind::Less)),
        s[i] == '>' && !char_at(s, i + 1, '=') && !char_at(s, i + 1, '>') ==> punctuation(s, i) == Some((i + 1, SpecTokenKind::Greater)),
        s[i] == '&' && !char_at(s, i + 1, '&') ==> punctuation(s, i) == Some((i + 1, SpecTokenKind::Ampersand)),
        s[i] == '|' && !char_at(s, i + 1, '|') ==> punctuation(s, i) == Some((i + 1, SpecTokenKind::Pipe)),
{
}

/// Punctuation and operators starting at `i`: the longest match wins
/// (`...` over `..` over `.`).
pub open spec fn punctuation(s: Seq<char>, i: int) -> Option<(int, SpecTokenKind)> {
    let c = s[i];
    if c == '.' {
        if char_at(s, i + 1, '.') {
            if char_at(s, i + 2, '.') {
                Some((i + 3, TokenKindG::Ellipsis))
            } else {
                Some((i + 2, TokenKindG::DotDot))
            }
        } else {
            Some((i + 1, TokenKindG::Dot))
        }
    } else if c == ',' {
        Some((i + 1, TokenKindG::Comma))
    } else if c == ':' {
        Some((i + 1, TokenKindG::Colon))
    } else if c == ';' {
        Some((i + 1, TokenKindG::Semicolon))
    } else if c == '(' {
        Some((i + 1, TokenKindG::LParen))
    } else if c == ')' {
        Some((i + 1, TokenKindG::RParen))
    } else if c == '[' {
        Some((i + 1, TokenKindG::LBracket))
    } else if c == ']' {
        Some((i + 1, TokenKindG::RBracket))
    } else if c == '{' {
        Some((i + 1, TokenKindG::LBrace))
    } else if c == '}' {
        Some((i + 1, TokenKindG::RBrace))
    } else if c == '*' {
        Some((i + 1, TokenKindG::Star))
    } else if c == '+' {
        Some((i + 1, TokenKindG::Plus))
    } else if c == '-' {
        if char_at(s, i + 1, '>') {
            Some((i + 2, TokenKindG::Arrow))
        } else {
            Some((i + 1, TokenKindG::Minus))
        }
    } else if c == '/' {
        Some((i + 1, TokenKindG::Slash))
    } else if c == '%' {
        Some((i + 1, TokenKindG::Percent))
    } else if c == '=' {
        if char_at(s, i + 1, '=') {
            Some((i + 2, TokenKindG::EqualEqual))
        } else if char_at(s, i + 1, '>') {
            Some((i + 2, TokenKindG::FatArrow))
        } else {
            Some((i + 1, TokenKindG::Equal))
        }
    } else if c == '!' {
        if char_at(s, i + 1, '=') {
            Some((i + 2, TokenKindG::BangEqual))
        } else {
            Some((i + 1, TokenKindG::Bang))
        }
    } else if c == '<' {
        if char_at(s, i + 1, '=') {
            Some((i + 2, TokenKindG::LessEqual))
        } else if char_at(s, i + 1, '<') {
            Some((i + 2, TokenKindG::ShiftLeft))
        } else {
            Some((i + 1, TokenKindG::Less))
        }
    } else if c == '>' {
        if char_at(s, i + 1, '=') {
            Some((i + 2, TokenKindG::GreaterEqual))
        } else if char_at(s, i + 1, '>') {
            Some((i + 2, TokenKindG::ShiftRight))
        } else {
            Some((i + 1, TokenKindG::Greater))
        }
    } else if c == '&' {
        if char_at(s, i + 1, '&') {
            Some((i + 2, TokenKindG::AndAnd))
        } else {
            Some((i + 1, TokenKindG::Ampersand))
        }
    } else if c == '|' {
        if char_at(s, i + 1, '|') {
            Some((i + 2, TokenKindG::OrOr))
        } else {
            Some((i + 1, TokenKindG::Pipe))
        }
    } else if c == '^' {
        Some((i + 1, TokenKindG::Caret))
    } else if c == '~' {
        Some((i + 1, TokenKindG::Tilde))
    } else if c == '@' {
        Some((i + 1, TokenKindG::At))
    } else if c == '$' {
        Some((i + 1, TokenKindG::Dollar))
    } else if c == '`' {
        Some((i + 1, TokenKindG::Backtick))
    } else {
        None
    }
}

/// One lexing step at position `i` (not at the end): where the next step
/// starts, and the token read, if any (whitespace and comments give none).
pub open spec fn lex_step(s: Seq<char>, i: int) -> Result<(int, Option<SpecTokenKind>), LexErrorModel> {
    let c = s[i];
    if in_class(CharClass::HorizontalSpace, c) {
        Ok((scan(s, i, CharClass::HorizontalSpace), None))
    } else if c == '\n' {
        Ok((i + 1, Some(TokenKindG::Newline)))
    } else if c == '#' {
        Ok((scan(s, i, CharClass::NotNewline), None))
    } else if is_identifier_start(c) {
        let j = scan(s, i + 1, CharClass::IdentifierContinue);
        Ok((j, Some(keyword_kind(s.subrange(i, j)))))
    } else if '0' <= c && c <= '9' {
        match number_end(s, i) {
            Ok(j) => Ok((j, Some(TokenKindG::Integer(s.subrange(i, j))))),
            Err(e) => Err(e),
        }
    } else if c == '"' {
        match string_body(s, i, i + 1, Seq::empty()) {
            Ok((j, value)) => Ok((j, Some(TokenKindG::String(value)))),
            Err(e) => Err(e),
        }
    } else if c == '\'' {
        match char_literal(s, i) {
            Ok((j, ch)) => Ok((j, Some(TokenKindG::Integer(decimal((ch as u32) as nat))))),
            Err(e) => Err(e),
        }
    } else if c == '\\' {
        match escape_token(s, i) {
            Ok((j, ch)) => Ok((j, Some(TokenKindG::Escaped(ch)))),
            Err(e) => Err(e),
        }
    } else {
        match punctuation(s, i) {
            Some((j, kind)) => Ok((j, Some(kind))),
            None => Err(error_at("unexpected character '"@.push(c) + "'"@, i, i + 1)),
        }
    }
}

pub open spec fn then_tokens(first: Seq<SpecToken>, rest: Result<Seq<SpecToken>, LexErrorModel>) -> Result<
    Seq<SpecToken>,
    LexErrorModel,
> {
    match rest {
        Ok(tokens) => Ok(first + tokens),
        Err(e) => Err(e),
    }
}

/// Every token from position `i` to the end, closed by `Eof`, or the first
/// error. Spans are character positions.
pub open spec fn lex_from(s: Seq<char>, i: int) -> Result<Seq<SpecToken>, LexErrorModel>
    decreases s.len() - i,
{
    if i < 0 || i >= s.len() {
        Ok(seq![SpecToken { kind: TokenKindG::Eof, span: Span { start: i as usize, end: i as usize } }])
    } else {
        match lex_step(s, i) {
            Err(e) => Err(e),
            Ok((j, token)) => if i < j <= s.len() {
                let first = match token {
                    Some(kind) => seq![SpecToken { kind, span: Span { start: i as usize, end: j as usize } }],
                    None => Seq::empty(),
                };
                then_tokens(first, lex_from(s, j))
            } else {
                Err(error_at(Seq::empty(), i, i))
            },
        }
    }
}

/// The tokens of `s`, with spans as character positions.
pub open spec fn lex_spec(s: Seq<char>) -> Result<Seq<SpecToken>, LexErrorModel> {
    lex_from(s, 0)
}

pub open spec fn token_models(tokens: Seq<Token>) -> Seq<SpecToken> {
    tokens.map_values(|t: Token| t@)
}

/// A character span of `s` as a byte span.
pub open spec fn byte_span(s: Seq<char>, span: Span) -> Span {
    Span {
        start: byte_offset(s, span.start as int) as usize,
        end: byte_offset(s, span.end as int) as usize,
    }
}

pub open spec fn byte_token(s: Seq<char>, t: SpecToken) -> SpecToken {
    SpecToken { kind: t.kind, span: byte_span(s, t.span) }
}

pub open spec fn byte_error(s: Seq<char>, e: LexErrorModel) -> LexErrorModel {
    LexErrorModel { message: e.message, span: byte_span(s, e.span) }
}

// ===========================================================================
// Public API
// ===========================================================================

/// Lexes an entire source string, returning every token including a
/// trailing `Eof`, with spans as byte offsets. Fails on the first invalid
/// character or malformed literal; there is no error recovery.
pub fn lex(source: &str) -> (result: Result<Vec<Token>, LexError>)
    ensures
        match lex_spec(source@) {
            Ok(tokens) => result matches Ok(v) && token_models(v@) == tokens.map_values(
                |t: SpecToken| byte_token(source@, t),
            ),
            Err(e) => result matches Err(err) && err@ == byte_error(source@, e),
        },
{
    let chars = chars_of(source);
    let offsets = byte_offsets(source, &chars);
    let ghost s = chars@;
    let count = chars.len();
    match lex_chars(chars) {
        Ok(tokens) => {
            proof {
                lemma_lex_from_bounds(s, 0);
            }
            let mut out: Vec<Token> = Vec::new();
            let mut k: usize = 0;
            while k < tokens.len()
                invariant
                    s.len() <= usize::MAX,
                    lex_spec(s) == Ok::<Seq<SpecToken>, LexErrorModel>(token_models(tokens@)),
                    spans_within(token_models(tokens@), 0, s.len() as int),
                    offsets@.len() == s.len() + 1,
                    forall|m: int| 0 <= m <= s.len() ==> offsets@[m] == byte_offset(s, m),
                    k <= tokens@.len(),
                    token_models(out@) == token_models(tokens@).take(k as int).map_values(
                        |t: SpecToken| byte_token(s, t),
                    ),
                decreases tokens@.len() - k,
            {
                let token = &tokens[k];
                proof {
                    assert(token_models(tokens@)[k as int] == token@);
                    assert(0 <= token_models(tokens@)[k as int].span.start <= token_models(tokens@)[k as int].span.end <= s.len());
                }
                let start = offsets[token.span.start];
                let end = offsets[token.span.end];
                let ghost before = out@;
                out.push(Token::new(token.kind.clone_kind(), start, end));
                proof {
                    assert(token_models(out@) =~= token_models(before).push(byte_token(s, token@)));
                    assert(token_models(tokens@).take(k + 1) =~= token_models(tokens@).take(
                        k as int,
                    ).push(token@));
                    assert(token_models(out@) =~= token_models(tokens@).take(k + 1).map_values(
                        |t: SpecToken| byte_token(s, t),
                    ));
                }
                k += 1;
            }
            assert(token_models(tokens@).take(tokens@.len() as int) =~= token_models(tokens@));
            Ok(out)
        },
        Err(error) => {
            proof {
                lemma_lex_from_bounds(s, 0);
            }
            let start = offsets[error.span.start];
            let end = offsets[error.span.end];
            Err(LexError::new(error.message, start, end))
        },
    }
}

/// Lexes a sequence of characters, with spans as character positions.
pub fn lex_chars(chars: Vec<char>) -> (result: Result<Vec<Token>, LexError>)
    ensures
        match lex_spec(chars@) {
            Ok(tokens) => result matches Ok(v) && token_models(v@) == tokens,
            Err(e) => result matches Err(err) && err@ == e,
        },
{
    let mut lexer = Lexer::new(chars);
    match lexer.lex_all() {
        Ok(()) => Ok(lexer.tokens),
        Err(error) => Err(error),
    }
}

// ===========================================================================
// Lexer
// ===========================================================================

struct Lexer {
    chars: Vec<char>,
    /// The current character position.
    pos: usize,
    tokens: Vec<Token>,
}

impl Lexer {
    fn new(chars: Vec<char>) -> (lexer: Lexer)
        ensures
            lexer.chars@ == chars@,
            lexer.pos == 0,
            lexer.tokens@.len() == 0,
    {
        Lexer { chars, pos: 0, tokens: Vec::new() }
    }

    /// Lexes the whole text into `tokens`, closing it with `Eof`.
    fn lex_all(&mut self) -> (result: Result<(), LexError>)
        requires
            old(self).pos == 0,
            old(self).tokens@.len() == 0,
        ensures
            match lex_spec(old(self).chars@) {
                Ok(tokens) => result is Ok && token_models(final(self).tokens@) == tokens,
                Err(e) => result matches Err(err) && err@ == e,
            },
    {
        let ghost s = self.chars@;
        assert(token_models(self.tokens@) =~= Seq::<SpecToken>::empty());
        assert(then_tokens(Seq::empty(), lex_from(s, 0)) =~= lex_from(s, 0)) by {
            match lex_from(s, 0) {
                Ok(t) => {
                    assert(Seq::<SpecToken>::empty() + t =~= t);
                },
                Err(e) => {},
            }
        }
        while !self.is_eof()
            invariant
                self.chars@ == s,
                s == old(self).chars@,
                self.pos <= s.len(),
                lex_spec(s) == then_tokens(token_models(self.tokens@), lex_from(s, self.pos as int)),
            decreases s.len() - self.pos,
        {
            let ghost before = self.tokens@;
            let ghost at = self.pos as int;
            let len = self.chars.len();
            proof {
                lemma_lex_step_advances(s, at);
            }
            proof {
                reveal_with_fuel(lex_from, 2);
            }
            match self.lex_one() {
                Ok(()) => {},
                Err(error) => {
                    assert(lex_from(s, at) == Err::<Seq<SpecToken>, LexErrorModel>(error@));
                    assert(lex_spec(s) == Err::<Seq<SpecToken>, LexErrorModel>(error@));
                    assert(s == old(self).chars@);
                    assert(match lex_spec(old(self).chars@) {
                        Ok(_) => false,
                        Err(e) => error@ == e,
                    });
                    return Err(error);
                },
            }
            proof {
                let (j, token) = match lex_step(s, at) {
                    Ok(step) => step,
                    Err(_) => (0int, None),
                };
                let first = match token {
                    Some(kind) => seq![SpecToken { kind, span: Span { start: at as usize, end: j as usize } }],
                    None => Seq::<SpecToken>::empty(),
                };
                assert(token_models(self.tokens@) =~= token_models(before) + first);
                assert(lex_from(s, at) == then_tokens(first, lex_from(s, j)));
                lemma_then_tokens_assoc(token_models(before), first, lex_from(s, j));
            }
        }
        let pos = self.pos;
        let ghost before = self.tokens@;
        self.tokens.push(Token::new(TokenKindG::Eof, pos, pos));
        assert(token_models(self.tokens@) =~= token_models(before).push(
            SpecToken { kind: TokenKindG::Eof, span: Span { start: pos, end: pos } },
        ));
        Ok(())
    }

    /// Lexes one token, or skips one run of whitespace or one comment.
    fn lex_one(&mut self) -> (result: Result<(), LexError>)
        requires
            old(self).pos < old(self).chars@.len(),
        ensures
            final(self).chars@ == old(self).chars@,
            match lex_step(old(self).chars@, old(self).pos as int) {
                Err(e) => result matches Err(err) && err@ == e,
                Ok((j, token)) => result is Ok && final(self).pos == j && match token {
                    None => final(self).tokens@ == old(self).tokens@,
                    Some(kind) => token_models(final(self).tokens@) == token_models(
                        old(self).tokens@,
                    ).push(SpecToken { kind, span: Span { start: old(self).pos, end: j as usize } }),
                },
            },
    {
        let ghost s = self.chars@;
        let ghost i = self.pos as int;
        let len = self.chars.len();
        proof {
            lemma_lex_step_advances(s, i);
        }
        let ch = self.chars[self.pos];
        if ch == ' ' || ch == '\t' || ch == '\r' {
            self.skip_horizontal_whitespace();
        } else if ch == '\n' {
            let start = self.pos;
            self.advance();
            self.push(TokenKindG::Newline, start);
        } else if ch == '#' {
            self.skip_line_comment();
        } else if is_identifier_start_exec(ch) {
            self.lex_identifier();
        } else if '0' <= ch && ch <= '9' {
            self.lex_number()?;
        } else if ch == '"' {
            self.lex_string()?;
        } else if ch == '\'' {
            self.lex_char()?;
        } else if ch == '\\' {
            self.lex_escape()?;
        } else {
            self.lex_punctuation(ch)?;
        }
        Ok(())
    }

    /// Punctuation and operators, or an error for any character nothing
    /// else accepts.
    fn lex_punctuation(&mut self, ch: char) -> (result: Result<(), LexError>)
        requires
            old(self).pos < old(self).chars@.len(),
            ch == old(self).chars@[old(self).pos as int],
        ensures
            final(self).chars@ == old(self).chars@,
            match punctuation(old(self).chars@, old(self).pos as int) {
                None => result matches Err(err) && err@ == error_at(
                    "unexpected character '"@.push(ch) + "'"@,
                    old(self).pos as int,
                    old(self).pos + 1,
                ),
                Some((j, kind)) => result is Ok && final(self).pos == j && token_models(
                    final(self).tokens@,
                ) == token_models(old(self).tokens@).push(
                    SpecToken { kind, span: Span { start: old(self).pos, end: j as usize } },
                ),
            },
    {
        let start = self.pos;
        if ch == '.' {
            self.advance();
            if self.consume_if('.') {
                if self.consume_if('.') {
                    self.push(TokenKindG::Ellipsis, start);
                } else {
                    self.push(TokenKindG::DotDot, start);
                }
            } else {
                self.push(TokenKindG::Dot, start);
            }
        } else if ch == ',' {
            self.single(TokenKindG::Comma);
        } else if ch == ':' {
            self.single(TokenKindG::Colon);
        } else if ch == ';' {
            self.single(TokenKindG::Semicolon);
        } else if ch == '(' {
            self.single(TokenKindG::LParen);
        } else if ch == ')' {
            self.single(TokenKindG::RParen);
        } else if ch == '[' {
            self.single(TokenKindG::LBracket);
        } else if ch == ']' {
            self.single(TokenKindG::RBracket);
        } else if ch == '{' {
            self.single(TokenKindG::LBrace);
        } else if ch == '}' {
            self.single(TokenKindG::RBrace);
        } else if ch == '*' {
            self.single(TokenKindG::Star);
        } else if ch == '+' {
            self.single(TokenKindG::Plus);
        } else if ch == '-' {
            self.advance();
            if self.consume_if('>') {
                self.push(TokenKindG::Arrow, start);
            } else {
                self.push(TokenKindG::Minus, start);
            }
        } else if ch == '/' {
            self.single(TokenKindG::Slash);
        } else if ch == '%' {
            self.single(TokenKindG::Percent);
        } else if ch == '=' {
            self.advance();
            if self.consume_if('=') {
                self.push(TokenKindG::EqualEqual, start);
            } else if self.consume_if('>') {
                self.push(TokenKindG::FatArrow, start);
            } else {
                self.push(TokenKindG::Equal, start);
            }
        } else if ch == '!' {
            self.advance();
            if self.consume_if('=') {
                self.push(TokenKindG::BangEqual, start);
            } else {
                self.push(TokenKindG::Bang, start);
            }
        } else if ch == '<' {
            self.advance();
            if self.consume_if('=') {
                self.push(TokenKindG::LessEqual, start);
            } else if self.consume_if('<') {
                self.push(TokenKindG::ShiftLeft, start);
            } else {
                self.push(TokenKindG::Less, start);
            }
        } else if ch == '>' {
            self.advance();
            if self.consume_if('=') {
                self.push(TokenKindG::GreaterEqual, start);
            } else if self.consume_if('>') {
                self.push(TokenKindG::ShiftRight, start);
            } else {
                self.push(TokenKindG::Greater, start);
            }
        } else if ch == '&' {
            self.advance();
            if self.consume_if('&') {
                self.push(TokenKindG::AndAnd, start);
            } else {
                self.push(TokenKindG::Ampersand, start);
            }
        } else if ch == '|' {
            self.advance();
            if self.consume_if('|') {
                self.push(TokenKindG::OrOr, start);
            } else {
                self.push(TokenKindG::Pipe, start);
            }
        } else if ch == '^' {
            self.single(TokenKindG::Caret);
        } else if ch == '~' {
            self.single(TokenKindG::Tilde);
        } else if ch == '@' {
            self.single(TokenKindG::At);
        } else if ch == '$' {
            self.single(TokenKindG::Dollar);
        } else if ch == '`' {
            self.single(TokenKindG::Backtick);
        } else {
            self.advance();
            let mut message = String::from_str("unexpected character '");
            push_char(&mut message, ch);
            let mut quote = String::from_str("'");
            let message = message.concat(quote.as_str());
            return Err(LexError::new(message, start, self.pos));
        }
        Ok(())
    }

    fn lex_identifier(&mut self)
        requires
            old(self).pos < old(self).chars@.len(),
            is_identifier_start(old(self).chars@[old(self).pos as int]),
        ensures
            final(self).chars@ == old(self).chars@,
            final(self).pos == scan(old(self).chars@, old(self).pos + 1, CharClass::IdentifierContinue),
            old(self).pos < final(self).pos <= final(self).chars@.len(),
            token_models(final(self).tokens@) == token_models(old(self).tokens@).push(
                SpecToken {
                    kind: keyword_kind(old(self).chars@.subrange(old(self).pos as int, final(self).pos as int)),
                    span: Span { start: old(self).pos, end: final(self).pos },
                },
            ),
    {
        let start = self.pos;
        self.advance();
        self.scan_class(CharClass::IdentifierContinue);
        let kind = keyword_or_identifier(&self.chars, start, self.pos);
        self.push(kind, start);
    }

    fn lex_number(&mut self) -> (result: Result<(), LexError>)
        requires
            old(self).pos < old(self).chars@.len(),
            '0' <= old(self).chars@[old(self).pos as int] <= '9',
        ensures
            final(self).chars@ == old(self).chars@,
            match number_end(old(self).chars@, old(self).pos as int) {
                Err(e) => result matches Err(err) && err@ == e,
                Ok(j) => result is Ok && final(self).pos == j && token_models(final(self).tokens@)
                    == token_models(old(self).tokens@).push(
                    SpecToken {
                        kind: TokenKindG::Integer(old(self).chars@.subrange(old(self).pos as int, j)),
                        span: Span { start: old(self).pos, end: j as usize },
                    },
                ),
            },
    {
        let start = self.pos;
        if self.chars[self.pos] == '0' {
            self.advance();
            let next = self.peek();
            if next == Some('x') || next == Some('X') {
                self.advance();
                let digit_start = self.pos;
                self.consume_digits(CharClass::Hex);
                if self.pos == digit_start {
                    return Err(
                        LexError::new(
                            String::from_str("expected hexadecimal digits after 0x"),
                            start,
                            self.pos,
                        ),
                    );
                }
            } else if next == Some('b') || next == Some('B') {
                self.advance();
                let digit_start = self.pos;
                self.consume_digits(CharClass::Binary);
                if self.pos == digit_start {
                    return Err(
                        LexError::new(
                            String::from_str("expected binary digits after 0b"),
                            start,
                            self.pos,
                        ),
                    );
                }
            } else if next == Some('o') || next == Some('O') {
                self.advance();
                let digit_start = self.pos;
                self.consume_digits(CharClass::Octal);
                if self.pos == digit_start {
                    return Err(
                        LexError::new(
                            String::from_str("expected octal digits after 0o"),
                            start,
                            self.pos,
                        ),
                    );
                }
            } else {
                self.consume_digits(CharClass::Decimal);
            }
        } else {
            self.consume_digits(CharClass::Decimal);
        }
        let text = string_of(self.chars.as_slice(), start, self.pos);
        self.push(TokenKindG::Integer(text), start);
        Ok(())
    }

    /// Consumes digits of `class`, allowing single underscores between them.
    fn consume_digits(&mut self, class: CharClass)
        requires
            old(self).pos <= old(self).chars@.len(),
        ensures
            final(self).chars@ == old(self).chars@,
            final(self).tokens@ == old(self).tokens@,
            final(self).pos == digits_end(old(self).chars@, old(self).pos as int, class, false),
            old(self).pos <= final(self).pos <= final(self).chars@.len(),
    {
        proof {
            lemma_digits_end_bounds(self.chars@, self.pos as int, class, false);
        }
        let ghost s = self.chars@;
        let ghost i0 = self.pos as int;
        let mut previous_was_underscore = false;
        while self.pos < self.chars.len()
            invariant_except_break
                self.chars@ == s,
                self.tokens@ == old(self).tokens@,
                i0 <= self.pos <= s.len(),
                digits_end(s, i0, class, false) == digits_end(
                    s,
                    self.pos as int,
                    class,
                    previous_was_underscore,
                ),
            ensures
                self.chars@ == s,
                self.tokens@ == old(self).tokens@,
                self.pos == digits_end(s, i0, class, false),
            decreases s.len() - self.pos,
        {
            let ch = self.chars[self.pos];
            if in_class_exec(class, ch) {
                previous_was_underscore = false;
                self.pos = self.pos + 1;
            } else if ch == '_' && !previous_was_underscore {
                previous_was_underscore = true;
                self.pos = self.pos + 1;
            } else {
                break;
            }
        }
    }

    fn lex_string(&mut self) -> (result: Result<(), LexError>)
        requires
            old(self).pos < old(self).chars@.len(),
            old(self).chars@[old(self).pos as int] == '"',
        ensures
            final(self).chars@ == old(self).chars@,
            match string_body(old(self).chars@, old(self).pos as int, old(self).pos + 1, Seq::empty()) {
                Err(e) => result matches Err(err) && err@ == e,
                Ok((j, value)) => result is Ok && final(self).pos == j && token_models(
                    final(self).tokens@,
                ) == token_models(old(self).tokens@).push(
                    SpecToken {
                        kind: TokenKindG::String(value),
                        span: Span { start: old(self).pos, end: j as usize },
                    },
                ),
            },
    {
        let ghost s = self.chars@;
        let start = self.pos;
        self.advance();
        let mut value = String::new();
        while self.pos < self.chars.len()
            invariant
                self.chars@ == s,
                s == old(self).chars@,
                self.tokens@ == old(self).tokens@,
                start == old(self).pos,
                start < self.pos <= s.len(),
                string_body(s, start as int, start + 1, Seq::empty()) == string_body(
                    s,
                    start as int,
                    self.pos as int,
                    value@,
                ),
            decreases s.len() - self.pos,
        {
            let ch = self.chars[self.pos];
            if ch == '"' {
                self.advance();
                self.push(TokenKindG::String(value), start);
                return Ok(());
            } else if ch == '\\' {
                self.advance();
                let escape_start = self.pos;
                match self.advance() {
                    Some(other) => {
                        match string_escape_exec(other) {
                            Some(escaped) => {
                                push_char(&mut value, escaped);
                            },
                            None => {
                                let mut message = String::from_str("unknown escape sequence \\");
                                push_char(&mut message, other);
                                return Err(LexError::new(message, escape_start - 1, self.pos));
                            },
                        }
                    },
                    None => {
                        return Err(
                            LexError::new(
                                String::from_str("unterminated escape sequence"),
                                start,
                                self.pos,
                            ),
                        );
                    },
                }
            } else if ch == '\n' {
                return Err(
                    LexError::new(String::from_str("unterminated string literal"), start, self.pos),
                );
            } else {
                self.advance();
                push_char(&mut value, ch);
            }
        }
        Err(LexError::new(String::from_str("unterminated string literal"), start, self.pos))
    }

    /// A char literal becomes the decimal integer literal of its codepoint.
    fn lex_char(&mut self) -> (result: Result<(), LexError>)
        requires
            old(self).pos < old(self).chars@.len(),
            old(self).chars@[old(self).pos as int] == '\'',
        ensures
            final(self).chars@ == old(self).chars@,
            match char_literal(old(self).chars@, old(self).pos as int) {
                Err(e) => result matches Err(err) && err@ == e,
                Ok((j, c)) => result is Ok && final(self).pos == j && token_models(
                    final(self).tokens@,
                ) == token_models(old(self).tokens@).push(
                    SpecToken {
                        kind: TokenKindG::Integer(decimal((c as u32) as nat)),
                        span: Span { start: old(self).pos, end: j as usize },
                    },
                ),
            },
    {
        let start = self.pos;
        self.advance();
        let ch = match self.peek() {
            Some('\'') => {
                return Err(
                    LexError::new(String::from_str("a char literal can't be empty"), start, self.pos),
                );
            },
            Some('\\') => {
                self.advance();
                let escape_start = self.pos;
                match self.advance() {
                    Some(other) => {
                        match char_escape_exec(other) {
                            Some(escaped) => escaped,
                            None => {
                                let mut message = String::from_str("unknown escape sequence \\");
                                push_char(&mut message, other);
                                return Err(LexError::new(message, escape_start - 1, self.pos));
                            },
                        }
                    },
                    None => {
                        return Err(
                            LexError::new(
                                String::from_str("unterminated escape sequence"),
                                start,
                                self.pos,
                            ),
                        );
                    },
                }
            },
            Some('\n') | None => {
                return Err(
                    LexError::new(String::from_str("unterminated char literal"), start, self.pos),
                );
            },
            Some(other) => {
                self.advance();
                other
            },
        };
        if self.peek() == Some('\'') {
            self.advance();
        } else {
            return Err(
                LexError::new(
                    String::from_str("a char literal must contain exactly one character"),
                    start,
                    self.pos,
                ),
            );
        }
        let text = decimal_string((ch as u32) as u64);
        self.push(TokenKindG::Integer(text), start);
        Ok(())
    }

    /// `` \` `` and `\$` outside strings.
    fn lex_escape(&mut self) -> (result: Result<(), LexError>)
        requires
            old(self).pos < old(self).chars@.len(),
            old(self).chars@[old(self).pos as int] == '\\',
        ensures
            final(self).chars@ == old(self).chars@,
            match escape_token(old(self).chars@, old(self).pos as int) {
                Err(e) => result matches Err(err) && err@ == e,
                Ok((j, c)) => result is Ok && final(self).pos == j && token_models(
                    final(self).tokens@,
                ) == token_models(old(self).tokens@).push(
                    SpecToken {
                        kind: TokenKindG::Escaped(c),
                        span: Span { start: old(self).pos, end: j as usize },
                    },
                ),
            },
    {
        let start = self.pos;
        self.advance();
        let escaped = match self.advance() {
            Some(other) => {
                if other == '`' || other == '$' {
                    other
                } else {
                    let mut message = String::from_str("unknown escape sequence \\");
                    push_char(&mut message, other);
                    return Err(LexError::new(message, start, self.pos));
                }
            },
            None => {
                return Err(
                    LexError::new(String::from_str("unterminated escape sequence"), start, self.pos),
                );
            },
        };
        self.push(TokenKindG::Escaped(escaped), start);
        Ok(())
    }

    fn skip_horizontal_whitespace(&mut self)
        requires
            old(self).pos <= old(self).chars@.len(),
        ensures
            final(self).chars@ == old(self).chars@,
            final(self).tokens@ == old(self).tokens@,
            final(self).pos == scan(old(self).chars@, old(self).pos as int, CharClass::HorizontalSpace),
            old(self).pos <= final(self).pos <= final(self).chars@.len(),
    {
        self.scan_class(CharClass::HorizontalSpace);
    }

    fn skip_line_comment(&mut self)
        requires
            old(self).pos <= old(self).chars@.len(),
        ensures
            final(self).chars@ == old(self).chars@,
            final(self).tokens@ == old(self).tokens@,
            final(self).pos == scan(old(self).chars@, old(self).pos as int, CharClass::NotNewline),
            old(self).pos <= final(self).pos <= final(self).chars@.len(),
    {
        self.scan_class(CharClass::NotNewline);
    }

    /// Advances past every character of `class`.
    fn scan_class(&mut self, class: CharClass)
        requires
            old(self).pos <= old(self).chars@.len(),
        ensures
            final(self).chars@ == old(self).chars@,
            final(self).tokens@ == old(self).tokens@,
            final(self).pos == scan(old(self).chars@, old(self).pos as int, class),
            old(self).pos <= final(self).pos <= final(self).chars@.len(),
    {
        proof {
            lemma_scan_bounds(self.chars@, self.pos as int, class);
        }
        let ghost s = self.chars@;
        let ghost i0 = self.pos as int;
        while self.pos < self.chars.len() && in_class_exec(class, self.chars[self.pos])
            invariant
                self.chars@ == s,
                self.tokens@ == old(self).tokens@,
                i0 <= self.pos <= s.len(),
                scan(s, i0, class) == scan(s, self.pos as int, class),
            decreases s.len() - self.pos,
        {
            self.pos = self.pos + 1;
        }
    }

    // character navigation

    fn is_eof(&self) -> (eof: bool)
        ensures
            eof == (self.pos >= self.chars@.len()),
    {
        self.pos >= self.chars.len()
    }

    fn peek(&self) -> (next: Option<char>)
        requires
            self.pos <= self.chars@.len(),
        ensures
            next == (if self.pos < self.chars@.len() {
                Some(self.chars@[self.pos as int])
            } else {
                None
            }),
    {
        if self.pos < self.chars.len() {
            Some(self.chars[self.pos])
        } else {
            None
        }
    }

    /// Consumes and returns the next character.
    fn advance(&mut self) -> (next: Option<char>)
        requires
            old(self).pos <= old(self).chars@.len(),
        ensures
            final(self).chars@ == old(self).chars@,
            final(self).tokens@ == old(self).tokens@,
            next == (if old(self).pos < old(self).chars@.len() {
                Some(old(self).chars@[old(self).pos as int])
            } else {
                None
            }),
            final(self).pos == (if old(self).pos < old(self).chars@.len() {
                old(self).pos + 1
            } else {
                old(self).pos as int
            }),
    {
        if self.pos < self.chars.len() {
            let next = self.chars[self.pos];
            self.pos = self.pos + 1;
            Some(next)
        } else {
            None
        }
    }

    fn consume_if(&mut self, expected: char) -> (consumed: bool)
        requires
            old(self).pos <= old(self).chars@.len(),
        ensures
            final(self).chars@ == old(self).chars@,
            final(self).tokens@ == old(self).tokens@,
            consumed == char_at(old(self).chars@, old(self).pos as int, expected),
            final(self).pos == old(self).pos + (if consumed { 1int } else { 0int }),
    {
        if self.peek() == Some(expected) {
            self.advance();
            true
        } else {
            false
        }
    }

    fn single(&mut self, kind: TokenKind)
        requires
            old(self).pos < old(self).chars@.len(),
        ensures
            final(self).chars@ == old(self).chars@,
            final(self).pos == old(self).pos + 1,
            token_models(final(self).tokens@) == token_models(old(self).tokens@).push(
                SpecToken { kind: kind@, span: Span { start: old(self).pos, end: final(self).pos } },
            ),
    {
        let start = self.pos;
        self.advance();
        self.push(kind, start);
    }

    fn push(&mut self, kind: TokenKind, start: usize)
        ensures
            final(self).chars@ == old(self).chars@,
            final(self).pos == old(self).pos,
            token_models(final(self).tokens@) == token_models(old(self).tokens@).push(
                SpecToken { kind: kind@, span: Span { start, end: old(self).pos } },
            ),
    {
        let token = Token::new(kind, start, self.pos);
        let ghost before = self.tokens@;
        self.tokens.push(token);
        assert(token_models(self.tokens@) =~= token_models(before).push(token@));
    }
}

// ===========================================================================
// Helpers
// ===========================================================================

fn in_class_exec(class: CharClass, c: char) -> (b: bool)
    ensures
        b == in_class(class, c),
{
    match class {
        CharClass::HorizontalSpace => c == ' ' || c == '\t' || c == '\r',
        CharClass::NotNewline => c != '\n',
        CharClass::IdentifierContinue => is_identifier_continue_exec(c),
        CharClass::Decimal => '0' <= c && c <= '9',
        CharClass::Hex => ('0' <= c && c <= '9') || ('a' <= c && c <= 'f') || ('A' <= c && c
            <= 'F'),
        CharClass::Binary => c == '0' || c == '1',
        CharClass::Octal => '0' <= c && c <= '7',
    }
}

fn is_identifier_start_exec(c: char) -> (b: bool)
    ensures
        b == is_identifier_start(c),
{
    c == '_' || char_is_alphabetic(c)
}

fn is_identifier_continue_exec(c: char) -> (b: bool)
    ensures
        b == in_class(CharClass::IdentifierContinue, c),
{
    c == '_' || char_is_alphanumeric(c)
}

fn string_escape_exec(c: char) -> (r: Option<char>)
    ensures
        r == string_escape(c),
{
    if c == 'n' {
        Some('\n')
    } else if c == 'r' {
        Some('\r')
    } else if c == 't' {
        Some('\t')
    } else if c == '0' {
        Some('\0')
    } else if c == '\\' {
        Some('\\')
    } else if c == '"' {
        Some('"')
    } else {
        None
    }
}

fn char_escape_exec(c: char) -> (r: Option<char>)
    ensures
        r == char_escape(c),
{
    if c == 'n' {
        Some('\n')
    } else if c == 'r' {
        Some('\r')
    } else if c == 't' {
        Some('\t')
    } else if c == '0' {
        Some('\0')
    } else if c == '\\' {
        Some('\\')
    } else if c == '\'' {
        Some('\'')
    } else {
        None
    }
}

/// Whether `chars[lo..hi]` spells `word`.
fn spells(chars: &Vec<char>, lo: usize, hi: usize, word: &[char]) -> (b: bool)
    requires
        lo <= hi <= chars@.len(),
    ensures
        b == (chars@.subrange(lo as int, hi as int) == word@),
{
    if hi - lo != word.len() {
        return false;
    }
    let mut k: usize = 0;
    while k < word.len()
        invariant
            hi - lo == word@.len(),
            lo <= hi <= chars@.len(),
            k <= word@.len(),
            forall|m: int| 0 <= m < k ==> chars@[lo + m] == word@[m],
        decreases word@.len() - k,
    {
        if chars[lo + k] != word[k] {
            assert(chars@.subrange(lo as int, hi as int)[k as int] != word@[k as int]);
            return false;
        }
        k += 1;
    }
    assert(chars@.subrange(lo as int, hi as int) =~= word@);
    true
}

fn keyword_or_identifier(chars: &Vec<char>, lo: usize, hi: usize) -> (kind: TokenKind)
    requires
        lo <= hi <= chars@.len(),
    ensures
        kind@ == keyword_kind(chars@.subrange(lo as int, hi as int)),
{
    let ghost text = chars@.subrange(lo as int, hi as int);
    if spells(chars, lo, hi, &['f', 'r', 'o', 'm']) {
        TokenKindG::From
    } else if spells(chars, lo, hi, &['i', 'm', 'p', 'o', 'r', 't']) {
        TokenKindG::Import
    } else if spells(chars, lo, hi, &['a', 's']) {
        TokenKindG::As
    } else if spells(chars, lo, hi, &['p', 'u', 'b']) {
        TokenKindG::Pub
    } else if spells(chars, lo, hi, &['m', 'a', 'c', 'r', 'o']) {
        TokenKindG::Macro
    } else if spells(chars, lo, hi, &['t', 'y', 'p', 'e']) {
        TokenKindG::Type
    } else if spells(chars, lo, hi, &['s', 't', 'r', 'u', 'c', 't']) {
        TokenKindG::Struct
    } else if spells(chars, lo, hi, &['e', 'n', 'u', 'm']) {
        TokenKindG::Enum
    } else if spells(chars, lo, hi, &['c', 'o', 'n', 's', 't']) {
        TokenKindG::Const
    } else {
        TokenKindG::Identifier(string_of(chars.as_slice(), lo, hi))
    }
}

// ===========================================================================
// Lemmas
// ===========================================================================

pub open spec fn spans_within(tokens: Seq<SpecToken>, lo: int, hi: int) -> bool {
    forall|k: int|
        0 <= k < tokens.len() ==> lo <= #[trigger] tokens[k].span.start <= tokens[k].span.end
            <= hi
}

pub proof fn lemma_then_tokens_assoc(
    a: Seq<SpecToken>,
    b: Seq<SpecToken>,
    rest: Result<Seq<SpecToken>, LexErrorModel>,
)
    ensures
        then_tokens(a, then_tokens(b, rest)) == then_tokens(a + b, rest),
{
    if let Ok(t) = rest {
        assert(a + (b + t) =~= (a + b) + t);
    }
}

pub proof fn lemma_scan_bounds(s: Seq<char>, i: int, class: CharClass)
    requires
        0 <= i <= s.len(),
    ensures
        i <= scan(s, i, class) <= s.len(),
    decreases s.len() - i,
{
    if i < s.len() && in_class(class, s[i]) {
        lemma_scan_bounds(s, i + 1, class);
    }
}

pub proof fn lemma_digits_end_bounds(s: Seq<char>, i: int, class: CharClass, after: bool)
    requires
        0 <= i <= s.len(),
    ensures
        i <= digits_end(s, i, class, after) <= s.len(),
    decreases s.len() - i,
{
    if i < s.len() && in_class(class, s[i]) {
        lemma_digits_end_bounds(s, i + 1, class, false);
    } else if i < s.len() && s[i] == '_' && !after {
        lemma_digits_end_bounds(s, i + 1, class, true);
    }
}

pub proof fn lemma_string_body_bounds(s: Seq<char>, start: int, k: int, value: Seq<char>)
    requires
        0 <= start < k <= s.len(),
        s.len() <= usize::MAX,
    ensures
        match string_body(s, start, k, value) {
            Ok((j, _)) => k < j <= s.len(),
            Err(e) => 0 <= e.span.start <= e.span.end <= s.len(),
        },
    decreases s.len() - k,
{
    if k < s.len() && s[k] != '"' {
        if s[k] == '\\' {
            if k + 1 < s.len() {
                if let Some(e) = string_escape(s[k + 1]) {
                    lemma_string_body_bounds(s, start, k + 2, value.push(e));
                }
            }
        } else if s[k] != '\n' {
            lemma_string_body_bounds(s, start, k + 1, value.push(s[k]));
        }
    }
}

/// Every step moves forward and stays within the text, and every error
/// span lies within the text.
pub proof fn lemma_lex_step_advances(s: Seq<char>, i: int)
    requires
        0 <= i < s.len(),
        s.len() <= usize::MAX,
    ensures
        match lex_step(s, i) {
            Ok((j, _)) => i < j <= s.len(),
            Err(e) => 0 <= e.span.start <= e.span.end <= s.len(),
        },
{
    let c = s[i];
    lemma_scan_bounds(s, i + 1, CharClass::HorizontalSpace);
    lemma_scan_bounds(s, i + 1, CharClass::NotNewline);
    if in_class(CharClass::HorizontalSpace, c) {
        assert(scan(s, i, CharClass::HorizontalSpace) == scan(s, i + 1, CharClass::HorizontalSpace));
    }
    if c == '#' {
        assert(scan(s, i, CharClass::NotNewline) == scan(s, i + 1, CharClass::NotNewline));
    }
    lemma_scan_bounds(s, i + 1, CharClass::IdentifierContinue);
    if i + 2 <= s.len() {
        lemma_digits_end_bounds(s, i + 2, CharClass::Hex, false);
        lemma_digits_end_bounds(s, i + 2, CharClass::Binary, false);
        lemma_digits_end_bounds(s, i + 2, CharClass::Octal, false);
    }
    lemma_digits_end_bounds(s, i + 1, CharClass::Decimal, false);
    lemma_digits_end_bounds(s, i, CharClass::Decimal, false);
    if c == '"' {
        lemma_string_body_bounds(s, i, i + 1, Seq::empty());
    }
    if c == '0' && i + 1 >= s.len() {
        assert(digits_end(s, i + 1, CharClass::Decimal, false) == i + 1);
    }
    if '1' <= c && c <= '9' {
        assert(digits_end(s, i, CharClass::Decimal, false) == digits_end(s, i + 1, CharClass::Decimal, false));
    }
}

/// Every token takes at least one character, but for the closing `Eof`.
pub proof fn lemma_lex_from_count(s: Seq<char>, i: int)
    requires
        0 <= i <= s.len(),
        s.len() <= usize::MAX,
    ensures
        lex_from(s, i) matches Ok(tokens) ==> tokens.len() <= s.len() - i + 1,
    decreases s.len() - i,
{
    if i < s.len() {
        lemma_lex_step_advances(s, i);
        if let Ok((j, token)) = lex_step(s, i) {
            lemma_lex_from_count(s, j);
        }
    }
}

pub proof fn lemma_lex_from_bounds(s: Seq<char>, i: int)
    requires
        0 <= i <= s.len(),
        s.len() <= usize::MAX,
    ensures
        match lex_from(s, i) {
            Ok(tokens) => spans_within(tokens, i, s.len() as int),
            Err(e) => 0 <= e.span.start <= e.span.end <= s.len(),
        },
    decreases s.len() - i,
{
    if i < s.len() {
        lemma_lex_step_advances(s, i);
        match lex_step(s, i) {
            Err(e) => {},
            Ok((j, token)) => {
                lemma_lex_from_bounds(s, j);
                match lex_from(s, j) {
                    Ok(rest) => {
                        let first = match token {
                            Some(kind) => seq![SpecToken { kind, span: Span { start: i as usize, end: j as usize } }],
                            None => Seq::<SpecToken>::empty(),
                        };
                        assert forall|k: int| 0 <= k < (first + rest).len() implies i <= #[trigger] (first
                            + rest)[k].span.start <= (first + rest)[k].span.end <= s.len() by {
                            if k >= first.len() {
                                assert((first + rest)[k] == rest[k - first.len()]);
                            }
                        }
                    },
                    Err(e) => {},
                }
            },
        }
    }
}

/// Tokens come in source order without overlapping: each ends before the
/// next begins.
pub open spec fn in_order(tokens: Seq<SpecToken>) -> bool {
    forall|a: int, b: int|
        0 <= a < b < tokens.len() ==> #[trigger] tokens[a].span.end <= #[trigger] tokens[b].span.start
}

/// Every token but the closing `Eof` covers at least one position.
pub open spec fn nonempty(tokens: Seq<SpecToken>) -> bool {
    forall|k: int| 0 <= k < tokens.len() - 1 ==> (#[trigger] tokens[k]).span.start < tokens[k].span.end
}

/// The stream ends with the one `Eof`, an empty span at the end of the text.
pub open spec fn ends_with_eof(tokens: Seq<SpecToken>, len: int) -> bool {
    &&& tokens.len() > 0
    &&& tokens.last().kind is Eof
    &&& tokens.last().span.start == len
    &&& tokens.last().span.end == len
    &&& forall|k: int| 0 <= k < tokens.len() - 1 ==> !(#[trigger] tokens[k].kind is Eof)
}

#[verifier::rlimit(40)]
proof fn lemma_lex_from_in_order(s: Seq<char>, i: int)
    requires
        0 <= i <= s.len(),
        s.len() <= usize::MAX,
    ensures
        lex_from(s, i) matches Ok(tokens) ==> in_order(tokens) && ends_with_eof(tokens, s.len() as int)
            && spans_within(tokens, i, s.len() as int) && nonempty(tokens),
    decreases s.len() - i,
{
    lemma_lex_from_bounds(s, i);
    if i < s.len() {
        lemma_lex_step_advances(s, i);
        if let Ok((j, token)) = lex_step(s, i) {
            lemma_lex_from_in_order(s, j);
            lemma_lex_from_bounds(s, j);
            if let Ok(rest) = lex_from(s, j) {
                let first = match token {
                    Some(kind) => seq![SpecToken { kind, span: Span { start: i as usize, end: j as usize } }],
                    None => Seq::<SpecToken>::empty(),
                };
                let all = first + rest;
                lemma_lex_step_not_eof(s, i);
                assert forall|a: int, b: int| 0 <= a < b < all.len() implies #[trigger] all[a].span.end
                    <= #[trigger] all[b].span.start by {
                    if a >= first.len() {
                        assert(all[a] == rest[a - first.len()]);
                        assert(all[b] == rest[b - first.len()]);
                    } else {
                        assert(all[b] == rest[b - first.len()]);
                        assert(j <= rest[b - first.len()].span.start);
                    }
                }
                assert forall|k: int| 0 <= k < all.len() - 1 implies !(#[trigger] all[k].kind is Eof) by {
                    if k >= first.len() {
                        assert(all[k] == rest[k - first.len()]);
                    }
                }
                assert forall|k: int| 0 <= k < all.len() - 1 implies (#[trigger] all[k]).span.start
                    < all[k].span.end by {
                    if k >= first.len() {
                        assert(all[k] == rest[k - first.len()]);
                    }
                }
                assert(all.last() == rest.last());
            }
        }
    } else {
        let only = seq![SpecToken { kind: TokenKindG::Eof, span: Span { start: i as usize, end: i as usize } }];
        assert(lex_from(s, i) == Ok::<Seq<SpecToken>, LexErrorModel>(only));
    }
}

proof fn lemma_lex_step_not_eof(s: Seq<char>, i: int)
    requires
        0 <= i < s.len(),
    ensures
        lex_step(s, i) matches Ok((_, Some(kind))) ==> !(kind is Eof),
{
}

/// What the lexer produces for a text: tokens in source order, none
/// overlapping another, all inside the text, closed by a single `Eof` at
/// its end.
pub proof fn lemma_lex_tokens_in_order(s: Seq<char>)
    requires
        s.len() <= usize::MAX,
    ensures
        lex_spec(s) matches Ok(tokens) ==> in_order(tokens) && ends_with_eof(tokens, s.len() as int)
            && spans_within(tokens, 0, s.len() as int) && nonempty(tokens),
{
    lemma_lex_from_in_order(s, 0);
}

/// Byte offsets grow strictly with character positions, and the last one
/// is the length of the encoding.
proof fn lemma_byte_offset_grows(s: Seq<char>, a: int, b: int)
    requires
        0 <= a <= b <= s.len(),
    ensures
        a < b ==> byte_offset(s, a) < byte_offset(s, b),
        a == b ==> byte_offset(s, a) == byte_offset(s, b),
        byte_offset(s, b) <= encode_utf8(s).len(),
        byte_offset(s, s.len() as int) == encode_utf8(s).len(),
    decreases b - a,
{
    assert(s.take(s.len() as int) =~= s);
    if b > 0 {
        lemma_byte_offset_step(s, b - 1);
    } else {
        assert(s.take(0) =~= Seq::<char>::empty());
        assert(encode_utf8(Seq::<char>::empty()) =~= Seq::<u8>::empty());
        if s.len() > 0 {
            lemma_byte_offset_step(s, 0);
        }
    }
    if a < b {
        lemma_byte_offset_grows(s, a, b - 1);
        lemma_byte_offset_step(s, b - 1);
    }
}

/// What `lex` hands back for a text, in byte offsets: tokens in source
/// order, none overlapping another, all inside the text's UTF-8 encoding,
/// each but the last at least one byte long, closed by a single `Eof` at
/// the end of the encoding.
pub proof fn lemma_lex_byte_tokens_in_order(s: Seq<char>)
    requires
        encode_utf8(s).len() <= usize::MAX,
    ensures
        lex_spec(s) matches Ok(tokens) ==> {
            let bytes = tokens.map_values(|t: SpecToken| byte_token(s, t));
            &&& in_order(bytes)
            &&& ends_with_eof(bytes, encode_utf8(s).len() as int)
            &&& spans_within(bytes, 0, encode_utf8(s).len() as int)
            &&& nonempty(bytes)
        },
{
    assert(s.len() <= encode_utf8(s).len()) by {
        lemma_byte_offset_grows(s, 0, s.len() as int);
        lemma_chars_at_most_bytes(s);
    }
    lemma_lex_tokens_in_order(s);
    if let Ok(tokens) = lex_spec(s) {
        let bytes = tokens.map_values(|t: SpecToken| byte_token(s, t));
        let n = encode_utf8(s).len() as int;
        assert forall|k: int| 0 <= k < tokens.len() implies {
            &&& 0 <= #[trigger] bytes[k].span.start <= bytes[k].span.end <= n
            &&& byte_offset(s, tokens[k].span.start as int) == bytes[k].span.start
            &&& byte_offset(s, tokens[k].span.end as int) == bytes[k].span.end
        } by {
            lemma_byte_offset_grows(s, tokens[k].span.start as int, tokens[k].span.end as int);
            lemma_byte_offset_grows(s, tokens[k].span.end as int, s.len() as int);
        }
        assert forall|a: int, b: int| 0 <= a < b < bytes.len() implies #[trigger] bytes[a].span.end
            <= #[trigger] bytes[b].span.start by {
            assert(tokens[a].span.end <= tokens[b].span.start);
            lemma_byte_offset_grows(s, tokens[a].span.end as int, tokens[b].span.start as int);
            lemma_byte_offset_grows(s, tokens[b].span.start as int, s.len() as int);
        }
        assert forall|k: int| 0 <= k < bytes.len() - 1 implies (#[trigger] bytes[k]).span.start
            < bytes[k].span.end by {
            assert(tokens[k].span.start < tokens[k].span.end);
            lemma_byte_offset_grows(s, tokens[k].span.start as int, tokens[k].span.end as int);
            lemma_byte_offset_grows(s, tokens[k].span.end as int, s.len() as int);
        }
        assert forall|k: int| 0 <= k < bytes.len() - 1 implies !(#[trigger] bytes[k].kind is Eof) by {
            assert(!(tokens[k].kind is Eof));
        }
        let last = tokens.len() - 1;
        lemma_byte_offset_grows(s, s.len() as int, s.len() as int);
        assert(bytes.last() == bytes[last]);
        assert(bytes[last].span.start == byte_offset(s, s.len() as int));
    }
}

/// Each character takes at least one byte.
proof fn lemma_chars_at_most_bytes(s: Seq<char>)
    ensures
        s.len() <= encode_utf8(s).len(),
    decreases s.len(),
{
    if s.len() > 0 {
        lemma_chars_at_most_bytes(s.drop_first());
    }
}

} // verus!
