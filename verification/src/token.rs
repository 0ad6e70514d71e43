//! Tokens: what [`crate::lexer`] produces and [`crate::parser`] consumes.
//! Spans are half-open byte ranges into the source text.
use vstd::prelude::*;

use crate::text::concat3;

verus! {

/// A half-open range `start..end` of source positions.
#[derive(Debug, Clone, Copy, PartialEq, Eq, Hash)]
pub struct Span {
    pub start: usize,
    pub end: usize,
}

impl Span {
    pub fn new(start: usize, end: usize) -> (span: Span)
        ensures
            span.start == start,
            span.end == end,
    {
        Span { start, end }
    }
}

/// Every kind of token. The type parameter is the representation of the
/// token's text: `String` for real tokens ([`TokenKind`]) and `Seq<char>`
/// for their mathematical model ([`SpecTokenKind`]).
#[derive(Debug, Clone, PartialEq, Eq)]
pub enum TokenKindG<S> {
    Identifier(S),
    Integer(S),
    String(S),
    /// `` \` `` or `\$` outside a string: the literal character it spells.
    Escaped(char),
    From,
    Import,
    As,
    Pub,
    Macro,
    Type,
    Struct,
    Enum,
    Const,
    In,
    Dot,
    DotDot,
    Ellipsis,
    Comma,
    Colon,
    Semicolon,
    LParen,
    RParen,
    LBracket,
    RBracket,
    LBrace,
    RBrace,
    Star,
    Plus,
    Minus,
    Arrow,
    Slash,
    Percent,
    Equal,
    EqualEqual,
    FatArrow,
    Bang,
    BangEqual,
    Less,
    LessEqual,
    ShiftLeft,
    Greater,
    GreaterEqual,
    ShiftRight,
    Ampersand,
    AndAnd,
    Pipe,
    OrOr,
    Caret,
    Tilde,
    At,
    Dollar,
    Backtick,
    Newline,
    Eof,
}

pub type TokenKind = TokenKindG<String>;

pub type SpecTokenKind = TokenKindG<Seq<char>>;

/// Replaces the text a token kind carries, leaving every other variant as it is.
pub open spec fn map_kind_text<A, B>(kind: TokenKindG<A>, f: spec_fn(A) -> B) -> TokenKindG<B> {
    match kind {
        TokenKindG::Identifier(s) => TokenKindG::Identifier(f(s)),
        TokenKindG::Integer(s) => TokenKindG::Integer(f(s)),
        TokenKindG::String(s) => TokenKindG::String(f(s)),
        TokenKindG::Escaped(c) => TokenKindG::Escaped(c),
        TokenKindG::From => TokenKindG::From,
        TokenKindG::Import => TokenKindG::Import,
        TokenKindG::As => TokenKindG::As,
        TokenKindG::Pub => TokenKindG::Pub,
        TokenKindG::Macro => TokenKindG::Macro,
        TokenKindG::Type => TokenKindG::Type,
        TokenKindG::Struct => TokenKindG::Struct,
        TokenKindG::Enum => TokenKindG::Enum,
        TokenKindG::Const => TokenKindG::Const,
        TokenKindG::In => TokenKindG::In,
        TokenKindG::Dot => TokenKindG::Dot,
        TokenKindG::DotDot => TokenKindG::DotDot,
        TokenKindG::Ellipsis => TokenKindG::Ellipsis,
        TokenKindG::Comma => TokenKindG::Comma,
        TokenKindG::Colon => TokenKindG::Colon,
        TokenKindG::Semicolon => TokenKindG::Semicolon,
        TokenKindG::LParen => TokenKindG::LParen,
        TokenKindG::RParen => TokenKindG::RParen,
        TokenKindG::LBracket => TokenKindG::LBracket,
        TokenKindG::RBracket => TokenKindG::RBracket,
        TokenKindG::LBrace => TokenKindG::LBrace,
        TokenKindG::RBrace => TokenKindG::RBrace,
        TokenKindG::Star => TokenKindG::Star,
        TokenKindG::Plus => TokenKindG::Plus,
        TokenKindG::Minus => TokenKindG::Minus,
        TokenKindG::Arrow => TokenKindG::Arrow,
        TokenKindG::Slash => TokenKindG::Slash,
        TokenKindG::Percent => TokenKindG::Percent,
        TokenKindG::Equal => TokenKindG::Equal,
        TokenKindG::EqualEqual => TokenKindG::EqualEqual,
        TokenKindG::FatArrow => TokenKindG::FatArrow,
        TokenKindG::Bang => TokenKindG::Bang,
        TokenKindG::BangEqual => TokenKindG::BangEqual,
        TokenKindG::Less => TokenKindG::Less,
        TokenKindG::LessEqual => TokenKindG::LessEqual,
        TokenKindG::ShiftLeft => TokenKindG::ShiftLeft,
        TokenKindG::Greater => TokenKindG::Greater,
        TokenKindG::GreaterEqual => TokenKindG::GreaterEqual,
        TokenKindG::ShiftRight => TokenKindG::ShiftRight,
        TokenKindG::Ampersand => TokenKindG::Ampersand,
        TokenKindG::AndAnd => TokenKindG::AndAnd,
        TokenKindG::Pipe => TokenKindG::Pipe,
        TokenKindG::OrOr => TokenKindG::OrOr,
        TokenKindG::Caret => TokenKindG::Caret,
        TokenKindG::Tilde => TokenKindG::Tilde,
        TokenKindG::At => TokenKindG::At,
        TokenKindG::Dollar => TokenKindG::Dollar,
        TokenKindG::Backtick => TokenKindG::Backtick,
        TokenKindG::Newline => TokenKindG::Newline,
        TokenKindG::Eof => TokenKindG::Eof,
    }
}

impl View for TokenKindG<String> {
    type V = SpecTokenKind;

    open spec fn view(&self) -> SpecTokenKind {
        map_kind_text(*self, |s: String| s@)
    }
}

impl TokenKindG<String> {
    /// A copy of this kind.
    pub fn clone_kind(&self) -> (copy: TokenKind)
        ensures
            copy == *self,
    {
        match self {
            TokenKindG::Identifier(text) => TokenKindG::Identifier(text.clone()),
            TokenKindG::Integer(text) => TokenKindG::Integer(text.clone()),
            TokenKindG::String(text) => TokenKindG::String(text.clone()),
            TokenKindG::Escaped(c) => TokenKindG::Escaped(*c),
            TokenKindG::From => TokenKindG::From,
            TokenKindG::Import => TokenKindG::Import,
            TokenKindG::As => TokenKindG::As,
            TokenKindG::Pub => TokenKindG::Pub,
            TokenKindG::Macro => TokenKindG::Macro,
            TokenKindG::Type => TokenKindG::Type,
            TokenKindG::Struct => TokenKindG::Struct,
            TokenKindG::Enum => TokenKindG::Enum,
            TokenKindG::Const => TokenKindG::Const,
            TokenKindG::In => TokenKindG::In,
            TokenKindG::Dot => TokenKindG::Dot,
            TokenKindG::DotDot => TokenKindG::DotDot,
            TokenKindG::Ellipsis => TokenKindG::Ellipsis,
            TokenKindG::Comma => TokenKindG::Comma,
            TokenKindG::Colon => TokenKindG::Colon,
            TokenKindG::Semicolon => TokenKindG::Semicolon,
            TokenKindG::LParen => TokenKindG::LParen,
            TokenKindG::RParen => TokenKindG::RParen,
            TokenKindG::LBracket => TokenKindG::LBracket,
            TokenKindG::RBracket => TokenKindG::RBracket,
            TokenKindG::LBrace => TokenKindG::LBrace,
            TokenKindG::RBrace => TokenKindG::RBrace,
            TokenKindG::Star => TokenKindG::Star,
            TokenKindG::Plus => TokenKindG::Plus,
            TokenKindG::Minus => TokenKindG::Minus,
            TokenKindG::Arrow => TokenKindG::Arrow,
            TokenKindG::Slash => TokenKindG::Slash,
            TokenKindG::Percent => TokenKindG::Percent,
            TokenKindG::Equal => TokenKindG::Equal,
            TokenKindG::EqualEqual => TokenKindG::EqualEqual,
            TokenKindG::FatArrow => TokenKindG::FatArrow,
            TokenKindG::Bang => TokenKindG::Bang,
            TokenKindG::BangEqual => TokenKindG::BangEqual,
            TokenKindG::Less => TokenKindG::Less,
            TokenKindG::LessEqual => TokenKindG::LessEqual,
            TokenKindG::ShiftLeft => TokenKindG::ShiftLeft,
            TokenKindG::Greater => TokenKindG::Greater,
            TokenKindG::GreaterEqual => TokenKindG::GreaterEqual,
            TokenKindG::ShiftRight => TokenKindG::ShiftRight,
            TokenKindG::Ampersand => TokenKindG::Ampersand,
            TokenKindG::AndAnd => TokenKindG::AndAnd,
            TokenKindG::Pipe => TokenKindG::Pipe,
            TokenKindG::OrOr => TokenKindG::OrOr,
            TokenKindG::Caret => TokenKindG::Caret,
            TokenKindG::Tilde => TokenKindG::Tilde,
            TokenKindG::At => TokenKindG::At,
            TokenKindG::Dollar => TokenKindG::Dollar,
            TokenKindG::Backtick => TokenKindG::Backtick,
            TokenKindG::Newline => TokenKindG::Newline,
            TokenKindG::Eof => TokenKindG::Eof,
        }
    }
}

/// Whether a kind is a word: an identifier or a keyword.
pub open spec fn is_word(kind: SpecTokenKind) -> bool {
    match kind {
        TokenKindG::Identifier(_) | TokenKindG::From | TokenKindG::Import | TokenKindG::As
        | TokenKindG::Pub | TokenKindG::Macro | TokenKindG::Type | TokenKindG::Struct
        | TokenKindG::Enum | TokenKindG::Const | TokenKindG::In => true,
        _ => false,
    }
}

/// The text of a word kind.
pub open spec fn word_of(kind: SpecTokenKind) -> Seq<char> {
    match kind {
        TokenKindG::Identifier(name) => name,
        TokenKindG::From => "from"@,
        TokenKindG::Import => "import"@,
        TokenKindG::As => "as"@,
        TokenKindG::Pub => "pub"@,
        TokenKindG::Macro => "macro"@,
        TokenKindG::Type => "type"@,
        TokenKindG::Struct => "struct"@,
        TokenKindG::Enum => "enum"@,
        TokenKindG::Const => "const"@,
        TokenKindG::In => "in"@,
        _ => Seq::empty(),
    }
}

impl TokenKindG<String> {
    /// The text of an identifier or keyword; `None` for every other kind.
    pub fn word_text(&self) -> (text: Option<&str>)
        ensures
            match text {
                Some(t) => is_word(self@) && t@ == word_of(self@),
                None => !is_word(self@),
            },
    {
        match self {
            TokenKindG::Identifier(name) => Some(name.as_str()),
            TokenKindG::From => Some("from"),
            TokenKindG::Import => Some("import"),
            TokenKindG::As => Some("as"),
            TokenKindG::Pub => Some("pub"),
            TokenKindG::Macro => Some("macro"),
            TokenKindG::Type => Some("type"),
            TokenKindG::Struct => Some("struct"),
            TokenKindG::Enum => Some("enum"),
            TokenKindG::Const => Some("const"),
            TokenKindG::In => Some("in"),
            _ => None,
        }
    }
}

/// The position of a kind's variant in the declaration.
pub open spec fn variant_index<A>(kind: TokenKindG<A>) -> nat {
    match kind {
        TokenKindG::Identifier(_) => 0,
        TokenKindG::Integer(_) => 1,
        TokenKindG::String(_) => 2,
        TokenKindG::Escaped(_) => 3,
        TokenKindG::From => 4,
        TokenKindG::Import => 5,
        TokenKindG::As => 6,
        TokenKindG::Pub => 7,
        TokenKindG::Macro => 8,
        TokenKindG::Type => 9,
        TokenKindG::Struct => 10,
        TokenKindG::Enum => 11,
        TokenKindG::Const => 12,
        TokenKindG::In => 13,
        TokenKindG::Dot => 14,
        TokenKindG::DotDot => 15,
        TokenKindG::Ellipsis => 16,
        TokenKindG::Comma => 17,
        TokenKindG::Colon => 18,
        TokenKindG::Semicolon => 19,
        TokenKindG::LParen => 20,
        TokenKindG::RParen => 21,
        TokenKindG::LBracket => 22,
        TokenKindG::RBracket => 23,
        TokenKindG::LBrace => 24,
        TokenKindG::RBrace => 25,
        TokenKindG::Star => 26,
        TokenKindG::Plus => 27,
        TokenKindG::Minus => 28,
        TokenKindG::Arrow => 29,
        TokenKindG::Slash => 30,
        TokenKindG::Percent => 31,
        TokenKindG::Equal => 32,
        TokenKindG::EqualEqual => 33,
        TokenKindG::FatArrow => 34,
        TokenKindG::Bang => 35,
        TokenKindG::BangEqual => 36,
        TokenKindG::Less => 37,
        TokenKindG::LessEqual => 38,
        TokenKindG::ShiftLeft => 39,
        TokenKindG::Greater => 40,
        TokenKindG::GreaterEqual => 41,
        TokenKindG::ShiftRight => 42,
        TokenKindG::Ampersand => 43,
        TokenKindG::AndAnd => 44,
        TokenKindG::Pipe => 45,
        TokenKindG::OrOr => 46,
        TokenKindG::Caret => 47,
        TokenKindG::Tilde => 48,
        TokenKindG::At => 49,
        TokenKindG::Dollar => 50,
        TokenKindG::Backtick => 51,
        TokenKindG::Newline => 52,
        TokenKindG::Eof => 53,
    }
}

/// Whether two kinds are the same variant, ignoring any text or character
/// they carry.
pub open spec fn same_variant<A, B>(a: TokenKindG<A>, b: TokenKindG<B>) -> bool {
    variant_index(a) == variant_index(b)
}

/// Whether two kinds are the same variant, ignoring any text they carry.
pub fn same_variant_exec(a: &TokenKind, b: &TokenKind) -> (same: bool)
    ensures
        same == same_variant(a@, b@),
{
    match (a, b) {
        (TokenKindG::Identifier(_), TokenKindG::Identifier(_)) => true,
        (TokenKindG::Integer(_), TokenKindG::Integer(_)) => true,
        (TokenKindG::String(_), TokenKindG::String(_)) => true,
        (TokenKindG::Escaped(_), TokenKindG::Escaped(_)) => true,
        (TokenKindG::From, TokenKindG::From) => true,
        (TokenKindG::Import, TokenKindG::Import) => true,
        (TokenKindG::As, TokenKindG::As) => true,
        (TokenKindG::Pub, TokenKindG::Pub) => true,
        (TokenKindG::Macro, TokenKindG::Macro) => true,
        (TokenKindG::Type, TokenKindG::Type) => true,
        (TokenKindG::Struct, TokenKindG::Struct) => true,
        (TokenKindG::Enum, TokenKindG::Enum) => true,
        (TokenKindG::Const, TokenKindG::Const) => true,
        (TokenKindG::In, TokenKindG::In) => true,
        (TokenKindG::Dot, TokenKindG::Dot) => true,
        (TokenKindG::DotDot, TokenKindG::DotDot) => true,
        (TokenKindG::Ellipsis, TokenKindG::Ellipsis) => true,
        (TokenKindG::Comma, TokenKindG::Comma) => true,
        (TokenKindG::Colon, TokenKindG::Colon) => true,
        (TokenKindG::Semicolon, TokenKindG::Semicolon) => true,
        (TokenKindG::LParen, TokenKindG::LParen) => true,
        (TokenKindG::RParen, TokenKindG::RParen) => true,
        (TokenKindG::LBracket, TokenKindG::LBracket) => true,
        (TokenKindG::RBracket, TokenKindG::RBracket) => true,
        (TokenKindG::LBrace, TokenKindG::LBrace) => true,
        (TokenKindG::RBrace, TokenKindG::RBrace) => true,
        (TokenKindG::Star, TokenKindG::Star) => true,
        (TokenKindG::Plus, TokenKindG::Plus) => true,
        (TokenKindG::Minus, TokenKindG::Minus) => true,
        (TokenKindG::Arrow, TokenKindG::Arrow) => true,
        (TokenKindG::Slash, TokenKindG::Slash) => true,
        (TokenKindG::Percent, TokenKindG::Percent) => true,
        (TokenKindG::Equal, TokenKindG::Equal) => true,
        (TokenKindG::EqualEqual, TokenKindG::EqualEqual) => true,
        (TokenKindG::FatArrow, TokenKindG::FatArrow) => true,
        (TokenKindG::Bang, TokenKindG::Bang) => true,
        (TokenKindG::BangEqual, TokenKindG::BangEqual) => true,
        (TokenKindG::Less, TokenKindG::Less) => true,
        (TokenKindG::LessEqual, TokenKindG::LessEqual) => true,
        (TokenKindG::ShiftLeft, TokenKindG::ShiftLeft) => true,
        (TokenKindG::Greater, TokenKindG::Greater) => true,
        (TokenKindG::GreaterEqual, TokenKindG::GreaterEqual) => true,
        (TokenKindG::ShiftRight, TokenKindG::ShiftRight) => true,
        (TokenKindG::Ampersand, TokenKindG::Ampersand) => true,
        (TokenKindG::AndAnd, TokenKindG::AndAnd) => true,
        (TokenKindG::Pipe, TokenKindG::Pipe) => true,
        (TokenKindG::OrOr, TokenKindG::OrOr) => true,
        (TokenKindG::Caret, TokenKindG::Caret) => true,
        (TokenKindG::Tilde, TokenKindG::Tilde) => true,
        (TokenKindG::At, TokenKindG::At) => true,
        (TokenKindG::Dollar, TokenKindG::Dollar) => true,
        (TokenKindG::Backtick, TokenKindG::Backtick) => true,
        (TokenKindG::Newline, TokenKindG::Newline) => true,
        (TokenKindG::Eof, TokenKindG::Eof) => true,
        _ => false,
    }
}

/// `format!("{:?}", text)` for a string: the text in double quotes, with
/// `char::escape_debug` applied.
pub uninterp spec fn debug_str(text: Seq<char>) -> Seq<char>;

/// `format!("{:?}", c)` for a character: the character in single quotes,
/// with `char::escape_debug` applied.
pub uninterp spec fn debug_char_text(c: char) -> Seq<char>;

/// `str`'s `Debug` rendering, which depends on the text alone; the
/// contract names it and states nothing more of the escaping.
#[verifier::external_body]
fn debug_string(text: &str) -> (quoted: String)
    ensures
        quoted@ == debug_str(text@),
{
    format!("{:?}", text)
}

/// `char`'s `Debug` rendering, which depends on the character alone; the
/// contract names it and states nothing more of the escaping.
#[verifier::external_body]
fn debug_char(c: char) -> (quoted: String)
    ensures
        quoted@ == debug_char_text(c),
{
    format!("{:?}", c)
}

/// The `Debug` rendering of a token kind (`Comma`, `Identifier("x")`): the
/// variant's name, with the text or character it carries in parentheses.
pub open spec fn debug_text(kind: SpecTokenKind) -> Seq<char> {
    match kind {
        TokenKindG::Identifier(text) => "Identifier("@ + debug_str(text) + ")"@,
        TokenKindG::Integer(text) => "Integer("@ + debug_str(text) + ")"@,
        TokenKindG::String(text) => "String("@ + debug_str(text) + ")"@,
        TokenKindG::Escaped(c) => "Escaped("@ + debug_char_text(c) + ")"@,
        TokenKindG::From => "From"@,
        TokenKindG::Import => "Import"@,
        TokenKindG::As => "As"@,
        TokenKindG::Pub => "Pub"@,
        TokenKindG::Macro => "Macro"@,
        TokenKindG::Type => "Type"@,
        TokenKindG::Struct => "Struct"@,
        TokenKindG::Enum => "Enum"@,
        TokenKindG::Const => "Const"@,
        TokenKindG::In => "In"@,
        TokenKindG::Dot => "Dot"@,
        TokenKindG::DotDot => "DotDot"@,
        TokenKindG::Ellipsis => "Ellipsis"@,
        TokenKindG::Comma => "Comma"@,
        TokenKindG::Colon => "Colon"@,
        TokenKindG::Semicolon => "Semicolon"@,
        TokenKindG::LParen => "LParen"@,
        TokenKindG::RParen => "RParen"@,
        TokenKindG::LBracket => "LBracket"@,
        TokenKindG::RBracket => "RBracket"@,
        TokenKindG::LBrace => "LBrace"@,
        TokenKindG::RBrace => "RBrace"@,
        TokenKindG::Star => "Star"@,
        TokenKindG::Plus => "Plus"@,
        TokenKindG::Minus => "Minus"@,
        TokenKindG::Arrow => "Arrow"@,
        TokenKindG::Slash => "Slash"@,
        TokenKindG::Percent => "Percent"@,
        TokenKindG::Equal => "Equal"@,
        TokenKindG::EqualEqual => "EqualEqual"@,
        TokenKindG::FatArrow => "FatArrow"@,
        TokenKindG::Bang => "Bang"@,
        TokenKindG::BangEqual => "BangEqual"@,
        TokenKindG::Less => "Less"@,
        TokenKindG::LessEqual => "LessEqual"@,
        TokenKindG::ShiftLeft => "ShiftLeft"@,
        TokenKindG::Greater => "Greater"@,
        TokenKindG::GreaterEqual => "GreaterEqual"@,
        TokenKindG::ShiftRight => "ShiftRight"@,
        TokenKindG::Ampersand => "Ampersand"@,
        TokenKindG::AndAnd => "AndAnd"@,
        TokenKindG::Pipe => "Pipe"@,
        TokenKindG::OrOr => "OrOr"@,
        TokenKindG::Caret => "Caret"@,
        TokenKindG::Tilde => "Tilde"@,
        TokenKindG::At => "At"@,
        TokenKindG::Dollar => "Dollar"@,
        TokenKindG::Backtick => "Backtick"@,
        TokenKindG::Newline => "Newline"@,
        TokenKindG::Eof => "Eof"@,
    }
}

/// The `Debug` rendering of a token kind, as `derive(Debug)` writes it.
pub(crate) fn debug_kind(kind: &TokenKind) -> (text: String)
    ensures
        text@ == debug_text(kind@),
{
    match kind {
        TokenKindG::Identifier(text) => {
            let quoted = debug_string(text.as_str());
            concat3("Identifier(", quoted.as_str(), ")")
        },
        TokenKindG::Integer(text) => {
            let quoted = debug_string(text.as_str());
            concat3("Integer(", quoted.as_str(), ")")
        },
        TokenKindG::String(text) => {
            let quoted = debug_string(text.as_str());
            concat3("String(", quoted.as_str(), ")")
        },
        TokenKindG::Escaped(c) => {
            let quoted = debug_char(*c);
            concat3("Escaped(", quoted.as_str(), ")")
        },
        TokenKindG::From => String::from_str("From"),
        TokenKindG::Import => String::from_str("Import"),
        TokenKindG::As => String::from_str("As"),
        TokenKindG::Pub => String::from_str("Pub"),
        TokenKindG::Macro => String::from_str("Macro"),
        TokenKindG::Type => String::from_str("Type"),
        TokenKindG::Struct => String::from_str("Struct"),
        TokenKindG::Enum => String::from_str("Enum"),
        TokenKindG::Const => String::from_str("Const"),
        TokenKindG::In => String::from_str("In"),
        TokenKindG::Dot => String::from_str("Dot"),
        TokenKindG::DotDot => String::from_str("DotDot"),
        TokenKindG::Ellipsis => String::from_str("Ellipsis"),
        TokenKindG::Comma => String::from_str("Comma"),
        TokenKindG::Colon => String::from_str("Colon"),
        TokenKindG::Semicolon => String::from_str("Semicolon"),
        TokenKindG::LParen => String::from_str("LParen"),
        TokenKindG::RParen => String::from_str("RParen"),
        TokenKindG::LBracket => String::from_str("LBracket"),
        TokenKindG::RBracket => String::from_str("RBracket"),
        TokenKindG::LBrace => String::from_str("LBrace"),
        TokenKindG::RBrace => String::from_str("RBrace"),
        TokenKindG::Star => String::from_str("Star"),
        TokenKindG::Plus => String::from_str("Plus"),
        TokenKindG::Minus => String::from_str("Minus"),
        TokenKindG::Arrow => String::from_str("Arrow"),
        TokenKindG::Slash => String::from_str("Slash"),
        TokenKindG::Percent => String::from_str("Percent"),
        TokenKindG::Equal => String::from_str("Equal"),
        TokenKindG::EqualEqual => String::from_str("EqualEqual"),
        TokenKindG::FatArrow => String::from_str("FatArrow"),
        TokenKindG::Bang => String::from_str("Bang"),
        TokenKindG::BangEqual => String::from_str("BangEqual"),
        TokenKindG::Less => String::from_str("Less"),
        TokenKindG::LessEqual => String::from_str("LessEqual"),
        TokenKindG::ShiftLeft => String::from_str("ShiftLeft"),
        TokenKindG::Greater => String::from_str("Greater"),
        TokenKindG::GreaterEqual => String::from_str("GreaterEqual"),
        TokenKindG::ShiftRight => String::from_str("ShiftRight"),
        TokenKindG::Ampersand => String::from_str("Ampersand"),
        TokenKindG::AndAnd => String::from_str("AndAnd"),
        TokenKindG::Pipe => String::from_str("Pipe"),
        TokenKindG::OrOr => String::from_str("OrOr"),
        TokenKindG::Caret => String::from_str("Caret"),
        TokenKindG::Tilde => String::from_str("Tilde"),
        TokenKindG::At => String::from_str("At"),
        TokenKindG::Dollar => String::from_str("Dollar"),
        TokenKindG::Backtick => String::from_str("Backtick"),
        TokenKindG::Newline => String::from_str("Newline"),
        TokenKindG::Eof => String::from_str("Eof"),
    }
}

#[derive(Debug, Clone, PartialEq, Eq)]
pub struct Token {
    pub kind: TokenKind,
    pub span: Span,
}

/// The mathematical model of a [`Token`].
pub struct SpecToken {
    pub kind: SpecTokenKind,
    pub span: Span,
}

impl View for Token {
    type V = SpecToken;

    open spec fn view(&self) -> SpecToken {
        SpecToken { kind: self.kind@, span: self.span }
    }
}

impl Token {
    pub fn new(kind: TokenKind, start: usize, end: usize) -> (token: Token)
        ensures
            token.kind == kind,
            token.span == (Span { start, end }),
            token@ == (SpecToken { kind: kind@, span: Span { start, end } }),
    {
        Token { kind, span: Span { start, end } }
    }
}

} // verus!
