//! The syntax tree produced by the parser. A [`Program`] is one file's
//! worth of statements.
//!
//! `mov r1, 7`-shaped lines parse as [`Statement::Invocation`]: BitterASM
//! has no built-in instruction syntax, so every mnemonic is an identifier
//! followed by operand expressions, resolved to a macro definition later.
//! [`Statement::Meta`] holds the `@`-prefixed directives of macro bodies.
use vstd::prelude::*;

use crate::facets::syntax::SyntaxPattern;
use crate::token::{Span, TokenKind};
use crate::types::{GenericParameter, StructBodyItem, TypeArgument, TypeExpr};

verus! {

#[derive(Debug, PartialEq)]
pub struct Program {
    pub statements: Vec<Statement>,
    pub span: Span,
}

#[derive(Debug, PartialEq)]
pub enum Statement {
    Import(ImportStatement),
    Struct(StructDeclaration),
    Enum(EnumDeclaration),
    TypeAlias(TypeAliasDeclaration),
    Const(ConstDeclaration),
    Label(Label),
    ExternLabel(ExternLabel),
    Section(Section),
    Invocation(Invocation),
    Macro(MacroDeclaration),
    /// `syntax name(a, b) = { pattern }`: overrides how an existing macro
    /// is recognized at call sites for the rest of the file.
    SyntaxOverride(SyntaxOverrideStatement),
    Meta(MetaStatement),
}

#[derive(Debug, PartialEq)]
pub struct SyntaxOverrideStatement {
    pub name: String,
    pub pattern: SyntaxPattern,
    pub span: Span,
}

#[derive(Debug, PartialEq)]
pub struct ImportStatement {
    pub module: ModulePath,
    pub items: ImportItems,
    pub span: Span,
}

#[derive(Debug, PartialEq)]
pub struct ModulePath {
    pub segments: Vec<String>,
    pub relative_level: usize,
    pub span: Span,
}

#[derive(Debug, PartialEq)]
pub enum ImportItems {
    All,
    Names(Vec<String>),
}

#[derive(Debug, PartialEq)]
pub struct Label {
    pub name: String,
    pub is_pub: bool,
    pub span: Span,
}

/// An imported `pub` label of another file, whose position is only known
/// once that file is linked. `file` is the declaring file's path.
#[derive(Debug, PartialEq)]
pub struct ExternLabel {
    pub name: String,
    pub file: String,
    pub span: Span,
}

/// `section <name>`: the named group subsequent `@emit`s land in.
#[derive(Debug, PartialEq)]
pub struct Section {
    pub name: String,
    pub span: Span,
}

#[derive(Debug, PartialEq)]
pub struct Invocation {
    pub name: String,
    pub operands: Vec<Expr>,
    pub span: Span,
}

#[derive(Debug, PartialEq)]
#[allow(inconsistent_fields)]
pub enum Expr {
    Identifier { name: String, span: Span },
    /// `` acc_`i` ``: a name built from literal text and evaluated splices.
    SplicedIdentifier { name: SplicedName, span: Span },
    Integer { raw: String, span: Span },
    String { value: String, span: Span },
    Member { object: Box<Expr>, member: SplicedName, span: Span },
    Call { callee: Box<Expr>, arguments: Vec<CallArgument>, span: Span },
    /// A qualified enum variant such as `Option<int>.Some(42)`.
    EnumVariant {
        enum_name: String,
        generic_args: Vec<TypeArgument>,
        variant: String,
        payload: Option<Box<Expr>>,
        span: Span,
    },
    /// `Array<u8, N> { field: value, ... }`: brace-literal construction.
    Construct {
        callee: Box<Expr>,
        generic_args: Vec<TypeArgument>,
        fields: Vec<ConstructItem>,
        span: Span,
    },
    /// `expr as Type`.
    As { value: Box<Expr>, ty: TypeExpr, span: Span },
    Unary { op: UnaryOp, operand: Box<Expr>, span: Span },
    Binary { left: Box<Expr>, op: BinaryOp, right: Box<Expr>, span: Span },
    /// `` `expr` ``: evaluate now and splice the result in.
    Splice { inner: Box<Expr>, span: Span },
    /// `start..end` or `start..=end`.
    Range { start: Box<Expr>, end: Box<Expr>, inclusive: bool, span: Span },
    /// `value in source`.
    In { value: Box<Expr>, source: Box<Expr>, span: Span },
}

/// The span every expression carries.
pub open spec fn expr_span(expr: Expr) -> Span {
    match expr {
        Expr::Identifier { span, .. } => span,
        Expr::SplicedIdentifier { span, .. } => span,
        Expr::Integer { span, .. } => span,
        Expr::String { span, .. } => span,
        Expr::Member { span, .. } => span,
        Expr::Call { span, .. } => span,
        Expr::EnumVariant { span, .. } => span,
        Expr::Construct { span, .. } => span,
        Expr::As { span, .. } => span,
        Expr::Unary { span, .. } => span,
        Expr::Binary { span, .. } => span,
        Expr::Splice { span, .. } => span,
        Expr::Range { span, .. } => span,
        Expr::In { span, .. } => span,
    }
}

impl Expr {
    pub fn span(&self) -> (span: Span)
        ensures
            span == expr_span(*self),
    {
        match self {
            Expr::Identifier { span, .. } => *span,
            Expr::SplicedIdentifier { span, .. } => *span,
            Expr::Integer { span, .. } => *span,
            Expr::String { span, .. } => *span,
            Expr::Member { span, .. } => *span,
            Expr::Call { span, .. } => *span,
            Expr::EnumVariant { span, .. } => *span,
            Expr::Construct { span, .. } => *span,
            Expr::As { span, .. } => *span,
            Expr::Unary { span, .. } => *span,
            Expr::Binary { span, .. } => *span,
            Expr::Splice { span, .. } => *span,
            Expr::Range { span, .. } => *span,
            Expr::In { span, .. } => *span,
        }
    }
}

#[derive(Debug, PartialEq)]
pub struct CallArgument {
    pub name: Option<String>,
    pub value: Expr,
    pub span: Span,
}

/// One item in a brace-literal construction's field list: a field, or an
/// `@for`/`@if` that generates fields once evaluated.
#[derive(Debug, PartialEq)]
pub enum ConstructItem {
    Field { name: SplicedName, value: Expr, span: Span },
    For { var: String, source: Expr, body: Vec<ConstructItem>, span: Span },
    If {
        condition: Expr,
        body: Vec<ConstructItem>,
        else_body: Option<Vec<ConstructItem>>,
        span: Span,
    },
}

#[derive(Debug, Clone, Copy, PartialEq, Eq)]
pub enum UnaryOp {
    Negate,
    Not,
    BitNot,
}

#[derive(Debug, Clone, Copy, PartialEq, Eq)]
pub enum BinaryOp {
    Add,
    Subtract,
    Multiply,
    Divide,
    Remainder,
    ShiftLeft,
    ShiftRight,
    BitAnd,
    BitXor,
    BitOr,
    And,
    Or,
    Equal,
    NotEqual,
    Less,
    LessEqual,
    Greater,
    GreaterEqual,
}

#[derive(Debug, PartialEq)]
pub struct MetaStatement {
    pub name: String,
    pub args: Vec<Expr>,
    pub body: Option<Vec<Statement>>,
    /// `@if`'s trailing `@else { ... }`, when present.
    pub else_body: Option<Vec<Statement>>,
    /// `@match`'s ordered arms; a `None` pattern is the `_` wildcard.
    pub match_arms: Vec<MatchArm>,
    pub span: Span,
}

#[derive(Debug, PartialEq)]
pub struct MatchArm {
    pub pattern: Option<Expr>,
    pub body: Vec<Statement>,
    pub span: Span,
}

/// One piece of a name that may be built from evaluated fragments:
/// `` r`id` `` is `[Literal("r"), Splice(id)]`.
#[derive(Debug, PartialEq)]
pub enum NamePart {
    Literal(String),
    Splice(Expr),
}

pub type SplicedName = Vec<NamePart>;

/// The text one part contributes when every splice is an integer literal.
pub open spec fn part_spliced_text(part: NamePart) -> Option<Seq<char>> {
    match part {
        NamePart::Literal(text) => Some(text@),
        NamePart::Splice(Expr::Integer { raw, .. }) => Some(raw@),
        NamePart::Splice(_) => None,
    }
}

/// The text one part contributes when it is literal.
pub open spec fn part_literal_text(part: NamePart) -> Option<Seq<char>> {
    match part {
        NamePart::Literal(text) => Some(text@),
        NamePart::Splice(_) => None,
    }
}

/// The concatenated texts of the first `k` parts, if every one has a text.
pub open spec fn joined_texts(parts: Seq<NamePart>, k: int, literal_only: bool) -> Option<Seq<char>>
    decreases k,
{
    if k <= 0 {
        Some(Seq::empty())
    } else {
        let part = if literal_only {
            part_literal_text(parts[k - 1])
        } else {
            part_spliced_text(parts[k - 1])
        };
        match (joined_texts(parts, k - 1, literal_only), part) {
            (Some(prefix), Some(text)) => Some(prefix + text),
            _ => None,
        }
    }
}

/// The name `parts` spells when every splice is an integer literal (what
/// top-level `@for` unrolling leaves behind), so a pass that runs before
/// evaluation can still see which name it reads. `None` when a splice
/// still needs evaluating.
pub fn literal_spliced_name(parts: &[NamePart]) -> (name: Option<String>)
    ensures
        match joined_texts(parts@, parts@.len() as int, false) {
            Some(text) => name matches Some(n) && n@ == text,
            None => name is None,
        },
{
    let mut out = String::new();
    let mut k: usize = 0;
    while k < parts.len()
        invariant
            k <= parts@.len(),
            joined_texts(parts@, k as int, false) == Some(out@),
        decreases parts@.len() - k,
    {
        match &parts[k] {
            NamePart::Literal(text) => out.append(text.as_str()),
            NamePart::Splice(Expr::Integer { raw, .. }) => out.append(raw.as_str()),
            NamePart::Splice(_) => {
                proof {
                    lemma_joined_texts_none_after(parts@, k as int + 1, false);
                }
                return None;
            },
        }
        k += 1;
    }
    Some(out)
}

/// `Some(name)` if every part is literal (nothing is left to evaluate),
/// `None` if a splice remains.
pub fn literal_name(parts: &[NamePart]) -> (name: Option<String>)
    ensures
        match joined_texts(parts@, parts@.len() as int, true) {
            Some(text) => name matches Some(n) && n@ == text,
            None => name is None,
        },
{
    let mut out = String::new();
    let mut k: usize = 0;
    while k < parts.len()
        invariant
            k <= parts@.len(),
            joined_texts(parts@, k as int, true) == Some(out@),
        decreases parts@.len() - k,
    {
        match &parts[k] {
            NamePart::Literal(text) => out.append(text.as_str()),
            NamePart::Splice(_) => {
                proof {
                    lemma_joined_texts_none_after(parts@, k as int + 1, true);
                }
                return None;
            },
        }
        k += 1;
    }
    Some(out)
}

/// Once a prefix has no text, no longer prefix has one either.
pub proof fn lemma_joined_texts_none_after(parts: Seq<NamePart>, k: int, literal_only: bool)
    requires
        0 < k <= parts.len(),
        joined_texts(parts, k, literal_only) is None,
    ensures
        joined_texts(parts, parts.len() as int, literal_only) is None,
    decreases parts.len() - k,
{
    if k < parts.len() {
        lemma_joined_texts_none_after(parts, k + 1, literal_only);
    }
}

#[derive(Debug, PartialEq)]
pub struct ConstDeclaration {
    pub name: SplicedName,
    pub is_pub: bool,
    /// Optional explicit annotation.
    pub ty: Option<TypeExpr>,
    pub value: Expr,
    pub span: Span,
}

/// An enum declaration; a variant is payload-free or carries one value.
#[derive(Debug, PartialEq)]
pub struct EnumDeclaration {
    pub name: SplicedName,
    pub is_pub: bool,
    pub generic_params: Vec<GenericParameter>,
    pub variants: Vec<EnumVariantDeclaration>,
    pub span: Span,
}

#[derive(Debug, PartialEq)]
pub struct EnumVariantDeclaration {
    pub name: String,
    pub payload: Option<TypeExpr>,
    pub span: Span,
}

#[derive(Debug, PartialEq)]
pub struct StructDeclaration {
    pub name: SplicedName,
    pub is_pub: bool,
    pub generic_params: Vec<GenericParameter>,
    pub facets: Vec<Facet>,
    pub fields: Vec<StructBodyItem>,
    pub span: Span,
}

#[derive(Debug, PartialEq)]
pub struct TypeAliasDeclaration {
    pub name: SplicedName,
    pub is_pub: bool,
    pub generic_params: Vec<GenericParameter>,
    pub facets: Vec<Facet>,
    pub ty: TypeExpr,
    pub span: Span,
}

#[derive(Debug, PartialEq)]
pub struct MacroDeclaration {
    pub name: SplicedName,
    pub is_pub: bool,
    pub generic_params: Vec<GenericParameter>,
    pub params: Vec<MacroParameter>,
    pub return_ty: Option<TypeExpr>,
    pub facets: Vec<Facet>,
    pub body: Vec<Statement>,
    pub span: Span,
}

#[derive(Debug, PartialEq)]
pub struct MacroParameter {
    pub name: String,
    pub ty: TypeExpr,
    pub default: Option<Expr>,
    pub span: Span,
}

/// A `| name ...` modifier on a declaration. `pub` and `-> Type` are
/// declaration fields, not facets; see [`crate::facets`] for what each
/// facet means.
#[derive(Debug, PartialEq)]
pub struct Facet {
    pub name: String,
    pub payload: FacetPayload,
    pub span: Span,
}

#[derive(Debug, PartialEq)]
pub enum FacetPayload {
    Bare,
    Expr(Expr),
    Block(Vec<Statement>),
    Type(TypeExpr),
    /// The raw tokens of `{ ... }`: `syntax`'s payload.
    Pattern(Vec<TokenKind>),
}

} // verus!
