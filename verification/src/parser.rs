//! A recursive-descent parser over one file's [`Token`] stream. It reads
//! `from ... import ...` statements, `name:` labels, `const`, `type`,
//! `enum` and `struct` declarations (`pub` or not), and invocations `name
//! operand, operand, ...`.
//! Expressions are parsed by binding power: names, integers, strings,
//! parenthesized expressions, splices `` `e` ``, the prefix operators `-`,
//! `!` and `~`, member access `a.b`, calls `f(x, name = y)`, `e as Type`,
//! and the binary operators from `||` up to `*`. A type is a dotted name,
//! optionally applied to generic arguments `<...>`; inside such a list
//! `>`, `>=` and `>>` close the list rather than compare or shift (wrap a
//! comparison in parentheses), so two nested lists are closed by `> >`.
//! A type alias or a struct may carry facets `| name payload`, also on
//! following lines: a lint facet (`allow`, `expect`, `warn`, `deny`,
//! `forbid`) names lints or lint groups that must exist, any other
//! registered facet takes an expression that ends before the next `|`.
//! A struct's fields are `pub? const? name: Type (= value)?`. Every
//! statement ends at a newline or at the end of the file (after a
//! declaration's closing `}` the newline is optional). Macro declarations,
//! `@` directives (generated struct fields among them) and custom
//! invocation syntax are not part of this grammar: the parser reports them
//! as errors.
use vstd::prelude::*;

use crate::ast::{
    expr_span, BinaryOp, CallArgument, ConstDeclaration, EnumDeclaration, EnumVariantDeclaration, Expr, Facet,
    FacetPayload, ImportItems, ImportStatement, Invocation, Label, ModulePath, NamePart, Program, SplicedName,
    Statement, StructDeclaration, TypeAliasDeclaration, UnaryOp,
};
use crate::diagnostics::lint::{is_lint_facet, lint_selection, LintName};
use crate::facets::{is_lint_level_name, payload_shape, registered_shape, PayloadShape};
use crate::types::{GenericParameter, StructBodyItem, StructField, TypeArgument, TypeExpr};
use crate::text::{concat2, concat3};
use crate::token::{
    debug_kind, debug_text, same_variant, same_variant_exec, Span, SpecToken, SpecTokenKind, Token,
    TokenKind, TokenKindG,
};

verus! {

// ================
// errors
// ================

#[derive(Debug, Clone, PartialEq)]
pub struct ParseError {
    pub message: String,
    pub span: Span,
}

/// The mathematical model of a [`ParseError`].
pub struct ParseErrorModel {
    pub message: Seq<char>,
    pub span: Span,
}

impl View for ParseError {
    type V = ParseErrorModel;

    open spec fn view(&self) -> ParseErrorModel {
        ParseErrorModel { message: self.message@, span: self.span }
    }
}

impl ParseError {
    pub fn new(message: String, span: Span) -> (error: ParseError)
        ensures
            error.message == message,
            error.span == span,
    {
        ParseError { message, span }
    }
}

pub open spec fn error_at(message: Seq<char>, span: Span) -> ParseErrorModel {
    ParseErrorModel { message, span }
}

// ================
// the grammar, over token models
// ================

/// What the parser can be given: a non-empty stream that ends with `Eof`,
/// as the lexer always produces.
pub open spec fn well_terminated(t: Seq<SpecToken>) -> bool {
    t.len() > 0 && t.last().kind is Eof
}

/// The mathematical model of an expression the parser builds.
pub enum ExprModel {
    Identifier(Seq<char>, Span),
    Integer(Seq<char>, Span),
    Str(Seq<char>, Span),
    Unary(UnaryOp, Box<ExprModel>, Span),
    Binary(Box<ExprModel>, BinaryOp, Box<ExprModel>, Span),
    Splice(Box<ExprModel>, Span),
    As(Box<ExprModel>, TypeModel, Span),
    Member(Box<ExprModel>, Seq<char>, Span),
    Call(Box<ExprModel>, Seq<CallArgModel>, Span),
}

pub type OperandModel = ExprModel;

/// One argument of a call: `value` or `name = value`.
pub struct CallArgModel {
    pub name: Option<Seq<char>>,
    pub value: ExprModel,
    pub span: Span,
}

/// The mathematical model of a type expression: a dotted name, or a name
/// applied to generic arguments.
pub enum TypeModel {
    Named(Seq<Seq<char>>, Span),
    Apply(Box<TypeModel>, Seq<ArgModel>, Span),
}

/// One generic argument: a type, a constant expression, or `...`.
pub enum ArgModel {
    Type(TypeModel),
    Const(ExprModel),
    Wildcard(Span),
}

/// A `| name payload` facet: its name, the expression it carries, and
/// its span.
pub struct FacetModel {
    pub name: Seq<char>,
    pub payload: ExprModel,
    pub span: Span,
}

/// One field of a struct declaration.
pub struct FieldModel {
    pub name: Seq<char>,
    pub ty: TypeModel,
    pub is_pub: bool,
    pub is_const: bool,
    pub default: Option<ExprModel>,
    pub span: Span,
}

/// One variant of an enum declaration: its name, its payload type if it
/// carries one, and its span.
pub struct VariantModel {
    pub name: Seq<char>,
    pub payload: Option<TypeModel>,
    pub span: Span,
}

/// One declared generic parameter: `T` or `const N: Type`.
pub enum GenericModel {
    Type(Seq<char>, Span),
    Const(Seq<char>, TypeModel, Span),
}

pub enum ItemsModel {
    All,
    Names(Seq<Seq<char>>),
}

pub enum StatementModel {
    Import {
        segments: Seq<Seq<char>>,
        relative_level: nat,
        path_span: Span,
        items: ItemsModel,
        span: Span,
    },
    Label { name: Seq<char>, span: Span },
    Invocation { name: Seq<char>, operands: Seq<OperandModel>, span: Span },
    Const { name: Seq<char>, is_pub: bool, ty: Option<TypeModel>, value: ExprModel, span: Span },
    Enum { name: Seq<char>, is_pub: bool, params: Seq<GenericModel>, variants: Seq<VariantModel>, span: Span },
    Struct {
        name: Seq<char>,
        is_pub: bool,
        params: Seq<GenericModel>,
        facets: Seq<FacetModel>,
        fields: Seq<FieldModel>,
        span: Span,
    },
    TypeAlias {
        name: Seq<char>,
        is_pub: bool,
        params: Seq<GenericModel>,
        ty: TypeModel,
        facets: Seq<FacetModel>,
        span: Span,
    },
}

pub struct ProgramModel {
    pub statements: Seq<StatementModel>,
    pub span: Span,
}

/// Where `advance` leaves the cursor: one token on, except at `Eof`.
pub open spec fn advanced(t: Seq<SpecToken>, k: int) -> int {
    if t[k].kind is Eof {
        k
    } else {
        k + 1
    }
}

pub open spec fn at_statement_end_spec(t: Seq<SpecToken>, k: int) -> bool {
    t[k].kind is Newline || t[k].kind is Eof
}

pub open spec fn skip_newlines_spec(t: Seq<SpecToken>, k: int) -> int
    decreases t.len() - k,
{
    if 0 <= k < t.len() && t[k].kind is Newline {
        skip_newlines_spec(t, k + 1)
    } else {
        k
    }
}

/// A statement's end: a newline (consumed) or the end of the file (not);
/// gives the end offset and the next position.
pub open spec fn statement_end_spec(t: Seq<SpecToken>, k: int) -> Result<(usize, int), ParseErrorModel> {
    if t[k].kind is Newline {
        Ok((t[k].span.end, k + 1))
    } else if t[k].kind is Eof {
        Ok((t[k].span.end, k))
    } else {
        Err(error_at("expected end of line"@, t[k].span))
    }
}

pub open spec fn expect_identifier_spec(t: Seq<SpecToken>, k: int) -> Result<(Seq<char>, int), ParseErrorModel> {
    match t[k].kind {
        TokenKindG::Identifier(name) => Ok((name, k + 1)),
        other => Err(error_at("expected identifier, found "@ + debug_text(other), t[k].span)),
    }
}

pub open spec fn expect_simple_spec(t: Seq<SpecToken>, k: int, expected: SpecTokenKind) -> Result<int, ParseErrorModel> {
    if same_variant(t[k].kind, expected) {
        Ok(advanced(t, k))
    } else {
        Err(
            error_at(
                "expected "@ + debug_text(expected) + ", found "@ + debug_text(t[k].kind),
                t[k].span,
            ),
        )
    }
}

pub open spec fn skip_dots(t: Seq<SpecToken>, k: int) -> int
    decreases t.len() - k,
{
    if 0 <= k < t.len() && t[k].kind is Dot {
        skip_dots(t, k + 1)
    } else {
        k
    }
}

/// Further `.name` segments of a module path.
pub open spec fn more_segments(t: Seq<SpecToken>, k: int, segments: Seq<Seq<char>>) -> Result<
    (Seq<Seq<char>>, int),
    ParseErrorModel,
>
    decreases t.len() - k,
{
    if 0 <= k && k + 2 <= t.len() && t[k].kind is Dot {
        match expect_identifier_spec(t, k + 1) {
            Ok((name, _)) => more_segments(t, k + 2, segments.push(name)),
            Err(e) => Err(e),
        }
    } else {
        Ok((segments, k))
    }
}

/// A module path (segments, leading-dot count, span) and where it ends.
pub open spec fn module_path_spec(t: Seq<SpecToken>, k: int) -> Result<
    ((Seq<Seq<char>>, nat, Span), int),
    ParseErrorModel,
> {
    let d = skip_dots(t, k);
    match expect_identifier_spec(t, d) {
        Err(e) => Err(e),
        Ok((first, j)) => match more_segments(t, j, seq![first]) {
            Err(e) => Err(e),
            Ok((segments, m)) => Ok(
                (
                    (segments, (d - k) as nat, Span { start: t[k].span.start, end: t[m - 1].span.end }),
                    m,
                ),
            ),
        },
    }
}

/// Further `, name` items of an import list.
pub open spec fn more_names(t: Seq<SpecToken>, k: int, names: Seq<Seq<char>>) -> Result<
    (Seq<Seq<char>>, int),
    ParseErrorModel,
>
    decreases t.len() - k,
{
    if 0 <= k && k + 2 <= t.len() && t[k].kind is Comma {
        match expect_identifier_spec(t, k + 1) {
            Ok((name, _)) => more_names(t, k + 2, names.push(name)),
            Err(e) => Err(e),
        }
    } else {
        Ok((names, k))
    }
}

pub open spec fn import_items_spec(t: Seq<SpecToken>, k: int) -> Result<(ItemsModel, int), ParseErrorModel> {
    if t[k].kind is Star {
        Ok((ItemsModel::All, k + 1))
    } else {
        match expect_identifier_spec(t, k) {
            Err(e) => Err(e),
            Ok((first, j)) => match more_names(t, j, seq![first]) {
                Err(e) => Err(e),
                Ok((names, m)) => Ok((ItemsModel::Names(names), m)),
            },
        }
    }
}

pub open spec fn import_spec(t: Seq<SpecToken>, k: int) -> Result<(StatementModel, int), ParseErrorModel> {
    match expect_simple_spec(t, k, TokenKindG::From) {
        Err(e) => Err(e),
        Ok(k1) => match module_path_spec(t, k1) {
            Err(e) => Err(e),
            Ok(((segments, level, path_span), k2)) => match expect_simple_spec(t, k2, TokenKindG::Import) {
                Err(e) => Err(e),
                Ok(k3) => match import_items_spec(t, k3) {
                    Err(e) => Err(e),
                    Ok((items, k4)) => match statement_end_spec(t, k4) {
                        Err(e) => Err(e),
                        Ok((end, k5)) => Ok(
                            (
                                StatementModel::Import {
                                    segments,
                                    relative_level: level,
                                    path_span,
                                    items,
                                    span: Span { start: t[k].span.start, end },
                                },
                                k5,
                            ),
                        ),
                    },
                },
            },
        },
    }
}

pub open spec fn label_spec(t: Seq<SpecToken>, k: int) -> Result<(StatementModel, int), ParseErrorModel> {
    match expect_identifier_spec(t, k) {
        Err(e) => Err(e),
        Ok((name, k1)) => match expect_simple_spec(t, k1, TokenKindG::Colon) {
            Err(e) => Err(e),
            Ok(k2) => match statement_end_spec(t, k2) {
                Err(e) => Err(e),
                Ok((end, k3)) => Ok(
                    (StatementModel::Label { name, span: Span { start: t[k].span.start, end } }, k3),
                ),
            },
        },
    }
}

/// The binding powers (left, right) and operator of a binary operator
/// token; tighter operators have higher powers, and each binds its left
/// side more loosely than its right, so chains group to the left.
pub open spec fn binary_op_spec(kind: SpecTokenKind) -> Option<(u8, u8, BinaryOp)> {
    match kind {
        TokenKindG::Star => Some((80u8, 81u8, BinaryOp::Multiply)),
        TokenKindG::Slash => Some((80u8, 81u8, BinaryOp::Divide)),
        TokenKindG::Percent => Some((80u8, 81u8, BinaryOp::Remainder)),
        TokenKindG::Plus => Some((70u8, 71u8, BinaryOp::Add)),
        TokenKindG::Minus => Some((70u8, 71u8, BinaryOp::Subtract)),
        TokenKindG::ShiftLeft => Some((60u8, 61u8, BinaryOp::ShiftLeft)),
        TokenKindG::ShiftRight => Some((60u8, 61u8, BinaryOp::ShiftRight)),
        TokenKindG::Less => Some((50u8, 51u8, BinaryOp::Less)),
        TokenKindG::LessEqual => Some((50u8, 51u8, BinaryOp::LessEqual)),
        TokenKindG::Greater => Some((50u8, 51u8, BinaryOp::Greater)),
        TokenKindG::GreaterEqual => Some((50u8, 51u8, BinaryOp::GreaterEqual)),
        TokenKindG::EqualEqual => Some((40u8, 41u8, BinaryOp::Equal)),
        TokenKindG::BangEqual => Some((40u8, 41u8, BinaryOp::NotEqual)),
        TokenKindG::Ampersand => Some((30u8, 31u8, BinaryOp::BitAnd)),
        TokenKindG::Caret => Some((20u8, 21u8, BinaryOp::BitXor)),
        TokenKindG::Pipe => Some((10u8, 11u8, BinaryOp::BitOr)),
        TokenKindG::AndAnd => Some((6u8, 7u8, BinaryOp::And)),
        TokenKindG::OrOr => Some((2u8, 3u8, BinaryOp::Or)),
        _ => None,
    }
}

/// The unary operator a prefix token stands for.
pub open spec fn unary_op_spec(kind: SpecTokenKind) -> Option<UnaryOp> {
    match kind {
        TokenKindG::Minus => Some(UnaryOp::Negate),
        TokenKindG::Bang => Some(UnaryOp::Not),
        TokenKindG::Tilde => Some(UnaryOp::BitNot),
        _ => None,
    }
}

pub open spec fn model_span(e: ExprModel) -> Span {
    match e {
        ExprModel::Identifier(_, s) => s,
        ExprModel::Integer(_, s) => s,
        ExprModel::Str(_, s) => s,
        ExprModel::Unary(_, _, s) => s,
        ExprModel::Binary(_, _, _, s) => s,
        ExprModel::Splice(_, s) => s,
        ExprModel::As(_, _, s) => s,
        ExprModel::Member(_, _, s) => s,
        ExprModel::Call(_, _, s) => s,
    }
}

pub open spec fn type_span(m: TypeModel) -> Span {
    match m {
        TypeModel::Named(_, s) => s,
        TypeModel::Apply(_, _, s) => s,
    }
}

/// `e` with its outermost span replaced (a parenthesized expression spans
/// its parentheses).
pub open spec fn with_span(e: ExprModel, span: Span) -> ExprModel {
    match e {
        ExprModel::Identifier(n, _) => ExprModel::Identifier(n, span),
        ExprModel::Integer(r, _) => ExprModel::Integer(r, span),
        ExprModel::Str(v, _) => ExprModel::Str(v, span),
        ExprModel::Unary(op, inner, _) => ExprModel::Unary(op, inner, span),
        ExprModel::Binary(l, op, r, _) => ExprModel::Binary(l, op, r, span),
        ExprModel::Splice(inner, _) => ExprModel::Splice(inner, span),
        ExprModel::As(inner, ty, _) => ExprModel::As(inner, ty, span),
        ExprModel::Member(inner, name, _) => ExprModel::Member(inner, name, span),
        ExprModel::Call(callee, args, _) => ExprModel::Call(callee, args, span),
    }
}

pub open spec fn no_progress(t: Seq<SpecToken>, k: int) -> ParseErrorModel {
    error_at(Seq::empty(), t[k].span)
}

/// `>`, `>=` and `>>`: the tokens that could close a generic argument list.
pub open spec fn closing_shaped(kind: SpecTokenKind) -> bool {
    kind is Greater || kind is GreaterEqual || kind is ShiftRight
}

/// The binary operator at a token; inside a generic argument list
/// (`restricted`), closing-shaped tokens are no operators.
pub open spec fn binary_op_in(kind: SpecTokenKind, restricted: bool) -> Option<(u8, u8, BinaryOp)> {
    if restricted && closing_shaped(kind) {
        None
    } else {
        binary_op_spec(kind)
    }
}

/// A prefix expression at `k`: a name, an integer, a string, a
/// parenthesized expression, a splice `` `e` ``, or `-`, `!` or `~` applied
/// to an expression at binding power 90. Parentheses and splices lift the
/// restriction of a generic argument list.
pub open spec fn prefix_in(t: Seq<SpecToken>, k: int, restricted: bool, stop_pipe: bool) -> Result<(ExprModel, int), ParseErrorModel>
    decreases t.len() - k, 0int,
{
    if k < 0 || k + 1 >= t.len() {
        Err(error_at("expected expression, found "@ + debug_text(t[k].kind), t[k].span))
    } else {
        match t[k].kind {
            TokenKindG::Identifier(name) => Ok((ExprModel::Identifier(name, t[k].span), k + 1)),
            TokenKindG::Integer(raw) => Ok((ExprModel::Integer(raw, t[k].span), k + 1)),
            TokenKindG::String(value) => Ok((ExprModel::Str(value, t[k].span), k + 1)),
            TokenKindG::LParen => match expr_bp_in(t, k + 1, 0, false, false) {
                Err(e) => Err(e),
                Ok((inner, j)) => if k + 1 < j < t.len() {
                    match expect_simple_spec(t, j, TokenKindG::RParen) {
                        Err(e) => Err(e),
                        Ok(j2) => Ok((with_span(inner, Span { start: t[k].span.start, end: t[j].span.end }), j2)),
                    }
                } else {
                    Err(no_progress(t, k))
                },
            },
            TokenKindG::Backtick => match expr_bp_in(t, k + 1, 0, false, false) {
                Err(e) => Err(e),
                Ok((inner, j)) => if k + 1 < j < t.len() {
                    match expect_simple_spec(t, j, TokenKindG::Backtick) {
                        Err(e) => Err(e),
                        Ok(j2) => Ok(
                            (ExprModel::Splice(Box::new(inner), Span { start: t[k].span.start, end: t[j].span.end }), j2),
                        ),
                    }
                } else {
                    Err(no_progress(t, k))
                },
            },
            other => match unary_op_spec(other) {
                Some(op) => match expr_bp_in(t, k + 1, 90, restricted, stop_pipe) {
                    Err(e) => Err(e),
                    Ok((operand, j)) => Ok(
                        (
                            ExprModel::Unary(
                                op,
                                Box::new(operand),
                                Span { start: t[k].span.start, end: model_span(operand).end },
                            ),
                            j,
                        ),
                    ),
                },
                None => Err(error_at("expected expression, found "@ + debug_text(other), t[k].span)),
            },
        }
    }
}

/// An expression at `k` whose binary operators bind at least `min_bp`.
pub open spec fn expr_bp_in(t: Seq<SpecToken>, k: int, min_bp: u8, restricted: bool, stop_pipe: bool) -> Result<
    (ExprModel, int),
    ParseErrorModel,
>
    decreases t.len() - k, 1int,
{
    match prefix_in(t, k, restricted, stop_pipe) {
        Err(e) => Err(e),
        Ok((left, j)) => if k < j <= t.len() {
            expr_loop(t, j, min_bp, restricted, stop_pipe, left)
        } else {
            Err(no_progress(t, k))
        },
    }
}

/// Folds postfix `as Type` (binding power 100) and binary operators at `k`
/// onto `left` while they bind at least `min_bp`, each right side parsed
/// at the operator's right power.
pub open spec fn expr_loop(
    t: Seq<SpecToken>,
    k: int,
    min_bp: u8,
    restricted: bool,
    stop_pipe: bool,
    left: ExprModel,
) -> Result<
    (ExprModel, int),
    ParseErrorModel,
>
    decreases t.len() - k, 2int,
{
    if k < 0 || k + 1 >= t.len() {
        Ok((left, k))
    } else if stop_pipe && t[k].kind is Pipe {
        Ok((left, k))
    } else if (t[k].kind is Dot || t[k].kind is LParen || t[k].kind is As) && 100u8 < min_bp {
        Ok((left, k))
    } else if t[k].kind is Dot {
        match expect_identifier_spec(t, k + 1) {
            Err(e) => Err(e),
            Ok((member, j)) => expr_loop(
                t,
                j,
                min_bp,
                restricted,
                stop_pipe,
                ExprModel::Member(Box::new(left), member, Span { start: model_span(left).start, end: t[k + 1].span.end }),
            ),
        }
    } else if t[k].kind is LParen {
        match call_spec(t, k, restricted) {
            Err(e) => Err(e),
            Ok((args, end, j)) => if k < j <= t.len() {
                expr_loop(
                    t,
                    j,
                    min_bp,
                    restricted,
                    stop_pipe,
                    ExprModel::Call(Box::new(left), args, Span { start: model_span(left).start, end }),
                )
            } else {
                Err(no_progress(t, k))
            },
        }
    } else if t[k].kind is As {
        if 100u8 < min_bp {
            Ok((left, k))
        } else {
            match type_spec(t, k + 1) {
                Err(e) => Err(e),
                Ok((ty, j)) => if k + 1 < j <= t.len() {
                    expr_loop(
                        t,
                        j,
                        min_bp,
                        restricted,
                        stop_pipe,
                        ExprModel::As(Box::new(left), ty, Span { start: model_span(left).start, end: type_span(ty).end }),
                    )
                } else {
                    Err(no_progress(t, k))
                },
            }
        }
    } else {
        match binary_op_in(t[k].kind, restricted) {
            None => Ok((left, k)),
            Some((left_bp, right_bp, op)) => if left_bp < min_bp {
                Ok((left, k))
            } else {
                match expr_bp_in(t, k + 1, right_bp, restricted, stop_pipe) {
                    Err(e) => Err(e),
                    Ok((right, j)) => if k + 1 < j <= t.len() {
                        expr_loop(
                            t,
                            j,
                            min_bp,
                            restricted,
                            stop_pipe,
                            ExprModel::Binary(
                                Box::new(left),
                                op,
                                Box::new(right),
                                Span { start: model_span(left).start, end: model_span(right).end },
                            ),
                        )
                    } else {
                        Err(no_progress(t, k))
                    },
                }
            },
        }
    }
}

/// The arguments of a call at `k` (on its `(`): the arguments, the end of
/// the closing `)`, and the position after it. A trailing comma is allowed.
pub open spec fn call_spec(t: Seq<SpecToken>, k: int, restricted: bool) -> Result<
    (Seq<CallArgModel>, usize, int),
    ParseErrorModel,
>
    decreases t.len() - k, 0int,
{
    if k < 0 || k + 1 >= t.len() {
        Err(no_progress(t, 0))
    } else {
        let k1 = skip_newlines_spec(t, k + 1);
        proof {
            lemma_skip_newlines_bounds(t, k + 1);
        }
        let arguments = if k1 < t.len() && t[k1].kind is RParen {
            Ok((Seq::empty(), k1))
        } else {
            call_args_loop(t, k1, Seq::empty(), restricted)
        };
        match arguments {
            Err(e) => Err(e),
            Ok((args, j)) => if 0 <= j < t.len() {
                match expect_simple_spec(t, j, TokenKindG::RParen) {
                    Err(e) => Err(e),
                    Ok(j2) => Ok((args, t[j].span.end, j2)),
                }
            } else {
                Err(no_progress(t, k))
            },
        }
    }
}

/// The call arguments from `k` on, after `args`; stops before the `)`.
pub open spec fn call_args_loop(t: Seq<SpecToken>, k: int, args: Seq<CallArgModel>, restricted: bool) -> Result<
    (Seq<CallArgModel>, int),
    ParseErrorModel,
>
    decreases t.len() - k, 3int,
{
    if k < 0 || k >= t.len() {
        Err(no_progress(t, 0))
    } else {
        match call_arg_spec(t, k, restricted) {
            Err(e) => Err(e),
            Ok((arg, j)) => if k < j < t.len() {
                let j1 = skip_newlines_spec(t, j);
                proof {
                    lemma_skip_newlines_bounds(t, j);
                }
                if j1 < t.len() && t[j1].kind is Comma {
                    let j2 = skip_newlines_spec(t, j1 + 1);
                    proof {
                        lemma_skip_newlines_bounds(t, j1 + 1);
                    }
                    if j2 < t.len() && t[j2].kind is RParen {
                        Ok((args.push(arg), j2))
                    } else {
                        call_args_loop(t, j2, args.push(arg), restricted)
                    }
                } else {
                    Ok((args.push(arg), j1))
                }
            } else {
                Err(no_progress(t, k))
            },
        }
    }
}

/// One step of [`call_args_loop`] after an argument that parsed.
proof fn lemma_call_args_step(t: Seq<SpecToken>, k: int, args: Seq<CallArgModel>, restricted: bool)
    requires
        0 <= k < t.len(),
        call_arg_spec(t, k, restricted) matches Ok((_, j)) && k < j < t.len(),
    ensures
        ({
            let (arg, j) = call_arg_spec(t, k, restricted)->Ok_0;
            let j1 = skip_newlines_spec(t, j);
            let j2 = skip_newlines_spec(t, j1 + 1);
            if j1 < t.len() && t[j1].kind is Comma {
                if j2 < t.len() && t[j2].kind is RParen {
                    call_args_loop(t, k, args, restricted) == Ok::<(Seq<CallArgModel>, int), ParseErrorModel>(
                        (args.push(arg), j2),
                    )
                } else {
                    call_args_loop(t, k, args, restricted) == call_args_loop(t, j2, args.push(arg), restricted)
                }
            } else {
                call_args_loop(t, k, args, restricted) == Ok::<(Seq<CallArgModel>, int), ParseErrorModel>(
                    (args.push(arg), j1),
                )
            }
        }),
{
}

/// One call argument at `k`: `name = value` or `value`.
pub open spec fn call_arg_spec(t: Seq<SpecToken>, k: int, restricted: bool) -> Result<(CallArgModel, int), ParseErrorModel>
    decreases t.len() - k, 2int,
{
    if k < 0 || k >= t.len() {
        Err(no_progress(t, 0))
    } else {
        let named = k + 1 < t.len() && t[k].kind is Identifier && t[k + 1].kind is Equal;
        let at = if named {
            k + 2
        } else {
            k
        };
        match expr_bp_in(t, at, 0, restricted, false) {
            Err(e) => Err(e),
            Ok((value, j)) => Ok(
                (
                    CallArgModel {
                        name: if named {
                            Some(t[k].kind->Identifier_0)
                        } else {
                            None
                        },
                        value,
                        span: Span { start: t[k].span.start, end: model_span(value).end },
                    },
                    j,
                ),
            ),
        }
    }
}

/// A type at `k`: a dotted name, then generic arguments if `<` follows.
pub open spec fn type_spec(t: Seq<SpecToken>, k: int) -> Result<(TypeModel, int), ParseErrorModel>
    decreases t.len() - k, 1int,
{
    if k < 0 || k >= t.len() {
        Err(no_progress(t, 0))
    } else {
        match expect_identifier_spec(t, k) {
            Err(e) => Err(e),
            Ok((first, k1)) => match more_segments(t, k1, seq![first]) {
                Err(e) => Err(e),
                Ok((path, j)) => if k < j < t.len() {
                    let named = TypeModel::Named(path, Span { start: t[k].span.start, end: t[j - 1].span.end });
                    if t[j].kind is Less {
                        match generic_args_spec(t, j, t[k].span.start) {
                            Err(e) => Err(e),
                            Ok((args, span, j2)) => Ok((TypeModel::Apply(Box::new(named), args, span), j2)),
                        }
                    } else {
                        Ok((named, j))
                    }
                } else {
                    Err(no_progress(t, k))
                },
            },
        }
    }
}

/// A generic argument list at `k` (on its `<`): its arguments, its span
/// from `start` to the closing `>`, and the position after it.
pub open spec fn generic_args_spec(t: Seq<SpecToken>, k: int, start: usize) -> Result<
    (Seq<ArgModel>, Span, int),
    ParseErrorModel,
>
    decreases t.len() - k, 4int,
{
    if k < 0 || k + 1 >= t.len() {
        Err(no_progress(t, 0))
    } else {
        let k1 = skip_newlines_spec(t, k + 1);
        proof {
            lemma_skip_newlines_bounds(t, k + 1);
        }
        if k1 < t.len() && t[k1].kind is Greater {
            Err(error_at("generic argument list cannot be empty"@, t[k1].span))
        } else {
            args_loop(t, k1, Seq::empty(), start)
        }
    }
}

/// The generic arguments from `k` on, after `args`.
pub open spec fn args_loop(t: Seq<SpecToken>, k: int, args: Seq<ArgModel>, start: usize) -> Result<
    (Seq<ArgModel>, Span, int),
    ParseErrorModel,
>
    decreases t.len() - k, 3int,
{
    if k < 0 || k >= t.len() {
        Err(no_progress(t, 0))
    } else {
        match type_arg_spec(t, k) {
            Err(e) => Err(e),
            Ok((arg, j)) => if k < j < t.len() {
                let j1 = skip_newlines_spec(t, j);
                proof {
                    lemma_skip_newlines_bounds(t, j);
                }
                if j1 < t.len() && t[j1].kind is Comma {
                    proof {
                        lemma_skip_newlines_bounds(t, j1 + 1);
                    }
                    args_loop(t, skip_newlines_spec(t, j1 + 1), args.push(arg), start)
                } else if j1 < t.len() {
                    match expect_simple_spec(t, j1, TokenKindG::Greater) {
                        Err(e) => Err(e),
                        Ok(j2) => Ok((args.push(arg), Span { start, end: t[j1].span.end }, j2)),
                    }
                } else {
                    Err(no_progress(t, k))
                }
            } else {
                Err(no_progress(t, k))
            },
        }
    }
}

/// One generic argument at `k`, told apart by its first token: `...`, a
/// constant expression, or a type.
pub open spec fn type_arg_spec(t: Seq<SpecToken>, k: int) -> Result<(ArgModel, int), ParseErrorModel>
    decreases t.len() - k, 2int,
{
    if k < 0 || k >= t.len() {
        Err(no_progress(t, 0))
    } else {
        match t[k].kind {
            TokenKindG::Ellipsis => Ok((ArgModel::Wildcard(t[k].span), advanced(t, k))),
            TokenKindG::Integer(_) | TokenKindG::Minus | TokenKindG::LParen | TokenKindG::Bang
            | TokenKindG::Tilde => match expr_bp_in(t, k, 0, true, false) {
                Err(e) => Err(e),
                Ok((value, j)) => Ok((ArgModel::Const(value), j)),
            },
            TokenKindG::Identifier(_) => match type_spec(t, k) {
                Err(e) => Err(e),
                Ok((ty, j)) => Ok((ArgModel::Type(ty), j)),
            },
            other => Err(error_at("expected type argument, found "@ + debug_text(other), t[k].span)),
        }
    }
}

/// An expression at `k` whose binary operators bind at least `min_bp`.
pub open spec fn expr_bp_spec(t: Seq<SpecToken>, k: int, min_bp: u8) -> Result<(ExprModel, int), ParseErrorModel> {
    expr_bp_in(t, k, min_bp, false, false)
}

/// A whole expression at `k`.
pub open spec fn expr_spec(t: Seq<SpecToken>, k: int) -> Result<(OperandModel, int), ParseErrorModel> {
    expr_bp_in(t, k, 0, false, false)
}

/// Further `, operand` items of an invocation.
pub open spec fn more_operands(t: Seq<SpecToken>, k: int, operands: Seq<OperandModel>) -> Result<
    (Seq<OperandModel>, int),
    ParseErrorModel,
>
    decreases t.len() - k,
{
    if 0 <= k && k + 2 <= t.len() && t[k].kind is Comma {
        if at_statement_end_spec(t, k + 1) {
            Err(error_at("expected operand after comma"@, t[k + 1].span))
        } else {
            match expr_spec(t, k + 1) {
                Ok((operand, j)) => if k + 1 < j <= t.len() {
                    more_operands(t, j, operands.push(operand))
                } else {
                    Err(no_progress(t, k))
                },
                Err(e) => Err(e),
            }
        }
    } else {
        Ok((operands, k))
    }
}

pub open spec fn operands_spec(t: Seq<SpecToken>, k: int) -> Result<(Seq<OperandModel>, int), ParseErrorModel> {
    if at_statement_end_spec(t, k) {
        Ok((Seq::empty(), k))
    } else {
        match expr_spec(t, k) {
            Err(e) => Err(e),
            Ok((first, j)) => more_operands(t, j, seq![first]),
        }
    }
}

pub open spec fn invocation_spec(t: Seq<SpecToken>, k: int) -> Result<(StatementModel, int), ParseErrorModel> {
    match expect_identifier_spec(t, k) {
        Err(e) => Err(e),
        Ok((name, k1)) => match operands_spec(t, k1) {
            Err(e) => Err(e),
            Ok((operands, k2)) => if !at_statement_end_spec(t, k2) {
                Err(
                    error_at(
                        "unexpected token in invocation: "@ + debug_text(t[k2].kind),
                        t[k2].span,
                    ),
                )
            } else {
                match statement_end_spec(t, k2) {
                    Err(e) => Err(e),
                    Ok((end, k3)) => Ok(
                        (
                            StatementModel::Invocation {
                                name,
                                operands,
                                span: Span { start: t[k].span.start, end },
                            },
                            k3,
                        ),
                    ),
                }
            },
        },
    }
}

/// `const name (: Type)? = value`, at `k` on `const`.
pub open spec fn const_spec(t: Seq<SpecToken>, k: int, is_pub: bool) -> Result<(StatementModel, int), ParseErrorModel> {
    match expect_simple_spec(t, k, TokenKindG::Const) {
        Err(e) => Err(e),
        Ok(k1) => match expect_identifier_spec(t, k1) {
            Err(e) => Err(e),
            Ok((name, k2)) => {
                let annotation: Result<(Option<TypeModel>, int), ParseErrorModel> = if t[k2].kind is Colon {
                    match type_spec(t, k2 + 1) {
                        Err(e) => Err(e),
                        Ok((ty, j)) => Ok((Some(ty), j)),
                    }
                } else {
                    Ok((None, k2))
                };
                match annotation {
                    Err(e) => Err(e),
                    Ok((ty, k3)) => match expect_simple_spec(t, k3, TokenKindG::Equal) {
                        Err(e) => Err(e),
                        Ok(k4) => match expr_spec(t, k4) {
                            Err(e) => Err(e),
                            Ok((value, k5)) => if !at_statement_end_spec(t, k5) {
                                Err(
                                    error_at(
                                        "unexpected token after constant value: "@ + debug_text(t[k5].kind),
                                        t[k5].span,
                                    ),
                                )
                            } else {
                                match statement_end_spec(t, k5) {
                                    Err(e) => Err(e),
                                    Ok((end, k6)) => Ok(
                                        (
                                            StatementModel::Const {
                                                name,
                                                is_pub,
                                                ty,
                                                value,
                                                span: Span { start: t[k].span.start, end },
                                            },
                                            k6,
                                        ),
                                    ),
                                }
                            },
                        },
                    },
                }
            },
        },
    }
}

/// The generic parameters from `k` on, after `params`, through the
/// closing `>`.
pub open spec fn params_loop(t: Seq<SpecToken>, k: int, params: Seq<GenericModel>) -> Result<
    (Seq<GenericModel>, int),
    ParseErrorModel,
>
    decreases t.len() - k,
{
    if k < 0 || k + 1 >= t.len() {
        Err(error_at("expected generic parameter, found "@ + debug_text(t[k].kind), t[k].span))
    } else {
        let param: Result<(GenericModel, int), ParseErrorModel> = match t[k].kind {
            TokenKindG::Const => match expect_identifier_spec(t, k + 1) {
                Err(e) => Err(e),
                Ok((name, k2)) => match expect_simple_spec(t, k2, TokenKindG::Colon) {
                    Err(e) => Err(e),
                    Ok(k3) => match type_spec(t, k3) {
                        Err(e) => Err(e),
                        Ok((ty, k4)) => Ok(
                            (GenericModel::Const(name, ty, Span { start: t[k].span.start, end: type_span(ty).end }), k4),
                        ),
                    },
                },
            },
            TokenKindG::Identifier(name) => Ok((GenericModel::Type(name, t[k].span), k + 1)),
            other => Err(error_at("expected generic parameter, found "@ + debug_text(other), t[k].span)),
        };
        match param {
            Err(e) => Err(e),
            Ok((p, j)) => if k < j < t.len() {
                let j1 = skip_newlines_spec(t, j);
                proof {
                    lemma_skip_newlines_bounds(t, j);
                }
                if j1 < t.len() && t[j1].kind is Comma {
                    proof {
                        lemma_skip_newlines_bounds(t, j1 + 1);
                    }
                    params_loop(t, skip_newlines_spec(t, j1 + 1), params.push(p))
                } else if j1 < t.len() {
                    match expect_simple_spec(t, j1, TokenKindG::Greater) {
                        Err(e) => Err(e),
                        Ok(j2) => Ok((params.push(p), j2)),
                    }
                } else {
                    Err(no_progress(t, k))
                }
            } else {
                Err(no_progress(t, k))
            },
        }
    }
}

/// A declaration's optional `<...>` generic parameters at `k`.
pub open spec fn generic_params_spec(t: Seq<SpecToken>, k: int) -> Result<(Seq<GenericModel>, int), ParseErrorModel> {
    if 0 <= k && k + 1 < t.len() && t[k].kind is Less {
        let k1 = skip_newlines_spec(t, k + 1);
        if k1 < t.len() && t[k1].kind is Greater {
            Err(error_at("generic parameter list cannot be empty"@, t[k1].span))
        } else {
            params_loop(t, k1, Seq::empty())
        }
    } else {
        Ok((Seq::empty(), k))
    }
}

/// The identifiers among a call's argument values, in order.
pub open spec fn identifiers_of(args: Seq<CallArgModel>, n: int) -> Seq<Seq<char>>
    decreases n,
{
    if n <= 0 || n > args.len() {
        Seq::empty()
    } else {
        let before = identifiers_of(args, n - 1);
        match args[n - 1].value {
            ExprModel::Identifier(name, _) => before.push(name),
            _ => before,
        }
    }
}

/// The lint names a lint facet's payload selects: the identifier itself,
/// or the identifiers among a parenthesized list.
pub open spec fn payload_selectors(payload: ExprModel) -> Seq<Seq<char>> {
    match payload {
        ExprModel::Identifier(name, _) => seq![name],
        ExprModel::Call(_, args, _) => identifiers_of(args, args.len() as int),
        _ => Seq::empty(),
    }
}

/// The first of `selectors` from the `i`-th on that names no lint or lint
/// group.
pub open spec fn first_unknown(selectors: Seq<Seq<char>>, i: int) -> Option<Seq<char>>
    decreases selectors.len() - i,
{
    if i < 0 || i >= selectors.len() {
        None
    } else if lint_selection(selectors[i]) is None {
        Some(selectors[i])
    } else {
        first_unknown(selectors, i + 1)
    }
}

/// The values of a lint facet's `(a, b, ...)` list from `k` on, after
/// `args`; stops before the `)`.
pub open spec fn lint_args_loop(t: Seq<SpecToken>, k: int, args: Seq<CallArgModel>) -> Result<
    (Seq<CallArgModel>, int),
    ParseErrorModel,
>
    decreases t.len() - k,
{
    match expr_spec(t, k) {
        Err(e) => Err(e),
        Ok((value, j)) => if k < j < t.len() {
            let arg = CallArgModel { name: None, value, span: model_span(value) };
            if t[j].kind is Comma {
                lint_args_loop(t, j + 1, args.push(arg))
            } else {
                Ok((args.push(arg), j))
            }
        } else {
            Err(no_progress(t, 0))
        },
    }
}

/// A lint facet's payload at `k`: one lint name, or `(a, b, ...)`, read
/// as a call of `lints`.
pub open spec fn lint_payload_spec(t: Seq<SpecToken>, k: int) -> Result<(ExprModel, int), ParseErrorModel> {
    if 0 <= k && k + 1 < t.len() && t[k].kind is LParen {
        let arguments = if t[k + 1].kind is RParen {
            Ok((Seq::empty(), k + 1))
        } else {
            lint_args_loop(t, k + 1, Seq::empty())
        };
        match arguments {
            Err(e) => Err(e),
            Ok((args, j)) => if 0 <= j < t.len() {
                match expect_simple_spec(t, j, TokenKindG::RParen) {
                    Err(e) => Err(e),
                    Ok(j2) => Ok(
                        (
                            ExprModel::Call(
                                Box::new(ExprModel::Identifier("lints"@, t[k].span)),
                                args,
                                Span { start: t[k].span.start, end: t[j].span.end },
                            ),
                            j2,
                        ),
                    ),
                }
            } else {
                Err(no_progress(t, 0))
            },
        }
    } else {
        match expect_identifier_spec(t, k) {
            Err(e) => Err(e),
            Ok((selector, j)) => Ok((ExprModel::Identifier(selector, t[k].span), j)),
        }
    }
}

/// One facet at `k` (just past its `|`): its name (`from` or an
/// identifier), which must be registered, and its payload. A lint facet
/// must name lints or lint groups that exist; any other facet carries an
/// expression that ends before the next `|`.
pub open spec fn facet_spec(t: Seq<SpecToken>, k: int) -> Result<(FacetModel, int), ParseErrorModel> {
    if k < 0 || k + 1 >= t.len() {
        Err(error_at("expected identifier, found "@ + debug_text(t[k].kind), t[k].span))
    } else {
        let named = if t[k].kind is From {
            Ok(("from"@, k + 1))
        } else {
            expect_identifier_spec(t, k)
        };
        match named {
            Err(e) => Err(e),
            Ok((name, k1)) => match registered_shape(name) {
                None => Err(error_at("unknown facet `"@ + name + "`"@, t[k].span)),
                Some(shape) => {
                    let lint = is_lint_level_name(name);
                    let payload = if lint {
                        lint_payload_spec(t, k1)
                    } else if shape is Expr {
                        expr_bp_in(t, k1, 0, false, true)
                    } else {
                        Err(error_at("the `"@ + name + "` facet takes a pattern, which this parser does not read"@, t[k].span))
                    };
                    match payload {
                        Err(e) => Err(e),
                        Ok((value, j)) => if k < j <= t.len() {
                            let span = Span { start: t[k].span.start, end: t[j - 1].span.end };
                            if lint && payload_selectors(value).len() == 0 {
                                Err(error_at("the `"@ + name + "` facet requires one or more lint names"@, span))
                            } else if lint && first_unknown(payload_selectors(value), 0) is Some {
                                Err(
                                    error_at(
                                        "unknown lint or lint group `"@ + first_unknown(payload_selectors(value), 0)->Some_0
                                            + "`"@,
                                        span,
                                    ),
                                )
                            } else {
                                Ok((FacetModel { name, payload: value, span }, j))
                            }
                        } else {
                            Err(no_progress(t, 0))
                        },
                    }
                },
            },
        }
    }
}

/// The facets from `k` on, after `facets`: each `| facet`, where the `|`
/// may stand on a following line; the newlines before a position that
/// holds no `|` are left for the statement's end.
pub open spec fn facet_list_spec(t: Seq<SpecToken>, k: int, facets: Seq<FacetModel>) -> Result<
    (Seq<FacetModel>, int),
    ParseErrorModel,
>
    decreases t.len() - k,
{
    let k1 = skip_newlines_spec(t, k);
    if 0 <= k <= k1 && k1 + 1 < t.len() && t[k1].kind is Pipe {
        match facet_spec(t, k1 + 1) {
            Err(e) => Err(e),
            Ok((facet, j)) => if k1 + 1 < j <= t.len() {
                facet_list_spec(t, j, facets.push(facet))
            } else {
                Err(no_progress(t, 0))
            },
        }
    } else {
        Ok((facets, k))
    }
}

/// One enum variant at `k`: `Name` or `Name: Type`.
pub open spec fn variant_spec(t: Seq<SpecToken>, k: int) -> Result<(VariantModel, int), ParseErrorModel> {
    match expect_identifier_spec(t, k) {
        Err(e) => Err(e),
        Ok((name, k1)) => if 0 <= k1 < t.len() && t[k1].kind is Colon {
            match type_spec(t, k1 + 1) {
                Err(e) => Err(e),
                Ok((ty, j)) => Ok(
                    (VariantModel { name, payload: Some(ty), span: Span { start: t[k].span.start, end: type_span(ty).end } }, j),
                ),
            }
        } else {
            Ok((VariantModel { name, payload: None, span: t[k].span }, k1))
        },
    }
}

/// The variants from `k` on, after `variants`, up to the closing `}`;
/// commas separate them and may trail, newlines may stand between.
pub open spec fn variants_loop(t: Seq<SpecToken>, k: int, variants: Seq<VariantModel>) -> Result<
    (Seq<VariantModel>, int),
    ParseErrorModel,
>
    decreases t.len() - k,
{
    if k < 0 || k >= t.len() {
        Err(no_progress(t, 0))
    } else if t[k].kind is RBrace {
        Ok((variants, k))
    } else if t[k].kind is Eof {
        Err(error_at("unterminated enum declaration"@, t[k].span))
    } else {
        match variant_spec(t, k) {
            Err(e) => Err(e),
            Ok((variant, j)) => if k < j < t.len() {
                let j1 = skip_newlines_spec(t, j);
                proof {
                    lemma_skip_newlines_bounds(t, j);
                }
                if j1 < t.len() && t[j1].kind is Comma {
                    proof {
                        lemma_skip_newlines_bounds(t, j1 + 1);
                    }
                    variants_loop(t, skip_newlines_spec(t, j1 + 1), variants.push(variant))
                } else if j1 < t.len() && t[j1].kind is RBrace {
                    Ok((variants.push(variant), j1))
                } else if j1 < t.len() {
                    Err(error_at("expected ',' or '}' after enum variant"@, t[j1].span))
                } else {
                    Err(no_progress(t, 0))
                }
            } else {
                Err(no_progress(t, 0))
            },
        }
    }
}

/// `enum Name<params>? { variants }`, at `k` on `enum`; a newline right
/// after the closing `}` belongs to the declaration.
pub open spec fn enum_spec(t: Seq<SpecToken>, k: int, is_pub: bool) -> Result<(StatementModel, int), ParseErrorModel> {
    match expect_simple_spec(t, k, TokenKindG::Enum) {
        Err(e) => Err(e),
        Ok(k1) => match expect_identifier_spec(t, k1) {
            Err(e) => Err(e),
            Ok((name, k2)) => match generic_params_spec(t, k2) {
                Err(e) => Err(e),
                Ok((params, k3)) => match expect_simple_spec(t, skip_newlines_spec(t, k3), TokenKindG::LBrace) {
                    Err(e) => Err(e),
                    Ok(k4) => match variants_loop(t, skip_newlines_spec(t, k4), Seq::empty()) {
                        Err(e) => Err(e),
                        Ok((variants, j)) => match expect_simple_spec(t, j, TokenKindG::RBrace) {
                            Err(e) => Err(e),
                            Ok(j2) => Ok(
                                (
                                    StatementModel::Enum {
                                        name,
                                        is_pub,
                                        params,
                                        variants,
                                        span: Span { start: t[k].span.start, end: t[j].span.end },
                                    },
                                    if 0 <= j2 < t.len() && t[j2].kind is Newline {
                                        j2 + 1
                                    } else {
                                        j2
                                    },
                                ),
                            ),
                        },
                    },
                },
            },
        },
    }
}

/// One struct field at `k`: `pub? const? name: Type (= default)?`.
pub open spec fn field_spec(t: Seq<SpecToken>, k: int) -> Result<(FieldModel, int), ParseErrorModel> {
    if k < 0 || k + 1 >= t.len() {
        Err(no_progress(t, 0))
    } else {
        let is_pub = t[k].kind is Pub;
        let k1 = if is_pub {
            k + 1
        } else {
            k
        };
        let is_const = t[k1].kind is Const;
        let k2 = if is_const {
            k1 + 1
        } else {
            k1
        };
        match expect_identifier_spec(t, k2) {
            Err(e) => Err(e),
            Ok((name, k3)) => match expect_simple_spec(t, k3, TokenKindG::Colon) {
                Err(e) => Err(e),
                Ok(k4) => match type_spec(t, k4) {
                    Err(e) => Err(e),
                    Ok((ty, k5)) => if 0 <= k5 < t.len() && t[k5].kind is Equal {
                        match expr_spec(t, k5 + 1) {
                            Err(e) => Err(e),
                            Ok((default, k6)) => Ok(
                                (
                                    FieldModel {
                                        name,
                                        ty,
                                        is_pub,
                                        is_const,
                                        default: Some(default),
                                        span: Span { start: t[k].span.start, end: model_span(default).end },
                                    },
                                    k6,
                                ),
                            ),
                        }
                    } else {
                        Ok(
                            (
                                FieldModel {
                                    name,
                                    ty,
                                    is_pub,
                                    is_const,
                                    default: None,
                                    span: Span { start: t[k].span.start, end: type_span(ty).end },
                                },
                                k5,
                            ),
                        )
                    },
                },
            },
        }
    }
}

/// The fields from `k` on, after `fields`, up to the closing `}`; commas
/// separate them and may trail, newlines may stand between.
pub open spec fn fields_loop(t: Seq<SpecToken>, k: int, fields: Seq<FieldModel>) -> Result<
    (Seq<FieldModel>, int),
    ParseErrorModel,
>
    decreases t.len() - k,
{
    if k < 0 || k >= t.len() {
        Err(no_progress(t, 0))
    } else if t[k].kind is RBrace {
        Ok((fields, k))
    } else if t[k].kind is Eof {
        Err(error_at("unterminated struct declaration"@, t[k].span))
    } else if t[k].kind is At {
        Err(error_at("`@` items in a struct body are not supported"@, t[k].span))
    } else {
        match field_spec(t, k) {
            Err(e) => Err(e),
            Ok((field, j)) => if k < j < t.len() {
                let j1 = skip_newlines_spec(t, j);
                proof {
                    lemma_skip_newlines_bounds(t, j);
                }
                if j1 < t.len() && t[j1].kind is Comma {
                    proof {
                        lemma_skip_newlines_bounds(t, j1 + 1);
                    }
                    fields_loop(t, skip_newlines_spec(t, j1 + 1), fields.push(field))
                } else if j1 < t.len() && t[j1].kind is RBrace {
                    Ok((fields.push(field), j1))
                } else if j1 < t.len() {
                    Err(error_at("expected ',' or '}' after struct field"@, t[j1].span))
                } else {
                    Err(no_progress(t, 0))
                }
            } else {
                Err(no_progress(t, 0))
            },
        }
    }
}

/// `struct Name<params>? facets { fields }`, at `k` on `struct`; a newline
/// right after the closing `}` belongs to the declaration.
pub open spec fn struct_spec(t: Seq<SpecToken>, k: int, is_pub: bool) -> Result<(StatementModel, int), ParseErrorModel> {
    match expect_simple_spec(t, k, TokenKindG::Struct) {
        Err(e) => Err(e),
        Ok(k1) => match expect_identifier_spec(t, k1) {
            Err(e) => Err(e),
            Ok((name, k2)) => match generic_params_spec(t, k2) {
                Err(e) => Err(e),
                Ok((params, k3)) => match facet_list_spec(t, k3, Seq::empty()) {
                    Err(e) => Err(e),
                    Ok((facets, k4)) => match expect_simple_spec(t, skip_newlines_spec(t, k4), TokenKindG::LBrace) {
                        Err(e) => Err(e),
                        Ok(k5) => match fields_loop(t, skip_newlines_spec(t, k5), Seq::empty()) {
                            Err(e) => Err(e),
                            Ok((fields, j)) => match expect_simple_spec(t, j, TokenKindG::RBrace) {
                                Err(e) => Err(e),
                                Ok(j2) => Ok(
                                    (
                                        StatementModel::Struct {
                                            name,
                                            is_pub,
                                            params,
                                            facets,
                                            fields,
                                            span: Span { start: t[k].span.start, end: t[j].span.end },
                                        },
                                        if 0 <= j2 < t.len() && t[j2].kind is Newline {
                                            j2 + 1
                                        } else {
                                            j2
                                        },
                                    ),
                                ),
                            },
                        },
                    },
                },
            },
        },
    }
}

/// `type Name<params>? = Type`, at `k` on `type`.
pub open spec fn type_alias_spec(t: Seq<SpecToken>, k: int, is_pub: bool) -> Result<(StatementModel, int), ParseErrorModel> {
    match expect_simple_spec(t, k, TokenKindG::Type) {
        Err(e) => Err(e),
        Ok(k1) => match expect_identifier_spec(t, k1) {
            Err(e) => Err(e),
            Ok((name, k2)) => match generic_params_spec(t, k2) {
                Err(e) => Err(e),
                Ok((params, k3)) => match expect_simple_spec(t, k3, TokenKindG::Equal) {
                    Err(e) => Err(e),
                    Ok(k4) => match type_spec(t, k4) {
                        Err(e) => Err(e),
                        Ok((ty, k5)) => match facet_list_spec(t, k5, Seq::empty()) {
                            Err(e) => Err(e),
                            Ok((facets, k6)) => if !at_statement_end_spec(t, k6) {
                                Err(
                                    error_at(
                                        "unexpected token after type alias: "@ + debug_text(t[k6].kind),
                                        t[k6].span,
                                    ),
                                )
                            } else {
                                match statement_end_spec(t, k6) {
                                    Err(e) => Err(e),
                                    Ok((end, k7)) => Ok(
                                        (
                                            StatementModel::TypeAlias {
                                                name,
                                                is_pub,
                                                params,
                                                ty,
                                                facets,
                                                span: Span { start: t[k].span.start, end },
                                            },
                                            k7,
                                        ),
                                    ),
                                }
                            },
                        },
                    },
                },
            },
        },
    }
}

pub open spec fn statement_spec(t: Seq<SpecToken>, k: int) -> Result<(StatementModel, int), ParseErrorModel> {
    match t[k].kind {
        TokenKindG::From => import_spec(t, k),
        TokenKindG::Const => const_spec(t, k, false),
        TokenKindG::Type => type_alias_spec(t, k, false),
        TokenKindG::Enum => enum_spec(t, k, false),
        TokenKindG::Struct => struct_spec(t, k, false),
        TokenKindG::Pub => if k + 1 < t.len() && t[k + 1].kind is Const {
            const_spec(t, k + 1, true)
        } else if k + 1 < t.len() && t[k + 1].kind is Type {
            type_alias_spec(t, k + 1, true)
        } else if k + 1 < t.len() && t[k + 1].kind is Enum {
            enum_spec(t, k + 1, true)
        } else if k + 1 < t.len() && t[k + 1].kind is Struct {
            struct_spec(t, k + 1, true)
        } else {
            Err(error_at("expected declaration after `pub`, found "@ + debug_text(t[k + 1].kind), t[k + 1].span))
        },
        TokenKindG::Identifier(_) => if k + 1 < t.len() && t[k + 1].kind is Colon {
            label_spec(t, k)
        } else {
            invocation_spec(t, k)
        },
        other => Err(error_at("expected statement, found "@ + debug_text(other), t[k].span)),
    }
}

/// The statements from position `k` (just past any blank lines) to `Eof`.
pub open spec fn statements_spec(t: Seq<SpecToken>, k: int, parsed: Seq<StatementModel>) -> Result<
    (Seq<StatementModel>, int),
    ParseErrorModel,
>
    decreases t.len() - k,
{
    if k < 0 || k >= t.len() || t[k].kind is Eof {
        Ok((parsed, k))
    } else {
        match statement_spec(t, k) {
            Err(e) => Err(e),
            Ok((statement, j)) => if k < j <= t.len() {
                proof {
                    lemma_skip_newlines_bounds(t, j);
                }
                statements_spec(t, skip_newlines_spec(t, j), parsed.push(statement))
            } else {
                Err(error_at(Seq::empty(), t[k].span))
            },
        }
    }
}

/// The program a token stream spells, or the first parse error.
pub open spec fn parse_spec(t: Seq<SpecToken>) -> Result<ProgramModel, ParseErrorModel> {
    match statements_spec(t, skip_newlines_spec(t, 0), Seq::empty()) {
        Err(e) => Err(e),
        Ok((statements, k)) => Ok(
            ProgramModel { statements, span: Span { start: t[0].span.start, end: t[k].span.end } },
        ),
    }
}

pub proof fn lemma_skip_newlines_bounds(t: Seq<SpecToken>, k: int)
    requires
        0 <= k,
    ensures
        k <= skip_newlines_spec(t, k),
        k <= t.len() ==> skip_newlines_spec(t, k) <= t.len(),
    decreases t.len() - k,
{
    if 0 <= k < t.len() && t[k].kind is Newline {
        lemma_skip_newlines_bounds(t, k + 1);
    }
}

// ================
// how the syntax tree matches the models
// ================

pub open spec fn strings_model(names: Seq<String>) -> Seq<Seq<char>> {
    names.map_values(|s: String| s@)
}

/// `e` is the expression `m` models.
pub open spec fn operand_matches(e: Expr, m: OperandModel) -> bool
    decreases e, 1nat, 0nat,
{
    match (e, m) {
        (Expr::Identifier { name, span }, ExprModel::Identifier(n, s)) => name@ == n && span == s,
        (Expr::Integer { raw, span }, ExprModel::Integer(r, s)) => raw@ == r && span == s,
        (Expr::String { value, span }, ExprModel::Str(v, s)) => value@ == v && span == s,
        (Expr::Unary { op, operand, span }, ExprModel::Unary(op2, inner, s)) => op == op2 && span == s
            && operand_matches(*operand, *inner),
        (Expr::Binary { left, op, right, span }, ExprModel::Binary(l, op2, r, s)) => op == op2 && span == s
            && operand_matches(*left, *l) && operand_matches(*right, *r),
        (Expr::Splice { inner, span }, ExprModel::Splice(m2, s)) => span == s && operand_matches(*inner, *m2),
        (Expr::As { value, ty, span }, ExprModel::As(m2, tm, s)) => span == s && operand_matches(*value, *m2)
            && type_matches(ty, tm),
        (Expr::Member { object, member, span }, ExprModel::Member(m2, name, s)) => span == s
            && operand_matches(*object, *m2) && plain_name(member, name),
        (Expr::Call { callee, arguments, span }, ExprModel::Call(m2, ms, s)) => span == s
            && operand_matches(*callee, *m2) && arguments@.len() == ms.len() && call_args_match_from(arguments@, ms, 0),
        _ => false,
    }
}

/// The call arguments `args` from the `i`-th on are those `ms` models.
pub open spec fn call_args_match_from(args: Seq<CallArgument>, ms: Seq<CallArgModel>, i: nat) -> bool
    decreases args, 0nat, ms.len() - i,
{
    if i < args.len() && i < ms.len() {
        call_arg_matches(args[i as int], ms[i as int]) && call_args_match_from(args, ms, i + 1)
    } else {
        true
    }
}

/// `a` is the call argument `m` models.
pub open spec fn call_arg_matches(a: CallArgument, m: CallArgModel) -> bool
    decreases a, 0nat, 0nat,
{
    &&& a.span == m.span
    &&& match (a.name, m.name) {
        (None, None) => true,
        (Some(n), Some(n2)) => n@ == n2,
        _ => false,
    }
    &&& operand_matches(a.value, m.value)
}

/// Argument by argument agreement gives [`call_args_match_from`].
proof fn lemma_call_args_match_from(args: Seq<CallArgument>, ms: Seq<CallArgModel>, i: nat)
    requires
        args.len() == ms.len(),
        forall|j: int| 0 <= j < ms.len() ==> #[trigger] call_arg_matches(args[j], ms[j]),
    ensures
        call_args_match_from(args, ms, i),
    decreases ms.len() - i,
{
    if i < ms.len() {
        lemma_call_args_match_from(args, ms, i + 1);
        assert(call_arg_matches(args[i as int], ms[i as int]));
    }
}

/// `ty` is the type `m` models.
pub open spec fn type_matches(ty: TypeExpr, m: TypeModel) -> bool
    decreases ty, 1nat, 0nat,
{
    match (ty, m) {
        (TypeExpr::Named { path, span }, TypeModel::Named(p, s)) => strings_model(path@) == p && span == s,
        (TypeExpr::Apply { base, args, span }, TypeModel::Apply(b, ms, s)) => span == s && type_matches(*base, *b)
            && args@.len() == ms.len() && args_match_from(ty, ms, 0),
        _ => false,
    }
}

/// The generic arguments of `ty` from the `i`-th on are those `ms` models.
pub open spec fn args_match_from(ty: TypeExpr, ms: Seq<ArgModel>, i: nat) -> bool
    decreases ty, 0nat, ms.len() - i,
{
    match ty {
        TypeExpr::Apply { args, .. } => if i < args@.len() && i < ms.len() {
            arg_matches(args@[i as int], ms[i as int]) && args_match_from(ty, ms, i + 1)
        } else {
            true
        },
        _ => true,
    }
}

/// `a` is the generic argument `m` models.
pub open spec fn arg_matches(a: TypeArgument, m: ArgModel) -> bool
    decreases a, 0nat, 0nat,
{
    match (a, m) {
        (TypeArgument::Type(ty), ArgModel::Type(tm)) => type_matches(ty, tm),
        (TypeArgument::Const(e), ArgModel::Const(em)) => operand_matches(e, em),
        (TypeArgument::Wildcard(s), ArgModel::Wildcard(s2)) => s == s2,
        _ => false,
    }
}

/// Argument by argument agreement gives [`args_match_from`].
proof fn lemma_args_match_from(ty: TypeExpr, ms: Seq<ArgModel>, i: nat)
    requires
        ty matches TypeExpr::Apply { args, .. } && args@.len() == ms.len() && forall|j: int|
            0 <= j < ms.len() ==> #[trigger] arg_matches(args@[j], ms[j]),
    ensures
        args_match_from(ty, ms, i),
    decreases ms.len() - i,
{
    if i < ms.len() {
        lemma_args_match_from(ty, ms, i + 1);
        let args = ty->Apply_args;
        assert(arg_matches(args@[i as int], ms[i as int]));
    }
}

pub open spec fn optional_type_matches(ty: Option<TypeExpr>, m: Option<TypeModel>) -> bool {
    match (ty, m) {
        (None, None) => true,
        (Some(t), Some(tm)) => type_matches(t, tm),
        _ => false,
    }
}

pub open spec fn generic_matches(p: GenericParameter, m: GenericModel) -> bool {
    match (p, m) {
        (GenericParameter::Type { name, span }, GenericModel::Type(n, s)) => name@ == n && span == s,
        (GenericParameter::Const { name, ty, span }, GenericModel::Const(n, tm, s)) => name@ == n && span == s
            && type_matches(ty, tm),
        _ => false,
    }
}

/// `f` is the facet `m` models.
pub open spec fn facet_matches(f: Facet, m: FacetModel) -> bool {
    &&& f.name@ == m.name
    &&& f.span == m.span
    &&& f.payload matches FacetPayload::Expr(e) && operand_matches(e, m.payload)
}

/// `v` is the enum variant `m` models.
pub open spec fn variant_matches(v: EnumVariantDeclaration, m: VariantModel) -> bool {
    v.name@ == m.name && optional_type_matches(v.payload, m.payload) && v.span == m.span
}

/// `item` is the plain field `m` models.
pub open spec fn item_matches(item: StructBodyItem, m: FieldModel) -> bool {
    item matches StructBodyItem::Field(f) && plain_name(f.name, m.name) && type_matches(f.ty, m.ty) && f.is_pub
        == m.is_pub && f.is_const == m.is_const && f.span == m.span && match (f.default, m.default) {
        (None, None) => true,
        (Some(e), Some(em)) => operand_matches(e, em),
        _ => false,
    }
}

/// A declared name written as one plain identifier.
pub open spec fn plain_name(name: SplicedName, text: Seq<char>) -> bool {
    name@.len() == 1 && (name@[0] matches NamePart::Literal(s) && s@ == text)
}

pub open spec fn operands_match(es: Seq<Expr>, ms: Seq<OperandModel>) -> bool {
    es.len() == ms.len() && forall|i: int| 0 <= i < es.len() ==> operand_matches(#[trigger] es[i], ms[i])
}

pub open spec fn items_match(items: ImportItems, m: ItemsModel) -> bool {
    match (items, m) {
        (ImportItems::All, ItemsModel::All) => true,
        (ImportItems::Names(names), ItemsModel::Names(ns)) => strings_model(names@) == ns,
        _ => false,
    }
}

pub open spec fn statement_matches(st: Statement, m: StatementModel) -> bool {
    match (st, m) {
        (
            Statement::Import(import),
            StatementModel::Import { segments, relative_level, path_span, items, span },
        ) => strings_model(import.module.segments@) == segments && import.module.relative_level
            == relative_level && import.module.span == path_span && items_match(import.items, items)
            && import.span == span,
        (Statement::Label(label), StatementModel::Label { name, span }) => label.name@ == name
            && !label.is_pub && label.span == span,
        (Statement::Invocation(invocation), StatementModel::Invocation { name, operands, span }) =>
            invocation.name@ == name && operands_match(invocation.operands@, operands)
            && invocation.span == span,
        (Statement::Const(d), StatementModel::Const { name, is_pub, ty, value, span }) => plain_name(d.name, name)
            && d.is_pub == is_pub && optional_type_matches(d.ty, ty) && operand_matches(d.value, value)
            && d.span == span,
        (Statement::Enum(d), StatementModel::Enum { name, is_pub, params, variants, span }) => plain_name(d.name, name)
            && d.is_pub == is_pub && d.generic_params@.len() == params.len() && (forall|i: int|
            0 <= i < params.len() ==> #[trigger] generic_matches(d.generic_params@[i], params[i]))
            && d.variants@.len() == variants.len() && (forall|i: int|
            0 <= i < variants.len() ==> #[trigger] variant_matches(d.variants@[i], variants[i])) && d.span == span,
        (Statement::Struct(d), StatementModel::Struct { name, is_pub, params, facets, fields, span }) => plain_name(
            d.name,
            name,
        ) && d.is_pub == is_pub && d.generic_params@.len() == params.len() && (forall|i: int|
            0 <= i < params.len() ==> #[trigger] generic_matches(d.generic_params@[i], params[i]))
            && d.facets@.len() == facets.len() && (forall|i: int|
            0 <= i < facets.len() ==> #[trigger] facet_matches(d.facets@[i], facets[i])) && d.fields@.len()
            == fields.len() && (forall|i: int| 0 <= i < fields.len() ==> #[trigger] item_matches(d.fields@[i], fields[i]))
            && d.span == span,
        (Statement::TypeAlias(a), StatementModel::TypeAlias { name, is_pub, params, ty, facets, span }) => plain_name(
            a.name,
            name,
        ) && a.is_pub == is_pub && a.generic_params@.len() == params.len() && (forall|i: int|
            0 <= i < params.len() ==> #[trigger] generic_matches(a.generic_params@[i], params[i]))
            && a.facets@.len() == facets.len() && (forall|i: int|
            0 <= i < facets.len() ==> #[trigger] facet_matches(a.facets@[i], facets[i])) && type_matches(a.ty, ty)
            && a.span == span,
        _ => false,
    }
}

pub open spec fn program_matches(p: Program, m: ProgramModel) -> bool {
    &&& p.span == m.span
    &&& p.statements@.len() == m.statements.len()
    &&& forall|i: int|
        0 <= i < p.statements@.len() ==> statement_matches(#[trigger] p.statements@[i], m.statements[i])
}

pub open spec fn token_models(tokens: Seq<Token>) -> Seq<SpecToken> {
    tokens.map_values(|t: Token| t@)
}

// ================
// public entry point
// ================

/// Parses one file's tokens (as the lexer produces them, ending in `Eof`).
pub fn parse(tokens: Vec<Token>) -> (result: Result<Program, ParseError>)
    requires
        well_terminated(token_models(tokens@)),
    ensures
        match parse_spec(token_models(tokens@)) {
            Ok(m) => result matches Ok(p) && program_matches(p, m),
            Err(e) => result matches Err(err) && err@ == e,
        },
{
    let mut parser = Parser::new(tokens);
    parser.parse_program()
}

// ================
// parser
// ================

struct Parser {
    tokens: Vec<Token>,
    pos: usize,
}

impl Parser {
    pub closed spec fn model(&self) -> Seq<SpecToken> {
        token_models(self.tokens@)
    }

    pub closed spec fn wf(&self) -> bool {
        &&& well_terminated(token_models(self.tokens@))
        &&& self.pos < self.tokens@.len()
    }

    fn new(tokens: Vec<Token>) -> (parser: Parser)
        requires
            well_terminated(token_models(tokens@)),
        ensures
            parser.wf(),
            parser.model() == token_models(tokens@),
            parser.pos == 0,
    {
        Parser { tokens, pos: 0 }
    }

    // ===============
    // program
    // ===============

    fn parse_program(&mut self) -> (result: Result<Program, ParseError>)
        requires
            old(self).wf(),
            old(self).pos == 0,
        ensures
            match parse_spec(old(self).model()) {
                Ok(m) => result matches Ok(p) && program_matches(p, m),
                Err(e) => result matches Err(err) && err@ == e,
            },
    {
        let ghost t = self.model();
        proof {
            self.lemma_model_facts();
        }
        let start = self.current().span.start;
        let mut statements: Vec<Statement> = Vec::new();
        let ghost mut parsed: Seq<StatementModel> = Seq::empty();
        self.skip_newlines();
        while !self.at_eof()
            invariant
                self.wf(),
                self.model() == t,
                t == old(self).model(),
                start == t[0].span.start,
                statements@.len() == parsed.len(),
                forall|i: int|
                    0 <= i < statements@.len() ==> statement_matches(#[trigger] statements@[i], parsed[i]),
                statements_spec(t, skip_newlines_spec(t, 0), Seq::empty()) == statements_spec(
                    t,
                    self.pos as int,
                    parsed,
                ),
            decreases t.len() - self.pos,
        {
            let ghost k = self.pos as int;
            proof {
                self.lemma_model_facts();
            }
            let statement = match self.parse_statement() {
                Ok(statement) => statement,
                Err(error) => {
                    return Err(error);
                },
            };
            proof {
                let (m, j) = match statement_spec(t, k) {
                    Ok(r) => r,
                    Err(_) => (StatementModel::Label { name: Seq::empty(), span: t[0].span }, 0int),
                };
                parsed = parsed.push(m);
            }
            statements.push(statement);
            let ghost j = self.pos as int;
            self.skip_newlines();
            proof {
                lemma_skip_newlines_bounds(t, j);
            }
        }
        proof {
            self.lemma_model_facts();
        }
        let end = self.current().span.end;
        Ok(Program { statements, span: Span::new(start, end) })
    }

    fn parse_statement(&mut self) -> (result: Result<Statement, ParseError>)
        requires
            old(self).wf(),
        ensures
            final(self).wf(),
            final(self).model() == old(self).model(),
            match statement_spec(old(self).model(), old(self).pos as int) {
                Ok((m, j)) => result matches Ok(s) && statement_matches(s, m) && final(self).pos == j
                    && old(self).pos < j,
                Err(e) => result matches Err(err) && err@ == e,
            },
    {
        proof {
            self.lemma_model_facts();
        }
        let is_from = matches!(self.current().kind, TokenKindG::From);
        let is_identifier = matches!(self.current().kind, TokenKindG::Identifier(_));
        let is_declaration = matches!(
            self.current().kind,
            TokenKindG::Const | TokenKindG::Type | TokenKindG::Enum | TokenKindG::Struct | TokenKindG::Pub
        );
        if is_from {
            let import = self.parse_from_import()?;
            Ok(Statement::Import(import))
        } else if is_declaration {
            self.parse_declaration()
        } else if is_identifier {
            if self.check_next(&TokenKindG::Colon) {
                let label = self.parse_label()?;
                Ok(Statement::Label(label))
            } else {
                let invocation = self.parse_invocation()?;
                Ok(Statement::Invocation(invocation))
            }
        } else {
            let found = debug_kind(&self.current().kind);
            Err(ParseError::new(concat2("expected statement, found ", found.as_str()), self.current().span))
        }
    }

    /// A `const` or `type` declaration, possibly after `pub`.
    fn parse_declaration(&mut self) -> (result: Result<Statement, ParseError>)
        requires
            old(self).wf(),
            old(self).model()[old(self).pos as int].kind is Const || old(self).model()[old(self).pos as int].kind is Type
                || old(self).model()[old(self).pos as int].kind is Enum || old(self).model()[old(self).pos as int].kind is Struct
                || old(self).model()[old(self).pos as int].kind is Pub,
        ensures
            final(self).wf(),
            final(self).model() == old(self).model(),
            match statement_spec(old(self).model(), old(self).pos as int) {
                Ok((m, j)) => result matches Ok(s) && statement_matches(s, m) && final(self).pos == j
                    && old(self).pos < j,
                Err(e) => result matches Err(err) && err@ == e,
            },
    {
        proof {
            self.lemma_model_facts();
        }
        let is_pub = matches!(self.current().kind, TokenKindG::Pub);
        if is_pub {
            self.advance();
            proof {
                self.lemma_model_facts();
            }
        }
        let is_const = matches!(self.current().kind, TokenKindG::Const);
        let is_type = matches!(self.current().kind, TokenKindG::Type);
        let is_enum = matches!(self.current().kind, TokenKindG::Enum);
        let is_struct = matches!(self.current().kind, TokenKindG::Struct);
        if is_struct {
            let declaration = self.parse_struct_declaration(is_pub)?;
            Ok(Statement::Struct(declaration))
        } else if is_enum {
            let declaration = self.parse_enum_declaration(is_pub)?;
            Ok(Statement::Enum(declaration))
        } else if is_const {
            let declaration = self.parse_const_declaration(is_pub)?;
            Ok(Statement::Const(declaration))
        } else if is_type {
            let declaration = self.parse_type_alias(is_pub)?;
            Ok(Statement::TypeAlias(declaration))
        } else {
            let found = debug_kind(&self.current().kind);
            Err(ParseError::new(concat2("expected declaration after `pub`, found ", found.as_str()), self.current().span))
        }
    }

    fn parse_const_declaration(&mut self, is_pub: bool) -> (result: Result<ConstDeclaration, ParseError>)
        requires
            old(self).wf(),
        ensures
            final(self).wf(),
            final(self).model() == old(self).model(),
            match const_spec(old(self).model(), old(self).pos as int, is_pub) {
                Ok((m, j)) => result matches Ok(d) && statement_matches(Statement::Const(d), m) && final(self).pos == j
                    && old(self).pos < j,
                Err(e) => result matches Err(err) && err@ == e,
            },
    {
        proof {
            self.lemma_model_facts();
        }
        let start = self.current().span.start;
        self.expect_simple(TokenKindG::Const)?;
        let name = self.expect_identifier()?;
        let ty = if self.check(&TokenKindG::Colon) {
            self.advance();
            let ty = self.parse_type_expr()?;
            Some(ty)
        } else {
            None
        };
        self.expect_simple(TokenKindG::Equal)?;
        let value = self.parse_expr()?;
        if !self.at_statement_end() {
            proof {
                self.lemma_model_facts();
            }
            let found = debug_kind(&self.current().kind);
            return Err(
                ParseError::new(concat2("unexpected token after constant value: ", found.as_str()), self.current().span),
            );
        }
        let end = self.statement_end()?;
        let mut parts: SplicedName = Vec::new();
        parts.push(NamePart::Literal(name));
        Ok(ConstDeclaration { name: parts, is_pub, ty, value, span: Span::new(start, end) })
    }

    fn parse_type_alias(&mut self, is_pub: bool) -> (result: Result<TypeAliasDeclaration, ParseError>)
        requires
            old(self).wf(),
        ensures
            final(self).wf(),
            final(self).model() == old(self).model(),
            match type_alias_spec(old(self).model(), old(self).pos as int, is_pub) {
                Ok((m, j)) => result matches Ok(a) && statement_matches(Statement::TypeAlias(a), m) && final(self).pos
                    == j && old(self).pos < j,
                Err(e) => result matches Err(err) && err@ == e,
            },
    {
        proof {
            self.lemma_model_facts();
        }
        let start = self.current().span.start;
        self.expect_simple(TokenKindG::Type)?;
        let name = self.expect_identifier()?;
        let generic_params = self.parse_generic_params()?;
        self.expect_simple(TokenKindG::Equal)?;
        let ty = self.parse_type_expr()?;
        let facets = self.parse_facet_list()?;
        if !self.at_statement_end() {
            proof {
                self.lemma_model_facts();
            }
            let found = debug_kind(&self.current().kind);
            return Err(
                ParseError::new(concat2("unexpected token after type alias: ", found.as_str()), self.current().span),
            );
        }
        let end = self.statement_end()?;
        let mut parts: SplicedName = Vec::new();
        parts.push(NamePart::Literal(name));
        Ok(
            TypeAliasDeclaration {
                name: parts,
                is_pub,
                generic_params,
                facets,
                ty,
                span: Span::new(start, end),
            },
        )
    }

    /// The facets that follow a declaration: each `| facet`, where the `|`
    /// may stand on a following line.
    fn parse_facet_list(&mut self) -> (result: Result<Vec<Facet>, ParseError>)
        requires
            old(self).wf(),
        ensures
            final(self).wf(),
            final(self).model() == old(self).model(),
            old(self).pos <= final(self).pos,
            match facet_list_spec(old(self).model(), old(self).pos as int, Seq::empty()) {
                Ok((ms, j)) => result matches Ok(fs) && fs@.len() == ms.len() && (forall|i: int|
                    0 <= i < ms.len() ==> #[trigger] facet_matches(fs@[i], ms[i])) && final(self).pos == j,
                Err(e) => result matches Err(err) && err@ == e,
            },
    {
        let ghost t = self.model();
        let ghost k0 = self.pos as int;
        let mut facets: Vec<Facet> = Vec::new();
        let ghost mut ms: Seq<FacetModel> = Seq::empty();
        loop
            invariant
                self.wf(),
                self.model() == t,
                t == old(self).model(),
                k0 == old(self).pos,
                k0 <= self.pos,
                facets@.len() == ms.len(),
                forall|i: int| 0 <= i < ms.len() ==> #[trigger] facet_matches(facets@[i], ms[i]),
                facet_list_spec(t, k0, Seq::empty()) == facet_list_spec(t, self.pos as int, ms),
            decreases t.len() - self.pos,
        {
            proof {
                self.lemma_model_facts();
                lemma_skip_newlines_bounds(t, self.pos as int);
            }
            let ghost k = self.pos as int;
            let before = self.pos;
            self.skip_newlines();
            if !self.check(&TokenKindG::Pipe) {
                self.pos = before;
                return Ok(facets);
            }
            proof {
                self.lemma_model_facts();
            }
            self.advance();
            let ghost at = self.pos as int;
            let facet = self.parse_facet()?;
            proof {
                ms = ms.push(facet_spec(t, at)->Ok_0.0);
            }
            facets.push(facet);
        }
    }

    /// One facet, the parser just past its `|`.
    #[verifier::loop_isolation(false)]
    fn parse_facet(&mut self) -> (result: Result<Facet, ParseError>)
        requires
            old(self).wf(),
        ensures
            final(self).wf(),
            final(self).model() == old(self).model(),
            old(self).pos <= final(self).pos,
            match facet_spec(old(self).model(), old(self).pos as int) {
                Ok((m, j)) => result matches Ok(f) && facet_matches(f, m) && final(self).pos == j
                    && old(self).pos < j,
                Err(e) => result matches Err(err) && err@ == e,
            },
    {
        let ghost t = self.model();
        let ghost k = self.pos as int;
        proof {
            self.lemma_model_facts();
        }
        let name_span = self.current().span;
        if self.pos + 1 >= self.tokens.len() {
            let found = debug_kind(&self.current().kind);
            return Err(ParseError::new(concat2("expected identifier, found ", found.as_str()), name_span));
        }
        let is_from = matches!(self.current().kind, TokenKindG::From);
        let name = if is_from {
            self.advance();
            String::from_str("from")
        } else {
            self.expect_identifier()?
        };
        let shape = payload_shape(name.as_str());
        if shape.is_none() {
            return Err(ParseError::new(concat3("unknown facet `", name.as_str(), "`"), name_span));
        }
        let lint = is_lint_facet(name.as_str());
        assert(lint == is_lint_level_name(name@));
        let ghost k1 = self.pos as int;
        let payload = if lint {
            self.parse_lint_payload()?
        } else if matches!(shape, Some(PayloadShape::Expr)) {
            self.parse_expr_bp_until(0, false, true)?
        } else {
            return Err(
                ParseError::new(
                    concat3("the `", name.as_str(), "` facet takes a pattern, which this parser does not read"),
                    name_span,
                ),
            );
        };
        let ghost payload_model = if lint {
            lint_payload_spec(t, k1)->Ok_0.0
        } else {
            expr_bp_in(t, k1, 0, false, true)->Ok_0.0
        };
        proof {
            self.lemma_model_facts();
        }
        let end = self.previous().span.end;
        let span = Span::new(name_span.start, end);
        if lint {
            let names = payload_selector_names(&payload, Ghost(payload_model));
            if names.len() == 0 {
                return Err(
                    ParseError::new(concat3("the `", name.as_str(), "` facet requires one or more lint names"), span),
                );
            }
            let ghost selectors = payload_selectors(payload_model);
            let mut i: usize = 0;
            while i < names.len()
                invariant
                    strings_model(names@) == selectors,
                    0 <= i <= names@.len(),
                    first_unknown(selectors, 0) == first_unknown(selectors, i as int),
                decreases names@.len() - i,
            {
                let known = LintName::named(names[i].as_str()).is_some() || LintName::group(names[i].as_str()).is_some();
                assert(selectors[i as int] == names@[i as int]@);
                if !known {
                    return Err(
                        ParseError::new(concat3("unknown lint or lint group `", names[i].as_str(), "`"), span),
                    );
                }
                i += 1;
            }
        }
        Ok(Facet { name, payload: FacetPayload::Expr(payload), span })
    }

    /// A lint facet's payload: one lint name, or a parenthesized list read
    /// as a call of `lints`.
    fn parse_lint_payload(&mut self) -> (result: Result<Expr, ParseError>)
        requires
            old(self).wf(),
        ensures
            final(self).wf(),
            final(self).model() == old(self).model(),
            old(self).pos <= final(self).pos,
            match lint_payload_spec(old(self).model(), old(self).pos as int) {
                Ok((m, j)) => result matches Ok(e) && operand_matches(e, m) && final(self).pos == j
                    && old(self).pos < j,
                Err(e) => result matches Err(err) && err@ == e,
            },
    {
        let ghost t = self.model();
        let ghost k = self.pos as int;
        proof {
            self.lemma_model_facts();
        }
        let open = self.current().span;
        if self.check(&TokenKindG::LParen) {
            self.advance();
            let arguments = if self.check(&TokenKindG::RParen) {
                Vec::new()
            } else {
                self.parse_lint_args(Vec::new(), Ghost(Seq::empty()))?
            };
            let ghost ms = if t[k + 1].kind is RParen {
                Seq::empty()
            } else {
                lint_args_loop(t, k + 1, Seq::empty())->Ok_0.0
            };
            proof {
                self.lemma_model_facts();
                lemma_call_args_match_from(arguments@, ms, 0);
            }
            let ghost j = self.pos as int;
            let close = self.current().span;
            self.expect_simple(TokenKindG::RParen)?;
            let callee = Expr::Identifier { name: String::from_str("lints"), span: open };
            let call = Expr::Call { callee: Box::new(callee), arguments, span: Span::new(open.start, close.end) };
            assert(operand_matches(callee, ExprModel::Identifier("lints"@, t[k].span)));
            assert(lint_payload_spec(t, k) == Ok::<(ExprModel, int), ParseErrorModel>(
                (
                    ExprModel::Call(
                        Box::new(ExprModel::Identifier("lints"@, t[k].span)),
                        ms,
                        Span { start: t[k].span.start, end: t[j].span.end },
                    ),
                    self.pos as int,
                ),
            ));
            Ok(call)
        } else {
            let selector = self.expect_identifier()?;
            Ok(Expr::Identifier { name: selector, span: open })
        }
    }

    /// The values of a lint facet's list from here on, after `arguments`.
    fn parse_lint_args(
        &mut self,
        arguments: Vec<CallArgument>,
        Ghost(ms): Ghost<Seq<CallArgModel>>,
    ) -> (result: Result<Vec<CallArgument>, ParseError>)
        requires
            old(self).wf(),
            arguments@.len() == ms.len(),
            forall|i: int| 0 <= i < ms.len() ==> #[trigger] call_arg_matches(arguments@[i], ms[i]),
        ensures
            final(self).wf(),
            final(self).model() == old(self).model(),
            old(self).pos <= final(self).pos,
            match lint_args_loop(old(self).model(), old(self).pos as int, ms) {
                Ok((all, j)) => result matches Ok(args) && args@.len() == all.len() && (forall|i: int|
                    0 <= i < all.len() ==> #[trigger] call_arg_matches(args@[i], all[i])) && final(self).pos == j,
                Err(e) => result matches Err(err) && err@ == e,
            },
        decreases old(self).tokens@.len() - old(self).pos,
    {
        let ghost t = self.model();
        let ghost k = self.pos as int;
        let mut arguments = arguments;
        let value = self.parse_expr()?;
        let ghost value_model = expr_spec(t, k)->Ok_0.0;
        proof {
            self.lemma_model_facts();
            lemma_matches_span(value, value_model);
        }
        let span = value.span();
        let ghost arg_model = CallArgModel { name: None, value: value_model, span: model_span(value_model) };
        arguments.push(CallArgument { name: None, value, span });
        let ghost next = ms.push(arg_model);
        assert(forall|i: int| 0 <= i < next.len() ==> #[trigger] call_arg_matches(arguments@[i], next[i]));
        if self.check(&TokenKindG::Comma) {
            self.advance();
            self.parse_lint_args(arguments, Ghost(next))
        } else {
            Ok(arguments)
        }
    }

    fn parse_struct_declaration(&mut self, is_pub: bool) -> (result: Result<StructDeclaration, ParseError>)
        requires
            old(self).wf(),
        ensures
            final(self).wf(),
            final(self).model() == old(self).model(),
            match struct_spec(old(self).model(), old(self).pos as int, is_pub) {
                Ok((m, j)) => result matches Ok(d) && statement_matches(Statement::Struct(d), m) && final(self).pos
                    == j && old(self).pos < j,
                Err(e) => result matches Err(err) && err@ == e,
            },
    {
        proof {
            self.lemma_model_facts();
        }
        let start = self.current().span.start;
        self.expect_simple(TokenKindG::Struct)?;
        let name = self.expect_identifier()?;
        let generic_params = self.parse_generic_params()?;
        let facets = self.parse_facet_list()?;
        self.skip_newlines();
        self.expect_simple(TokenKindG::LBrace)?;
        self.skip_newlines();
        let fields = self.parse_fields(Vec::new(), Ghost(Seq::empty()))?;
        proof {
            self.lemma_model_facts();
        }
        let close = self.current().span;
        self.expect_simple(TokenKindG::RBrace)?;
        proof {
            self.lemma_model_facts();
        }
        if self.check(&TokenKindG::Newline) {
            self.advance();
        }
        let mut parts: SplicedName = Vec::new();
        parts.push(NamePart::Literal(name));
        Ok(StructDeclaration { name: parts, is_pub, generic_params, facets, fields, span: Span::new(start, close.end) })
    }

    /// The fields of a struct from here on, after `fields`, up to the
    /// closing `}`.
    fn parse_fields(
        &mut self,
        fields: Vec<StructBodyItem>,
        Ghost(ms): Ghost<Seq<FieldModel>>,
    ) -> (result: Result<Vec<StructBodyItem>, ParseError>)
        requires
            old(self).wf(),
            fields@.len() == ms.len(),
            forall|i: int| 0 <= i < ms.len() ==> #[trigger] item_matches(fields@[i], ms[i]),
        ensures
            final(self).wf(),
            final(self).model() == old(self).model(),
            old(self).pos <= final(self).pos,
            match fields_loop(old(self).model(), old(self).pos as int, ms) {
                Ok((all, j)) => result matches Ok(fs) && fs@.len() == all.len() && (forall|i: int|
                    0 <= i < all.len() ==> #[trigger] item_matches(fs@[i], all[i])) && final(self).pos == j,
                Err(e) => result matches Err(err) && err@ == e,
            },
        decreases old(self).tokens@.len() - old(self).pos,
    {
        let ghost t = self.model();
        let ghost k = self.pos as int;
        proof {
            self.lemma_model_facts();
        }
        let mut fields = fields;
        if self.check(&TokenKindG::RBrace) {
            return Ok(fields);
        }
        if self.at_eof() {
            return Err(ParseError::new(String::from_str("unterminated struct declaration"), self.current().span));
        }
        if self.check(&TokenKindG::At) {
            return Err(
                ParseError::new(String::from_str("`@` items in a struct body are not supported"), self.current().span),
            );
        }
        let field = self.parse_struct_field()?;
        let ghost field_model = field_spec(t, k)->Ok_0.0;
        fields.push(StructBodyItem::Field(field));
        let ghost next = ms.push(field_model);
        assert(forall|i: int| 0 <= i < next.len() ==> #[trigger] item_matches(fields@[i], next[i]));
        let ghost j = self.pos as int;
        proof {
            self.lemma_model_facts();
            lemma_skip_newlines_bounds(t, j);
        }
        self.skip_newlines();
        if self.check(&TokenKindG::Comma) {
            proof {
                lemma_skip_newlines_bounds(t, self.pos + 1);
            }
            self.advance();
            self.skip_newlines();
            self.parse_fields(fields, Ghost(next))
        } else if self.check(&TokenKindG::RBrace) {
            Ok(fields)
        } else {
            Err(ParseError::new(String::from_str("expected ',' or '}' after struct field"), self.current().span))
        }
    }

    fn parse_struct_field(&mut self) -> (result: Result<StructField, ParseError>)
        requires
            old(self).wf(),
            !(old(self).model()[old(self).pos as int].kind is Eof),
        ensures
            final(self).wf(),
            final(self).model() == old(self).model(),
            old(self).pos <= final(self).pos,
            match field_spec(old(self).model(), old(self).pos as int) {
                Ok((m, j)) => result matches Ok(f) && item_matches(StructBodyItem::Field(f), m) && final(self).pos == j
                    && old(self).pos < j,
                Err(e) => result matches Err(err) && err@ == e,
            },
    {
        let ghost t = self.model();
        let ghost k = self.pos as int;
        proof {
            self.lemma_model_facts();
        }
        let start = self.current().span.start;
        let is_pub = self.check(&TokenKindG::Pub);
        if is_pub {
            self.advance();
        }
        let is_const = self.check(&TokenKindG::Const);
        if is_const {
            self.advance();
        }
        let name = self.expect_identifier()?;
        self.expect_simple(TokenKindG::Colon)?;
        let ty = self.parse_type_expr()?;
        let ghost type_model = type_spec(t, self.pos as int)->Ok_0.0;
        proof {
            self.lemma_model_facts();
        }
        let mut end = ty.span().end;
        let default = if self.check(&TokenKindG::Equal) {
            self.advance();
            let default = self.parse_expr()?;
            end = default.span().end;
            Some(default)
        } else {
            None
        };
        let ghost m = field_spec(t, k)->Ok_0.0;
        proof {
            if default is Some {
                lemma_matches_span(default->Some_0, m.default->Some_0);
            } else {
                lemma_type_matches_span(ty, m.ty);
            }
        }
        let mut parts: SplicedName = Vec::new();
        parts.push(NamePart::Literal(name));
        Ok(StructField { name: parts, ty, is_pub, is_const, default, span: Span::new(start, end) })
    }

    fn parse_enum_declaration(&mut self, is_pub: bool) -> (result: Result<EnumDeclaration, ParseError>)
        requires
            old(self).wf(),
        ensures
            final(self).wf(),
            final(self).model() == old(self).model(),
            match enum_spec(old(self).model(), old(self).pos as int, is_pub) {
                Ok((m, j)) => result matches Ok(d) && statement_matches(Statement::Enum(d), m) && final(self).pos == j
                    && old(self).pos < j,
                Err(e) => result matches Err(err) && err@ == e,
            },
    {
        let ghost t = self.model();
        proof {
            self.lemma_model_facts();
        }
        let start = self.current().span.start;
        self.expect_simple(TokenKindG::Enum)?;
        let name = self.expect_identifier()?;
        let generic_params = self.parse_generic_params()?;
        self.skip_newlines();
        self.expect_simple(TokenKindG::LBrace)?;
        self.skip_newlines();
        let variants = self.parse_variants(Vec::new(), Ghost(Seq::empty()))?;
        proof {
            self.lemma_model_facts();
        }
        let close = self.current().span;
        self.expect_simple(TokenKindG::RBrace)?;
        proof {
            self.lemma_model_facts();
        }
        if self.check(&TokenKindG::Newline) {
            self.advance();
        }
        let mut parts: SplicedName = Vec::new();
        parts.push(NamePart::Literal(name));
        Ok(EnumDeclaration { name: parts, is_pub, generic_params, variants, span: Span::new(start, close.end) })
    }

    /// The variants of an enum from here on, after `variants`, up to the
    /// closing `}`.
    fn parse_variants(
        &mut self,
        variants: Vec<EnumVariantDeclaration>,
        Ghost(ms): Ghost<Seq<VariantModel>>,
    ) -> (result: Result<Vec<EnumVariantDeclaration>, ParseError>)
        requires
            old(self).wf(),
            variants@.len() == ms.len(),
            forall|i: int| 0 <= i < ms.len() ==> #[trigger] variant_matches(variants@[i], ms[i]),
        ensures
            final(self).wf(),
            final(self).model() == old(self).model(),
            old(self).pos <= final(self).pos,
            match variants_loop(old(self).model(), old(self).pos as int, ms) {
                Ok((all, j)) => result matches Ok(vs) && vs@.len() == all.len() && (forall|i: int|
                    0 <= i < all.len() ==> #[trigger] variant_matches(vs@[i], all[i])) && final(self).pos == j,
                Err(e) => result matches Err(err) && err@ == e,
            },
        decreases old(self).tokens@.len() - old(self).pos,
    {
        let ghost t = self.model();
        let ghost k = self.pos as int;
        proof {
            self.lemma_model_facts();
        }
        let mut variants = variants;
        if self.check(&TokenKindG::RBrace) {
            return Ok(variants);
        }
        if self.at_eof() {
            return Err(ParseError::new(String::from_str("unterminated enum declaration"), self.current().span));
        }
        let name_span = self.current().span;
        let name = self.expect_identifier()?;
        let payload = if self.check(&TokenKindG::Colon) {
            self.advance();
            let ty = self.parse_type_expr()?;
            Some(ty)
        } else {
            None
        };
        let span = match &payload {
            Some(ty) => Span::new(name_span.start, ty.span().end),
            None => name_span,
        };
        let ghost variant_model = variant_spec(t, k)->Ok_0.0;
        proof {
            if payload is Some {
                lemma_type_matches_span(payload->Some_0, variant_model.payload->Some_0);
            }
        }
        variants.push(EnumVariantDeclaration { name, payload, span });
        let ghost next = ms.push(variant_model);
        assert(forall|i: int| 0 <= i < next.len() ==> #[trigger] variant_matches(variants@[i], next[i]));
        let ghost j = self.pos as int;
        proof {
            self.lemma_model_facts();
            lemma_skip_newlines_bounds(t, j);
        }
        self.skip_newlines();
        if self.check(&TokenKindG::Comma) {
            proof {
                lemma_skip_newlines_bounds(t, self.pos + 1);
            }
            self.advance();
            self.skip_newlines();
            self.parse_variants(variants, Ghost(next))
        } else if self.check(&TokenKindG::RBrace) {
            Ok(variants)
        } else {
            Err(ParseError::new(String::from_str("expected ',' or '}' after enum variant"), self.current().span))
        }
    }

    /// A declaration's optional `<...>` generic parameters.
    fn parse_generic_params(&mut self) -> (result: Result<Vec<GenericParameter>, ParseError>)
        requires
            old(self).wf(),
        ensures
            final(self).wf(),
            final(self).model() == old(self).model(),
            old(self).pos <= final(self).pos,
            match generic_params_spec(old(self).model(), old(self).pos as int) {
                Ok((ms, j)) => result matches Ok(ps) && ps@.len() == ms.len() && (forall|i: int|
                    0 <= i < ms.len() ==> #[trigger] generic_matches(ps@[i], ms[i])) && final(self).pos == j,
                Err(e) => result matches Err(err) && err@ == e,
            },
    {
        let ghost t = self.model();
        let ghost k0 = self.pos as int;
        proof {
            self.lemma_model_facts();
        }
        let mut params: Vec<GenericParameter> = Vec::new();
        if !self.check(&TokenKindG::Less) {
            return Ok(params);
        }
        proof {
            lemma_skip_newlines_bounds(t, k0 + 1);
        }
        self.advance();
        self.skip_newlines();
        if self.check(&TokenKindG::Greater) {
            return Err(
                ParseError::new(String::from_str("generic parameter list cannot be empty"), self.current().span),
            );
        }
        let ghost mut ms: Seq<GenericModel> = Seq::empty();
        loop
            invariant
                self.wf(),
                self.model() == t,
                t == old(self).model(),
                k0 == old(self).pos,
                k0 < self.pos,
                params@.len() == ms.len(),
                forall|i: int| 0 <= i < ms.len() ==> #[trigger] generic_matches(params@[i], ms[i]),
                generic_params_spec(t, k0) == params_loop(t, self.pos as int, ms),
            decreases t.len() - self.pos,
        {
            proof {
                self.lemma_model_facts();
            }
            let ghost k = self.pos as int;
            let span = self.current().span;
            if self.pos + 1 >= self.tokens.len() {
                let found = debug_kind(&self.current().kind);
                return Err(ParseError::new(concat2("expected generic parameter, found ", found.as_str()), span));
            }
            let is_const = matches!(self.current().kind, TokenKindG::Const);
            let is_type = matches!(self.current().kind, TokenKindG::Identifier(_));
            let ghost mut param_model: GenericModel;
            if is_const {
                self.advance();
                let name = self.expect_identifier()?;
                self.expect_simple(TokenKindG::Colon)?;
                let ghost at_type = self.pos as int;
                let ty = self.parse_type_expr()?;
                let ghost type_model = type_spec(t, at_type)->Ok_0.0;
                let end = ty.span().end;
                proof {
                    param_model = GenericModel::Const(name@, type_model, Span { start: span.start, end });
                }
                params.push(GenericParameter::Const { name, ty, span: Span::new(span.start, end) });
            } else if is_type {
                let name = self.expect_identifier()?;
                proof {
                    param_model = GenericModel::Type(name@, span);
                }
                params.push(GenericParameter::Type { name, span });
            } else {
                let found = debug_kind(&self.current().kind);
                return Err(ParseError::new(concat2("expected generic parameter, found ", found.as_str()), span));
            }
            proof {
                ms = ms.push(param_model);
            }
            let ghost j = self.pos as int;
            proof {
                self.lemma_model_facts();
                lemma_skip_newlines_bounds(t, j);
            }
            self.skip_newlines();
            if self.check(&TokenKindG::Comma) {
                proof {
                    lemma_skip_newlines_bounds(t, self.pos + 1);
                }
                self.advance();
                self.skip_newlines();
            } else {
                self.expect_simple(TokenKindG::Greater)?;
                return Ok(params);
            }
        }
    }

    // ===============
    // imports
    // ===============

    fn parse_from_import(&mut self) -> (result: Result<ImportStatement, ParseError>)
        requires
            old(self).wf(),
        ensures
            final(self).wf(),
            final(self).model() == old(self).model(),
            old(self).pos <= final(self).pos,
            result is Ok ==> old(self).pos < final(self).pos,
            match import_spec(old(self).model(), old(self).pos as int) {
                Ok((m, j)) => result matches Ok(i) && statement_matches(Statement::Import(i), m)
                    && final(self).pos == j,
                Err(e) => result matches Err(err) && err@ == e,
            },
    {
        proof {
            self.lemma_model_facts();
        }
        let start = self.current().span.start;
        self.expect_simple(TokenKindG::From)?;
        let module = self.parse_module_path()?;
        self.expect_simple(TokenKindG::Import)?;
        let items = self.parse_import_items()?;
        let end = self.statement_end()?;
        Ok(ImportStatement { module, items, span: Span::new(start, end) })
    }

    fn parse_import_items(&mut self) -> (result: Result<ImportItems, ParseError>)
        requires
            old(self).wf(),
        ensures
            final(self).wf(),
            final(self).model() == old(self).model(),
            old(self).pos <= final(self).pos,
            match import_items_spec(old(self).model(), old(self).pos as int) {
                Ok((m, j)) => result matches Ok(items) && items_match(items, m) && final(self).pos == j,
                Err(e) => result matches Err(err) && err@ == e,
            },
    {
        let ghost t = self.model();
        let ghost k0 = self.pos as int;
        proof {
            self.lemma_model_facts();
        }
        if self.check(&TokenKindG::Star) {
            self.advance();
            return Ok(ImportItems::All);
        }
        let mut names: Vec<String> = Vec::new();
        let first = self.expect_identifier()?;
        names.push(first);
        proof {
            assert(strings_model(names@) =~= seq![first@]);
        }
        while self.check(&TokenKindG::Comma)
            invariant
                self.wf(),
                self.model() == t,
                t == old(self).model(),
                k0 == old(self).pos,
                k0 < self.pos,
                !(t[k0].kind is Star),
                expect_identifier_spec(t, k0) is Ok,
                more_names(t, k0 + 1, seq![expect_identifier_spec(t, k0)->Ok_0.0]) == more_names(
                    t,
                    self.pos as int,
                    strings_model(names@),
                ),
            decreases t.len() - self.pos,
        {
            proof {
                self.lemma_model_facts();
            }
            self.advance();
            let name = self.expect_identifier()?;
            let ghost before = names@;
            names.push(name);
            proof {
                assert(strings_model(names@) =~= strings_model(before).push(name@));
            }
        }
        Ok(ImportItems::Names(names))
    }

    fn parse_module_path(&mut self) -> (result: Result<ModulePath, ParseError>)
        requires
            old(self).wf(),
        ensures
            final(self).wf(),
            final(self).model() == old(self).model(),
            old(self).pos <= final(self).pos,
            match module_path_spec(old(self).model(), old(self).pos as int) {
                Ok(((segments, level, span), j)) => result matches Ok(p) && strings_model(p.segments@)
                    == segments && p.relative_level == level && p.span == span && final(self).pos == j,
                Err(e) => result matches Err(err) && err@ == e,
            },
    {
        let ghost t = self.model();
        let ghost k0 = self.pos as int;
        proof {
            self.lemma_model_facts();
        }
        let start = self.current().span.start;
        let mut relative_level: usize = 0;
        while self.check(&TokenKindG::Dot)
            invariant
                self.wf(),
                self.model() == t,
                t == old(self).model(),
                k0 == old(self).pos,
                0 <= k0 <= self.pos,
                relative_level == self.pos - k0,
                start == t[k0].span.start,
                skip_dots(t, k0) == skip_dots(t, self.pos as int),
            decreases t.len() - self.pos,
        {
            proof {
                self.lemma_model_facts();
            }
            relative_level += 1;
            self.advance();
        }
        let ghost d = self.pos as int;
        let mut segments: Vec<String> = Vec::new();
        let first = self.expect_identifier()?;
        segments.push(first);
        proof {
            assert(strings_model(segments@) =~= seq![first@]);
        }
        while self.check(&TokenKindG::Dot)
            invariant
                self.wf(),
                self.model() == t,
                t == old(self).model(),
                k0 == old(self).pos,
                0 <= k0 <= d < self.pos,
                d == skip_dots(t, k0),
                relative_level == d - k0,
                start == t[k0].span.start,
                expect_identifier_spec(t, d) is Ok,
                more_segments(t, d + 1, seq![expect_identifier_spec(t, d)->Ok_0.0]) == more_segments(
                    t,
                    self.pos as int,
                    strings_model(segments@),
                ),
            decreases t.len() - self.pos,
        {
            proof {
                self.lemma_model_facts();
            }
            self.advance();
            let name = self.expect_identifier()?;
            let ghost before = segments@;
            segments.push(name);
            proof {
                assert(strings_model(segments@) =~= strings_model(before).push(name@));
            }
        }
        let end = self.previous().span.end;
        Ok(ModulePath { segments, relative_level, span: Span::new(start, end) })
    }

    // =============
    // labels
    // =============

    fn parse_label(&mut self) -> (result: Result<Label, ParseError>)
        requires
            old(self).wf(),
        ensures
            final(self).wf(),
            final(self).model() == old(self).model(),
            old(self).pos <= final(self).pos,
            result is Ok ==> old(self).pos < final(self).pos,
            match label_spec(old(self).model(), old(self).pos as int) {
                Ok((m, j)) => result matches Ok(l) && statement_matches(Statement::Label(l), m)
                    && final(self).pos == j,
                Err(e) => result matches Err(err) && err@ == e,
            },
    {
        proof {
            self.lemma_model_facts();
        }
        let start = self.current().span.start;
        let name = self.expect_identifier()?;
        self.expect_simple(TokenKindG::Colon)?;
        let end = self.statement_end()?;
        Ok(Label { name, is_pub: false, span: Span::new(start, end) })
    }

    // =============
    // invocations
    // =============

    fn parse_invocation(&mut self) -> (result: Result<Invocation, ParseError>)
        requires
            old(self).wf(),
        ensures
            final(self).wf(),
            final(self).model() == old(self).model(),
            old(self).pos <= final(self).pos,
            result is Ok ==> old(self).pos < final(self).pos,
            match invocation_spec(old(self).model(), old(self).pos as int) {
                Ok((m, j)) => result matches Ok(i) && statement_matches(Statement::Invocation(i), m)
                    && final(self).pos == j,
                Err(e) => result matches Err(err) && err@ == e,
            },
    {
        proof {
            self.lemma_model_facts();
        }
        let start = self.current().span.start;
        let name = self.expect_identifier()?;
        let operands = self.parse_operands()?;
        // anything but a newline or `Eof` here means the invocation wasn't
        // consumed whole
        if !self.at_statement_end() {
            let found = debug_kind(&self.current().kind);
            return Err(
                ParseError::new(concat2("unexpected token in invocation: ", found.as_str()), self.current().span),
            );
        }
        let end = self.statement_end()?;
        Ok(Invocation { name, operands, span: Span::new(start, end) })
    }

    /// The operands of an invocation: none where the statement ends at
    /// once, else a comma-separated list.
    fn parse_operands(&mut self) -> (result: Result<Vec<Expr>, ParseError>)
        requires
            old(self).wf(),
        ensures
            final(self).wf(),
            final(self).model() == old(self).model(),
            old(self).pos <= final(self).pos,
            match operands_spec(old(self).model(), old(self).pos as int) {
                Ok((m, j)) => result matches Ok(es) && operands_match(es@, m) && final(self).pos == j,
                Err(e) => result matches Err(err) && err@ == e,
            },
    {
        let ghost t = self.model();
        let ghost k0 = self.pos as int;
        proof {
            self.lemma_model_facts();
        }
        let mut operands: Vec<Expr> = Vec::new();
        if self.at_statement_end() {
            return Ok(operands);
        }
        let first = self.parse_expr()?;
        operands.push(first);
        let ghost mut models: Seq<OperandModel> = seq![expr_spec(t, k0)->Ok_0.0];
        while self.check(&TokenKindG::Comma)
            invariant
                self.wf(),
                self.model() == t,
                t == old(self).model(),
                k0 == old(self).pos,
                k0 < self.pos,
                !at_statement_end_spec(t, k0),
                expr_spec(t, k0) is Ok,
                operands_spec(t, k0) == more_operands(t, self.pos as int, models),
                operands_match(operands@, models),
            decreases t.len() - self.pos,
        {
            proof {
                self.lemma_model_facts();
            }
            self.advance();
            if self.at_statement_end() {
                return Err(
                    ParseError::new(String::from_str("expected operand after comma"), self.current().span),
                );
            }
            let ghost k = self.pos as int;
            let operand = self.parse_expr()?;
            let ghost before_ops = operands@;
            operands.push(operand);
            proof {
                let prev = models;
                models = models.push(expr_spec(t, k)->Ok_0.0);
                assert forall|i: int| 0 <= i < operands@.len() implies operand_matches(
                    #[trigger] operands@[i],
                    models[i],
                ) by {
                    if i < prev.len() {
                        assert(operands@[i] == before_ops[i]);
                    }
                }
            }
        }
        Ok(operands)
    }

    // =============
    // expressions
    // =============

    fn parse_expr(&mut self) -> (result: Result<Expr, ParseError>)
        requires
            old(self).wf(),
        ensures
            final(self).wf(),
            final(self).model() == old(self).model(),
            old(self).pos <= final(self).pos,
            match expr_spec(old(self).model(), old(self).pos as int) {
                Ok((m, j)) => result matches Ok(e) && operand_matches(e, m) && final(self).pos == j
                    && old(self).pos < j,
                Err(e) => result matches Err(err) && err@ == e,
            },
    {
        self.parse_expr_bp(0)
    }

    /// An expression whose binary operators bind at least `min_bp`.
    fn parse_expr_bp(&mut self, min_bp: u8) -> (result: Result<Expr, ParseError>)
        requires
            old(self).wf(),
        ensures
            final(self).wf(),
            final(self).model() == old(self).model(),
            old(self).pos <= final(self).pos,
            match expr_bp_spec(old(self).model(), old(self).pos as int, min_bp) {
                Ok((m, j)) => result matches Ok(e) && operand_matches(e, m) && final(self).pos == j
                    && old(self).pos < j,
                Err(e) => result matches Err(err) && err@ == e,
            },
    {
        self.parse_expr_bp_until(min_bp, false, false)
    }

    /// An expression whose operators bind at least `min_bp`; inside a
    /// generic argument list (`restricted`) it ends before `>`, `>=` or
    /// `>>`, which close the list there, and as a facet's payload
    /// (`stop_pipe`) it ends before the `|` of the next facet.
    fn parse_expr_bp_until(&mut self, min_bp: u8, restricted: bool, stop_pipe: bool) -> (result: Result<
        Expr,
        ParseError,
    >)
        requires
            old(self).wf(),
        ensures
            final(self).wf(),
            final(self).model() == old(self).model(),
            old(self).pos <= final(self).pos,
            match expr_bp_in(old(self).model(), old(self).pos as int, min_bp, restricted, stop_pipe) {
                Ok((m, j)) => result matches Ok(e) && operand_matches(e, m) && final(self).pos == j
                    && old(self).pos < j,
                Err(e) => result matches Err(err) && err@ == e,
            },
        decreases old(self).tokens@.len() - old(self).pos, 1int,
    {
        let ghost t = self.model();
        let ghost k0 = self.pos as int;
        proof {
            self.lemma_model_facts();
        }
        let mut left = self.parse_prefix_expr(restricted, stop_pipe)?;
        let ghost mut left_model = prefix_in(t, k0, restricted, stop_pipe)->Ok_0.0;
        loop
            invariant
                self.wf(),
                self.model() == t,
                t == old(self).model(),
                k0 == old(self).pos,
                k0 < self.pos,
                operand_matches(left, left_model),
                expr_bp_in(t, k0, min_bp, restricted, stop_pipe) == expr_loop(
                    t,
                    self.pos as int,
                    min_bp,
                    restricted,
                    stop_pipe,
                    left_model,
                ),
            decreases t.len() - self.pos,
        {
            proof {
                self.lemma_model_facts();
            }
            let ghost k = self.pos as int;
            if self.pos + 1 >= self.tokens.len() {
                return Ok(left);
            }
            if stop_pipe && matches!(self.current().kind, TokenKindG::Pipe) {
                return Ok(left);
            }
            let is_member = matches!(self.current().kind, TokenKindG::Dot);
            let is_call = matches!(self.current().kind, TokenKindG::LParen);
            let is_as = matches!(self.current().kind, TokenKindG::As);
            if (is_member || is_call || is_as) && 100u8 < min_bp {
                return Ok(left);
            }
            if is_member {
                self.advance();
                proof {
                    self.lemma_model_facts();
                }
                let member_end = self.current().span.end;
                let member = self.expect_identifier()?;
                let span = Span::new(left.span().start, member_end);
                proof {
                    lemma_matches_span(left, left_model);
                    left_model = ExprModel::Member(Box::new(left_model), member@, span);
                }
                let mut parts: SplicedName = Vec::new();
                parts.push(NamePart::Literal(member));
                left = Expr::Member { object: Box::new(left), member: parts, span };
            } else if is_call {
                let (arguments, end) = self.finish_call(restricted)?;
                let ghost ms = call_spec(t, k, restricted)->Ok_0.0;
                let span = Span::new(left.span().start, end);
                proof {
                    lemma_matches_span(left, left_model);
                    lemma_call_args_match_from(arguments@, ms, 0);
                    left_model = ExprModel::Call(Box::new(left_model), ms, span);
                }
                left = Expr::Call { callee: Box::new(left), arguments, span };
            } else if is_as {
                self.advance();
                let ty = self.parse_type_expr()?;
                let ghost type_model = type_spec(t, k + 1)->Ok_0.0;
                let span = Span::new(left.span().start, ty.span().end);
                proof {
                    lemma_matches_span(left, left_model);
                    lemma_type_matches_span(ty, type_model);
                    left_model = ExprModel::As(Box::new(left_model), type_model, span);
                }
                left = Expr::As { value: Box::new(left), ty, span };
            } else {
                let found = binary_operator(&self.current().kind, restricted);
                match found {
                    None => {
                        return Ok(left);
                    },
                    Some((left_bp, right_bp, op)) => {
                        if left_bp < min_bp {
                            return Ok(left);
                        }
                        self.advance();
                        let right = self.parse_expr_bp_until(right_bp, restricted, stop_pipe)?;
                        let ghost right_model = expr_bp_in(t, k + 1, right_bp, restricted, stop_pipe)->Ok_0.0;
                        let span = Span::new(left.span().start, right.span().end);
                        proof {
                            lemma_matches_span(left, left_model);
                            lemma_matches_span(right, right_model);
                            left_model = ExprModel::Binary(Box::new(left_model), op, Box::new(right_model), span);
                        }
                        left = Expr::Binary { left: Box::new(left), op, right: Box::new(right), span };
                    },
                }
            }
        }
    }

    /// A prefix expression: a name, an integer, a string, a parenthesized
    /// expression, a splice, or a unary operator applied to an expression.
    fn parse_prefix_expr(&mut self, restricted: bool, stop_pipe: bool) -> (result: Result<Expr, ParseError>)
        requires
            old(self).wf(),
        ensures
            final(self).wf(),
            final(self).model() == old(self).model(),
            old(self).pos <= final(self).pos,
            match prefix_in(old(self).model(), old(self).pos as int, restricted, stop_pipe) {
                Ok((m, j)) => result matches Ok(e) && operand_matches(e, m) && final(self).pos == j
                    && old(self).pos < j,
                Err(e) => result matches Err(err) && err@ == e,
            },
        decreases old(self).tokens@.len() - old(self).pos, 0int,
    {
        let ghost t = self.model();
        let ghost k = self.pos as int;
        proof {
            self.lemma_model_facts();
        }
        let span = self.current().span;
        if self.pos + 1 >= self.tokens.len() {
            let found = debug_kind(&self.current().kind);
            return Err(ParseError::new(concat2("expected expression, found ", found.as_str()), span));
        }
        match &self.current().kind {
            TokenKindG::Identifier(name) => {
                let name = name.clone();
                self.advance();
                Ok(Expr::Identifier { name, span })
            },
            TokenKindG::Integer(raw) => {
                let raw = raw.clone();
                self.advance();
                Ok(Expr::Integer { raw, span })
            },
            TokenKindG::String(value) => {
                let value = value.clone();
                self.advance();
                Ok(Expr::String { value, span })
            },
            TokenKindG::LParen => {
                self.advance();
                let inner = self.parse_expr_bp_until(0, false, false)?;
                proof {
                    self.lemma_model_facts();
                }
                let close = self.current().span;
                self.expect_simple(TokenKindG::RParen)?;
                Ok(with_expr_span(inner, Span::new(span.start, close.end)))
            },
            TokenKindG::Backtick => {
                self.advance();
                let inner = self.parse_expr_bp_until(0, false, false)?;
                proof {
                    self.lemma_model_facts();
                }
                let close = self.current().span;
                self.expect_simple(TokenKindG::Backtick)?;
                Ok(Expr::Splice { inner: Box::new(inner), span: Span::new(span.start, close.end) })
            },
            other => match unary_op(other) {
                Some(op) => {
                    self.advance();
                    let operand = self.parse_expr_bp_until(90, restricted, stop_pipe)?;
                    let ghost operand_model = expr_bp_in(t, k + 1, 90, restricted, stop_pipe)->Ok_0.0;
                    proof {
                        lemma_matches_span(operand, operand_model);
                    }
                    let end = operand.span().end;
                    Ok(Expr::Unary { op, operand: Box::new(operand), span: Span::new(span.start, end) })
                },
                None => {
                    let found = debug_kind(other);
                    Err(ParseError::new(concat2("expected expression, found ", found.as_str()), span))
                },
            },
        }
    }

    /// The arguments of a call, the parser on its `(`; gives them and the
    /// end of the closing `)`.
    fn finish_call(&mut self, restricted: bool) -> (result: Result<(Vec<CallArgument>, usize), ParseError>)
        requires
            old(self).wf(),
            old(self).model()[old(self).pos as int].kind is LParen,
        ensures
            final(self).wf(),
            final(self).model() == old(self).model(),
            old(self).pos <= final(self).pos,
            match call_spec(old(self).model(), old(self).pos as int, restricted) {
                Ok((ms, end, j)) => result matches Ok((args, e)) && args@.len() == ms.len() && (forall|i: int|
                    0 <= i < ms.len() ==> #[trigger] call_arg_matches(args@[i], ms[i])) && e == end
                    && final(self).pos == j && old(self).pos < j,
                Err(e) => result matches Err(err) && err@ == e,
            },
        decreases old(self).tokens@.len() - old(self).pos, 0int,
    {
        let ghost t = self.model();
        let ghost k0 = self.pos as int;
        proof {
            self.lemma_model_facts();
            lemma_skip_newlines_bounds(t, k0 + 1);
        }
        self.advance();
        self.skip_newlines();
        let arguments = if self.check(&TokenKindG::RParen) {
            Vec::new()
        } else {
            self.parse_call_args(Vec::new(), Ghost(Seq::empty()), restricted)?
        };
        proof {
            self.lemma_model_facts();
        }
        let close_end = self.current().span.end;
        self.expect_simple(TokenKindG::RParen)?;
        Ok((arguments, close_end))
    }

    /// The call arguments from here on, after `arguments`; stops before
    /// the `)`, past a trailing comma.
    #[verifier::spinoff_prover]
    #[verifier::rlimit(80)]
    fn parse_call_args(
        &mut self,
        arguments: Vec<CallArgument>,
        Ghost(ms): Ghost<Seq<CallArgModel>>,
        restricted: bool,
    ) -> (result: Result<Vec<CallArgument>, ParseError>)
        requires
            old(self).wf(),
            arguments@.len() == ms.len(),
            forall|i: int| 0 <= i < ms.len() ==> #[trigger] call_arg_matches(arguments@[i], ms[i]),
        ensures
            final(self).wf(),
            final(self).model() == old(self).model(),
            old(self).pos <= final(self).pos,
            match call_args_loop(old(self).model(), old(self).pos as int, ms, restricted) {
                Ok((all, j)) => result matches Ok(args) && args@.len() == all.len() && (forall|i: int|
                    0 <= i < all.len() ==> #[trigger] call_arg_matches(args@[i], all[i])) && final(self).pos == j,
                Err(e) => result matches Err(err) && err@ == e,
            },
        decreases old(self).tokens@.len() - old(self).pos, 3int,
    {
        let ghost t = self.model();
        let ghost k = self.pos as int;
        proof {
            self.lemma_model_facts();
        }
        let mut arguments = arguments;
        let argument = self.parse_call_argument(restricted)?;
        let ghost arg_model = call_arg_spec(t, k, restricted)->Ok_0.0;
        proof {
            self.lemma_model_facts();
            lemma_skip_newlines_bounds(t, self.pos as int);
            lemma_call_args_step(t, k, ms, restricted);
        }
        arguments.push(argument);
        let ghost next = ms.push(arg_model);
        assert(forall|i: int| 0 <= i < next.len() ==> #[trigger] call_arg_matches(arguments@[i], next[i]));
        self.skip_newlines();
        if self.check(&TokenKindG::Comma) {
            proof {
                lemma_skip_newlines_bounds(t, self.pos + 1);
            }
            self.advance();
            self.skip_newlines();
            if self.check(&TokenKindG::RParen) {
                Ok(arguments)
            } else {
                self.parse_call_args(arguments, Ghost(next), restricted)
            }
        } else {
            Ok(arguments)
        }
    }

    /// One call argument: `name = value` or `value`.
    fn parse_call_argument(&mut self, restricted: bool) -> (result: Result<CallArgument, ParseError>)
        requires
            old(self).wf(),
        ensures
            final(self).wf(),
            final(self).model() == old(self).model(),
            old(self).pos <= final(self).pos,
            match call_arg_spec(old(self).model(), old(self).pos as int, restricted) {
                Ok((m, j)) => result matches Ok(a) && call_arg_matches(a, m) && final(self).pos == j
                    && old(self).pos < j,
                Err(e) => result matches Err(err) && err@ == e,
            },
        decreases old(self).tokens@.len() - old(self).pos, 2int,
    {
        proof {
            self.lemma_model_facts();
        }
        let start = self.current().span.start;
        let named = matches!(self.current().kind, TokenKindG::Identifier(_)) && self.check_next(&TokenKindG::Equal);
        let name = if named {
            let name = self.expect_identifier()?;
            self.expect_simple(TokenKindG::Equal)?;
            Some(name)
        } else {
            None
        };
        let value = self.parse_expr_bp_until(0, restricted, false)?;
        let end = value.span().end;
        let ghost value_model = expr_bp_in(self.model(), if named { old(self).pos + 2 } else { old(self).pos as int }, 0, restricted, false)->Ok_0.0;
        proof {
            lemma_matches_span(value, value_model);
        }
        Ok(CallArgument { name, value, span: Span::new(start, end) })
    }

    // =============
    // types
    // =============

    /// A type: a dotted name, then generic arguments if `<` follows.
    fn parse_type_expr(&mut self) -> (result: Result<TypeExpr, ParseError>)
        requires
            old(self).wf(),
        ensures
            final(self).wf(),
            final(self).model() == old(self).model(),
            old(self).pos <= final(self).pos,
            match type_spec(old(self).model(), old(self).pos as int) {
                Ok((m, j)) => result matches Ok(ty) && type_matches(ty, m) && final(self).pos == j
                    && old(self).pos < j,
                Err(e) => result matches Err(err) && err@ == e,
            },
        decreases old(self).tokens@.len() - old(self).pos, 1int,
    {
        let ghost t = self.model();
        let ghost k0 = self.pos as int;
        proof {
            self.lemma_model_facts();
        }
        let start = self.current().span.start;
        let first = self.expect_identifier()?;
        let mut path: Vec<String> = Vec::new();
        path.push(first);
        proof {
            assert(strings_model(path@) =~= seq![first@]);
        }
        while self.check(&TokenKindG::Dot)
            invariant
                self.wf(),
                self.model() == t,
                t == old(self).model(),
                k0 == old(self).pos,
                0 <= k0 < self.pos,
                start == t[k0].span.start,
                expect_identifier_spec(t, k0) is Ok,
                more_segments(t, k0 + 1, seq![expect_identifier_spec(t, k0)->Ok_0.0]) == more_segments(
                    t,
                    self.pos as int,
                    strings_model(path@),
                ),
            decreases t.len() - self.pos,
        {
            proof {
                self.lemma_model_facts();
            }
            self.advance();
            let name = self.expect_identifier()?;
            let ghost before = path@;
            path.push(name);
            proof {
                assert(strings_model(path@) =~= strings_model(before).push(name@));
            }
        }
        proof {
            self.lemma_model_facts();
        }
        let named_end = self.previous().span.end;
        let ghost named_model = TypeModel::Named(strings_model(path@), Span { start, end: named_end });
        let named = TypeExpr::Named { path, span: Span::new(start, named_end) };
        assert(type_matches(named, named_model));
        if self.check(&TokenKindG::Less) {
            let ghost j = self.pos as int;
            let (args, span) = self.parse_generic_args(start)?;
            let ghost ms = generic_args_spec(t, j, start)->Ok_0.0;
            let ty = TypeExpr::Apply { base: Box::new(named), args, span };
            proof {
                lemma_args_match_from(ty, ms, 0);
            }
            assert(type_matches(ty, TypeModel::Apply(Box::new(named_model), ms, span)));
            Ok(ty)
        } else {
            Ok(named)
        }
    }

    /// A `<Arg, Arg, ...>` list, the parser on its `<`; its span runs from
    /// `start` to the closing `>`.
    fn parse_generic_args(&mut self, start: usize) -> (result: Result<(Vec<TypeArgument>, Span), ParseError>)
        requires
            old(self).wf(),
            old(self).model()[old(self).pos as int].kind is Less,
        ensures
            final(self).wf(),
            final(self).model() == old(self).model(),
            old(self).pos <= final(self).pos,
            match generic_args_spec(old(self).model(), old(self).pos as int, start) {
                Ok((ms, span, j)) => result matches Ok((args, s)) && args@.len() == ms.len() && (forall|i: int|
                    0 <= i < ms.len() ==> #[trigger] arg_matches(args@[i], ms[i])) && s == span
                    && final(self).pos == j && old(self).pos < j,
                Err(e) => result matches Err(err) && err@ == e,
            },
        decreases old(self).tokens@.len() - old(self).pos, 4int,
    {
        let ghost t = self.model();
        let ghost k0 = self.pos as int;
        proof {
            self.lemma_model_facts();
            lemma_skip_newlines_bounds(t, k0 + 1);
        }
        self.advance();
        self.skip_newlines();
        if self.check(&TokenKindG::Greater) {
            return Err(
                ParseError::new(String::from_str("generic argument list cannot be empty"), self.current().span),
            );
        }
        let mut args: Vec<TypeArgument> = Vec::new();
        let ghost mut ms: Seq<ArgModel> = Seq::empty();
        loop
            invariant
                self.wf(),
                self.model() == t,
                t == old(self).model(),
                k0 == old(self).pos,
                k0 < self.pos,
                args@.len() == ms.len(),
                forall|i: int| 0 <= i < ms.len() ==> #[trigger] arg_matches(args@[i], ms[i]),
                generic_args_spec(t, k0, start) == args_loop(t, self.pos as int, ms, start),
            decreases t.len() - self.pos,
        {
            proof {
                self.lemma_model_facts();
            }
            let ghost k = self.pos as int;
            let arg = self.parse_type_argument()?;
            let ghost arg_model = type_arg_spec(t, k)->Ok_0.0;
            let ghost j = self.pos as int;
            proof {
                self.lemma_model_facts();
                lemma_skip_newlines_bounds(t, j);
            }
            args.push(arg);
            proof {
                ms = ms.push(arg_model);
            }
            self.skip_newlines();
            if self.check(&TokenKindG::Comma) {
                proof {
                    lemma_skip_newlines_bounds(t, self.pos + 1);
                }
                self.advance();
                self.skip_newlines();
            } else {
                proof {
                    self.lemma_model_facts();
                }
                let close = self.current().span;
                self.expect_simple(TokenKindG::Greater)?;
                return Ok((args, Span::new(start, close.end)));
            }
        }
    }

    /// One generic argument: `...`, a constant expression (told by its first
    /// token), or a type.
    fn parse_type_argument(&mut self) -> (result: Result<TypeArgument, ParseError>)
        requires
            old(self).wf(),
        ensures
            final(self).wf(),
            final(self).model() == old(self).model(),
            old(self).pos <= final(self).pos,
            match type_arg_spec(old(self).model(), old(self).pos as int) {
                Ok((m, j)) => result matches Ok(a) && arg_matches(a, m) && final(self).pos == j
                    && old(self).pos < j,
                Err(e) => result matches Err(err) && err@ == e,
            },
        decreases old(self).tokens@.len() - old(self).pos, 2int,
    {
        proof {
            self.lemma_model_facts();
        }
        let span = self.current().span;
        let is_wildcard = matches!(self.current().kind, TokenKindG::Ellipsis);
        let is_const = matches!(
            self.current().kind,
            TokenKindG::Integer(_) | TokenKindG::Minus | TokenKindG::LParen | TokenKindG::Bang | TokenKindG::Tilde
        );
        let is_type = matches!(self.current().kind, TokenKindG::Identifier(_));
        if is_wildcard {
            self.advance();
            Ok(TypeArgument::Wildcard(span))
        } else if is_const {
            let value = self.parse_expr_bp_until(0, true, false)?;
            Ok(TypeArgument::Const(value))
        } else if is_type {
            let ty = self.parse_type_expr()?;
            Ok(TypeArgument::Type(ty))
        } else {
            let found = debug_kind(&self.current().kind);
            Err(ParseError::new(concat2("expected type argument, found ", found.as_str()), span))
        }
    }

    // =============
    // statement end
    // =============

    fn at_statement_end(&self) -> (end: bool)
        requires
            self.wf(),
        ensures
            end == at_statement_end_spec(self.model(), self.pos as int),
    {
        proof {
            self.lemma_model_facts();
        }
        matches!(self.current().kind, TokenKindG::Newline | TokenKindG::Eof)
    }

    /// Consumes a newline if present and returns the statement's ending
    /// byte offset; the end of the file also ends a statement.
    fn statement_end(&mut self) -> (result: Result<usize, ParseError>)
        requires
            old(self).wf(),
        ensures
            final(self).wf(),
            final(self).model() == old(self).model(),
            old(self).pos <= final(self).pos,
            match statement_end_spec(old(self).model(), old(self).pos as int) {
                Ok((end, j)) => result == Ok::<usize, ParseError>(end) && final(self).pos == j,
                Err(e) => result matches Err(err) && err@ == e,
            },
    {
        proof {
            self.lemma_model_facts();
        }
        if matches!(self.current().kind, TokenKindG::Newline) {
            let end = self.current().span.end;
            self.advance();
            Ok(end)
        } else if matches!(self.current().kind, TokenKindG::Eof) {
            Ok(self.current().span.end)
        } else {
            Err(ParseError::new(String::from_str("expected end of line"), self.current().span))
        }
    }

    fn skip_newlines(&mut self)
        requires
            old(self).wf(),
        ensures
            final(self).wf(),
            final(self).model() == old(self).model(),
            old(self).pos <= final(self).pos,
            final(self).pos == skip_newlines_spec(old(self).model(), old(self).pos as int),
    {
        let ghost t = self.model();
        let ghost k0 = self.pos as int;
        while self.check(&TokenKindG::Newline)
            invariant
                self.wf(),
                self.model() == t,
                t == old(self).model(),
                k0 == old(self).pos,
                k0 <= self.pos,
                skip_newlines_spec(t, k0) == skip_newlines_spec(t, self.pos as int),
            decreases t.len() - self.pos,
        {
            proof {
                self.lemma_model_facts();
            }
            self.advance();
        }
        proof {
            self.lemma_model_facts();
        }
    }

    // =============
    // expectations
    // =============

    fn expect_identifier(&mut self) -> (result: Result<String, ParseError>)
        requires
            old(self).wf(),
        ensures
            final(self).wf(),
            final(self).model() == old(self).model(),
            old(self).pos <= final(self).pos,
            match expect_identifier_spec(old(self).model(), old(self).pos as int) {
                Ok((name, j)) => result matches Ok(n) && n@ == name && final(self).pos == j,
                Err(e) => result matches Err(err) && err@ == e,
            },
    {
        proof {
            self.lemma_model_facts();
        }
        let span = self.current().span;
        match &self.current().kind {
            TokenKindG::Identifier(name) => {
                let name = name.clone();
                self.advance();
                Ok(name)
            },
            other => {
                let found = debug_kind(other);
                Err(ParseError::new(concat2("expected identifier, found ", found.as_str()), span))
            },
        }
    }

    fn expect_simple(&mut self, expected: TokenKind) -> (result: Result<(), ParseError>)
        requires
            old(self).wf(),
        ensures
            final(self).wf(),
            final(self).model() == old(self).model(),
            old(self).pos <= final(self).pos,
            match expect_simple_spec(old(self).model(), old(self).pos as int, expected@) {
                Ok(j) => result is Ok && final(self).pos == j,
                Err(e) => result matches Err(err) && err@ == e,
            },
    {
        proof {
            self.lemma_model_facts();
        }
        if self.check(&expected) {
            self.advance();
            Ok(())
        } else {
            let wanted = debug_kind(&expected);
            let found = debug_kind(&self.current().kind);
            let mut message = concat3("expected ", wanted.as_str(), ", found ");
            message.append(found.as_str());
            Err(ParseError::new(message, self.current().span))
        }
    }

    // =============
    // token navigation
    // =============

    fn current(&self) -> (token: &Token)
        requires
            self.wf(),
        ensures
            token@ == self.model()[self.pos as int],
    {
        proof {
            self.lemma_model_facts();
        }
        &self.tokens[self.pos]
    }

    fn previous(&self) -> (token: &Token)
        requires
            self.wf(),
            self.pos > 0,
        ensures
            token@ == self.model()[self.pos - 1],
    {
        proof {
            self.lemma_model_facts();
        }
        &self.tokens[self.pos - 1]
    }

    /// Moves past the current token, staying put at `Eof`.
    fn advance(&mut self)
        requires
            old(self).wf(),
        ensures
            final(self).wf(),
            final(self).model() == old(self).model(),
            old(self).pos <= final(self).pos,
            final(self).pos == advanced(old(self).model(), old(self).pos as int),
    {
        proof {
            self.lemma_model_facts();
        }
        if !self.at_eof() {
            self.pos += 1;
        }
    }

    fn at_eof(&self) -> (eof: bool)
        requires
            self.wf(),
        ensures
            eof == (self.model()[self.pos as int].kind is Eof),
    {
        matches!(self.current().kind, TokenKindG::Eof)
    }

    fn check(&self, kind: &TokenKind) -> (matched: bool)
        requires
            self.wf(),
        ensures
            matched == same_variant(self.model()[self.pos as int].kind, kind@),
    {
        same_variant_exec(&self.current().kind, kind)
    }

    fn check_next(&self, kind: &TokenKind) -> (matched: bool)
        requires
            self.wf(),
        ensures
            matched == (self.pos + 1 < self.model().len() && same_variant(
                self.model()[self.pos + 1].kind,
                kind@,
            )),
    {
        proof {
            self.lemma_model_facts();
        }
        if self.pos + 1 < self.tokens.len() {
            same_variant_exec(&self.tokens[self.pos + 1].kind, kind)
        } else {
            false
        }
    }

    proof fn lemma_model_facts(&self)
        requires
            self.wf(),
        ensures
            self.model().len() == self.tokens@.len(),
            forall|i: int| 0 <= i < self.tokens@.len() ==> #[trigger] self.model()[i] == self.tokens@[i]@,
            self.model()[self.pos as int] == self.tokens@[self.pos as int]@,
            well_terminated(self.model()),
            !(self.model()[self.pos as int].kind is Eof) ==> self.pos + 1 < self.tokens@.len(),
            self.tokens@.len() <= usize::MAX,
            forall|i: int| 0 <= i < self.tokens@.len() - 1 ==> !(#[trigger] self.model()[i].kind is Eof) ==> i + 2 <= self.tokens@.len(),
    {
        broadcast use vstd::std_specs::vec::axiom_spec_len;

        assert(vstd::std_specs::vec::spec_vec_len(&self.tokens) == self.tokens@.len());
        assert(self.model()[self.model().len() - 1].kind is Eof);
    }
}

proof fn lemma_skip_blank(t: Seq<SpecToken>, k: int)
    requires
        0 <= k < t.len(),
        forall|j: int| k <= j < t.len() - 1 ==> (#[trigger] t[j]).kind is Newline,
        t.last().kind is Eof,
    ensures
        skip_newlines_spec(t, k) == t.len() - 1,
    decreases t.len() - k,
{
    if k < t.len() - 1 {
        lemma_skip_blank(t, k + 1);
    }
}

/// Every binary operator binds its right side more tightly than its left
/// (its right power is its left one plus one), so a chain of operators of
/// one precedence groups to the left, and any tighter operator wins.
pub proof fn lemma_binary_operators_group_left(kind: SpecTokenKind)
    ensures
        binary_op_spec(kind) matches Some((left, right, _)) ==> left < right && right == left + 1,
{
}

/// The left binding power of a binary operator token (0 for a token that
/// is none).
pub open spec fn precedence(kind: SpecTokenKind) -> int {
    match binary_op_spec(kind) {
        Some((left, _, _)) => left as int,
        None => 0,
    }
}

/// The precedence levels, tightest first: `* / %`, then `+ -`, then
/// `<< >>`, then `< <= > >=`, then `== !=`, then `&`, then `^`, then `|`,
/// then `&&`, then `||`; operators on one level bind equally. Every binary
/// operator binds looser than a prefix operator's operand (90).
pub proof fn lemma_operator_precedence_order()
    ensures
        precedence(TokenKindG::Star) == precedence(TokenKindG::Slash),
        precedence(TokenKindG::Star) == precedence(TokenKindG::Percent),
        precedence(TokenKindG::Star) > precedence(TokenKindG::Plus),
        precedence(TokenKindG::Plus) == precedence(TokenKindG::Minus),
        precedence(TokenKindG::Plus) > precedence(TokenKindG::ShiftLeft),
        precedence(TokenKindG::ShiftLeft) == precedence(TokenKindG::ShiftRight),
        precedence(TokenKindG::ShiftLeft) > precedence(TokenKindG::Less),
        precedence(TokenKindG::Less) == precedence(TokenKindG::LessEqual),
        precedence(TokenKindG::Less) == precedence(TokenKindG::Greater),
        precedence(TokenKindG::Less) == precedence(TokenKindG::GreaterEqual),
        precedence(TokenKindG::Less) > precedence(TokenKindG::EqualEqual),
        precedence(TokenKindG::EqualEqual) == precedence(TokenKindG::BangEqual),
        precedence(TokenKindG::EqualEqual) > precedence(TokenKindG::Ampersand),
        precedence(TokenKindG::Ampersand) > precedence(TokenKindG::Caret),
        precedence(TokenKindG::Caret) > precedence(TokenKindG::Pipe),
        precedence(TokenKindG::Pipe) > precedence(TokenKindG::AndAnd),
        precedence(TokenKindG::AndAnd) > precedence(TokenKindG::OrOr),
        precedence(TokenKindG::OrOr) > 0,
        forall|kind: SpecTokenKind| #[trigger] binary_op_spec(kind) matches Some((_, right, _)) ==> right < 90,
{
}

/// The operator each binary token denotes: `*` multiplies, `-` subtracts,
/// `==` compares for equality, and so on; `-`, `!` and `~` in prefix
/// position negate, invert a truth value and invert bits.
pub proof fn lemma_operator_meanings()
    ensures
        binary_op_spec(TokenKindG::Star) matches Some((_, _, op)) && op == BinaryOp::Multiply,
        binary_op_spec(TokenKindG::Slash) matches Some((_, _, op)) && op == BinaryOp::Divide,
        binary_op_spec(TokenKindG::Percent) matches Some((_, _, op)) && op == BinaryOp::Remainder,
        binary_op_spec(TokenKindG::Plus) matches Some((_, _, op)) && op == BinaryOp::Add,
        binary_op_spec(TokenKindG::Minus) matches Some((_, _, op)) && op == BinaryOp::Subtract,
        binary_op_spec(TokenKindG::ShiftLeft) matches Some((_, _, op)) && op == BinaryOp::ShiftLeft,
        binary_op_spec(TokenKindG::ShiftRight) matches Some((_, _, op)) && op == BinaryOp::ShiftRight,
        binary_op_spec(TokenKindG::Less) matches Some((_, _, op)) && op == BinaryOp::Less,
        binary_op_spec(TokenKindG::LessEqual) matches Some((_, _, op)) && op == BinaryOp::LessEqual,
        binary_op_spec(TokenKindG::Greater) matches Some((_, _, op)) && op == BinaryOp::Greater,
        binary_op_spec(TokenKindG::GreaterEqual) matches Some((_, _, op)) && op == BinaryOp::GreaterEqual,
        binary_op_spec(TokenKindG::EqualEqual) matches Some((_, _, op)) && op == BinaryOp::Equal,
        binary_op_spec(TokenKindG::BangEqual) matches Some((_, _, op)) && op == BinaryOp::NotEqual,
        binary_op_spec(TokenKindG::Ampersand) matches Some((_, _, op)) && op == BinaryOp::BitAnd,
        binary_op_spec(TokenKindG::Caret) matches Some((_, _, op)) && op == BinaryOp::BitXor,
        binary_op_spec(TokenKindG::Pipe) matches Some((_, _, op)) && op == BinaryOp::BitOr,
        binary_op_spec(TokenKindG::AndAnd) matches Some((_, _, op)) && op == BinaryOp::And,
        binary_op_spec(TokenKindG::OrOr) matches Some((_, _, op)) && op == BinaryOp::Or,
        unary_op_spec(TokenKindG::Minus) == Some(UnaryOp::Negate),
        unary_op_spec(TokenKindG::Bang) == Some(UnaryOp::Not),
        unary_op_spec(TokenKindG::Tilde) == Some(UnaryOp::BitNot),
{
}

/// A name, an integer or a string: a token that is a whole expression.
pub open spec fn atom_model(token: SpecToken) -> Option<ExprModel> {
    match token.kind {
        TokenKindG::Identifier(name) => Some(ExprModel::Identifier(name, token.span)),
        TokenKindG::Integer(raw) => Some(ExprModel::Integer(raw, token.span)),
        TokenKindG::String(value) => Some(ExprModel::Str(value, token.span)),
        _ => None,
    }
}

/// `a op1 b op2 c` where `op2` binds no tighter than `op1` (`10 - 3 - 2`,
/// `a - b + c`, `a * b + c`) is `(a op1 b) op2 c`: the left pair is
/// grouped first.
pub proof fn lemma_same_precedence_groups_left(t: Seq<SpecToken>, k: int)
    requires
        0 <= k,
        k + 5 < t.len(),
        atom_model(t[k]) is Some,
        atom_model(t[k + 2]) is Some,
        atom_model(t[k + 4]) is Some,
        binary_op_spec(t[k + 1].kind) is Some,
        binary_op_spec(t[k + 3].kind) is Some,
        binary_op_spec(t[k + 3].kind)->Some_0.0 <= binary_op_spec(t[k + 1].kind)->Some_0.0,
        t[k + 5].kind is Newline,
    ensures
        ({
            let a = atom_model(t[k])->Some_0;
            let b = atom_model(t[k + 2])->Some_0;
            let c = atom_model(t[k + 4])->Some_0;
            let op1 = binary_op_spec(t[k + 1].kind)->Some_0.2;
            let op2 = binary_op_spec(t[k + 3].kind)->Some_0.2;
            let inner = ExprModel::Binary(
                Box::new(a),
                op1,
                Box::new(b),
                Span { start: t[k].span.start, end: t[k + 2].span.end },
            );
            expr_spec(t, k) == Ok::<(ExprModel, int), ParseErrorModel>(
                (
                    ExprModel::Binary(
                        Box::new(inner),
                        op2,
                        Box::new(c),
                        Span { start: t[k].span.start, end: t[k + 4].span.end },
                    ),
                    k + 5,
                ),
            )
        }),
{
    let a = atom_model(t[k])->Some_0;
    let b = atom_model(t[k + 2])->Some_0;
    let c = atom_model(t[k + 4])->Some_0;
    let (l1, r1, op1) = binary_op_spec(t[k + 1].kind)->Some_0;
    let (l2, r2, op2) = binary_op_spec(t[k + 3].kind)->Some_0;
    lemma_binary_operators_group_left(t[k + 1].kind);
    lemma_binary_operators_group_left(t[k + 3].kind);
    assert(prefix_in(t, k, false, false) == Ok::<(ExprModel, int), ParseErrorModel>((a, k + 1)));
    assert(prefix_in(t, k + 2, false, false) == Ok::<(ExprModel, int), ParseErrorModel>((b, k + 3)));
    assert(prefix_in(t, k + 4, false, false) == Ok::<(ExprModel, int), ParseErrorModel>((c, k + 5)));
    assert(expr_loop(t, k + 5, r2, false, false, c) == Ok::<(ExprModel, int), ParseErrorModel>((c, k + 5)));
    assert(expr_bp_in(t, k + 4, r2, false, false) == Ok::<(ExprModel, int), ParseErrorModel>((c, k + 5)));
    assert(expr_loop(t, k + 3, r1, false, false, b) == Ok::<(ExprModel, int), ParseErrorModel>((b, k + 3)));
    assert(expr_bp_in(t, k + 2, r1, false, false) == Ok::<(ExprModel, int), ParseErrorModel>((b, k + 3)));
    let inner = ExprModel::Binary(Box::new(a), op1, Box::new(b), Span { start: t[k].span.start, end: t[k + 2].span.end });
    let outer = ExprModel::Binary(
        Box::new(inner),
        op2,
        Box::new(c),
        Span { start: t[k].span.start, end: t[k + 4].span.end },
    );
    assert(expr_loop(t, k + 5, 0, false, false, outer) == Ok::<(ExprModel, int), ParseErrorModel>((outer, k + 5)));
    assert(expr_loop(t, k + 3, 0, false, false, inner) == Ok::<(ExprModel, int), ParseErrorModel>((outer, k + 5)));
    assert(expr_loop(t, k + 1, 0, false, false, a) == Ok::<(ExprModel, int), ParseErrorModel>((outer, k + 5)));
}

/// `a op1 b op2 c` where `op2` binds tighter than `op1` (`1 + 2 * 3`) is
/// `a op1 (b op2 c)`: the tighter operator takes its operands first.
pub proof fn lemma_tighter_operator_groups_first(t: Seq<SpecToken>, k: int)
    requires
        0 <= k,
        k + 5 < t.len(),
        atom_model(t[k]) is Some,
        atom_model(t[k + 2]) is Some,
        atom_model(t[k + 4]) is Some,
        binary_op_spec(t[k + 1].kind) is Some,
        binary_op_spec(t[k + 3].kind) is Some,
        binary_op_spec(t[k + 1].kind)->Some_0.0 < binary_op_spec(t[k + 3].kind)->Some_0.0,
        t[k + 5].kind is Newline,
    ensures
        ({
            let a = atom_model(t[k])->Some_0;
            let b = atom_model(t[k + 2])->Some_0;
            let c = atom_model(t[k + 4])->Some_0;
            let op1 = binary_op_spec(t[k + 1].kind)->Some_0.2;
            let op2 = binary_op_spec(t[k + 3].kind)->Some_0.2;
            let inner = ExprModel::Binary(
                Box::new(b),
                op2,
                Box::new(c),
                Span { start: t[k + 2].span.start, end: t[k + 4].span.end },
            );
            expr_spec(t, k) == Ok::<(ExprModel, int), ParseErrorModel>(
                (
                    ExprModel::Binary(
                        Box::new(a),
                        op1,
                        Box::new(inner),
                        Span { start: t[k].span.start, end: t[k + 4].span.end },
                    ),
                    k + 5,
                ),
            )
        }),
{
    let a = atom_model(t[k])->Some_0;
    let b = atom_model(t[k + 2])->Some_0;
    let c = atom_model(t[k + 4])->Some_0;
    let (l1, r1, op1) = binary_op_spec(t[k + 1].kind)->Some_0;
    let (l2, r2, op2) = binary_op_spec(t[k + 3].kind)->Some_0;
    lemma_binary_operators_group_left(t[k + 1].kind);
    lemma_binary_operators_group_left(t[k + 3].kind);
    assert(prefix_in(t, k, false, false) == Ok::<(ExprModel, int), ParseErrorModel>((a, k + 1)));
    assert(prefix_in(t, k + 2, false, false) == Ok::<(ExprModel, int), ParseErrorModel>((b, k + 3)));
    assert(prefix_in(t, k + 4, false, false) == Ok::<(ExprModel, int), ParseErrorModel>((c, k + 5)));
    assert(expr_loop(t, k + 5, r2, false, false, c) == Ok::<(ExprModel, int), ParseErrorModel>((c, k + 5)));
    assert(expr_bp_in(t, k + 4, r2, false, false) == Ok::<(ExprModel, int), ParseErrorModel>((c, k + 5)));
    let inner = ExprModel::Binary(
        Box::new(b),
        op2,
        Box::new(c),
        Span { start: t[k + 2].span.start, end: t[k + 4].span.end },
    );
    assert(expr_loop(t, k + 5, r1, false, false, inner) == Ok::<(ExprModel, int), ParseErrorModel>((inner, k + 5)));
    assert(expr_loop(t, k + 3, r1, false, false, b) == Ok::<(ExprModel, int), ParseErrorModel>((inner, k + 5)));
    assert(expr_bp_in(t, k + 2, r1, false, false) == Ok::<(ExprModel, int), ParseErrorModel>((inner, k + 5)));
    let outer = ExprModel::Binary(
        Box::new(a),
        op1,
        Box::new(inner),
        Span { start: t[k].span.start, end: t[k + 4].span.end },
    );
    assert(expr_loop(t, k + 5, 0, false, false, outer) == Ok::<(ExprModel, int), ParseErrorModel>((outer, k + 5)));
    assert(expr_loop(t, k + 1, 0, false, false, a) == Ok::<(ExprModel, int), ParseErrorModel>((outer, k + 5)));
}

/// A prefix operator applies to the operand right after it, before any
/// binary operator: `-a op b` is `(-a) op b`.
pub proof fn lemma_prefix_operator_binds_tightest(t: Seq<SpecToken>, k: int)
    requires
        0 <= k,
        k + 4 < t.len(),
        unary_op_spec(t[k].kind) is Some,
        atom_model(t[k + 1]) is Some,
        binary_op_spec(t[k + 2].kind) is Some,
        atom_model(t[k + 3]) is Some,
        t[k + 4].kind is Newline,
    ensures
        ({
            let a = atom_model(t[k + 1])->Some_0;
            let b = atom_model(t[k + 3])->Some_0;
            let unary = ExprModel::Unary(
                unary_op_spec(t[k].kind)->Some_0,
                Box::new(a),
                Span { start: t[k].span.start, end: t[k + 1].span.end },
            );
            expr_spec(t, k) == Ok::<(ExprModel, int), ParseErrorModel>(
                (
                    ExprModel::Binary(
                        Box::new(unary),
                        binary_op_spec(t[k + 2].kind)->Some_0.2,
                        Box::new(b),
                        Span { start: t[k].span.start, end: t[k + 3].span.end },
                    ),
                    k + 4,
                ),
            )
        }),
{
    let a = atom_model(t[k + 1])->Some_0;
    let b = atom_model(t[k + 3])->Some_0;
    let (l, r, op) = binary_op_spec(t[k + 2].kind)->Some_0;
    lemma_operator_precedence_order();
    lemma_binary_operators_group_left(t[k + 2].kind);
    assert(r < 90);
    assert(!(t[k].kind is Identifier) && !(t[k].kind is Integer) && !(t[k].kind is String));
    assert(prefix_in(t, k + 1, false, false) == Ok::<(ExprModel, int), ParseErrorModel>((a, k + 2)));
    assert(expr_loop(t, k + 2, 90, false, false, a) == Ok::<(ExprModel, int), ParseErrorModel>((a, k + 2)));
    assert(expr_bp_in(t, k + 1, 90, false, false) == Ok::<(ExprModel, int), ParseErrorModel>((a, k + 2)));
    let unary = ExprModel::Unary(
        unary_op_spec(t[k].kind)->Some_0,
        Box::new(a),
        Span { start: t[k].span.start, end: t[k + 1].span.end },
    );
    assert(prefix_in(t, k, false, false) == Ok::<(ExprModel, int), ParseErrorModel>((unary, k + 2)));
    assert(prefix_in(t, k + 3, false, false) == Ok::<(ExprModel, int), ParseErrorModel>((b, k + 4)));
    assert(expr_loop(t, k + 4, r, false, false, b) == Ok::<(ExprModel, int), ParseErrorModel>((b, k + 4)));
    assert(expr_bp_in(t, k + 3, r, false, false) == Ok::<(ExprModel, int), ParseErrorModel>((b, k + 4)));
    let outer = ExprModel::Binary(
        Box::new(unary),
        op,
        Box::new(b),
        Span { start: t[k].span.start, end: t[k + 3].span.end },
    );
    assert(expr_loop(t, k + 4, 0, false, false, outer) == Ok::<(ExprModel, int), ParseErrorModel>((outer, k + 4)));
    assert(expr_loop(t, k + 2, 0, false, false, unary) == Ok::<(ExprModel, int), ParseErrorModel>((outer, k + 4)));
}

/// A stream of nothing but newlines parses to an empty program spanning
/// from its first token to the end.
pub proof fn lemma_blank_stream_is_empty_program(t: Seq<SpecToken>)
    requires
        well_terminated(t),
        forall|j: int| 0 <= j < t.len() - 1 ==> (#[trigger] t[j]).kind is Newline,
    ensures
        parse_spec(t) matches Ok(program) && program.statements.len() == 0 && program.span == (Span {
            start: t[0].span.start,
            end: t.last().span.end,
        }),
{
    lemma_skip_blank(t, 0);
}


/// The binding powers and operator of a binary operator token.
fn binary_op(kind: &TokenKind) -> (found: Option<(u8, u8, BinaryOp)>)
    ensures
        found == binary_op_spec(kind@),
{
    match kind {
        TokenKindG::Star => Some((80, 81, BinaryOp::Multiply)),
        TokenKindG::Slash => Some((80, 81, BinaryOp::Divide)),
        TokenKindG::Percent => Some((80, 81, BinaryOp::Remainder)),
        TokenKindG::Plus => Some((70, 71, BinaryOp::Add)),
        TokenKindG::Minus => Some((70, 71, BinaryOp::Subtract)),
        TokenKindG::ShiftLeft => Some((60, 61, BinaryOp::ShiftLeft)),
        TokenKindG::ShiftRight => Some((60, 61, BinaryOp::ShiftRight)),
        TokenKindG::Less => Some((50, 51, BinaryOp::Less)),
        TokenKindG::LessEqual => Some((50, 51, BinaryOp::LessEqual)),
        TokenKindG::Greater => Some((50, 51, BinaryOp::Greater)),
        TokenKindG::GreaterEqual => Some((50, 51, BinaryOp::GreaterEqual)),
        TokenKindG::EqualEqual => Some((40, 41, BinaryOp::Equal)),
        TokenKindG::BangEqual => Some((40, 41, BinaryOp::NotEqual)),
        TokenKindG::Ampersand => Some((30, 31, BinaryOp::BitAnd)),
        TokenKindG::Caret => Some((20, 21, BinaryOp::BitXor)),
        TokenKindG::Pipe => Some((10, 11, BinaryOp::BitOr)),
        TokenKindG::AndAnd => Some((6, 7, BinaryOp::And)),
        TokenKindG::OrOr => Some((2, 3, BinaryOp::Or)),
        _ => None,
    }
}

/// The unary operator a prefix token stands for.
fn unary_op(kind: &TokenKind) -> (found: Option<UnaryOp>)
    ensures
        found == unary_op_spec(kind@),
{
    match kind {
        TokenKindG::Minus => Some(UnaryOp::Negate),
        TokenKindG::Bang => Some(UnaryOp::Not),
        TokenKindG::Tilde => Some(UnaryOp::BitNot),
        _ => None,
    }
}

/// `e` with its outermost span replaced.
fn with_expr_span(e: Expr, span: Span) -> (out: Expr)
    ensures
        forall|m: ExprModel| operand_matches(e, m) ==> operand_matches(out, with_span(m, span)),
{
    match e {
        Expr::Identifier { name, .. } => Expr::Identifier { name, span },
        Expr::Integer { raw, .. } => Expr::Integer { raw, span },
        Expr::String { value, .. } => Expr::String { value, span },
        Expr::Unary { op, operand, .. } => Expr::Unary { op, operand, span },
        Expr::Binary { left, op, right, .. } => Expr::Binary { left, op, right, span },
        Expr::Splice { inner, .. } => Expr::Splice { inner, span },
        Expr::As { value, ty, .. } => Expr::As { value, ty, span },
        Expr::Member { object, member, .. } => Expr::Member { object, member, span },
        Expr::Call { callee, arguments, .. } => Expr::Call { callee, arguments, span },
        other => other,
    }
}

/// The binary operator at a token; inside a generic argument list,
/// closing-shaped tokens are none.
fn binary_operator(kind: &TokenKind, restricted: bool) -> (found: Option<(u8, u8, BinaryOp)>)
    ensures
        found == binary_op_in(kind@, restricted),
{
    if restricted && matches!(kind, TokenKindG::Greater | TokenKindG::GreaterEqual | TokenKindG::ShiftRight) {
        None
    } else {
        binary_op(kind)
    }
}

/// The lint names a lint facet's payload selects.
fn payload_selector_names(payload: &Expr, Ghost(m): Ghost<ExprModel>) -> (names: Vec<String>)
    requires
        operand_matches(*payload, m),
    ensures
        strings_model(names@) == payload_selectors(m),
{
    let mut names: Vec<String> = Vec::new();
    match payload {
        Expr::Identifier { name, .. } => {
            names.push(name.clone());
            assert(strings_model(names@) =~= seq![name@]);
        },
        Expr::Call { arguments, .. } => {
            let ghost ms = m->Call_1;
            let mut i: usize = 0;
            while i < arguments.len()
                invariant
                    0 <= i <= arguments@.len(),
                    arguments@.len() == ms.len(),
                    call_args_match_from(arguments@, ms, 0),
                    strings_model(names@) == identifiers_of(ms, i as int),
                decreases arguments@.len() - i,
            {
                proof {
                    lemma_call_arg_match_at(arguments@, ms, 0, i as int);
                }
                let ghost before = names@;
                match &arguments[i].value {
                    Expr::Identifier { name, .. } => {
                        names.push(name.clone());
                        assert(strings_model(names@) =~= strings_model(before).push(name@));
                    },
                    _ => {},
                }
                i += 1;
            }
        },
        _ => {},
    }
    names
}

/// Each argument of a matching call matches its model.
proof fn lemma_call_arg_match_at(args: Seq<CallArgument>, ms: Seq<CallArgModel>, i: nat, j: int)
    requires
        call_args_match_from(args, ms, i),
        args.len() == ms.len(),
        i <= j < args.len(),
    ensures
        call_arg_matches(args[j], ms[j]),
    decreases j - i,
{
    if i < j {
        lemma_call_arg_match_at(args, ms, i + 1, j);
    }
}

proof fn lemma_type_matches_span(ty: TypeExpr, m: TypeModel)
    requires
        type_matches(ty, m),
    ensures
        (match ty {
            TypeExpr::Named { span, .. } => span,
            TypeExpr::Apply { span, .. } => span,
        }) == type_span(m),
{
}

proof fn lemma_matches_span(e: Expr, m: ExprModel)
    requires
        operand_matches(e, m),
    ensures
        expr_span(e) == model_span(m),
{
}


} // verus!
