//! Type expressions as written in source, shared by the syntax tree and
//! the later stages that resolve them.
use vstd::prelude::*;

use crate::ast::{Expr, SplicedName};
use crate::token::Span;

verus! {

/// A type as written: a (possibly dotted) name, or a name applied to
/// generic arguments such as `bits<8>` or `Array<T, N>`.
#[derive(Debug, PartialEq)]
pub enum TypeExpr {
    Named { path: Vec<String>, span: Span },
    Apply { base: Box<TypeExpr>, args: Vec<TypeArgument>, span: Span },
}

impl TypeExpr {
    pub fn span(&self) -> (span: Span)
        ensures
            span == (match self {
                TypeExpr::Named { span, .. } => *span,
                TypeExpr::Apply { span, .. } => *span,
            }),
    {
        match self {
            TypeExpr::Named { span, .. } => *span,
            TypeExpr::Apply { span, .. } => *span,
        }
    }
}

/// One argument of a generic application: a type, a constant expression,
/// or the `...` wildcard of a signature.
#[derive(Debug, PartialEq)]
pub enum TypeArgument {
    Type(TypeExpr),
    Const(Expr),
    Wildcard(Span),
}

/// A declared generic parameter: `T` or `const N: int`.
#[derive(Debug, PartialEq)]
pub enum GenericParameter {
    Type { name: String, span: Span },
    Const { name: String, ty: TypeExpr, span: Span },
}

/// One field of a struct declaration.
#[derive(Debug, PartialEq)]
pub struct StructField {
    pub name: SplicedName,
    pub ty: TypeExpr,
    pub is_pub: bool,
    pub is_const: bool,
    pub default: Option<Expr>,
    pub span: Span,
}

/// One item of a struct body: a field, or an `@for`/`@if` that generates
/// fields once evaluated.
#[derive(Debug, PartialEq)]
pub enum StructBodyItem {
    Field(StructField),
    For { var: String, source: Expr, body: Vec<StructBodyItem>, span: Span },
    If {
        condition: Expr,
        body: Vec<StructBodyItem>,
        else_body: Option<Vec<StructBodyItem>>,
        span: Span,
    },
}

} // verus!
