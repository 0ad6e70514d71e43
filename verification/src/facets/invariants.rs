//! `invariant` — valid on `struct` and `type` alias declarations. May
//! appear more than once; every occurrence must hold. On a struct,
//! `source` is the completed value; on a type alias, the value being
//! converted into the alias. Compilation fails if a condition does not
//! fold to a truthy result.
use vstd::prelude::*;

use crate::ast::{Expr, Facet, FacetPayload};
use crate::text::str_eq;

use super::{DeclKind, PayloadShape, Violation};

verus! {

pub const PAYLOAD: PayloadShape = PayloadShape::Expr;

pub fn check(decl_kind: DeclKind, _count: usize) -> (result: Result<(), Violation>)
    ensures
        result == (if decl_kind == DeclKind::Struct || decl_kind == DeclKind::TypeAlias {
            Ok::<(), Violation>(())
        } else {
            Err(Violation::NotApplicable)
        }),
{
    if !matches!(decl_kind, DeclKind::Struct) && !matches!(decl_kind, DeclKind::TypeAlias) {
        return Err(Violation::NotApplicable);
    }
    Ok(())
}

/// Every `invariant` occurrence's condition, in declaration order.
pub fn extract(facets: &[Facet]) -> (conditions: Vec<&Expr>)
    ensures
        super::derefs(conditions@) == super::facet_exprs(facets@, "invariant"@, facets@.len() as int),
{
    super::extract_exprs(facets, "invariant")
}

} // verus!
