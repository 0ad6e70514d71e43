//! `return` (spelled `-> Type`, directly or as `| -> Type`) — macro-only,
//! at most one per macro: writing both forms is a duplicate.
use vstd::prelude::*;

use crate::ast::{Facet, FacetPayload};
use crate::text::str_eq;
use crate::types::TypeExpr;

use super::{DeclKind, PayloadShape, Violation};

verus! {

pub const PAYLOAD: PayloadShape = PayloadShape::Type;

pub fn check(decl_kind: DeclKind, count: usize) -> (result: Result<(), Violation>)
    ensures
        result == (if decl_kind != DeclKind::Macro {
            Err(Violation::NotApplicable)
        } else if count > 1 {
            Err(Violation::TooMany)
        } else {
            Ok::<(), Violation>(())
        }),
{
    if !matches!(decl_kind, DeclKind::Macro) {
        return Err(Violation::NotApplicable);
    }
    if count > 1 {
        return Err(Violation::TooMany);
    }
    Ok(())
}

/// Whether facet `f` is a `return` facet carrying a type.
pub open spec fn is_return_type_facet(f: Facet) -> bool {
    f.name@ == "return"@ && f.payload is Type
}

/// The type of the first `return` facet, if there is one.
pub fn extract(facets: &[Facet]) -> (ty: Option<&TypeExpr>)
    ensures
        match ty {
            Some(t) => exists|k: int|
                0 <= k < facets@.len() && is_return_type_facet(#[trigger] facets@[k]) && facets@[k].payload
                    == FacetPayload::Type(*t) && forall|m: int|
                    0 <= m < k ==> !is_return_type_facet(#[trigger] facets@[m]),
            None => forall|k: int| 0 <= k < facets@.len() ==> !is_return_type_facet(#[trigger] facets@[k]),
        },
{
    let mut k: usize = 0;
    while k < facets.len()
        invariant
            k <= facets@.len(),
            forall|m: int| 0 <= m < k ==> !is_return_type_facet(#[trigger] facets@[m]),
        decreases facets@.len() - k,
    {
        let facet = &facets[k];
        if str_eq(facet.name.as_str(), "return") {
            if let FacetPayload::Type(ty) = &facet.payload {
                return Some(ty);
            }
        }
        k += 1;
    }
    None
}

} // verus!
