//! `emits` — one type an `@emit` inside this macro's body may produce.
//! Repeatable: several `| emits <T>` facets declare a set of types.
use vstd::prelude::*;

use super::{DeclKind, PayloadShape, Violation};

verus! {

pub const PAYLOAD: PayloadShape = PayloadShape::Type;

pub fn check(decl_kind: DeclKind, _count: usize) -> (result: Result<(), Violation>)
    ensures
        result == (if decl_kind == DeclKind::Macro {
            Ok::<(), Violation>(())
        } else {
            Err(Violation::NotApplicable)
        }),
{
    if matches!(decl_kind, DeclKind::Macro) {
        Ok(())
    } else {
        Err(Violation::NotApplicable)
    }
}

} // verus!
