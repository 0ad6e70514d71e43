//! `before` — macro-only. May appear more than once; each one fires once, in
//! declaration order, before the macro's own body.
use vstd::prelude::*;

use super::{DeclKind, PayloadShape, Violation};

verus! {

pub const PAYLOAD: PayloadShape = PayloadShape::Expr;

pub fn check(decl_kind: DeclKind, _count: usize) -> (result: Result<(), Violation>)
    ensures
        result == (if decl_kind == DeclKind::Macro {
            Ok::<(), Violation>(())
        } else {
            Err(Violation::NotApplicable)
        }),
{
    if !matches!(decl_kind, DeclKind::Macro) {
        return Err(Violation::NotApplicable);
    }
    Ok(())
}

} // verus!
