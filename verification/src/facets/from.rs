//! `from` — an inbound conversion template on a struct or type alias. `source` is the incoming value; `target` exposes the destination's const-generic arguments.
use vstd::prelude::*;

use super::{DeclKind, PayloadShape, Violation};

verus! {

pub const PAYLOAD: PayloadShape = PayloadShape::Expr;

pub fn check(decl_kind: DeclKind, _count: usize) -> (result: Result<(), Violation>)
    ensures
        result == (if decl_kind == DeclKind::Struct || decl_kind == DeclKind::TypeAlias {
            Ok::<(), Violation>(())
        } else {
            Err(Violation::NotApplicable)
        }),
{
    if matches!(decl_kind, DeclKind::Struct | DeclKind::TypeAlias) {
        Ok(())
    } else {
        Err(Violation::NotApplicable)
    }
}

} // verus!
