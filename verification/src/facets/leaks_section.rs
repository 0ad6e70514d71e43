//! `leaks_section` — macro-only, bare marker, at most one. Opts the macro
//! out of the section push/pop every macro call gets by default, for a
//! macro meant to change the section its caller's code lands in.
use vstd::prelude::*;

use super::{DeclKind, PayloadShape, Violation};

verus! {

pub const PAYLOAD: PayloadShape = PayloadShape::Bare;

pub fn check(decl_kind: DeclKind, count: usize) -> (result: Result<(), Violation>)
    ensures
        result == (if decl_kind != DeclKind::Macro {
            Err(Violation::NotApplicable)
        } else if count > 1 {
            Err(Violation::TooMany)
        } else {
            Ok::<(), Violation>(())
        }),
{
    if !matches!(decl_kind, DeclKind::Macro) {
        return Err(Violation::NotApplicable);
    }
    if count > 1 {
        return Err(Violation::TooMany);
    }
    Ok(())
}

} // verus!
