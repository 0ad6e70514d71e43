//! `forbid` — promotes a lint to an error and prevents lowering it below this scope.
use vstd::prelude::*;

use super::{DeclKind, PayloadShape, Violation};

verus! {

pub const PAYLOAD: PayloadShape = PayloadShape::Expr;

pub fn check(_decl_kind: DeclKind, _count: usize) -> (result: Result<(), Violation>)
    ensures
        result == Ok::<(), Violation>(()),
{
    Ok(())
}

} // verus!
