//! `warn` — enables one lint (or lint group) for this declaration.
use vstd::prelude::*;

use super::{DeclKind, PayloadShape, Violation};

verus! {

pub const PAYLOAD: PayloadShape = PayloadShape::Expr;

pub fn check(_decl_kind: DeclKind, _count: usize) -> (result: Result<(), Violation>)
    ensures
        result == Ok::<(), Violation>(()),
{
    Ok(())
}

} // verus!
