//! `pub` as a facet — sugar for the `pub` prefix keyword. At most one per
//! declaration: a second one adds nothing, so it is rejected.
use vstd::prelude::*;

use crate::ast::Facet;
use crate::text::str_eq;

use super::{DeclKind, PayloadShape, Violation};

verus! {

pub const PAYLOAD: PayloadShape = PayloadShape::Bare;

pub fn check(_decl_kind: DeclKind, count: usize) -> (result: Result<(), Violation>)
    ensures
        result == (if count > 1 {
            Err(Violation::TooMany)
        } else {
            Ok::<(), Violation>(())
        }),
{
    if count > 1 {
        return Err(Violation::TooMany);
    }
    Ok(())
}

/// Whether some facet is named `pub`.
pub fn applies(facets: &[Facet]) -> (found: bool)
    ensures
        found == exists|k: int| 0 <= k < facets@.len() && (#[trigger] facets@[k]).name@ == "pub"@,
{
    let mut k: usize = 0;
    while k < facets.len()
        invariant
            k <= facets@.len(),
            forall|m: int| 0 <= m < k ==> (#[trigger] facets@[m]).name@ != "pub"@,
        decreases facets@.len() - k,
    {
        if str_eq(facets[k].name.as_str(), "pub") {
            return true;
        }
        k += 1;
    }
    false
}

} // verus!
