//! The language features a `.em` file can require of its reader.
use vstd::prelude::*;

verus! {

/// Some entry carries a `section`: the reader must group entries by
/// section (in first-appearance order) before laying them out.
pub const SECTIONS: &'static str = "sections";

/// Some value is a `Deferred` reference to another file's `pub` label,
/// which only a linker can resolve.
pub const EXTERN_LABELS: &'static str = "extern-labels";

/// Every feature this version of the format defines.
pub open spec fn defined() -> Seq<&'static str> {
    seq![SECTIONS, EXTERN_LABELS]
}

/// Every feature this version of the format defines.
pub fn all() -> (features: Vec<&'static str>)
    ensures
        features@ == defined(),
{
    vec![SECTIONS, EXTERN_LABELS]
}

} // verus!
