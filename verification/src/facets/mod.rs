//! Facet-specific logic lives in each facet's own file; this module routes
//! a facet name to its payload shape and its applicability/cardinality
//! check. `pub` and `-> Type` belong to declaration signatures and are not
//! facets. Resolution-time behavior returns the facet-owned [`Violation`],
//! which the resolver translates into its own error type.
//!
//! [`syntax`] is the one facet whose parsed data is consumed elsewhere: a
//! macro's call-site pattern must be known while parsing everything after
//! it, so the parser and the loader both read it.
use vstd::prelude::*;

use crate::ast::{Expr, Facet, FacetPayload};
use crate::text::str_eq;

pub mod after;
pub mod before;
pub mod emits;
pub mod expect;
pub mod forbid;
pub mod from;
pub mod invariants;
pub mod leaks_section;
pub mod return_type;
pub mod syntax;
pub mod to;
pub mod visibility;
pub mod warn;

verus! {

#[derive(Debug, Clone, Copy, PartialEq, Eq)]
pub enum DeclKind {
    Struct,
    Macro,
    TypeAlias,
}

/// What a facet's payload looks like after its name: `before qux()` (an
/// expression), `invariant { ... }` (a block), a type, or `syntax`'s raw
/// token pattern.
#[derive(Debug, Clone, Copy, PartialEq, Eq)]
pub enum PayloadShape {
    Bare,
    Expr,
    Block,
    Type,
    Pattern,
}

/// Why a facet's occurrence on a declaration is invalid.
#[derive(Debug, Clone, Copy, PartialEq, Eq)]
pub enum Violation {
    NotApplicable,
    TooMany,
}

/// The payload shape of each registered facet name.
pub open spec fn registered_shape(name: Seq<char>) -> Option<PayloadShape> {
    if name == "invariant"@ {
        Some(PayloadShape::Expr)
    } else if name == "from"@ {
        Some(PayloadShape::Expr)
    } else if name == "to"@ {
        Some(PayloadShape::Expr)
    } else if name == "before"@ {
        Some(PayloadShape::Expr)
    } else if name == "after"@ {
        Some(PayloadShape::Expr)
    } else if name == "syntax"@ {
        Some(PayloadShape::Pattern)
    } else if is_lint_level_name(name) {
        Some(PayloadShape::Expr)
    } else {
        None
    }
}

/// The lint-level facets a declaration can carry: `allow`, `expect`,
/// `warn`, `deny` and `forbid`, each naming lints or lint groups.
pub open spec fn is_lint_level_name(name: Seq<char>) -> bool {
    name == "allow"@ || name == "expect"@ || name == "warn"@ || name == "deny"@ || name == "forbid"@
}

/// The parser needs a payload shape before any declaration a facet is
/// attached to can be resolved; `None` means the name isn't registered.
/// The lint levels take an expression naming the lints they set.
pub fn payload_shape(name: &str) -> (shape: Option<PayloadShape>)
    ensures
        shape == registered_shape(name@),
{
    if str_eq(name, "invariant") {
        Some(invariants::PAYLOAD)
    } else if str_eq(name, "from") {
        Some(from::PAYLOAD)
    } else if str_eq(name, "to") {
        Some(to::PAYLOAD)
    } else if str_eq(name, "before") {
        Some(before::PAYLOAD)
    } else if str_eq(name, "after") {
        Some(after::PAYLOAD)
    } else if str_eq(name, "syntax") {
        Some(syntax::PAYLOAD)
    } else if str_eq(name, "allow") || str_eq(name, "expect") || str_eq(name, "warn") || str_eq(name, "deny")
        || str_eq(name, "forbid") {
        Some(PayloadShape::Expr)
    } else {
        None
    }
}

/// The rule each registered facet applies to one of its occurrences.
pub open spec fn facet_rule(name: Seq<char>, decl_kind: DeclKind, count: usize) -> Option<
    Result<(), Violation>,
> {
    let macro_only = if decl_kind == DeclKind::Macro {
        Ok(())
    } else {
        Err(Violation::NotApplicable)
    };
    let struct_or_alias = if decl_kind == DeclKind::Struct || decl_kind == DeclKind::TypeAlias {
        Ok(())
    } else {
        Err(Violation::NotApplicable)
    };
    if name == "invariant"@ || name == "from"@ || name == "to"@ {
        Some(struct_or_alias)
    } else if name == "before"@ || name == "after"@ {
        Some(macro_only)
    } else if name == "syntax"@ {
        Some(
            if decl_kind != DeclKind::Macro {
                Err(Violation::NotApplicable)
            } else if count > 1 {
                Err(Violation::TooMany)
            } else {
                Ok(())
            },
        )
    } else {
        None
    }
}

/// Checks one occurrence of a named facet against its own rules. `count`
/// is its 1-based position among same-named facets on the declaration.
/// `None` means the name isn't registered.
pub fn check(name: &str, decl_kind: DeclKind, count: usize) -> (result: Option<Result<(), Violation>>)
    ensures
        result == facet_rule(name@, decl_kind, count),
{
    if str_eq(name, "invariant") {
        Some(invariants::check(decl_kind, count))
    } else if str_eq(name, "from") {
        Some(from::check(decl_kind, count))
    } else if str_eq(name, "to") {
        Some(to::check(decl_kind, count))
    } else if str_eq(name, "before") {
        Some(before::check(decl_kind, count))
    } else if str_eq(name, "after") {
        Some(after::check(decl_kind, count))
    } else if str_eq(name, "syntax") {
        Some(syntax::check(decl_kind, count))
    } else {
        None
    }
}

/// The expression payloads of the facets named `name` among the first `k`
/// facets, in declaration order.
pub open spec fn facet_exprs(facets: Seq<Facet>, name: Seq<char>, k: int) -> Seq<Expr>
    decreases k,
{
    if k <= 0 {
        Seq::empty()
    } else {
        let prefix = facet_exprs(facets, name, k - 1);
        match facets[k - 1].payload {
            FacetPayload::Expr(expr) => if facets[k - 1].name@ == name {
                prefix.push(expr)
            } else {
                prefix
            },
            _ => prefix,
        }
    }
}

/// The expressions a list of references points at.
pub open spec fn derefs<'a>(exprs: Seq<&'a Expr>) -> Seq<Expr> {
    exprs.map_values(|e: &'a Expr| *e)
}

/// Every `invariant` entry's condition in `facets`, in declaration order.
pub fn extract_invariants(facets: &[Facet]) -> (conditions: Vec<&Expr>)
    ensures
        derefs(conditions@) == facet_exprs(facets@, "invariant"@, facets@.len() as int),
{
    invariants::extract(facets)
}

/// The expression payloads of every facet named `name`, in order.
pub fn extract_exprs<'a>(facets: &'a [Facet], name: &str) -> (exprs: Vec<&'a Expr>)
    ensures
        derefs(exprs@) == facet_exprs(facets@, name@, facets@.len() as int),
{
    let mut exprs: Vec<&Expr> = Vec::new();
    let mut k: usize = 0;
    while k < facets.len()
        invariant
            k <= facets@.len(),
            derefs(exprs@) == facet_exprs(facets@, name@, k as int),
        decreases facets@.len() - k,
    {
        let facet = &facets[k];
        if let FacetPayload::Expr(expr) = &facet.payload {
            if str_eq(facet.name.as_str(), name) {
                let ghost before = exprs@;
                exprs.push(expr);
                assert(derefs(exprs@) =~= derefs(before).push(*expr));
            }
        }
        k += 1;
    }
    exprs
}

} // verus!
