//! Packing emitted values into machine-code bytes.
use vstd::prelude::*;

use crate::cli::{from_radix_spec, usize_from_str_radix};
use crate::emit::EmittedGenericArg;

verus! {

/// The byte order a packed value's bytes are written in.
#[derive(Debug, Clone, Copy, PartialEq, Eq, Structural)]
pub enum Endian {
    Little,
    Big,
}

/// The width a `bits<N>` struct declares, or why it declares none: its
/// first generic argument must be a constant that reads as a `usize`.
pub open spec fn width_spec(args: Seq<EmittedGenericArg>) -> Result<usize, Option<Seq<char>>> {
    if args.len() == 0 {
        Err(Some("a `bits<N>` struct is missing its width argument"@))
    } else {
        match args[0] {
            EmittedGenericArg::Const { value } => match from_radix_spec(value@, 10) {
                Some(width) => Ok(width),
                None => Err(None),
            },
            EmittedGenericArg::Type(_) => Err(
                Some("a `bits<N>` struct's width argument should be a const, found a type"@),
            ),
        }
    }
}

/// The bit width a `bits<N>` struct's generic arguments declare. Where the
/// constant does not read as a `usize`, the error is "`N` isn't a valid bit
/// width: " and the reason `usize::from_str` gives.
pub fn bits_width(args: &[EmittedGenericArg]) -> (width: Result<usize, String>)
    ensures
        match width_spec(args@) {
            Ok(w) => width == Ok::<usize, String>(w),
            Err(Some(message)) => width is Err && width->Err_0@ == message,
            Err(None) => width is Err && exists|reason: Seq<char>|
                width->Err_0@ == "`"@ + args@[0]->Const_value@ + "` isn't a valid bit width: "@ + reason,
        },
{
    if args.len() == 0 {
        return Err(String::from_str("a `bits<N>` struct is missing its width argument"));
    }
    match &args[0] {
        EmittedGenericArg::Const { value } => match usize_from_str_radix(value.as_str(), 10) {
            Ok(width) => Ok(width),
            Err(reason) => {
                let mut message = String::from_str("`");
                message.append(value.as_str());
                message.append("` isn't a valid bit width: ");
                message.append(reason.as_str());
                assert(message@ == "`"@ + value@ + "` isn't a valid bit width: "@ + reason@);
                Err(message)
            },
        },
        EmittedGenericArg::Type(_) => Err(
            String::from_str("a `bits<N>` struct's width argument should be a const, found a type"),
        ),
    }
}

} // verus!
