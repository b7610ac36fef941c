//! The library's own error type.
use vstd::prelude::*;

verus! {

/// Error raised by the library: a rejected input parameter.
#[derive(Debug, PartialEq, Eq)]
pub enum Error {
    /// The description of the rejected parameter.
    Param(String),
}

/// The message reported for an unrecognized direction token.
pub open spec fn param_msg(c: char) -> Seq<char> {
    "Direction cannot be "@ + seq![c] + "!"@
}

/// Relies on std's `format!`: the template literal with the character
/// interpolated in place of the placeholder.
#[verifier::external_body]
pub(crate) fn format_param_msg(c: char) -> (r: String)
    ensures
        r@ == param_msg(c),
{
    format!("Direction cannot be {c}!")
}

} // verus!
