//! The error conditions the library reports to its callers.

use vstd::prelude::*;

verus! {

/// Why an operation was refused.
///
/// Operands of mismatched rank are not an error value: every function that
/// combines vectors states the matching ranks as a precondition.
#[derive(Debug, Clone, Copy, PartialEq, Eq, Structural)]
pub enum LweError {
    /// A serialized key or ciphertext does not decode to the integer
    /// sequence that the parameters call for.
    MalformedEncoding,
    /// The ring degree, modulus and rank violate the scheme's invariants, or
    /// exceed what the machine's integers can hold.
    ParameterInvalid,
}

impl LweError {
    /// A short description of the error, for messages.
    pub fn describe(&self) -> (r: &'static str)
        ensures
            r@ == (match self {
                LweError::MalformedEncoding => "malformed encoding"@,
                LweError::ParameterInvalid => "invalid parameters"@,
            }),
    {
        match self {
            LweError::MalformedEncoding => "malformed encoding",
            LweError::ParameterInvalid => "invalid parameters",
        }
    }
}

} // verus!
