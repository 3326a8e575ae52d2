//! Failure conditions of canonicalization.

use vstd::prelude::*;

verus! {

/// Canonicalization is total except for non-finite floats: a NaN or an
/// infinite float is rejected with `InvalidNumber` instead of producing
/// output.
#[derive(Debug, Clone, Copy, PartialEq, Eq, Structural)]
pub enum GlyphError {
    /// A float input is NaN or infinite.
    InvalidNumber,
}

impl GlyphError {
    /// A short description of the failure.
    pub fn message(&self) -> (r: &'static str)
        ensures
            r@ == "invalid number: NaN or infinite float"@,
    {
        "invalid number: NaN or infinite float"
    }
}

} // verus!
