//! The ways in which building or using a scheme can fail.

use vstd::prelude::*;

verus! {

/// Why a matrix or a set of shares was turned down.
#[derive(Debug, Clone, Copy, PartialEq, Eq, Structural)]
pub enum SchemeError {
    /// The candidate is not a Hadamard matrix: it is empty or not square,
    /// holds an entry other than 1 and -1, or its rows are not orthogonal.
    InvalidMatrix,
    /// Fewer shares were handed in than the scheme needs.
    BelowThreshold,
    /// A share names a row that the matrix does not have.
    InvalidShare,
}

impl SchemeError {
    /// A short description of the failure.
    pub fn message(&self) -> (text: &'static str)
        ensures
            text@ == (match *self {
                SchemeError::InvalidMatrix => "something wrong with that matrix"@,
                SchemeError::BelowThreshold => "less than threshold parties"@,
                SchemeError::InvalidShare => "share of an unknown party"@,
            }),
    {
        match self {
            SchemeError::InvalidMatrix => "something wrong with that matrix",
            SchemeError::BelowThreshold => "less than threshold parties",
            SchemeError::InvalidShare => "share of an unknown party",
        }
    }
}

} // verus!
