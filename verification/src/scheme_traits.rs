//! What a secret sharing scheme offers, whatever it is built on.

use vstd::prelude::*;

verus! {

/// A scheme that splits a secret into shares, puts a secret together again
/// from shares, and points out shares that contradict the others.
pub trait SharingScheme {
    /// Why an operation was turned down.
    type Error;

    /// What is shared.
    type SecretType;

    /// One share.
    type PartType;

    /// Splits `secret` into shares.
    fn share(&self, secret: Self::SecretType) -> Result<Vec<Self::PartType>, Self::Error>;

    /// Puts the secret together from `shares`.
    fn reconstruct(&self, shares: Vec<Self::PartType>) -> Result<Self::SecretType, Self::Error>;

    /// The numbers of the shares among `shares` that contradict the rest.
    fn validate(&self, shares: Vec<Self::PartType>) -> Result<Vec<usize>, Self::Error>;
}

} // verus!
