//! Threshold secret sharing over the block design of a Hadamard matrix.
//!
//! A 32-bit secret is split into one share for each row of the incidence
//! matrix that a Hadamard matrix gives. A share holds the bits of the secret
//! that its row carries and random bits elsewhere. Enough shares put the
//! secret together again, and shares that contradict the others can be
//! pointed out.

use crate::error::SchemeError;
use crate::hadamard_matrix::{incidence_grid, is_hadamard_grid, normalized_grid, HadamardMatrix};
use crate::matrix::{dims, Matrix};
use crate::scheme_impl::{
    consistent, in_range, is_sharing, lists_suspects, reconstructs, Part, HSS,
};
use crate::scheme_traits::SharingScheme;
use vstd::prelude::*;

pub mod bits;
pub mod design;
pub mod error;
pub mod hadamard_matrix;
pub mod laws;
pub mod matrix;
pub mod random;
pub mod scheme_impl;
pub mod scheme_traits;

verus! {

/// The number of shares that suffice to put a secret together, for an
/// incidence matrix of order `d`.
pub open spec fn threshold_of(d: int) -> int {
    (d + 3) / 2
}

/// A sharing scheme built from a Hadamard matrix.
pub struct HadamardSSS {
    hss: HSS,
    threshold: usize,
}

impl HadamardSSS {
    #[verifier::type_invariant]
    spec fn well_formed(self) -> bool {
        self.threshold == threshold_of(self.hss@.len() as int)
    }

    /// The incidence matrix that the scheme splits along.
    pub closed spec fn incidence(&self) -> Seq<Seq<i32>> {
        self.hss@
    }

    /// The number of shares that `reconstruct` asks for.
    pub closed spec fn spec_threshold(&self) -> usize {
        self.threshold
    }

    /// The scheme over the incidence matrix of the normal form of `mtx`.
    ///
    /// Fails with `InvalidMatrix` exactly when `mtx` is not a Hadamard
    /// matrix.
    pub fn from(mtx: &Matrix) -> (res: Result<Self, SchemeError>)
        ensures
            !is_hadamard_grid(mtx@) ==> res == Err::<Self, SchemeError>(SchemeError::InvalidMatrix),
            is_hadamard_grid(mtx@) ==> res.is_ok() && res.unwrap().incidence() == incidence_grid(
                normalized_grid(mtx@),
            ) && res.unwrap().threshold() == threshold_of(mtx@.len() - 1),
    {
        match HadamardMatrix::from(mtx) {
            Err(e) => Err(e),
            Ok(mut had) => {
                let incidence_mtx = had.normalize().get_incidence();
                Ok(
                    HadamardSSS {
                        hss: HSS::from(&incidence_mtx),
                        threshold: HadamardSSS::get_threshold(&incidence_mtx),
                    },
                )
            },
        }
    }

    /// The number of shares that suffice for the incidence matrix `mtx`:
    /// half of its order plus three, rounded down.
    pub fn get_threshold(mtx: &Matrix) -> (threshold: usize)
        ensures
            threshold == threshold_of(mtx@.len() as int),
    {
        (dims(mtx).0 + 3) / 2
    }

    /// The number of shares that `reconstruct` asks for.
    #[verifier::when_used_as_spec(spec_threshold)]
    pub fn threshold(&self) -> (threshold: usize)
        ensures
            threshold == self.threshold(),
            threshold == threshold_of(self.incidence().len() as int),
    {
        proof {
            use_type_invariant(self);
        }
        self.threshold
    }

    /// Whether `parts` name rows of the matrix only and disagree on no bit.
    pub fn is_valid(&self, parts: Vec<Part>) -> (valid: bool)
        ensures
            valid == (in_range(self.incidence(), parts@) && consistent(self.incidence(), parts@)),
    {
        match self.hss.validate(parts) {
            Ok(suspects) => suspects.is_empty(),
            Err(_) => false,
        }
    }
}

impl SharingScheme for HadamardSSS {
    type Error = SchemeError;

    type SecretType = u32;

    type PartType = Part;

    /// Splits `secret` into one share for each row of the incidence matrix.
    fn share(&self, secret: u32) -> (res: Result<Vec<Part>, SchemeError>)
        ensures
            res.is_ok(),
            is_sharing(self.incidence(), secret, res.unwrap()@),
    {
        self.hss.share(secret)
    }

    /// Puts the secret together from `parts`.
    ///
    /// Fails with `BelowThreshold` where there are fewer shares than the
    /// threshold, and else with `InvalidShare` where a share names a row
    /// that the matrix does not have.
    fn reconstruct(&self, parts: Vec<Part>) -> (res: Result<u32, SchemeError>)
        ensures
            parts@.len() < self.threshold() ==> res == Err::<u32, SchemeError>(
                SchemeError::BelowThreshold,
            ),
            parts@.len() >= self.threshold() && !in_range(self.incidence(), parts@) ==> res == Err::<
                u32,
                SchemeError,
            >(SchemeError::InvalidShare),
            parts@.len() >= self.threshold() && in_range(self.incidence(), parts@) ==> res.is_ok()
                && reconstructs(self.incidence(), parts@, res.unwrap()),
    {
        if parts.len() < self.threshold {
            Err(SchemeError::BelowThreshold)
        } else {
            self.hss.reconstruct(parts)
        }
    }

    /// The rows named by shares that lose a disagreement, in ascending
    /// order; none exactly when the shares disagree on no bit.
    ///
    /// Fails with `InvalidShare` exactly when a share names a row that the
    /// matrix does not have.
    fn validate(&self, parts: Vec<Part>) -> (res: Result<Vec<usize>, SchemeError>)
        ensures
            !in_range(self.incidence(), parts@) ==> res == Err::<Vec<usize>, SchemeError>(
                SchemeError::InvalidShare,
            ),
            in_range(self.incidence(), parts@) ==> res.is_ok() && lists_suspects(
                self.incidence(),
                parts@,
                res.unwrap()@,
            ) && (res.unwrap()@.len() == 0) == consistent(self.incidence(), parts@),
    {
        self.hss.validate(parts)
    }
}

} // verus!
