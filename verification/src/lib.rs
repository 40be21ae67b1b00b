//! A FRI-style low-degree test: a prover batches committed polynomial
//! evaluations, folds them round by round under random challenges while
//! committing to every layer, and answers sampled queries; a verifier
//! reconstructs the fold relation from the opened values and accepts or
//! rejects the transcript.

pub mod field;
pub mod group;
pub mod laws;
pub mod merkle;
pub mod protocol;

use vstd::prelude::*;

verus! {

/// The reasons a transcript is rejected, and the construction-time
/// shape errors.
#[derive(Clone, Copy, PartialEq, Eq, Structural, Debug)]
pub enum FriError {
    /// Input shapes disagree: polynomial lengths differ, or the
    /// transcript's round count does not match the degree.
    DegreeMismatch,
    /// A requested index lies outside the committed domain.
    IndexOutOfRange,
    /// An opening does not verify against the claimed commitment.
    MerkleProofInvalid,
    /// A fold-consistency check failed at some round and index.
    ProofInvalid,
}

} // verus!
