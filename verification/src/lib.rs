//! Core of a SHPLONK-style polynomial-commitment verifier.
//!
//! The verifier consumes a compiled protocol description, a list of public
//! statements and a transcript of prover messages, and deterministically
//! reconstructs two pairing-input commitments (`lhs`, `rhs`) as deferred
//! multi-scalar multiplications.  A caller-supplied strategy decides what to
//! do with the pair.

use vstd::prelude::*;

pub mod common;
pub mod expression;
pub mod field;
pub mod group;
pub mod laws;
pub mod loader;
pub mod multiopen;
pub mod protocol;
pub mod shplonk;
pub mod transcript;

verus! {

/// A structural failure of verification.  The first error aborts the run;
/// cryptographic rejection is never an `Error`, it is the strategy's output.
#[derive(Clone, Copy, PartialEq, Eq, Structural, Debug)]
pub enum Error {
    /// The statements do not match the protocol's statement counts.
    InvalidInstances,
    /// The transcript ended early or held a non-canonical encoding.
    TranscriptRead,
    /// A referenced evaluation is absent from the evaluation table.
    MissingQuery(expression::Query),
    /// A relation references a challenge index outside the squeezed range.
    MissingChallenge(usize),
    /// A scalar that the multi-open reduction must divide by had no inverse.
    NonInvertible,
}

} // verus!
