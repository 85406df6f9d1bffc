//! The error taxonomy of the engine.
//!
//! Validation errors (probabilities, depth ranges, sizes, rates, length
//! mismatches) are raised eagerly at construction time. Structural errors
//! (`IndexOutOfBounds`, `MalformedArena`) signal an inconsistent arena or
//! children relation supplied by a caller and propagate unchanged.

use vstd::prelude::*;

verus! {

/// Every failure the engine can report.
#[derive(Clone, Copy, Debug, PartialEq, Eq, Structural)]
pub enum GPError {
    /// A probability parameter lies outside `[0, PROB_ONE]`.
    InvalidProbability,
    /// A depth range has its minimum above its maximum.
    InvalidDepthRange,
    /// A tournament was configured with zero participants.
    InvalidTournamentSize,
    /// A mutation rate is negative.
    InvalidMutationRate,
    /// A clamping range has its lower bound above its upper bound.
    InvalidRange,
    /// Two parallel sequences that must have equal lengths do not.
    LengthMismatch,
    /// The operator catalog is empty or all its weights are zero.
    EmptyCatalog,
    /// No catalog symbol with positive weight has the requested arity.
    NoMatchingArity,
    /// A label is neither a catalog symbol nor an encoded literal.
    UnknownSymbol,
    /// A node index does not denote an arena position.
    IndexOutOfBounds,
    /// An arena does not decompose, in pre-order, into exactly one tree.
    MalformedArena,
    /// A selection was asked of an empty population.
    EmptyPopulation,
}

} // verus!
