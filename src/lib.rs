//! Single Transferable Vote counting over ranked ballots, with fixed-point
//! vote weights that are conserved exactly and deterministic tie-breaking.

pub mod ballot;
pub mod quota;
pub mod repeat;
pub mod sums;
pub mod tally;

use vstd::prelude::*;

verus! {

/// Why a count could not be carried out.
#[derive(Debug, Clone, Copy, PartialEq, Eq, Structural)]
pub enum TallyError {
    /// No seats, no candidates, no ballots, no valid vote, or a ballot that
    /// names an unknown candidate or the same candidate twice.
    InvalidInput,
    /// A ballot ranks two candidates at the same preference level.
    Ambiguous,
}

} // verus!
