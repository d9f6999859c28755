use vstd::prelude::*;

use crate::TallyError;

verus! {

/// Fixed-point units that make up one whole vote.
pub const SCALE: u64 = 1_000_000;

/// The Droop quota in whole votes: `floor(votes / (seats + 1)) + 1`.
pub open spec fn droop(votes: int, seats: int) -> int {
    votes / (seats + 1) + 1
}

/// Droop quota for `votes` valid votes and `seats` seats, in whole votes.
pub fn droop_quota(votes: u64, seats: u64) -> (r: Result<u64, TallyError>)
    ensures
        (votes == 0 || seats == 0) <==> r == Err::<u64, TallyError>(TallyError::InvalidInput),
        r is Ok <==> (votes > 0 && seats > 0),
        r matches Ok(q) ==> q == droop(votes as int, seats as int) && 1 <= q <= votes,
{
    if votes == 0 || seats == 0 {
        return Err(TallyError::InvalidInput);
    }
    let d: u64 = if seats == u64::MAX { 0 } else { votes / (seats + 1) };
    proof {
        let v = votes as int;
        let k = seats as int;
        if seats == u64::MAX {
            assert(v / (k + 1) == 0) by (nonlinear_arith)
                requires 0 <= v <= u64::MAX, k + 1 > v;
        } else {
            assert(d == v / (k + 1));
        }
        assert(v / (k + 1) <= v / 2) by (nonlinear_arith)
            requires k >= 1, v >= 1;
        assert(v / 2 + 1 <= v) by (nonlinear_arith)
            requires v >= 1;
    }
    Ok(d + 1)
}

} // verus!
