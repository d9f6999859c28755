use vstd::prelude::*;

use crate::TallyError;

verus! {

/// A ballot over candidates `0..n`: every entry names a candidate and none
/// is listed twice.
pub open spec fn valid_ballot(b: Seq<usize>, n: nat) -> bool {
    &&& forall|i: int| 0 <= i < b.len() ==> b[i] < n
    &&& forall|i: int, j: int| 0 <= i < j < b.len() ==> b[i] != b[j]
}

/// Some two candidates share a preference code.
pub open spec fn has_tie(codes: Seq<i32>) -> bool {
    exists|i: int, j: int| 0 <= i < j < codes.len() && codes[i] == codes[j]
}

/// Whether `b` is a valid ballot over candidates `0..n`.
pub fn check_ballot(b: &Vec<usize>, n: usize) -> (r: bool)
    ensures
        r == valid_ballot(b@, n as nat),
{
    let mut seen: Vec<bool> = Vec::new();
    let mut k: usize = 0;
    while k < n
        invariant
            k <= n,
            seen@.len() == k,
            forall|c: int| 0 <= c < k ==> !seen@[c],
        decreases n - k,
    {
        seen.push(false);
        k = k + 1;
    }
    let mut i: usize = 0;
    while i < b.len()
        invariant
            i <= b@.len(),
            seen@.len() == n,
            forall|p: int| 0 <= p < i ==> b@[p] < n,
            forall|p: int, q: int| 0 <= p < q < i ==> b@[p] != b@[q],
            forall|c: int|
                0 <= c < n ==> (seen@[c] <==> exists|p: int| 0 <= p < i && b@[p] == c),
        decreases b@.len() - i,
    {
        let c = b[i];
        if c >= n {
            return false;
        }
        if seen[c] {
            let ghost c0 = c as int;
            assert(exists|p: int| 0 <= p < i && b@[p] == c0);
            return false;
        }
        seen.set(c, true);
        i = i + 1;
        proof {
            assert forall|c1: int|
                0 <= c1 < n implies (seen@[c1] <==> exists|p: int| 0 <= p < i && b@[p] == c1) by {
                if c1 == c {
                    assert(b@[i - 1] == c1);
                }
            }
        }
    }
    true
}

/// Candidates ordered by increasing preference code: `codes[c]` is the code
/// that one voter gave candidate `c`, and a lower code is a higher
/// preference. Two equal codes are a tie, which is refused.
pub fn order_by_rank(codes: &Vec<i32>) -> (r: Result<Vec<usize>, TallyError>)
    ensures
        r is Err <==> has_tie(codes@),
        r is Err ==> r == Err::<Vec<usize>, TallyError>(TallyError::Ambiguous),
        r matches Ok(order) ==> {
            &&& order@.len() == codes@.len()
            &&& forall|k: int| 0 <= k < order@.len() ==> order@[k] < codes@.len()
            &&& forall|k: int, l: int|
                0 <= k < l < order@.len() ==> codes@[order@[k] as int] < codes@[order@[l] as int]
        },
{
    let n = codes.len();
    let mut i: usize = 0;
    while i < n
        invariant
            n == codes@.len(),
            i <= n,
            forall|p: int, q: int| 0 <= p < q < i ==> codes@[p] != codes@[q],
        decreases n - i,
    {
        let mut j: usize = 0;
        while j < i
            invariant
                n == codes@.len(),
                j <= i < n,
                forall|p: int, q: int| 0 <= p < q < i ==> codes@[p] != codes@[q],
                forall|p: int| 0 <= p < j ==> codes@[p] != codes@[i as int],
            decreases i - j,
        {
            if codes[j] == codes[i] {
                return Err(TallyError::Ambiguous);
            }
            j = j + 1;
        }
        i = i + 1;
    }
    // No ties: insert each candidate into its place in a sorted list.
    let mut order: Vec<usize> = Vec::new();
    let mut c: usize = 0;
    while c < n
        invariant
            n == codes@.len(),
            c <= n,
            order@.len() == c,
            forall|p: int, q: int| 0 <= p < q < n ==> codes@[p] != codes@[q],
            forall|k: int| 0 <= k < order@.len() ==> order@[k] < c,
            forall|k: int, l: int|
                0 <= k < l < order@.len() ==> codes@[order@[k] as int] < codes@[order@[l] as int],
        decreases n - c,
    {
        let mut p: usize = 0;
        while p < order.len() && codes[order[p]] < codes[c]
            invariant
                n == codes@.len(),
                c < n,
                p <= order@.len(),
                forall|p: int, q: int| 0 <= p < q < n ==> codes@[p] != codes@[q],
                forall|k: int| 0 <= k < order@.len() ==> order@[k] < c,
                forall|k: int| 0 <= k < p ==> codes@[order@[k] as int] < codes@[c as int],
            decreases order@.len() - p,
        {
            p = p + 1;
        }
        proof {
            if p < order@.len() {
                // distinct codes, so the one at p is strictly greater
                let o = order@[p as int] as int;
                assert(o < c);
                assert(codes@[o] != codes@[c as int]);
            }
        }
        let ghost prev = order@;
        order.insert(p, c);
        proof {
            assert(order@ == prev.insert(p as int, c));
            assert forall|k: int, l: int|
                0 <= k < l < order@.len() implies codes@[order@[k] as int] < codes@[order@[l] as int] by {
                if p < prev.len() {
                    assert(codes@[prev[p as int] as int] > codes@[c as int]);
                }
            }
        }
        c = c + 1;
    }
    Ok(order)
}

} // verus!
