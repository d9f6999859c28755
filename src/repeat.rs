//! Two counts of one election end alike.

use vstd::prelude::*;

use crate::tally::{
    ahead, counted, is_run, round_step, ElectionResult, Status, TallyState,
};

verus! {

/// Two states that every later round reads alike.
pub open spec fn agree(s1: TallyState, s2: TallyState) -> bool {
    &&& s1.status@ == s2.status@
    &&& s1.elected@ == s2.elected@
    &&& s1.weights@ == s2.weights@
    &&& s1.standing == s2.standing
    &&& s1.seats == s2.seats
    &&& s1.quota == s2.quota
    &&& s1.total == s2.total
    &&& s1.rounds == s2.rounds
}

/// Two rounds from agreeing states, electing more candidates in both, elect
/// the same candidate at position `k` when they agree before it.
proof fn lemma_same_pick(s: TallyState, t1: TallyState, t2: TallyState, ballots: Seq<Vec<usize>>, k: int)
    requires
        s.wf(ballots),
        t1.wf(ballots),
        t2.wf(ballots),
        round_step(s, t1, ballots),
        round_step(s, t2, ballots),
        t1.held@ == t2.held@,
        t1.elected@.len() > s.elected@.len(),
        t2.elected@.len() > s.elected@.len(),
        s.elected@.len() <= s.elected@.len() + k < t1.elected@.len(),
        s.elected@.len() + k < t2.elected@.len(),
        forall|j: int| s.elected@.len() <= j < s.elected@.len() + k ==> t1.elected@[j] == t2.elected@[j],
    ensures
        t1.elected@[s.elected@.len() + k] == t2.elected@[s.elected@.len() + k],
{
    let e = s.elected@.len() as int;
    let x = t1.elected@[e + k];
    let y = t2.elected@[e + k];
    let h = t1.held@;
    if x != y {
        // y is ahead of x in the first round, and x ahead of y in the second.
        assert(ahead(h, x as int, y as int)) by {
            if t1.status@[y as int] != Status::Standing {
                assert(s.status@[y as int] == Status::Standing);
                let a = t1.elected@.subrange(e, t1.elected@.len() as int);
                assert(a.contains(y));
                let p = choose|p: int| 0 <= p < a.len() && a[p] == y;
                assert(t1.elected@[e + p] == y);
                if p < k {
                    assert(t2.elected@[e + p] == y);
                    assert(t2.elected@[e + p] != t2.elected@[e + k]);
                }
            }
        }
        assert(ahead(h, y as int, x as int)) by {
            if t2.status@[x as int] != Status::Standing {
                assert(s.status@[x as int] == Status::Standing);
                let b = t2.elected@.subrange(e, t2.elected@.len() as int);
                assert(b.contains(x));
                let p = choose|p: int| 0 <= p < b.len() && b[p] == x;
                assert(t2.elected@[e + p] == x);
                if p < k {
                    assert(t1.elected@[e + p] == x);
                    assert(t1.elected@[e + p] != t1.elected@[e + k]);
                }
            }
        }
    }
}

proof fn lemma_same_prefix(s: TallyState, t1: TallyState, t2: TallyState, ballots: Seq<Vec<usize>>, k: int)
    requires
        s.wf(ballots),
        t1.wf(ballots),
        t2.wf(ballots),
        round_step(s, t1, ballots),
        round_step(s, t2, ballots),
        t1.held@ == t2.held@,
        t1.elected@.len() > s.elected@.len(),
        t2.elected@.len() > s.elected@.len(),
        0 <= k,
        s.elected@.len() + k <= t1.elected@.len(),
        s.elected@.len() + k <= t2.elected@.len(),
    ensures
        forall|j: int| s.elected@.len() <= j < s.elected@.len() + k ==> t1.elected@[j] == t2.elected@[j],
    decreases k,
{
    if k > 0 {
        lemma_same_prefix(s, t1, t2, ballots, k - 1);
        lemma_same_pick(s, t1, t2, ballots, k - 1);
    }
}

/// Two rounds from one state that both elect more candidates elect the same
/// ones, in the same order.
#[verifier::rlimit(50)]
proof fn lemma_grown_determined(s1: TallyState, t1: TallyState, t2: TallyState, ballots: Seq<Vec<usize>>)
    requires
        s1.wf(ballots),
        t1.wf(ballots),
        t2.wf(ballots),
        round_step(s1, t1, ballots),
        round_step(s1, t2, ballots),
        t1.held@ == t2.held@,
        t1.elected@.len() > s1.elected@.len(),
        t2.elected@.len() > s1.elected@.len(),
    ensures
        t1.elected@ == t2.elected@,
        t1.status@ == t2.status@,
{
    let e = s1.elected@.len() as int;
    let n = s1.n();
    let l1 = t1.elected@.len() as int;
    let l2 = t2.elected@.len() as int;
    if l1 < l2 {
        lemma_same_prefix(s1, t1, t2, ballots, l1 - e);
        let y = t2.elected@[l1];
        if t1.status@[y as int] != s1.status@[y as int] {
            let a = t1.elected@.subrange(e, l1);
            assert(a.contains(y));
            let p = choose|p: int| 0 <= p < a.len() && a[p] == y;
            assert(t2.elected@[e + p] == y);
        }
    } else if l2 < l1 {
        lemma_same_prefix(s1, t1, t2, ballots, l2 - e);
        let y = t1.elected@[l2];
        if t2.status@[y as int] != s1.status@[y as int] {
            let b = t2.elected@.subrange(e, l2);
            assert(b.contains(y));
            let p = choose|p: int| 0 <= p < b.len() && b[p] == y;
            assert(t1.elected@[e + p] == y);
        }
    }
    assert(l1 == l2);
    lemma_same_prefix(s1, t1, t2, ballots, l1 - e);
    assert(t1.elected@ =~= t2.elected@) by {
        assert(t1.elected@.subrange(0, e) == s1.elected@);
        assert(t2.elected@.subrange(0, e) == s1.elected@);
        assert forall|j: int| 0 <= j < e implies t1.elected@[j] == t2.elected@[j] by {
            assert(t1.elected@.subrange(0, e)[j] == t1.elected@[j]);
            assert(t2.elected@.subrange(0, e)[j] == t2.elected@[j]);
        }
    }
    assert(t1.status@ =~= t2.status@) by {
        assert forall|c: int| 0 <= c < n implies t1.status@[c] == t2.status@[c] by {
            let a = t1.elected@.subrange(e, l1);
            if t1.status@[c] != s1.status@[c] {
                assert(a.contains(c as usize));
                let p = choose|p: int| 0 <= p < a.len() && a[p] == c as usize;
                assert(t1.elected@[e + p] == c);
                assert(t2.elected@[e + p] == c);
            } else if t2.status@[c] != s1.status@[c] {
                let b = t2.elected@.subrange(e, l1);
                assert(b.contains(c as usize));
                let p = choose|p: int| 0 <= p < b.len() && b[p] == c as usize;
                assert(t2.elected@[e + p] == c);
                assert(t1.elected@[e + p] == c);
            }
        }
    }
}

/// One round is determined by the state it starts from.
proof fn lemma_step_determined(
    s1: TallyState,
    s2: TallyState,
    t1: TallyState,
    t2: TallyState,
    ballots: Seq<Vec<usize>>,
)
    requires
        s1.wf(ballots),
        s2.wf(ballots),
        t1.wf(ballots),
        t2.wf(ballots),
        agree(s1, s2),
        round_step(s1, t1, ballots),
        round_step(s2, t2, ballots),
    ensures
        agree(t1, t2),
{
    let e = s1.elected@.len() as int;
    let n = s1.n();
    assert(t1.assign@ =~= t2.assign@);
    assert(t1.held@ =~= t2.held@) by {
        assert forall|c: int| 0 <= c < n implies t1.held@[c] == t2.held@[c] by {
            assert(s1.weights@ == s2.weights@);
        }
    }
    let grows1 = t1.elected@.len() > e;
    let grows2 = t2.elected@.len() > e;
    assert(grows1 == grows2);
    if grows1 {
        assert(round_step(s1, t2, ballots));
        lemma_grown_determined(s1, t1, t2, ballots);
    } else {
        let c1 = choose|e1: int| {
            &&& 0 <= e1 < s1.n()
            &&& s1.status@[e1] == Status::Standing
            &&& t1.status@ == s1.status@.update(e1, Status::Eliminated)
            &&& t1.elected@ == s1.elected@
            &&& forall|d: int| 0 <= d < s1.n() && s1.status@[d] == Status::Standing && d != e1
                ==> ahead(t1.held@, d, e1)
        };
        let c2 = choose|e2: int| {
            &&& 0 <= e2 < s2.n()
            &&& s2.status@[e2] == Status::Standing
            &&& t2.status@ == s2.status@.update(e2, Status::Eliminated)
            &&& t2.elected@ == s2.elected@
            &&& forall|d: int| 0 <= d < s2.n() && s2.status@[d] == Status::Standing && d != e2
                ==> ahead(t2.held@, d, e2)
        };
        if c1 != c2 {
            assert(ahead(t1.held@, c2, c1));
            assert(ahead(t2.held@, c1, c2));
        }
    }
    assert(t1.weights@ =~= t2.weights@);
}

/// Every two runs of one count agree round by round up to position `i`.
proof fn lemma_runs_agree(
    t1: Seq<TallyState>,
    t2: Seq<TallyState>,
    ballots: Seq<Vec<usize>>,
    n: nat,
    seats: nat,
    i: int,
)
    requires
        is_run(t1, ballots, n, seats),
        is_run(t2, ballots, n, seats),
        0 <= i < t1.len(),
        i < t2.len(),
    ensures
        agree(t1[i], t2[i]),
    decreases i,
{
    if i == 0 {
        assert(t1[0].wf(ballots) && t2[0].wf(ballots));
        assert(t1[0].status@ =~= t2[0].status@);
        assert(t1[0].elected@ =~= t2[0].elected@);
        assert(t1[0].weights@ =~= t2[0].weights@);
    } else {
        let j = i - 1;
        lemma_runs_agree(t1, t2, ballots, n, seats, j);
        assert(round_step(t1[j], t1[j + 1], ballots));
        assert(round_step(t2[j], t2[j + 1], ballots));
        assert(t1[j].wf(ballots) && t2[j].wf(ballots) && t1[i].wf(ballots) && t2[i].wf(ballots));
        lemma_step_determined(t1[j], t2[j], t1[i], t2[i], ballots);
    }
}

/// Counting one election twice gives the same number of rounds and the same
/// winners in the same order: a run of the count is determined by the
/// ballots, the number of candidates and the number of seats.
pub proof fn lemma_run_determined(
    t1: Seq<TallyState>,
    t2: Seq<TallyState>,
    ballots: Seq<Vec<usize>>,
    n: nat,
    seats: nat,
)
    requires
        is_run(t1, ballots, n, seats),
        is_run(t2, ballots, n, seats),
    ensures
        t1.len() == t2.len(),
        t1.last().elected@ == t2.last().elected@,
{
    if t1.len() < t2.len() {
        let i = t1.len() - 1;
        lemma_runs_agree(t1, t2, ballots, n, seats, i);
        assert(round_step(t2[i], t2[i + 1], ballots));
    } else if t2.len() < t1.len() {
        let i = t2.len() - 1;
        lemma_runs_agree(t1, t2, ballots, n, seats, i);
        assert(round_step(t1[i], t1[i + 1], ballots));
    }
    lemma_runs_agree(t1, t2, ballots, n, seats, t1.len() - 1);
}

/// Counting one election twice gives the same winners, with the same
/// ranks, after the same number of rounds.
pub proof fn lemma_count_repeatable(
    r1: ElectionResult,
    r2: ElectionResult,
    ballots: Seq<Vec<usize>>,
    n: nat,
    seats: nat,
)
    requires
        counted(r1, ballots, n, seats),
        counted(r2, ballots, n, seats),
    ensures
        r1.winners@ == r2.winners@,
        r1.rounds == r2.rounds,
{
    let t1 = choose|t: Seq<TallyState>| #[trigger] is_run(t, ballots, n, seats) && r1.rounds == t.len() - 1
        && forall|k: int| 0 <= k < r1.winners@.len() ==> r1.winners@[k].candidate == t.last().elected@[k];
    let t2 = choose|t: Seq<TallyState>| #[trigger] is_run(t, ballots, n, seats) && r2.rounds == t.len() - 1
        && forall|k: int| 0 <= k < r2.winners@.len() ==> r2.winners@[k].candidate == t.last().elected@[k];
    lemma_run_determined(t1, t2, ballots, n, seats);
    assert(r1.winners@.len() == r2.winners@.len());
    assert(r1.winners@ =~= r2.winners@) by {
        assert forall|k: int| 0 <= k < r1.winners@.len() implies r1.winners@[k] == r2.winners@[k] by {
            assert(r1.winners@[k].candidate == t1.last().elected@[k]);
            assert(r2.winners@[k].candidate == t2.last().elected@[k]);
        }
    }
}

} // verus!
