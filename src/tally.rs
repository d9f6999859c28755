use vstd::prelude::*;

use crate::ballot::{check_ballot, valid_ballot};
use crate::quota::{droop, droop_quota, SCALE};
use crate::sums::{
    lemma_sum_add, lemma_sum_elem, lemma_sum_nonneg, lemma_sum_push, lemma_sum_take,
    lemma_sum_update, sum,
};
use crate::TallyError;

verus! {

/// Where a candidate stands in the count. `Elected` and `Eliminated` are final.
#[derive(Debug, Clone, Copy, PartialEq, Eq, Structural)]
pub enum Status {
    Standing,
    Elected,
    Eliminated,
}

/// Most ballots that one count takes; their fixed-point weights sum within `u64`.
pub const MAX_BALLOTS: usize = 4_000_000_000;

/// Number of valid votes: ballots that rank at least one candidate.
pub open spec fn valid_votes(b: Seq<Vec<usize>>) -> nat
    decreases b.len(),
{
    if b.len() == 0 {
        0
    } else {
        valid_votes(b.drop_last()) + if b.last()@.len() > 0 {
            1nat
        } else {
            0nat
        }
    }
}

/// An election that can be counted: at least one seat and one candidate,
/// every ballot valid over candidates `0..n`, and at least one valid vote.
pub open spec fn valid_input(ballots: Seq<Vec<usize>>, n: nat, seats: nat) -> bool {
    &&& seats >= 1
    &&& n >= 1
    &&& forall|i: int| 0 <= i < ballots.len() ==> valid_ballot(#[trigger] ballots[i]@, n)
    &&& valid_votes(ballots) >= 1
}

/// The first candidate on ballot `b` who is still standing, if any.
pub open spec fn first_standing(b: Seq<usize>, st: Seq<Status>) -> Option<usize>
    decreases b.len(),
{
    if b.len() == 0 {
        None
    } else if b[0] < st.len() && st[b[0] as int] == Status::Standing {
        Some(b[0])
    } else {
        first_standing(b.drop_first(), st)
    }
}

/// Weight that passes on from a ballot of weight `w` held by a candidate
/// elected with vote total `total`: its share of the surplus over `quota`
/// with `surplus`, else nothing.
pub open spec fn passed_weight(w: u64, total: u64, quota: u64, surplus: bool) -> int {
    if surplus {
        scaled(w, (total - quota) as u64, total)
    } else {
        scaled(w, 0, 1)
    }
}

/// Candidate `a` comes before candidate `b` in the order of election: a
/// larger vote total, or an equal one and a smaller identifier.
pub open spec fn ahead(held: Seq<u64>, a: int, b: int) -> bool {
    held[a] > held[b] || (held[a] == held[b] && a < b)
}

/// Number of standing candidates.
pub open spec fn count_standing(st: Seq<Status>) -> nat
    decreases st.len(),
{
    if st.len() == 0 {
        0
    } else {
        count_standing(st.drop_last()) + if st.last() == Status::Standing {
            1nat
        } else {
            0nat
        }
    }
}

/// Total weight of the ballots that `assign` gives to candidate `c`.
pub open spec fn held_by(w: Seq<u64>, assign: Seq<Option<usize>>, c: usize) -> int
    decreases w.len(),
{
    if w.len() == 0 || assign.len() < w.len() {
        0
    } else {
        held_by(w.drop_last(), assign, c) + if assign[w.len() - 1] == Some(c) {
            w.last() as int
        } else {
            0
        }
    }
}

/// Weight `w` times `num / den`, rounded down.
pub open spec fn scaled(w: u64, num: u64, den: u64) -> int {
    w as int * num as int / den as int
}

proof fn lemma_first_standing(b: Seq<usize>, st: Seq<Status>)
    ensures
        first_standing(b, st) matches Some(c) ==> c < st.len() && st[c as int] == Status::Standing,
    decreases b.len(),
{
    if b.len() > 0 {
        lemma_first_standing(b.drop_first(), st);
    }
}

proof fn lemma_count_update(st: Seq<Status>, i: int, v: Status)
    requires
        0 <= i < st.len(),
        v != Status::Standing,
    ensures
        st[i] == Status::Standing ==> count_standing(st.update(i, v)) + 1 == count_standing(st),
        st[i] != Status::Standing ==> count_standing(st.update(i, v)) == count_standing(st),
    decreases st.len(),
{
    let t = st.update(i, v);
    if i == st.len() - 1 {
        assert(t.drop_last() =~= st.drop_last());
    } else {
        lemma_count_update(st.drop_last(), i, v);
        assert(t.drop_last() =~= st.drop_last().update(i, v));
    }
}

proof fn lemma_count_none(st: Seq<Status>)
    requires
        forall|i: int| 0 <= i < st.len() ==> st[i] != Status::Standing,
    ensures
        count_standing(st) == 0,
    decreases st.len(),
{
    if st.len() > 0 {
        lemma_count_none(st.drop_last());
    }
}

proof fn lemma_count_pos(st: Seq<Status>, i: int)
    requires
        0 <= i < st.len(),
        st[i] == Status::Standing,
    ensures
        count_standing(st) >= 1,
    decreases st.len(),
{
    if i < st.len() - 1 {
        lemma_count_pos(st.drop_last(), i);
    }
}

proof fn lemma_count_all(st: Seq<Status>)
    requires
        forall|i: int| 0 <= i < st.len() ==> st[i] == Status::Standing,
    ensures
        count_standing(st) == st.len(),
    decreases st.len(),
{
    if st.len() > 0 {
        lemma_count_all(st.drop_last());
    }
}

proof fn lemma_held_step(w: Seq<u64>, assign: Seq<Option<usize>>, i: int, c: usize)
    requires
        0 <= i < w.len(),
        assign.len() > i,
    ensures
        held_by(w.take(i + 1), assign, c) == held_by(w.take(i), assign, c) + if assign[i] == Some(
            c,
        ) {
            w[i] as int
        } else {
            0
        },
{
    assert(w.take(i + 1).drop_last() =~= w.take(i));
}

proof fn lemma_held_prefix(w: Seq<u64>, a: Seq<Option<usize>>, b: Seq<Option<usize>>, c: usize)
    requires
        a.len() >= w.len(),
        b.len() >= w.len(),
        forall|k: int| 0 <= k < w.len() ==> a[k] == b[k],
    ensures
        held_by(w, a, c) == held_by(w, b, c),
    decreases w.len(),
{
    if w.len() > 0 {
        lemma_held_prefix(w.drop_last(), a, b, c);
    }
}

/// `w * num / den` does not exceed `w` when `num <= den`.
proof fn lemma_scale_le(w: int, num: int, den: int)
    requires
        0 <= w,
        0 <= num <= den,
        0 < den,
    ensures
        0 <= w * num / den <= w,
{
    assert(0 <= w * num <= w * den) by (nonlinear_arith)
        requires 0 <= w, 0 <= num <= den;
    vstd::arithmetic::div_mod::lemma_div_is_ordered(w * num, w * den, den);
    vstd::arithmetic::div_mod::lemma_div_multiples_vanish(w, den);
    assert(den * w == w * den) by (nonlinear_arith);
    vstd::arithmetic::div_mod::lemma_div_pos_is_pos(w * num, den);
}

/// The first standing candidate on ballot `b`.
pub fn next_standing(b: &Vec<usize>, st: &Vec<Status>) -> (r: Option<usize>)
    ensures
        r == first_standing(b@, st@),
{
    let mut i: usize = 0;
    assert(b@.subrange(0, b@.len() as int) =~= b@);
    while i < b.len()
        invariant
            i <= b@.len(),
            first_standing(b@, st@) == first_standing(b@.subrange(i as int, b@.len() as int), st@),
        decreases b@.len() - i,
    {
        let ghost rest = b@.subrange(i as int, b@.len() as int);
        assert(rest.drop_first() =~= b@.subrange(i + 1, b@.len() as int));
        let c = b[i];
        if c < st.len() && st[c] == Status::Standing {
            return Some(c);
        }
        i = i + 1;
    }
    assert(b@.subrange(i as int, b@.len() as int).len() == 0);
    None
}

/// The state before the first round of a count of `ballots` over candidates
/// `0..n` for `seats` seats.
pub open spec fn initial(s: TallyState, ballots: Seq<Vec<usize>>, n: nat, seats: nat) -> bool {
    &&& s.n() == n
    &&& s.seats == seats
    &&& s.rounds == 0
    &&& s.standing == n
    &&& s.elected@.len() == 0
    &&& s.eliminated == 0
    &&& s.exhausted == 0
    &&& forall|c: int| 0 <= c < n ==> s.status@[c] == Status::Standing
    &&& forall|i: int| 0 <= i < ballots.len() ==> s.weights@[i] == if ballots[i]@.len() > 0 {
        SCALE
    } else {
        0
    }
    &&& s.total == valid_votes(ballots) * SCALE
    &&& s.quota == droop(valid_votes(ballots) as int, seats as int) * SCALE
}

/// `trace` is a whole count: the initial state, then the state after each
/// round, until every seat is filled or nobody is left standing.
pub open spec fn is_run(trace: Seq<TallyState>, ballots: Seq<Vec<usize>>, n: nat, seats: nat) -> bool {
    &&& trace.len() >= 1
    &&& initial(trace[0], ballots, n, seats)
    &&& forall|i: int| 0 <= i < trace.len() ==> #[trigger] trace[i].wf(ballots)
    &&& rounds_follow(trace, ballots)
    &&& trace.last().finished()
}

/// Each state of `trace` but the first follows from the one before it by
/// one round.
pub open spec fn rounds_follow(trace: Seq<TallyState>, ballots: Seq<Vec<usize>>) -> bool {
    forall|i: int| 0 <= i < trace.len() - 1 ==> #[trigger] round_step(trace[i], trace[i + 1], ballots)
}

/// A run of rounds extends by one more round from its last state.
proof fn lemma_extend_run(trace: Seq<TallyState>, next: TallyState, ballots: Seq<Vec<usize>>)
    requires
        trace.len() >= 1,
        rounds_follow(trace, ballots),
        round_step(trace.last(), next, ballots),
        forall|i: int| 0 <= i < trace.len() ==> #[trigger] trace[i].wf(ballots),
        next.wf(ballots),
    ensures
        rounds_follow(trace.push(next), ballots),
        forall|i: int| 0 <= i < trace.len() + 1 ==> #[trigger] trace.push(next)[i].wf(ballots),
{
    let t = trace.push(next);
    assert forall|i: int| 0 <= i < t.len() implies #[trigger] t[i].wf(ballots) by {
        if i < trace.len() {
            assert(t[i] == trace[i]);
        }
    }
    assert forall|i: int| 0 <= i < t.len() - 1 implies #[trigger] round_step(t[i], t[i + 1], ballots) by {
        if i < trace.len() - 1 {
            assert(t[i] == trace[i] && t[i + 1] == trace[i + 1]);
            assert(round_step(trace[i], trace[i + 1], ballots));
        } else {
            assert(t[i] == trace.last() && t[i + 1] == next);
        }
    }
}

/// What one round does to the state `s`, giving `t`: see `TallyState::round`.
pub open spec fn round_step(s: TallyState, t: TallyState, ballots: Seq<Vec<usize>>) -> bool {
    &&& !s.finished()
    &&& t.elected@.len() > s.elected@.len() ==> forall|c: int| 0 <= c < s.n() && t.status@[c] != s.status@[c]
        ==> t.elected@.subrange(s.elected@.len() as int, t.elected@.len() as int).contains(c as usize)
    &&& forall|k: int, c: int| s.elected@.len() <= k < t.elected@.len() && 0 <= c < t.n()
        && t.status@[c] == Status::Standing ==> ahead(t.held@, t.elected@[k] as int, c)
    &&& t.n() == s.n()
    &&& t.seats == s.seats
    &&& t.quota == s.quota
    &&& t.total == s.total
    &&& t.rounds == s.rounds + 1
    &&& t.standing < s.standing
    &&& t.elected@.len() >= s.elected@.len()
    &&& t.elected@.subrange(0, s.elected@.len() as int) == s.elected@
    &&& forall|k: int| s.elected@.len() <= k < t.elected@.len()
        ==> s.status@[t.elected@[k] as int] == Status::Standing
    &&& forall|c: int| 0 <= c < s.n() ==> t.status@[c] == s.status@[c]
        || s.status@[c] == Status::Standing
    &&& forall|i: int| 0 <= i < ballots.len() ==> t.assign@[i] == first_standing(ballots[i]@, s.status@)
    &&& forall|c: int| 0 <= c < t.n() ==> t.held@[c] == held_by(s.weights@, t.assign@, c as usize)
    &&& (exists|c: int| 0 <= c < s.n() && s.status@[c] == Status::Standing
        && t.held@[c] >= t.quota)
        ==> t.elected@.len() > s.elected@.len()
    &&& s.standing + s.elected@.len() <= s.seats ==> {
        &&& t.standing == 0
        &&& t.elected@.len() == s.elected@.len() + s.standing
        &&& forall|k: int, l: int| s.elected@.len() <= k < l < t.elected@.len()
            ==> ahead(t.held@, t.elected@[k] as int, t.elected@[l] as int)
    }
    &&& s.standing + s.elected@.len() > s.seats ==> {
        &&& forall|k: int| s.elected@.len() <= k < t.elected@.len()
            ==> t.held@[t.elected@[k] as int] >= t.quota
        &&& forall|k: int, l: int| s.elected@.len() <= k < l < t.elected@.len()
            ==> ahead(t.held@, t.elected@[k] as int, t.elected@[l] as int)
        &&& t.elected@.len() < t.seats ==> forall|c: int| 0 <= c < t.n()
            && t.status@[c] == Status::Standing ==> t.held@[c] < t.quota
    }
    &&& (s.standing + s.elected@.len() > s.seats && forall|c: int|
        0 <= c < s.n() && s.status@[c] == Status::Standing
        ==> t.held@[c] < t.quota) ==> exists|e: int| {
        &&& 0 <= e < s.n()
        &&& s.status@[e] == Status::Standing
        &&& t.status@ == s.status@.update(e, Status::Eliminated)
        &&& t.elected@ == s.elected@
        &&& forall|d: int| 0 <= d < s.n() && s.status@[d] == Status::Standing && d != e
            ==> ahead(t.held@, d, e)
    }
    &&& forall|i: int| 0 <= i < ballots.len() ==> t.weights@[i] == match t.assign@[i] {
        Some(c) => if t.elected@.subrange(s.elected@.len() as int, t.elected@.len() as int).contains(c) {
            passed_weight(s.weights@[i], t.held@[c as int], t.quota,
                s.standing + s.elected@.len() > s.seats)
        } else {
            s.weights@[i] as int
        },
        None => 0,
    }
}

#[derive(Debug)]
/// Counting state of one election over candidates `0..n`, where `n` is the
/// length of `status`. Vote weights are fixed-point values.
pub struct TallyState {
    /// Status of each candidate.
    pub status: Vec<Status>,
    /// Current weight of each ballot; zero once it is exhausted or kept.
    pub weights: Vec<u64>,
    /// Weight that each elected candidate keeps, including what rounding
    /// down its transfers left behind.
    pub retained: Vec<u64>,
    /// Vote total of each standing candidate at the last tabulation.
    pub held: Vec<u64>,
    /// Candidate that holds each ballot at the last tabulation.
    pub assign: Vec<Option<usize>>,
    /// Weight of exhausted ballots.
    pub exhausted: u64,
    /// Elected candidates, in the order of their election.
    pub elected: Vec<usize>,
    /// Number of standing candidates.
    pub standing: usize,
    /// Number of eliminated candidates.
    pub eliminated: usize,
    /// Seats to fill.
    pub seats: usize,
    /// Weight that elects a candidate.
    pub quota: u64,
    /// Weight of all valid votes.
    pub total: u64,
    /// Rounds counted so far.
    pub rounds: usize,
}

impl TallyState {
    pub open spec fn n(&self) -> nat {
        self.status@.len()
    }

    /// The state before the first round: every candidate standing, every
    /// valid ballot at full weight, and the Droop quota over the valid votes.
    pub fn new(ballots: &Vec<Vec<usize>>, n: usize, seats: usize) -> (r: TallyState)
        requires
            valid_input(ballots@, n as nat, seats as nat),
            ballots@.len() <= MAX_BALLOTS,
        ensures
            r.wf(ballots@),
            initial(r, ballots@, n as nat, seats as nat),
    {
        let mut weights: Vec<u64> = Vec::new();
        let mut assign: Vec<Option<usize>> = Vec::new();
        let mut votes: u64 = 0;
        let mut i: usize = 0;
        while i < ballots.len()
            invariant
                ballots@.len() <= MAX_BALLOTS,
                i <= ballots@.len(),
                weights@.len() == i,
                assign@.len() == i,
                votes <= i,
                votes == valid_votes(ballots@.take(i as int)),
                sum(weights@) == votes * SCALE,
                forall|j: int| 0 <= j < i ==> assign@[j] is None,
                forall|j: int| 0 <= j < i ==> weights@[j] == if ballots@[j]@.len() > 0 {
                    SCALE
                } else {
                    0
                },
            decreases ballots@.len() - i,
        {
            proof {
                assert(ballots@.take(i + 1).drop_last() =~= ballots@.take(i as int));
            }
            if ballots[i].len() > 0 {
                proof {
                    lemma_sum_push(weights@, SCALE);
                }
                weights.push(SCALE);
                votes = votes + 1;
            } else {
                proof {
                    lemma_sum_push(weights@, 0);
                }
                weights.push(0);
            }
            assign.push(None);
            i = i + 1;
        }
        proof {
            assert(ballots@.take(ballots@.len() as int) =~= ballots@);
        }
        let mut status: Vec<Status> = Vec::new();
        let mut retained: Vec<u64> = Vec::new();
        let mut held: Vec<u64> = Vec::new();
        let mut k: usize = 0;
        while k < n
            invariant
                k <= n,
                status@.len() == k,
                retained@.len() == k,
                held@.len() == k,
                forall|c: int| 0 <= c < k ==> status@[c] == Status::Standing,
                forall|c: int| 0 <= c < k ==> retained@[c] == 0,
                sum(retained@) == 0,
            decreases n - k,
        {
            proof {
                lemma_sum_push(retained@, 0);
            }
            status.push(Status::Standing);
            retained.push(0);
            held.push(0);
            k = k + 1;
        }
        proof {
            lemma_count_all(status@);
        }
        let q = match droop_quota(votes, seats as u64) {
            Ok(q) => q,
            Err(_) => 1,
        };
        proof {
            assert(q * SCALE <= votes * SCALE) by (nonlinear_arith)
                requires q <= votes;
            assert(q * SCALE >= 1) by (nonlinear_arith)
                requires q >= 1;
        }
        TallyState {
            status,
            weights,
            retained,
            held,
            assign,
            exhausted: 0,
            elected: Vec::new(),
            standing: n,
            eliminated: 0,
            seats,
            quota: q * SCALE,
            total: votes * SCALE,
            rounds: 0,
        }
    }

    /// The invariant of the count, for the given ballots.
    pub open spec fn wf(&self, ballots: Seq<Vec<usize>>) -> bool {
        let n = self.n();
        &&& n <= usize::MAX
        &&& self.retained@.len() == n
        &&& self.held@.len() == n
        &&& self.weights@.len() == ballots.len()
        &&& self.assign@.len() == ballots.len()
        &&& sum(self.weights@) + sum(self.retained@) + self.exhausted == self.total
        &&& forall|c: int| 0 <= c < n && self.status@[c] != Status::Elected ==> self.retained@[c] == 0
        &&& forall|i: int| 0 <= i < ballots.len() ==> (#[trigger] self.assign@[i] matches Some(c) ==> c < n)
        &&& self.standing == count_standing(self.status@)
        &&& self.standing + self.elected@.len() + self.eliminated == n
        &&& self.elected@.len() <= self.seats
        &&& forall|k: int| 0 <= k < self.elected@.len() ==> self.elected@[k] < n
            && self.status@[self.elected@[k] as int] == Status::Elected
        &&& forall|k: int, l: int| 0 <= k < l < self.elected@.len() ==> self.elected@[k] != self.elected@[l]
        &&& self.standing + self.elected@.len() >= if self.seats <= n { self.seats as nat } else { n }
        &&& self.rounds + self.standing <= n
        &&& 1 <= self.seats
        &&& 1 <= self.quota
    }

    /// The count is over: every seat is filled or nobody is left standing.
    pub open spec fn finished(&self) -> bool {
        self.elected@.len() == self.seats || self.standing == 0
    }

    /// Gives each ballot to its first standing candidate and sums each
    /// candidate's ballots. A ballot with nobody left standing is exhausted:
    /// its weight moves to `exhausted`.
    pub fn tabulate(&mut self, ballots: &Vec<Vec<usize>>)
        requires
            old(self).wf(ballots@),
        ensures
            final(self).wf(ballots@),
            final(self).status == old(self).status,
            final(self).retained == old(self).retained,
            final(self).elected == old(self).elected,
            final(self).standing == old(self).standing,
            final(self).eliminated == old(self).eliminated,
            final(self).seats == old(self).seats,
            final(self).quota == old(self).quota,
            final(self).total == old(self).total,
            final(self).rounds == old(self).rounds,
            forall|i: int| 0 <= i < ballots@.len() ==> final(self).assign@[i] == first_standing(ballots@[i]@, old(self).status@),
            forall|i: int| 0 <= i < ballots@.len() ==> final(self).weights@[i] == if final(self).assign@[i] is Some {
                old(self).weights@[i]
            } else {
                0
            },
            forall|c: int| 0 <= c < final(self).n() && final(self).status@[c] != Status::Standing ==> final(self).held@[c] == 0,
            forall|c: int| 0 <= c < final(self).n() ==> final(self).held@[c] == held_by(old(self).weights@, final(self).assign@, c as usize),
            sum(final(self).held@) + final(self).exhausted == sum(old(self).weights@) + old(self).exhausted,
    {
        let ghost w0 = self.weights@;
        let ghost e0 = self.exhausted;
        let n = self.status.len();
        let mut held: Vec<u64> = Vec::new();
        let mut k: usize = 0;
        while k < n
            invariant
                k <= n,
                n == self.status@.len(),
                held@.len() == k,
                forall|c: int| 0 <= c < k ==> held@[c] == 0,
                sum(held@) == 0,
            decreases n - k,
        {
            proof {
                lemma_sum_push(held@, 0);
            }
            held.push(0);
            k = k + 1;
        }
        let mut assign: Vec<Option<usize>> = Vec::new();
        let mut i: usize = 0;
        while i < ballots.len()
            invariant
                old(self).wf(ballots@),
                self.status == old(self).status,
                self.retained == old(self).retained,
                self.total == old(self).total,
                self.elected == old(self).elected,
                self.standing == old(self).standing,
                self.eliminated == old(self).eliminated,
                self.seats == old(self).seats,
                self.quota == old(self).quota,
                self.rounds == old(self).rounds,
                w0 == old(self).weights@,
                e0 == old(self).exhausted,
                n == self.status@.len(),
                i <= ballots@.len(),
                held@.len() == n,
                assign@.len() == i,
                self.weights@.len() == ballots@.len(),
                sum(self.weights@) + sum(self.retained@) + self.exhausted == self.total,
                sum(held@) + self.exhausted == sum(w0.take(i as int)) + e0,
                forall|j: int| i <= j < ballots@.len() ==> self.weights@[j] == w0[j],
                forall|j: int| 0 <= j < i ==> assign@[j] == first_standing(ballots@[j]@, self.status@),
                forall|j: int| 0 <= j < i ==> (#[trigger] assign@[j] matches Some(c) ==> c < n),
                forall|j: int| 0 <= j < i ==> self.weights@[j] == if assign@[j] is Some { w0[j] } else { 0 },
                forall|c: int| 0 <= c < n && self.status@[c] != Status::Standing ==> held@[c] == 0,
                forall|c: int| 0 <= c < n ==> held@[c] == held_by(w0.take(i as int), assign@, c as usize),
            decreases ballots@.len() - i,
        {
            let h = next_standing(&ballots[i], &self.status);
            let w = self.weights[i];
            proof {
                lemma_first_standing(ballots@[i as int]@, self.status@);
                lemma_sum_take(w0, i as int);
                lemma_sum_nonneg(self.retained@);
                lemma_sum_nonneg(w0);
            }
            let ghost a0 = assign@;
            assign.push(h);
            proof {
                assert forall|c: int| 0 <= c < n implies #[trigger] held_by(w0.take(i as int), assign@, c as usize)
                    == held_by(w0.take(i as int), a0, c as usize) by {
                    lemma_held_prefix(w0.take(i as int), assign@, a0, c as usize);
                }
                assert forall|c: int| 0 <= c < n implies #[trigger] held_by(w0.take(i + 1), assign@, c as usize)
                    == held_by(w0.take(i as int), assign@, c as usize) + if assign@[i as int] == Some(c as usize) {
                        w0[i as int] as int
                    } else {
                        0
                    } by {
                    lemma_held_step(w0, assign@, i as int, c as usize);
                }
            }
            match h {
                Some(c) => {
                    proof {
                        lemma_sum_elem(held@, c as int);
                        lemma_sum_update(held@, c as int, (held@[c as int] + w) as u64);
                    }
                    held.set(c, held[c] + w);
                },
                None => {
                    proof {
                        lemma_sum_elem(self.weights@, i as int);
                        lemma_sum_update(self.weights@, i as int, 0);
                    }
                    self.exhausted = self.exhausted + w;
                    self.weights.set(i, 0);
                },
            }
            i = i + 1;
        }
        proof {
            assert(w0.take(ballots@.len() as int) =~= w0);
        }
        self.held = held;
        self.assign = assign;
    }

    /// Passes on the ballots that candidate `c` held at the last tabulation,
    /// each at its weight times `num / den` (rounded down). Candidate `c`
    /// keeps the rest of each weight.
    pub fn transfer(&mut self, ballots: &Vec<Vec<usize>>, c: usize, num: u64, den: u64)
        requires
            old(self).wf(ballots@),
            c < old(self).n(),
            old(self).status@[c as int] == Status::Elected,
            num <= den,
            0 < den,
        ensures
            final(self).wf(ballots@),
            final(self).status == old(self).status,
            final(self).held == old(self).held,
            final(self).assign == old(self).assign,
            final(self).exhausted == old(self).exhausted,
            final(self).elected == old(self).elected,
            final(self).standing == old(self).standing,
            final(self).eliminated == old(self).eliminated,
            final(self).seats == old(self).seats,
            final(self).quota == old(self).quota,
            final(self).total == old(self).total,
            final(self).rounds == old(self).rounds,
            forall|i: int| 0 <= i < ballots@.len() ==> final(self).weights@[i] == if old(self).assign@[i] == Some(c) {
                scaled(old(self).weights@[i], num, den)
            } else {
                old(self).weights@[i] as int
            },
            forall|d: int| 0 <= d < old(self).n() && d != c ==> final(self).retained@[d] == old(self).retained@[d],
            final(self).retained@[c as int] >= old(self).retained@[c as int],
    {
        let ghost w0 = self.weights@;
        let mut i: usize = 0;
        while i < self.weights.len()
            invariant
                old(self).wf(ballots@),
                self.status == old(self).status,
                self.held == old(self).held,
                self.assign == old(self).assign,
                self.exhausted == old(self).exhausted,
                self.elected == old(self).elected,
                self.standing == old(self).standing,
                self.eliminated == old(self).eliminated,
                self.seats == old(self).seats,
                self.quota == old(self).quota,
                self.total == old(self).total,
                self.rounds == old(self).rounds,
                w0 == old(self).weights@,
                c < self.status@.len(),
                num <= den,
                0 < den,
                i <= self.weights@.len(),
                self.weights@.len() == ballots@.len(),
                self.retained@.len() == self.status@.len(),
                sum(self.weights@) + sum(self.retained@) + self.exhausted == self.total,
                forall|j: int| i <= j < ballots@.len() ==> self.weights@[j] == w0[j],
                forall|j: int| 0 <= j < i ==> self.weights@[j] == if self.assign@[j] == Some(c) {
                    scaled(w0[j], num, den)
                } else {
                    w0[j] as int
                },
                forall|d: int| 0 <= d < self.status@.len() && d != c ==> self.retained@[d] == old(self).retained@[d],
                self.retained@[c as int] >= old(self).retained@[c as int],
            decreases self.weights@.len() - i,
        {
            if self.assign[i] == Some(c) {
                let w = self.weights[i];
                proof {
                    lemma_scale_le(w as int, num as int, den as int);
                    assert((w as u128) * (num as u128) <= u64::MAX as u128 * u64::MAX as u128) by (nonlinear_arith)
                        requires w <= u64::MAX, num <= u64::MAX;
                }
                let nw = ((w as u128) * (num as u128) / (den as u128)) as u64;
                proof {
                    lemma_sum_elem(self.weights@, i as int);
                    lemma_sum_elem(self.retained@, c as int);
                    lemma_sum_nonneg(self.weights@);
                    lemma_sum_nonneg(self.retained@);
                    lemma_sum_update(self.weights@, i as int, nw);
                    lemma_sum_update(self.retained@, c as int, (self.retained@[c as int] + (w - nw)) as u64);
                }
                self.weights.set(i, nw);
                let r = self.retained[c];
                self.retained.set(c, r + (w - nw));
            }
            i = i + 1;
        }
    }

    /// Marks standing candidate `c` elected, next in order.
    pub fn elect(&mut self, ballots: &Vec<Vec<usize>>, c: usize)
        requires
            old(self).wf(ballots@),
            c < old(self).n(),
            old(self).status@[c as int] == Status::Standing,
            old(self).elected@.len() < old(self).seats,
        ensures
            final(self).wf(ballots@),
            final(self).status@ == old(self).status@.update(c as int, Status::Elected),
            final(self).elected@ == old(self).elected@.push(c),
            final(self).standing + 1 == old(self).standing,
            final(self).weights == old(self).weights,
            final(self).retained == old(self).retained,
            final(self).held == old(self).held,
            final(self).assign == old(self).assign,
            final(self).exhausted == old(self).exhausted,
            final(self).eliminated == old(self).eliminated,
            final(self).seats == old(self).seats,
            final(self).quota == old(self).quota,
            final(self).total == old(self).total,
            final(self).rounds == old(self).rounds,
    {
        proof {
            lemma_count_update(self.status@, c as int, Status::Elected);
        }
        self.status.set(c, Status::Elected);
        self.elected.push(c);
        self.standing = self.standing - 1;
    }

    /// Marks standing candidate `c` eliminated.
    pub fn eliminate(&mut self, ballots: &Vec<Vec<usize>>, c: usize)
        requires
            old(self).wf(ballots@),
            c < old(self).n(),
            old(self).status@[c as int] == Status::Standing,
            old(self).standing + old(self).elected@.len() > old(self).seats,
        ensures
            final(self).wf(ballots@),
            final(self).status@ == old(self).status@.update(c as int, Status::Eliminated),
            final(self).elected == old(self).elected,
            final(self).standing + 1 == old(self).standing,
            final(self).eliminated == old(self).eliminated + 1,
            final(self).weights == old(self).weights,
            final(self).retained == old(self).retained,
            final(self).held == old(self).held,
            final(self).assign == old(self).assign,
            final(self).exhausted == old(self).exhausted,
            final(self).seats == old(self).seats,
            final(self).quota == old(self).quota,
            final(self).total == old(self).total,
            final(self).rounds == old(self).rounds,
    {
        proof {
            lemma_count_update(self.status@, c as int, Status::Eliminated);
        }
        let n = self.status.len();
        proof {
            assert(self.eliminated < n);
        }
        self.status.set(c, Status::Eliminated);
        self.eliminated = self.eliminated + 1;
        self.standing = self.standing - 1;
    }

    /// The standing candidate with the largest vote total; among equal
    /// totals, the one with the smallest identifier.
    pub fn strongest(&self) -> (r: Option<usize>)
        requires
            self.held@.len() == self.n(),
        ensures
            r is None <==> forall|c: int| 0 <= c < self.n() ==> self.status@[c] != Status::Standing,
            r matches Some(c) ==> {
                &&& c < self.n()
                &&& self.status@[c as int] == Status::Standing
                &&& forall|d: int| 0 <= d < self.n() && self.status@[d] == Status::Standing
                    ==> self.held@[d] <= self.held@[c as int]
                &&& forall|d: int| 0 <= d < c && self.status@[d] == Status::Standing
                    ==> self.held@[d] < self.held@[c as int]
            },
    {
        let mut best: Option<usize> = None;
        let mut d: usize = 0;
        while d < self.status.len()
            invariant
                self.held@.len() == self.n(),
                d <= self.n(),
                best is None <==> forall|e: int| 0 <= e < d ==> self.status@[e] != Status::Standing,
                best matches Some(c) ==> {
                    &&& c < d
                    &&& self.status@[c as int] == Status::Standing
                    &&& forall|e: int| 0 <= e < d && self.status@[e] == Status::Standing
                        ==> self.held@[e] <= self.held@[c as int]
                    &&& forall|e: int| 0 <= e < c && self.status@[e] == Status::Standing
                        ==> self.held@[e] < self.held@[c as int]
                },
            decreases self.n() - d,
        {
            if self.status[d] == Status::Standing {
                match best {
                    None => {
                        best = Some(d);
                    },
                    Some(c) => {
                        if self.held[d] > self.held[c] {
                            best = Some(d);
                        }
                    },
                }
            }
            d = d + 1;
        }
        best
    }

    /// The standing candidate with the smallest vote total; among equal
    /// totals, the one with the largest identifier.
    pub fn weakest(&self) -> (r: Option<usize>)
        requires
            self.held@.len() == self.n(),
        ensures
            r is None <==> forall|c: int| 0 <= c < self.n() ==> self.status@[c] != Status::Standing,
            r matches Some(c) ==> {
                &&& c < self.n()
                &&& self.status@[c as int] == Status::Standing
                &&& forall|d: int| 0 <= d < self.n() && self.status@[d] == Status::Standing
                    ==> self.held@[d] >= self.held@[c as int]
                &&& forall|d: int| c < d < self.n() && self.status@[d] == Status::Standing
                    ==> self.held@[d] > self.held@[c as int]
            },
    {
        let mut worst: Option<usize> = None;
        let mut d: usize = 0;
        while d < self.status.len()
            invariant
                self.held@.len() == self.n(),
                d <= self.n(),
                worst is None <==> forall|e: int| 0 <= e < d ==> self.status@[e] != Status::Standing,
                worst matches Some(c) ==> {
                    &&& c < d
                    &&& self.status@[c as int] == Status::Standing
                    &&& forall|e: int| 0 <= e < d && self.status@[e] == Status::Standing
                        ==> self.held@[e] >= self.held@[c as int]
                    &&& forall|e: int| c < e < d && self.status@[e] == Status::Standing
                        ==> self.held@[e] > self.held@[c as int]
                },
            decreases self.n() - d,
        {
            if self.status[d] == Status::Standing {
                match worst {
                    None => {
                        worst = Some(d);
                    },
                    Some(c) => {
                        if self.held[d] <= self.held[c] {
                            worst = Some(d);
                        }
                    },
                }
            }
            d = d + 1;
        }
        worst
    }

    /// Elects standing candidates one by one in the order `ahead` over
    /// `held`, while seats are open and the next one's vote total reaches
    /// `threshold`. Returns them in the order of their election.
    pub fn elect_while(&mut self, ballots: &Vec<Vec<usize>>, threshold: u64) -> (fresh: Vec<usize>)
        requires
            old(self).wf(ballots@),
        ensures
            final(self).wf(ballots@),
            final(self).n() == old(self).n(),
            final(self).weights == old(self).weights,
            final(self).retained == old(self).retained,
            final(self).held == old(self).held,
            final(self).assign == old(self).assign,
            final(self).exhausted == old(self).exhausted,
            final(self).eliminated == old(self).eliminated,
            final(self).seats == old(self).seats,
            final(self).quota == old(self).quota,
            final(self).total == old(self).total,
            final(self).rounds == old(self).rounds,
            final(self).elected@ == old(self).elected@ + fresh@,
            final(self).standing + fresh@.len() == old(self).standing,
            fresh@.len() == 0 ==> final(self).status == old(self).status,
            forall|k: int| 0 <= k < fresh@.len() ==> fresh@[k] < old(self).n()
                && old(self).status@[fresh@[k] as int] == Status::Standing
                && final(self).status@[fresh@[k] as int] == Status::Elected
                && old(self).held@[fresh@[k] as int] >= threshold,
            forall|c: int| 0 <= c < old(self).n() && final(self).status@[c] != old(self).status@[c]
                ==> old(self).status@[c] == Status::Standing && final(self).status@[c] == Status::Elected,
            forall|c: int| 0 <= c < old(self).n() && final(self).status@[c] != old(self).status@[c]
                ==> fresh@.contains(c as usize),
            forall|k: int, l: int| 0 <= k < l < fresh@.len() ==> ahead(old(self).held@, fresh@[k] as int, fresh@[l] as int),
            forall|k: int, l: int| 0 <= k < l < fresh@.len() ==> fresh@[k] != fresh@[l],
            forall|k: int, c: int| 0 <= k < fresh@.len() && 0 <= c < old(self).n()
                && final(self).status@[c] == Status::Standing ==> ahead(old(self).held@, fresh@[k] as int, c),
            final(self).elected@.len() < final(self).seats ==> forall|c: int| 0 <= c < old(self).n()
                && final(self).status@[c] == Status::Standing ==> old(self).held@[c] < threshold,
    {
        let ghost st0 = self.status@;
        let ghost h0 = self.held@;
        let ghost e0 = self.elected@;
        let ghost n = self.n();
        let mut fresh: Vec<usize> = Vec::new();
        let mut go = true;
        while go && self.elected.len() < self.seats
            invariant
                self.wf(ballots@),
                self.n() == n,
                n == old(self).n(),
                st0 == old(self).status@,
                h0 == old(self).held@,
                e0 == old(self).elected@,
                self.weights == old(self).weights,
                self.retained == old(self).retained,
                self.held == old(self).held,
                self.assign == old(self).assign,
                self.exhausted == old(self).exhausted,
                self.eliminated == old(self).eliminated,
                self.seats == old(self).seats,
                self.quota == old(self).quota,
                self.total == old(self).total,
                self.rounds == old(self).rounds,
                self.elected@ == e0 + fresh@,
                self.standing + fresh@.len() == old(self).standing,
                fresh@.len() == 0 ==> self.status == old(self).status,
                forall|k: int| 0 <= k < fresh@.len() ==> fresh@[k] < n
                    && st0[fresh@[k] as int] == Status::Standing
                    && h0[fresh@[k] as int] >= threshold,
                forall|c: int| 0 <= c < n && self.status@[c] != st0[c]
                    ==> st0[c] == Status::Standing && self.status@[c] == Status::Elected,
                forall|c: int| 0 <= c < n && self.status@[c] != st0[c] ==> fresh@.contains(c as usize),
                forall|k: int, l: int| 0 <= k < l < fresh@.len() ==> ahead(h0, fresh@[k] as int, fresh@[l] as int),
                forall|k: int, c: int| 0 <= k < fresh@.len() && 0 <= c < n
                    && self.status@[c] == Status::Standing ==> ahead(h0, fresh@[k] as int, c),
                !go ==> forall|c: int| 0 <= c < n && self.status@[c] == Status::Standing ==> h0[c] < threshold,
            decreases self.seats - self.elected@.len() + if go { 1int } else { 0 },
        {
            match self.strongest() {
                Some(c) => {
                    if self.held[c] >= threshold {
                        let ghost before = fresh@;
                        let ghost sb = self.status@;
                        self.elect(ballots, c);
                        fresh.push(c);
                        proof {
                            assert forall|k: int, d: int| 0 <= k < fresh@.len() && 0 <= d < n
                                && self.status@[d] == Status::Standing implies ahead(h0, fresh@[k] as int, d) by {
                                assert(sb[d] == Status::Standing);
                                if k == before.len() {
                                    assert(d != c);
                                } else {
                                    assert(fresh@[k] == before[k]);
                                }
                            }
                            assert forall|c1: int| 0 <= c1 < n && self.status@[c1] != st0[c1]
                                implies fresh@.contains(c1 as usize) by {
                                if c1 == c {
                                    assert(fresh@[before.len() as int] == c);
                                } else {
                                    assert(sb[c1] != st0[c1]);
                                    let j = choose|j: int| 0 <= j < before.len() && before[j] == c1 as usize;
                                    assert(fresh@[j] == c1 as usize);
                                }
                            }
                            assert forall|k: int, l: int| 0 <= k < l < fresh@.len() implies ahead(h0, fresh@[k] as int, fresh@[l] as int) by {
                                if l == before.len() {
                                    assert(fresh@[k] == before[k]);
                                    assert(sb[c as int] == Status::Standing);
                                } else {
                                    assert(fresh@[k] == before[k]);
                                    assert(fresh@[l] == before[l]);
                                }
                            }
                        }
                    } else {
                        go = false;
                    }
                },
                None => {
                    go = false;
                },
            }
        }
        proof {
            assert forall|k: int| 0 <= k < fresh@.len() implies self.status@[fresh@[k] as int] == Status::Elected by {
                assert(self.elected@[e0.len() + k] == fresh@[k]);
            }
            assert forall|k: int, l: int| 0 <= k < l < fresh@.len() implies fresh@[k] != fresh@[l] by {
                assert(ahead(h0, fresh@[k] as int, fresh@[l] as int));
            }
        }
        fresh
    }

    /// Passes on the ballots of each candidate in `fresh`, elected this
    /// round. With `surplus`, each ballot passes on at the fraction
    /// `(total - quota) / total` of its candidate's vote total; otherwise
    /// the candidate keeps all of it.
    pub fn pass_on(&mut self, ballots: &Vec<Vec<usize>>, fresh: &Vec<usize>, surplus: bool)
        requires
            old(self).wf(ballots@),
            forall|k: int| 0 <= k < fresh@.len() ==> fresh@[k] < old(self).n()
                && old(self).status@[fresh@[k] as int] == Status::Elected
                && (surplus ==> old(self).held@[fresh@[k] as int] >= old(self).quota),
            forall|k: int, l: int| 0 <= k < l < fresh@.len() ==> fresh@[k] != fresh@[l],
        ensures
            forall|i: int| 0 <= i < ballots@.len() ==> final(self).weights@[i] == match old(self).assign@[i] {
                Some(c) => if fresh@.contains(c) {
                    passed_weight(old(self).weights@[i], old(self).held@[c as int], old(self).quota, surplus)
                } else {
                    old(self).weights@[i] as int
                },
                None => old(self).weights@[i] as int,
            },
            final(self).wf(ballots@),
            final(self).status == old(self).status,
            final(self).held == old(self).held,
            final(self).assign == old(self).assign,
            final(self).exhausted == old(self).exhausted,
            final(self).elected == old(self).elected,
            final(self).standing == old(self).standing,
            final(self).eliminated == old(self).eliminated,
            final(self).seats == old(self).seats,
            final(self).quota == old(self).quota,
            final(self).total == old(self).total,
            final(self).rounds == old(self).rounds,
    {
        let mut k: usize = 0;
        while k < fresh.len()
            invariant
                self.wf(ballots@),
                k <= fresh@.len(),
                self.status == old(self).status,
                self.held == old(self).held,
                self.assign == old(self).assign,
                self.exhausted == old(self).exhausted,
                self.elected == old(self).elected,
                self.standing == old(self).standing,
                self.eliminated == old(self).eliminated,
                self.seats == old(self).seats,
                self.quota == old(self).quota,
                self.total == old(self).total,
                self.rounds == old(self).rounds,
                self.quota >= 1,
                forall|j: int| 0 <= j < fresh@.len() ==> fresh@[j] < self.n()
                    && self.status@[fresh@[j] as int] == Status::Elected
                    && (surplus ==> self.held@[fresh@[j] as int] >= self.quota),
                forall|j: int, l: int| 0 <= j < l < fresh@.len() ==> fresh@[j] != fresh@[l],
                forall|i: int| 0 <= i < ballots@.len() ==> self.weights@[i] == match self.assign@[i] {
                    Some(c) => if fresh@.take(k as int).contains(c) {
                        passed_weight(old(self).weights@[i], self.held@[c as int], self.quota, surplus)
                    } else {
                        old(self).weights@[i] as int
                    },
                    None => old(self).weights@[i] as int,
                },
            decreases fresh@.len() - k,
        {
            let c = fresh[k];
            let ghost wb = self.weights@;
            if surplus {
                let t = self.held[c];
                self.transfer(ballots, c, t - self.quota, t);
            } else {
                self.transfer(ballots, c, 0, 1);
            }
            proof {
                let pre = fresh@.take(k as int);
                let post = fresh@.take(k + 1);
                assert(post =~= pre.push(c));
                assert(!pre.contains(c)) by {
                    if pre.contains(c) {
                        let j = choose|j: int| 0 <= j < pre.len() && pre[j] == c;
                        assert(fresh@[j] == fresh@[k as int]);
                    }
                }
                assert forall|i: int| 0 <= i < ballots@.len() implies self.weights@[i] == match self.assign@[i] {
                    Some(c1) => if post.contains(c1) {
                        passed_weight(old(self).weights@[i], self.held@[c1 as int], self.quota, surplus)
                    } else {
                        old(self).weights@[i] as int
                    },
                    None => old(self).weights@[i] as int,
                } by {
                    match self.assign@[i] {
                        Some(c1) => {
                            if c1 == c {
                                assert(post[k as int] == c1);
                            } else {
                                if post.contains(c1) {
                                    let j = choose|j: int| 0 <= j < post.len() && post[j] == c1;
                                    assert(pre[j] == c1);
                                }
                                if pre.contains(c1) {
                                    let j = choose|j: int| 0 <= j < pre.len() && pre[j] == c1;
                                    assert(post[j] == c1);
                                }
                            }
                        },
                        None => {},
                    }
                }
            }
            k = k + 1;
        }
        proof {
            assert(fresh@.take(fresh@.len() as int) =~= fresh@);
        }
    }

    /// One round of the count. After tabulating, if the candidates still
    /// standing can fill at most the open seats, all of them are elected, in
    /// descending vote total. Otherwise the standing candidates who reach the
    /// quota are elected in descending vote total (smaller identifier first
    /// on equal totals) while seats are open, and each one's surplus is
    /// passed on at the fraction `surplus / total`; if nobody reaches the
    /// quota, the weakest standing candidate is eliminated and its ballots
    /// pass on at their full weight at the next tabulation.
    pub fn round(&mut self, ballots: &Vec<Vec<usize>>)
        requires
            old(self).wf(ballots@),
            !old(self).finished(),
        ensures
            final(self).wf(ballots@),
            round_step(*old(self), *final(self), ballots@),
    {
        self.tabulate(ballots);
        let ghost wt = self.weights@;
        let ghost mut fr: Seq<usize> = Seq::empty();
        let ghost st0 = self.status@;
        let ghost e0 = self.elected@;
        let ghost s0 = self.standing;
        let nlen = self.status.len();
        let ghost n = self.n();
        if self.standing + self.elected.len() <= self.seats {
            let fresh = self.elect_while(ballots, 0);
            proof {
                fr = fresh@;
                if self.elected@.len() < self.seats {
                    lemma_count_none(self.status@);
                }
            }
            self.pass_on(ballots, &fresh, false);
        } else {
            let fresh = self.elect_while(ballots, self.quota);
            proof {
                fr = fresh@;
            }
            if fresh.len() > 0 {
                self.pass_on(ballots, &fresh, true);
                proof {
                    let f0 = fresh@[0] as int;
                    assert(st0[f0] == Status::Standing && self.held@[f0] >= self.quota);
                }
            } else {
                match self.weakest() {
                    Some(e) => {
                        let ghost hb = self.held@;
                        self.eliminate(ballots, e);
                        proof {
                            let ei = e as int;
                            assert(self.status@ == st0.update(ei, Status::Eliminated));
                            assert(self.held@ == hb);
                            assert forall|d: int| 0 <= d < n && st0[d] == Status::Standing && d != ei
                                implies ahead(self.held@, d, e as int) by {}
                            assert(0 <= ei < n && st0[ei] == Status::Standing && self.status@ == st0.update(ei, Status::Eliminated)
                                && self.elected@ == e0);
                        }
                    },
                    None => {
                        proof {
                            lemma_count_none(self.status@);
                            assert(false);
                        }
                    },
                }
            }
        }
        proof {
            assert(self.elected@.subrange(0, e0.len() as int) =~= e0);
            assert(self.elected@.subrange(e0.len() as int, self.elected@.len() as int) =~= fr);
            assert(n == nlen);
        }
        self.rounds = self.rounds + 1;
    }
}

/// Whether the election can be counted: see `valid_input`.
pub fn validate(ballots: &Vec<Vec<usize>>, n: usize, seats: usize) -> (r: bool)
    ensures
        r == valid_input(ballots@, n as nat, seats as nat),
{
    let mut any_vote = false;
    let mut i: usize = 0;
    while i < ballots.len()
        invariant
            i <= ballots@.len(),
            forall|j: int| 0 <= j < i ==> valid_ballot(#[trigger] ballots@[j]@, n as nat),
            any_vote == (valid_votes(ballots@.take(i as int)) >= 1),
        decreases ballots@.len() - i,
    {
        proof {
            assert(ballots@.take(i + 1).drop_last() =~= ballots@.take(i as int));
        }
        if !check_ballot(&ballots[i], n) {
            return false;
        }
        if ballots[i].len() > 0 {
            any_vote = true;
        }
        i = i + 1;
    }
    proof {
        assert(ballots@.take(ballots@.len() as int) =~= ballots@);
    }
    seats >= 1 && n >= 1 && any_vote
}

/// One elected candidate and its rank, counted from 1.
#[derive(Debug, Clone, Copy, PartialEq, Eq, Structural)]
pub struct Winner {
    pub candidate: usize,
    pub rank: usize,
}

/// Outcome of a count.
#[derive(Debug)]
pub struct ElectionResult {
    /// Winners in the order of their election.
    pub winners: Vec<Winner>,
    /// Final vote total of each candidate: what an elected candidate kept,
    /// what a standing one holds, zero for an eliminated one.
    pub totals: Vec<u64>,
    /// Weight of exhausted ballots.
    pub exhausted: u64,
    /// The quota, in fixed-point units.
    pub quota: u64,
    /// Number of rounds counted.
    pub rounds: usize,
}

/// `res` is what a count of `ballots` over candidates `0..n` for `seats`
/// seats returns.
pub open spec fn counted(res: ElectionResult, ballots: Seq<Vec<usize>>, n: nat, seats: nat) -> bool {
    &&& res.winners@.len() == if seats <= n { seats } else { n }
    &&& forall|k: int| 0 <= k < res.winners@.len() ==> res.winners@[k].candidate < n
        && res.winners@[k].rank == k + 1
    &&& forall|k: int, l: int| 0 <= k < l < res.winners@.len()
        ==> res.winners@[k].candidate != res.winners@[l].candidate
    &&& res.totals@.len() == n
    &&& sum(res.totals@) + res.exhausted == valid_votes(ballots) * SCALE
    &&& res.quota == droop(valid_votes(ballots) as int, seats as int) * SCALE
    &&& res.rounds <= n
    &&& n <= seats ==> res.rounds == 1
    &&& exists|trace: Seq<TallyState>| #[trigger] is_run(trace, ballots, n, seats)
        && res.rounds == trace.len() - 1
        && forall|k: int| 0 <= k < res.winners@.len() ==> res.winners@[k].candidate == trace.last().elected@[k]
}

/// Counts an STV election over candidates `0..n` for `seats` seats with the
/// Droop quota. Each ballot lists candidates from most to least preferred.
pub fn count(ballots: &Vec<Vec<usize>>, n: usize, seats: usize) -> (r: Result<ElectionResult, TallyError>)
    requires
        ballots@.len() <= MAX_BALLOTS,
    ensures
        r is Ok <==> valid_input(ballots@, n as nat, seats as nat),
        r is Err ==> r == Err::<ElectionResult, TallyError>(TallyError::InvalidInput),
        r matches Ok(res) ==> counted(res, ballots@, n as nat, seats as nat),
{
    if !validate(ballots, n, seats) {
        return Err(TallyError::InvalidInput);
    }
    let mut st = TallyState::new(ballots, n, seats);
    let ghost mut trace: Seq<TallyState> = seq![st];
    while !(st.elected.len() == st.seats || st.standing == 0)
        invariant
            trace.len() >= 1,
            initial(trace[0], ballots@, n as nat, seats as nat),
            rounds_follow(trace, ballots@),
            forall|i: int| 0 <= i < trace.len() ==> #[trigger] trace[i].wf(ballots@),
            trace.last() == st,
            st.rounds == trace.len() - 1,
            st.wf(ballots@),
            st.n() == n,
            st.seats == seats,
            st.total == valid_votes(ballots@) * SCALE,
            st.quota == droop(valid_votes(ballots@) as int, seats as int) * SCALE,
            n <= seats ==> (st.rounds == 0 && st.standing == n && st.elected@.len() == 0) || (st.rounds
                == 1 && st.standing == 0),
        decreases st.standing,
    {
        st.round(ballots);
        proof {
            lemma_extend_run(trace, st, ballots@);
            trace = trace.push(st);
        }
    }
    let ghost fin = st;
    proof {
        assert(is_run(trace, ballots@, n as nat, seats as nat));
    }
    st.tabulate(ballots);
    let mut totals: Vec<u64> = Vec::new();
    let mut c: usize = 0;
    while c < n
        invariant
            st.wf(ballots@),
            st.n() == n,
            c <= n,
            totals@.len() == c,
            sum(st.held@) + sum(st.retained@) + st.exhausted == st.total,
            forall|d: int| 0 <= d < c ==> totals@[d] == st.held@[d] + st.retained@[d],
        decreases n - c,
    {
        proof {
            lemma_sum_elem(st.held@, c as int);
            lemma_sum_elem(st.retained@, c as int);
            lemma_sum_nonneg(st.held@);
            lemma_sum_nonneg(st.retained@);
        }
        totals.push(st.held[c] + st.retained[c]);
        c = c + 1;
    }
    proof {
        lemma_sum_add(st.held@, st.retained@, totals@);
    }
    let mut winners: Vec<Winner> = Vec::new();
    let mut k: usize = 0;
    while k < st.elected.len()
        invariant
            st.wf(ballots@),
            st.n() == n,
            k <= st.elected@.len(),
            winners@.len() == k,
            forall|j: int| 0 <= j < k ==> winners@[j].candidate == st.elected@[j] && winners@[j].rank == j + 1,
        decreases st.elected@.len() - k,
    {
        let w = Winner { candidate: st.elected[k], rank: k + 1 };
        let ghost prev = winners@;
        winners.push(w);
        proof {
            assert(winners@ == prev.push(w));
            assert forall|j: int| 0 <= j < k + 1 implies winners@[j].candidate == st.elected@[j]
                && winners@[j].rank == j + 1 by {
                if j < k {
                    assert(winners@[j] == prev[j]);
                } else {
                    assert(winners@[j] == w);
                }
            }
        }
        k = k + 1;
    }
    proof {
        assert(st.elected == fin.elected);
        assert forall|k: int| 0 <= k < winners@.len() implies winners@[k].candidate < n
            && winners@[k].rank == k + 1 by {
            assert(st.elected@[k] < n);
        }
        assert forall|k: int, l: int| 0 <= k < l < winners@.len()
            implies winners@[k].candidate != winners@[l].candidate by {
            assert(st.elected@[k] != st.elected@[l]);
        }
    }
    Ok(ElectionResult { winners, totals, exhausted: st.exhausted, quota: st.quota, rounds: st.rounds })
}

} // verus!
