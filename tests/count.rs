use stv_tally::ballot::{check_ballot, order_by_rank};
use stv_tally::quota::{droop_quota, SCALE};
use stv_tally::tally::{count, next_standing, validate, ElectionResult, Status, TallyState, Winner};
use stv_tally::TallyError;

fn repeat(ballot: &[usize], times: usize, into: &mut Vec<Vec<usize>>) {
    for _ in 0..times {
        into.push(ballot.to_vec());
    }
}

fn winners(r: &ElectionResult) -> Vec<(usize, usize)> {
    r.winners.iter().map(|w| (w.candidate, w.rank)).collect()
}

fn two_seat_ballots() -> Vec<Vec<usize>> {
    let mut b = Vec::new();
    repeat(&[0, 1, 2, 3], 60, &mut b);
    repeat(&[1, 0, 2, 3], 40, &mut b);
    b
}

#[test]
fn droop_quota_values() {
    assert_eq!(droop_quota(100, 2), Ok(34));
    assert_eq!(droop_quota(10, 1), Ok(6));
    assert_eq!(droop_quota(1, 1), Ok(1));
    assert_eq!(droop_quota(7, 3), Ok(2));
    assert_eq!(droop_quota(5, u64::MAX), Ok(1));
}

#[test]
fn droop_quota_rejects_zero() {
    assert_eq!(droop_quota(0, 2), Err(TallyError::InvalidInput));
    assert_eq!(droop_quota(5, 0), Err(TallyError::InvalidInput));
}

#[test]
fn order_by_rank_sorts_by_code() {
    assert_eq!(order_by_rank(&vec![2, 1, 3]), Ok(vec![1, 0, 2]));
    assert_eq!(order_by_rank(&vec![4, -1, 0, 9]), Ok(vec![1, 2, 0, 3]));
    assert_eq!(order_by_rank(&vec![]), Ok(vec![]));
}

#[test]
fn order_by_rank_rejects_tie() {
    assert_eq!(order_by_rank(&vec![1, 2, 1]), Err(TallyError::Ambiguous));
}

#[test]
fn two_seats_elected_in_first_round() {
    let r = count(&two_seat_ballots(), 4, 2).unwrap();
    assert_eq!(winners(&r), vec![(0, 1), (1, 2)]);
    assert_eq!(r.quota, 34 * SCALE);
    assert_eq!(r.rounds, 1);
    // A keeps 60 * (1 - floor(26/60 of a vote)), B keeps exactly 34 votes,
    // C holds both surpluses.
    assert_eq!(r.totals, vec![34_000_020, 34_000_000, 31_999_980, 0]);
    assert_eq!(r.exhausted, 0);
}

#[test]
fn vote_weight_is_conserved() {
    let r = count(&two_seat_ballots(), 4, 2).unwrap();
    let total: u64 = r.totals.iter().sum::<u64>() + r.exhausted;
    assert_eq!(total, 100 * SCALE);

    let mut b = Vec::new();
    repeat(&[0], 4, &mut b);
    repeat(&[1, 0], 3, &mut b);
    repeat(&[2], 3, &mut b);
    b.push(vec![]);
    let r = count(&b, 3, 1).unwrap();
    let total: u64 = r.totals.iter().sum::<u64>() + r.exhausted;
    assert_eq!(total, 10 * SCALE);
}

#[test]
fn single_seat_by_elimination_and_exhaustion() {
    // quota = 10 / 2 + 1 = 6; nobody reaches it.
    let mut b = Vec::new();
    repeat(&[0], 4, &mut b);
    repeat(&[1], 3, &mut b);
    repeat(&[2], 3, &mut b);
    let r = count(&b, 3, 1).unwrap();
    // C (tie with B, larger identifier) goes first, then B; A is left.
    assert_eq!(winners(&r), vec![(0, 1)]);
    assert_eq!(r.rounds, 3);
    assert_eq!(r.totals, vec![4 * SCALE, 0, 0]);
    assert_eq!(r.exhausted, 6 * SCALE);
}

#[test]
fn elimination_passes_ballots_at_full_weight() {
    // quota 6; C is eliminated and its three ballots reach B.
    let mut b = Vec::new();
    repeat(&[0, 1], 4, &mut b);
    repeat(&[1, 0], 3, &mut b);
    repeat(&[2, 1], 3, &mut b);
    let r = count(&b, 3, 1).unwrap();
    assert_eq!(winners(&r), vec![(1, 1)]);
    assert_eq!(r.rounds, 2);
    assert_eq!(r.totals, vec![4 * SCALE, 6 * SCALE, 0]);
}

#[test]
fn surplus_moves_to_next_preference() {
    // 9 votes, 2 seats: quota 4. A has 6, surplus 2 goes to C at 1/3 each.
    let mut b = Vec::new();
    repeat(&[0, 2], 6, &mut b);
    repeat(&[1], 1, &mut b);
    repeat(&[2], 1, &mut b);
    repeat(&[3], 1, &mut b);
    let r = count(&b, 4, 2).unwrap();
    // After A: C = 1 + 6 * 333333 units; B and D have one vote each, D goes
    // (tie, larger identifier), then B goes, and C fills the seat.
    assert_eq!(r.winners[0], Winner { candidate: 0, rank: 1 });
    assert_eq!(r.winners[1], Winner { candidate: 2, rank: 2 });
    assert_eq!(r.totals[0], 6 * SCALE - 6 * 333_333);
    let total: u64 = r.totals.iter().sum::<u64>() + r.exhausted;
    assert_eq!(total, 9 * SCALE);
}

#[test]
fn rounds_bounded_by_candidates() {
    let mut b = Vec::new();
    repeat(&[0, 1, 2, 3, 4], 2, &mut b);
    repeat(&[1, 2, 3, 4, 0], 2, &mut b);
    repeat(&[2, 3, 4, 0, 1], 2, &mut b);
    repeat(&[3, 4, 0, 1, 2], 1, &mut b);
    repeat(&[4, 0, 1, 2, 3], 1, &mut b);
    let r = count(&b, 5, 2).unwrap();
    assert!(r.rounds <= 5);
    assert_eq!(r.winners.len(), 2);
}

#[test]
fn rerun_gives_identical_result() {
    let mut b = Vec::new();
    repeat(&[0, 1, 2], 5, &mut b);
    repeat(&[1, 2, 0], 5, &mut b);
    repeat(&[2, 0, 1], 5, &mut b);
    let r1 = count(&b, 3, 2).unwrap();
    let r2 = count(&b, 3, 2).unwrap();
    assert_eq!(r1.winners, r2.winners);
    assert_eq!(r1.totals, r2.totals);
    assert_eq!(r1.exhausted, r2.exhausted);
    assert_eq!(r1.rounds, r2.rounds);
}

#[test]
fn seats_cover_all_candidates() {
    let mut b = Vec::new();
    repeat(&[1], 2, &mut b);
    repeat(&[0], 1, &mut b);
    let r = count(&b, 3, 5).unwrap();
    // Elected by exhaustion in descending vote total.
    assert_eq!(winners(&r), vec![(1, 1), (0, 2), (2, 3)]);
    assert_eq!(r.rounds, 1);
    let r = count(&b, 3, 3).unwrap();
    assert_eq!(winners(&r), vec![(1, 1), (0, 2), (2, 3)]);
}

#[test]
fn invalid_input_rejected() {
    let b = two_seat_ballots();
    assert_eq!(count(&b, 4, 0).unwrap_err(), TallyError::InvalidInput);
    assert_eq!(count(&vec![], 4, 2).unwrap_err(), TallyError::InvalidInput);
    assert_eq!(count(&b, 0, 2).unwrap_err(), TallyError::InvalidInput);
    assert_eq!(count(&vec![vec![0, 4]], 4, 1).unwrap_err(), TallyError::InvalidInput);
    assert_eq!(count(&vec![vec![0, 1, 0]], 4, 1).unwrap_err(), TallyError::InvalidInput);
    assert_eq!(count(&vec![vec![], vec![]], 4, 1).unwrap_err(), TallyError::InvalidInput);
    assert!(!validate(&vec![vec![5]], 4, 1));
    assert!(validate(&vec![vec![3], vec![]], 4, 1));
}

#[test]
fn round_elects_when_quota_met() {
    let b = two_seat_ballots();
    let mut st = TallyState::new(&b, 4, 2);
    st.round(&b);
    assert_eq!(st.elected, vec![0, 1]);
    assert_eq!(st.held, vec![60 * SCALE, 40 * SCALE, 0, 0]);
    assert_eq!(st.status, vec![Status::Elected, Status::Elected, Status::Standing, Status::Standing]);
    assert_eq!(st.rounds, 1);
}

#[test]
fn round_eliminates_one_when_quota_unmet() {
    let mut b = Vec::new();
    repeat(&[0], 4, &mut b);
    repeat(&[1], 3, &mut b);
    repeat(&[2], 2, &mut b);
    repeat(&[3], 2, &mut b);
    let mut st = TallyState::new(&b, 4, 1);
    st.round(&b);
    assert!(st.elected.is_empty());
    assert_eq!(st.status, vec![Status::Standing, Status::Standing, Status::Standing, Status::Eliminated]);
    assert_eq!(st.standing, 3);
}

#[test]
fn check_ballot_cases() {
    assert!(check_ballot(&vec![2, 0, 1], 3));
    assert!(check_ballot(&vec![], 3));
    assert!(!check_ballot(&vec![0, 3], 3));
    assert!(!check_ballot(&vec![1, 1], 3));
}

#[test]
fn next_standing_skips_decided_candidates() {
    let st = vec![Status::Elected, Status::Eliminated, Status::Standing];
    assert_eq!(next_standing(&vec![0, 1, 2], &st), Some(2));
    assert_eq!(next_standing(&vec![1, 0], &st), None);
    assert_eq!(next_standing(&vec![], &st), None);
}

#[test]
fn tabulate_and_transfer() {
    let mut b = Vec::new();
    repeat(&[0, 1], 3, &mut b);
    repeat(&[1], 1, &mut b);
    b.push(vec![]);
    let mut st = TallyState::new(&b, 2, 1);
    assert_eq!(st.quota, 3 * SCALE);
    st.tabulate(&b);
    assert_eq!(st.held, vec![3 * SCALE, SCALE]);
    assert_eq!(st.assign, vec![Some(0), Some(0), Some(0), Some(1), None]);
    st.elect(&b, 0);
    // pass on a third of each of A's ballots
    st.transfer(&b, 0, 1, 3);
    assert_eq!(st.weights, vec![333_333, 333_333, 333_333, SCALE, 0]);
    assert_eq!(st.retained, vec![3 * SCALE - 999_999, 0]);
}

#[test]
fn strongest_and_weakest_break_ties_by_identifier() {
    let mut b = Vec::new();
    repeat(&[0], 2, &mut b);
    repeat(&[1], 2, &mut b);
    repeat(&[2], 1, &mut b);
    repeat(&[3], 1, &mut b);
    let mut st = TallyState::new(&b, 4, 2);
    st.tabulate(&b);
    assert_eq!(st.strongest(), Some(0));
    assert_eq!(st.weakest(), Some(3));
}
