use dyndns::ip::Ipv4;
use dyndns::resolve::{
    collect_candidates, resolve, resolve_first_success, resolve_quorum, tally_votes,
    validate_timeout, ConfigError, PollOutcome, ResolutionError, ResolveMode,
};

fn ip(a: u8, b: u8, c: u8, d: u8) -> Ipv4 {
    Ipv4 { a, b, c, d }
}

fn received(body: &str) -> PollOutcome {
    PollOutcome::Received { body: body.as_bytes().to_vec() }
}

#[test]
fn first_success_takes_first_candidate() {
    let outcomes = vec![
        PollOutcome::Failed,
        received("not an address"),
        received("5.6.7.8"),
        received("9.9.9.9"),
    ];
    let r = resolve_first_success(&outcomes);
    assert_eq!(r.unwrap(), ip(5, 6, 7, 8));
}

#[test]
fn first_success_ignores_later_sources() {
    let agreed = vec![received("5.6.7.8"), received("5.6.7.8")];
    let contradicted = vec![received("5.6.7.8"), received("7.7.7.7")];
    assert_eq!(
        resolve_first_success(&agreed).unwrap(),
        resolve_first_success(&contradicted).unwrap()
    );
}

#[test]
fn first_success_all_failed() {
    let outcomes = vec![PollOutcome::Failed, received("nothing"), PollOutcome::Failed];
    let r = resolve_first_success(&outcomes);
    assert!(matches!(r, Err(ResolutionError::AllSourcesFailed)));
}

#[test]
fn quorum_all_failed() {
    let outcomes = vec![PollOutcome::Failed, received("still nothing")];
    let r = resolve_quorum(&outcomes);
    assert!(matches!(r, Err(ResolutionError::AllSourcesFailed)));
}

#[test]
fn quorum_on_empty_source_list_fails() {
    let outcomes: Vec<PollOutcome> = Vec::new();
    assert!(matches!(resolve_quorum(&outcomes), Err(ResolutionError::AllSourcesFailed)));
    assert!(matches!(
        resolve_first_success(&outcomes),
        Err(ResolutionError::AllSourcesFailed)
    ));
}

#[test]
fn quorum_unanimous_single_candidate() {
    let outcomes = vec![PollOutcome::Failed, received("8.8.8.8")];
    assert_eq!(resolve_quorum(&outcomes).unwrap(), ip(8, 8, 8, 8));
}

#[test]
fn quorum_three_of_four_accepted() {
    // Tallies {A: 3, B: 1} of 4 votes: 3 >= 4 * 2 / 3 = 2, so A is accepted.
    let outcomes = vec![
        received("1.1.1.1"),
        received("1.1.1.1"),
        received("2.2.2.2"),
        received("1.1.1.1"),
    ];
    assert_eq!(resolve_quorum(&outcomes).unwrap(), ip(1, 1, 1, 1));
}

#[test]
fn quorum_two_against_two_accepted_at_boundary() {
    // Tallies {A: 2, B: 2} of 4 votes: the threshold is 4 * 2 / 3 = 2 by
    // integer division, the top tally is 2 >= 2, so the first-seen top
    // candidate is accepted.
    let outcomes = vec![
        received("1.1.1.1"),
        received("2.2.2.2"),
        received("1.1.1.1"),
        received("2.2.2.2"),
    ];
    assert_eq!(resolve_quorum(&outcomes).unwrap(), ip(1, 1, 1, 1));
}

#[test]
fn quorum_tie_breaks_to_first_seen() {
    let outcomes = vec![
        received("2.2.2.2"),
        received("1.1.1.1"),
        received("2.2.2.2"),
        received("1.1.1.1"),
    ];
    assert_eq!(resolve_quorum(&outcomes).unwrap(), ip(2, 2, 2, 2));
}

#[test]
fn quorum_split_vote_fails_with_tallies() {
    // Tallies {A: 2, B: 2, C: 1} of 5 votes: the threshold is 5 * 2 / 3 = 3,
    // the top tally is 2 < 3, so there is no quorum and every competing
    // tally is surfaced.
    let outcomes = vec![
        received("1.1.1.1"),
        received("2.2.2.2"),
        received("1.1.1.1"),
        received("2.2.2.2"),
        received("3.3.3.3"),
    ];
    match resolve_quorum(&outcomes) {
        Err(ResolutionError::NoQuorum { tallies }) => {
            assert_eq!(tallies.len(), 3);
            assert_eq!(tallies[0].ip, ip(1, 1, 1, 1));
            assert_eq!(tallies[0].count, 2);
            assert_eq!(tallies[1].ip, ip(2, 2, 2, 2));
            assert_eq!(tallies[1].count, 2);
            assert_eq!(tallies[2].ip, ip(3, 3, 3, 3));
            assert_eq!(tallies[2].count, 1);
        }
        other => panic!("expected a no-quorum failure, got {:?}", other),
    }
}

#[test]
fn quorum_drops_invalid_and_failed_sources() {
    // A transport failure and a body whose only match has an invalid octet
    // contribute no vote; the two remaining sources agree.
    let outcomes = vec![
        PollOutcome::Failed,
        received("300.1.2.3"),
        received("4.4.4.4"),
        received("4.4.4.4"),
    ];
    assert_eq!(resolve_quorum(&outcomes).unwrap(), ip(4, 4, 4, 4));
}

#[test]
fn collect_candidates_keeps_source_order() {
    let outcomes = vec![
        received("9.9.9.9"),
        PollOutcome::Failed,
        received("1.1.1.1"),
    ];
    let c = collect_candidates(&outcomes);
    assert_eq!(c, vec![ip(9, 9, 9, 9), ip(1, 1, 1, 1)]);
}

#[test]
fn tally_counts_votes_in_first_seen_order() {
    let candidates = vec![ip(1, 1, 1, 1), ip(2, 2, 2, 2), ip(1, 1, 1, 1)];
    let tally = tally_votes(&candidates);
    assert_eq!(tally.len(), 2);
    assert_eq!(tally[0].ip, ip(1, 1, 1, 1));
    assert_eq!(tally[0].count, 2);
    assert_eq!(tally[1].ip, ip(2, 2, 2, 2));
    assert_eq!(tally[1].count, 1);
}

#[test]
fn resolve_dispatches_by_mode() {
    // First-success stops at the first candidate; quorum counts all of them.
    let outcomes = vec![
        received("1.1.1.1"),
        received("2.2.2.2"),
        received("2.2.2.2"),
        received("2.2.2.2"),
    ];
    assert_eq!(resolve(ResolveMode::FirstSuccess, &outcomes).unwrap(), ip(1, 1, 1, 1));
    assert_eq!(resolve(ResolveMode::QuorumVerified, &outcomes).unwrap(), ip(2, 2, 2, 2));
}

#[test]
fn zero_timeout_rejected_before_any_poll() {
    assert_eq!(validate_timeout(0), Err(ConfigError::ZeroTimeout));
    assert_eq!(validate_timeout(5), Ok(5));
    assert_eq!(validate_timeout(1), Ok(1));
}
