use ncp::voting::{majority_decision, max_byzantine_tolerance};
use ncp::{Vote, VoteResult};

#[test]
fn test_majority_collapse() {
    let votes = vec![Vote::Collapsed, Vote::Collapsed, Vote::Defended];
    let (outcome, c, d) = majority_decision(&votes);
    assert_eq!(outcome, Vote::Collapsed);
    assert_eq!(c, 2);
    assert_eq!(d, 1);
}

#[test]
fn test_majority_defend_on_tie() {
    let votes = vec![Vote::Collapsed, Vote::Defended];
    let (outcome, _, _) = majority_decision(&votes);
    assert_eq!(outcome, Vote::Defended); // Tie goes to defend
}

#[test]
fn test_byzantine_tolerance() {
    assert_eq!(max_byzantine_tolerance(3), 1);
    assert_eq!(max_byzantine_tolerance(7), 3);
    assert_eq!(max_byzantine_tolerance(30), 14);
}

#[test]
fn byzantine_tolerance_of_small_groups() {
    assert_eq!(max_byzantine_tolerance(0), 0);
    assert_eq!(max_byzantine_tolerance(1), 0);
    assert_eq!(max_byzantine_tolerance(2), 0);
    assert_eq!(max_byzantine_tolerance(4), 1);
}

#[test]
fn majority_of_no_votes_defends() {
    let (outcome, c, d) = majority_decision(&[]);
    assert_eq!(outcome, Vote::Defended);
    assert_eq!(c, 0);
    assert_eq!(d, 0);
}

#[test]
fn majority_defends_with_more_defences() {
    let votes = vec![Vote::Defended, Vote::Collapsed, Vote::Defended, Vote::Defended];
    assert_eq!(majority_decision(&votes), (Vote::Defended, 1, 3));
}

#[test]
fn majority_ignores_vote_order() {
    let a = vec![Vote::Collapsed, Vote::Defended, Vote::Collapsed];
    let b = vec![Vote::Defended, Vote::Collapsed, Vote::Collapsed];
    assert_eq!(majority_decision(&a), majority_decision(&b));
    assert_eq!(majority_decision(&a), (Vote::Collapsed, 2, 1));
}

#[test]
fn honest_majority_decides_despite_byzantine_voters() {
    // Seven voters tolerate three Byzantine ones: four honest `Defended` votes win.
    let votes = vec![
        Vote::Collapsed,
        Vote::Defended,
        Vote::Collapsed,
        Vote::Defended,
        Vote::Collapsed,
        Vote::Defended,
        Vote::Defended,
    ];
    assert_eq!(max_byzantine_tolerance(votes.len()), 3);
    assert_eq!(majority_decision(&votes).0, Vote::Defended);
}

#[test]
fn vote_result_matches_majority_decision() {
    let votes = vec![Vote::Collapsed, Vote::Collapsed, Vote::Defended];
    let r = VoteResult::from_votes(&votes);
    assert_eq!(r.collapse_votes, 2);
    assert_eq!(r.defend_votes, 1);
    assert_eq!(r.outcome, Vote::Collapsed);
    let (outcome, c, d) = majority_decision(&votes);
    assert_eq!((r.outcome, r.collapse_votes, r.defend_votes), (outcome, c, d));
}

#[test]
fn vote_result_tie_defends() {
    let votes = vec![Vote::Defended, Vote::Collapsed, Vote::Collapsed, Vote::Defended];
    let r = VoteResult::from_votes(&votes);
    assert_eq!((r.collapse_votes, r.defend_votes), (2, 2));
    assert_eq!(r.outcome, Vote::Defended);
}

