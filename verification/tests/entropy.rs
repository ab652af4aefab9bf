use ncp::entropy::{pairwise_tallies, stance_tally, StanceTally};

#[test]
fn identical_stances_agree_fully() {
    let stances = vec![vec![1, -1, 1], vec![1, -1, 1], vec![1, -1, 1]];
    let tallies = pairwise_tallies(&stances);
    assert_eq!(tallies.len(), 3);
    for t in tallies {
        assert_eq!(t, StanceTally { agreements: 3, half_agreements: 0, compared: 3 });
    }
}

#[test]
fn opposite_stances_disagree_fully() {
    let stances = vec![vec![1, 1, 1], vec![-1, -1, -1]];
    let tallies = pairwise_tallies(&stances);
    assert_eq!(tallies, vec![StanceTally { agreements: 0, half_agreements: 0, compared: 3 }]);
}

#[test]
fn unmentioned_positions_count_half_or_not_at_all() {
    let t = stance_tally(&[1, 0, 0, -1, 1], &[1, 0, 1, 0, -1]);
    assert_eq!(t, StanceTally { agreements: 1, half_agreements: 2, compared: 4 });
    let none = stance_tally(&[0, 0], &[0, 0, 1]);
    assert_eq!(none, StanceTally { agreements: 0, half_agreements: 0, compared: 0 });
}

#[test]
fn stance_tally_is_symmetric_and_uses_common_length() {
    let a = [1, -1, 0, 1];
    let b = [-1, -1, 1];
    assert_eq!(stance_tally(&a, &b), stance_tally(&b, &a));
    assert_eq!(stance_tally(&a, &b), StanceTally { agreements: 1, half_agreements: 1, compared: 3 });
}

#[test]
fn pair_tallies_are_ordered_by_pair() {
    let stances = vec![vec![1], vec![-1], vec![0], vec![1]];
    let tallies = pairwise_tallies(&stances);
    // pairs (0,1) (0,2) (0,3) (1,2) (1,3) (2,3)
    assert_eq!(tallies.len(), 6);
    assert_eq!(tallies[0], StanceTally { agreements: 0, half_agreements: 0, compared: 1 });
    assert_eq!(tallies[1], StanceTally { agreements: 0, half_agreements: 1, compared: 1 });
    assert_eq!(tallies[2], StanceTally { agreements: 1, half_agreements: 0, compared: 1 });
    assert_eq!(tallies[3], StanceTally { agreements: 0, half_agreements: 1, compared: 1 });
    assert_eq!(tallies[4], StanceTally { agreements: 0, half_agreements: 0, compared: 1 });
    assert_eq!(tallies[5], StanceTally { agreements: 0, half_agreements: 1, compared: 1 });
}

#[test]
fn fewer_than_two_stances_have_no_pairs() {
    assert!(pairwise_tallies(&[]).is_empty());
    assert!(pairwise_tallies(&[vec![1, 0]]).is_empty());
}
