//! Decentralized parallel voting: majority decision and Byzantine fault tolerance.

use vstd::prelude::*;

use crate::types::{count_votes, majority_outcome, vote_count, Vote};

verus! {

/// Computes the unweighted majority decision of `votes`.
///
/// Returns the outcome, the number of `Collapsed` votes and the number of `Defended`
/// votes, each tally taken as a `u32` (truncated, as a cast would, when it does not fit).
/// A tie goes to `Defended`.
pub fn majority_decision(votes: &[Vote]) -> (r: (Vote, u32, u32))
    ensures
        r.1 == vote_count(votes@, Vote::Collapsed) as u32,
        r.2 == vote_count(votes@, Vote::Defended) as u32,
        r.0 == majority_outcome(r.1, r.2),
{
    let (c, d) = count_votes(votes);
    let collapse = c as u32;
    let defend = d as u32;
    let outcome = if collapse > defend {
        Vote::Collapsed
    } else {
        Vote::Defended
    };
    (outcome, collapse, defend)
}

/// The number of Byzantine voters that `voter_count` voters tolerate: `(n - 1) / 2`
/// rounded down, and none for no voters.
pub open spec fn spec_max_byzantine_tolerance(voter_count: nat) -> nat {
    if voter_count == 0 {
        0
    } else {
        ((voter_count - 1) / 2) as nat
    }
}

/// Checks Byzantine fault tolerance: with `n` voters, tolerates `floor((n - 1) / 2)`
/// Byzantine nodes.
pub fn max_byzantine_tolerance(voter_count: usize) -> (r: usize)
    ensures
        r == spec_max_byzantine_tolerance(voter_count as nat),
        voter_count == 0 ==> r == 0,
        voter_count > 0 ==> 2 * r < voter_count && voter_count <= 2 * r + 2,
{
    if voter_count == 0 {
        0
    } else {
        (voter_count - 1) / 2
    }
}

/// The tolerance is the largest number of faulty voters that the honest voters still
/// outnumber: for `n > 0` voters it is the `t` with `2t < n <= 2(t + 1)`, and it is
/// zero for no voters. Any larger count of faulty voters would reach half of them.
pub proof fn lemma_tolerance_is_largest_minority(voter_count: nat, t: nat)
    ensures
        voter_count == 0 ==> spec_max_byzantine_tolerance(voter_count) == 0,
        voter_count > 0 ==> 2 * spec_max_byzantine_tolerance(voter_count) < voter_count,
        voter_count > 0 ==> voter_count <= 2 * spec_max_byzantine_tolerance(voter_count) + 2,
        voter_count > 0 && 2 * t < voter_count ==> t <= spec_max_byzantine_tolerance(voter_count),
{
}

/// Every vote is either `Collapsed` or `Defended`: the two tallies add up to the
/// number of votes.
pub proof fn lemma_vote_counts_partition(votes: Seq<Vote>)
    ensures
        vote_count(votes, Vote::Collapsed) + vote_count(votes, Vote::Defended) == votes.len(),
    decreases votes.len(),
{
    if votes.len() > 0 {
        lemma_vote_counts_partition(votes.drop_last());
    }
}

/// The tally of a kind of vote is the multiplicity of that vote in the multiset of votes.
pub proof fn lemma_vote_count_multiset(votes: Seq<Vote>, v: Vote)
    ensures
        vote_count(votes, v) == votes.to_multiset().count(v),
    decreases votes.len(),
{
    broadcast use vstd::seq_lib::group_to_multiset_ensures;
    if votes.len() == 0 {
        assert(votes.to_multiset() =~= vstd::multiset::Multiset::<Vote>::empty());
    } else {
        lemma_vote_count_multiset(votes.drop_last(), v);
        assert(votes.drop_last().push(votes.last()) =~= votes);
    }
}

/// The majority decision depends only on how many votes of each kind were cast, not on
/// their order: two vote lists that are permutations of each other (equal as multisets)
/// are decided alike, with the same tallies.
pub proof fn lemma_majority_order_independent(a: Seq<Vote>, b: Seq<Vote>)
    requires
        a.to_multiset() == b.to_multiset(),
    ensures
        vote_count(a, Vote::Collapsed) == vote_count(b, Vote::Collapsed),
        vote_count(a, Vote::Defended) == vote_count(b, Vote::Defended),
        majority_outcome(vote_count(a, Vote::Collapsed) as u32, vote_count(a, Vote::Defended) as u32)
            == majority_outcome(vote_count(b, Vote::Collapsed) as u32, vote_count(b, Vote::Defended) as u32),
{
    lemma_vote_count_multiset(a, Vote::Collapsed);
    lemma_vote_count_multiset(b, Vote::Collapsed);
    lemma_vote_count_multiset(a, Vote::Defended);
    lemma_vote_count_multiset(b, Vote::Defended);
}

/// Byzantine fault tolerance of the majority decision: among `n > 0` voters, when at
/// most `max_byzantine_tolerance(n)` of them are faulty and every honest voter casts the
/// same vote `v`, the majority decision is `v`, whatever the faulty voters cast.
pub proof fn lemma_byzantine_majority(votes: Seq<Vote>, v: Vote)
    requires
        0 < votes.len() <= u32::MAX,
        vote_count(votes, v) + spec_max_byzantine_tolerance(votes.len()) >= votes.len(),
    ensures
        majority_outcome(
            vote_count(votes, Vote::Collapsed) as u32,
            vote_count(votes, Vote::Defended) as u32,
        ) == v,
{
    lemma_vote_counts_partition(votes);
}

/// Fewer than half of the voters are ever tolerated as Byzantine: twice the tolerance is
/// below the number of voters, so the honest voters hold a strict majority.
pub proof fn lemma_tolerance_below_half(voter_count: nat)
    requires
        voter_count > 0,
    ensures
        2 * spec_max_byzantine_tolerance(voter_count) < voter_count,
        voter_count - spec_max_byzantine_tolerance(voter_count) > spec_max_byzantine_tolerance(voter_count),
{
}

} // verus!
