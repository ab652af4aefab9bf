//! Core data types of the protocol: chains, steps, attacks, votes and step addresses.

use vstd::prelude::*;

verus! {

/// Status of a step in a reasoning chain.
#[derive(Debug, Clone, Copy, PartialEq, Eq, Structural)]
pub enum StepStatus {
    Active,
    Collapsed,
    Fortified,
}

/// Status of a chain.
#[derive(Debug, Clone, Copy, PartialEq, Eq, Structural)]
pub enum ChainStatus {
    Active,
    Broken,
    Archived,
}

/// A single step in a reasoning chain.
#[derive(Debug, Clone)]
pub struct Step {
    pub index: u32,
    pub content: String,
    pub status: StepStatus,
    pub attack_count: u32,
}

/// A versioned reasoning chain owned by an agent.
#[derive(Debug, Clone)]
pub struct Chain {
    pub chain_id: String,
    pub agent_id: String,
    pub version: u32,
    pub steps: Vec<Step>,
    pub status: ChainStatus,
    pub created_round: u32,
}

/// An attack record.
#[derive(Debug, Clone)]
pub struct Attack {
    pub attacker_id: String,
    pub target_chain_id: String,
    pub target_step_index: u32,
    pub reason: String,
    pub round: u32,
    pub success: bool,
}

/// A vote on an attack.
#[derive(Debug, Clone, Copy, PartialEq, Eq, Structural)]
pub enum Vote {
    Collapsed,
    Defended,
}

/// Number of occurrences of `v` in `s`.
pub open spec fn vote_count(s: Seq<Vote>, v: Vote) -> nat
    decreases s.len(),
{
    if s.len() == 0 {
        0
    } else {
        vote_count(s.drop_last(), v) + (if s.last() == v { 1nat } else { 0nat })
    }
}

/// The decision of a majority vote on the two tallies: a strict majority of
/// `Collapsed` votes collapses the step, anything else (a tie included) defends it.
pub open spec fn majority_outcome(collapse: u32, defend: u32) -> Vote {
    if collapse > defend {
        Vote::Collapsed
    } else {
        Vote::Defended
    }
}

/// Counts the `Collapsed` and the `Defended` votes of `votes`, each as a `usize`.
pub(crate) fn count_votes(votes: &[Vote]) -> (r: (usize, usize))
    ensures
        r.0 == vote_count(votes@, Vote::Collapsed),
        r.1 == vote_count(votes@, Vote::Defended),
        r.0 + r.1 == votes@.len(),
{
    let mut collapse: usize = 0;
    let mut defend: usize = 0;
    let mut i: usize = 0;
    while i < votes.len()
        invariant
            i <= votes@.len(),
            collapse == vote_count(votes@.take(i as int), Vote::Collapsed),
            defend == vote_count(votes@.take(i as int), Vote::Defended),
            collapse + defend == i,
        decreases votes@.len() - i,
    {
        assert(votes@.take(i + 1).drop_last() =~= votes@.take(i as int));
        if votes[i] == Vote::Collapsed {
            collapse = collapse + 1;
        } else {
            defend = defend + 1;
        }
        i = i + 1;
    }
    assert(votes@.take(votes@.len() as int) =~= votes@);
    (collapse, defend)
}

/// Result of a voting round.
#[derive(Debug, Clone)]
pub struct VoteResult {
    pub collapse_votes: u32,
    pub defend_votes: u32,
    pub outcome: Vote,
}

impl VoteResult {
    /// Tallies `votes`. Each tally is the number of votes of its kind taken as a `u32`
    /// (truncated, as a cast would, when it does not fit); the outcome is the strict
    /// majority of the two tallies, a tie going to `Defended`.
    pub fn from_votes(votes: &[Vote]) -> (r: Self)
        ensures
            r.collapse_votes == vote_count(votes@, Vote::Collapsed) as u32,
            r.defend_votes == vote_count(votes@, Vote::Defended) as u32,
            r.outcome == majority_outcome(r.collapse_votes, r.defend_votes),
    {
        let (c, d) = count_votes(votes);
        let collapse = c as u32;
        let defend = d as u32;
        let outcome = if collapse > defend {
            Vote::Collapsed
        } else {
            Vote::Defended
        };
        VoteResult { collapse_votes: collapse, defend_votes: defend, outcome }
    }
}

/// Unique address of a step in the system.
#[derive(Debug, Clone, Hash)]
pub struct StepAddress {
    pub agent_id: String,
    pub version: u32,
    pub step_index: u32,
}

impl PartialEq for StepAddress {
    fn eq(&self, other: &Self) -> (r: bool) {
        self.version == other.version && self.step_index == other.step_index && self.agent_id
            == other.agent_id
    }
}

impl vstd::std_specs::cmp::PartialEqSpecImpl for StepAddress {
    open spec fn obeys_eq_spec() -> bool {
        true
    }

    open spec fn eq_spec(&self, other: &Self) -> bool {
        self.agent_id@ == other.agent_id@ && self.version == other.version && self.step_index
            == other.step_index
    }
}

impl Eq for StepAddress {

}

/// The decimal digit `d` (`d < 10`) as a character.
pub open spec fn digit_char(d: nat) -> char {
    if d == 0 {
        '0'
    } else if d == 1 {
        '1'
    } else if d == 2 {
        '2'
    } else if d == 3 {
        '3'
    } else if d == 4 {
        '4'
    } else if d == 5 {
        '5'
    } else if d == 6 {
        '6'
    } else if d == 7 {
        '7'
    } else if d == 8 {
        '8'
    } else {
        '9'
    }
}

/// The decimal notation of `n`, most significant digit first, without leading zeros.
pub open spec fn decimal(n: nat) -> Seq<char>
    decreases n,
{
    if n < 10 {
        seq![digit_char(n)]
    } else {
        decimal(n / 10).push(digit_char(n % 10))
    }
}

/// The text of a step address: `{agent_id}.v{version}.Step{step_index}`.
pub open spec fn step_address_text(agent_id: Seq<char>, version: u32, step_index: u32) -> Seq<
    char,
> {
    agent_id + seq!['.', 'v'] + decimal(version as nat) + seq!['.', 'S', 't', 'e', 'p'] + decimal(
        step_index as nat,
    )
}

/// The one-character string of the decimal digit `d`.
fn digit_str(d: u32) -> (r: &'static str)
    requires
        d < 10,
    ensures
        r@ == seq![digit_char(d as nat)],
{
    if d == 0 {
        proof {
            reveal_strlit("0");
        }
        "0"
    } else if d == 1 {
        proof {
            reveal_strlit("1");
        }
        "1"
    } else if d == 2 {
        proof {
            reveal_strlit("2");
        }
        "2"
    } else if d == 3 {
        proof {
            reveal_strlit("3");
        }
        "3"
    } else if d == 4 {
        proof {
            reveal_strlit("4");
        }
        "4"
    } else if d == 5 {
        proof {
            reveal_strlit("5");
        }
        "5"
    } else if d == 6 {
        proof {
            reveal_strlit("6");
        }
        "6"
    } else if d == 7 {
        proof {
            reveal_strlit("7");
        }
        "7"
    } else if d == 8 {
        proof {
            reveal_strlit("8");
        }
        "8"
    } else {
        proof {
            reveal_strlit("9");
        }
        "9"
    }
}

/// Appends the decimal notation of `n` to `s`.
fn push_decimal(s: &mut String, n: u32)
    ensures
        final(s)@ == old(s)@ + decimal(n as nat),
    decreases n,
{
    if n >= 10 {
        push_decimal(s, n / 10);
    }
    s.append(digit_str(n % 10));
    proof {
        if n >= 10 {
            assert(decimal(n as nat) == decimal((n / 10) as nat).push(digit_char((n % 10) as nat)));
        }
    }
}

impl StepAddress {
    /// Renders the address as `{agent_id}.v{version}.Step{step_index}`,
    /// e.g. `agent_a.v2.Step3`.
    pub fn to_string(&self) -> (r: String)
        ensures
            r@ == step_address_text(self.agent_id@, self.version, self.step_index),
    {
        let mut s = self.agent_id.clone();
        proof {
            reveal_strlit(".v");
            reveal_strlit(".Step");
        }
        s.append(".v");
        push_decimal(&mut s, self.version);
        s.append(".Step");
        push_decimal(&mut s, self.step_index);
        s
    }
}

} // verus!
