//! UCB1 attack scheduling: the per-step attack statistics and the rules that pick
//! attack candidates.
//!
//! Attack target selection is modelled as a multi-armed bandit. This module keeps the
//! exact bookkeeping of every registered step (attacks, collapses, defences, the last
//! round attacked, the distinct defence reasons) and decides which steps an attacker may
//! target and from which counts a step's UCB1 score is computed.

use vstd::prelude::*;

verus! {

/// Statistics of a single step.
#[derive(Debug, Clone)]
pub struct StepStats {
    pub agent_id: String,
    pub step_index: u32,
    pub attack_count: u32,
    pub collapse_count: u32,
    pub defend_count: u32,
    pub last_attack_round: i32,
    pub defense_reasons: Vec<String>,
}

/// Mathematical model of [`StepStats`].
pub struct StepStatsView {
    pub agent_id: Seq<char>,
    pub step_index: u32,
    pub attack_count: nat,
    pub collapse_count: nat,
    pub defend_count: nat,
    pub last_attack_round: int,
    pub defense_reasons: Seq<Seq<char>>,
}

impl View for StepStats {
    type V = StepStatsView;

    open spec fn view(&self) -> StepStatsView {
        StepStatsView {
            agent_id: self.agent_id@,
            step_index: self.step_index,
            attack_count: self.attack_count as nat,
            collapse_count: self.collapse_count as nat,
            defend_count: self.defend_count as nat,
            last_attack_round: self.last_attack_round as int,
            defense_reasons: self.defense_reasons@.map_values(|r: String| r@),
        }
    }
}

/// Mathematical model of an [`AttackScheduler`]: the statistics of every registered
/// step, in registration order, and the total number of attacks recorded.
pub struct SchedulerView {
    pub entries: Seq<StepStatsView>,
    pub total_attacks: nat,
}

/// `e` holds the statistics of step `step_index` of agent `agent_id`.
pub open spec fn same_step(e: StepStatsView, agent_id: Seq<char>, step_index: u32) -> bool {
    e.agent_id == agent_id && e.step_index == step_index
}

/// Some entry of `entries` holds the statistics of the given step.
pub open spec fn has_step(entries: Seq<StepStatsView>, agent_id: Seq<char>, step_index: u32) -> bool {
    exists|i: int| 0 <= i < entries.len() && #[trigger] same_step(entries[i], agent_id, step_index)
}

/// The position of the entry of the given step (meaningful when `has_step`).
pub open spec fn step_position(
    entries: Seq<StepStatsView>,
    agent_id: Seq<char>,
    step_index: u32,
) -> int {
    choose|i: int| 0 <= i < entries.len() && #[trigger] same_step(entries[i], agent_id, step_index)
}

/// Statistics of a step that was registered and never attacked.
pub open spec fn fresh_stats(agent_id: Seq<char>, step_index: u32) -> StepStatsView {
    StepStatsView {
        agent_id,
        step_index,
        attack_count: 0,
        collapse_count: 0,
        defend_count: 0,
        last_attack_round: -1,
        defense_reasons: Seq::empty(),
    }
}

/// The statistics `e` after one more attack in `round`: a successful attack counts as a
/// collapse, any other as a defence, whose reason is kept when given and not yet known.
pub open spec fn after_attack(
    e: StepStatsView,
    success: bool,
    round: u32,
    defense_reason: Option<Seq<char>>,
) -> StepStatsView {
    StepStatsView {
        agent_id: e.agent_id,
        step_index: e.step_index,
        attack_count: e.attack_count + 1,
        collapse_count: if success {
            e.collapse_count + 1
        } else {
            e.collapse_count
        },
        defend_count: if success {
            e.defend_count
        } else {
            e.defend_count + 1
        },
        last_attack_round: (round as i32) as int,
        defense_reasons: match defense_reason {
            Some(r) => if !success && !e.defense_reasons.contains(r) {
                e.defense_reasons.push(r)
            } else {
                e.defense_reasons
            },
            None => e.defense_reasons,
        },
    }
}

/// Sum of the attack counts of `entries`.
pub open spec fn total_attack_count(entries: Seq<StepStatsView>) -> nat
    decreases entries.len(),
{
    if entries.len() == 0 {
        0
    } else {
        total_attack_count(entries.drop_last()) + entries.last().attack_count
    }
}

/// `entries` after registering the given step: unchanged when the step is known,
/// else with fresh statistics for it at the end.
pub open spec fn with_step(entries: Seq<StepStatsView>, agent_id: Seq<char>, step_index: u32) -> Seq<
    StepStatsView,
> {
    if has_step(entries, agent_id, step_index) {
        entries
    } else {
        entries.push(fresh_stats(agent_id, step_index))
    }
}

/// `entries` after registering steps `1..=step_count` of `agent_id`, in that order.
pub open spec fn with_chain(entries: Seq<StepStatsView>, agent_id: Seq<char>, step_count: nat) -> Seq<
    StepStatsView,
>
    decreases step_count,
{
    if step_count == 0 {
        entries
    } else {
        with_step(with_chain(entries, agent_id, (step_count - 1) as nat), agent_id, step_count as u32)
    }
}

/// A step that an attacker may target: it belongs to another agent, it is not fully
/// collapsed (collapsed at least once and never defended) and not fully fortified
/// (defended at least three times and never collapsed).
pub open spec fn is_candidate(e: StepStatsView, attacker_id: Seq<char>) -> bool {
    &&& e.agent_id != attacker_id
    &&& !(e.collapse_count > 0 && e.defend_count == 0)
    &&& !(e.defend_count >= 3 && e.collapse_count == 0)
}

/// The (agent, step) pairs of the candidates among `entries`, in the order of `entries`.
pub open spec fn candidates_of(entries: Seq<StepStatsView>, attacker_id: Seq<char>) -> Seq<
    (Seq<char>, u32),
>
    decreases entries.len(),
{
    if entries.len() == 0 {
        Seq::empty()
    } else {
        let rest = candidates_of(entries.drop_last(), attacker_id);
        if is_candidate(entries.last(), attacker_id) {
            rest.push((entries.last().agent_id, entries.last().step_index))
        } else {
            rest
        }
    }
}

/// Number of entries that were attacked at least once.
pub open spec fn attacked_count(entries: Seq<StepStatsView>) -> nat
    decreases entries.len(),
{
    if entries.len() == 0 {
        0
    } else {
        attacked_count(entries.drop_last()) + (if entries.last().attack_count > 0 {
            1nat
        } else {
            0nat
        })
    }
}

impl SchedulerView {
    /// The invariant of a scheduler: every step is registered once; its attacks are its
    /// collapses plus its defences; a never attacked step has round `-1` as its last
    /// attack round; its defence reasons are distinct; and the attack counts add up to
    /// the total number of attacks, which fits in a `u32`.
    pub open spec fn well_formed(self) -> bool {
        &&& forall|i: int, j: int|
            0 <= i < j < self.entries.len() ==> !same_step(
                #[trigger] self.entries[j],
                #[trigger] self.entries[i].agent_id,
                self.entries[i].step_index,
            )
        &&& forall|i: int|
            0 <= i < self.entries.len() ==> (#[trigger] self.entries[i]).attack_count
                == self.entries[i].collapse_count + self.entries[i].defend_count
        &&& forall|i: int|
            0 <= i < self.entries.len() && (#[trigger] self.entries[i]).attack_count == 0
                ==> self.entries[i].last_attack_round == -1
        &&& forall|i: int|
            0 <= i < self.entries.len() ==> (#[trigger] self.entries[i]).defense_reasons.no_duplicates()
        &&& total_attack_count(self.entries) == self.total_attacks
        &&& self.total_attacks <= u32::MAX
    }
}

/// The counts from which the UCB1 score of a step is computed.
#[derive(Debug, Clone, Copy, PartialEq, Eq, Structural)]
pub enum UcbInputs {
    /// The step is unknown or was never attacked: it is explored first.
    Unexplored,
    /// The step was attacked: `total_attacks` is the total number of attacks (at least
    /// 1), `attack_count` and `collapse_count` those of the step, and `rounds_since` the
    /// number of rounds since its last attack (at least 0).
    Explored { total_attacks: u32, attack_count: u32, collapse_count: u32, rounds_since: i32 },
}

/// Whether the rounds elapsed since the last attack on the given step can be computed
/// in `current_round` as an `i32` (the round taken as an `i32`, minus the last attack
/// round) without overflow, for a registered step that was attacked.
pub open spec fn round_gap_fits(v: SchedulerView, agent_id: Seq<char>, step_index: u32, current_round: u32) -> bool {
    has_step(v.entries, agent_id, step_index)
        && v.entries[step_position(v.entries, agent_id, step_index)].attack_count > 0 ==> {
        let gap = (current_round as i32) - v.entries[step_position(
            v.entries,
            agent_id,
            step_index,
        )].last_attack_round;
        i32::MIN <= gap <= i32::MAX
    }
}

/// The counts from which the UCB1 score of the given step is computed in `current_round`.
pub open spec fn spec_ucb_inputs(v: SchedulerView, agent_id: Seq<char>, step_index: u32, current_round: u32) -> UcbInputs {
    if !has_step(v.entries, agent_id, step_index) {
        UcbInputs::Unexplored
    } else {
        let e = v.entries[step_position(v.entries, agent_id, step_index)];
        if e.attack_count == 0 {
            UcbInputs::Unexplored
        } else {
            let gap = (current_round as i32) - e.last_attack_round;
            UcbInputs::Explored {
                total_attacks: if v.total_attacks > 1 {
                    v.total_attacks as u32
                } else {
                    1u32
                },
                attack_count: e.attack_count as u32,
                collapse_count: e.collapse_count as u32,
                rounds_since: if gap > 0 {
                    gap as i32
                } else {
                    0i32
                },
            }
        }
    }
}

/// UCB1-based attack scheduler.
pub struct AttackScheduler {
    stats: Vec<StepStats>,
    total_attacks: u32,
}

impl View for AttackScheduler {
    type V = SchedulerView;

    closed spec fn view(&self) -> SchedulerView {
        SchedulerView {
            entries: self.stats@.map_values(|s: StepStats| s@),
            total_attacks: self.total_attacks as nat,
        }
    }
}

/// The attack count of every entry is at most the sum of all of them.
proof fn lemma_entry_le_total(entries: Seq<StepStatsView>, i: int)
    requires
        0 <= i < entries.len(),
    ensures
        entries[i].attack_count <= total_attack_count(entries),
    decreases entries.len(),
{
    if i < entries.len() - 1 {
        lemma_entry_le_total(entries.drop_last(), i);
    }
}

/// Replacing one entry changes the sum of the attack counts by the difference.
proof fn lemma_total_update(entries: Seq<StepStatsView>, i: int, e: StepStatsView)
    requires
        0 <= i < entries.len(),
    ensures
        total_attack_count(entries.update(i, e)) + entries[i].attack_count == total_attack_count(
            entries,
        ) + e.attack_count,
    decreases entries.len(),
{
    if i < entries.len() - 1 {
        lemma_total_update(entries.drop_last(), i, e);
        assert(entries.update(i, e).drop_last() =~= entries.drop_last().update(i, e));
    } else {
        assert(entries.update(i, e).drop_last() =~= entries.drop_last());
    }
}

/// Within a well-formed scheduler, an entry of the given step is the one at its position.
proof fn lemma_position_unique(v: SchedulerView, i: int, agent_id: Seq<char>, step_index: u32)
    requires
        v.well_formed(),
        0 <= i < v.entries.len(),
        same_step(v.entries[i], agent_id, step_index),
    ensures
        has_step(v.entries, agent_id, step_index),
        step_position(v.entries, agent_id, step_index) == i,
{
    let p = step_position(v.entries, agent_id, step_index);
    assert(same_step(v.entries[p], agent_id, step_index));
    if p < i {
        assert(!same_step(v.entries[i], v.entries[p].agent_id, v.entries[p].step_index));
    } else if i < p {
        assert(!same_step(v.entries[p], v.entries[i].agent_id, v.entries[i].step_index));
    }
}

impl AttackScheduler {
    /// An empty scheduler: no step registered, no attack recorded.
    pub fn new() -> (r: Self)
        ensures
            r@.entries == Seq::<StepStatsView>::empty(),
            r@.total_attacks == 0,
            r@.well_formed(),
    {
        let r = AttackScheduler { stats: Vec::new(), total_attacks: 0 };
        assert(r@.entries =~= Seq::<StepStatsView>::empty());
        r
    }

    /// The total number of attacks recorded.
    pub fn total_attacks(&self) -> (r: u32)
        ensures
            r == self@.total_attacks,
    {
        self.total_attacks
    }

    /// Position of the statistics of the given step, if it is registered.
    fn find(&self, agent_id: &String, step_index: u32) -> (r: Option<usize>)
        ensures
            match r {
                Some(i) => i < self@.entries.len() && same_step(
                    self@.entries[i as int],
                    agent_id@,
                    step_index,
                ),
                None => !has_step(self@.entries, agent_id@, step_index),
            },
    {
        let mut i: usize = 0;
        while i < self.stats.len()
            invariant
                i <= self.stats@.len(),
                self@.entries.len() == self.stats@.len(),
                forall|j: int| 0 <= j < i ==> !same_step(#[trigger] self@.entries[j], agent_id@, step_index),
            decreases self.stats@.len() - i,
        {
            if self.stats[i].step_index == step_index && self.stats[i].agent_id == *agent_id {
                return Some(i);
            }
            i = i + 1;
        }
        None
    }

    /// The statistics of the given step, if it is registered.
    pub fn step_stats(&self, agent_id: &str, step_index: u32) -> (r: Option<&StepStats>)
        requires
            self@.well_formed(),
        ensures
            match r {
                Some(s) => has_step(self@.entries, agent_id@, step_index) && s@ == self@.entries[step_position(
                    self@.entries,
                    agent_id@,
                    step_index,
                )],
                None => !has_step(self@.entries, agent_id@, step_index),
            },
    {
        let key = agent_id.to_owned();
        match self.find(&key, step_index) {
            Some(i) => {
                proof {
                    lemma_position_unique(self@, i as int, agent_id@, step_index);
                }
                Some(&self.stats[i])
            },
            None => None,
        }
    }

    /// Registers a step as attackable. A step that is already registered keeps its
    /// statistics.
    pub fn register_step(&mut self, agent_id: &str, step_index: u32)
        requires
            old(self)@.well_formed(),
        ensures
            final(self)@.well_formed(),
            final(self)@.entries == with_step(old(self)@.entries, agent_id@, step_index),
            final(self)@.total_attacks == old(self)@.total_attacks,
    {
        let key = agent_id.to_owned();
        match self.find(&key, step_index) {
            Some(_) => {},
            None => {
                let fresh = StepStats {
                    agent_id: key,
                    step_index,
                    attack_count: 0,
                    collapse_count: 0,
                    defend_count: 0,
                    last_attack_round: -1,
                    defense_reasons: Vec::new(),
                };
                let ghost old_entries = self@.entries;
                self.stats.push(fresh);
                proof {
                    assert(fresh@.defense_reasons =~= Seq::<Seq<char>>::empty());
                    assert(self@.entries =~= old_entries.push(fresh_stats(agent_id@, step_index)));
                    assert(self@.entries.drop_last() =~= old_entries);
                    let n = old_entries.len() as int;
                    assert forall|i: int, j: int|
                        0 <= i < j < self@.entries.len() implies !same_step(
                        #[trigger] self@.entries[j],
                        #[trigger] self@.entries[i].agent_id,
                        self@.entries[i].step_index,
                    ) by {
                        if j == n {
                            assert(!same_step(old_entries[i], agent_id@, step_index));
                        } else {
                            assert(old_entries[j] == self@.entries[j]);
                            assert(old_entries[i] == self@.entries[i]);
                        }
                    }
                    assert(self@.entries[n].defense_reasons.no_duplicates());
                }
            },
        }
    }

    /// Registers steps `1..=step_count` of a chain, in that order.
    pub fn register_chain(&mut self, agent_id: &str, step_count: u32)
        requires
            old(self)@.well_formed(),
        ensures
            final(self)@.well_formed(),
            final(self)@.entries == with_chain(old(self)@.entries, agent_id@, step_count as nat),
            final(self)@.total_attacks == old(self)@.total_attacks,
    {
        let mut i: u64 = 1;
        while i <= step_count as u64
            invariant
                1 <= i <= step_count as u64 + 1,
                self@.well_formed(),
                self@.entries == with_chain(old(self)@.entries, agent_id@, (i - 1) as nat),
                self@.total_attacks == old(self)@.total_attacks,
            decreases step_count as u64 + 1 - i,
        {
            self.register_step(agent_id, i as u32);
            i = i + 1;
        }
    }

    /// Whether `reasons` already holds `reason`.
    fn contains_reason(reasons: &Vec<String>, reason: &String) -> (r: bool)
        ensures
            r == reasons@.map_values(|s: String| s@).contains(reason@),
    {
        let ghost views = reasons@.map_values(|s: String| s@);
        let mut i: usize = 0;
        while i < reasons.len()
            invariant
                i <= reasons@.len(),
                views == reasons@.map_values(|s: String| s@),
                forall|j: int| 0 <= j < i ==> views[j] != reason@,
            decreases reasons@.len() - i,
        {
            if reasons[i] == *reason {
                assert(views[i as int] == reason@);
                return true;
            }
            i = i + 1;
        }
        false
    }

    /// Records the result of an attack on a step, registering the step first if needed.
    /// A successful attack counts as a collapse; a failed one as a defence, whose reason
    /// is kept when given and not already known for that step.
    pub fn record_attack(
        &mut self,
        agent_id: &str,
        step_index: u32,
        success: bool,
        round: u32,
        defense_reason: Option<&str>,
    )
        requires
            old(self)@.well_formed(),
            old(self)@.total_attacks < u32::MAX,
        ensures
            final(self)@.well_formed(),
            final(self)@.total_attacks == old(self)@.total_attacks + 1,
            ({
                let entries = old(self)@.entries;
                let reason = match defense_reason {
                    Some(r) => Some(r@),
                    None => None::<Seq<char>>,
                };
                if has_step(entries, agent_id@, step_index) {
                    let i = step_position(entries, agent_id@, step_index);
                    final(self)@.entries == entries.update(
                        i,
                        after_attack(entries[i], success, round, reason),
                    )
                } else {
                    final(self)@.entries == entries.push(
                        after_attack(fresh_stats(agent_id@, step_index), success, round, reason),
                    )
                }
            }),
    {
        let ghost old_view = self@;
        let ghost reason_view = match defense_reason {
            Some(r) => Some(r@),
            None => None::<Seq<char>>,
        };
        let key = agent_id.to_owned();
        let found = self.find(&key, step_index);
        let idx = match found {
            Some(i) => {
                proof {
                    lemma_position_unique(old_view, i as int, agent_id@, step_index);
                }
                i
            },
            None => {
                self.register_step(agent_id, step_index);
                proof {
                    assert(self@.entries[self@.entries.len() - 1] == fresh_stats(agent_id@, step_index));
                }
                self.stats.len() - 1
            },
        };
        let ghost mid = self@;
        let ghost before = self@.entries[idx as int];
        proof {
            lemma_entry_le_total(mid.entries, idx as int);
        }
        self.stats[idx].attack_count = self.stats[idx].attack_count + 1;
        self.stats[idx].last_attack_round = round as i32;
        self.total_attacks = self.total_attacks + 1;
        if success {
            self.stats[idx].collapse_count = self.stats[idx].collapse_count + 1;
        } else {
            self.stats[idx].defend_count = self.stats[idx].defend_count + 1;
            if let Some(reason) = defense_reason {
                let r = reason.to_owned();
                if !Self::contains_reason(&self.stats[idx].defense_reasons, &r) {
                    self.stats[idx].defense_reasons.push(r);
                    proof {
                        assert(self.stats@[idx as int].defense_reasons@.map_values(|s: String| s@)
                            =~= before.defense_reasons.push(r@));
                    }
                }
            }
        }
        proof {
            let after = after_attack(before, success, round, reason_view);
            assert(self@.entries[idx as int].defense_reasons =~= after.defense_reasons);
            assert(self@.entries =~= mid.entries.update(idx as int, after));
            lemma_total_update(mid.entries, idx as int, after);
            if !success {
                if let Some(r) = reason_view {
                    if !before.defense_reasons.contains(r) {
                        assert forall|a: int, b: int|
                            0 <= a < b < after.defense_reasons.len() implies after.defense_reasons[a]
                            != after.defense_reasons[b] by {
                            if b == after.defense_reasons.len() - 1 {
                                assert(before.defense_reasons[a] == after.defense_reasons[a]);
                            }
                        }
                    }
                }
            }
            assert forall|i: int, j: int|
                0 <= i < j < self@.entries.len() implies !same_step(
                #[trigger] self@.entries[j],
                #[trigger] self@.entries[i].agent_id,
                self@.entries[i].step_index,
            ) by {
                assert(mid.entries[i].agent_id == self@.entries[i].agent_id);
                assert(mid.entries[j].agent_id == self@.entries[j].agent_id);
                assert(!same_step(mid.entries[j], mid.entries[i].agent_id, mid.entries[i].step_index));
            }
            if found.is_none() {
                assert(mid.entries =~= old_view.entries.push(fresh_stats(agent_id@, step_index)));
            }
        }
    }

    /// The counts from which the UCB1 score of the given step is computed in
    /// `current_round`: `Unexplored` for an unknown or never attacked step (explored
    /// first), else the total number of attacks (at least 1), the step's attack and
    /// collapse counts, and the rounds since its last attack (at least 0).
    pub fn ucb_inputs(&self, agent_id: &str, step_index: u32, current_round: u32) -> (r: UcbInputs)
        requires
            self@.well_formed(),
            round_gap_fits(self@, agent_id@, step_index, current_round),
        ensures
            r == spec_ucb_inputs(self@, agent_id@, step_index, current_round),
            (r is Explored) <==> (has_step(self@.entries, agent_id@, step_index)
                && self@.entries[step_position(self@.entries, agent_id@, step_index)].attack_count
                > 0),
            r matches UcbInputs::Explored { total_attacks, attack_count, collapse_count, rounds_since } ==> {
                let e = self@.entries[step_position(self@.entries, agent_id@, step_index)];
                &&& attack_count == e.attack_count
                &&& collapse_count == e.collapse_count
                &&& collapse_count + e.defend_count == attack_count
                &&& attack_count <= total_attacks
                &&& total_attacks == self@.total_attacks
                &&& rounds_since >= 0
                &&& rounds_since >= (current_round as i32) - e.last_attack_round
            },
    {
        proof {
            if has_step(self@.entries, agent_id@, step_index) {
                let p = step_position(self@.entries, agent_id@, step_index);
                lemma_step_counts(self@, p);
            }
        }
        match self.step_stats(agent_id, step_index) {
            None => UcbInputs::Unexplored,
            Some(st) => {
                if st.attack_count == 0 {
                    UcbInputs::Unexplored
                } else {
                    let total = if self.total_attacks > 1 {
                        self.total_attacks
                    } else {
                        1
                    };
                    let gap = current_round as i32 - st.last_attack_round;
                    let rounds_since = if gap > 0 {
                        gap
                    } else {
                        0
                    };
                    UcbInputs::Explored {
                        total_attacks: total,
                        attack_count: st.attack_count,
                        collapse_count: st.collapse_count,
                        rounds_since,
                    }
                }
            },
        }
    }

    /// The steps that `attacker_id` may target, as (agent, step) pairs in registration
    /// order: the steps of other agents that are neither fully collapsed (collapsed and
    /// never defended) nor fully fortified (defended at least three times and never
    /// collapsed).
    pub fn candidate_targets(&self, attacker_id: &str) -> (r: Vec<(String, u32)>)
        requires
            self@.well_formed(),
        ensures
            r@.map_values(|p: (String, u32)| (p.0@, p.1)) == candidates_of(
                self@.entries,
                attacker_id@,
            ),
            forall|i: int|
                0 <= i < self@.entries.len() ==> (r@.map_values(|p: (String, u32)| (p.0@, p.1)).contains(
                    (#[trigger] self@.entries[i].agent_id, self@.entries[i].step_index),
                ) <==> (self@.entries[i].agent_id != attacker_id@ && (self@.entries[i].collapse_count
                    == 0 || self@.entries[i].defend_count > 0) && (self@.entries[i].defend_count < 3
                    || self@.entries[i].collapse_count > 0))),
    {
        proof {
            assert forall|i: int| 0 <= i < self@.entries.len() implies (candidates_of(
                self@.entries,
                attacker_id@,
            ).contains((#[trigger] self@.entries[i].agent_id, self@.entries[i].step_index)) <==> (
            self@.entries[i].agent_id != attacker_id@ && (self@.entries[i].collapse_count == 0
                || self@.entries[i].defend_count > 0) && (self@.entries[i].defend_count < 3
                || self@.entries[i].collapse_count > 0))) by {
                lemma_candidate_rule(self@, attacker_id@, i);
            }
        }
        let attacker = attacker_id.to_owned();
        let ghost entries = self@.entries;
        let mut res: Vec<(String, u32)> = Vec::new();
        let mut i: usize = 0;
        while i < self.stats.len()
            invariant
                i <= self.stats@.len(),
                entries == self@.entries,
                entries.len() == self.stats@.len(),
                attacker@ == attacker_id@,
                res@.map_values(|p: (String, u32)| (p.0@, p.1)) == candidates_of(
                    entries.take(i as int),
                    attacker_id@,
                ),
            decreases self.stats@.len() - i,
        {
            let ghost prev = res@;
            assert(entries.take(i + 1).drop_last() =~= entries.take(i as int));
            assert(entries.take(i + 1).last() == entries[i as int]);
            let st = &self.stats[i];
            let own = st.agent_id == attacker;
            let collapsed = st.collapse_count > 0 && st.defend_count == 0;
            let fortified = st.defend_count >= 3 && st.collapse_count == 0;
            if !own && !collapsed && !fortified {
                res.push((st.agent_id.clone(), st.step_index));
                assert(res@.map_values(|p: (String, u32)| (p.0@, p.1)) =~= prev.map_values(
                    |p: (String, u32)| (p.0@, p.1),
                ).push((entries[i as int].agent_id, entries[i as int].step_index)));
            }
            i = i + 1;
        }
        assert(entries.take(entries.len() as int) =~= entries);
        res
    }

    /// How many registered steps were attacked at least once, and how many steps are
    /// registered: the attack coverage is the first over the second.
    pub fn coverage_counts(&self) -> (r: (usize, usize))
        requires
            self@.well_formed(),
        ensures
            r.0 == attacked_count(self@.entries),
            r.1 == self@.entries.len(),
            r.0 <= r.1,
            r.0 <= self@.total_attacks,
            (r.0 == 0) <==> (forall|i: int|
                0 <= i < self@.entries.len() ==> (#[trigger] self@.entries[i]).attack_count == 0),
            (r.0 == r.1) <==> (forall|i: int|
                0 <= i < self@.entries.len() ==> (#[trigger] self@.entries[i]).attack_count > 0),
    {
        proof {
            lemma_attacked_count_extremes(self@.entries);
            lemma_coverage_bounds(self@);
        }
        let ghost entries = self@.entries;
        let mut attacked: usize = 0;
        let mut i: usize = 0;
        while i < self.stats.len()
            invariant
                i <= self.stats@.len(),
                entries == self@.entries,
                entries.len() == self.stats@.len(),
                attacked == attacked_count(entries.take(i as int)),
                attacked <= i,
            decreases self.stats@.len() - i,
        {
            assert(entries.take(i + 1).drop_last() =~= entries.take(i as int));
            if self.stats[i].attack_count > 0 {
                attacked = attacked + 1;
            }
            i = i + 1;
        }
        assert(entries.take(entries.len() as int) =~= entries);
        (attacked, self.stats.len())
    }
}

/// Registering a step is idempotent: registering it a second time changes nothing.
pub proof fn lemma_register_step_idempotent(entries: Seq<StepStatsView>, agent_id: Seq<char>, step_index: u32)
    ensures
        with_step(with_step(entries, agent_id, step_index), agent_id, step_index) == with_step(
            entries,
            agent_id,
            step_index,
        ),
        has_step(with_step(entries, agent_id, step_index), agent_id, step_index),
{
    if !has_step(entries, agent_id, step_index) {
        let pushed = entries.push(fresh_stats(agent_id, step_index));
        assert(same_step(pushed[entries.len() as int], agent_id, step_index));
    }
}

/// Registering a step keeps every step registered before.
proof fn lemma_with_step_keeps(entries: Seq<StepStatsView>, agent_id: Seq<char>, step_index: u32, a: Seq<char>, k: u32)
    requires
        has_step(entries, a, k),
    ensures
        has_step(with_step(entries, agent_id, step_index), a, k),
{
    let i = choose|i: int| 0 <= i < entries.len() && #[trigger] same_step(entries[i], a, k);
    assert(same_step(with_step(entries, agent_id, step_index)[i], a, k));
}

/// Registering a chain of `step_count` steps registers each of its steps `1..=step_count`
/// and keeps every step registered before.
pub proof fn lemma_register_chain_registers(
    entries: Seq<StepStatsView>,
    agent_id: Seq<char>,
    step_count: nat,
    k: u32,
)
    ensures
        1 <= k <= step_count ==> has_step(with_chain(entries, agent_id, step_count), agent_id, k),
        forall|a: Seq<char>, s: u32|
            has_step(entries, a, s) ==> #[trigger] has_step(with_chain(entries, agent_id, step_count), a, s),
    decreases step_count,
{
    if step_count > 0 {
        let prev = with_chain(entries, agent_id, (step_count - 1) as nat);
        lemma_register_chain_registers(entries, agent_id, (step_count - 1) as nat, k);
        lemma_register_step_idempotent(prev, agent_id, step_count as u32);
        if 1 <= k <= step_count - 1 {
            lemma_with_step_keeps(prev, agent_id, step_count as u32, agent_id, k);
        }
        assert forall|a: Seq<char>, s: u32| has_step(entries, a, s) implies #[trigger] has_step(
            with_chain(entries, agent_id, step_count),
            a,
            s,
        ) by {
            lemma_with_step_keeps(prev, agent_id, step_count as u32, a, s);
        }
    }
}

/// Every candidate is a registered step that the attacker may target: it belongs to
/// another agent and is neither fully collapsed nor fully fortified. In particular an
/// attacker is never offered its own steps.
pub proof fn lemma_candidates_sound(entries: Seq<StepStatsView>, attacker_id: Seq<char>, k: int)
    requires
        0 <= k < candidates_of(entries, attacker_id).len(),
    ensures
        exists|i: int|
            0 <= i < entries.len() && is_candidate(#[trigger] entries[i], attacker_id) && same_step(
                entries[i],
                candidates_of(entries, attacker_id)[k].0,
                candidates_of(entries, attacker_id)[k].1,
            ),
        candidates_of(entries, attacker_id)[k].0 != attacker_id,
    decreases entries.len(),
{
    let rest = candidates_of(entries.drop_last(), attacker_id);
    if k < rest.len() {
        lemma_candidates_sound(entries.drop_last(), attacker_id, k);
        let i = choose|i: int|
            0 <= i < entries.drop_last().len() && is_candidate(#[trigger] entries.drop_last()[i], attacker_id)
                && same_step(entries.drop_last()[i], rest[k].0, rest[k].1);
        assert(entries[i] == entries.drop_last()[i]);
    } else {
        let i = entries.len() - 1;
        assert(is_candidate(entries[i], attacker_id));
    }
}

/// Exploration is guaranteed: every step of another agent that was never attacked is a
/// candidate for the attacker, and its UCB1 inputs mark it `Unexplored`, so that it is
/// scored above every explored step.
pub proof fn lemma_unexplored_steps_are_candidates(v: SchedulerView, attacker_id: Seq<char>, i: int, current_round: u32)
    requires
        v.well_formed(),
        0 <= i < v.entries.len(),
        v.entries[i].agent_id != attacker_id,
        v.entries[i].attack_count == 0,
    ensures
        candidates_of(v.entries, attacker_id).contains((v.entries[i].agent_id, v.entries[i].step_index)),
        spec_ucb_inputs(v, v.entries[i].agent_id, v.entries[i].step_index, current_round)
            == UcbInputs::Unexplored,
{
    lemma_position_unique(v, i, v.entries[i].agent_id, v.entries[i].step_index);
    lemma_candidate_included(v.entries, attacker_id, i);
}

/// An entry that passes the candidate rule is among the candidates.
proof fn lemma_candidate_included(entries: Seq<StepStatsView>, attacker_id: Seq<char>, i: int)
    requires
        0 <= i < entries.len(),
        is_candidate(entries[i], attacker_id),
    ensures
        candidates_of(entries, attacker_id).contains((entries[i].agent_id, entries[i].step_index)),
    decreases entries.len(),
{
    let rest = candidates_of(entries.drop_last(), attacker_id);
    if i < entries.len() - 1 {
        lemma_candidate_included(entries.drop_last(), attacker_id, i);
        assert(entries.drop_last()[i] == entries[i]);
        let j = choose|j: int| 0 <= j < rest.len() && rest[j] == (entries[i].agent_id, entries[i].step_index);
        assert(candidates_of(entries, attacker_id)[j] == rest[j]);
    } else {
        let c = candidates_of(entries, attacker_id);
        assert(c[c.len() - 1] == (entries[i].agent_id, entries[i].step_index));
    }
}

/// Coverage never exceeds what was attacked: the number of steps attacked at least once
/// is at most the number of registered steps and at most the total number of attacks.
pub proof fn lemma_coverage_bounds(v: SchedulerView)
    requires
        v.well_formed(),
    ensures
        attacked_count(v.entries) <= v.entries.len(),
        attacked_count(v.entries) <= v.total_attacks,
{
    lemma_attacked_le(v.entries);
}

/// The attacked steps are no more than the steps, nor than the attacks.
proof fn lemma_attacked_le(entries: Seq<StepStatsView>)
    ensures
        attacked_count(entries) <= entries.len(),
        attacked_count(entries) <= total_attack_count(entries),
    decreases entries.len(),
{
    if entries.len() > 0 {
        lemma_attacked_le(entries.drop_last());
    }
}

/// Each step's attacks split into its collapses and its defences, and no step has seen
/// more attacks than were recorded in all.
pub proof fn lemma_step_counts(v: SchedulerView, i: int)
    requires
        v.well_formed(),
        0 <= i < v.entries.len(),
    ensures
        v.entries[i].attack_count == v.entries[i].collapse_count + v.entries[i].defend_count,
        v.entries[i].attack_count <= v.total_attacks,
{
    lemma_entry_le_total(v.entries, i);
}

/// The UCB1 inputs of an attacked step are its own counts: its attack count, its
/// collapse count (the successful attacks on it, so that collapses over attacks is its
/// collapse rate), which with its defences make up its attacks, the total number of
/// attacks (never fewer than the step's own), and a non-negative number of rounds since
/// its last attack, at least the current round minus that round.
pub proof fn lemma_ucb_inputs_counts(v: SchedulerView, agent_id: Seq<char>, step_index: u32, current_round: u32, i: int)
    requires
        v.well_formed(),
        0 <= i < v.entries.len(),
        same_step(v.entries[i], agent_id, step_index),
        v.entries[i].attack_count > 0,
        round_gap_fits(v, agent_id, step_index, current_round),
    ensures
        spec_ucb_inputs(v, agent_id, step_index, current_round) matches UcbInputs::Explored {
            total_attacks,
            attack_count,
            collapse_count,
            rounds_since,
        } && attack_count == v.entries[i].attack_count && collapse_count == v.entries[i].collapse_count
            && collapse_count + v.entries[i].defend_count == attack_count && attack_count
            <= total_attacks && total_attacks == v.total_attacks && rounds_since >= 0,
{
    lemma_position_unique(v, i, agent_id, step_index);
    lemma_step_counts(v, i);
    let e = v.entries[i];
    assert(e.attack_count <= u32::MAX);
    assert(e.collapse_count <= u32::MAX);
    assert((e.attack_count as u32) as nat == e.attack_count);
    assert((e.collapse_count as u32) as nat == e.collapse_count);
    assert(v.total_attacks >= 1);
}

/// Recording an attack moves the step's UCB1 collapse count by the attack's outcome: a
/// successful attack adds one collapse, a failed one leaves the collapses as they were
/// (the step counting none before it was registered), while its attack count always
/// grows by one.
pub proof fn lemma_ucb_collapse_count_after_attack(
    v: SchedulerView,
    w: SchedulerView,
    agent_id: Seq<char>,
    step_index: u32,
    success: bool,
    round: u32,
    reason: Option<Seq<char>>,
    current_round: u32,
)
    requires
        v.well_formed(),
        w.well_formed(),
        w.total_attacks == v.total_attacks + 1,
        if has_step(v.entries, agent_id, step_index) {
            let i = step_position(v.entries, agent_id, step_index);
            w.entries == v.entries.update(i, after_attack(v.entries[i], success, round, reason))
        } else {
            w.entries == v.entries.push(after_attack(fresh_stats(agent_id, step_index), success, round, reason))
        },
    ensures
        ({
            let before = if has_step(v.entries, agent_id, step_index) {
                v.entries[step_position(v.entries, agent_id, step_index)]
            } else {
                fresh_stats(agent_id, step_index)
            };
            spec_ucb_inputs(w, agent_id, step_index, current_round) matches UcbInputs::Explored {
                attack_count,
                collapse_count,
                ..
            } && attack_count == before.attack_count + 1 && collapse_count == before.collapse_count
                + (if success {
                1nat
            } else {
                0nat
            })
        }),
{
    let i = if has_step(v.entries, agent_id, step_index) {
        step_position(v.entries, agent_id, step_index)
    } else {
        v.entries.len() as int
    };
    if has_step(v.entries, agent_id, step_index) {
        assert(same_step(v.entries[i], agent_id, step_index));
    }
    assert(same_step(w.entries[i], agent_id, step_index));
    lemma_position_unique(w, i, agent_id, step_index);
    lemma_step_counts(w, i);
    let e = w.entries[i];
    assert(e.attack_count <= u32::MAX);
    assert(e.collapse_count <= u32::MAX);
    assert((e.attack_count as u32) as nat == e.attack_count);
    assert((e.collapse_count as u32) as nat == e.collapse_count);
}

/// Exactly the steps that an attack was recorded on count as attacked: recording an
/// attack on a step, in any round and with any outcome, makes it count as attacked, and
/// adds one to the attacked steps when it had not been attacked (or registered) before.
pub proof fn lemma_attack_counts_step_as_attacked(
    v: SchedulerView,
    agent_id: Seq<char>,
    step_index: u32,
    success: bool,
    round: u32,
    reason: Option<Seq<char>>,
)
    requires
        v.well_formed(),
    ensures
        has_step(v.entries, agent_id, step_index) ==> {
            let i = step_position(v.entries, agent_id, step_index);
            attacked_count(v.entries.update(i, after_attack(v.entries[i], success, round, reason)))
                == attacked_count(v.entries) + (if v.entries[i].attack_count == 0 {
                1nat
            } else {
                0nat
            })
        },
        !has_step(v.entries, agent_id, step_index) ==> attacked_count(
            v.entries.push(after_attack(fresh_stats(agent_id, step_index), success, round, reason)),
        ) == attacked_count(v.entries) + 1,
{
    if has_step(v.entries, agent_id, step_index) {
        let i = step_position(v.entries, agent_id, step_index);
        assert(same_step(v.entries[i], agent_id, step_index));
        lemma_attacked_update(v.entries, i, after_attack(v.entries[i], success, round, reason));
    } else {
        let x = after_attack(fresh_stats(agent_id, step_index), success, round, reason);
        assert(v.entries.push(x).drop_last() =~= v.entries);
    }
}

/// Replacing one entry changes the attacked count by whether each of the two was attacked.
proof fn lemma_attacked_update(entries: Seq<StepStatsView>, i: int, e: StepStatsView)
    requires
        0 <= i < entries.len(),
    ensures
        attacked_count(entries.update(i, e)) + (if entries[i].attack_count > 0 {
            1nat
        } else {
            0nat
        }) == attacked_count(entries) + (if e.attack_count > 0 {
            1nat
        } else {
            0nat
        }),
    decreases entries.len(),
{
    if i < entries.len() - 1 {
        lemma_attacked_update(entries.drop_last(), i, e);
        assert(entries.update(i, e).drop_last() =~= entries.drop_last().update(i, e));
    } else {
        assert(entries.update(i, e).drop_last() =~= entries.drop_last());
    }
}

/// The attacked count is the number of steps with a positive attack count: it is zero
/// exactly when no step was attacked, and equals the number of steps exactly when every
/// step was attacked.
pub proof fn lemma_attacked_count_extremes(entries: Seq<StepStatsView>)
    ensures
        (attacked_count(entries) == 0) <==> (forall|i: int|
            0 <= i < entries.len() ==> (#[trigger] entries[i]).attack_count == 0),
        (attacked_count(entries) == entries.len()) <==> (forall|i: int|
            0 <= i < entries.len() ==> (#[trigger] entries[i]).attack_count > 0),
    decreases entries.len(),
{
    if entries.len() > 0 {
        let d = entries.drop_last();
        lemma_attacked_count_extremes(d);
        lemma_attacked_le(d);
        assert(forall|i: int| 0 <= i < d.len() ==> d[i] == entries[i]);
        if attacked_count(entries) == 0 {
            assert forall|i: int| 0 <= i < entries.len() implies (#[trigger] entries[i]).attack_count
                == 0 by {
                if i < d.len() {
                    assert(d[i] == entries[i]);
                }
            }
        }
        if attacked_count(entries) == entries.len() {
            assert forall|i: int| 0 <= i < entries.len() implies (#[trigger] entries[i]).attack_count
                > 0 by {
                if i < d.len() {
                    assert(d[i] == entries[i]);
                }
            }
        }
    }
}

/// The candidate rule, in terms of the counts: a step is offered to an attacker exactly
/// when it belongs to another agent and it is neither collapsed without ever being
/// defended nor defended three times or more without ever collapsing.
pub proof fn lemma_candidate_rule(v: SchedulerView, attacker_id: Seq<char>, i: int)
    requires
        v.well_formed(),
        0 <= i < v.entries.len(),
    ensures
        candidates_of(v.entries, attacker_id).contains((v.entries[i].agent_id, v.entries[i].step_index))
            <==> (v.entries[i].agent_id != attacker_id && (v.entries[i].collapse_count == 0
            || v.entries[i].defend_count > 0) && (v.entries[i].defend_count < 3
            || v.entries[i].collapse_count > 0)),
{
    let c = candidates_of(v.entries, attacker_id);
    let key = (v.entries[i].agent_id, v.entries[i].step_index);
    if is_candidate(v.entries[i], attacker_id) {
        lemma_candidate_included(v.entries, attacker_id, i);
    }
    if c.contains(key) {
        let k = choose|k: int| 0 <= k < c.len() && c[k] == key;
        lemma_candidates_sound(v.entries, attacker_id, k);
        let j = choose|j: int|
            0 <= j < v.entries.len() && is_candidate(#[trigger] v.entries[j], attacker_id) && same_step(
                v.entries[j],
                c[k].0,
                c[k].1,
            );
        lemma_position_unique(v, i, key.0, key.1);
        lemma_position_unique(v, j, key.0, key.1);
    }
}

/// A step of another agent that was defended at least once, and is not defended three
/// times or more without ever collapsing, is a candidate, whatever the ratio of its
/// collapses to its defences.
pub proof fn lemma_defended_steps_are_candidates(v: SchedulerView, attacker_id: Seq<char>, i: int)
    requires
        v.well_formed(),
        0 <= i < v.entries.len(),
        v.entries[i].agent_id != attacker_id,
        v.entries[i].defend_count >= 1,
        v.entries[i].defend_count < 3 || v.entries[i].collapse_count > 0,
    ensures
        candidates_of(v.entries, attacker_id).contains((v.entries[i].agent_id, v.entries[i].step_index)),
{
    lemma_candidate_rule(v, attacker_id, i);
}

/// A step of another agent that has both collapsed and been defended is always a
/// candidate, however many collapses or defences it has.
pub proof fn lemma_contested_steps_are_candidates(v: SchedulerView, attacker_id: Seq<char>, i: int)
    requires
        v.well_formed(),
        0 <= i < v.entries.len(),
        v.entries[i].agent_id != attacker_id,
        v.entries[i].collapse_count >= 1,
        v.entries[i].defend_count >= 1,
    ensures
        candidates_of(v.entries, attacker_id).contains((v.entries[i].agent_id, v.entries[i].step_index)),
{
    lemma_candidate_rule(v, attacker_id, i);
}

} // verus!
