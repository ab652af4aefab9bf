use ncp::ucb::UcbInputs;
use ncp::AttackScheduler;

#[test]
fn unexplored_step_is_scored_first() {
    let mut sched = AttackScheduler::new();
    sched.register_step("agent_a", 1);
    assert_eq!(sched.ucb_inputs("agent_a", 1, 0), UcbInputs::Unexplored);
    assert_eq!(sched.ucb_inputs("unknown", 7, 0), UcbInputs::Unexplored);
}

#[test]
fn coverage_counts_attacked_steps() {
    let mut sched = AttackScheduler::new();
    sched.register_chain("a", 4);
    sched.register_chain("b", 4);
    assert_eq!(sched.coverage_counts(), (0, 8));

    sched.record_attack("a", 1, false, 1, None);
    sched.record_attack("b", 2, true, 1, None);
    assert_eq!(sched.coverage_counts(), (2, 8)); // 2/8
    sched.record_attack("b", 2, true, 2, None);
    assert_eq!(sched.coverage_counts(), (2, 8));
    assert_eq!(sched.total_attacks(), 3);
}

#[test]
fn candidates_exclude_the_attacker() {
    let mut sched = AttackScheduler::new();
    sched.register_chain("attacker", 3);
    sched.register_chain("target", 3);

    let targets = sched.candidate_targets("attacker");
    assert!(targets.iter().all(|(agent, _)| agent != "attacker"));
    assert_eq!(
        targets,
        vec![("target".to_string(), 1), ("target".to_string(), 2), ("target".to_string(), 3)]
    );
}

#[test]
fn candidates_exclude_collapsed_and_fortified_steps() {
    let mut sched = AttackScheduler::new();
    sched.register_chain("t", 4);
    // Step 1: collapsed once, never defended.
    sched.record_attack("t", 1, true, 1, None);
    // Step 2: defended three times, never collapsed.
    for r in 0..3 {
        sched.record_attack("t", 2, false, r, Some("solid"));
    }
    // Step 3: collapsed and defended: still a candidate.
    sched.record_attack("t", 3, true, 1, None);
    sched.record_attack("t", 3, false, 2, None);
    // Step 4: defended twice only: still a candidate.
    sched.record_attack("t", 4, false, 1, None);
    sched.record_attack("t", 4, false, 2, None);
    let targets = sched.candidate_targets("someone");
    assert_eq!(targets, vec![("t".to_string(), 3), ("t".to_string(), 4)]);
}

#[test]
fn record_attack_registers_and_counts() {
    let mut sched = AttackScheduler::new();
    sched.record_attack("b", 5, false, 7, Some("evidence"));
    sched.record_attack("b", 5, false, 9, Some("evidence"));
    sched.record_attack("b", 5, false, 10, Some("other"));
    sched.record_attack("b", 5, true, 11, Some("ignored"));
    let s = sched.step_stats("b", 5).unwrap();
    assert_eq!(s.attack_count, 4);
    assert_eq!(s.collapse_count, 1);
    assert_eq!(s.defend_count, 3);
    assert_eq!(s.last_attack_round, 11);
    assert_eq!(s.defense_reasons, vec!["evidence".to_string(), "other".to_string()]);
    assert!(sched.step_stats("b", 6).is_none());
}

#[test]
fn register_step_keeps_existing_statistics() {
    let mut sched = AttackScheduler::new();
    sched.record_attack("a", 1, true, 3, None);
    sched.register_step("a", 1);
    sched.register_chain("a", 2);
    let s = sched.step_stats("a", 1).unwrap();
    assert_eq!(s.attack_count, 1);
    assert_eq!(sched.coverage_counts(), (1, 2));
    let fresh = sched.step_stats("a", 2).unwrap();
    assert_eq!(fresh.attack_count, 0);
    assert_eq!(fresh.last_attack_round, -1);
}

#[test]
fn ucb_inputs_of_an_attacked_step() {
    let mut sched = AttackScheduler::new();
    sched.record_attack("a", 1, true, 2, None);
    sched.record_attack("a", 1, false, 4, None);
    sched.record_attack("b", 1, false, 5, None);
    assert_eq!(
        sched.ucb_inputs("a", 1, 10),
        UcbInputs::Explored { total_attacks: 3, attack_count: 2, collapse_count: 1, rounds_since: 6 }
    );
    // A round before the last attack gives no negative gap.
    assert_eq!(
        sched.ucb_inputs("a", 1, 1),
        UcbInputs::Explored { total_attacks: 3, attack_count: 2, collapse_count: 1, rounds_since: 0 }
    );
}

#[test]
fn unattacked_steps_of_others_are_always_candidates() {
    let mut sched = AttackScheduler::new();
    sched.register_chain("x", 2);
    sched.register_chain("y", 1);
    for r in 0..5 {
        sched.record_attack("x", 1, false, r, None);
    }
    let targets = sched.candidate_targets("z");
    assert!(targets.contains(&("x".to_string(), 2)));
    assert!(targets.contains(&("y".to_string(), 1)));
    assert!(!targets.contains(&("x".to_string(), 1)));
}

#[test]
fn quick_start_offers_unexplored_steps_of_other_agents() {
    let mut sched = AttackScheduler::new();
    sched.register_chain("agent_a", 5);
    sched.register_chain("agent_b", 5);
    let targets = sched.candidate_targets("agent_a");
    assert_eq!(targets.len(), 5);
    for (i, (agent, step)) in targets.iter().enumerate() {
        assert_eq!(agent, "agent_b");
        assert_eq!(*step as usize, i + 1);
        assert_eq!(sched.ucb_inputs(agent, *step, 0), UcbInputs::Unexplored);
    }
}

#[test]
fn registering_twice_is_registering_once() {
    let mut once = AttackScheduler::new();
    once.register_chain("a", 3);
    let mut twice = AttackScheduler::new();
    twice.register_chain("a", 3);
    twice.register_chain("a", 3);
    twice.register_step("a", 2);
    assert_eq!(once.coverage_counts(), twice.coverage_counts());
    assert_eq!(once.candidate_targets("b"), twice.candidate_targets("b"));
}
