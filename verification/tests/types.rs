use ncp::StepAddress;

#[test]
fn step_address_renders_agent_version_and_step() {
    let a = StepAddress { agent_id: "agent_a".to_string(), version: 2, step_index: 3 };
    assert_eq!(a.to_string(), "agent_a.v2.Step3");
}

#[test]
fn step_address_renders_multi_digit_numbers() {
    let a = StepAddress { agent_id: "x".to_string(), version: 1020, step_index: 4294967295 };
    assert_eq!(a.to_string(), "x.v1020.Step4294967295");
    let z = StepAddress { agent_id: String::new(), version: 0, step_index: 10 };
    assert_eq!(z.to_string(), ".v0.Step10");
}

#[test]
fn step_address_equality_compares_all_fields() {
    let a = StepAddress { agent_id: "a".to_string(), version: 1, step_index: 2 };
    let b = StepAddress { agent_id: "a".to_string(), version: 1, step_index: 2 };
    let c = StepAddress { agent_id: "b".to_string(), version: 1, step_index: 2 };
    let d = StepAddress { agent_id: "a".to_string(), version: 2, step_index: 2 };
    assert!(a == b);
    assert!(a != c);
    assert!(a != d);
}
