use fsm_extractor::block::{build_function_block, Assignment, CaseElement, FunctionBlockData, IfStatement};
use fsm_extractor::block::FunctionBlock;
use fsm_extractor::cond::Condition;
use fsm_extractor::signatures::PathSignature;
use fsm_extractor::paths::PathFinder;
use fsm_extractor::runtime::RuntimeVars;
use fsm_extractor::signatures::SignatureGenerator;
use fsm_extractor::state::State;
use fsm_extractor::transition::Transition;
use fsm_extractor::validator::FsmValidator;

fn create_test_fsm() -> FunctionBlock {
    let mut fb = FunctionBlock::new("TestFB".to_string(), "state".to_string());
    fb.add_state(State::new("10".to_string()));
    fb.add_state(State::new("20".to_string()));
    fb.add_state(State::new("30".to_string()));
    fb.add_transition(Transition::new("10".to_string(), "20".to_string(), "sensor = low".to_string()));
    fb.add_transition(Transition::new("20".to_string(), "30".to_string(), "sensor = high".to_string()));
    fb
}

fn create_cyclic_fsm() -> FunctionBlock {
    let mut fb = FunctionBlock::new("CyclicFB".to_string(), "state".to_string());
    fb.add_state(State::new("10".to_string()));
    fb.add_state(State::new("20".to_string()));
    fb.add_state(State::new("30".to_string()));
    fb.add_transition(Transition::new("10".to_string(), "20".to_string(), "sensor = low".to_string()));
    fb.add_transition(Transition::new("20".to_string(), "30".to_string(), "sensor = high".to_string()));
    fb.add_transition(Transition::new("30".to_string(), "10".to_string(), "reset = true".to_string()));
    fb
}

fn create_multi_path_fsm() -> FunctionBlock {
    let mut fb = FunctionBlock::new("MultiPathFB".to_string(), "state".to_string());
    fb.add_state(State::new("10".to_string()));
    fb.add_state(State::new("20".to_string()));
    fb.add_state(State::new("30".to_string()));
    fb.add_transition(Transition::new("10".to_string(), "20".to_string(), "sensor = low".to_string()));
    fb.add_transition(Transition::new("10".to_string(), "20".to_string(), "button = pressed".to_string()));
    fb.add_transition(Transition::new("20".to_string(), "30".to_string(), "timer > 100".to_string()));
    fb
}

#[test]
fn test_multiple_path_signatures() {
    let fsm = create_multi_path_fsm();
    let table = SignatureGenerator::generate(&fsm);
    let sig_20 = table.get_signature("20").unwrap();
    assert_eq!(sig_20.path_signatures.len(), 2);
}

#[test]
fn test_runtime_verification() {
    let fsm = create_multi_path_fsm();
    let table = SignatureGenerator::generate(&fsm);

    let mut runtime_vars_a = RuntimeVars::new();
    runtime_vars_a.insert("sensor".to_string(), "low".to_string());
    assert!(table.verify_state("20", &runtime_vars_a));

    let mut runtime_vars_b = RuntimeVars::new();
    runtime_vars_b.insert("button".to_string(), "pressed".to_string());
    assert!(table.verify_state("20", &runtime_vars_b));

    let runtime_vars_c = RuntimeVars::new();
    assert!(!table.verify_state("20", &runtime_vars_c));
}

#[test]
fn test_fsm_with_or_condition() {
    let mut fb = FunctionBlock::new("OrTestFB".to_string(), "state".to_string());
    fb.add_state(State::new("10".to_string()));
    fb.add_state(State::new("20".to_string()));
    fb.add_transition(Transition::new("10".to_string(), "20".to_string(), "sensor = low OR button = pressed".to_string()));

    let table = SignatureGenerator::generate(&fb);
    let sig_20 = table.get_signature("20").unwrap();
    assert_eq!(sig_20.path_signatures.len(), 2);
}

#[test]
fn test_linear_chain_signature() {
    // the signature of the chain's last state is one conjunction of
    // both guards, from exactly one path
    let fsm = create_test_fsm();
    let table = SignatureGenerator::generate(&fsm);
    let sig_30 = table.get_signature("30").unwrap();
    assert_eq!(sig_30.paths_count, 1);
    assert_eq!(sig_30.path_signatures.len(), 1);
    assert_eq!(sig_30.path_signatures[0].conditions.len(), 2);
    assert_eq!(sig_30.format_conditions(), "sensor = high AND sensor = low");
}

#[test]
fn test_initial_state_matches_everything() {
    let fsm = create_test_fsm();
    let table = SignatureGenerator::generate(&fsm);
    let sig_10 = table.get_signature("10").unwrap();
    assert_eq!(sig_10.format_conditions(), "[initial]");
    let empty = RuntimeVars::new();
    assert!(table.verify_state("10", &empty));
    assert!(!table.verify_state("99", &empty));
}

#[test]
fn test_runtime_mismatch() {
    let fsm = create_multi_path_fsm();
    let table = SignatureGenerator::generate(&fsm);
    let mut vars = RuntimeVars::new();
    vars.insert("sensor".to_string(), "high".to_string());
    assert!(!table.verify_state("20", &vars));
}

#[test]
fn test_disjunction_formatting() {
    let fsm = create_multi_path_fsm();
    let table = SignatureGenerator::generate(&fsm);
    let sig_20 = table.get_signature("20").unwrap();
    assert_eq!(sig_20.format_conditions(), "(sensor = low) OR (button = pressed)");
}

#[test]
fn test_numeric_comparison() {
    let fsm = create_multi_path_fsm();
    let table = SignatureGenerator::generate(&fsm);
    // state 30 needs one of the 10->20 guards plus timer > 100
    let mut vars = RuntimeVars::new();
    vars.insert("sensor".to_string(), "low".to_string());
    vars.insert("timer".to_string(), "150".to_string());
    assert!(table.verify_state("30", &vars));
    let mut vars = RuntimeVars::new();
    vars.insert("sensor".to_string(), "low".to_string());
    vars.insert("timer".to_string(), "50".to_string());
    assert!(!table.verify_state("30", &vars));
    let mut vars = RuntimeVars::new();
    vars.insert("sensor".to_string(), "low".to_string());
    vars.insert("timer".to_string(), "not a number".to_string());
    assert!(!table.verify_state("30", &vars));
}

#[test]
fn test_decimal_evaluation() {
    let le = Condition::new("t".to_string(), "<=".to_string(), "3.50".to_string());
    assert!(PathSignature::evaluate_condition(&le, "3.5"));
    assert!(PathSignature::evaluate_condition(&le, "3.49"));
    assert!(!PathSignature::evaluate_condition(&le, "3.51"));
    let lt = Condition::new("t".to_string(), "<".to_string(), "1".to_string());
    assert!(PathSignature::evaluate_condition(&lt, "-2"));
    assert!(PathSignature::evaluate_condition(&lt, "0.999"));
    assert!(!PathSignature::evaluate_condition(&lt, "01"));
    let ge = Condition::new("t".to_string(), ">=".to_string(), "007".to_string());
    assert!(PathSignature::evaluate_condition(&ge, "7.0"));
    assert!(!PathSignature::evaluate_condition(&ge, "6.9999"));
}

#[test]
fn test_cyclic_fsm_paths_are_acyclic() {
    let fsm = create_cyclic_fsm();
    let records = PathFinder::find_all_paths(&fsm);
    assert!(!records.is_empty());
    for rec in &records {
        for a in 0..rec.path.len() {
            for b in (a + 1)..rec.path.len() {
                assert_ne!(rec.path[a].state_id, rec.path[b].state_id);
            }
        }
    }
    // the fallback start is state 10; every state is still reached
    let table = SignatureGenerator::generate(&fsm);
    assert_eq!(table.state_count(), 3);
}

#[test]
fn test_merge_equivalent_paths() {
    // two textually identical disjuncts collapse to one signature
    let mut fb = FunctionBlock::new("MergeFB".to_string(), "state".to_string());
    fb.add_state(State::new("10".to_string()));
    fb.add_state(State::new("20".to_string()));
    fb.add_transition(Transition::new("10".to_string(), "20".to_string(), "sensor = low OR sensor = low".to_string()));
    let table = SignatureGenerator::generate(&fb);
    let sig_20 = table.get_signature("20").unwrap();
    assert_eq!(sig_20.path_signatures.len(), 1);
    assert_eq!(sig_20.paths_count, 1);
}

#[test]
fn test_generate_is_deterministic() {
    let fsm = create_multi_path_fsm();
    let t1 = SignatureGenerator::generate(&fsm);
    let t2 = SignatureGenerator::generate(&fsm);
    assert_eq!(t1.state_count(), t2.state_count());
    let ids1 = t1.signature_ids();
    let ids2 = t2.signature_ids();
    assert_eq!(ids1, ids2);
    for id in &ids1 {
        let s1 = t1.get_signature(id).unwrap();
        let s2 = t2.get_signature(id).unwrap();
        assert_eq!(s1.format_conditions(), s2.format_conditions());
        assert_eq!(s1.paths_count, s2.paths_count);
    }
}

#[test]
fn test_unreachable_states() {
    // state 40 hangs off no walk from the start set
    let mut fb = FunctionBlock::new("IslandFB".to_string(), "state".to_string());
    fb.add_state(State::new("10".to_string()));
    fb.add_state(State::new("20".to_string()));
    fb.add_state(State::new("40".to_string()));
    fb.add_state(State::new("50".to_string()));
    fb.add_transition(Transition::new("10".to_string(), "20".to_string(), "a = 1".to_string()));
    fb.add_transition(Transition::new("40".to_string(), "50".to_string(), "b = 2".to_string()));
    // 40 is itself initial (no incoming transitions), so only nothing
    // is unreachable here
    assert_eq!(FsmValidator::find_unreachable_states(&fb), Vec::<String>::new());

    let mut cyc = FunctionBlock::new("LoopFB".to_string(), "state".to_string());
    cyc.add_state(State::new("100".to_string()));
    cyc.add_state(State::new("200".to_string()));
    cyc.add_state(State::new("300".to_string()));
    cyc.add_transition(Transition::new("100".to_string(), "200".to_string(), "x = 1".to_string()));
    cyc.add_transition(Transition::new("200".to_string(), "100".to_string(), "x = 2".to_string()));
    cyc.add_transition(Transition::new("300".to_string(), "300".to_string(), "x = 3".to_string()));
    // no state is initial; the walk starts at 100 and never sees 300
    assert_eq!(FsmValidator::find_unreachable_states(&cyc), vec!["300".to_string()]);
}

#[test]
fn test_validator() {
    let fsm = create_test_fsm();
    assert!(FsmValidator::validate_references(&fsm).is_ok());
    let dead = FsmValidator::find_dead_states(&fsm);
    assert_eq!(dead.len(), 1);
    assert_eq!(dead[0], "30");

    let mut broken = FunctionBlock::new("BrokenFB".to_string(), "state".to_string());
    broken.add_state(State::new("10".to_string()));
    broken.add_transition(Transition::new("10".to_string(), "99".to_string(), "x = 1".to_string()));
    assert_eq!(FsmValidator::validate_references(&broken), Err("99".to_string()));
}

#[test]
fn test_block_counts_and_lookup() {
    let fsm = create_test_fsm();
    assert_eq!(fsm.state_count(), 3);
    assert_eq!(fsm.transition_count(), 2);
    assert!(fsm.get_state("20").is_some());
    assert!(fsm.get_state("40").is_none());
    assert_eq!(fsm.state_ids(), vec!["10".to_string(), "20".to_string(), "30".to_string()]);
}

#[test]
fn test_build_function_block() {
    let data = FunctionBlockData {
        name: "Conveyor".to_string(),
        case_variable: "step".to_string(),
        case_elements: vec![
            CaseElement {
                state_id: "10".to_string(),
                if_statements: vec![IfStatement {
                    condition: "sensor = low".to_string(),
                    assignments: vec![
                        Assignment { variable: "other".to_string(), value: "5".to_string() },
                        Assignment { variable: "step".to_string(), value: "20".to_string() },
                    ],
                }],
            },
            CaseElement {
                state_id: "20".to_string(),
                if_statements: vec![IfStatement {
                    condition: "".to_string(),
                    assignments: vec![Assignment {
                        variable: "step".to_string(),
                        value: "30".to_string(),
                    }],
                }],
            },
        ],
    };
    let fb = build_function_block(&data);
    assert_eq!(fb.name, "Conveyor");
    assert_eq!(fb.case_variable, "step");
    // state 30 is created because a transition targets it
    assert_eq!(fb.state_count(), 3);
    assert_eq!(fb.transition_count(), 2);
    assert_eq!(fb.transitions[0].condition, "sensor = low");
    // the empty guard becomes the sentinel
    assert_eq!(fb.transitions[1].condition, "No Check");
    assert_eq!(fb.transitions[1].id, "20_to_30");
}
