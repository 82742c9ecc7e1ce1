use fsm_extractor::cond::Condition;
use fsm_extractor::expr::BooleanExpr;
use fsm_extractor::signatures::SignatureGenerator;

#[test]
fn test_parse_simple_and() {
    let dnf = SignatureGenerator::parse_transition_condition("A = 1 AND B = 2");
    assert_eq!(dnf.len(), 1);
    assert_eq!(dnf[0].len(), 2);
}

#[test]
fn test_parse_simple_or() {
    let dnf = SignatureGenerator::parse_transition_condition("A = 1 OR B = 2");
    assert_eq!(dnf.len(), 2);
}

#[test]
fn test_parse_complex_and_or() {
    let dnf = SignatureGenerator::parse_transition_condition("(A = 1 OR B = 2) AND C = 3");
    assert_eq!(dnf.len(), 2);
}

#[test]
fn test_distribution_contents() {
    // (A = 1 OR B = 2) AND C = 3 distributes to {A=1, C=3} and {B=2, C=3}
    let dnf = SignatureGenerator::parse_transition_condition("(A = 1 OR B = 2) AND C = 3");
    assert_eq!(dnf.len(), 2);
    assert_eq!(dnf[0].len(), 2);
    assert_eq!(dnf[0][0].to_string(), "A = 1");
    assert_eq!(dnf[0][1].to_string(), "C = 3");
    assert_eq!(dnf[1].len(), 2);
    assert_eq!(dnf[1][0].to_string(), "B = 2");
    assert_eq!(dnf[1][1].to_string(), "C = 3");
}

#[test]
fn test_negation_de_morgan() {
    // NOT (A = 1 AND B < 2) normalises to {A <> 1} and {B >= 2}
    let dnf = SignatureGenerator::parse_transition_condition("NOT (A = 1 AND B < 2)");
    assert_eq!(dnf.len(), 2);
    assert_eq!(dnf[0].len(), 1);
    assert_eq!(dnf[0][0].to_string(), "A <> 1");
    assert_eq!(dnf[1].len(), 1);
    assert_eq!(dnf[1][0].to_string(), "B >= 2");
}

#[test]
fn test_negated_atomic() {
    let dnf = SignatureGenerator::parse_transition_condition("NOT a = 1");
    assert_eq!(dnf.len(), 1);
    assert_eq!(dnf[0].len(), 1);
    assert_eq!(dnf[0][0].to_string(), "a <> 1");
}

#[test]
fn test_negated_disjunction() {
    // NOT (a = 1 OR b = 2) becomes one conjunction of both negations
    let dnf = SignatureGenerator::parse_transition_condition("NOT (a = 1 OR b = 2)");
    assert_eq!(dnf.len(), 1);
    assert_eq!(dnf[0].len(), 2);
    assert_eq!(dnf[0][0].to_string(), "a <> 1");
    assert_eq!(dnf[0][1].to_string(), "b <> 2");
}

#[test]
fn test_empty_and_sentinel_guards() {
    let dnf = SignatureGenerator::parse_transition_condition("");
    assert_eq!(dnf.len(), 1);
    assert_eq!(dnf[0].len(), 0);
    let dnf = SignatureGenerator::parse_transition_condition("No Check");
    assert_eq!(dnf.len(), 1);
    assert_eq!(dnf[0].len(), 0);
}

#[test]
fn test_keyword_needs_word_boundary() {
    // ORIGIN and AND_FLAG are identifiers, not operators
    let dnf = SignatureGenerator::parse_transition_condition("ORIGIN = 5");
    assert_eq!(dnf.len(), 1);
    assert_eq!(dnf[0].len(), 1);
    assert_eq!(dnf[0][0].variable, "ORIGIN");
    let dnf = SignatureGenerator::parse_transition_condition("AND_FLAG = 1");
    assert_eq!(dnf.len(), 1);
    assert_eq!(dnf[0][0].variable, "AND_FLAG");
}

#[test]
fn test_parenthesised_operand() {
    // balanced parentheses inside an atomic stay part of its text
    let dnf = SignatureGenerator::parse_transition_condition("(x + 1) = 2");
    assert_eq!(dnf.len(), 1);
    assert_eq!(dnf[0].len(), 1);
    assert_eq!(dnf[0][0].variable, "(x + 1)");
    assert_eq!(dnf[0][0].operator, "=");
    assert_eq!(dnf[0][0].value, "2");
}

#[test]
fn test_longest_operator_match() {
    let c = SignatureGenerator::parse_single_condition("a <= 3").unwrap();
    assert_eq!(c.operator, "<=");
    assert_eq!(c.variable, "a");
    assert_eq!(c.value, "3");
    let c = SignatureGenerator::parse_single_condition("a <> b").unwrap();
    assert_eq!(c.operator, "<>");
    let c = SignatureGenerator::parse_single_condition("no operator here");
    assert!(c.is_none());
}

#[test]
fn test_fallback_simple_parser() {
    // a trailing AND makes the expression parser fail; the fallback
    // splits on " AND " and keeps what parses
    let dnf = SignatureGenerator::parse_transition_condition("A = 1 AND");
    assert_eq!(dnf.len(), 1);
    assert_eq!(dnf[0].len(), 1);
    assert_eq!(dnf[0][0].variable, "A");
    assert_eq!(dnf[0][0].value, "1 AND");
}

#[test]
fn test_conjunction_dedup_and_sort() {
    let dnf = SignatureGenerator::parse_transition_condition("b = 2 AND a = 1 AND b = 2");
    assert_eq!(dnf.len(), 1);
    assert_eq!(dnf[0].len(), 2);
    assert_eq!(dnf[0][0].to_string(), "a = 1");
    assert_eq!(dnf[0][1].to_string(), "b = 2");
}

#[test]
fn test_operator_negation_involution() {
    for op in ["=", "<>", "<", "<=", ">", ">="] {
        let c = Condition::new("x".to_string(), op.to_string(), "1".to_string());
        let once = BooleanExpr::negate_condition(&c);
        let twice = BooleanExpr::negate_condition(&once);
        assert_eq!(twice.operator, op);
        assert_eq!(twice.variable, "x");
        assert_eq!(twice.value, "1");
    }
}

#[test]
fn test_negation_table() {
    let pairs = [("=", "<>"), ("<>", "="), ("<", ">="), ("<=", ">"), (">", "<="), (">=", "<")];
    for (op, negated) in pairs {
        let c = Condition::new("v".to_string(), op.to_string(), "7".to_string());
        assert_eq!(BooleanExpr::negate_condition(&c).operator, negated);
    }
}

#[test]
fn test_condition_to_string() {
    let c = Condition::new("H".to_string(), "=".to_string(), "Input".to_string());
    assert_eq!(c.to_string(), "H = Input");
}

#[test]
fn test_format_round_trip() {
    // parsing the canonical text of a conjunction gives it back
    let dnf = SignatureGenerator::parse_transition_condition("b = 2 AND a = 1");
    assert_eq!(dnf.len(), 1);
    let sig = fsm_extractor::signatures::PathSignature::new(
        dnf.into_iter().next().unwrap(),
        0,
    );
    let text = sig.format_conditions();
    assert_eq!(text, "a = 1 AND b = 2");
    let reparsed = SignatureGenerator::parse_simple_condition(&text);
    assert_eq!(reparsed.len(), 1);
    assert_eq!(reparsed[0].len(), 2);
    assert_eq!(reparsed[0][0].to_string(), "a = 1");
    assert_eq!(reparsed[0][1].to_string(), "b = 2");
}
