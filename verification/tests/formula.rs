use boolean_evaluation::formula::{
    conjunctive_normal_form, eval_formula, eval_set, negation_normal_form, sat,
};

#[test]
fn test_ands() {
    assert!(!eval_formula("10&"));
    assert!(eval_formula("11&"));
    assert!(!eval_formula("00&"));
}

#[test]
fn test_ors() {
    assert!(eval_formula("10|"));
    assert!(eval_formula("11|"));
    assert!(!eval_formula("00|"));
}

#[test]
fn test_xors() {
    assert!(eval_formula("10^"));
    assert!(!eval_formula("11^"));
    assert!(!eval_formula("00^"));
}

#[test]
fn test_negs() {
    assert!(eval_formula("0!"));
    assert!(!eval_formula("1!"));
}

#[test]
fn test_imply() {
    assert!(eval_formula("11>"));
    assert!(eval_formula("00>"));
    // The operand written first is the premise.
    assert!(eval_formula("01>"));
    assert!(!eval_formula("10>"));
}

#[test]
fn test_leqs() {
    assert!(eval_formula("11="));
    assert!(!eval_formula("01="));
    assert!(eval_formula("00="));
    assert!(!eval_formula("10="));
}

#[test]
fn test_examples() {
    assert!(!eval_formula("10&"));
    assert!(eval_formula("10|"));
    assert!(eval_formula("11>"));
    assert!(!eval_formula("10="));
    assert!(eval_formula("1011||="));
}

#[test]
fn test_nnf_42() {
    assert_eq!(negation_normal_form("AB&!"), "A!B!|");

    assert_eq!(negation_normal_form("AB|!"), "A!B!&");

    assert_eq!(negation_normal_form("AB>"), "A!B|");

    assert_eq!(negation_normal_form("AB="), "AB&A!B!&|");

    assert_eq!(negation_normal_form("AB|C&!"), "A!B!&C!|");
}

#[test]
fn test_cnf_42() {
    assert_eq!(conjunctive_normal_form("AB&!"), "A!B!|");

    assert_eq!(conjunctive_normal_form("AB|!"), "A!B!&");

    assert_eq!(conjunctive_normal_form("AB|C&"), "AB|C&");

    assert_eq!(conjunctive_normal_form("AB|C|D|"), "ABCD|||");

    assert_eq!(conjunctive_normal_form("AB&C&D&"), "ABCD&&&");

    assert_eq!(conjunctive_normal_form("AB&!C!|"), "A!B!C!||");

    assert_eq!(conjunctive_normal_form("AB|!C!&"), "A!B!C!&&");
}

#[test]
fn test_sat_42() {
    // TRUE
    assert!(sat("AB|"));
    assert!(sat("AB&"));

    // FALSE
    assert!(!sat("AA!&"));
    assert!(!sat("AA^"));
}

#[test]
fn test_set_evaluation_42() {
    let sets = vec![vec![0, 1, 2], vec![0, 3, 4]];
    assert_eq!(eval_set("AB&", sets), vec![0]);
    let sets = vec![vec![0, 1, 2], vec![3, 4, 5]];
    assert_eq!(eval_set("AB|", sets), vec![0, 1, 2, 3, 4, 5]);
    let sets = vec![vec![0, 1, 2]];
    assert_eq!(eval_set("A!", sets), vec![]);
}

#[test]
fn letters_count_as_false_in_eval_formula() {
    assert!(!eval_formula("A"));
    assert!(eval_formula("AB>"));
    assert!(eval_formula("AB|!"));
}

#[test]
fn eval_set_reads_every_connective_through_the_normal_form() {
    // A → B = ¬A ∪ B: within the universe {1, 2, 3, 4}, all but A ∖ B.
    assert_eq!(eval_set("AB>", vec![vec![1, 2], vec![2, 3, 4]]), vec![2, 3, 4]);
    // A ⊕ B
    assert_eq!(eval_set("AB^", vec![vec![1, 2], vec![2, 3]]), vec![3, 1]);
    // A ⇔ B, within {1, 2, 3}
    assert_eq!(eval_set("AB=", vec![vec![1, 2], vec![2, 3]]), vec![2]);
}

#[test]
fn conjunctive_normal_form_puts_the_connectives_of_a_run_at_its_end() {
    assert_eq!(conjunctive_normal_form("ABCD|||"), "ABCD|||");
    assert_eq!(conjunctive_normal_form("AB|CD||"), "ABCD|||");
    assert_eq!(conjunctive_normal_form("AB&CD&|"), "AC|AD|BC|BD|&&&");
    assert_eq!(conjunctive_normal_form("AB|C&DE|&"), "AB|CDE|&&");
    assert_eq!(conjunctive_normal_form("A"), "A");
}
