use boolean_evaluation::operator::Operator;
use boolean_evaluation::operator::Operator::{And, Imply, Not, Or, Xnor, Xor};
use boolean_evaluation::set::IntSet;

#[test]
fn test_eval_and() {
    assert!(And.eval_binary(true, true));
    assert!(!And.eval_binary(true, false));
    assert!(!And.eval_binary(false, true));
    assert!(!And.eval_binary(false, false));
}

#[test]
fn test_eval_or() {
    assert!(Or.eval_binary(true, true));
    assert!(Or.eval_binary(true, false));
    assert!(Or.eval_binary(false, true));
    assert!(!Or.eval_binary(false, false));
}

#[test]
fn test_eval_xor() {
    assert!(!Xor.eval_binary(true, true));
    assert!(Xor.eval_binary(true, false));
    assert!(Xor.eval_binary(false, true));
    assert!(!Xor.eval_binary(false, false));
}

#[test]
fn test_eval_imply() {
    assert!(Imply.eval_binary(true, true));
    assert!(!Imply.eval_binary(true, false));
    assert!(Imply.eval_binary(false, true));
    assert!(Imply.eval_binary(false, false));
}

#[test]
fn test_eval_xnor() {
    assert!(Xnor.eval_binary(true, true));
    assert!(!Xnor.eval_binary(true, false));
    assert!(!Xnor.eval_binary(false, true));
    assert!(Xnor.eval_binary(false, false));
}

#[test]
fn test_eval_unary() {
    assert!(!Not.eval_unary(true));
    assert!(Not.eval_unary(false));
}

#[test]
fn operator_test_eval_and() {
    assert_eq!(
        And.eval_binary_sets(IntSet::from(vec![1, 2, 3]), IntSet::from(vec![2, 3, 4])),
        IntSet::from(vec![2, 3])
    );
    assert_eq!(
        And.eval_binary_sets(IntSet::from(vec![1, 2, 3]), IntSet::from(vec![4, 5, 6])),
        IntSet::from(vec![])
    );
    // A ∩ ¬B = A ∖ B
    assert_eq!(
        And.eval_binary_sets(
            IntSet::from(vec![1, 2, 3]),
            IntSet::from(vec![4, 5, 6]).complement()
        ),
        IntSet::from(vec![1, 2, 3])
    );
    // ¬A ∩ B = B ∖ A
    assert_eq!(
        And.eval_binary_sets(
            IntSet::from(vec![1, 2, 3]).complement(),
            IntSet::from(vec![4, 5, 6])
        ),
        IntSet::from(vec![4, 5, 6])
    );
    assert_eq!(
        And.eval_binary_sets(
            IntSet::from(vec![1, 2, 3]).complement(),
            IntSet::from(vec![4, 5, 6]).complement()
        ),
        IntSet::from(vec![1, 2, 3, 4, 5, 6]).complement()
    );
}

#[test]
fn operator_test_eval_or() {
    assert_eq!(
        Or.eval_binary_sets(IntSet::from(vec![1, 2, 3]), IntSet::from(vec![2, 3, 4])),
        IntSet::from(vec![1, 2, 3, 4])
    );
    assert_eq!(
        Or.eval_binary_sets(IntSet::from(vec![1, 2, 3]), IntSet::from(vec![4, 5, 6])),
        IntSet::from(vec![1, 2, 3, 4, 5, 6])
    );
    assert_eq!(
        Or.eval_binary_sets(
            IntSet::from(vec![1, 2, 3]),
            IntSet::from(vec![4, 5, 6]).complement()
        ),
        IntSet::from(vec![4, 5, 6]).complement()
    );
    assert_eq!(
        Or.eval_binary_sets(
            IntSet::from(vec![1, 2, 3]).complement(),
            IntSet::from(vec![4, 5, 6])
        ),
        IntSet::from(vec![1, 2, 3]).complement()
    );
    assert_eq!(
        Or.eval_binary_sets(
            IntSet::from(vec![1, 2, 3]).complement(),
            IntSet::from(vec![4, 5, 6]).complement()
        ),
        IntSet::from(vec![]).complement()
    );
}

#[test]
fn eval_unary_sets_flips_the_flag() {
    let set = Not.eval_unary_sets(IntSet::from(vec![7, 8]));
    assert_eq!(set.values, vec![7, 8]);
    assert!(set.is_complement);
    let back = Not.eval_unary_sets(set);
    assert_eq!(back, IntSet::from(vec![7, 8]));
}

#[test]
fn symbols_and_operators_correspond() {
    let all = [(Not, '!'), (And, '&'), (Or, '|'), (Xor, '^'), (Imply, '>'), (Xnor, '=')];
    for (op, symbol) in all {
        assert_eq!(op.symbol(), symbol);
        assert_eq!(Operator::from_symbol(symbol), Some(op));
    }
    assert_eq!(Operator::from_symbol('A'), None);
    assert_eq!(Operator::from_symbol('0'), None);
    assert_eq!(Operator::from_symbol('+'), None);
}
