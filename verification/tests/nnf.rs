use boolean_evaluation::nnf::{
    binary_expr_to_nnf, node_to_negation_normal_form, node_to_nnf, unary_expr_to_nnf,
};
use boolean_evaluation::node::nnf::{not_binary_expr_to_nnf, not_unary_expr_to_nnf};
use boolean_evaluation::tree::Tree;
use boolean_evaluation::truth_table::TruthTable;

#[test]
fn test_nnf_not_and() {
    let node = Tree::from_str("AB&!").unwrap();
    let result = Tree::from_str("A!B!|").unwrap();
    assert_eq!(node_to_nnf(node.root.clone()), result.root);
    assert_eq!(TruthTable::from(node), TruthTable::from(result));
}

#[test]
fn test_nnf_imply() {
    let node = Tree::from_str("AB>").unwrap();
    let result = Tree::from_str("A!B|").unwrap();
    assert_eq!(node_to_nnf(node.root.clone()), result.root);
    assert_eq!(TruthTable::from(node), TruthTable::from(result));
}

#[test]
fn test_nnf_xnor() {
    let node = Tree::from_str("AB=").unwrap();
    let result = Tree::from_str("AB&A!B!&|").unwrap();
    assert_eq!(node_to_nnf(node.root.clone()), result.root);
    assert_eq!(TruthTable::from(node), TruthTable::from(result));
}

#[test]
fn test_nnf_xor() {
    let node = Tree::from_str("AB^").unwrap();
    let result = Tree::from_str("A!B&AB!&|").unwrap();
    assert_eq!(node_to_nnf(node.root.clone()), result.root);
    assert_eq!(TruthTable::from(node), TruthTable::from(result));
}

#[test]
fn test_nnf_complex() {
    let node = Tree::from_str("AB|C&!").unwrap();
    let result = Tree::from_str("A!B!&C!|").unwrap();
    assert_eq!(node_to_nnf(node.root.clone()), result.root);
    assert_eq!(TruthTable::from(node), TruthTable::from(result));
}

#[test]
fn test_nnf_not_or() {
    let node = Tree::from_str("AB|!").unwrap();
    let result = Tree::from_str("A!B!&").unwrap();
    assert_eq!(node_to_nnf(node.root.clone()), result.root);
    assert_eq!(TruthTable::from(node), TruthTable::from(result));
}

#[test]
fn test_not_unary_odd() {
    let three = Tree::from_str("1!!!").unwrap();
    assert_eq!(unary_expr_to_nnf(three.root), Tree::from_str("1!").unwrap().root);
    let five = Tree::from_str("1!!!!!").unwrap();
    assert_eq!(unary_expr_to_nnf(five.root), Tree::from_str("1!").unwrap().root);
}

#[test]
fn test_not_unary_even() {
    let two = Tree::from_str("1!!").unwrap();
    assert_eq!(unary_expr_to_nnf(two.root), Tree::from_str("1").unwrap().root);
    let four = Tree::from_str("1!!!!").unwrap();
    assert_eq!(unary_expr_to_nnf(four.root), Tree::from_str("1").unwrap().root);
}

#[test]
fn nnf_test_nnf_not_and() {
    let node = Tree::from_str("AB&!").unwrap().root;
    let result = Tree::from_str("A!B!|").unwrap().root;
    assert_eq!(node_to_negation_normal_form(node), result);
}

#[test]
fn nnf_test_nnf_imply() {
    let node = Tree::from_str("AB>").unwrap().root;
    let result = Tree::from_str("A!B|").unwrap().root;
    assert_eq!(node_to_negation_normal_form(node), result);
}

#[test]
fn nnf_test_nnf_xnor() {
    let node = Tree::from_str("AB=").unwrap().root;
    let result = Tree::from_str("AB&A!B!&|").unwrap().root;
    assert_eq!(node_to_negation_normal_form(node), result);
}

#[test]
fn nnf_test_nnf_complex() {
    let node = Tree::from_str("AB|C&!").unwrap().root;
    let result = Tree::from_str("A!B!&C!|").unwrap().root;
    assert_eq!(node_to_negation_normal_form(node), result);
}

#[test]
fn nnf_test_nnf_not_or() {
    let node = Tree::from_str("AB|!").unwrap().root;
    let result = Tree::from_str("A!B!&").unwrap().root;
    assert_eq!(node_to_negation_normal_form(node), result);
}

#[test]
fn nnf_test_not_unary_odd() {
    let three = Tree::from_str("1!!!").unwrap().root;
    assert_eq!(not_unary_expr_to_nnf(three.clone()), Tree::from_str("1!").unwrap().root);
    assert_eq!(node_to_negation_normal_form(three), Tree::from_str("1!").unwrap().root);
    let five = Tree::from_str("1!!!!!").unwrap().root;
    assert_eq!(not_unary_expr_to_nnf(five.clone()), Tree::from_str("1!").unwrap().root);
    assert_eq!(node_to_negation_normal_form(five), Tree::from_str("1!").unwrap().root);
}

#[test]
fn nnf_test_not_unary_even() {
    let two = Tree::from_str("1!!").unwrap().root;
    assert_eq!(not_unary_expr_to_nnf(two.clone()), Tree::from_str("1").unwrap().root);
    assert_eq!(node_to_negation_normal_form(two), Tree::from_str("1").unwrap().root);
    let four = Tree::from_str("1!!!!").unwrap().root;
    assert_eq!(not_unary_expr_to_nnf(four.clone()), Tree::from_str("1").unwrap().root);
    assert_eq!(node_to_negation_normal_form(four), Tree::from_str("1").unwrap().root);
}

#[test]
fn test_not_binary_expr() {
    let and = Tree::from_str("11&").unwrap().root;
    assert_eq!(not_binary_expr_to_nnf(and), Tree::from_str("1!1!|").unwrap().root);
}

#[test]
fn negation_moves_one_level_down_for_every_connective() {
    let cases = [
        ("AB&", "A!B!|"),
        ("AB|", "A!B!&"),
        ("AB>", "AB!&"),
        ("AB=", "A!B&AB!&|"),
        ("AB^", "AB&A!B!&|"),
    ];
    for (input, expected) in cases {
        let node = Tree::from_str(input).unwrap().root;
        assert_eq!(not_binary_expr_to_nnf(node).to_rpn(), expected);
    }
    let atom = Tree::from_str("A").unwrap().root;
    assert_eq!(not_binary_expr_to_nnf(atom.clone()), atom);
}

#[test]
fn double_negations_fall_away_above_any_formula() {
    let node = Tree::from_str("AB&!!!").unwrap().root;
    assert_eq!(not_unary_expr_to_nnf(node).to_rpn(), "AB&!");
    let node = Tree::from_str("AB&!!").unwrap().root;
    assert_eq!(not_unary_expr_to_nnf(node).to_rpn(), "AB&");
    let node = Tree::from_str("AB&").unwrap().root;
    assert_eq!(not_unary_expr_to_nnf(node).to_rpn(), "AB&");
}

#[test]
fn nnf_of_negated_connectives() {
    let cases = [
        ("AB>!", "AB!&"),
        ("AB=!", "A!B&AB!&|"),
        ("AB^!", "AB&A!B!&|"),
        ("AB&!!", "AB&"),
        ("AB>C>", "AB!&C|"),
        ("A", "A"),
        ("0!", "0!"),
    ];
    for (input, expected) in cases {
        let node = Tree::from_str(input).unwrap().root;
        assert_eq!(node_to_nnf(node).to_rpn(), expected);
    }
}

#[test]
fn binary_expr_to_nnf_expands_the_three_connectives() {
    let cases = [("AB>", "A!B|"), ("AB=", "AB&A!B!&|"), ("AB^", "A!B&AB!&|"), ("A!B>", "AB|")];
    for (input, expected) in cases {
        let node = Tree::from_str(input).unwrap().root;
        assert_eq!(binary_expr_to_nnf(node).to_rpn(), expected);
    }
    let negation = Tree::from_str("A!!").unwrap().root;
    assert_eq!(binary_expr_to_nnf(negation.clone()), negation);
}

#[test]
fn nnf_is_unchanged_by_a_second_pass() {
    for text in ["AB=C^!", "AB>C>!", "A!!!B|!", "AB^C=D>"] {
        let once = node_to_nnf(Tree::from_str(text).unwrap().root);
        let twice = node_to_nnf(once.clone());
        assert_eq!(once, twice);
    }
}

#[test]
fn nnf_keeps_the_truth_table() {
    for text in ["AB=C^!", "AB>C>!", "A!!!B|!", "AB^C=D>"] {
        let tree = Tree::from_str(text).unwrap();
        let mut normal = tree.clone();
        normal.root = node_to_nnf(normal.root);
        assert_eq!(TruthTable::from(tree), TruthTable::from(normal));
    }
}
