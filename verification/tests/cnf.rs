use boolean_evaluation::cnf::{
    distribute_both, distribute_to_left, distribute_to_right, group_right, node_to_cnf,
};
use boolean_evaluation::tree::Tree;

#[test]
fn basic_node_to_cnf() {
    let node = Tree::from_str("ABC|DE&&|").unwrap();
    let result = Tree::from_str("ABC||AD|AE|&&").unwrap();
    assert_eq!(node_to_cnf(node.root), result.root);
}

#[test]
fn basic_distribute_both() {
    let node = Tree::from_str("AB&CD&|").unwrap();
    let result = Tree::from_str("AC|AD|&BC|BD|&&").unwrap();
    assert_eq!(distribute_both(node.root), result.root);
}

#[test]
fn basic_distribute_left() {
    let node = Tree::from_str("AB&C|").unwrap();
    let result = Tree::from_str("AC|BC|&").unwrap();
    assert_eq!(distribute_to_left(node.root), result.root);
}

#[test]
fn basic_distribute_right() {
    let node = Tree::from_str("CAB&|").unwrap();
    let result = Tree::from_str("CA|CB|&").unwrap();
    assert_eq!(distribute_to_right(node.root), result.root);
}

#[test]
fn cnf_distributes_all_four_pairings_of_nested_conjunctions() {
    // ((A & B) & C) | (D & E): every pairing is distributed in turn.
    let node = Tree::from_str("AB&C&DE&|").unwrap();
    let cnf = node_to_cnf(node.root);
    assert_eq!(cnf.to_rpn(), "AD|BD|&AE|BE|&&CD|CE|&&");
}

#[test]
fn cnf_looks_at_the_operands_once_they_are_normalised() {
    // (A | (B & C)) | D: the left operand becomes a conjunction only once it
    // has been normalised.
    let node = Tree::from_str("ABC&|D|").unwrap();
    assert_eq!(node_to_cnf(node.root).to_rpn(), "AB|D|AC|D|&");
}

#[test]
fn cnf_is_unchanged_by_a_second_pass() {
    for text in ["AB&CD&|", "AB=C^", "AB>C>!", "ABC&|D|", "A!!B&!"] {
        let once = node_to_cnf(Tree::from_str(text).unwrap().root);
        let twice = node_to_cnf(once.clone());
        assert_eq!(once, twice);
    }
}

#[test]
fn cnf_keeps_the_truth_table() {
    for text in ["AB&CD&|", "AB=C^", "AB>C>!", "ABC&|D|", "AB^C=D>"] {
        let tree = Tree::from_str(text).unwrap();
        let cnf = node_to_cnf(tree.root.clone());
        let mut variables = tree.variable_list.clone();
        for mask in 0u32..(1 << variables.len()) {
            for (j, v) in variables.iter_mut().enumerate() {
                v.value = mask & (1 << j) != 0;
            }
            assert_eq!(cnf.eval_ref(&variables), tree.root.eval_ref(&variables));
        }
    }
}

#[test]
fn node_to_cnf_keeps_the_grouping_of_a_run() {
    for text in ["AB|C|D|", "AB&C&D&", "ABCD|||"] {
        let node = Tree::from_str(text).unwrap().root;
        assert_eq!(node_to_cnf(node).to_rpn(), text);
    }
}

#[test]
fn group_right_moves_runs_to_the_right() {
    let cases = [
        ("AB|C|D|", "ABCD|||"),
        ("AB&C&D&", "ABCD&&&"),
        ("AB|CD|&EF|&", "AB|CD|EF|&&"),
        ("AB|C|DE|F|&", "ABC||DEF||&"),
        ("AB^C^", "AB^C^"),
        ("AB>C>", "AB>C>"),
        ("AB|C|!", "AB|C|!"),
        ("A!", "A!"),
    ];
    for (input, expected) in cases {
        let node = Tree::from_str(input).unwrap().root;
        assert_eq!(group_right(node).to_rpn(), expected);
    }
}

#[test]
fn group_right_keeps_the_truth_table() {
    for text in ["AB|C|D|", "AB&C&D&", "AB|CD|&EF|&", "AB&C|D&E|"] {
        let tree = Tree::from_str(text).unwrap();
        let grouped = group_right(tree.root.clone());
        let mut variables = tree.variable_list.clone();
        for mask in 0u32..(1 << variables.len()) {
            for (j, v) in variables.iter_mut().enumerate() {
                v.value = mask & (1 << j) != 0;
            }
            assert_eq!(grouped.eval_ref(&variables), tree.root.eval_ref(&variables));
        }
    }
}
