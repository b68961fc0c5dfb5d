use boolean_evaluation::node::Node;
use boolean_evaluation::operator::Operator;
use boolean_evaluation::set::IntSet;
use boolean_evaluation::tree::Tree;
use boolean_evaluation::variable::Variable;

#[test]
fn test_to_rpn() {
    let teststr = "AB&";
    let node = Tree::from_str(teststr).unwrap();
    assert_eq!(node.root.to_rpn(), teststr);
}

#[test]
fn test_to_rpn_2() {
    let teststr = "AB&C|";
    let node = Tree::from_str(teststr).unwrap();
    assert_eq!(node.root.to_rpn(), teststr);
}

#[test]
fn test_to_rpn_3() {
    let teststr = "AB&C|D^";
    let node = Tree::from_str(teststr).unwrap();
    assert_eq!(node.root.to_rpn(), teststr);
}

#[test]
fn test_to_rpn_4() {
    let teststr = "AB&C|D^!";
    let node = Tree::from_str(teststr).unwrap();
    assert_eq!(node.root.to_rpn(), teststr);
}

#[test]
fn rpn_round_trip_over_every_token() {
    for text in ["A", "0", "1", "Z!", "AB>", "AB=", "01^A|Z&!", "ABCDEFG||||||"] {
        let tree = Tree::from_str(text).unwrap();
        assert_eq!(tree.root.to_rpn(), text);
    }
}

#[test]
fn evaluation_reads_the_shared_cell_of_each_letter() {
    let mut tree = Tree::from_str("AB&").unwrap();
    tree.variable_list[0].value = true;
    tree.variable_list[1].value = false;
    assert!(!tree.root.eval_ref(&tree.variable_list));
    tree.variable_list[1].value = true;
    assert!(tree.root.eval_ref(&tree.variable_list));
    // Both occurrences of A follow the one cell.
    let mut tree = Tree::from_str("AA!|").unwrap();
    assert!(tree.root.eval_ref(&tree.variable_list));
    tree.variable_list[0].value = true;
    assert!(tree.root.clone().eval(&tree.variable_list));
}

#[test]
fn a_letter_without_a_cell_counts_as_false() {
    let node = Node::Variable('Q');
    assert!(!node.eval_ref(&Vec::new()));
    let cells = vec![Variable { name: 'Q', value: true, set: None }];
    assert!(node.eval_ref(&cells));
}

#[test]
fn operators_build_formulas() {
    let a = Node::Variable('A');
    let b = Node::Constant(true);
    assert_eq!((a.clone() | b.clone()).to_rpn(), "A1|");
    assert_eq!((a.clone() & b.clone()).to_rpn(), "A1&");
    assert_eq!((a.clone() ^ b.clone()).to_rpn(), "A1^");
    assert_eq!(a.clone().not().to_rpn(), "A!");
    assert_eq!(
        a.not(),
        Node::UnaryExpr { op: Operator::Not, child: Box::new(Node::Variable('A')) }
    );
}

#[test]
fn compute_sets_reads_constants_as_one_and_zero() {
    let tree = Tree::from_str("10|").unwrap();
    let set = tree.root.compute_sets(&tree.variable_list);
    assert_eq!(set, IntSet::from(vec![1, 0]));
    let tree = Tree::from_str("1!").unwrap();
    let set = tree.root.compute_sets(&tree.variable_list);
    assert_eq!(set, IntSet::from(vec![1]).complement());
}

#[test]
fn set_reading_agrees_with_truth_values() {
    // x belongs to the set of the formula exactly when the formula is true
    // with each letter true when x belongs to its set.
    let mut tree = Tree::from_str("AB&C!|").unwrap();
    let sets = vec![vec![0, 1, 2], vec![1, 2, 3], vec![2, 4]];
    tree.assign_sets(sets.clone());
    let result = tree.root.compute_sets(&tree.variable_list);
    for x in -1..7 {
        let mut cells = tree.variable_list.clone();
        for (j, cell) in cells.iter_mut().enumerate() {
            cell.value = sets[j].contains(&x);
        }
        let member = result.values.contains(&x) != result.is_complement;
        assert_eq!(member, tree.root.eval_ref(&cells));
    }
}

#[test]
fn infix_text_of_formulas_and_operators() {
    let tree = Tree::from_str("AB&C|!").unwrap();
    assert_eq!(tree.root.to_string(), "¬A ∧ B ∨ C");
    let tree = Tree::from_str("10>A=B^").unwrap();
    assert_eq!(tree.root.to_string(), "1 → 0 ⇔ A ⊕ B");
    let signs: Vec<String> = [
        Operator::Not,
        Operator::And,
        Operator::Or,
        Operator::Xor,
        Operator::Imply,
        Operator::Xnor,
    ]
    .iter()
    .map(|op| op.to_string())
    .collect();
    assert_eq!(signs, ["¬", "∧", "∨", "⊕", "→", "⇔"]);
}
