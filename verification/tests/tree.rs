use boolean_evaluation::node::Node;
use boolean_evaluation::operator::Operator;
use boolean_evaluation::parser::ParseError;
use boolean_evaluation::tree::Tree;
use boolean_evaluation::variable::Variable;

#[test]
fn test_sat_false() {
    let tree = Tree::from_str("AA^").unwrap();
    assert!(!tree.sat());
}

#[test]
fn test_sat_true() {
    let tree = Tree::from_str("AB|").unwrap();
    assert!(tree.sat());
}

#[test]
fn test_set_false() {
    let mut tree = Tree::from_str("AB&").unwrap();
    tree.assign_sets(vec![vec![1, 2], vec![3, 4]]);
    assert_eq!(tree.evaluate_sets(), vec![]);
    let mut tree = Tree::from_str("A!").unwrap();
    tree.assign_sets(vec![vec![1, 2, 3]]);
    assert_eq!(tree.evaluate_sets(), vec![]);
}

#[test]
fn test_set_true() {
    let mut tree = Tree::from_str("AB|").unwrap();
    tree.assign_sets(vec![vec![0, 1], vec![2, 3]]);
    assert_eq!(tree.evaluate_sets(), vec![0, 1, 2, 3]);
}

#[test]
fn parse_builds_the_tree_with_the_lower_operand_on_the_left() {
    let tree = Tree::from_str("AB>").unwrap();
    assert_eq!(
        tree.root,
        Node::BinaryExpr {
            op: Operator::Imply,
            lhs: Box::new(Node::Variable('A')),
            rhs: Box::new(Node::Variable('B')),
        }
    );
    let tree = Tree::from_str("10&!").unwrap();
    assert_eq!(
        tree.root,
        Node::UnaryExpr {
            op: Operator::Not,
            child: Box::new(Node::BinaryExpr {
                op: Operator::And,
                lhs: Box::new(Node::Constant(true)),
                rhs: Box::new(Node::Constant(false)),
            }),
        }
    );
}

#[test]
fn parse_gives_each_letter_one_fresh_cell_in_alphabetical_order() {
    let tree = Tree::from_str("CAB&|A^").unwrap();
    assert_eq!(
        tree.variable_list,
        vec![Variable::new('A'), Variable::new('B'), Variable::new('C')]
    );
    assert!(tree.universe.is_empty());
    let tree = Tree::from_str("10|").unwrap();
    assert!(tree.variable_list.is_empty());
}

#[test]
fn parse_errors() {
    assert_eq!(Tree::from_str("").unwrap_err(), ParseError::EmptyInput);
    assert_eq!(Tree::from_str("@").unwrap_err(), ParseError::InvalidToken);
    assert_eq!(Tree::from_str("AB&x").unwrap_err(), ParseError::InvalidToken);
    assert_eq!(Tree::from_str("A B&").unwrap_err(), ParseError::InvalidToken);
    assert_eq!(Tree::from_str("a").unwrap_err(), ParseError::InvalidToken);
    assert_eq!(Tree::from_str("(A)").unwrap_err(), ParseError::InvalidToken);
    assert_eq!(Tree::from_str("!").unwrap_err(), ParseError::InsufficientOperands);
    assert_eq!(Tree::from_str("!1").unwrap_err(), ParseError::InsufficientOperands);
    assert_eq!(Tree::from_str("A&").unwrap_err(), ParseError::InsufficientOperands);
    assert_eq!(Tree::from_str("&").unwrap_err(), ParseError::InsufficientOperands);
    assert_eq!(Tree::from_str("AB").unwrap_err(), ParseError::TrailingOperands);
    assert_eq!(Tree::from_str("AB&C").unwrap_err(), ParseError::TrailingOperands);
}

#[test]
fn the_first_token_that_cannot_be_applied_decides_the_error() {
    assert_eq!(Tree::from_str("!@").unwrap_err(), ParseError::InsufficientOperands);
    assert_eq!(Tree::from_str("@!").unwrap_err(), ParseError::InvalidToken);
    assert_eq!(Tree::from_str("AB@").unwrap_err(), ParseError::InvalidToken);
}

#[test]
fn sat_of_formulas_without_letters() {
    assert!(Tree::from_str("1").unwrap().sat());
    assert!(!Tree::from_str("0").unwrap().sat());
    assert!(Tree::from_str("10|").unwrap().sat());
    assert!(!Tree::from_str("10&").unwrap().sat());
}

#[test]
fn sat_finds_the_only_satisfying_assignment() {
    assert!(Tree::from_str("AB&C&D!&").unwrap().sat());
    assert!(!Tree::from_str("AB&A!&").unwrap().sat());
    assert!(Tree::from_str("AB=AB^|").unwrap().sat());
    assert!(!Tree::from_str("AB=AB^&").unwrap().sat());
}

#[test]
fn assign_sets_fills_cells_and_universe() {
    let mut tree = Tree::from_str("BA|").unwrap();
    tree.assign_sets(vec![vec![5, 1, 5], vec![3, 1, -2]]);
    assert_eq!(tree.variable_list[0].name, 'A');
    assert_eq!(tree.variable_list[0].set, Some(vec![5, 1, 5]));
    assert_eq!(tree.variable_list[1].name, 'B');
    assert_eq!(tree.variable_list[1].set, Some(vec![3, 1, -2]));
    assert_eq!(tree.universe, vec![-2, 1, 3, 5]);
    assert_eq!(tree.root.to_rpn(), "BA|");
}

#[test]
fn assign_sets_leaves_a_tree_without_variables_alone() {
    let mut tree = Tree::from_str("1!").unwrap();
    tree.assign_sets(vec![vec![1, 2]]);
    assert!(tree.variable_list.is_empty());
    assert!(tree.universe.is_empty());
    assert_eq!(tree.evaluate_sets(), vec![]);
}

#[test]
fn a_complement_is_resolved_in_the_universe() {
    let mut tree = Tree::from_str("AB!&!").unwrap();
    tree.root = boolean_evaluation::nnf::node_to_nnf(tree.root);
    tree.assign_sets(vec![vec![1, 2, 3], vec![2, 9]]);
    // ¬(A ∩ ¬B) = ¬A ∪ B = ¬(A ∖ B) = ¬{1, 3}, within {1, 2, 3, 9}
    assert_eq!(tree.evaluate_sets(), vec![2, 9]);
}

#[test]
fn a_text_parses_into_a_tree() {
    let tree: Tree = "AB&C|".parse().unwrap();
    assert_eq!(tree.root.to_rpn(), "AB&C|");
    assert_eq!("".parse::<Tree>().unwrap_err(), ParseError::EmptyInput);
    assert_eq!("AB".parse::<Tree>().unwrap_err(), ParseError::TrailingOperands);
}
