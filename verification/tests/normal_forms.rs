use boolean_evaluation::cnf::node_to_cnf;
use boolean_evaluation::nnf::node_to_nnf;
use boolean_evaluation::node::Node;
use boolean_evaluation::operator::Operator;
use boolean_evaluation::tree::Tree;

fn is_atom(node: &Node) -> bool {
    matches!(node, Node::Variable(_) | Node::Constant(_))
}

fn is_nnf(node: &Node) -> bool {
    match node {
        Node::Variable(_) | Node::Constant(_) => true,
        Node::UnaryExpr { op, child } => *op == Operator::Not && is_atom(child),
        Node::BinaryExpr { op, lhs, rhs } => {
            (*op == Operator::And || *op == Operator::Or) && is_nnf(lhs) && is_nnf(rhs)
        }
    }
}

fn is_clause(node: &Node) -> bool {
    match node {
        Node::Variable(_) | Node::Constant(_) => true,
        Node::UnaryExpr { op, child } => *op == Operator::Not && is_atom(child),
        Node::BinaryExpr { op, lhs, rhs } => {
            *op == Operator::Or && is_clause(lhs) && is_clause(rhs)
        }
    }
}

fn is_cnf(node: &Node) -> bool {
    match node {
        Node::BinaryExpr { op, lhs, rhs } if *op == Operator::And => is_cnf(lhs) && is_cnf(rhs),
        other => is_clause(other),
    }
}

const FORMULAS: [&str; 12] = [
    "A",
    "1!",
    "AB&!",
    "AB|!",
    "AB>",
    "AB=",
    "AB^",
    "AB=C^!",
    "AB>C>!",
    "A!!!B|!",
    "AB^C=D>",
    "AB&CD&|EF&|",
];

#[test]
fn nnf_has_only_and_or_and_negated_atoms() {
    for text in FORMULAS {
        let node = node_to_nnf(Tree::from_str(text).unwrap().root);
        assert!(is_nnf(&node), "{}", node.to_rpn());
    }
}

#[test]
fn cnf_is_a_conjunction_of_disjunctions_of_literals() {
    for text in FORMULAS {
        let node = node_to_cnf(Tree::from_str(text).unwrap().root);
        assert!(is_cnf(&node), "{}", node.to_rpn());
    }
}

#[test]
fn cnf_of_a_formula_in_cnf_is_the_formula() {
    for text in ["AB|C&", "A", "A!", "AB|CD|&E!&", "AB!|"] {
        let node = Tree::from_str(text).unwrap().root;
        assert_eq!(node_to_cnf(node).to_rpn(), text);
    }
}

#[test]
fn transforms_keep_the_letters_of_the_formula() {
    for text in FORMULAS {
        let tree = Tree::from_str(text).unwrap();
        let cnf = node_to_cnf(tree.root.clone()).to_rpn();
        for cell in &tree.variable_list {
            assert!(cnf.contains(cell.name));
        }
        for letter in cnf.chars().filter(|c| c.is_ascii_uppercase()) {
            assert!(text.contains(letter));
        }
    }
}
