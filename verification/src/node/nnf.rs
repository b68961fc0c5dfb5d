use vstd::prelude::*;
use crate::node::Node;
use crate::operator::Operator;

verus! {

impl Node {
    /// For a binary formula, its negation with the negation moved one level
    /// down:
    /// `¬(a ∧ b) = ¬a ∨ ¬b`, `¬(a ∨ b) = ¬a ∧ ¬b`, `¬(a → b) = a ∧ ¬b`,
    /// `¬(a ⇔ b) = (¬a ∧ b) ∨ (a ∧ ¬b)`, `¬(a ⊕ b) = (a ∧ b) ∨ (¬a ∧ ¬b)`.
    /// Any other formula is returned as it is.
    pub open spec fn negation_step(self) -> Node {
        match self {
            Node::BinaryExpr { op, lhs, rhs } => match op {
                Operator::And => Node::disjunction(Node::negation(*lhs), Node::negation(*rhs)),
                Operator::Or => Node::conjunction(Node::negation(*lhs), Node::negation(*rhs)),
                Operator::Imply => Node::conjunction(*lhs, Node::negation(*rhs)),
                Operator::Xnor => Node::disjunction(
                    Node::conjunction(Node::negation(*lhs), *rhs),
                    Node::conjunction(*lhs, Node::negation(*rhs)),
                ),
                Operator::Xor => Node::disjunction(
                    Node::conjunction(*lhs, *rhs),
                    Node::conjunction(Node::negation(*lhs), Node::negation(*rhs)),
                ),
                Operator::Not => self,
            },
            _ => self,
        }
    }

    /// The formula without the pairs of negations at its top: under `k`
    /// leading negations, what is left is the rest of the formula, negated
    /// once if `k` is odd and not at all if `k` is even.
    pub open spec fn without_double_negation(self) -> Node
        decreases self,
    {
        match self {
            Node::UnaryExpr { op, child } => match *child {
                Node::UnaryExpr { op: _, child: inner } => inner.without_double_negation(),
                _ => self,
            },
            _ => self,
        }
    }

    /// Moving a negation one level down negates the formula.
    pub proof fn lemma_negation_step_truth(self, env: spec_fn(char) -> bool)
        requires
            self matches Node::BinaryExpr { op, .. } && op.is_binary(),
        ensures
            self.negation_step().spec_eval(env) == !self.spec_eval(env),
    {
        reveal_with_fuel(Node::spec_eval, 4);
    }

    /// Removing pairs of negations keeps the truth value.
    pub proof fn lemma_without_double_negation_truth(self, env: spec_fn(char) -> bool)
        ensures
            self.without_double_negation().spec_eval(env) == self.spec_eval(env),
        decreases self,
    {
        reveal_with_fuel(Node::spec_eval, 3);
        match self {
            Node::UnaryExpr { op, child } => match *child {
                Node::UnaryExpr { op: _, child: inner } => {
                    inner.lemma_without_double_negation_truth(env);
                },
                _ => {},
            },
            _ => {},
        }
    }
}

/// Negates a binary formula by moving the negation one level down (De
/// Morgan's laws and their counterparts for `Imply`, `Xnor` and `Xor`).
/// A formula that is not binary is returned unchanged.
pub fn not_binary_expr_to_nnf(node: Node) -> (r: Node)
    requires
        node matches Node::BinaryExpr { op, .. } ==> op.is_binary(),
    ensures
        r == node.negation_step(),
        node is BinaryExpr ==> forall|env: spec_fn(char) -> bool|
            #[trigger] r.spec_eval(env) == !node.spec_eval(env),
{
    proof {
        if node is BinaryExpr {
            assert forall|env: spec_fn(char) -> bool|
                #[trigger] node.negation_step().spec_eval(env) == !node.spec_eval(env) by {
                node.lemma_negation_step_truth(env);
            }
        }
    }
    match node {
        Node::BinaryExpr { op, lhs, rhs } => match op {
            Operator::Imply => *lhs & (*rhs).not(),
            Operator::Xnor => {
                let a = *lhs;
                let b = *rhs;
                (a.clone().not() & b.clone()) | (a & b.not())
            },
            Operator::And => (*lhs).not() | (*rhs).not(),
            Operator::Or => (*lhs).not() & (*rhs).not(),
            _ => {
                let a = *lhs;
                let b = *rhs;
                (a.clone() & b.clone()) | (a.not() & b.not())
            },
        },
        other => other,
    }
}

/// Removes the pairs of negations at the top of a formula, one pair at a
/// time: an odd run of negations leaves one, an even run leaves none.
pub fn not_unary_expr_to_nnf(node: Node) -> (r: Node)
    ensures
        r == node.without_double_negation(),
        forall|env: spec_fn(char) -> bool| #[trigger] r.spec_eval(env) == node.spec_eval(env),
    decreases node,
{
    proof {
        assert forall|env: spec_fn(char) -> bool| #[trigger]
            node.without_double_negation().spec_eval(env) == node.spec_eval(env) by {
            node.lemma_without_double_negation_truth(env);
        }
    }
    match node {
        Node::UnaryExpr { op, child } => match *child {
            Node::UnaryExpr { op: _, child: inner } => not_unary_expr_to_nnf(*inner),
            other => Node::UnaryExpr { op, child: Box::new(other) },
        },
        other => other,
    }
}

} // verus!
