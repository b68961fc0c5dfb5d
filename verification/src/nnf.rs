use vstd::prelude::*;
use vstd::pervasive::unreached;
use crate::node::nnf::not_binary_expr_to_nnf;
use crate::node::Node;
use crate::operator::Operator;

verus! {

impl Node {
    /// A variable or a constant.
    pub open spec fn is_atom(self) -> bool {
        self is Variable || self is Constant
    }

    /// An atom or the negation of one.
    pub open spec fn is_literal(self) -> bool {
        ||| self.is_atom()
        ||| self matches Node::UnaryExpr { op, child } && op is Not && child.is_atom()
    }

    /// Negation normal form: the only connectives are `And`, `Or` and `Not`,
    /// and every `Not` stands directly above an atom.
    pub open spec fn is_nnf(self) -> bool
        decreases self,
    {
        match self {
            Node::Variable(_) => true,
            Node::Constant(_) => true,
            Node::UnaryExpr { op, child } => op is Not && child.is_atom(),
            Node::BinaryExpr { op, lhs, rhs } => (op is And || op is Or) && lhs.is_nnf()
                && rhs.is_nnf(),
        }
    }

    /// The negation normal form of the formula.
    ///
    /// `And` and `Or` keep their place over the normal forms of their
    /// operands; `a → b` becomes `¬a ∨ b`, `a ⇔ b` becomes
    /// `(a ∧ b) ∨ (¬a ∧ ¬b)` and `a ⊕ b` becomes `(¬a ∧ b) ∨ (a ∧ ¬b)`, each
    /// normalised in turn; a negation is pushed towards the atoms by
    /// `negated_nnf`.
    pub open spec fn nnf(self) -> Node
        decreases self,
    {
        match self {
            Node::Variable(_) => self,
            Node::Constant(_) => self,
            Node::UnaryExpr { op, child } => child.negated_nnf(),
            Node::BinaryExpr { op, lhs, rhs } => match op {
                Operator::And => Node::conjunction(lhs.nnf(), rhs.nnf()),
                Operator::Or => Node::disjunction(lhs.nnf(), rhs.nnf()),
                Operator::Imply => Node::disjunction(lhs.negated_nnf(), rhs.nnf()),
                Operator::Xnor => Node::disjunction(
                    Node::conjunction(lhs.nnf(), rhs.nnf()),
                    Node::conjunction(lhs.negated_nnf(), rhs.negated_nnf()),
                ),
                Operator::Xor => Node::disjunction(
                    Node::conjunction(lhs.negated_nnf(), rhs.nnf()),
                    Node::conjunction(lhs.nnf(), rhs.negated_nnf()),
                ),
                Operator::Not => self,
            },
        }
    }

    /// The negation normal form of the negation of the formula.
    ///
    /// A negated atom stays; a double negation falls away; over a binary
    /// connective the negation moves one level down, as `negation_step`
    /// says, and the result is normalised in turn.
    pub open spec fn negated_nnf(self) -> Node
        decreases self,
    {
        match self {
            Node::Variable(_) => Node::negation(self),
            Node::Constant(_) => Node::negation(self),
            Node::UnaryExpr { op, child } => child.nnf(),
            Node::BinaryExpr { op, lhs, rhs } => match op {
                Operator::And => Node::disjunction(lhs.negated_nnf(), rhs.negated_nnf()),
                Operator::Or => Node::conjunction(lhs.negated_nnf(), rhs.negated_nnf()),
                Operator::Imply => Node::conjunction(lhs.nnf(), rhs.negated_nnf()),
                Operator::Xnor => Node::disjunction(
                    Node::conjunction(lhs.negated_nnf(), rhs.nnf()),
                    Node::conjunction(lhs.nnf(), rhs.negated_nnf()),
                ),
                Operator::Xor => Node::disjunction(
                    Node::conjunction(lhs.nnf(), rhs.nnf()),
                    Node::conjunction(lhs.negated_nnf(), rhs.negated_nnf()),
                ),
                Operator::Not => Node::negation(self),
            },
        }
    }

    /// For `a → b`, `a ⇔ b` and `a ⊕ b`, the same formula written with `And`,
    /// `Or` and `Not`: `¬a ∨ b`, `(a ∧ b) ∨ (¬a ∧ ¬b)` and
    /// `(¬a ∧ b) ∨ (a ∧ ¬b)`. Any other formula is returned as it is.
    pub open spec fn expansion(self) -> Node {
        match self {
            Node::BinaryExpr { op, lhs, rhs } => match op {
                Operator::Imply => Node::disjunction(Node::negation(*lhs), *rhs),
                Operator::Xnor => Node::disjunction(
                    Node::conjunction(*lhs, *rhs),
                    Node::conjunction(Node::negation(*lhs), Node::negation(*rhs)),
                ),
                Operator::Xor => Node::disjunction(
                    Node::conjunction(Node::negation(*lhs), *rhs),
                    Node::conjunction(*lhs, Node::negation(*rhs)),
                ),
                _ => self,
            },
            _ => self,
        }
    }

    /// A bound on the work that normalising the formula takes: each rewrite
    /// of the transform yields a formula of smaller weight.
    pub open spec fn nnf_weight(self) -> nat
        decreases self,
    {
        match self {
            Node::Variable(_) => 1,
            Node::Constant(_) => 1,
            Node::UnaryExpr { op, child } => 3 * child.nnf_weight(),
            Node::BinaryExpr { op, lhs, rhs } => match op {
                Operator::Imply => 3 * lhs.nnf_weight() + rhs.nnf_weight() + 2,
                Operator::Xnor => 4 * lhs.nnf_weight() + 4 * rhs.nnf_weight() + 4,
                Operator::Xor => 4 * lhs.nnf_weight() + 4 * rhs.nnf_weight() + 4,
                _ => lhs.nnf_weight() + rhs.nnf_weight() + 1,
            },
        }
    }

    /// Every formula has a positive weight.
    pub proof fn lemma_nnf_weight_positive(self)
        ensures
            self.nnf_weight() >= 1,
        decreases self,
    {
        match self {
            Node::UnaryExpr { op, child } => {
                child.lemma_nnf_weight_positive();
            },
            _ => {},
        }
    }

    /// Expanding `Imply`, `Xnor` or `Xor` lowers the weight and keeps the
    /// normal form.
    pub proof fn lemma_expansion(self)
        requires
            self matches Node::BinaryExpr { op, .. } && (op is Imply || op is Xnor || op is Xor),
        ensures
            self.expansion().nnf_weight() < self.nnf_weight(),
            self.expansion().nnf() == self.nnf(),
            self.well_formed() ==> self.expansion().well_formed(),
    {
        reveal_with_fuel(Node::nnf_weight, 4);
        reveal_with_fuel(Node::nnf, 4);
        reveal_with_fuel(Node::well_formed, 4);
    }

    /// Moving a negation one level down lowers the weight and keeps the
    /// normal form.
    pub proof fn lemma_negation_step(self)
        requires
            self matches Node::BinaryExpr { op, .. } && op.is_binary(),
        ensures
            self.negation_step().nnf_weight() < Node::negation(self).nnf_weight(),
            self.negation_step().nnf() == Node::negation(self).nnf(),
            self.well_formed() ==> self.negation_step().well_formed(),
    {
        reveal_with_fuel(Node::nnf_weight, 4);
        reveal_with_fuel(Node::nnf, 4);
        reveal_with_fuel(Node::well_formed, 4);
    }

    /// The normal form of a well-formed formula, and that of its negation,
    /// are in negation normal form.
    pub proof fn lemma_nnf_is_nnf(self)
        requires
            self.well_formed(),
        ensures
            self.nnf().is_nnf(),
            self.negated_nnf().is_nnf(),
        decreases self,
    {
        reveal_with_fuel(Node::is_nnf, 3);
        match self {
            Node::UnaryExpr { op, child } => {
                child.lemma_nnf_is_nnf();
            },
            Node::BinaryExpr { op, lhs, rhs } => {
                lhs.lemma_nnf_is_nnf();
                rhs.lemma_nnf_is_nnf();
            },
            _ => {},
        }
    }

    /// The normal form has the truth value of the formula under every
    /// assignment, and that of its negation has the opposite one.
    pub proof fn lemma_nnf_truth(self, env: spec_fn(char) -> bool)
        requires
            self.well_formed(),
        ensures
            self.nnf().spec_eval(env) == self.spec_eval(env),
            self.negated_nnf().spec_eval(env) == !self.spec_eval(env),
        decreases self,
    {
        reveal_with_fuel(Node::spec_eval, 3);
        match self {
            Node::UnaryExpr { op, child } => {
                child.lemma_nnf_truth(env);
            },
            Node::BinaryExpr { op, lhs, rhs } => {
                lhs.lemma_nnf_truth(env);
                rhs.lemma_nnf_truth(env);
            },
            _ => {},
        }
    }

    /// The normal form holds the letters of the formula, and no others.
    pub proof fn lemma_nnf_letters(self)
        requires
            self.well_formed(),
        ensures
            self.nnf().letters() == self.letters(),
            self.negated_nnf().letters() == self.letters(),
        decreases self,
    {
        reveal_with_fuel(Node::letters, 3);
        match self {
            Node::UnaryExpr { op, child } => {
                child.lemma_nnf_letters();
            },
            Node::BinaryExpr { op, lhs, rhs } => {
                lhs.lemma_nnf_letters();
                rhs.lemma_nnf_letters();
            },
            _ => {},
        }
    }

    /// A formula in negation normal form is well formed and is its own
    /// normal form.
    pub proof fn lemma_nnf_fixed(self)
        requires
            self.is_nnf(),
        ensures
            self.well_formed(),
            self.nnf() == self,
        decreases self,
    {
        reveal_with_fuel(Node::well_formed, 2);
        reveal_with_fuel(Node::nnf, 2);
        match self {
            Node::BinaryExpr { op, lhs, rhs } => {
                lhs.lemma_nnf_fixed();
                rhs.lemma_nnf_fixed();
            },
            _ => {},
        }
    }

    /// Normalising twice gives what normalising once gives: the same
    /// formula, and so the same truth value under every assignment.
    pub proof fn lemma_nnf_idempotent(self)
        requires
            self.well_formed(),
        ensures
            self.nnf().nnf() == self.nnf(),
            forall|env: spec_fn(char) -> bool| #[trigger]
                self.nnf().nnf().spec_eval(env) == self.nnf().spec_eval(env),
    {
        self.lemma_nnf_is_nnf();
        self.nnf().lemma_nnf_fixed();
    }

    /// What the transform promises of its result, from `r == self.nnf()`.
    proof fn lemma_nnf_result(self)
        requires
            self.well_formed(),
        ensures
            self.nnf().is_nnf(),
            self.nnf().well_formed(),
            self.nnf().letters() == self.letters(),
            forall|env: spec_fn(char) -> bool| #[trigger]
                self.nnf().spec_eval(env) == self.spec_eval(env),
    {
        self.lemma_nnf_is_nnf();
        self.nnf().lemma_nnf_fixed();
        self.lemma_nnf_letters();
        assert forall|env: spec_fn(char) -> bool| #[trigger]
            self.nnf().spec_eval(env) == self.spec_eval(env) by {
            self.lemma_nnf_truth(env);
        }
    }
}

/// Rewrites a formula into negation normal form: `Imply`, `Xnor` and `Xor`
/// are written out with `And`, `Or` and `Not`, and every negation is pushed
/// down to an atom. The result has the truth value of the formula under
/// every assignment.
pub fn node_to_nnf(node: Node) -> (r: Node)
    requires
        node.well_formed(),
    ensures
        r == node.nnf(),
        r.is_nnf(),
        r.well_formed(),
        r.letters() == node.letters(),
        forall|env: spec_fn(char) -> bool| #[trigger] r.spec_eval(env) == node.spec_eval(env),
    decreases node.nnf_weight(), 1int,
{
    proof {
        node.lemma_nnf_result();
    }
    match node {
        Node::UnaryExpr { op, child } => unary_expr_to_nnf(Node::UnaryExpr { op, child }),
        Node::BinaryExpr { op, lhs, rhs } => match op {
            Operator::And => node_to_nnf(*lhs) & node_to_nnf(*rhs),
            Operator::Or => node_to_nnf(*lhs) | node_to_nnf(*rhs),
            _ => binary_expr_to_nnf(Node::BinaryExpr { op, lhs, rhs }),
        },
        atom => atom,
    }
}

/// The negation normal form under its longer name.
pub fn node_to_negation_normal_form(node: Node) -> (r: Node)
    requires
        node.well_formed(),
    ensures
        r == node.nnf(),
        r.is_nnf(),
        r.well_formed(),
        r.letters() == node.letters(),
        forall|env: spec_fn(char) -> bool| #[trigger] r.spec_eval(env) == node.spec_eval(env),
{
    node_to_nnf(node)
}

/// Normalises `a → b`, `a ⇔ b` or `a ⊕ b`: writes the connective out with
/// `And`, `Or` and `Not` and normalises the result. A formula that is not
/// binary is returned unchanged.
pub fn binary_expr_to_nnf(node: Node) -> (r: Node)
    requires
        node.well_formed(),
        node matches Node::BinaryExpr { op, .. } ==> op is Imply || op is Xnor || op is Xor,
    ensures
        node is BinaryExpr ==> {
            &&& r == node.nnf()
            &&& r.is_nnf()
            &&& r.well_formed()
            &&& r.letters() == node.letters()
            &&& forall|env: spec_fn(char) -> bool| #[trigger]
                r.spec_eval(env) == node.spec_eval(env)
        },
        !(node is BinaryExpr) ==> r == node,
    decreases node.nnf_weight(), 0int,
{
    proof {
        node.lemma_nnf_result();
        if node is BinaryExpr {
            node.lemma_expansion();
        }
    }
    match node {
        Node::BinaryExpr { op, lhs, rhs } => {
            let a = *lhs;
            let b = *rhs;
            node_to_nnf(
                match op {
                    Operator::Imply => a.not() | b,
                    Operator::Xnor => (a.clone() & b.clone()) | (a.not() & b.not()),
                    _ => (a.clone().not() & b.clone()) | (a & b.not()),
                },
            )
        },
        other => other,
    }
}

/// Normalises a negation: a negated atom stays, a double negation falls
/// away (one pair at a time), and over a binary connective the negation
/// moves one level down before the result is normalised.
pub fn unary_expr_to_nnf(node: Node) -> (r: Node)
    requires
        node.well_formed(),
        node is UnaryExpr,
    ensures
        r == node.nnf(),
        r.is_nnf(),
        r.well_formed(),
        r.letters() == node.letters(),
        forall|env: spec_fn(char) -> bool| #[trigger] r.spec_eval(env) == node.spec_eval(env),
    decreases node.nnf_weight(), 0int,
{
    proof {
        node.lemma_nnf_result();
        reveal_with_fuel(Node::nnf_weight, 3);
        reveal_with_fuel(Node::nnf, 3);
        reveal_with_fuel(Node::well_formed, 3);
    }
    match node {
        Node::UnaryExpr { op, child } => match *child {
            Node::UnaryExpr { op: _, child: inner } => {
                proof {
                    inner.lemma_nnf_weight_positive();
                }
                node_to_nnf(*inner)
            },
            Node::BinaryExpr { op: inner_op, lhs, rhs } => {
                let inner = Node::BinaryExpr { op: inner_op, lhs, rhs };
                proof {
                    inner.lemma_negation_step();
                }
                node_to_nnf(not_binary_expr_to_nnf(inner))
            },
            atom => Node::UnaryExpr { op: Operator::Not, child: Box::new(atom) },
        },
        _ => unreached(),
    }
}

} // verus!
