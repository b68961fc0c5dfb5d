use vstd::prelude::*;
use vstd::pervasive::unreached;
use crate::operator::Operator;
use crate::set::{IntSet, SetModel};
use crate::variable::{assignment, bound_set, find_variable, membership, Variable};

pub mod nnf;

verus! {

/// A propositional formula as an expression tree.
///
/// A `Variable` holds the letter that names its cell in the symbol table of
/// the tree it belongs to; the cell itself is looked up when the formula is
/// evaluated, so all occurrences of a letter share one binding.
#[derive(Debug, PartialEq, Eq)]
pub enum Node {
    Variable(char),
    Constant(bool),
    UnaryExpr { op: Operator, child: Box<Node> },
    BinaryExpr { op: Operator, lhs: Box<Node>, rhs: Box<Node> },
}

impl Clone for Node {
    fn clone(&self) -> (r: Self)
        ensures
            r == *self,
        decreases *self,
    {
        match self {
            Node::Variable(name) => Node::Variable(*name),
            Node::Constant(value) => Node::Constant(*value),
            Node::UnaryExpr { op, child } => Node::UnaryExpr {
                op: *op,
                child: Box::new((&**child).clone()),
            },
            Node::BinaryExpr { op, lhs, rhs } => Node::BinaryExpr {
                op: *op,
                lhs: Box::new((&**lhs).clone()),
                rhs: Box::new((&**rhs).clone()),
            },
        }
    }
}

impl Node {
    /// The negation of `child`.
    pub open spec fn negation(child: Node) -> Node {
        Node::UnaryExpr { op: Operator::Not, child: Box::new(child) }
    }

    /// The formula `lhs op rhs`.
    pub open spec fn binary(op: Operator, lhs: Node, rhs: Node) -> Node {
        Node::BinaryExpr { op, lhs: Box::new(lhs), rhs: Box::new(rhs) }
    }

    /// The conjunction of `lhs` and `rhs`.
    pub open spec fn conjunction(lhs: Node, rhs: Node) -> Node {
        Node::binary(Operator::And, lhs, rhs)
    }

    /// The disjunction of `lhs` and `rhs`.
    pub open spec fn disjunction(lhs: Node, rhs: Node) -> Node {
        Node::binary(Operator::Or, lhs, rhs)
    }

    /// Every unary node is a negation, and no binary node is one.
    pub open spec fn well_formed(self) -> bool
        decreases self,
    {
        match self {
            Node::Variable(_) => true,
            Node::Constant(_) => true,
            Node::UnaryExpr { op, child } => op is Not && child.well_formed(),
            Node::BinaryExpr { op, lhs, rhs } => op.is_binary() && lhs.well_formed()
                && rhs.well_formed(),
        }
    }

    /// The number of nodes of the tree.
    pub open spec fn size(self) -> nat
        decreases self,
    {
        match self {
            Node::Variable(_) => 1,
            Node::Constant(_) => 1,
            Node::UnaryExpr { op, child } => 1 + child.size(),
            Node::BinaryExpr { op, lhs, rhs } => 1 + lhs.size() + rhs.size(),
        }
    }

    /// The letters that occur in the formula.
    pub open spec fn letters(self) -> Set<char>
        decreases self,
    {
        match self {
            Node::Variable(name) => set![name],
            Node::Constant(_) => Set::empty(),
            Node::UnaryExpr { op, child } => child.letters(),
            Node::BinaryExpr { op, lhs, rhs } => lhs.letters().union(rhs.letters()),
        }
    }

    /// The truth value of the formula under the assignment `env`.
    pub open spec fn spec_eval(self, env: spec_fn(char) -> bool) -> bool
        decreases self,
    {
        match self {
            Node::Variable(name) => env(name),
            Node::Constant(value) => value,
            Node::UnaryExpr { op, child } => !child.spec_eval(env),
            Node::BinaryExpr { op, lhs, rhs } => op.apply(lhs.spec_eval(env), rhs.spec_eval(env)),
        }
    }

    /// Whether some assignment makes the formula true.
    pub open spec fn satisfiable(self) -> bool {
        exists|env: spec_fn(char) -> bool| self.spec_eval(env)
    }

    /// The formula in postfix notation: operands first, then the operator.
    pub open spec fn rpn(self) -> Seq<char>
        decreases self,
    {
        match self {
            Node::Variable(name) => seq![name],
            Node::Constant(value) => seq![if value { '1' } else { '0' }],
            Node::UnaryExpr { op, child } => child.rpn().push(op.token()),
            Node::BinaryExpr { op, lhs, rhs } => (lhs.rpn() + rhs.rpn()).push(op.token()),
        }
    }

    /// The formula in infix notation, without brackets: a negation is its
    /// sign before the operand, a binary formula the two operands with the
    /// sign between them, set off by spaces.
    pub open spec fn infix(self) -> Seq<char>
        decreases self,
    {
        match self {
            Node::Variable(name) => seq![name],
            Node::Constant(value) => seq![if value { '1' } else { '0' }],
            Node::UnaryExpr { op, child } => seq![op.sign()] + child.infix(),
            Node::BinaryExpr { op, lhs, rhs } => lhs.infix() + seq![' ', op.sign(), ' ']
                + rhs.infix(),
        }
    }

    /// Whether the formula can be read over sets: its connectives are `And`,
    /// `Or` and `Not` only, and every letter in it has a set in `variables`.
    pub open spec fn set_evaluable(self, variables: Seq<Variable>) -> bool
        decreases self,
    {
        match self {
            Node::Variable(name) => bound_set(variables, name) is Some,
            Node::Constant(_) => true,
            Node::UnaryExpr { op, child } => op is Not && child.set_evaluable(variables),
            Node::BinaryExpr { op, lhs, rhs } => (op is And || op is Or) && lhs.set_evaluable(
                variables,
            ) && rhs.set_evaluable(variables),
        }
    }

    /// The set that the formula denotes when each letter stands for the set
    /// that `variables` assigns to it, in its stored form: a letter is its
    /// set, a constant is `{1}` or `{0}`, `And` intersects, `Or` unites and
    /// `Not` complements.
    pub open spec fn spec_sets(self, variables: Seq<Variable>) -> SetModel
        recommends
            self.set_evaluable(variables),
        decreases self,
    {
        match self {
            Node::Variable(name) => SetModel {
                values: bound_set(variables, name)->0,
                is_complement: false,
            },
            Node::Constant(value) => SetModel {
                values: seq![if value { 1i32 } else { 0i32 }],
                is_complement: false,
            },
            Node::UnaryExpr { op, child } => child.spec_sets(variables).complement(),
            Node::BinaryExpr { op, lhs, rhs } => if op is And {
                lhs.spec_sets(variables).intersection(rhs.spec_sets(variables))
            } else {
                lhs.spec_sets(variables).union(rhs.spec_sets(variables))
            },
        }
    }

    /// The truth value of a formula depends only on what the assignment
    /// gives to the letters of the formula.
    pub proof fn lemma_eval_agree(self, env: spec_fn(char) -> bool, other: spec_fn(char) -> bool)
        requires
            forall|name: char| #[trigger]
                self.letters().contains(name) ==> env(name) == other(name),
        ensures
            self.spec_eval(env) == self.spec_eval(other),
        decreases self,
    {
        match self {
            Node::Variable(name) => {
                assert(self.letters().contains(name));
            },
            Node::Constant(_) => {},
            Node::UnaryExpr { op, child } => {
                assert(self.letters() == child.letters());
                child.lemma_eval_agree(env, other);
            },
            Node::BinaryExpr { op, lhs, rhs } => {
                assert forall|name: char| #[trigger]
                    lhs.letters().contains(name) implies env(name) == other(name) by {
                    assert(self.letters().contains(name));
                }
                assert forall|name: char| #[trigger]
                    rhs.letters().contains(name) implies env(name) == other(name) by {
                    assert(self.letters().contains(name));
                }
                lhs.lemma_eval_agree(env, other);
                rhs.lemma_eval_agree(env, other);
            },
        }
    }

    /// Whether the constants of the formula mean for `x` what they mean as
    /// truth values: the set `{1}` of a true constant holds `x`, and the set
    /// `{0}` of a false one does not.
    pub open spec fn constants_agree(self, x: i32) -> bool
        decreases self,
    {
        match self {
            Node::Variable(_) => true,
            Node::Constant(value) => if value {
                x == 1
            } else {
                x != 0
            },
            Node::UnaryExpr { op, child } => child.constants_agree(x),
            Node::BinaryExpr { op, lhs, rhs } => lhs.constants_agree(x) && rhs.constants_agree(x),
        }
    }

    /// The set reading and the truth-value reading of a formula agree: an
    /// integer belongs to the set of the formula exactly when the formula is
    /// true under the assignment that makes a letter true when the integer
    /// belongs to the letter's set.
    pub proof fn lemma_sets_agree(self, variables: Seq<Variable>, x: i32)
        requires
            self.set_evaluable(variables),
            self.constants_agree(x),
        ensures
            self.spec_sets(variables).contains(x) == self.spec_eval(membership(variables, x)),
        decreases self,
    {
        match self {
            Node::Variable(name) => {},
            Node::Constant(value) => {
                let values = seq![if value { 1i32 } else { 0i32 }];
                assert(values[0] == if value { 1i32 } else { 0i32 });
            },
            Node::UnaryExpr { op, child } => {
                child.lemma_sets_agree(variables, x);
            },
            Node::BinaryExpr { op, lhs, rhs } => {
                lhs.lemma_sets_agree(variables, x);
                rhs.lemma_sets_agree(variables, x);
                lhs.spec_sets(variables).lemma_union(rhs.spec_sets(variables), x);
                lhs.spec_sets(variables).lemma_intersection(rhs.spec_sets(variables), x);
            },
        }
    }

    /// Evaluates the formula with the values that `variables` holds; a letter
    /// without a cell counts as false.
    pub fn eval(self, variables: &Vec<Variable>) -> (r: bool)
        requires
            self.well_formed(),
        ensures
            r == self.spec_eval(assignment(variables@)),
    {
        self.eval_ref(variables)
    }

    /// Evaluates the formula with the values that `variables` holds; a letter
    /// without a cell counts as false.
    pub fn eval_ref(&self, variables: &Vec<Variable>) -> (r: bool)
        requires
            self.well_formed(),
        ensures
            r == self.spec_eval(assignment(variables@)),
        decreases *self,
    {
        match self {
            Node::Variable(name) => match find_variable(variables, *name) {
                Some(i) => variables[i].value,
                None => false,
            },
            Node::Constant(value) => *value,
            Node::BinaryExpr { op, lhs, rhs } => op.eval_binary(
                lhs.eval_ref(variables),
                rhs.eval_ref(variables),
            ),
            Node::UnaryExpr { op, child } => op.eval_unary(child.eval_ref(variables)),
        }
    }

    /// Evaluates the formula over the sets that `variables` holds.
    pub fn compute_sets(&self, variables: &Vec<Variable>) -> (r: IntSet)
        requires
            self.set_evaluable(variables@),
        ensures
            r.model() == self.spec_sets(variables@),
        decreases *self,
    {
        match self {
            Node::Variable(name) => {
                let i = find_variable(variables, *name).unwrap();
                match &variables[i].set {
                    Some(values) => IntSet::from(values.clone()),
                    None => unreached(),
                }
            },
            Node::Constant(value) => {
                let mut values = Vec::new();
                values.push(if *value { 1 } else { 0 });
                IntSet::from(values)
            },
            Node::BinaryExpr { op, lhs, rhs } => {
                let lhs_sets = lhs.compute_sets(variables);
                let rhs_sets = rhs.compute_sets(variables);
                op.eval_binary_sets(lhs_sets, rhs_sets)
            },
            Node::UnaryExpr { op, child } => {
                let child_sets = child.compute_sets(variables);
                op.eval_unary_sets(child_sets)
            },
        }
    }

    /// The negation of the formula.
    pub fn not(self) -> (r: Node)
        ensures
            r == Node::negation(self),
    {
        Node::UnaryExpr { op: Operator::Not, child: Box::new(self) }
    }

    /// Appends the formula in postfix notation to `out`.
    fn write_rpn(&self, out: &mut String)
        ensures
            final(out)@ == old(out)@ + self.rpn(),
        decreases *self,
    {
        match self {
            Node::Variable(name) => {
                out.push(*name);
            },
            Node::Constant(value) => {
                out.push(if *value { '1' } else { '0' });
            },
            Node::UnaryExpr { op, child } => {
                child.write_rpn(out);
                out.push(op.symbol());
            },
            Node::BinaryExpr { op, lhs, rhs } => {
                lhs.write_rpn(out);
                rhs.write_rpn(out);
                out.push(op.symbol());
            },
        }
    }

    /// Appends the formula in infix notation to `out`.
    fn write_infix(&self, out: &mut String)
        ensures
            final(out)@ == old(out)@ + self.infix(),
        decreases *self,
    {
        match self {
            Node::Variable(name) => {
                out.push(*name);
            },
            Node::Constant(value) => {
                out.push(if *value { '1' } else { '0' });
            },
            Node::UnaryExpr { op, child } => {
                out.push(op.infix_sign());
                child.write_infix(out);
            },
            Node::BinaryExpr { op, lhs, rhs } => {
                lhs.write_infix(out);
                out.push(' ');
                out.push(op.infix_sign());
                out.push(' ');
                rhs.write_infix(out);
            },
        }
    }

    /// The formula in infix notation, without brackets.
    pub fn to_string(&self) -> (r: String)
        ensures
            r@ == self.infix(),
    {
        let mut out = String::new();
        self.write_infix(&mut out);
        out
    }

    /// The formula in postfix notation: operands first, then the operator,
    /// one character per token.
    pub fn to_rpn(&self) -> (r: String)
        ensures
            r@ == self.rpn(),
    {
        let mut out = String::new();
        self.write_rpn(&mut out);
        out
    }
}

impl std::ops::BitOr for Node {
    type Output = Node;

    /// The disjunction of two formulas.
    fn bitor(self, rhs: Node) -> (r: Node) {
        Node::BinaryExpr { op: Operator::Or, lhs: Box::new(self), rhs: Box::new(rhs) }
    }
}

impl vstd::std_specs::ops::BitOrSpecImpl for Node {
    open spec fn obeys_bitor_spec() -> bool {
        true
    }

    open spec fn bitor_req(self, rhs: Node) -> bool {
        true
    }

    open spec fn bitor_spec(self, rhs: Node) -> Node {
        Node::disjunction(self, rhs)
    }
}

impl std::ops::BitAnd for Node {
    type Output = Node;

    /// The conjunction of two formulas.
    fn bitand(self, rhs: Node) -> (r: Node) {
        Node::BinaryExpr { op: Operator::And, lhs: Box::new(self), rhs: Box::new(rhs) }
    }
}

impl vstd::std_specs::ops::BitAndSpecImpl for Node {
    open spec fn obeys_bitand_spec() -> bool {
        true
    }

    open spec fn bitand_req(self, rhs: Node) -> bool {
        true
    }

    open spec fn bitand_spec(self, rhs: Node) -> Node {
        Node::conjunction(self, rhs)
    }
}

impl std::ops::BitXor for Node {
    type Output = Node;

    /// The exclusive disjunction of two formulas.
    fn bitxor(self, rhs: Node) -> (r: Node) {
        Node::BinaryExpr { op: Operator::Xor, lhs: Box::new(self), rhs: Box::new(rhs) }
    }
}

impl vstd::std_specs::ops::BitXorSpecImpl for Node {
    open spec fn obeys_bitxor_spec() -> bool {
        true
    }

    open spec fn bitxor_req(self, rhs: Node) -> bool {
        true
    }

    open spec fn bitxor_spec(self, rhs: Node) -> Node {
        Node::binary(Operator::Xor, self, rhs)
    }
}

} // verus!
