use vstd::prelude::*;
use crate::set::IntSet;

verus! {

/// A propositional connective.
#[derive(Clone, Copy, Debug, PartialEq, Eq, Structural)]
pub enum Operator {
    Not,
    And,
    Or,
    Xor,
    Imply,
    Xnor,
}

impl Operator {
    /// Whether the connective takes two operands (all but `Not` do).
    pub open spec fn is_binary(self) -> bool {
        !(self is Not)
    }

    /// The truth table of a binary connective.
    pub open spec fn apply(self, lhs: bool, rhs: bool) -> bool
        recommends
            self.is_binary(),
    {
        match self {
            Operator::And => lhs && rhs,
            Operator::Or => lhs || rhs,
            Operator::Xor => lhs != rhs,
            Operator::Imply => !lhs || rhs,
            Operator::Xnor => lhs == rhs,
            Operator::Not => false,
        }
    }

    /// The character that stands for the connective in a postfix formula.
    pub open spec fn token(self) -> char {
        match self {
            Operator::Not => '!',
            Operator::And => '&',
            Operator::Or => '|',
            Operator::Xor => '^',
            Operator::Imply => '>',
            Operator::Xnor => '=',
        }
    }

    /// The sign that stands for the connective in infix notation.
    pub open spec fn sign(self) -> char {
        match self {
            Operator::Not => '¬',
            Operator::And => '∧',
            Operator::Or => '∨',
            Operator::Xor => '⊕',
            Operator::Imply => '→',
            Operator::Xnor => '⇔',
        }
    }

    /// The connective that `token` stands for, if it is one of `! & | ^ > =`.
    pub open spec fn of_token(token: char) -> Option<Operator> {
        if token == '!' {
            Some(Operator::Not)
        } else if token == '&' {
            Some(Operator::And)
        } else if token == '|' {
            Some(Operator::Or)
        } else if token == '^' {
            Some(Operator::Xor)
        } else if token == '>' {
            Some(Operator::Imply)
        } else if token == '=' {
            Some(Operator::Xnor)
        } else {
            None
        }
    }

    /// Applies a binary connective to two truth values.
    pub fn eval_binary(self, lhs: bool, rhs: bool) -> (r: bool)
        requires
            self.is_binary(),
        ensures
            r == self.apply(lhs, rhs),
    {
        match self {
            Operator::Imply => !lhs || rhs,
            Operator::Xnor => lhs == rhs,
            Operator::And => lhs && rhs,
            Operator::Xor => lhs != rhs,
            _ => lhs || rhs,
        }
    }

    /// Applies negation, the only unary connective, to a truth value.
    pub fn eval_unary(self, child: bool) -> (r: bool)
        requires
            self is Not,
        ensures
            r == !child,
    {
        !child
    }

    /// Applies conjunction or disjunction to two sets: intersection for
    /// `And`, union for `Or`.
    pub fn eval_binary_sets(self, lhs: IntSet, rhs: IntSet) -> (r: IntSet)
        requires
            self is And || self is Or,
        ensures
            r.model() == if self is And {
                lhs.model().intersection(rhs.model())
            } else {
                lhs.model().union(rhs.model())
            },
            r@ == if self is And {
                lhs@.intersect(rhs@)
            } else {
                lhs@.union(rhs@)
            },
    {
        match self {
            Operator::And => lhs & rhs,
            _ => lhs | rhs,
        }
    }

    /// Applies negation to a set: the same values, with the complement flag
    /// flipped.
    pub fn eval_unary_sets(self, child: IntSet) -> (r: IntSet)
        requires
            self is Not,
        ensures
            r.model() == child.model().complement(),
            r@ == child@.complement(),
    {
        child.complement()
    }

    /// The character that stands for the connective in a postfix formula.
    pub fn symbol(self) -> (r: char)
        ensures
            r == self.token(),
    {
        match self {
            Operator::Not => '!',
            Operator::And => '&',
            Operator::Or => '|',
            Operator::Xor => '^',
            Operator::Imply => '>',
            Operator::Xnor => '=',
        }
    }

    /// The sign that stands for the connective in infix notation.
    pub fn infix_sign(self) -> (r: char)
        ensures
            r == self.sign(),
    {
        match self {
            Operator::Not => '¬',
            Operator::And => '∧',
            Operator::Or => '∨',
            Operator::Xor => '⊕',
            Operator::Imply => '→',
            Operator::Xnor => '⇔',
        }
    }

    /// The connective as text: its infix sign.
    pub fn to_string(&self) -> (r: String)
        ensures
            r@ == seq![self.sign()],
    {
        let mut out = String::new();
        out.push(self.infix_sign());
        out
    }

    /// Reads a connective from its postfix character.
    pub fn from_symbol(token: char) -> (r: Option<Operator>)
        ensures
            r == Operator::of_token(token),
    {
        if token == '!' {
            Some(Operator::Not)
        } else if token == '&' {
            Some(Operator::And)
        } else if token == '|' {
            Some(Operator::Or)
        } else if token == '^' {
            Some(Operator::Xor)
        } else if token == '>' {
            Some(Operator::Imply)
        } else if token == '=' {
            Some(Operator::Xnor)
        } else {
            None
        }
    }
}

} // verus!
