use vstd::prelude::*;
use vstd::pervasive::unreached;
use crate::nnf::node_to_nnf;
use crate::node::Node;
use crate::operator::Operator;

verus! {

impl Node {
    /// A binary formula whose connective is `And`.
    pub open spec fn is_conjunction(self) -> bool {
        self matches Node::BinaryExpr { op, .. } && op is And
    }

    /// A binary formula whose connective is `Or`.
    pub open spec fn is_disjunction(self) -> bool {
        self matches Node::BinaryExpr { op, .. } && op is Or
    }

    /// The left operand of a binary formula.
    pub open spec fn left(self) -> Node
        recommends
            self is BinaryExpr,
    {
        match self {
            Node::BinaryExpr { op, lhs, rhs } => *lhs,
            _ => self,
        }
    }

    /// The right operand of a binary formula.
    pub open spec fn right(self) -> Node
        recommends
            self is BinaryExpr,
    {
        match self {
            Node::BinaryExpr { op, lhs, rhs } => *rhs,
            _ => self,
        }
    }

    /// A disjunction of literals.
    pub open spec fn is_clause(self) -> bool
        decreases self,
    {
        ||| self.is_literal()
        ||| self matches Node::BinaryExpr { op, lhs, rhs } && op is Or && lhs.is_clause()
            && rhs.is_clause()
    }

    /// Conjunctive normal form: a conjunction of clauses.
    pub open spec fn is_cnf(self) -> bool
        decreases self,
    {
        ||| self.is_clause()
        ||| self matches Node::BinaryExpr { op, lhs, rhs } && op is And && lhs.is_cnf()
            && rhs.is_cnf()
    }

    /// The conjunctive normal form of `lhs ∨ rhs`, for `lhs` and `rhs` in
    /// conjunctive normal form: the disjunction is distributed over every
    /// conjunction at the top of either side.
    ///
    /// `(p ∧ q) ∨ (r ∧ s)` gives all four pairings,
    /// `((p ∨ r) ∧ (p ∨ s)) ∧ ((q ∨ r) ∧ (q ∨ s))`; `(p ∧ q) ∨ r` gives
    /// `(p ∨ r) ∧ (q ∨ r)`, and likewise on the other side; each pairing is
    /// distributed in turn. Two clauses give their disjunction.
    pub open spec fn distributed(lhs: Node, rhs: Node) -> Node
        decreases lhs, rhs,
    {
        if lhs.is_conjunction() && rhs.is_conjunction() {
            Node::conjunction(
                Node::conjunction(
                    Node::distributed(lhs.left(), rhs.left()),
                    Node::distributed(lhs.left(), rhs.right()),
                ),
                Node::conjunction(
                    Node::distributed(lhs.right(), rhs.left()),
                    Node::distributed(lhs.right(), rhs.right()),
                ),
            )
        } else if lhs.is_conjunction() {
            Node::conjunction(
                Node::distributed(lhs.left(), rhs),
                Node::distributed(lhs.right(), rhs),
            )
        } else if rhs.is_conjunction() {
            Node::conjunction(
                Node::distributed(lhs, rhs.left()),
                Node::distributed(lhs, rhs.right()),
            )
        } else {
            Node::disjunction(lhs, rhs)
        }
    }

    /// The conjunctive normal form of a formula in negation normal form: a
    /// conjunction keeps its place over the normal forms of its operands, a
    /// disjunction is distributed over theirs, and a literal stays.
    pub open spec fn distribute(self) -> Node
        decreases self,
    {
        match self {
            Node::BinaryExpr { op, lhs, rhs } => if op is And {
                Node::conjunction(lhs.distribute(), rhs.distribute())
            } else if op is Or {
                Node::distributed(lhs.distribute(), rhs.distribute())
            } else {
                self
            },
            _ => self,
        }
    }

    /// The conjunctive normal form of the formula: that of its negation
    /// normal form.
    pub open spec fn cnf(self) -> Node {
        self.nnf().distribute()
    }

    /// The number of clauses in the conjunctive normal form of a formula in
    /// negation normal form: conjunction adds, disjunction multiplies.
    pub open spec fn clause_count(self) -> nat
        decreases self,
    {
        match self {
            Node::BinaryExpr { op, lhs, rhs } => if op is And {
                lhs.clause_count() + rhs.clause_count()
            } else if op is Or {
                lhs.clause_count() * rhs.clause_count()
            } else {
                1
            },
            _ => 1,
        }
    }

    /// Every formula counts for at least one clause.
    pub proof fn lemma_clause_count_positive(self)
        ensures
            self.clause_count() >= 1,
        decreases self,
    {
        match self {
            Node::BinaryExpr { op, lhs, rhs } => {
                lhs.lemma_clause_count_positive();
                rhs.lemma_clause_count_positive();
                let a = lhs.clause_count();
                let b = rhs.clause_count();
                assert(a * b >= 1) by (nonlinear_arith)
                    requires
                        a >= 1,
                        b >= 1,
                ;
            },
            _ => {},
        }
    }

    /// Distribution yields as many clauses as the two sides multiply to.
    pub proof fn lemma_distributed_clause_count(lhs: Node, rhs: Node)
        ensures
            Node::distributed(lhs, rhs).clause_count() == lhs.clause_count()
                * rhs.clause_count(),
        decreases lhs, rhs,
    {
        reveal_with_fuel(Node::clause_count, 3);
        let l = lhs.clause_count();
        let r = rhs.clause_count();
        if lhs.is_conjunction() && rhs.is_conjunction() {
            Node::lemma_distributed_clause_count(lhs.left(), rhs.left());
            Node::lemma_distributed_clause_count(lhs.left(), rhs.right());
            Node::lemma_distributed_clause_count(lhs.right(), rhs.left());
            Node::lemma_distributed_clause_count(lhs.right(), rhs.right());
            let p = lhs.left().clause_count();
            let q = lhs.right().clause_count();
            let u = rhs.left().clause_count();
            let v = rhs.right().clause_count();
            assert((p * u + p * v) + (q * u + q * v) == (p + q) * (u + v)) by (nonlinear_arith);
        } else if lhs.is_conjunction() {
            Node::lemma_distributed_clause_count(lhs.left(), rhs);
            Node::lemma_distributed_clause_count(lhs.right(), rhs);
            let p = lhs.left().clause_count();
            let q = lhs.right().clause_count();
            assert(p * r + q * r == (p + q) * r) by (nonlinear_arith);
        } else if rhs.is_conjunction() {
            Node::lemma_distributed_clause_count(lhs, rhs.left());
            Node::lemma_distributed_clause_count(lhs, rhs.right());
            let u = rhs.left().clause_count();
            let v = rhs.right().clause_count();
            assert(l * u + l * v == l * (u + v)) by (nonlinear_arith);
        }
    }

    /// Distribution of two conjunctive normal forms is one.
    pub proof fn lemma_distributed_is_cnf(lhs: Node, rhs: Node)
        requires
            lhs.is_cnf(),
            rhs.is_cnf(),
        ensures
            Node::distributed(lhs, rhs).is_cnf(),
        decreases lhs, rhs,
    {
        reveal_with_fuel(Node::is_cnf, 3);
        if lhs.is_conjunction() && rhs.is_conjunction() {
            Node::lemma_distributed_is_cnf(lhs.left(), rhs.left());
            Node::lemma_distributed_is_cnf(lhs.left(), rhs.right());
            Node::lemma_distributed_is_cnf(lhs.right(), rhs.left());
            Node::lemma_distributed_is_cnf(lhs.right(), rhs.right());
        } else if lhs.is_conjunction() {
            Node::lemma_distributed_is_cnf(lhs.left(), rhs);
            Node::lemma_distributed_is_cnf(lhs.right(), rhs);
        } else if rhs.is_conjunction() {
            Node::lemma_distributed_is_cnf(lhs, rhs.left());
            Node::lemma_distributed_is_cnf(lhs, rhs.right());
        }
    }

    /// Distribution holds exactly when one of the two sides holds.
    pub proof fn lemma_distributed_truth(lhs: Node, rhs: Node, env: spec_fn(char) -> bool)
        ensures
            Node::distributed(lhs, rhs).spec_eval(env) == (lhs.spec_eval(env) || rhs.spec_eval(
                env,
            )),
        decreases lhs, rhs,
    {
        reveal_with_fuel(Node::spec_eval, 3);
        if lhs.is_conjunction() && rhs.is_conjunction() {
            Node::lemma_distributed_truth(lhs.left(), rhs.left(), env);
            Node::lemma_distributed_truth(lhs.left(), rhs.right(), env);
            Node::lemma_distributed_truth(lhs.right(), rhs.left(), env);
            Node::lemma_distributed_truth(lhs.right(), rhs.right(), env);
        } else if lhs.is_conjunction() {
            Node::lemma_distributed_truth(lhs.left(), rhs, env);
            Node::lemma_distributed_truth(lhs.right(), rhs, env);
        } else if rhs.is_conjunction() {
            Node::lemma_distributed_truth(lhs, rhs.left(), env);
            Node::lemma_distributed_truth(lhs, rhs.right(), env);
        }
    }

    /// Distribution holds the letters of its two sides, and no others.
    pub proof fn lemma_distributed_letters(lhs: Node, rhs: Node)
        ensures
            Node::distributed(lhs, rhs).letters() == lhs.letters().union(rhs.letters()),
        decreases lhs, rhs,
    {
        reveal_with_fuel(Node::letters, 3);
        if lhs.is_conjunction() && rhs.is_conjunction() {
            Node::lemma_distributed_letters(lhs.left(), rhs.left());
            Node::lemma_distributed_letters(lhs.left(), rhs.right());
            Node::lemma_distributed_letters(lhs.right(), rhs.left());
            Node::lemma_distributed_letters(lhs.right(), rhs.right());
        } else if lhs.is_conjunction() {
            Node::lemma_distributed_letters(lhs.left(), rhs);
            Node::lemma_distributed_letters(lhs.right(), rhs);
        } else if rhs.is_conjunction() {
            Node::lemma_distributed_letters(lhs, rhs.left());
            Node::lemma_distributed_letters(lhs, rhs.right());
        }
    }

    /// For a formula in negation normal form, `distribute` yields a
    /// conjunctive normal form with the same letters and the same number of
    /// clauses.
    pub proof fn lemma_distribute(self)
        requires
            self.is_nnf(),
        ensures
            self.distribute().is_cnf(),
            self.distribute().letters() == self.letters(),
            self.distribute().clause_count() == self.clause_count(),
        decreases self,
    {
        reveal_with_fuel(Node::is_clause, 2);
        match self {
            Node::BinaryExpr { op, lhs, rhs } => {
                lhs.lemma_distribute();
                rhs.lemma_distribute();
                if op is Or {
                    Node::lemma_distributed_is_cnf(lhs.distribute(), rhs.distribute());
                    Node::lemma_distributed_letters(lhs.distribute(), rhs.distribute());
                    Node::lemma_distributed_clause_count(lhs.distribute(), rhs.distribute());
                }
            },
            _ => {},
        }
    }

    /// `distribute` keeps the truth value of a formula under every
    /// assignment.
    pub proof fn lemma_distribute_truth(self, env: spec_fn(char) -> bool)
        ensures
            self.distribute().spec_eval(env) == self.spec_eval(env),
        decreases self,
    {
        match self {
            Node::BinaryExpr { op, lhs, rhs } => {
                lhs.lemma_distribute_truth(env);
                rhs.lemma_distribute_truth(env);
                if op is Or {
                    Node::lemma_distributed_truth(lhs.distribute(), rhs.distribute(), env);
                }
            },
            _ => {},
        }
    }

    /// A conjunctive normal form is in negation normal form and is its own
    /// conjunctive normal form.
    pub proof fn lemma_cnf_fixed(self)
        requires
            self.is_cnf(),
        ensures
            self.is_nnf(),
            self.well_formed(),
            self.nnf() == self,
            self.distribute() == self,
            self.cnf() == self,
        decreases self,
    {
        match self {
            Node::BinaryExpr { op, lhs, rhs } => {
                if op is And {
                    lhs.lemma_cnf_fixed();
                    rhs.lemma_cnf_fixed();
                } else {
                    assert(lhs.is_clause() && rhs.is_clause());
                    lhs.lemma_cnf_fixed();
                    rhs.lemma_cnf_fixed();
                }
            },
            _ => {},
        }
        self.lemma_nnf_fixed();
    }

    /// The conjunctive normal form of a disjunction of two conjunctive
    /// normal forms is their distribution.
    pub proof fn lemma_cnf_of_disjunction(lhs: Node, rhs: Node)
        requires
            lhs.is_cnf(),
            rhs.is_cnf(),
        ensures
            Node::disjunction(lhs, rhs).cnf() == Node::distributed(lhs, rhs),
            Node::disjunction(lhs, rhs).nnf() == Node::disjunction(lhs, rhs),
            Node::disjunction(lhs, rhs).well_formed(),
    {
        lhs.lemma_cnf_fixed();
        rhs.lemma_cnf_fixed();
        Node::disjunction(lhs, rhs).lemma_nnf_fixed();
    }

    /// Distribution, written with the conjunctive normal forms of the
    /// pairings it is made of.
    pub proof fn lemma_distributed_pairings(lhs: Node, rhs: Node)
        requires
            lhs.is_cnf(),
            rhs.is_cnf(),
        ensures
            lhs.is_conjunction() && rhs.is_conjunction() ==> Node::distributed(lhs, rhs)
                == Node::conjunction(
                Node::conjunction(
                    Node::disjunction(lhs.left(), rhs.left()).cnf(),
                    Node::disjunction(lhs.left(), rhs.right()).cnf(),
                ),
                Node::conjunction(
                    Node::disjunction(lhs.right(), rhs.left()).cnf(),
                    Node::disjunction(lhs.right(), rhs.right()).cnf(),
                ),
            ),
            lhs.is_conjunction() && !rhs.is_conjunction() ==> Node::distributed(lhs, rhs)
                == Node::conjunction(
                Node::disjunction(lhs.left(), rhs).cnf(),
                Node::disjunction(lhs.right(), rhs).cnf(),
            ),
            !lhs.is_conjunction() && rhs.is_conjunction() ==> Node::distributed(lhs, rhs)
                == Node::conjunction(
                Node::disjunction(lhs, rhs.left()).cnf(),
                Node::disjunction(lhs, rhs.right()).cnf(),
            ),
            !lhs.is_conjunction() && !rhs.is_conjunction() ==> Node::distributed(lhs, rhs)
                == Node::disjunction(lhs, rhs),
    {
        if lhs.is_conjunction() && rhs.is_conjunction() {
            Node::lemma_cnf_of_disjunction(lhs.left(), rhs.left());
            Node::lemma_cnf_of_disjunction(lhs.left(), rhs.right());
            Node::lemma_cnf_of_disjunction(lhs.right(), rhs.left());
            Node::lemma_cnf_of_disjunction(lhs.right(), rhs.right());
        } else if lhs.is_conjunction() {
            Node::lemma_cnf_of_disjunction(lhs.left(), rhs);
            Node::lemma_cnf_of_disjunction(lhs.right(), rhs);
        } else if rhs.is_conjunction() {
            Node::lemma_cnf_of_disjunction(lhs, rhs.left());
            Node::lemma_cnf_of_disjunction(lhs, rhs.right());
        }
    }

    /// Taking the conjunctive normal form twice gives what taking it once
    /// gives: the same formula, and so the same truth value under every
    /// assignment.
    pub proof fn lemma_cnf_idempotent(self)
        requires
            self.well_formed(),
        ensures
            self.cnf().cnf() == self.cnf(),
            forall|env: spec_fn(char) -> bool| #[trigger]
                self.cnf().cnf().spec_eval(env) == self.cnf().spec_eval(env),
    {
        self.lemma_nnf_is_nnf();
        self.nnf().lemma_distribute();
        self.cnf().lemma_cnf_fixed();
    }

    /// The conjunctive normal form has the truth value of the formula under
    /// every assignment.
    pub proof fn lemma_cnf_truth(self, env: spec_fn(char) -> bool)
        requires
            self.well_formed(),
        ensures
            self.cnf().spec_eval(env) == self.spec_eval(env),
    {
        self.lemma_nnf_truth(env);
        self.nnf().lemma_distribute_truth(env);
    }

    /// The conjunctive normal form of a well-formed formula is a conjunction
    /// of disjunctions of literals.
    pub proof fn lemma_cnf_is_cnf(self)
        requires
            self.well_formed(),
        ensures
            self.cnf().is_cnf(),
    {
        self.lemma_nnf_is_nnf();
        self.nnf().lemma_distribute();
    }

    /// What the transform promises of its result, from `r == self.cnf()`.
    proof fn lemma_cnf_result(self)
        requires
            self.well_formed(),
        ensures
            self.cnf().is_cnf(),
            self.cnf().well_formed(),
            self.cnf().letters() == self.letters(),
            forall|env: spec_fn(char) -> bool| #[trigger]
                self.cnf().spec_eval(env) == self.spec_eval(env),
    {
        self.lemma_nnf_is_nnf();
        self.lemma_nnf_letters();
        self.nnf().lemma_distribute();
        self.cnf().lemma_cnf_fixed();
        assert forall|env: spec_fn(char) -> bool| #[trigger]
            self.cnf().spec_eval(env) == self.spec_eval(env) by {
            self.lemma_cnf_truth(env);
        }
    }
}

/// Whether the formula is a conjunction.
fn is_and(node: &Node) -> (r: bool)
    ensures
        r == node.is_conjunction(),
{
    match node {
        Node::BinaryExpr { op, lhs, rhs } => match op {
            Operator::And => true,
            _ => false,
        },
        _ => false,
    }
}

/// Rewrites a formula into conjunctive normal form: a conjunction of
/// disjunctions of literals with the truth value of the formula under every
/// assignment.
///
/// The formula is first brought into negation normal form. A conjunction
/// then keeps its place over the normal forms of its operands; for a
/// disjunction, the normal forms of the two operands are distributed over
/// one another wherever one of them is a conjunction.
pub fn node_to_cnf(node: Node) -> (r: Node)
    requires
        node.well_formed(),
    ensures
        r == node.cnf(),
        r.is_cnf(),
        r.well_formed(),
        r.letters() == node.letters(),
        forall|env: spec_fn(char) -> bool| #[trigger] r.spec_eval(env) == node.spec_eval(env),
    decreases node.nnf().clause_count(), 1int, node.nnf().size(),
{
    proof {
        node.lemma_cnf_result();
    }
    let normal = node_to_nnf(node);
    match normal {
        Node::BinaryExpr { op, lhs, rhs } => {
            let a = *lhs;
            let b = *rhs;
            proof {
                a.lemma_nnf_fixed();
                b.lemma_nnf_fixed();
                a.lemma_clause_count_positive();
                b.lemma_clause_count_positive();
                a.lemma_distribute();
                b.lemma_distribute();
            }
            match op {
                Operator::And => node_to_cnf(a) & node_to_cnf(b),
                _ => {
                    proof {
                        let m = a.clause_count();
                        let n = b.clause_count();
                        assert(m <= m * n && n <= m * n) by (nonlinear_arith)
                            requires
                                m >= 1,
                                n >= 1,
                        ;
                        Node::lemma_cnf_of_disjunction(a.distribute(), b.distribute());
                        Node::lemma_distributed_pairings(a.distribute(), b.distribute());
                    }
                    let lhs = node_to_cnf(a);
                    let rhs = node_to_cnf(b);
                    let left_and = is_and(&lhs);
                    let right_and = is_and(&rhs);
                    if left_and && right_and {
                        distribute_both(lhs | rhs)
                    } else if left_and {
                        distribute_to_left(lhs | rhs)
                    } else if right_and {
                        distribute_to_right(lhs | rhs)
                    } else {
                        lhs | rhs
                    }
                },
            }
        },
        literal => literal,
    }
}

/// Distributes a disjunction of two conjunctions, `(p ∧ q) ∨ (r ∧ s)`, with
/// all four pairings:
/// `(cnf(p ∨ r) ∧ cnf(p ∨ s)) ∧ (cnf(q ∨ r) ∧ cnf(q ∨ s))`.
pub fn distribute_both(node: Node) -> (r: Node)
    requires
        node.well_formed(),
        node.is_disjunction(),
        node.left().is_conjunction(),
        node.right().is_conjunction(),
    ensures
        r == Node::conjunction(
            Node::conjunction(
                Node::disjunction(node.left().left(), node.right().left()).cnf(),
                Node::disjunction(node.left().left(), node.right().right()).cnf(),
            ),
            Node::conjunction(
                Node::disjunction(node.left().right(), node.right().left()).cnf(),
                Node::disjunction(node.left().right(), node.right().right()).cnf(),
            ),
        ),
        r.is_cnf(),
        r.well_formed(),
        r.letters() == node.letters(),
        forall|env: spec_fn(char) -> bool| #[trigger] r.spec_eval(env) == node.spec_eval(env),
    decreases node.nnf().clause_count(), 0int, 0nat,
{
    match node {
        Node::BinaryExpr { op, lhs, rhs } => match *lhs {
            Node::BinaryExpr { op: _, lhs: p, rhs: q } => match *rhs {
                Node::BinaryExpr { op: _, lhs: r, rhs: s } => {
                    let p = *p;
                    let q = *q;
                    let r = *r;
                    let s = *s;
                    proof {
                        lemma_pairings(node, p, q, r, s);
                    }
                    let pr = node_to_cnf(p.clone() | r.clone());
                    let ps = node_to_cnf(p | s.clone());
                    let qr = node_to_cnf(q.clone() | r);
                    let qs = node_to_cnf(q | s);
                    proof {
                        lemma_conjunction(
                            Node::conjunction(pr, ps),
                            Node::conjunction(qr, qs),
                        );
                        lemma_conjunction(pr, ps);
                        lemma_conjunction(qr, qs);
                        assert(pr.letters().union(ps.letters()).union(
                            qr.letters().union(qs.letters()),
                        ) =~= node.letters());
                    }
                    (pr & ps) & (qr & qs)
                },
                _ => unreached(),
            },
            _ => unreached(),
        },
        _ => unreached(),
    }
}

/// Distributes a disjunction whose left side is a conjunction,
/// `(p ∧ q) ∨ r`, into `cnf(p ∨ r) ∧ cnf(q ∨ r)`.
pub fn distribute_to_left(node: Node) -> (r: Node)
    requires
        node.well_formed(),
        node.is_disjunction(),
        node.left().is_conjunction(),
    ensures
        r == Node::conjunction(
            Node::disjunction(node.left().left(), node.right()).cnf(),
            Node::disjunction(node.left().right(), node.right()).cnf(),
        ),
        r.is_cnf(),
        r.well_formed(),
        r.letters() == node.letters(),
        forall|env: spec_fn(char) -> bool| #[trigger] r.spec_eval(env) == node.spec_eval(env),
    decreases node.nnf().clause_count(), 0int, 0nat,
{
    match node {
        Node::BinaryExpr { op, lhs, rhs } => match *lhs {
            Node::BinaryExpr { op: _, lhs: p, rhs: q } => {
                let p = *p;
                let q = *q;
                let r = *rhs;
                proof {
                    lemma_pairings(node, p, q, r, r);
                }
                let pr = node_to_cnf(p | r.clone());
                let qr = node_to_cnf(q | r);
                proof {
                    lemma_conjunction(pr, qr);
                }
                pr & qr
            },
            _ => unreached(),
        },
        _ => unreached(),
    }
}

/// Distributes a disjunction whose right side is a conjunction,
/// `p ∨ (r ∧ s)`, into `cnf(p ∨ r) ∧ cnf(p ∨ s)`.
pub fn distribute_to_right(node: Node) -> (r: Node)
    requires
        node.well_formed(),
        node.is_disjunction(),
        node.right().is_conjunction(),
    ensures
        r == Node::conjunction(
            Node::disjunction(node.left(), node.right().left()).cnf(),
            Node::disjunction(node.left(), node.right().right()).cnf(),
        ),
        r.is_cnf(),
        r.well_formed(),
        r.letters() == node.letters(),
        forall|env: spec_fn(char) -> bool| #[trigger] r.spec_eval(env) == node.spec_eval(env),
    decreases node.nnf().clause_count(), 0int, 0nat,
{
    match node {
        Node::BinaryExpr { op, lhs, rhs } => match *rhs {
            Node::BinaryExpr { op: _, lhs: r, rhs: s } => {
                let p = *lhs;
                let r = *r;
                let s = *s;
                proof {
                    lemma_pairings(node, p, p, r, s);
                }
                let pr = node_to_cnf(p.clone() | r);
                let ps = node_to_cnf(p | s);
                proof {
                    lemma_conjunction(pr, ps);
                }
                pr & ps
            },
            _ => unreached(),
        },
        _ => unreached(),
    }
}

/// A conjunction of two conjunctive normal forms is one; it holds exactly
/// when both sides hold, and has the letters of both.
proof fn lemma_conjunction(lhs: Node, rhs: Node)
    ensures
        lhs.is_cnf() && rhs.is_cnf() ==> Node::conjunction(lhs, rhs).is_cnf(),
        lhs.well_formed() && rhs.well_formed() ==> Node::conjunction(lhs, rhs).well_formed(),
        Node::conjunction(lhs, rhs).letters() == lhs.letters().union(rhs.letters()),
        forall|env: spec_fn(char) -> bool| #[trigger]
            Node::conjunction(lhs, rhs).spec_eval(env) == (lhs.spec_eval(env) && rhs.spec_eval(
                env,
            )),
{
}

/// What the three distributions rest on. For a well-formed disjunction
/// whose sides are `p` or `p ∧ q` and `r` or `r ∧ s`: each pairing of a left
/// part with a right part is well formed and counts for fewer clauses than
/// the whole wherever a side was split; the conjunction of the pairings
/// holds exactly when the whole does, and has its letters.
proof fn lemma_pairings(node: Node, p: Node, q: Node, r: Node, s: Node)
    requires
        node.well_formed(),
        node.is_disjunction(),
        node.left() == p && p == q || node.left() == Node::conjunction(p, q),
        node.right() == r && r == s || node.right() == Node::conjunction(r, s),
    ensures
        Node::disjunction(p, r).well_formed(),
        Node::disjunction(p, s).well_formed(),
        Node::disjunction(q, r).well_formed(),
        Node::disjunction(q, s).well_formed(),
        node.left() != p || node.right() != r ==> {
            &&& Node::disjunction(p, r).nnf().clause_count() < node.nnf().clause_count()
            &&& Node::disjunction(p, s).nnf().clause_count() < node.nnf().clause_count()
            &&& Node::disjunction(q, r).nnf().clause_count() < node.nnf().clause_count()
            &&& Node::disjunction(q, s).nnf().clause_count() < node.nnf().clause_count()
        },
        forall|env: spec_fn(char) -> bool|
            node.spec_eval(env) == {
                &&& #[trigger] Node::disjunction(p, r).spec_eval(env)
                &&& Node::disjunction(p, s).spec_eval(env)
                &&& Node::disjunction(q, r).spec_eval(env)
                &&& Node::disjunction(q, s).spec_eval(env)
            },
        node.letters() == Node::disjunction(p, r).letters().union(
            Node::disjunction(p, s).letters(),
        ).union(Node::disjunction(q, r).letters()).union(Node::disjunction(q, s).letters()),
{
    reveal_with_fuel(Node::well_formed, 3);
    reveal_with_fuel(Node::nnf, 3);
    reveal_with_fuel(Node::clause_count, 3);
    reveal_with_fuel(Node::spec_eval, 3);
    reveal_with_fuel(Node::letters, 3);
    p.nnf().lemma_clause_count_positive();
    q.nnf().lemma_clause_count_positive();
    r.nnf().lemma_clause_count_positive();
    s.nnf().lemma_clause_count_positive();
    let a = p.nnf().clause_count();
    let b = q.nnf().clause_count();
    let c = r.nnf().clause_count();
    let d = s.nnf().clause_count();
    assert(a * c < (a + b) * c && b * c < (a + b) * c && a * c < a * (c + d) && a * d < a * (c
        + d) && a * c < (a + b) * (c + d) && a * d < (a + b) * (c + d) && b * c < (a + b) * (c
        + d) && b * d < (a + b) * (c + d)) by (nonlinear_arith)
        requires
            a >= 1,
            b >= 1,
            c >= 1,
            d >= 1,
    ;
    assert(node.letters() =~= Node::disjunction(p, r).letters().union(
        Node::disjunction(p, s).letters(),
    ).union(Node::disjunction(q, r).letters()).union(Node::disjunction(q, s).letters()));
}

impl Node {
    /// Whether the formula is a conjunction or a disjunction with the
    /// connective `op`.
    pub open spec fn is_chain_of(self, op: Operator) -> bool {
        &&& op is And || op is Or
        &&& self matches Node::BinaryExpr { op: own, .. }
        &&& own == op
    }

    /// `lhs op rhs` for a conjunction or disjunction, with the operands of
    /// `lhs` moved to the right where `lhs` has the same connective:
    /// `(a op b) op c` becomes `a op (b op c)`.
    pub open spec fn chained(op: Operator, lhs: Node, rhs: Node) -> Node
        decreases lhs,
    {
        if lhs.is_chain_of(op) {
            Node::binary(op, lhs.left(), Node::chained(op, lhs.right(), rhs))
        } else {
            Node::binary(op, lhs, rhs)
        }
    }

    /// The formula with every run of conjunctions, and every run of
    /// disjunctions, grouped to the right: `((a ∨ b) ∨ c) ∨ d` becomes
    /// `a ∨ (b ∨ (c ∨ d))`, which in postfix notation puts the connectives of
    /// a run at its end.
    pub open spec fn right_grouped(self) -> Node
        decreases self,
    {
        match self {
            Node::BinaryExpr { op, lhs, rhs } => if op is And || op is Or {
                Node::chained(op, lhs.right_grouped(), rhs.right_grouped())
            } else {
                self
            },
            _ => self,
        }
    }

    /// Moving operands to the right keeps the letters and the normal form.
    pub proof fn lemma_chained(op: Operator, lhs: Node, rhs: Node)
        requires
            op is And || op is Or,
        ensures
            Node::chained(op, lhs, rhs).letters() == lhs.letters().union(rhs.letters()),
            lhs.well_formed() && rhs.well_formed() ==> Node::chained(op, lhs, rhs).well_formed(),
            op is Or && lhs.is_clause() && rhs.is_clause() ==> Node::chained(
                op,
                lhs,
                rhs,
            ).is_clause(),
            op is And && lhs.is_cnf() && rhs.is_cnf() ==> Node::chained(op, lhs, rhs).is_cnf(),
        decreases lhs,
    {
        reveal_with_fuel(Node::letters, 2);
        if lhs.is_chain_of(op) {
            Node::lemma_chained(op, lhs.right(), rhs);
        }
        assert(Node::chained(op, lhs, rhs).letters() =~= lhs.letters().union(rhs.letters()));
    }

    /// Moving operands to the right keeps the truth value: conjunction and
    /// disjunction are associative.
    pub proof fn lemma_chained_truth(
        op: Operator,
        lhs: Node,
        rhs: Node,
        env: spec_fn(char) -> bool,
    )
        requires
            op is And || op is Or,
        ensures
            Node::chained(op, lhs, rhs).spec_eval(env) == op.apply(
                lhs.spec_eval(env),
                rhs.spec_eval(env),
            ),
        decreases lhs,
    {
        reveal_with_fuel(Node::spec_eval, 2);
        if lhs.is_chain_of(op) {
            Node::lemma_chained_truth(op, lhs.right(), rhs, env);
        }
    }

    /// Grouping to the right keeps the letters and the conjunctive normal
    /// form.
    pub proof fn lemma_right_grouped(self)
        ensures
            self.right_grouped().letters() == self.letters(),
            self.well_formed() ==> self.right_grouped().well_formed(),
            self.is_clause() ==> self.right_grouped().is_clause(),
            self.is_cnf() ==> self.right_grouped().is_cnf(),
        decreases self,
    {
        match self {
            Node::BinaryExpr { op, lhs, rhs } => {
                if op is And || op is Or {
                    lhs.lemma_right_grouped();
                    rhs.lemma_right_grouped();
                    Node::lemma_chained(op, lhs.right_grouped(), rhs.right_grouped());
                }
            },
            _ => {},
        }
    }

    /// Grouping to the right keeps the truth value under every assignment.
    pub proof fn lemma_right_grouped_truth(self, env: spec_fn(char) -> bool)
        ensures
            self.right_grouped().spec_eval(env) == self.spec_eval(env),
        decreases self,
    {
        match self {
            Node::BinaryExpr { op, lhs, rhs } => {
                if op is And || op is Or {
                    lhs.lemma_right_grouped_truth(env);
                    rhs.lemma_right_grouped_truth(env);
                    Node::lemma_chained_truth(op, lhs.right_grouped(), rhs.right_grouped(), env);
                }
            },
            _ => {},
        }
    }
}

/// Whether the formula is a conjunction or disjunction with the connective
/// `op`.
fn is_chain(node: &Node, op: Operator) -> (r: bool)
    ensures
        r == node.is_chain_of(op),
{
    match node {
        Node::BinaryExpr { op: own, lhs, rhs } => match (op, own) {
            (Operator::And, Operator::And) => true,
            (Operator::Or, Operator::Or) => true,
            _ => false,
        },
        _ => false,
    }
}

/// Builds `lhs op rhs` with the operands of `lhs` moved to the right where
/// `lhs` has the same connective.
fn chain(op: Operator, lhs: Node, rhs: Node) -> (r: Node)
    requires
        op is And || op is Or,
    ensures
        r == Node::chained(op, lhs, rhs),
    decreases lhs,
{
    if is_chain(&lhs, op) {
        match lhs {
            Node::BinaryExpr { op: _, lhs: first, rhs: rest } => Node::BinaryExpr {
                op,
                lhs: first,
                rhs: Box::new(chain(op, *rest, rhs)),
            },
            _ => unreached(),
        }
    } else {
        Node::BinaryExpr { op, lhs: Box::new(lhs), rhs: Box::new(rhs) }
    }
}

/// Groups every run of conjunctions, and every run of disjunctions, to the
/// right. The formula keeps its truth value under every assignment; a
/// conjunctive normal form stays one.
pub fn group_right(node: Node) -> (r: Node)
    ensures
        r == node.right_grouped(),
        r.letters() == node.letters(),
        node.well_formed() ==> r.well_formed(),
        node.is_cnf() ==> r.is_cnf(),
        forall|env: spec_fn(char) -> bool| #[trigger] r.spec_eval(env) == node.spec_eval(env),
    decreases node,
{
    proof {
        node.lemma_right_grouped();
        assert forall|env: spec_fn(char) -> bool| #[trigger]
            node.right_grouped().spec_eval(env) == node.spec_eval(env) by {
            node.lemma_right_grouped_truth(env);
        }
    }
    match node {
        Node::BinaryExpr { op, lhs, rhs } => match op {
            Operator::And => chain(op, group_right(*lhs), group_right(*rhs)),
            Operator::Or => chain(op, group_right(*lhs), group_right(*rhs)),
            _ => Node::BinaryExpr { op, lhs, rhs },
        },
        other => other,
    }
}

} // verus!
