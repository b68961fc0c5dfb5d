use vstd::prelude::*;
use vstd::arithmetic::power2::pow2;
use crate::enumeration::{
    assign_mask, assignment_count, bit, lemma_mask_assignment, lemma_mask_of, mask_assignment,
    mask_of,
};
use crate::node::Node;
use crate::operator::Operator;
use crate::order::{ascending, lemma_letters_in_order, letters_in_order, strictly_increasing};
use crate::parser::{
    is_letter, lemma_letter_set_push, lemma_parse_rpn, letter_set, parse, push_tokens, ParseError,
};
use crate::set::filtered;
use crate::variable::{assignment, names_of, Variable};

verus! {

/// Whether every name is one of `A`–`Z`.
pub open spec fn all_letters(names: Seq<char>) -> bool {
    forall|i: int| 0 <= i < names.len() ==> is_letter(#[trigger] names[i])
}

/// Whether no cell has been given a value or a set yet.
pub open spec fn all_fresh(variables: Seq<Variable>) -> bool {
    forall|i: int|
        0 <= i < variables.len() ==> !(#[trigger] variables[i]).value && variables[i].set is None
}

/// A parsed formula: the expression tree, the symbol table with one cell
/// for each letter of the formula in alphabetical order, and the universe
/// that complements are taken in: the values of all assigned sets, each once,
/// in ascending order, and empty until sets are assigned.
#[derive(Debug)]
pub struct Tree {
    pub root: Node,
    pub variable_list: Vec<Variable>,
    pub universe: Vec<i32>,
}

impl Clone for Tree {
    fn clone(&self) -> (r: Self)
        ensures
            r.root == self.root,
            r.universe@ == self.universe@,
            r.variable_list.len() == self.variable_list.len(),
            forall|i: int|
                0 <= i < self.variable_list.len() ==> {
                    &&& (#[trigger] r.variable_list[i]).name == self.variable_list[i].name
                    &&& r.variable_list[i].value == self.variable_list[i].value
                    &&& r.variable_list[i].set is Some == self.variable_list[i].set is Some
                    &&& r.variable_list[i].set is Some ==> r.variable_list[i].set->0@
                        == self.variable_list[i].set->0@
                },
    {
        let mut variable_list: Vec<Variable> = Vec::new();
        let mut i: usize = 0;
        while i < self.variable_list.len()
            invariant
                i <= self.variable_list.len(),
                variable_list.len() == i,
                forall|k: int|
                    0 <= k < i ==> {
                        &&& (#[trigger] variable_list[k]).name == self.variable_list[k].name
                        &&& variable_list[k].value == self.variable_list[k].value
                        &&& variable_list[k].set is Some == self.variable_list[k].set is Some
                        &&& variable_list[k].set is Some ==> variable_list[k].set->0@
                            == self.variable_list[k].set->0@
                    },
            decreases self.variable_list.len() - i,
        {
            variable_list.push(self.variable_list[i].clone());
            i += 1;
        }
        let universe = self.universe.clone();
        Tree { root: self.root.clone(), variable_list, universe }
    }
}

impl Tree {
    /// The letters of the symbol table, in its order.
    pub open spec fn names(self) -> Seq<char> {
        names_of(self.variable_list@)
    }

    /// The formula is well formed, the symbol table holds letters in
    /// strictly ascending order, and every letter of the formula has its
    /// cell.
    pub open spec fn well_formed(self) -> bool {
        &&& self.root.well_formed()
        &&& strictly_increasing(self.names())
        &&& all_letters(self.names())
        &&& self.root.letters().subset_of(self.names().to_set())
    }

    /// Whether the assignment with number `mask` over the letters of the
    /// symbol table makes the formula true.
    pub open spec fn satisfied_by(self, mask: nat) -> bool {
        self.root.spec_eval(mask_assignment(self.names(), mask))
    }

    /// Whether one of the `2^n` assignments over the `n` letters of the
    /// symbol table makes the formula true.
    pub open spec fn has_satisfying_mask(self) -> bool {
        exists|mask: nat| mask < pow2(self.names().len()) && #[trigger] self.satisfied_by(mask)
    }

    /// To try the `2^n` assignments over the letters of the symbol table is
    /// to try every assignment: one of them makes the formula true exactly
    /// when the formula is satisfiable.
    pub proof fn lemma_enumeration_complete(self)
        requires
            self.well_formed(),
        ensures
            self.has_satisfying_mask() == self.root.satisfiable(),
    {
        let names = self.names();
        if self.root.satisfiable() {
            let env = choose|env: spec_fn(char) -> bool| self.root.spec_eval(env);
            let mask = mask_of(names, env);
            lemma_mask_of(names, env);
            assert forall|name: char| #[trigger]
                self.root.letters().contains(name) implies mask_assignment(names, mask)(name)
                == env(name) by {
                let j = choose|j: int| 0 <= j < names.len() && names[j] == name;
                if mask_assignment(names, mask)(name) {
                    let k = choose|k: int|
                        0 <= k < names.len() && names[k] == name && bit(mask, k as nat);
                    assert(k == j) by {
                        if k < j {
                            assert(names[k] < names[j]);
                        }
                        if j < k {
                            assert(names[j] < names[k]);
                        }
                    }
                }
            }
            self.root.lemma_eval_agree(mask_assignment(names, mask), env);
            assert(self.satisfied_by(mask));
        }
        if self.has_satisfying_mask() {
            let mask = choose|mask: nat|
                mask < pow2(self.names().len()) && #[trigger] self.satisfied_by(mask);
            assert(self.root.spec_eval(mask_assignment(names, mask)));
        }
    }

    /// Decides satisfiability by brute force: tries the assignments over
    /// the `n` letters of the symbol table by their numbers `0` to `2^n - 1`,
    /// in ascending order, and stops at the first that makes the formula
    /// true. A formula without letters is evaluated as it stands.
    pub fn sat(self) -> (r: bool)
        requires
            self.well_formed(),
        ensures
            r == self.has_satisfying_mask(),
            r == self.root.satisfiable(),
    {
        proof {
            self.lemma_enumeration_complete();
            lemma_names_bound(self.names());
        }
        let mut variables = self.variable_list;
        let limit = assignment_count(variables.len());
        let mut mask: u32 = 0;
        while mask < limit
            invariant
                mask <= limit,
                limit == pow2(self.names().len()),
                variables.len() <= 26,
                names_of(variables@) == self.names(),
                self.well_formed(),
                forall|m: nat| m < mask ==> !#[trigger] self.satisfied_by(m),
            decreases limit - mask,
        {
            assign_mask(&mut variables, mask);
            proof {
                assert(names_of(variables@) =~= self.names());
                lemma_table_assignment(self.root, variables@, mask as nat);
            }
            if self.root.eval_ref(&variables) {
                assert(self.satisfied_by(mask as nat));
                return true;
            }
            mask += 1;
        }
        false
    }

    /// Assigns a set to each variable, the `j`-th set to the `j`-th letter of
    /// the symbol table, and makes the universe the values of all the sets,
    /// each once, in ascending order. A tree without variables is left as it
    /// is.
    pub fn assign_sets(&mut self, sets: Vec<Vec<i32>>)
        requires
            old(self).variable_list.len() > 0 ==> sets.len() == old(self).variable_list.len(),
        ensures
            final(self).root == old(self).root,
            final(self).names() == old(self).names(),
            old(self).variable_list.len() == 0 ==> *final(self) == *old(self),
            old(self).variable_list.len() > 0 ==> {
                &&& final(self).variable_list.len() == sets.len()
                &&& forall|j: int|
                    0 <= j < sets.len() ==> {
                        &&& (#[trigger] final(self).variable_list[j]).value
                            == old(self).variable_list[j].value
                        &&& final(self).variable_list[j].set == Some(sets[j])
                    }
                &&& ascending(final(self).universe@)
                &&& final(self).universe@.to_set() == all_values(sets@)
            },
    {
        if self.variable_list.len() == 0 {
            return ;
        }
        let mut universe: Vec<i32> = Vec::new();
        let mut i: usize = 0;
        while i < sets.len()
            invariant
                i <= sets.len(),
                ascending(universe@),
                universe@.to_set() == all_values(sets@.take(i as int)),
            decreases sets.len() - i,
        {
            let set = &sets[i];
            let mut k: usize = 0;
            while k < set.len()
                invariant
                    k <= set.len(),
                    i < sets.len(),
                    set == &sets[i as int],
                    ascending(universe@),
                    universe@.to_set() == all_values(sets@.take(i as int)).union(
                        set@.take(k as int).to_set(),
                    ),
                decreases set.len() - k,
            {
                insert_value(&mut universe, set[k]);
                proof {
                    assert(set@.take(k + 1) =~= set@.take(k as int).push(set[k as int]));
                    set@.take(k as int).lemma_push_to_set_commute(set[k as int]);
                }
                k += 1;
            }
            proof {
                assert(set@.take(k as int) =~= set@);
                lemma_all_values_push(sets@.take(i as int), sets[i as int]);
                assert(sets@.take(i + 1) =~= sets@.take(i as int).push(sets[i as int]));
            }
            i += 1;
        }
        self.universe = universe;
        let ghost given = sets@;
        let mut sets = sets;
        while sets.len() > 0
            invariant
                sets.len() <= given.len() == self.variable_list.len(),
                sets@ == given.take(sets.len() as int),
                self.root == old(self).root,
                self.names() == old(self).names(),
                self.universe == universe,
                forall|j: int|
                    0 <= j < given.len() ==> (#[trigger] self.variable_list[j]).value == old(
                        self,
                    ).variable_list[j].value,
                forall|j: int|
                    sets.len() <= j < given.len() ==> (#[trigger] self.variable_list[j]).set
                        == Some(given[j]),
            decreases sets.len(),
        {
            let set = sets.pop().unwrap();
            let j = sets.len();
            self.variable_list[j].set = Some(set);
        }
    }

    /// Evaluates the formula over the sets assigned to its variables and
    /// returns the result as an explicit list: the values of the result, or,
    /// where the result is a complement, the values of the universe that it
    /// does not exclude.
    pub fn evaluate_sets(self) -> (r: Vec<i32>)
        requires
            self.root.set_evaluable(self.variable_list@),
        ensures
            r@ == self.root.spec_sets(self.variable_list@).resolve(self.universe@),
    {
        let ret = self.root.compute_sets(&self.variable_list);
        if ret.is_complement {
            filtered(&self.universe, &ret.values, false)
        } else {
            ret.values
        }
    }

    /// Reads a formula in postfix notation over `A`–`Z`, `0`, `1`, `!`, `&`,
    /// `|`, `^`, `>` and `=`, one character per token.
    ///
    /// On success the tree holds the formula that `parse` gives, which
    /// written back in postfix notation is the text, and a fresh cell for
    /// each of its letters.
    pub fn from_str(s: &str) -> (r: Result<Tree, ParseError>)
        ensures
            match r {
                Ok(tree) => {
                    &&& parse(s@) == Ok::<Node, ParseError>(tree.root)
                    &&& tree.root.rpn() == s@
                    &&& tree.well_formed()
                    &&& tree.names() == letters_in_order(letter_set(s@))
                    &&& tree.names().to_set() == letter_set(s@)
                    &&& tree.root.letters() == letter_set(s@)
                    &&& all_fresh(tree.variable_list@)
                    &&& tree.universe@ == Seq::<i32>::empty()
                },
                Err(e) => parse(s@) == Err::<Node, ParseError>(e),
            },
    {
        broadcast use vstd::string::group_string_axioms;

        if s.is_empty() {
            return Err(ParseError::EmptyInput);
        }
        let mut stack: Vec<Node> = Vec::new();
        let mut variables: Vec<Variable> = Vec::new();
        proof {
            assert(s@.skip(0) =~= s@);
        }
        for token in iter: s.chars()
            invariant
                iter.seq() == s@,
                push_tokens(stack@, s@.skip(iter.index())) == push_tokens(Seq::empty(), s@),
                strictly_increasing(names_of(variables@)),
                all_letters(names_of(variables@)),
                all_fresh(variables@),
                names_of(variables@).to_set() == letter_set(s@.take(iter.index())),
        {
            let ghost at = iter.index();
            proof {
                let rest = s@.skip(at);
                assert(rest.drop_first() =~= s@.skip(at + 1));
                lemma_letter_set_push(s@.take(at), token);
                assert(s@.take(at + 1) =~= s@.take(at).push(token));
            }
            if 'A' <= token && token <= 'Z' {
                insert_variable(&mut variables, token);
                stack.push(Node::Variable(token));
            } else if token == '1' {
                stack.push(Node::Constant(true));
            } else if token == '0' {
                stack.push(Node::Constant(false));
            } else {
                match Operator::from_symbol(token) {
                    None => {
                        return Err(ParseError::InvalidToken);
                    },
                    Some(Operator::Not) => match stack.pop() {
                        None => {
                            return Err(ParseError::InsufficientOperands);
                        },
                        Some(child) => {
                            stack.push(child.not());
                        },
                    },
                    Some(op) => {
                        if stack.len() < 2 {
                            return Err(ParseError::InsufficientOperands);
                        }
                        let ghost before = stack@;
                        let rhs = stack.pop().unwrap();
                        let lhs = stack.pop().unwrap();
                        assert(stack@ =~= before.take(before.len() - 2));
                        stack.push(Node::BinaryExpr { op, lhs: Box::new(lhs), rhs: Box::new(rhs) });
                    },
                }
            }
        }
        proof {
            assert(s@.skip(s@.len() as int) =~= Seq::<char>::empty());
        }
        if stack.len() != 1 {
            return Err(ParseError::TrailingOperands);
        }
        let root = stack.pop().unwrap();
        proof {
            lemma_parse_rpn(s@);
            lemma_letters_in_order(names_of(variables@));
        }
        Ok(Tree { root, variable_list: variables, universe: Vec::new() })
    }
}

impl std::str::FromStr for Tree {
    type Err = ParseError;

    /// Reads a formula in postfix notation, as `Tree::from_str` does.
    fn from_str(s: &str) -> (r: Result<Tree, ParseError>)
        ensures
            match r {
                Ok(tree) => {
                    &&& parse(s@) == Ok::<Node, ParseError>(tree.root)
                    &&& tree.root.rpn() == s@
                    &&& tree.well_formed()
                    &&& tree.names() == letters_in_order(letter_set(s@))
                    &&& tree.names().to_set() == letter_set(s@)
                    &&& tree.root.letters() == letter_set(s@)
                    &&& all_fresh(tree.variable_list@)
                    &&& tree.universe@ == Seq::<i32>::empty()
                },
                Err(e) => parse(s@) == Err::<Node, ParseError>(e),
            },
    {
        Tree::from_str(s)
    }
}

/// The values that occur in one of the sets.
pub open spec fn all_values(sets: Seq<Vec<i32>>) -> Set<i32> {
    Set::new(|x: i32| exists|j: int| 0 <= j < sets.len() && (#[trigger] sets[j])@.contains(x))
}

/// The values of some sets and one more set.
proof fn lemma_all_values_push(sets: Seq<Vec<i32>>, set: Vec<i32>)
    ensures
        all_values(sets.push(set)) == all_values(sets).union(set@.to_set()),
{
    let longer = sets.push(set);
    assert forall|x: i32| all_values(longer).contains(x) == (all_values(sets).contains(x)
        || set@.contains(x)) by {
        if all_values(sets).contains(x) {
            let j = choose|j: int| 0 <= j < sets.len() && (#[trigger] sets[j])@.contains(x);
            assert(longer[j]@.contains(x));
        }
        if set@.contains(x) {
            assert(longer[sets.len() as int]@.contains(x));
        }
    }
}

/// Puts `x` at its place in an ascending list, unless it is there already.
fn insert_value(values: &mut Vec<i32>, x: i32)
    requires
        ascending(old(values)@),
    ensures
        ascending(final(values)@),
        final(values)@.to_set() == old(values)@.to_set().insert(x),
{
    let ghost before = values@;
    let mut i: usize = 0;
    while i < values.len() && values[i] < x
        invariant
            i <= values.len(),
            values@ == before,
            forall|k: int| 0 <= k < i ==> before[k] < x,
        decreases values.len() - i,
    {
        i += 1;
    }
    if i < values.len() && values[i] == x {
        assert(before.to_set() =~= before.to_set().insert(x));
    } else {
        values.insert(i, x);
        proof {
            let after = values@;
            assert forall|a: int, b: int| 0 <= a < b < after.len() implies after[a] < after[b] by {
                if a < i && b > i {
                    if b - 1 > i {
                        assert(before[i as int] < before[b - 1]);
                    }
                } else if a == i {
                    if b - 1 > i {
                        assert(before[i as int] < before[b - 1]);
                    }
                } else if b < i {
                    assert(before[a] < before[b]);
                } else if a > i {
                    assert(before[a - 1] < before[b - 1]);
                }
            }
            assert forall|y: i32| after.contains(y) == (before.contains(y) || y == x) by {
                if before.contains(y) {
                    let k = choose|k: int| 0 <= k < before.len() && before[k] == y;
                    if k < i {
                        assert(after[k] == y);
                    } else {
                        assert(after[k + 1] == y);
                    }
                }
                if y == x {
                    assert(after[i as int] == y);
                }
                if after.contains(y) {
                    let k = choose|k: int| 0 <= k < after.len() && after[k] == y;
                    if k < i {
                        assert(before[k] == y);
                    } else if k > i {
                        assert(before[k - 1] == y);
                    }
                }
            }
        }
    }
}

/// Letters in strictly ascending order are at most 26.
pub proof fn lemma_names_bound(names: Seq<char>)
    requires
        strictly_increasing(names),
        all_letters(names),
    ensures
        names.len() <= 26,
        names.no_duplicates(),
{
    assert forall|i: int| 0 <= i < names.len() implies names[i] as int >= 'A' as int + i by {
        lemma_names_lower(names, i);
    }
    if names.len() > 26 {
        assert(is_letter(names[26]));
    }
}

/// The letter at place `i` of a strictly ascending run of letters is at
/// least the `i`-th letter after `A`.
proof fn lemma_names_lower(names: Seq<char>, i: int)
    requires
        strictly_increasing(names),
        all_letters(names),
        0 <= i < names.len(),
    ensures
        names[i] as int >= 'A' as int + i,
    decreases i,
{
    if i > 0 {
        lemma_names_lower(names, i - 1);
    } else {
        assert(is_letter(names[0]));
    }
}

/// With the bits of `mask` as the values of a symbol table without repeated
/// names, a formula has the truth value that the assignment with number
/// `mask` gives to it.
pub proof fn lemma_table_assignment(node: Node, variables: Seq<Variable>, mask: nat)
    requires
        strictly_increasing(names_of(variables)),
        forall|j: int| 0 <= j < variables.len() ==> variables[j].value == bit(mask, j as nat),
    ensures
        node.spec_eval(assignment(variables)) == node.spec_eval(
            mask_assignment(names_of(variables), mask),
        ),
{
    let names = names_of(variables);
    assert forall|i: int, j: int| 0 <= i < j < variables.len() implies variables[i].name
        != variables[j].name by {
        assert(names[i] < names[j]);
    }
    assert forall|name: char| #[trigger]
        node.letters().contains(name) implies assignment(variables)(name) == mask_assignment(
        names,
        mask,
    )(name) by {
        lemma_mask_assignment(variables, mask, name);
    }
    node.lemma_eval_agree(assignment(variables), mask_assignment(names, mask));
}

/// Gives the letter `name` a fresh cell at its alphabetical place, unless
/// it has one already.
fn insert_variable(variables: &mut Vec<Variable>, name: char)
    requires
        strictly_increasing(names_of(old(variables)@)),
    ensures
        strictly_increasing(names_of(final(variables)@)),
        names_of(final(variables)@).to_set() == names_of(old(variables)@).to_set().insert(name),
        all_fresh(old(variables)@) ==> all_fresh(final(variables)@),
        all_letters(names_of(old(variables)@)) && is_letter(name) ==> all_letters(
            names_of(final(variables)@),
        ),
{
    let ghost before = variables@;
    let mut i: usize = 0;
    while i < variables.len() && variables[i].name < name
        invariant
            i <= variables.len(),
            variables@ == before,
            forall|k: int| 0 <= k < i ==> before[k].name < name,
        decreases variables.len() - i,
    {
        i += 1;
    }
    let ghost old_names = names_of(before);
    if i < variables.len() && variables[i].name == name {
        proof {
            assert(old_names[i as int] == name);
        }
    } else {
        variables.insert(i, Variable::new(name));
        proof {
            let new_names = names_of(variables@);
            assert forall|a: int, b: int| 0 <= a < b < new_names.len() implies new_names[a]
                < new_names[b] by {
                if a < i && b > i {
                    if b - 1 > i {
                        assert(old_names[i as int] < old_names[b - 1]);
                    }
                } else if a < i && b == i {
                    assert(old_names[a] < name);
                } else if a == i {
                    if b - 1 > i {
                        assert(old_names[i as int] < old_names[b - 1]);
                    }
                } else if b < i {
                    assert(old_names[a] < old_names[b]);
                } else {
                    assert(old_names[a - 1] < old_names[b - 1]);
                }
            }
            assert forall|c: char| new_names.contains(c) == (old_names.contains(c) || c
                == name) by {
                if old_names.contains(c) {
                    let k = choose|k: int| 0 <= k < old_names.len() && old_names[k] == c;
                    if k < i {
                        assert(new_names[k] == c);
                    } else {
                        assert(new_names[k + 1] == c);
                    }
                }
                if c == name {
                    assert(new_names[i as int] == c);
                }
                if new_names.contains(c) {
                    let k = choose|k: int| 0 <= k < new_names.len() && new_names[k] == c;
                    if k < i {
                        assert(old_names[k] == c);
                    } else if k > i {
                        assert(old_names[k - 1] == c);
                    }
                }
            }
            if all_fresh(before) {
                assert forall|k: int| 0 <= k < variables.len() implies !(
                #[trigger] variables[k]).value && variables[k].set is None by {
                    if k < i {
                        assert(variables[k] == before[k]);
                    } else if k > i {
                        assert(variables[k] == before[k - 1]);
                    }
                }
            }
            if all_letters(old_names) && is_letter(name) {
                assert forall|k: int| 0 <= k < new_names.len() implies is_letter(
                    #[trigger] new_names[k],
                ) by {
                    if k < i {
                        assert(new_names[k] == old_names[k]);
                    } else if k > i {
                        assert(new_names[k] == old_names[k - 1]);
                    }
                }
            }
        }
    }
}

} // verus!
