use vstd::prelude::*;
use vstd::pervasive::unreached;
use crate::cnf::{group_right, node_to_cnf};
use crate::nnf::node_to_nnf;
use crate::node::Node;
use crate::order::{
    lemma_letters_in_order, lemma_values_in_order, letters_in_order, values_in_order,
};
use crate::parser::{lemma_parse_rpn, letter_set, parse};
use crate::tree::{all_fresh, all_values, lemma_names_bound, Tree};
use crate::variable::{all_false, assignment, bound_set, bound_value, names_of, Variable};

verus! {

/// The cell of the letter `name` with the set `set`, its value false.
pub open spec fn set_cell(name: char, set: Vec<i32>) -> Variable {
    Variable { name, value: false, set: Some(set) }
}

/// The symbol table that gives the `j`-th of `names` the `j`-th of `sets`.
pub open spec fn set_table(names: Seq<char>, sets: Seq<Vec<i32>>) -> Seq<Variable> {
    Seq::new(names.len(), |j: int| set_cell(names[j], sets[j]))
}

/// A fresh symbol table makes every letter false.
pub proof fn lemma_fresh_is_false(variables: Seq<Variable>, name: char)
    requires
        all_fresh(variables),
    ensures
        !bound_value(variables, name),
    decreases variables.len(),
{
    if variables.len() > 0 {
        let rest = variables.drop_first();
        assert forall|i: int| 0 <= i < rest.len() implies !(#[trigger] rest[i]).value
            && rest[i].set is None by {
            assert(rest[i] == variables[i + 1]);
        }
        lemma_fresh_is_false(rest, name);
    }
}

/// A symbol table in which every cell has a set gives a set to each of its
/// letters.
pub proof fn lemma_bound_set(variables: Seq<Variable>, name: char)
    requires
        forall|j: int| 0 <= j < variables.len() ==> (#[trigger] variables[j]).set is Some,
        names_of(variables).contains(name),
    ensures
        bound_set(variables, name) is Some,
    decreases variables.len(),
{
    let names = names_of(variables);
    let j = choose|j: int| 0 <= j < names.len() && names[j] == name;
    if variables[0].name != name {
        let rest = variables.drop_first();
        assert(names_of(rest)[j - 1] == name);
        assert forall|i: int| 0 <= i < rest.len() implies (#[trigger] rest[i]).set is Some by {
            assert(rest[i] == variables[i + 1]);
        }
        lemma_bound_set(rest, name);
    }
}

/// A formula in negation normal form can be read over sets as soon as each
/// of its letters has one.
pub proof fn lemma_set_evaluable(node: Node, variables: Seq<Variable>)
    requires
        node.is_nnf(),
        forall|name: char| #[trigger]
            node.letters().contains(name) ==> bound_set(variables, name) is Some,
    ensures
        node.set_evaluable(variables),
    decreases node,
{
    reveal_with_fuel(Node::set_evaluable, 2);
    match node {
        Node::Variable(name) => {
            assert(node.letters().contains(name));
        },
        Node::Constant(_) => {},
        Node::UnaryExpr { op, child } => {
            assert(node.letters() == child.letters());
            match *child {
                Node::Variable(name) => {
                    assert(child.letters().contains(name));
                },
                _ => {},
            }
        },
        Node::BinaryExpr { op, lhs, rhs } => {
            assert forall|name: char| #[trigger] lhs.letters().contains(name) implies bound_set(
                variables,
                name,
            ) is Some by {
                assert(node.letters().contains(name));
            }
            assert forall|name: char| #[trigger] rhs.letters().contains(name) implies bound_set(
                variables,
                name,
            ) is Some by {
                assert(node.letters().contains(name));
            }
            lemma_set_evaluable(*lhs, variables);
            lemma_set_evaluable(*rhs, variables);
        },
    }
}

/// Evaluates a formula in postfix notation, every letter counting as false.
pub fn eval_formula(formula: &str) -> (r: bool)
    requires
        parse(formula@) is Ok,
    ensures
        r == parse(formula@)->Ok_0.spec_eval(all_false()),
{
    match Tree::from_str(formula) {
        Ok(tree) => {
            proof {
                assert forall|name: char| #[trigger]
                    tree.root.letters().contains(name) implies assignment(tree.variable_list@)(
                    name,
                ) == false by {
                    lemma_fresh_is_false(tree.variable_list@, name);
                }
                tree.root.lemma_eval_agree(assignment(tree.variable_list@), all_false());
            }
            tree.root.eval_ref(&tree.variable_list)
        },
        Err(_) => unreached(),
    }
}

/// The negation normal form of a formula in postfix notation, in postfix
/// notation.
pub fn negation_normal_form(formula: &str) -> (r: String)
    requires
        parse(formula@) is Ok,
    ensures
        r@ == parse(formula@)->Ok_0.nnf().rpn(),
{
    match Tree::from_str(formula) {
        Ok(tree) => node_to_nnf(tree.root).to_rpn(),
        Err(_) => unreached(),
    }
}

/// The conjunctive normal form of a formula in postfix notation, in postfix
/// notation, with the connectives of every run of conjunctions or
/// disjunctions at the end of the run.
pub fn conjunctive_normal_form(formula: &str) -> (r: String)
    requires
        parse(formula@) is Ok,
    ensures
        r@ == parse(formula@)->Ok_0.cnf().right_grouped().rpn(),
{
    match Tree::from_str(formula) {
        Ok(tree) => group_right(node_to_cnf(tree.root)).to_rpn(),
        Err(_) => unreached(),
    }
}

/// Whether some assignment makes a formula in postfix notation true.
pub fn sat(formula: &str) -> (r: bool)
    requires
        parse(formula@) is Ok,
    ensures
        r == parse(formula@)->Ok_0.satisfiable(),
{
    match Tree::from_str(formula) {
        Ok(tree) => tree.sat(),
        Err(_) => unreached(),
    }
}

/// Evaluates a formula in postfix notation over sets: the `j`-th set is
/// that of the `j`-th letter of the formula in alphabetical order. The
/// formula is brought into conjunctive normal form and read with
/// intersection, union and complement; a complement is taken in the
/// universe of all the values given.
pub fn eval_set(formula: &str, sets: Vec<Vec<i32>>) -> (r: Vec<i32>)
    requires
        parse(formula@) is Ok,
        letter_set(formula@).len() > 0 ==> sets.len() == letter_set(formula@).len(),
    ensures
        r@ == parse(formula@)->Ok_0.cnf().spec_sets(
            set_table(letters_in_order(letter_set(formula@)), sets@),
        ).resolve(
            if letter_set(formula@).len() > 0 {
                values_in_order(all_values(sets@))
            } else {
                Seq::empty()
            },
        ),
{
    match Tree::from_str(formula) {
        Ok(tree) => {
            let mut tree = tree;
            let ghost parsed = tree;
            let ghost names = tree.names();
            proof {
                lemma_parse_rpn(formula@);
                lemma_names_bound(names);
                names.unique_seq_to_set();
                lemma_letters_in_order(names);
            }
            tree.assign_sets(sets);
            let root = node_to_cnf(tree.root);
            let tree = Tree { root, variable_list: tree.variable_list, universe: tree.universe };
            proof {
                let table = tree.variable_list@;
                if names.len() > 0 {
                    lemma_values_in_order(tree.universe@);
                    assert forall|j: int| 0 <= j < table.len() implies table[j] == set_table(
                        names,
                        sets@,
                    )[j] by {
                        assert(table[j].name == names[j]);
                        assert(!parsed.variable_list[j].value);
                        assert(table[j].value == parsed.variable_list[j].value);
                        assert(table[j].set == Some(sets@[j]));
                    }
                }
                assert(table =~= set_table(names, sets@));
                assert forall|name: char| #[trigger]
                    root.letters().contains(name) implies bound_set(
                    tree.variable_list@,
                    name,
                ) is Some by {
                    lemma_bound_set(tree.variable_list@, name);
                }
                root.lemma_cnf_fixed();
                lemma_set_evaluable(root, tree.variable_list@);
            }
            tree.evaluate_sets()
        },
        Err(_) => unreached(),
    }
}

} // verus!
