//! A propositional-logic engine over formulas in postfix notation.
//!
//! * [`operator`], [`variable`], [`node`]: connectives, the cells of a symbol
//!   table, and the expression tree with its evaluation over truth values
//!   and over sets.
//! * [`parser`], [`tree`]: the postfix grammar, and the parsed formula with
//!   its symbol table; satisfiability and the set reading of a formula.
//! * [`nnf`], [`cnf`]: negation normal form and conjunctive normal form.
//! * [`enumeration`], [`truth_table`]: the assignments of a formula by their
//!   numbers, and the table of its values under all of them.
//! * [`set`], [`order`]: finite and co-finite sets of integers, and
//!   sequences in ascending order.
//! * [`formula`]: the operations of the engine on formulas given as text.
//! * [`bits`], [`powerset`], [`hilbert`]: arithmetic with bitwise operations,
//!   subsets by bit masks, and the Hilbert curve.
//! * [`text`]: what `String::push` of the standard library is taken to do,
//!   the one statement in the crate that is believed and not proved.
//!
//! Every function states what it returns in its contract, over the
//! mathematical reading of its arguments: a formula's truth value under an
//! assignment, the set of integers that a stored set denotes, the sequence
//! of characters of a text.

pub mod bits;
pub mod cnf;
pub mod enumeration;
pub mod formula;
pub mod hilbert;
pub mod nnf;
pub mod node;
pub mod operator;
pub mod order;
pub mod parser;
pub mod powerset;
pub mod set;
pub mod text;
pub mod tree;
pub mod truth_table;
pub mod variable;
