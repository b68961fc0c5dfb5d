use vstd::prelude::*;
use vstd::arithmetic::div_mod::lemma_div_denominator;
use vstd::arithmetic::power2::{lemma2_to64, lemma_pow2_pos, lemma_pow2_unfold, pow2};
use vstd::bits::{lemma_u32_pow2_no_overflow, lemma_u32_shl_is_mul, lemma_u32_shr_is_div};
use crate::variable::{bound_value, names_of, Variable};

verus! {

/// Bit `j` of `mask`, bit 0 being the lowest.
pub open spec fn bit(mask: nat, j: nat) -> bool {
    (mask / pow2(j)) % 2 == 1
}

/// The assignment with number `mask` over the letters `names`: the letter
/// at place `j` is true exactly when bit `j` of `mask` is set, and a letter
/// that is not among `names` is false.
pub open spec fn mask_assignment(names: Seq<char>, mask: nat) -> spec_fn(char) -> bool {
    |name: char| exists|j: int| 0 <= j < names.len() && names[j] == name && bit(mask, j as nat)
}

/// The number of the assignment `env` over the letters `names`: the sum of
/// `2^j` over the places `j` whose letter `env` makes true.
pub open spec fn mask_of(names: Seq<char>, env: spec_fn(char) -> bool) -> nat
    decreases names.len(),
{
    if names.len() == 0 {
        0
    } else {
        (if env(names[0]) {
            1nat
        } else {
            0nat
        }) + 2 * mask_of(names.drop_first(), env)
    }
}

/// Bit `j + 1` of a number is bit `j` of its half.
pub proof fn lemma_bit_of_half(mask: nat, j: nat)
    ensures
        bit(mask, j + 1) == bit(mask / 2, j),
        bit(mask, 0) == (mask % 2 == 1),
{
    lemma_pow2_pos(j);
    lemma_pow2_unfold(j + 1);
    lemma_div_denominator(mask as int, 2, pow2(j) as int);
    lemma2_to64();
}

/// Every assignment has a number below `2^n`, `n` being the number of
/// letters, whose bits are the values that it gives to the letters.
pub proof fn lemma_mask_of(names: Seq<char>, env: spec_fn(char) -> bool)
    ensures
        mask_of(names, env) < pow2(names.len()),
        forall|j: int|
            0 <= j < names.len() ==> bit(mask_of(names, env), j as nat) == env(#[trigger] names[j]),
    decreases names.len(),
{
    lemma2_to64();
    if names.len() > 0 {
        let rest = names.drop_first();
        lemma_mask_of(rest, env);
        lemma_pow2_unfold(names.len());
        let low: nat = if env(names[0]) {
            1
        } else {
            0
        };
        let mask = mask_of(names, env);
        assert forall|j: int| 0 <= j < names.len() implies bit(mask, j as nat) == env(
            #[trigger] names[j],
        ) by {
            if j == 0 {
                lemma_bit_of_half(mask, 0);
            } else {
                lemma_bit_of_half(mask, (j - 1) as nat);
                assert(rest[j - 1] == names[j]);
            }
        }
    }
}

/// What a symbol table whose values are the bits of `mask` gives to a
/// letter is what the assignment with number `mask` gives to it.
pub proof fn lemma_mask_assignment(variables: Seq<Variable>, mask: nat, name: char)
    requires
        forall|i: int, j: int|
            0 <= i < j < variables.len() ==> variables[i].name != variables[j].name,
        forall|j: int| 0 <= j < variables.len() ==> variables[j].value == bit(mask, j as nat),
    ensures
        bound_value(variables, name) == mask_assignment(names_of(variables), mask)(name),
{
    let names = names_of(variables);
    lemma_bound_value(variables, name);
    if exists|j: int| 0 <= j < variables.len() && variables[j].name == name {
        let j = choose|j: int| 0 <= j < variables.len() && variables[j].name == name;
        assert(names[j] == name);
        if mask_assignment(names, mask)(name) {
            let k = choose|k: int| 0 <= k < names.len() && names[k] == name && bit(mask, k as nat);
            assert(k == j);
        }
    }
}

/// A symbol table without repeated names gives a letter the value of its
/// cell, and false when it has none.
pub proof fn lemma_bound_value(variables: Seq<Variable>, name: char)
    requires
        forall|i: int, j: int|
            0 <= i < j < variables.len() ==> variables[i].name != variables[j].name,
    ensures
        forall|j: int|
            0 <= j < variables.len() && (#[trigger] variables[j]).name == name ==> bound_value(
                variables,
                name,
            ) == variables[j].value,
        (forall|j: int| 0 <= j < variables.len() ==> (#[trigger] variables[j]).name != name)
            ==> !bound_value(variables, name),
    decreases variables.len(),
{
    if variables.len() > 0 {
        let rest = variables.drop_first();
        lemma_bound_value(rest, name);
        assert forall|j: int| 0 <= j < variables.len() && (#[trigger] variables[j]).name
            == name implies bound_value(variables, name) == variables[j].value by {
            if j > 0 {
                assert(rest[j - 1] == variables[j]);
            }
        }
        if forall|j: int| 0 <= j < variables.len() ==> (#[trigger] variables[j]).name != name {
            assert forall|j: int| 0 <= j < rest.len() implies (#[trigger] rest[j]).name
                != name by {
                assert(rest[j] == variables[j + 1]);
            }
        }
    }
}

/// The number of assignments over `n` letters.
pub fn assignment_count(n: usize) -> (r: u32)
    requires
        n < 32,
    ensures
        r == pow2(n as nat),
{
    proof {
        lemma_u32_pow2_no_overflow(n as nat);
        lemma_u32_shl_is_mul(1, n as u32);
    }
    1u32 << (n as u32)
}

/// Whether bit `j` of `mask` is set.
pub fn bit_is_set(mask: u32, j: usize) -> (r: bool)
    requires
        j < 32,
    ensures
        r == bit(mask as nat, j as nat),
{
    let shifted = mask >> (j as u32);
    proof {
        lemma_u32_shr_is_div(mask, j as u32);
        assert(shifted & 1 == shifted % 2) by (bit_vector);
    }
    (shifted & 1) == 1
}

/// Gives the cell at each place `j` bit `j` of `mask` as its value, and
/// leaves names and sets as they are.
pub fn assign_mask(variables: &mut Vec<Variable>, mask: u32)
    requires
        old(variables).len() <= 32,
    ensures
        final(variables).len() == old(variables).len(),
        forall|j: int|
            0 <= j < old(variables).len() ==> {
                &&& (#[trigger] final(variables)[j]).name == old(variables)[j].name
                &&& final(variables)[j].set == old(variables)[j].set
                &&& final(variables)[j].value == bit(mask as nat, j as nat)
            },
{
    let mut j: usize = 0;
    while j < variables.len()
        invariant
            j <= variables.len(),
            variables.len() == old(variables).len(),
            variables.len() <= 32,
            forall|k: int|
                0 <= k < variables.len() ==> {
                    &&& (#[trigger] variables[k]).name == old(variables)[k].name
                    &&& variables[k].set == old(variables)[k].set
                },
            forall|k: int|
                0 <= k < j ==> (#[trigger] variables[k]).value == bit(mask as nat, k as nat),
        decreases variables.len() - j,
    {
        variables[j].value = bit_is_set(mask, j);
        j += 1;
    }
}

} // verus!
