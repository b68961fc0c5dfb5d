use vstd::prelude::*;
use vstd::arithmetic::div_mod::{lemma_add_mod_noop, lemma_mul_mod_noop_general, lemma_small_mod};

verus! {

/// The lowest set bit of a number that is not zero.
pub open spec fn lowest_bit(b: u32) -> u32 {
    b & !((b - 1) as u32)
}

/// How far the carries of `b` can still travel: nothing for zero, and less
/// the higher the lowest set bit is.
pub open spec fn carry_room(b: u32) -> int {
    if b == 0 {
        0
    } else {
        0x1_0000_0000 - lowest_bit(b)
    }
}

/// The sum of two numbers modulo `2^32`, computed with `^`, `&` and `<<`
/// alone: the bits that differ, plus the carries one place up.
pub fn adder(a: u32, b: u32) -> (r: u32)
    ensures
        r == (a + b) % 0x1_0000_0000,
    decreases carry_room(b),
{
    let uncommon = a ^ b;
    let common = a & b;
    if common == 0 {
        assert(a ^ b == a + b) by (bit_vector)
            requires
                a & b == 0,
        ;
        return uncommon;
    }
    let carry = common << 1;
    proof {
        assert(b != 0 && (carry != 0 ==> lowest_bit(carry) > lowest_bit(b)) && lowest_bit(b)
            <= 0x8000_0000) by (bit_vector)
            requires
                common == a & b,
                common != 0,
                carry == common << 1,
        ;
        assert((uncommon + carry) % 0x1_0000_0000 == (a + b) % 0x1_0000_0000) by (bit_vector)
            requires
                uncommon == a ^ b,
                carry == (a & b) << 1,
        ;
    }
    adder(uncommon, carry)
}

/// The product of two numbers modulo `2^32`, by shifting and adding.
pub fn multiplier(a: u32, b: u32) -> (r: u32)
    ensures
        r == (a * b) % 0x1_0000_0000,
{
    if a == 0 || b == 0 {
        assert(a * b == 0) by (nonlinear_arith)
            requires
                a == 0 || b == 0,
        ;
        return 0;
    } else if a == 1 {
        return b;
    } else if b == 1 {
        return a;
    }
    let mut res: u32 = 0;
    let mut rest = if a >= b { a } else { b };
    let mut term = if a >= b { b } else { a };
    assert(rest * term == a * b) by (nonlinear_arith)
        requires
            rest == a && term == b || rest == b && term == a,
    ;
    while rest != 0
        invariant
            (res + rest * term) % 0x1_0000_0000 == (a * b) % 0x1_0000_0000,
        decreases rest,
    {
        let ghost before = res + rest * term;
        let odd = (rest & 1) != 0;
        let next = if odd { adder(res, term) } else { res };
        let shifted = term << 1;
        let half = rest >> 1;
        proof {
            assert(half == rest / 2 && odd == (rest % 2 == 1) && shifted == (2 * term)
                % 0x1_0000_0000) by (bit_vector)
                requires
                    half == rest >> 1,
                    odd == ((rest & 1) != 0),
                    shifted == term << 1,
            ;
            lemma_step(
                res as int,
                rest as int,
                term as int,
                next as int,
                half as int,
                shifted as int,
            );
        }
        res = next;
        term = shifted;
        rest = half;
    }
    proof {
        assert(rest * term == 0) by (nonlinear_arith)
            requires
                rest == 0,
        ;
        lemma_small_mod(res as nat, 0x1_0000_0000);
    }
    res
}

/// One round of shift-and-add keeps `res + rest * term` modulo `2^32`.
proof fn lemma_step(res: int, rest: int, term: int, next: int, half: int, shifted: int)
    requires
        0 <= res,
        0 <= rest,
        0 <= term,
        half == rest / 2,
        next == if rest % 2 == 1 {
            (res + term) % 0x1_0000_0000
        } else {
            res
        },
        shifted == (2 * term) % 0x1_0000_0000,
    ensures
        (next + half * shifted) % 0x1_0000_0000 == (res + rest * term) % 0x1_0000_0000,
{
    let m = 0x1_0000_0000int;
    let low: int = if rest % 2 == 1 {
        1
    } else {
        0
    };
    assert(rest * term == half * (2 * term) + low * term) by (nonlinear_arith)
        requires
            rest == 2 * half + low,
    ;
    // half * shifted ≡ half * (2 * term)
    lemma_mul_mod_noop_general(half, 2 * term, m);
    // next ≡ res + low * term
    assert(low * term == if low == 1 { term } else { 0 }) by (nonlinear_arith)
        requires
            low == 0 || low == 1,
    ;
    if low == 1 {
        lemma_add_mod_noop(res + term, 0, m);
    }
    assert(next % m == (res + low * term) % m) by {
        if low == 1 {
            lemma_small_mod(next as nat, m as nat);
        }
    }
    lemma_add_mod_noop(next, half * shifted, m);
    lemma_add_mod_noop(res + low * term, half * (2 * term), m);
}

/// The Gray code of a number: the number, exclusive-or its half.
pub fn gray_code(a: u32) -> (r: u32)
    ensures
        r == a ^ (a >> 1),
{
    a ^ (a >> 1)
}

/// The Gray codes of two consecutive numbers differ in exactly one bit.
pub proof fn lemma_gray_code_step(a: u32)
    by (bit_vector)
    requires
        a < 0xffff_ffff,
    ensures
        ({
            let change = (a ^ (a >> 1)) ^ (((a + 1) as u32) ^ (((a + 1) as u32) >> 1));
            change != 0 && change & ((change - 1) as u32) == 0
        }),
{
}

/// A number can be read back from its Gray code.
pub proof fn lemma_gray_code_inverse(a: u32)
    by (bit_vector)
    ensures
        ({
            let g = a ^ (a >> 1);
            let g = g ^ (g >> 1);
            let g = g ^ (g >> 2);
            let g = g ^ (g >> 4);
            let g = g ^ (g >> 8);
            let g = g ^ (g >> 16);
            g == a
        }),
{
}

} // verus!
