use vstd::prelude::*;
use vstd::arithmetic::div_mod::{
    lemma_div_denominator, lemma_fundamental_div_mod_converse, lemma_hoist_over_denominator,
};

verus! {

/// The number of a quadrant along the curve: `(0, 0)` is 0, `(0, 1)` is 1,
/// `(1, 1)` is 2 and `(1, 0)` is 3.
pub open spec fn quadrant(rx: bool, ry: bool) -> nat {
    if rx {
        if ry {
            2
        } else {
            3
        }
    } else {
        if ry {
            1
        } else {
            0
        }
    }
}

/// A point turned into the frame of its quadrant: unchanged in the upper
/// quadrants; mirrored in the lower ones, and reflected first in the lower
/// right one.
pub open spec fn rotated(n: u16, x: u16, y: u16, rx: bool, ry: bool) -> (u16, u16) {
    if ry {
        (x, y)
    } else if rx {
        (n.wrapping_sub(1).wrapping_sub(y), n.wrapping_sub(1).wrapping_sub(x))
    } else {
        (y, x)
    }
}

/// The distance along the curve that the squares of side `s`, `s / 2`, ...,
/// `1` contribute for the point `(x, y)`: at each side, the number of the
/// quadrant that the point lies in times the area of one quadrant, the
/// point being turned into the frame of that quadrant for the next side.
pub open spec fn curve_index(x: u16, y: u16, s: u16) -> nat
    decreases s,
{
    if s == 0 {
        0
    } else {
        let rx = (x & s) != 0;
        let ry = (y & s) != 0;
        let turned = rotated(s, x, y, rx, ry);
        ((s * s) * quadrant(rx, ry) + curve_index(turned.0, turned.1, s / 2)) as nat
    }
}

/// The squares of side `s` and below contribute less than `4 s²`.
pub proof fn lemma_curve_index_bound(x: u16, y: u16, s: u16)
    requires
        s >= 1,
    ensures
        curve_index(x, y, s) <= 4 * (s * s) - 1,
    decreases s,
{
    let rx = (x & s) != 0;
    let ry = (y & s) != 0;
    let turned = rotated(s, x, y, rx, ry);
    let q = quadrant(rx, ry);
    let h = (s / 2) as u16;
    let area = s * s;
    assert(area * q <= 3 * area && area >= 1) by (nonlinear_arith)
        requires
            q <= 3,
            area == s * s,
            s >= 1,
    ;
    let rest = curve_index(turned.0, turned.1, h);
    if h >= 1 {
        lemma_curve_index_bound(turned.0, turned.1, h);
        assert(4 * (h * h) <= s * s) by (nonlinear_arith)
            requires
                h == s / 2,
                s >= 0,
        ;
    } else {
        assert(rest == 0);
    }
}

/// Turns a point into the frame of its quadrant.
pub fn rotate(n: u16, x: &mut u16, y: &mut u16, rx: bool, ry: bool)
    ensures
        (*final(x), *final(y)) == rotated(n, *old(x), *old(y), rx, ry),
{
    if !ry {
        if rx {
            *x = n.wrapping_sub(1).wrapping_sub(*x);
            *y = n.wrapping_sub(1).wrapping_sub(*y);
        }
        std::mem::swap(x, y);
    }
}

/// The distance of the point `(x, y)` along the Hilbert curve that fills the
/// square of side `2^16`.
pub fn inverse_hilbert_curve(x: u16, y: u16) -> (d: u32)
    ensures
        d == curve_index(x, y, 0x8000),
{
    let ghost total = curve_index(x, y, 0x8000);
    proof {
        lemma_curve_index_bound(x, y, 0x8000);
    }
    let mut x = x;
    let mut y = y;
    let mut d: u32 = 0;
    let mut s: u32 = 0x8000;
    while s > 0
        invariant
            s <= 0x8000,
            total <= u32::MAX,
            d + curve_index(x, y, s as u16) == total,
        decreases s,
    {
        let rx = (x & (s as u16)) != 0;
        let ry = (y & (s as u16)) != 0;
        let q: u32 = if rx {
            if ry {
                2
            } else {
                3
            }
        } else {
            if ry {
                1
            } else {
                0
            }
        };
        proof {
            assert(s * s <= 0x4000_0000 && s * s * q <= 3 * 0x4000_0000 && s * s * q >= 0)
                by (nonlinear_arith)
                requires
                    s <= 0x8000,
                    q <= 3,
            ;
            assert(s >> 1 == s / 2) by (bit_vector);
        }
        d += s * s * q;
        rotate(s as u16, &mut x, &mut y, rx, ry);
        s >>= 1;
    }
    d
}

/// Where the curve goes from the point `(x, y)` of the square of side
/// `order`, reading `n` two bits at a time from the lowest: each pair of
/// bits names the quadrant of the square of twice the side that the point
/// moves to, until the side reaches `2^16`.
pub open spec fn curve_point(n: nat, order: int, x: int, y: int) -> (int, int)
    decreases 0x2_0000 - order,
{
    if order <= 0 || order >= 0xffff {
        (x, y)
    } else {
        let moved = moved_into(n % 4, 2 * order, x, y);
        curve_point(n / 4, 2 * order, moved.0, moved.1)
    }
}

/// The point `(x, y)` of a square of side `side`, moved into the quadrant
/// with number `q` of the square of twice the side: mirrored in the first
/// quadrant, shifted up in the second, shifted up and right in the third,
/// and reflected and shifted right in the last.
pub open spec fn moved_into(q: nat, side: int, x: int, y: int) -> (int, int) {
    if q == 0 {
        (y, x)
    } else if q == 1 {
        (x, y + side)
    } else if q == 2 {
        (x + side, y + side)
    } else {
        (side - 1 - y + side, side - 1 - x)
    }
}

/// The sides that the squares of the curve have: the powers of two up to
/// `2^16`.
pub open spec fn is_side(order: u32) -> bool {
    order == 1 || order == 2 || order == 4 || order == 8 || order == 16 || order == 32 || order
        == 64 || order == 128 || order == 256 || order == 512 || order == 1024 || order == 2048
        || order == 4096 || order == 8192 || order == 16384 || order == 32768 || order == 65536
}

/// The point of the first square that the two lowest bits of `n` name.
pub open spec fn curve_start(n: nat) -> (int, int) {
    if n % 4 == 0 {
        (0, 0)
    } else if n % 4 == 1 {
        (0, 1)
    } else if n % 4 == 2 {
        (1, 1)
    } else {
        (1, 0)
    }
}

/// The point at distance `n` along the curve. The thirty-two bits of `n`
/// are used up before the last square is reached, so both coordinates fit
/// in sixteen bits.
pub fn hilbert_curve(n: u32) -> (r: (u16, u16))
    ensures
        ({
            let start = curve_start(n as nat);
            let point = curve_point(n as nat / 4, 1, start.0, start.1);
            r.0 == point.0 && r.1 == point.1
        }),
{
    let mut order: u32 = 1;
    let low = n & 3;
    let mut x: u32 = if low == 2 || low == 3 { 1 } else { 0 };
    let mut y: u32 = if low == 1 || low == 2 { 1 } else { 0 };
    let mut n = n;
    let ghost start = curve_start(n as nat);
    let ghost goal = curve_point(n as nat / 4, 1, start.0, start.1);
    proof {
        assert(low == n % 4 && n >> 2 == n / 4 && low < 4) by (bit_vector)
            requires
                low == n & 3,
        ;
    }
    n >>= 2;
    while order < 0xffff
        invariant
            is_side(order),
            x < 2 * order,
            y < 2 * order,
            x < 0x1_0000,
            y < 0x1_0000,
            n * (order * order) < 0x4000_0000,
            curve_point(n as nat, order as int, x as int, y as int) == goal,
        decreases 0x1_0000 - order,
    {
        let ghost before = order;
        let ghost rest = n;
        order <<= 1;
        proof {
            assert(is_side(order) && order == 2 * before) by (bit_vector)
                requires
                    before < 0xffff,
                    is_side(before),
                    order == before << 1,
            ;
        }
        let step = n & 3;
        proof {
            assert(step == n % 4 && n >> 2 == n / 4 && step < 4) by (bit_vector)
                requires
                    step == n & 3,
            ;
            assert((rest / 4) * (order * order) <= rest * (before * before)) by (nonlinear_arith)
                requires
                    order == 2 * before,
                    rest >= 0,
            ;
            if order == 0x1_0000 {
                assert(before * before == 0x4000_0000) by (nonlinear_arith)
                    requires
                        before == 0x8000,
                ;
                assert(rest == 0) by (nonlinear_arith)
                    requires
                        rest * 0x4000_0000 < 0x4000_0000,
                        rest >= 0,
                ;
            }
        }
        if step == 0 {
            std::mem::swap(&mut x, &mut y);
        } else if step == 1 {
            y += order;
        } else if step == 2 {
            x += order;
            y += order;
        } else {
            let tmp = y;
            y = order.wrapping_sub(1).wrapping_sub(x);
            x = order.wrapping_sub(1).wrapping_sub(tmp);
            x += order;
        }
        n >>= 2;
    }
    (x as u16, y as u16)
}

/// The sides that the quadrants of the curve have: the powers of two up to
/// `2^15`.
pub open spec fn is_half_side(s: u16) -> bool {
    s == 1 || s == 2 || s == 4 || s == 8 || s == 16 || s == 32 || s == 64 || s == 128 || s == 256
        || s == 512 || s == 1024 || s == 2048 || s == 4096 || s == 8192 || s == 16384 || s
        == 32768
}

/// The part of a coordinate that lies inside a square of side `side`: its
/// bits below `side`.
pub open spec fn inside(x: u16, side: int) -> int {
    ((x as u32) & ((side - 1) as u32)) as int
}

/// The point at distance `d` along the curve inside the square of side
/// `2 * side`, found from the outermost square inwards: the point inside
/// the square of side `side`, moved into the quadrant that the digit of `d`
/// for that side names.
pub open spec fn point_within(d: nat, side: int) -> (int, int)
    decreases side,
{
    if side <= 1 {
        curve_start(d)
    } else {
        let inner = point_within(d, side / 2);
        moved_into((d / ((side * side) as nat)) % 4, side, inner.0, inner.1)
    }
}

/// The point inside a square does not depend on the digits of the distance
/// that belong to larger squares.
proof fn lemma_point_within_low_digits(d: nat, m: nat, side: u32)
    requires
        is_side(side),
    ensures
        point_within((d + 4 * (side * side) * m) as nat, side as int) == point_within(
            d,
            side as int,
        ),
    decreases side,
{
    let area = (side * side) as nat;
    let far = (d + 4 * area * m) as nat;
    if side == 1 {
        assert(area == 1);
        assert(far % 4 == d % 4);
    } else {
        let half = (side / 2) as u32;
        assert(is_side(half) && side == 2 * half) by (bit_vector)
            requires
                is_side(side),
                side != 1,
                half == side / 2,
        ;
        assert(side * side == 4 * (half * half)) by (nonlinear_arith)
            requires
                side == 2 * half,
        ;
        assert(4 * area * m == 4 * (half * half) * (4 * m)) by (nonlinear_arith)
            requires
                area == 4 * (half * half),
        ;
        lemma_point_within_low_digits(d, 4 * m, half);
        assert(area > 0);
        assert(4 * area * m == (4 * m) * area) by (nonlinear_arith);
        lemma_hoist_over_denominator(d as int, 4 * m as int, area);
        assert(far / area == d / area + 4 * m);
    }
}

/// Reading the digits of a distance from the lowest upwards, as
/// `curve_point` does, ends at the point found from the outermost square
/// inwards.
proof fn lemma_curve_point_is_point_within(d: nat, side: u32)
    requires
        is_side(side),
    ensures
        ({
            let at = point_within(d, side as int);
            curve_point(d / ((4 * (side * side)) as nat), side as int, at.0, at.1)
                == point_within(d, 0x1_0000)
        }),
    decreases 0x1_0000 - side,
{
    if side != 0x1_0000 {
        let twice = (2 * side) as u32;
        assert(is_side(twice) && twice / 2 == side) by (bit_vector)
            requires
                is_side(side),
                side != 0x1_0000,
                twice == 2 * side,
        ;
        let area = (side * side) as nat;
        assert(twice * twice == 4 * area) by (nonlinear_arith)
            requires
                twice == 2 * side,
                area == side * side,
        ;
        assert(area > 0) by (nonlinear_arith)
            requires
                area == side * side,
                side > 0,
        ;
        lemma_div_denominator(d as int, 4 * area as int, 4);
        assert(4 * area * 4 == 4 * (twice * twice));
        lemma_curve_point_is_point_within(d, twice);
    }
}

/// One level of the curve, there and back: a point turned into the frame of
/// its quadrant and moved back into the quadrant is the point.
proof fn lemma_level(x: u16, y: u16, s: u16)
    requires
        is_half_side(s),
    ensures
        ({
            let rx = (x & s) != 0;
            let ry = (y & s) != 0;
            let turned = rotated(s, x, y, rx, ry);
            moved_into(
                quadrant(rx, ry),
                s as int,
                inside(turned.0, s as int),
                inside(turned.1, s as int),
            ) == (inside(x, 2 * s), inside(y, 2 * s))
        }),
{
    let rx = (x & s) != 0;
    let ry = (y & s) != 0;
    let side = s as u32;
    let twice = (2 * s) as u32;
    let u = s.wrapping_sub(1).wrapping_sub(x);
    let v = s.wrapping_sub(1).wrapping_sub(y);
    assert(((x as u32) & ((twice - 1) as u32)) == ((x as u32) & ((side - 1) as u32)) + (if (x & s)
        != 0 {
        side
    } else {
        0
    })) by (bit_vector)
        requires
            is_half_side(s),
            side == s as u32,
            twice == 2 * side,
    ;
    assert(((y as u32) & ((twice - 1) as u32)) == ((y as u32) & ((side - 1) as u32)) + (if (y & s)
        != 0 {
        side
    } else {
        0
    })) by (bit_vector)
        requires
            is_half_side(s),
            side == s as u32,
            twice == 2 * side,
    ;
    assert(((u as u32) & ((side - 1) as u32)) == side - 1 - ((x as u32) & ((side - 1) as u32)))
        by (bit_vector)
        requires
            is_half_side(s),
            side == s as u32,
            u as u32 + x as u32 + 1 == side || u as u32 + x as u32 + 1 == side + 0x1_0000,
    ;
    assert(((v as u32) & ((side - 1) as u32)) == side - 1 - ((y as u32) & ((side - 1) as u32)))
        by (bit_vector)
        requires
            is_half_side(s),
            side == s as u32,
            v as u32 + y as u32 + 1 == side || v as u32 + y as u32 + 1 == side + 0x1_0000,
    ;
}

/// The squares of side `s` and below, there and back: the point at the
/// distance that they contribute for `(x, y)` is the part of `(x, y)`
/// inside the square of side `2 s`.
proof fn lemma_point_of_index(x: u16, y: u16, s: u16)
    requires
        is_half_side(s),
    ensures
        point_within(curve_index(x, y, s), s as int) == (inside(x, 2 * s), inside(y, 2 * s)),
    decreases s,
{
    let rx = (x & s) != 0;
    let ry = (y & s) != 0;
    let q = quadrant(rx, ry);
    let turned = rotated(s, x, y, rx, ry);
    let half = (s / 2) as u16;
    let rest = curve_index(turned.0, turned.1, half);
    let d = curve_index(x, y, s);
    let area = (s * s) as nat;
    assert(d == area * q + rest);
    lemma_level(x, y, s);
    if s == 1 {
        assert(rest == 0);
        assert(area == 1);
        assert(inside(x, 2) == (if rx { 1int } else { 0int })) by {
            assert(((x as u32) & 1) == (if (x & 1) != 0 { 1u32 } else { 0u32 })) by (bit_vector);
        }
        assert(inside(y, 2) == (if ry { 1int } else { 0int })) by {
            assert(((y as u32) & 1) == (if (y & 1) != 0 { 1u32 } else { 0u32 })) by (bit_vector);
        }
    } else {
        assert(is_half_side(half) && s == 2 * half) by (bit_vector)
            requires
                is_half_side(s),
                s != 1,
                half == s / 2,
        ;
        lemma_curve_index_bound(turned.0, turned.1, half);
        lemma_point_of_index(turned.0, turned.1, half);
        assert(area == 4 * (half * half)) by (nonlinear_arith)
            requires
                area == s * s,
                s == 2 * half,
        ;
        assert(is_side(half as u32)) by (bit_vector)
            requires
                is_half_side(half),
        ;
        lemma_point_within_low_digits(rest, q, half as u32);
        assert(rest + 4 * (half * half) * q == d) by (nonlinear_arith)
            requires
                d == area * q + rest,
                area == 4 * (half * half),
        ;
        assert(d / area == q) by {
            assert(area * q == q * area) by (nonlinear_arith);
            lemma_fundamental_div_mod_converse(d as int, area as int, q as int, rest as int);
        }
    }
}

/// The curve there and back: `hilbert_curve(inverse_hilbert_curve(x, y))`
/// is `(y, x)`. The point at the distance of `(x, y)` along the curve is
/// `(x, y)` with its coordinates exchanged, because the two functions count
/// the squares from different ends and differ by one reflection in the
/// diagonal.
pub proof fn lemma_curve_there_and_back(x: u16, y: u16)
    ensures
        ({
            let d = curve_index(x, y, 0x8000);
            let start = curve_start(d);
            curve_point(d / 4, 1, start.0, start.1) == (y as int, x as int)
        }),
{
    let d = curve_index(x, y, 0x8000);
    lemma_curve_index_bound(x, y, 0x8000);
    assert(0x8000u16 * 0x8000u16 == 0x4000_0000) by (nonlinear_arith);
    lemma_point_of_index(x, y, 0x8000);
    lemma_curve_point_is_point_within(d, 1);
    assert(inside(x, 0x1_0000) == x && inside(y, 0x1_0000) == y) by {
        assert(((x as u32) & 0xffff) == x as u32) by (bit_vector);
        assert(((y as u32) & 0xffff) == y as u32) by (bit_vector);
    }
    assert(0x1_0000int * 0x1_0000int == 0x1_0000_0000) by (nonlinear_arith);
    assert(d / 0x1_0000_0000 == 0);
    reveal_with_fuel(point_within, 2);
}

} // verus!
