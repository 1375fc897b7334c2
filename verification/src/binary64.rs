//! Rounding to the nearest binary64 double, done exactly on integers.
//!
//! A non-negative amount is held as an integer count of 2^-60. Rounding it
//! (or a quotient of it) to a double keeps 53 significant bits: the amount
//! is rounded to the nearest multiple of its unit in the last place, ties to
//! an even last digit, as IEEE 754 arithmetic rounds every operation.

use vstd::prelude::*;

verus! {

/// 2^53, the first power of two past a double's 53-bit significand.
pub open spec fn two53() -> int {
    9_007_199_254_740_992
}

/// `x / den` rounded to 53 significant bits, starting from a unit in the
/// last place of `u` and doubling it while the amount has more bits than
/// that.
pub open spec fn round_from(x: int, den: int, u: int) -> int
    decreases x + 1 - u,
    when x >= 0 && den >= 1 && u >= 1
{
    if x >= two53() * u * den {
        proof {
            assert(two53() * u * den >= 2 * u) by (nonlinear_arith)
                requires u >= 1, den >= 1, two53() == 9_007_199_254_740_992;
        }
        round_from(x, den, 2 * u)
    } else {
        let q = x / (den * u);
        let r = x % (den * u);
        if 2 * r < den * u {
            q * u
        } else if 2 * r > den * u {
            (q + 1) * u
        } else if q % 2 == 0 {
            q * u
        } else {
            (q + 1) * u
        }
    }
}

/// The double nearest to `x / den` (both in units of 2^-60), in units of
/// 2^-60.
pub open spec fn nearest_double(x: int, den: int) -> int {
    round_from(x, den, 1)
}

/// Round `x / den` to the nearest double.
pub fn nearest_double_exec(x: u128, den: u128) -> (y: u128)
    requires
        x < 0x10_0000_0000_0000_0000_0000_0000,
        1 <= den <= 11,
    ensures
        y == nearest_double(x as int, den as int),
        den == 1 ==> y <= x + x / 0x10_0000_0000_0000 + 1,
        y <= x + 0x1_0000_0000_0000,
{
    let mut u: u128 = 1;
    assert(0x20_0000_0000_0000 * u * den <= 0x20_0000_0000_0000 * 0x1_0000_0000_0000 * 11);
    while x >= 0x20_0000_0000_0000 * u * den
        invariant
            x < 0x10_0000_0000_0000_0000_0000_0000,
            1 <= den <= 11,
            1 <= u <= 0x1_0000_0000_0000,
            0x20_0000_0000_0000 * u <= 0x20_0000_0000_0000 * 0x1_0000_0000_0000,
            0x20_0000_0000_0000 * u * den <= 0x20_0000_0000_0000 * 0x1_0000_0000_0000 * 11,
            round_from(x as int, den as int, 1) == round_from(x as int, den as int, u as int),
            u == 1 || 0x10_0000_0000_0000 * u * den <= x,
        decreases x + 1 - u,
    {
        assert(u < 0x8000_0000_0000 && x >= 2 * u) by (nonlinear_arith)
            requires
                x >= 0x20_0000_0000_0000 * u * den,
                x < 0x10_0000_0000_0000_0000_0000_0000,
                den >= 1,
                u >= 1,
        ;
        u = 2 * u;
        assert(0x20_0000_0000_0000 * u * den <= 0x20_0000_0000_0000 * 0x1_0000_0000_0000 * 11) by (nonlinear_arith)
            requires u <= 0x1_0000_0000_0000, den <= 11, u >= 1, den >= 1;
    }
    assert(1 <= den * u <= 11 * 0x1_0000_0000_0000) by (nonlinear_arith)
        requires 1 <= u <= 0x1_0000_0000_0000, 1 <= den <= 11;
    let du = den * u;
    let q = x / du;
    let r = x % du;
    assert(q * du + r == x && 0 <= r < du) by (nonlinear_arith)
        requires q == x / du, r == x % du, du >= 1;
    assert(q * u <= x && (q + 1) * u <= x + u) by (nonlinear_arith)
        requires q * du + r == x, du == den * u, den >= 1, u >= 1, r >= 0, q >= 0;
    let y = if 2 * r < du {
        q * u
    } else if 2 * r > du {
        (q + 1) * u
    } else if q % 2 == 0 {
        q * u
    } else {
        (q + 1) * u
    };
    proof {
        if den == 1 {
            if u > 1 {
                assert(u <= x / 0x10_0000_0000_0000) by (nonlinear_arith)
                    requires 0x10_0000_0000_0000 * u * den <= x, den == 1;
            }
            assert(y <= x + u);
        }
    }
    y
}

proof fn lemma_round_from_close(x: int, u: int)
    requires
        x >= 0,
        u >= 1,
        u == 1 || 4_503_599_627_370_496 * u <= x,
    ensures
        4_503_599_627_370_496 * (round_from(x, 1, u) - x) <= x + 4_503_599_627_370_496,
        4_503_599_627_370_496 * (x - round_from(x, 1, u)) <= x + 4_503_599_627_370_496,
        round_from(x, 1, u) >= 0,
    decreases x + 1 - u,
{
    if x >= two53() * u * 1 {
        assert(two53() * u * 1 >= 2 * u && 4_503_599_627_370_496 * (2 * u) <= x) by (nonlinear_arith)
            requires u >= 1, x >= two53() * u * 1, two53() == 9_007_199_254_740_992;
        lemma_round_from_close(x, 2 * u);
    } else {
        let q = x / (1 * u);
        let r = x % (1 * u);
        assert(q * u + r == x && 0 <= r < u && q >= 0) by (nonlinear_arith)
            requires q == x / (1 * u), r == x % (1 * u), u >= 1, x >= 0;
        let y = round_from(x, 1, u);
        assert(y == q * u || y == (q + 1) * u);
        assert(x - u <= y <= x + u) by (nonlinear_arith)
            requires q * u + r == x, 0 <= r < u, y == q * u || y == (q + 1) * u;
        assert(4_503_599_627_370_496 * u <= x + 4_503_599_627_370_496);
    }
}

/// Rounding to a double is close: a non-negative amount moves by at most
/// one part in 2^52 of itself, plus one unit.
pub proof fn lemma_nearest_double_close(x: int)
    requires
        x >= 0,
    ensures
        4_503_599_627_370_496 * (nearest_double(x, 1) - x) <= x + 4_503_599_627_370_496,
        4_503_599_627_370_496 * (x - nearest_double(x, 1)) <= x + 4_503_599_627_370_496,
        nearest_double(x, 1) >= 0,
{
    lemma_round_from_close(x, 1);
}

} // verus!
