//! Exact reading of IEEE 754 single-precision bit patterns.
//!
//! Coordinates and other measured quantities reach this crate as the 32-bit
//! patterns of single-precision numbers. Every finite single-precision value
//! is a whole multiple of 2^-149, so a pattern is modelled by the integer
//! [`scaled`], its value in units of 2^-149; [`unit`] is the number one in
//! the same units. Comparisons and rounding are decided on the patterns with
//! integer arithmetic alone and proved against that model.

use vstd::prelude::*;
use vstd::arithmetic::power2::{
    pow2,
    lemma2_to64,
    lemma_pow2_adds,
    lemma_pow2_pos,
    lemma_pow2_strictly_increases,
    lemma_pow2_unfold,
};
use vstd::arithmetic::div_mod::{lemma_fundamental_div_mod, lemma_fundamental_div_mod_converse};

verus! {

/// The pattern with only the sign bit set.
pub const SIGN_BIT: u32 = 0x8000_0000;

/// Two to the power 23: the weight of the exponent field within a pattern and
/// the implicit leading bit of a normal significand.
pub const HIDDEN_BIT: u32 = 0x0080_0000;

/// The pattern of positive infinity. Larger magnitudes are not numbers.
pub const INFINITY: u32 = 0x7f80_0000;

/// The pattern of one half.
pub const HALF: u32 = 0x3f00_0000;

/// The pattern of minus one half.
pub const MINUS_HALF: u32 = 0xbf00_0000;

/// The pattern of the number one.
pub const ONE: u32 = 0x3f80_0000;

/// The pattern with the sign bit cleared.
pub open spec fn magnitude_bits(bits: u32) -> u32 {
    if bits >= SIGN_BIT {
        (bits - SIGN_BIT) as u32
    } else {
        bits
    }
}

/// Whether the sign bit is set (true of negative zero too).
pub open spec fn negative(bits: u32) -> bool {
    bits >= SIGN_BIT
}

/// The biased exponent field, in `0..=255`.
pub open spec fn exponent(bits: u32) -> nat {
    (magnitude_bits(bits) / HIDDEN_BIT) as nat
}

/// The fraction field, in `0..2^23`.
pub open spec fn fraction(bits: u32) -> nat {
    (magnitude_bits(bits) % HIDDEN_BIT) as nat
}

/// Whether the pattern is not a number.
pub open spec fn nan(bits: u32) -> bool {
    magnitude_bits(bits) > INFINITY
}

/// The absolute value in units of 2^-149. An infinity reads as 2^277, above
/// every finite value; the result means nothing for a pattern that is not a
/// number.
pub open spec fn magnitude(bits: u32) -> int {
    if exponent(bits) == 0 {
        fraction(bits) as int
    } else {
        (HIDDEN_BIT + fraction(bits)) * pow2((exponent(bits) - 1) as nat)
    }
}

/// The value in units of 2^-149.
pub open spec fn scaled(bits: u32) -> int {
    if negative(bits) {
        -magnitude(bits)
    } else {
        magnitude(bits)
    }
}

/// The number one in units of 2^-149.
pub open spec fn unit() -> int {
    pow2(149) as int
}

/// The integer nearest to the value, the larger one where two are equally
/// near: the floor of the value plus one half.
pub open spec fn nearest_integer(bits: u32) -> int {
    (2 * scaled(bits) + unit()) / (2 * unit())
}

/// The nearest integer is within one half of the value, and is the larger
/// one of two that are.
pub proof fn lemma_nearest_integer_bounds(bits: u32)
    ensures
        (2 * nearest_integer(bits) - 1) * unit() <= 2 * scaled(bits),
        2 * scaled(bits) < (2 * nearest_integer(bits) + 1) * unit(),
{
    let u = unit();
    let x = 2 * scaled(bits) + u;
    let n = nearest_integer(bits);
    lemma_pow2_pos(149);
    lemma_fundamental_div_mod(x, 2 * u);
    assert(0 <= x % (2 * u) < 2 * u);
    assert((2 * u) * n == (2 * n - 1) * u + u) by (nonlinear_arith);
    assert((2 * n + 1) * u == (2 * n - 1) * u + 2 * u) by (nonlinear_arith);
}

/// Magnitudes are ordered as their patterns are.
pub proof fn lemma_magnitude_increases(a: u32, b: u32)
    requires
        a < b < SIGN_BIT,
    ensures
        magnitude(a) < magnitude(b),
{
    let ea = exponent(a);
    let eb = exponent(b);
    let fa = fraction(a);
    let fb = fraction(b);
    let h = HIDDEN_BIT as int;
    assert(ea <= eb);
    if ea == eb {
        if ea > 0 {
            let p = pow2((ea - 1) as nat) as int;
            lemma_pow2_pos((ea - 1) as nat);
            assert((h + fa) * p < (h + fb) * p) by (nonlinear_arith)
                requires
                    fa < fb,
                    p > 0,
            ;
        }
    } else {
        let q = pow2((eb - 1) as nat) as int;
        lemma_pow2_pos((eb - 1) as nat);
        assert(h <= (h + fb) * q) by (nonlinear_arith)
            requires
                q >= 1,
                h >= 0,
                fb >= 0,
        ;
        if ea > 0 {
            let p = pow2((ea - 1) as nat) as int;
            lemma_pow2_pos((ea - 1) as nat);
            lemma_pow2_unfold(ea);
            assert(2 * p <= q) by {
                if ea < eb - 1 {
                    lemma_pow2_strictly_increases(ea, (eb - 1) as nat);
                }
            }
            assert((h + fa) * p < h * (2 * p)) by (nonlinear_arith)
                requires
                    fa < h,
                    p > 0,
            ;
            assert(h * (2 * p) <= (h + fb) * q) by (nonlinear_arith)
                requires
                    2 * p <= q,
                    h >= 0,
                    fb >= 0,
                    p > 0,
            ;
        }
    }
}

/// Two sign-free patterns compare as their magnitudes do.
pub proof fn lemma_magnitude_order(a: u32, b: u32)
    requires
        a < SIGN_BIT,
        b < SIGN_BIT,
    ensures
        a < b <==> magnitude(a) < magnitude(b),
        a == b <==> magnitude(a) == magnitude(b),
{
    if a < b {
        lemma_magnitude_increases(a, b);
    } else if b < a {
        lemma_magnitude_increases(b, a);
    }
}

/// Only the two zeros have magnitude zero.
pub proof fn lemma_magnitude_zero(bits: u32)
    ensures
        magnitude(bits) == 0 <==> magnitude_bits(bits) == 0,
{
    let m = magnitude_bits(bits);
    if m > 0 {
        lemma_magnitude_increases(0, m);
    }
}

/// Clears the sign bit: the pattern of the absolute value.
pub fn abs(bits: u32) -> (m: u32)
    ensures
        m == magnitude_bits(bits),
        m < SIGN_BIT,
        magnitude(m) == magnitude(bits),
        !negative(m),
        nan(m) == nan(bits),
{
    if bits >= SIGN_BIT {
        bits - SIGN_BIT
    } else {
        bits
    }
}

/// Whether the pattern is not a number.
pub fn is_nan(bits: u32) -> (r: bool)
    ensures
        r == nan(bits),
{
    abs(bits) > INFINITY
}

/// The ordered comparison `a < b` of two patterns: false where either is not
/// a number, and the two zeros are equal.
pub fn less(a: u32, b: u32) -> (r: bool)
    ensures
        r == (!nan(a) && !nan(b) && scaled(a) < scaled(b)),
{
    if is_nan(a) || is_nan(b) {
        return false;
    }
    let ma: u32 = abs(a);
    let mb: u32 = abs(b);
    proof {
        lemma_magnitude_order(ma, mb);
        lemma_magnitude_zero(a);
        lemma_magnitude_zero(b);
    }
    if a >= SIGN_BIT {
        if b >= SIGN_BIT {
            mb < ma
        } else {
            ma != 0 || mb != 0
        }
    } else {
        if b >= SIGN_BIT {
            false
        } else {
            ma < mb
        }
    }
}

/// The ordered comparison `a <= b` of two patterns: false where either is
/// not a number, and the two zeros are equal.
pub fn less_eq(a: u32, b: u32) -> (r: bool)
    ensures
        r == (!nan(a) && !nan(b) && scaled(a) <= scaled(b)),
{
    if is_nan(a) || is_nan(b) {
        return false;
    }
    !less(b, a)
}

/// Two to the power `n`.
fn power_of_two(n: u32) -> (p: u32)
    requires
        n <= 24,
    ensures
        p == pow2(n as nat),
        0 < p <= 0x0100_0000,
{
    let mut p: u32 = 1;
    let mut i: u32 = 0;
    proof {
        lemma2_to64();
    }
    while i < n
        invariant
            i <= n <= 24,
            p == pow2(i as nat),
            0 < p,
            p <= pow2(24),
            pow2(24) == 0x0100_0000,
        decreases n - i,
    {
        proof {
            lemma_pow2_unfold((i + 1) as nat);
            if i + 1 < 24 {
                lemma_pow2_strictly_increases((i + 1) as nat, 24);
            }
        }
        p = p * 2;
        i = i + 1;
    }
    p
}

/// Rounds a value above minus one half and below 2^24 to the nearest
/// integer, halves upwards.
pub fn round_to_index(bits: u32) -> (n: u32)
    requires
        !nan(bits),
        -unit() < 2 * scaled(bits),
        scaled(bits) < 0x0100_0000 * unit(),
    ensures
        n == nearest_integer(bits),
        n <= 0x0100_0000,
{
    let m: u32 = abs(bits);
    let e: u32 = m / HIDDEN_BIT;
    let f: u32 = m % HIDDEN_BIT;
    let ghost u = unit();
    let ghost s = scaled(bits);
    proof {
        lemma_pow2_pos(149);
    }
    if e < 126 {
        // The magnitude is below one half.
        proof {
            lemma_below_half(m);
            lemma_fundamental_div_mod_converse(2 * s + u, 2 * u, 0, 2 * s + u);
        }
        return 0;
    }
    proof {
        if bits >= SIGN_BIT {
            lemma_half_reached(m);
        }
        if e > 150 {
            lemma_large(m);
        }
    }
    let shift: u32 = 150 - e;
    let d: u32 = power_of_two(shift);
    let significand: u32 = HIDDEN_BIT + f;
    let q: u32 = significand / d;
    let r: u32 = significand % d;
    let n: u32 = if 2 * r >= d {
        q + 1
    } else {
        q
    };
    proof {
        let p = pow2((e - 1) as nat) as int;
        lemma_pow2_pos((e - 1) as nat);
        lemma_pow2_adds(shift as nat, (e - 1) as nat);
        assert(u == d * p);
        assert(s == significand * p);
        assert(significand == q * d + r) by {
            lemma_fundamental_div_mod(significand as int, d as int);
            assert(d * q == q * d) by (nonlinear_arith);
        }
        let rest = 2 * r + d - (if 2 * r >= d { 2 * d as int } else { 0int });
        assert(0 <= rest < 2 * d);
        assert(2 * significand + d == n * (2 * d) + rest) by (nonlinear_arith)
            requires
                significand == q * d + r,
                rest == 2 * r + d - (if 2 * r >= d { 2 * d as int } else { 0int }),
                n == (if 2 * r >= d { q + 1 } else { q as int }),
        ;
        assert(2 * s + u == n * (2 * u) + rest * p) by (nonlinear_arith)
            requires
                u == d * p,
                s == significand * p,
                2 * significand + d == n * (2 * d) + rest,
        ;
        assert(0 <= rest * p < 2 * u) by (nonlinear_arith)
            requires
                0 <= rest < 2 * d,
                p > 0,
                u == d * p,
        ;
        lemma_fundamental_div_mod_converse(2 * s + u, 2 * u, n as int, rest * p);
    }
    n
}

/// A sign-free pattern with an exponent field under 126 is below one half.
proof fn lemma_below_half(m: u32)
    requires
        m < SIGN_BIT,
        m / HIDDEN_BIT < 126,
    ensures
        2 * magnitude(m) < unit(),
{
    lemma_magnitude_increases(m, HALF);
    lemma_half();
}

/// A sign-free pattern with an exponent field of 126 or more is at least
/// one half.
proof fn lemma_half_reached(m: u32)
    requires
        m < SIGN_BIT,
        m / HIDDEN_BIT >= 126,
    ensures
        2 * magnitude(m) >= unit(),
{
    lemma_magnitude_order(HALF, m);
    lemma_half();
}

/// A sign-free pattern with an exponent field above 150 is at least 2^24.
proof fn lemma_large(m: u32)
    requires
        m < SIGN_BIT,
        m / HIDDEN_BIT > 150,
    ensures
        magnitude(m) >= 0x0100_0000 * unit(),
{
    let edge: u32 = 0x4b80_0000;
    lemma_magnitude_order(edge, m);
    lemma2_to64();
    lemma_pow2_adds(1, 149);
    lemma_pow2_adds(23, 150);
    lemma_pow2_adds(24, 149);
}

/// [`HALF`] is one half.
pub proof fn lemma_half()
    ensures
        2 * scaled(HALF) == unit(),
        2 * magnitude(HALF) == unit(),
{
    lemma_reading(HALF, 126, 0);
    lemma2_to64();
    lemma_pow2_adds(24, 125);
}

/// [`ONE`] is the number one, and the pattern zero is the number zero.
pub proof fn lemma_one()
    ensures
        scaled(ONE) == unit(),
        scaled(0) == 0,
{
    lemma_reading(ONE, 127, 0);
    lemma2_to64();
    lemma_pow2_adds(23, 126);
}

/// [`MINUS_HALF`] is minus one half.
pub proof fn lemma_minus_half()
    ensures
        2 * scaled(MINUS_HALF) == -unit(),
{
    lemma_reading(MINUS_HALF, 126, 0);
    lemma2_to64();
    lemma_pow2_adds(24, 125);
}

/// The magnitude of a normal pattern, from its two fields.
pub proof fn lemma_reading(bits: u32, e: nat, f: nat)
    requires
        1 <= e <= 255,
        f < HIDDEN_BIT,
        magnitude_bits(bits) == e * HIDDEN_BIT + f,
    ensures
        exponent(bits) == e,
        fraction(bits) == f,
        magnitude(bits) == (HIDDEN_BIT + f) * pow2((e - 1) as nat),
{
    lemma_fundamental_div_mod_converse(
        magnitude_bits(bits) as int,
        HIDDEN_BIT as int,
        e as int,
        f as int,
    );
}

} // verus!
