//! Exact facts about IEEE-754 binary64 numbers, read from their bit patterns.
//!
//! Everything here is decided by integer arithmetic on the encoding: the sign
//! is the top bit, the biased exponent the next eleven, the fraction the low
//! fifty-two.

use vstd::prelude::*;
use std::cmp::Ordering;
use vstd::arithmetic::power2::{pow2, lemma_pow2_unfold, lemma_pow2_adds, lemma_pow2_pos, lemma_pow2_strictly_increases, lemma2_to64, lemma2_to64_rest};

verus! {

/// 2^63: the sign bit.
pub open spec fn sign_bit() -> nat {
    0x8000_0000_0000_0000
}

/// 2^52: one unit of the biased exponent.
pub open spec fn exponent_unit() -> nat {
    0x10_0000_0000_0000
}

/// The encoding with the sign bit cleared.
pub open spec fn float_magnitude(b: u64) -> nat {
    b as nat % sign_bit()
}

pub open spec fn float_negative(b: u64) -> bool {
    b as nat >= sign_bit()
}

/// The biased exponent field.
pub open spec fn float_exponent(b: u64) -> nat {
    float_magnitude(b) / exponent_unit()
}

/// The fraction (trailing significand) field.
pub open spec fn float_fraction(b: u64) -> nat {
    b as nat % exponent_unit()
}

pub open spec fn float_is_nan(b: u64) -> bool {
    float_exponent(b) == 0x7ff && float_fraction(b) != 0
}

/// Positive or negative zero.
pub open spec fn float_is_zero(b: u64) -> bool {
    float_magnitude(b) == 0
}

/// IEEE equality: NaN equals nothing, and the two zeros are equal.
pub open spec fn float_eq(a: u64, b: u64) -> bool {
    !float_is_nan(a) && !float_is_nan(b) && (a == b || (float_is_zero(a) && float_is_zero(b)))
}

/// For numbers that are not NaN, the encoding orders magnitudes as their
/// values: this key orders every such number as its value.
pub open spec fn float_key(b: u64) -> int {
    if float_negative(b) {
        -(float_magnitude(b) as int)
    } else {
        float_magnitude(b) as int
    }
}

/// Ordering of two integers.
pub open spec fn order_of(a: int, b: int) -> Ordering {
    if a < b {
        Ordering::Less
    } else if a == b {
        Ordering::Equal
    } else {
        Ordering::Greater
    }
}

/// IEEE comparison: no answer when either side is NaN.
pub open spec fn float_partial_order(a: u64, b: u64) -> Option<Ordering> {
    if float_is_nan(a) || float_is_nan(b) {
        None
    } else {
        Some(order_of(float_key(a), float_key(b)))
    }
}

/// The encoding of the negated number: the sign bit flipped.
pub open spec fn float_negated(b: u64) -> u64 {
    if float_negative(b) {
        (b - 0x8000_0000_0000_0000u64) as u64
    } else {
        (b + 0x8000_0000_0000_0000u64) as u64
    }
}

pub fn float_is_nan_exec(b: u64) -> (r: bool)
    ensures
        r == float_is_nan(b),
{
    let mag = b % 0x8000_0000_0000_0000u64;
    mag / 0x10_0000_0000_0000u64 == 0x7ff && b % 0x10_0000_0000_0000u64 != 0
}

/// A finite number: the exponent field is not all ones.
pub open spec fn float_is_finite(b: u64) -> bool {
    float_exponent(b) != 0x7ff
}

pub fn float_is_finite_exec(b: u64) -> (r: bool)
    ensures
        r == float_is_finite(b),
{
    let mag = b % 0x8000_0000_0000_0000u64;
    mag / 0x10_0000_0000_0000u64 != 0x7ff
}

pub fn float_is_zero_exec(b: u64) -> (r: bool)
    ensures
        r == float_is_zero(b),
{
    b % 0x8000_0000_0000_0000u64 == 0
}

pub fn float_eq_exec(a: u64, b: u64) -> (r: bool)
    ensures
        r == float_eq(a, b),
{
    !float_is_nan_exec(a) && !float_is_nan_exec(b) && (a == b || (float_is_zero_exec(a)
        && float_is_zero_exec(b)))
}

pub fn float_negate_exec(b: u64) -> (r: u64)
    ensures
        r == float_negated(b),
{
    if b >= 0x8000_0000_0000_0000u64 {
        b - 0x8000_0000_0000_0000u64
    } else {
        b + 0x8000_0000_0000_0000u64
    }
}

pub fn float_partial_order_exec(a: u64, b: u64) -> (r: Option<Ordering>)
    ensures
        r == float_partial_order(a, b),
{
    if float_is_nan_exec(a) || float_is_nan_exec(b) {
        return None;
    }
    let ma = a % 0x8000_0000_0000_0000u64;
    let mb = b % 0x8000_0000_0000_0000u64;
    let na = a >= 0x8000_0000_0000_0000u64;
    let nb = b >= 0x8000_0000_0000_0000u64;
    // Compare -ma or ma with -mb or mb without leaving u64.
    let r = if !na && !nb {
        if ma < mb { Ordering::Less } else if ma == mb { Ordering::Equal } else { Ordering::Greater }
    } else if na && nb {
        if mb < ma { Ordering::Less } else if ma == mb { Ordering::Equal } else { Ordering::Greater }
    } else if na {
        if ma == 0 && mb == 0 { Ordering::Equal } else { Ordering::Less }
    } else {
        if ma == 0 && mb == 0 { Ordering::Equal } else { Ordering::Greater }
    };
    Some(r)
}

/// The number of binary digits of `m` (zero for zero).
pub open spec fn bit_length(m: nat) -> nat
    decreases m,
{
    if m == 0 {
        0
    } else {
        1 + bit_length(m / 2)
    }
}

/// `m` rounded to 53 significant bits: to the nearest multiple of the unit
/// of its 53rd bit, ties to the even multiple.
pub open spec fn round_to_double(m: nat) -> nat {
    let len = bit_length(m);
    if len <= 53 {
        m
    } else {
        let g = pow2((len - 53) as nat);
        let q = m / g;
        let r = m % g;
        if r * 2 > g || (r * 2 == g && q % 2 == 1) {
            (q + 1) * g
        } else {
            q * g
        }
    }
}

/// The 53-bit significand of a positive integer with at most 53 significant
/// bits, as the leading bit at position 52.
pub open spec fn significand_of(v: nat) -> nat {
    let e = (bit_length(v) - 1) as nat;
    if e <= 52 {
        v * pow2((52 - e) as nat)
    } else {
        v / pow2((e - 52) as nat)
    }
}

/// The binary64 encoding of such a positive integer: biased exponent and
/// fraction.
pub open spec fn encode_integer(v: nat) -> nat {
    let e = (bit_length(v) - 1) as nat;
    ((e + 1023) * exponent_unit() + (significand_of(v) - exponent_unit())) as nat
}

/// The encoding of `i as f64`: the nearest double, ties to even.
pub open spec fn int_as_float(i: i64) -> u64 {
    if i == 0 {
        0
    } else if i < 0 {
        (encode_integer(round_to_double((-i) as nat)) + sign_bit()) as u64
    } else {
        encode_integer(round_to_double(i as nat)) as u64
    }
}

/// `f as i64`: the value truncated toward zero, saturated at the bounds of
/// `i64`, and zero for NaN.
pub open spec fn float_to_int(b: u64) -> i64 {
    let e = float_exponent(b);
    let sig = exponent_unit() + float_fraction(b);
    if float_is_nan(b) {
        0
    } else if e >= 1086 {
        if float_negative(b) {
            i64::MIN
        } else {
            i64::MAX
        }
    } else if e < 1023 {
        0
    } else {
        let t: nat = if e >= 1075 {
            sig * pow2((e - 1075) as nat)
        } else {
            sig / pow2((1075 - e) as nat)
        };
        if float_negative(b) {
            (-(t as int)) as i64
        } else {
            t as i64
        }
    }
}

pub proof fn lemma_bit_length_bounds(m: nat)
    requires
        m > 0,
    ensures
        bit_length(m) >= 1,
        pow2((bit_length(m) - 1) as nat) <= m < pow2(bit_length(m)),
    decreases m,
{
    if m == 1 {
        assert(bit_length(0) == 0);
        lemma_pow2_unfold(1);
        assert(pow2(0) == 1) by {
            lemma2_to64();
        }
    } else {
        lemma_bit_length_bounds(m / 2);
        let k = bit_length(m / 2);
        lemma_pow2_unfold(k + 1);
        lemma_pow2_unfold(k);
    }
}

pub proof fn lemma_bit_length_monotone(a: nat, b: nat)
    requires
        a <= b,
    ensures
        bit_length(a) <= bit_length(b),
    decreases b,
{
    if a > 0 {
        lemma_bit_length_monotone(a / 2, b / 2);
    }
}

fn pow2_exec(k: u32) -> (r: u128)
    requires
        k <= 64,
    ensures
        r == pow2(k as nat),
{
    proof {
        lemma2_to64();
    }
    let mut r: u128 = 1;
    let mut j: u32 = 0;
    while j < k
        invariant
            j <= k <= 64,
            r == pow2(j as nat),
            pow2(64) == 0x1_0000_0000_0000_0000,
        decreases k - j,
    {
        proof {
            lemma_pow2_unfold((j + 1) as nat);
            if j + 1 < 64 {
                lemma_pow2_strictly_increases((j + 1) as nat, 64);
            }
        }
        r = r * 2;
        j = j + 1;
    }
    r
}

fn bit_length_exec(x: u128) -> (r: u32)
    ensures
        r == bit_length(x as nat),
{
    let mut len: u32 = 0;
    let mut t: u128 = x;
    proof {
        lemma_bit_length_le_128(x);
    }
    while t > 0
        invariant
            bit_length(x as nat) == len + bit_length(t as nat),
            len + bit_length(t as nat) <= 128,
        decreases t,
    {
        proof {
            assert(bit_length(t as nat) == 1 + bit_length((t / 2) as nat));
        }
        t = t / 2;
        len = len + 1;
    }
    len
}

proof fn lemma_bit_length_le_128(x: u128)
    ensures
        bit_length(x as nat) <= 128,
{
    if x > 0 {
        lemma_bit_length_bounds(x as nat);
        let l = bit_length(x as nat);
        if l > 128 {
            lemma_pow2_adds(64, 64);
            lemma2_to64();
            lemma_pow2_strictly_increases(128, (l - 1) as nat);
            assert(pow2(128) == 0x1_0000_0000_0000_0000 * 0x1_0000_0000_0000_0000);
        }
    }
}

/// Rounds a magnitude below 2^64 to a double's precision.
fn round_to_double_exec(m: u128) -> (v: u128)
    requires
        0 < m <= 0x8000_0000_0000_0000,
    ensures
        v == round_to_double(m as nat),
        0 < v <= 0x1_0000_0000_0000_0000,
{
    let len = bit_length_exec(m);
    proof {
        lemma_bit_length_bounds(m as nat);
        lemma2_to64();
        lemma2_to64_rest();
        if len - 1 > 64 {
            lemma_pow2_strictly_increases(64, (len - 1) as nat);
        }
        assert(len <= 64);
    }
    if len <= 53 {
        return m;
    }
    let g = pow2_exec(len - 53);
    proof {
        lemma_pow2_pos((len - 53) as nat);
        if len - 53 < 11 {
            lemma_pow2_strictly_increases((len - 53) as nat, 11);
        }
        assert(g <= 2048);
    }
    let q = m / g;
    let r = m % g;
    let up = r * 2 > g || (r * 2 == g && q % 2 == 1);
    proof {
        // q * g <= m < pow2(len) and g * pow2(53) == pow2(len)
        lemma_pow2_adds((len - 53) as nat, 53);
        assert(m == q * g + r) by (nonlinear_arith)
            requires q == m / g, r == m % g, g > 0;
        assert(pow2(53) == 0x20_0000_0000_0000);
        assert(q < pow2(53)) by (nonlinear_arith)
            requires m == q * g + r, r >= 0, m < pow2(len as nat), pow2(len as nat) == g * pow2(53), g > 0;
        assert((q + 1) * g <= pow2(len as nat)) by (nonlinear_arith)
            requires q < pow2(53), pow2(len as nat) == g * pow2(53), g > 0;
        if len < 64 {
            lemma_pow2_strictly_increases(len as nat, 64);
        }
        lemma_pow2_adds((len - 53) as nat, 52);
        assert(pow2(52) >= 1);
        assert(q >= 1) by (nonlinear_arith)
            requires m >= pow2((len - 1) as nat), pow2((len - 1) as nat) == g * pow2(52), pow2(52) >= 1, q == m / g, g > 0;
        assert(q * g > 0) by (nonlinear_arith)
            requires q >= 1, g > 0;
        assert(pow2(len as nat) <= pow2(64));
        assert((q + 1) * g <= 0x1_0000_0000_0000_0000);
        assert(q * g <= (q + 1) * g) by (nonlinear_arith)
            requires g > 0;
    }
    if up {
        (q + 1) * g
    } else {
        q * g
    }
}

/// The binary64 encoding of a positive integer with at most 53 significant
/// bits and at most 2^64.
fn encode_integer_exec(v: u128) -> (r: u64)
    requires
        0 < v <= 0x1_0000_0000_0000_0000,
        significand_of(v as nat) >= exponent_unit(),
    ensures
        r as nat == encode_integer(v as nat),
        r < 0x8000_0000_0000_0000,
{
    let len = bit_length_exec(v);
    proof {
        lemma_bit_length_bounds(v as nat);
        lemma2_to64();
        lemma2_to64_rest();
        if len > 65 {
            lemma_pow2_unfold(65);
            lemma_pow2_strictly_increases(65, (len - 1) as nat);
        }
    }
    let e = len - 1;
    let sig: u128 = if e <= 52 {
        let f = pow2_exec(52 - e);
        proof {
            lemma_pow2_adds((52 - e) as nat, e as nat);
            assert(pow2(53) == 0x20_0000_0000_0000);
            lemma_pow2_unfold((e + 1) as nat);
            assert(v * f < pow2(53)) by (nonlinear_arith)
                requires v < pow2((e + 1) as nat), pow2((e + 1) as nat) == 2 * pow2(e as nat),
                    pow2(52) == f * pow2(e as nat), pow2(53) == 2 * pow2(52), f > 0;
        }
        v * f
    } else {
        let d = pow2_exec(e - 52);
        proof {
            lemma_pow2_pos((e - 52) as nat);
        }
        v / d
    };
    proof {
        assert(sig == significand_of(v as nat));
        assert(sig < 0x20_0000_0000_0000) by {
            if e > 52 {
                lemma_pow2_adds((e - 52) as nat, 53);
                lemma_pow2_unfold((e + 1) as nat);
                let d = pow2((e - 52) as nat);
                assert(sig < pow2(53)) by (nonlinear_arith)
                    requires sig == v as nat / d, d > 0, v < pow2((e + 1) as nat),
                        pow2((e + 1) as nat) == d * pow2(53);
                assert(pow2(53) == 0x20_0000_0000_0000);
            }
        }
    }
    let bits: u128 = (e as u128 + 1023) * 0x10_0000_0000_0000u128 + (sig - 0x10_0000_0000_0000u128);
    bits as u64
}

proof fn lemma_significand_lower(v: nat)
    requires
        v > 0,
    ensures
        significand_of(v) >= exponent_unit(),
{
    lemma_bit_length_bounds(v);
    let e = (bit_length(v) - 1) as nat;
    lemma2_to64();
    lemma2_to64_rest();
    if e <= 52 {
        lemma_pow2_adds((52 - e) as nat, e);
        assert(v * pow2((52 - e) as nat) >= pow2(52)) by (nonlinear_arith)
            requires v >= pow2(e), pow2(52) == pow2((52 - e) as nat) * pow2(e);
    } else {
        let d = pow2((e - 52) as nat);
        lemma_pow2_pos((e - 52) as nat);
        lemma_pow2_adds((e - 52) as nat, 52);
        assert(v / d >= pow2(52)) by (nonlinear_arith)
            requires v >= pow2(e), pow2(e) == d * pow2(52), d > 0;
    }
}

/// The encoding of `i as f64`.
pub fn int_as_float_exec(i: i64) -> (r: u64)
    ensures
        r == int_as_float(i),
{
    if i == 0 {
        return 0;
    }
    let wide: i128 = i as i128;
    let m: u128 = if i < 0 { (0i128 - wide) as u128 } else { wide as u128 };
    let v = round_to_double_exec(m);
    proof {
        lemma_significand_lower(v as nat);
    }
    let enc = encode_integer_exec(v);
    if i < 0 {
        enc + 0x8000_0000_0000_0000u64
    } else {
        enc
    }
}

/// `f as i64` on the encoding.
pub fn float_to_int_exec(b: u64) -> (r: i64)
    ensures
        r == float_to_int(b),
{
    if float_is_nan_exec(b) {
        return 0;
    }
    let negative = b >= 0x8000_0000_0000_0000u64;
    let e = (b % 0x8000_0000_0000_0000u64) / 0x10_0000_0000_0000u64;
    if e >= 1086 {
        return if negative { i64::MIN } else { i64::MAX };
    }
    if e < 1023 {
        return 0;
    }
    let sig: u128 = 0x10_0000_0000_0000u128 + (b % 0x10_0000_0000_0000u64) as u128;
    proof {
        lemma2_to64();
    }
    let t: u128 = if e >= 1075 {
        let f = pow2_exec((e - 1075) as u32);
        proof {
            if e - 1075 < 10 {
                lemma_pow2_strictly_increases((e - 1075) as nat, 10);
            }
            assert(pow2(10) == 1024);
            assert(sig * f < 0x8000_0000_0000_0000) by (nonlinear_arith)
                requires sig < 0x20_0000_0000_0000, f <= 1024;
        }
        sig * f
    } else {
        let d = pow2_exec((1075 - e) as u32);
        proof {
            lemma_pow2_pos((1075 - e) as nat);
            assert(sig / d <= sig) by (nonlinear_arith)
                requires d > 0;
        }
        sig / d
    };
    assert(t < 0x8000_0000_0000_0000);
    if negative {
        let ti: i128 = t as i128;
        (0i128 - ti) as i64
    } else {
        t as i64
    }
}

} // verus!
