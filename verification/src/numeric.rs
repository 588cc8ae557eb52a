//! The numbers that 32-bit integers and binary32 bit patterns stand for,
//! and how they compare.
//!
//! Every such number is a whole multiple of 2^-149, the least positive
//! binary32 number. So each gets a whole number, its size in that unit, and
//! numbers compare as those sizes do.

use vstd::arithmetic::power2::{
    lemma2_to64, lemma2_to64_rest, lemma_pow2_adds, lemma_pow2_pos, lemma_pow2_strictly_increases,
    lemma_pow2_unfold, pow2,
};
use vstd::prelude::*;

verus! {

/// Whether the sign bit of a binary32 bit pattern is set.
pub open spec fn is_negative(bits: int) -> bool {
    bits >= 0x8000_0000
}

/// A binary32 bit pattern without its sign bit.
pub open spec fn magnitude(bits: int) -> int {
    if bits >= 0x8000_0000 {
        bits - 0x8000_0000
    } else {
        bits
    }
}

/// Whether a binary32 bit pattern is a NaN: exponent all ones, mantissa not zero.
pub open spec fn bits_are_nan(bits: int) -> bool {
    magnitude(bits) > 0x7f80_0000
}

/// The absolute value of the float whose bit pattern, without the sign,
/// is `mag`, in units of 2^-149. With the exponent field `e` and the
/// mantissa field `m`, a subnormal float is `m` units, and a normal one
/// `(2^23 + m) * 2^(e - 1)` units. An infinity gets the size that the
/// formula gives it, which lies above every finite one.
pub open spec fn size_of(mag: int) -> int {
    let e = mag / 0x80_0000;
    let m = mag % 0x80_0000;
    if e == 0 {
        m
    } else {
        (m + 0x80_0000) * pow2((e - 1) as nat)
    }
}

/// The float with the given bit pattern, in units of 2^-149.
pub open spec fn float_scaled(bits: int) -> int {
    if is_negative(bits) {
        -size_of(magnitude(bits))
    } else {
        size_of(magnitude(bits))
    }
}

/// An integer, in units of 2^-149.
pub open spec fn int_scaled(i: int) -> int {
    i * pow2(149)
}

/// The place of a bit pattern among the bit patterns: the magnitude,
/// negated where the sign bit is set.
pub open spec fn float_key(bits: int) -> int {
    if is_negative(bits) {
        -magnitude(bits)
    } else {
        magnitude(bits)
    }
}

/// How two whole numbers stand to each other: -1 where the first is the
/// lesser, 0 where they are the same, 1 where the first is the greater.
pub open spec fn sign_of(a: int, b: int) -> int {
    if a < b {
        -1
    } else if a == b {
        0
    } else {
        1
    }
}

/// A product with a positive number keeps the order of the other factors.
pub proof fn lemma_scale(a: int, b: int, p: int)
    requires
        p > 0,
    ensures
        sign_of(a * p, b * p) == sign_of(a, b),
{
    assert(a < b ==> a * p < b * p) by (nonlinear_arith)
        requires
            p > 0,
    ;
    assert(a > b ==> a * p > b * p) by (nonlinear_arith)
        requires
            p > 0,
    ;
}

/// The size grows with the magnitude.
pub proof fn lemma_size_grows(x: int, y: int)
    requires
        0 <= x < y < 0x8000_0000,
    ensures
        0 <= size_of(x) < size_of(y),
{
    let ex = x / 0x80_0000;
    let mx = x % 0x80_0000;
    let ey = y / 0x80_0000;
    let my = y % 0x80_0000;
    assert(0 <= ex <= ey < 256);
    if ex > 0 {
        lemma_pow2_pos((ex - 1) as nat);
        assert(0 <= (mx + 0x80_0000) * pow2((ex - 1) as nat)) by (nonlinear_arith)
            requires
                0 <= mx,
                pow2((ex - 1) as nat) > 0,
        ;
    }
    lemma_pow2_pos((ey - 1) as nat);
    let py = pow2((ey - 1) as nat) as int;
    if ex == ey {
        if ex > 0 {
            lemma_scale(mx + 0x80_0000, my + 0x80_0000, py);
        }
    } else {
        assert(0x80_0000 * py <= (my + 0x80_0000) * py) by (nonlinear_arith)
            requires
                0 <= my,
                py > 0,
        ;
        assert(0x80_0000 <= 0x80_0000 * py) by (nonlinear_arith)
            requires
                py >= 1,
        ;
        if ex > 0 {
            let px = pow2((ex - 1) as nat) as int;
            lemma_pow2_unfold(ex as nat);
            assert(pow2(ex as nat) == 2 * px);
            if ex < ey - 1 {
                lemma_pow2_strictly_increases(ex as nat, (ey - 1) as nat);
            }
            assert(2 * px <= py);
            assert((mx + 0x80_0000) * px < 0x80_0000 * (2 * px)) by (nonlinear_arith)
                requires
                    0 <= mx < 0x80_0000,
                    px > 0,
            ;
            assert(0x80_0000 * (2 * px) <= 0x80_0000 * py) by (nonlinear_arith)
                requires
                    2 * px <= py,
            ;
        }
    }
}

/// Floats that are not NaN compare as their bit patterns do, read as a sign
/// and a magnitude.
pub proof fn lemma_float_order(x: int, y: int)
    requires
        0 <= x < 0x1_0000_0000,
        0 <= y < 0x1_0000_0000,
    ensures
        sign_of(float_scaled(x), float_scaled(y)) == sign_of(float_key(x), float_key(y)),
{
    let a = magnitude(x);
    let b = magnitude(y);
    assert(size_of(0) == 0);
    if a < b {
        lemma_size_grows(a, b);
    }
    if b < a {
        lemma_size_grows(b, a);
    }
    if 0 < a {
        lemma_size_grows(0, a);
    }
    if 0 < b {
        lemma_size_grows(0, b);
    }
}

/// The power of two with the given exponent.
pub fn two_to(n: u32) -> (r: i64)
    requires
        n <= 40,
    ensures
        r == pow2(n as nat),
        1 <= r <= 0x100_0000_0000,
{
    proof {
        lemma2_to64();
        lemma2_to64_rest();
    }
    let mut r: i64 = 1;
    let mut k: u32 = 0;
    while k < n
        invariant
            k <= n <= 40,
            r == pow2(k as nat),
            1 <= r <= pow2(40),
            pow2(40) == 0x100_0000_0000,
        decreases n - k,
    {
        proof {
            lemma_pow2_unfold((k + 1) as nat);
            if k + 1 < 40 {
                lemma_pow2_strictly_increases((k + 1) as nat, 40);
            }
        }
        r = r * 2;
        k += 1;
    }
    r
}

/// How two whole numbers stand to each other.
pub fn sign(a: i64, b: i64) -> (r: i8)
    ensures
        r == sign_of(a as int, b as int),
{
    if a < b {
        -1
    } else if a == b {
        0
    } else {
        1
    }
}

/// The float with the given sign, exponent field and mantissa field, in
/// units of 2^-149.
pub open spec fn float_of_fields(negative: bool, e: int, m: int) -> int {
    let size = if e == 0 {
        m
    } else {
        (m + 0x80_0000) * pow2((e - 1) as nat)
    };
    if negative {
        -size
    } else {
        size
    }
}

/// What holds of an integer in units of 2^-149: one unit of the integers
/// is more than 2^24 of those units.
proof fn lemma_int_units(i: int)
    ensures
        pow2(149) > 0x100_0000,
        i >= 1 ==> int_scaled(i) >= pow2(149),
        i <= -1 ==> int_scaled(i) <= -pow2(149),
        i == 0 ==> int_scaled(i) == 0,
{
    lemma2_to64();
    lemma_pow2_strictly_increases(24, 149);
    let unit = pow2(149) as int;
    assert(i >= 1 ==> i * unit >= unit) by (nonlinear_arith)
        requires
            unit > 0,
    ;
    assert(i <= -1 ==> i * unit <= -unit) by (nonlinear_arith)
        requires
            unit > 0,
    ;
    assert(i == 0 ==> i * unit == 0) by (nonlinear_arith);
}

/// An integer against a subnormal float, or zero: the float is less than
/// one unit of the integers.
fn int_against_subnormal(i: i32, negative: bool, m: u32) -> (r: i8)
    requires
        m < 0x80_0000,
    ensures
        r == sign_of(int_scaled(i as int), float_of_fields(negative, 0, m as int)),
{
    proof {
        lemma_int_units(i as int);
    }
    if i > 0 {
        1
    } else if i < 0 {
        -1
    } else if m == 0 {
        0
    } else if negative {
        1
    } else {
        -1
    }
}

/// An integer against a float of at least 2^31 in absolute value: the
/// float lies beyond every integer, but that the least integer is -2^31.
fn int_against_huge(i: i32, negative: bool, e: u32, m: u32) -> (r: i8)
    requires
        158 <= e <= 255,
        m < 0x80_0000,
    ensures
        r == sign_of(int_scaled(i as int), float_of_fields(negative, e as int, m as int)),
{
    proof {
        let whole = i as int;
        let unit = pow2(149) as int;
        let high = pow2((e - 1) as nat) as int;
        let mant = m + 0x80_0000;
        lemma2_to64();
        lemma_pow2_pos(149);
        lemma_pow2_pos(157);
        lemma_pow2_pos((e - 1) as nat);
        lemma_pow2_adds(31, 149);
        lemma_pow2_adds(23, 157);
        let edge = pow2(180) as int;
        assert(edge == 0x8000_0000 * unit);
        assert(edge == 0x80_0000 * pow2(157));
        if e > 158 {
            lemma_pow2_strictly_increases(157, (e - 1) as nat);
        }
        assert(high >= pow2(157));
        assert(mant * high >= 0x80_0000 * pow2(157)) by (nonlinear_arith)
            requires
                mant >= 0x80_0000,
                high >= pow2(157),
                pow2(157) > 0,
        ;
        assert(e > 158 ==> mant * high > 0x80_0000 * pow2(157)) by (nonlinear_arith)
            requires
                mant >= 0x80_0000,
                high > 0,
                e > 158 ==> high > pow2(157),
                pow2(157) > 0,
        ;
        assert(m > 0 ==> mant * high > 0x80_0000 * pow2(157)) by (nonlinear_arith)
            requires
                mant == m + 0x80_0000,
                high >= pow2(157),
                pow2(157) > 0,
        ;
        assert(e == 158 && m == 0 ==> mant * high == 0x80_0000 * pow2(157));
        assert(whole * unit < 0x8000_0000 * unit) by (nonlinear_arith)
            requires
                whole < 0x8000_0000,
                unit > 0,
        ;
        assert(whole * unit >= -0x8000_0000 * unit) by (nonlinear_arith)
            requires
                whole >= -0x8000_0000,
                unit > 0,
        ;
        assert(whole > -0x8000_0000 ==> whole * unit > -0x8000_0000 * unit) by (nonlinear_arith)
            requires
                unit > 0,
        ;
        assert(whole == -0x8000_0000 ==> whole * unit == -0x8000_0000 * unit)
            by (nonlinear_arith);
    }
    if !negative {
        -1
    } else if i == i32::MIN && e == 158 && m == 0 {
        0
    } else {
        1
    }
}

/// An integer against a float that is a whole number below 2^31 in
/// absolute value.
fn int_against_whole(i: i32, negative: bool, e: u32, m: u32) -> (r: i8)
    requires
        150 <= e < 158,
        m < 0x80_0000,
    ensures
        r == sign_of(int_scaled(i as int), float_of_fields(negative, e as int, m as int)),
{
    let mant: i64 = m as i64 + 0x80_0000;
    let k = e - 150;
    let scale = two_to(k);
    let ghost unit = pow2(149) as int;
    let ghost high = pow2((e - 1) as nat) as int;
    proof {
        lemma2_to64();
        lemma_pow2_pos(149);
        lemma_pow2_strictly_increases(k as nat, 8);
        assert(scale < 256);
        assert(0 <= mant * scale < 0x100_0000 * 256) by (nonlinear_arith)
            requires
                0 <= mant < 0x100_0000,
                0 < scale < 256,
        ;
    }
    let f = mant * scale;
    let signed = if negative {
        -f
    } else {
        f
    };
    proof {
        lemma_pow2_adds(k as nat, 149);
        assert(high == scale * unit);
        assert(mant * high == f * unit) by (nonlinear_arith)
            requires
                high == scale * unit,
                f == mant * scale,
        ;
        assert((-f) * unit == -(f * unit)) by (nonlinear_arith);
        lemma_scale(i as int, signed as int, unit);
    }
    sign(i as i64, signed)
}

/// An integer against a normal float that is no whole number, or a whole
/// number below 2^24 in absolute value.
fn int_against_fraction(i: i32, negative: bool, e: u32, m: u32) -> (r: i8)
    requires
        1 <= e < 150,
        m < 0x80_0000,
    ensures
        r == sign_of(int_scaled(i as int), float_of_fields(negative, e as int, m as int)),
{
    let whole = i as i64;
    let mant: i64 = m as i64 + 0x80_0000;
    let d = 150 - e;
    let signed = if negative {
        -mant
    } else {
        mant
    };
    let ghost unit = pow2(149) as int;
    let ghost high = pow2((e - 1) as nat) as int;
    let ghost p = pow2(d as nat) as int;
    proof {
        lemma2_to64();
        lemma_pow2_pos((e - 1) as nat);
        lemma_pow2_adds(d as nat, (e - 1) as nat);
        assert(unit == p * high);
        assert((-mant) * high == -(mant * high)) by (nonlinear_arith);
        assert(whole * unit == (whole * p) * high) by (nonlinear_arith)
            requires
                unit == p * high,
        ;
        lemma_scale(whole * p, signed as int, high);
    }
    if d >= 24 {
        // The float is less than one in absolute value, and not zero.
        proof {
            if d > 24 {
                lemma_pow2_strictly_increases(24, d as nat);
            }
            assert(p >= 0x100_0000);
            assert(whole >= 1 ==> whole * p >= 0x100_0000) by (nonlinear_arith)
                requires
                    p >= 0x100_0000,
            ;
            assert(whole <= -1 ==> whole * p <= -0x100_0000) by (nonlinear_arith)
                requires
                    p >= 0x100_0000,
            ;
            assert(whole == 0 ==> whole * p == 0) by (nonlinear_arith);
        }
        if whole > 0 {
            1
        } else if whole < 0 {
            -1
        } else if negative {
            1
        } else {
            -1
        }
    } else {
        let scale = two_to(d);
        proof {
            lemma_pow2_strictly_increases(d as nat, 24);
            assert(scale < 0x100_0000);
            assert(-0x8000_0000 * 0x100_0000 <= whole * scale <= 0x8000_0000 * 0x100_0000)
                by (nonlinear_arith)
                requires
                    -0x8000_0000 <= whole <= 0x8000_0000,
                    0 < scale < 0x100_0000,
            ;
        }
        let left = whole * scale;
        sign(left, signed)
    }
}

/// How an integer stands to the float with the given bit pattern, which is
/// no NaN: -1 where the integer is the lesser number, 0 where the two are
/// the same number, 1 where the integer is the greater.
pub fn int_against_float(i: i32, bits: u32) -> (r: i8)
    requires
        !bits_are_nan(bits as int),
    ensures
        r == sign_of(int_scaled(i as int), float_scaled(bits as int)),
{
    let negative = bits >= 0x8000_0000;
    let mag: u32 = if negative {
        bits - 0x8000_0000
    } else {
        bits
    };
    let e: u32 = mag / 0x80_0000;
    let m: u32 = mag % 0x80_0000;
    assert(float_scaled(bits as int) == float_of_fields(negative, e as int, m as int));
    if e == 0 {
        int_against_subnormal(i, negative, m)
    } else if e >= 158 {
        int_against_huge(i, negative, e, m)
    } else if e >= 150 {
        int_against_whole(i, negative, e, m)
    } else {
        int_against_fraction(i, negative, e, m)
    }
}

} // verus!
