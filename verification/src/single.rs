//! Single-precision arithmetic on whole numbers.
//!
//! A positive single-precision number keeps 24 binary digits. Counted in units
//! that are small enough it is a whole number, and each operation is the exact one
//! followed by rounding to the nearest number of 24 digits, ties to even. That is
//! how weighted sums of channel values come out.

use vstd::prelude::*;
use vstd::arithmetic::power2::{lemma_pow2_strictly_increases, lemma_pow2_unfold, pow2};

verus! {

/// The step between neighbouring numbers of 24 digits around `n`.
pub open spec fn grain(n: nat) -> nat
    decreases n,
{
    if n < 0x100_0000 {
        1
    } else {
        2 * grain(n / 2)
    }
}

/// `n` rounded to a multiple of `step`, ties to an even multiple.
pub open spec fn nearest(n: nat, step: nat) -> nat {
    let whole = n / step;
    let rest = n % step;
    if 2 * rest > step || (2 * rest == step && whole % 2 == 1) {
        (whole + 1) * step
    } else {
        whole * step
    }
}

/// `n` rounded to single precision.
pub open spec fn single(n: nat) -> nat {
    nearest(n, grain(n))
}

/// A power of two.
pub open spec fn is_power(w: nat) -> bool
    decreases w,
{
    w == 1 || (w > 1 && w % 2 == 0 && is_power(w / 2))
}

/// The step divides any power of two that is not smaller.
pub proof fn lemma_grain_divides(n: nat, w: nat)
    requires
        is_power(w),
        n < 0x100_0000 * w,
    ensures
        0 < grain(n) <= w,
        w % grain(n) == 0,
    decreases n,
{
    if n >= 0x100_0000 {
        let half = w / 2;
        assert(w == 2 * half);
        lemma_grain_divides(n / 2, half);
        let g = grain(n / 2);
        vstd::arithmetic::div_mod::lemma_fundamental_div_mod(half as int, g as int);
        let q = half / g;
        assert(w == (2 * g) * q) by (nonlinear_arith)
            requires
                w == 2 * half,
                half == g * q,
        ;
        assert(((2 * g) * q) % (2 * g) == 0) by {
            vstd::arithmetic::div_mod::lemma_mod_multiples_basic(q as int, (2 * g) as int);
            assert(q * (2 * g) == (2 * g) * q) by (nonlinear_arith);
        }
    }
}

/// Rounding does not pass a multiple of the step that `n` does not pass by half a
/// step.
pub proof fn lemma_nearest_bound(n: nat, step: nat, bound: nat)
    requires
        step > 0,
        2 * n < 2 * bound + step,
        bound % step == 0,
    ensures
        nearest(n, step) <= bound,
{
    let whole = n / step;
    let most = bound / step;
    vstd::arithmetic::div_mod::lemma_fundamental_div_mod(n as int, step as int);
    vstd::arithmetic::div_mod::lemma_fundamental_div_mod(bound as int, step as int);
    assert(step * whole == whole * step) by (nonlinear_arith);
    assert(step * most == most * step) by (nonlinear_arith);
    assert((whole + 1) * step == whole * step + step) by (nonlinear_arith);
    if whole > most {
        assert(whole * step >= most * step + step) by (nonlinear_arith)
            requires
                whole >= most + 1,
                step > 0,
        ;
    } else if whole < most {
        assert((whole + 1) * step <= most * step) by (nonlinear_arith)
            requires
                whole + 1 <= most,
                step > 0,
        ;
    }
}

/// Rounding does not pass a number that is kept as it is.
pub proof fn lemma_single_bound(n: nat, bound: nat, w: nat)
    requires
        n <= bound,
        is_power(w),
        n < 0x100_0000 * w,
        bound % w == 0,
    ensures
        single(n) <= bound,
{
    lemma_grain_divides(n, w);
    let g = grain(n);
    lemma_divides_through(g, w, bound);
    lemma_nearest_bound(n, g, bound);
}

proof fn lemma_divides_through(g: nat, w: nat, bound: nat)
    requires
        g > 0,
        w > 0,
        w % g == 0,
        bound % w == 0,
    ensures
        bound % g == 0,
{
    vstd::arithmetic::div_mod::lemma_fundamental_div_mod(w as int, g as int);
    vstd::arithmetic::div_mod::lemma_fundamental_div_mod(bound as int, w as int);
    let a = w / g;
    let b = bound / w;
    assert(bound == (a * b) * g) by (nonlinear_arith)
        requires
            w == g * a,
            bound == w * b,
    ;
    vstd::arithmetic::div_mod::lemma_mod_multiples_basic((a * b) as int, g as int);
}

/// Rounding moves a number by less than a step.
pub proof fn lemma_single_is_near(n: nat, w: nat)
    requires
        is_power(w),
        n < 0x100_0000 * w,
    ensures
        n < single(n) + w,
        single(n) <= n + w,
{
    lemma_grain_divides(n, w);
    let step = grain(n);
    vstd::arithmetic::div_mod::lemma_fundamental_div_mod(n as int, step as int);
    assert(step * (n / step) == (n / step) * step) by (nonlinear_arith);
    assert((n / step + 1) * step == (n / step) * step + step) by (nonlinear_arith);
}

/// A number of 24 digits, or one that ends in enough zeros, is kept as it is.
pub proof fn lemma_single_keeps(n: nat, w: nat)
    requires
        is_power(w),
        n < 0x100_0000 * w,
        n % w == 0,
    ensures
        single(n) == n,
{
    lemma_grain_divides(n, w);
    let g = grain(n);
    lemma_divides_through(g, w, n);
    vstd::arithmetic::div_mod::lemma_fundamental_div_mod(n as int, g as int);
    assert(g * (n / g) == (n / g) * g) by (nonlinear_arith);
}

/// The fraction `n / d` rounded to 24 digits, where it has as many before its point.
pub open spec fn single_ratio(n: nat, d: nat) -> nat {
    nearest(n, d * grain(n / d)) / d
}

/// The step between neighbouring numbers of 24 digits.
fn find_grain(n: u64) -> (r: u64)
    requires
        n <= 0x400_0000_0000,
    ensures
        r == grain(n as nat),
        1 <= r <= 0x8_0000,
{
    let mut step: u64 = 1;
    let mut left: u64 = n;
    while left >= 0x100_0000
        invariant
            n <= 0x400_0000_0000,
            step >= 1,
            left * step <= n,
            step == 1 || left >= 0x80_0000,
            grain(n as nat) == step * grain(left as nat),
        decreases left,
    {
        let half: u64 = left / 2;
        proof {
            let g = grain(half as nat);
            assert(grain(left as nat) == 2 * g);
            assert(step * (2 * g) == (2 * step) * g) by (nonlinear_arith);
            assert(half * (2 * step) <= left * step) by (nonlinear_arith)
                requires
                    2 * half <= left,
                    step >= 1,
            ;
            assert(step <= n) by (nonlinear_arith)
                requires
                    left * step <= n,
                    left >= 1,
                    step >= 1,
            ;
        }
        step = 2 * step;
        left = half;
    }
    proof {
        let g = grain(left as nat);
        assert(step * g == step) by (nonlinear_arith)
            requires
                g == 1,
        ;
        assert(step <= 0x8_0000) by (nonlinear_arith)
            requires
                step == 1 || left >= 0x80_0000,
                left * step <= n,
                n <= 0x400_0000_0000,
                step >= 1,
        ;
    }
    step
}

/// Round to a multiple of a step.
fn to_nearest(n: u64, step: u64) -> (r: u64)
    requires
        n <= 0x400_0000_0000,
        1 <= step <= 0x400_0000_0000,
    ensures
        r == nearest(n as nat, step as nat),
{
    let whole: u64 = n / step;
    let rest: u64 = n % step;
    proof {
        vstd::arithmetic::div_mod::lemma_fundamental_div_mod(n as int, step as int);
        assert((whole + 1) * step == step * (n as int / step as int) + step) by (nonlinear_arith)
            requires
                whole == n as int / step as int,
        ;
        assert(0 <= whole * step <= (whole + 1) * step) by (nonlinear_arith)
            requires
                step > 0,
                whole >= 0,
        ;
    }
    if 2 * rest > step || (2 * rest == step && whole % 2 == 1) {
        (whole + 1) * step
    } else {
        whole * step
    }
}

/// Round to single precision.
pub fn round(n: u64) -> (r: u64)
    requires
        n <= 0x400_0000_0000,
    ensures
        r == single(n as nat),
{
    let step: u64 = find_grain(n);
    to_nearest(n, step)
}

/// Round a fraction to 24 digits.
pub fn round_ratio(n: u64, d: u64) -> (r: u64)
    requires
        n <= 0x400_0000_0000,
        1 <= d <= 255,
    ensures
        r == single_ratio(n as nat, d as nat),
{
    proof {
        assert(n as int / d as int <= n) by (nonlinear_arith)
            requires
                d >= 1,
                n >= 0,
        ;
    }
    let step: u64 = find_grain(n / d);
    proof {
        assert(1 <= d * step <= 255 * 0x8_0000) by (nonlinear_arith)
            requires
                1 <= d <= 255,
                1 <= step <= 0x8_0000,
        ;
    }
    to_nearest(n, d * step) / d
}

/// The bits of the fraction `n / d`, which is at most one, rounded to single
/// precision. A number's half has the same digits and the exponent below.
pub open spec fn fraction_bits(n: nat, d: nat) -> int
    decreases
            if n >= d {
                0
            } else {
                d - n
            },
{
    if n == 0 || d == 0 {
        0
    } else if n >= d {
        0x3f80_0000 + nearest(n * 0x80_0000, d) / d - 0x80_0000
    } else {
        fraction_bits(2 * n, d) - 0x80_0000
    }
}

/// The fraction of equal numbers is one.
pub proof fn lemma_whole_fraction(n: nat)
    requires
        n > 0,
    ensures
        fraction_bits(n, n) == 0x3f80_0000,
{
    vstd::arithmetic::div_mod::lemma_div_multiples_vanish(0x80_0000, n as int);
    vstd::arithmetic::div_mod::lemma_mod_multiples_basic(0x80_0000, n as int);
    assert(n * 0x80_0000 == 0x80_0000 * n);
}

/// `p` in units of which `2^150` make `2^exponent`, to the nearest whole number;
/// halves are rounded up.
pub open spec fn to_whole(p: nat, exponent: nat) -> nat {
    if exponent >= 150 {
        p * pow2((exponent - 150) as nat)
    } else {
        (2 * p + pow2((150 - exponent) as nat)) / pow2((151 - exponent) as nat)
    }
}

/// A hundred times the number with the given bits, in single precision, to the
/// nearest whole number that a result can hold; halves are rounded away from zero,
/// and what is not a number comes out as zero.
pub open spec fn hundredths(bits: u32) -> int {
    let fraction = bits as nat % 0x80_0000;
    let exponent = bits as nat / 0x80_0000 % 0x100;
    let size = if exponent == 0 || (exponent == 255 && fraction > 0) {
        0
    } else {
        to_whole(single(100 * (0x80_0000 + fraction)), exponent)
    };
    if bits < 0x8000_0000 {
        if size > i32::MAX {
            i32::MAX as int
        } else {
            size as int
        }
    } else {
        if size > i32::MAX {
            i32::MIN as int
        } else {
            -size
        }
    }
}

/// A power of two.
fn power(k: u32) -> (r: u64)
    requires
        k <= 40,
    ensures
        r == pow2(k as nat),
        r <= 0x100_0000_0000,
{
    proof {
        vstd::arithmetic::power2::lemma2_to64();
        vstd::arithmetic::power2::lemma2_to64_rest();
        if k < 40 {
            lemma_pow2_strictly_increases(k as nat, 40);
        }
        vstd::bits::lemma_u64_shl_is_mul(1, k as u64);
    }
    1u64 << (k as u64)
}

proof fn lemma_hundredfold(fraction: nat)
    requires
        fraction < 0x80_0000,
    ensures
        0x10_0000 <= single(100 * (0x80_0000 + fraction)) <= 0x6400_0000,
{
    let n = 100 * (0x80_0000 + fraction);
    assert(is_power(128)) by {
        reveal_with_fuel(is_power, 8);
    }
    lemma_single_is_near(n, 128);
    lemma_single_bound(n, 0x6400_0000, 128);
}

/// A number too small to make half of one.
proof fn lemma_small_vanishes(p: nat, exponent: nat)
    requires
        p <= 0x6400_0000,
        exponent <= 117,
    ensures
        to_whole(p, exponent) == 0,
{
    let k = (150 - exponent) as nat;
    vstd::arithmetic::power2::lemma2_to64();
    vstd::arithmetic::power2::lemma2_to64_rest();
    if k > 33 {
        lemma_pow2_strictly_increases(33, k);
    }
    lemma_pow2_unfold(k + 1);
    vstd::arithmetic::div_mod::lemma_basic_div((2 * p + pow2(k)) as int, pow2(k + 1) as int);
}

/// A number too large for a result to hold.
proof fn lemma_large_overflows(p: nat, exponent: nat)
    requires
        p >= 0x10_0000,
        exponent >= 161,
    ensures
        to_whole(p, exponent) > i32::MAX,
{
    let k = (exponent - 150) as nat;
    vstd::arithmetic::power2::lemma2_to64();
    if k > 11 {
        lemma_pow2_strictly_increases(11, k);
    }
    assert(p * pow2(k) >= 0x10_0000 * 0x800) by (nonlinear_arith)
        requires
            p >= 0x10_0000,
            pow2(k) >= 0x800,
    ;
}

/// A hundred times a number, to the nearest whole number.
pub fn in_hundredths(bits: u32) -> (r: i32)
    ensures
        r == hundredths(bits),
{
    let fraction: u32 = bits % 0x80_0000;
    let exponent: u32 = bits / 0x80_0000 % 0x100;
    let size: u64 = if exponent == 0 || (exponent == 255 && fraction > 0) {
        0
    } else {
        let p: u64 = round(100 * (0x80_0000 + fraction as u64));
        proof {
            lemma_hundredfold(fraction as nat);
        }
        if exponent >= 161 {
            proof {
                lemma_large_overflows(p as nat, exponent as nat);
            }
            0x8000_0000
        } else if exponent >= 150 {
            let w: u64 = power(exponent - 150);
            proof {
                vstd::arithmetic::power2::lemma2_to64();
                if exponent < 160 {
                    lemma_pow2_strictly_increases((exponent - 150) as nat, 10);
                }
                assert(p * w <= 0x6400_0000 * 0x400) by (nonlinear_arith)
                    requires
                        p <= 0x6400_0000,
                        w <= 0x400,
                ;
            }
            p * w
        } else if exponent <= 117 {
            proof {
                lemma_small_vanishes(p as nat, exponent as nat);
            }
            0
        } else {
            let half: u64 = power(150 - exponent);
            let unit: u64 = power(151 - exponent);
            proof {
                vstd::arithmetic::power2::lemma_pow2_pos((151 - exponent) as nat);
            }
            (2 * p + half) / unit
        }
    };
    if bits < 0x8000_0000 {
        if size > 0x7fff_ffff {
            i32::MAX
        } else {
            size as i32
        }
    } else {
        if size > 0x7fff_ffff {
            i32::MIN
        } else {
            -(size as i32)
        }
    }
}

/// `n` times the number with the given bits, in single precision, cut to a whole
/// number from 0 to 255. What is not a number comes out as zero.
pub open spec fn byte_times(n: u8, bits: u32) -> nat {
    let fraction = bits as nat % 0x80_0000;
    let exponent = bits as nat / 0x80_0000 % 0x100;
    let size = if bits >= 0x8000_0000 || exponent == 0 || (exponent == 255 && fraction > 0) {
        0
    } else {
        let p = single((n * (0x80_0000 + fraction)) as nat);
        if exponent >= 150 {
            p * pow2((exponent - 150) as nat)
        } else {
            p / pow2((150 - exponent) as nat)
        }
    };
    if size > 255 {
        255
    } else {
        size
    }
}

proof fn lemma_byte_product(n: u8, fraction: nat)
    requires
        fraction < 0x80_0000,
    ensures
        single((n * (0x80_0000 + fraction)) as nat) <= 0x1_0000_0000,
        n > 0 ==> single((n * (0x80_0000 + fraction)) as nat) >= 0x40_0000,
        n == 0 ==> single((n * (0x80_0000 + fraction)) as nat) == 0,
{
    let d = 0x80_0000 + fraction;
    let product = (n * d) as nat;
    assert(is_power(256)) by {
        reveal_with_fuel(is_power, 9);
    }
    assert(0 <= n * d <= 255 * 0x100_0000 && (n > 0 ==> n * d >= d) && (n == 0 ==> n * d == 0))
        by (nonlinear_arith)
        requires
            0 <= n <= 255,
            0x80_0000 <= d <= 0x100_0000,
    ;
    lemma_single_is_near(product, 256);
    lemma_single_bound(product, 0x1_0000_0000, 256);
    if n == 0 {
        lemma_single_keeps(0, 256);
    }
}

/// A byte times a number, cut to a byte.
pub fn times_byte(n: u8, bits: u32) -> (r: u8)
    ensures
        r == byte_times(n, bits),
{
    let fraction: u32 = bits % 0x80_0000;
    let exponent: u32 = bits / 0x80_0000 % 0x100;
    if bits >= 0x8000_0000 || exponent == 0 || (exponent == 255 && fraction > 0) {
        return 0;
    }
    proof {
        lemma_byte_product(n, fraction as nat);
        assert(0 <= n * (0x80_0000 + fraction) <= 255 * 0x100_0000) by (nonlinear_arith)
            requires
                0 <= n <= 255,
                0 <= fraction < 0x80_0000,
        ;
        vstd::arithmetic::power2::lemma2_to64();
        vstd::arithmetic::power2::lemma2_to64_rest();
    }
    let p: u64 = round(n as u64 * (0x80_0000 + fraction as u64));
    let size: u64 = if exponent >= 150 {
        proof {
            let w = pow2((exponent - 150) as nat);
            vstd::arithmetic::power2::lemma_pow2_pos((exponent - 150) as nat);
            assert(p > 0 ==> p * w >= p) by (nonlinear_arith)
                requires
                    w > 0,
            ;
            assert(p == 0 ==> p * w == 0);
        }
        p
    } else if exponent <= 117 {
        proof {
            if exponent < 117 {
                lemma_pow2_strictly_increases(33, (150 - exponent) as nat);
            }
            vstd::arithmetic::div_mod::lemma_basic_div(
                p as int,
                pow2((150 - exponent) as nat) as int,
            );
        }
        0
    } else {
        let unit: u64 = power(150 - exponent);
        proof {
            vstd::arithmetic::power2::lemma_pow2_pos((150 - exponent) as nat);
        }
        p / unit
    };
    if size > 255 {
        255
    } else {
        size as u8
    }
}

/// A share, which is at most one, makes at most a hundred hundredths, and a whole
/// one makes all of them.
pub proof fn lemma_share_in_hundredths(bits: u32)
    requires
        bits <= 0x3f80_0000,
    ensures
        0 <= hundredths(bits) <= 100,
        hundredths(0x3f80_0000) == 100,
{
    vstd::arithmetic::power2::lemma2_to64();
    assert(is_power(128)) by {
        reveal_with_fuel(is_power, 8);
    }
    lemma_single_keeps(100 * 0x80_0000, 128);
    assert(to_whole(100 * 0x80_0000, 127) == 100) by {
        let exponent = 127nat;
        assert((150 - exponent) as nat == 23 && (151 - exponent) as nat == 24);
        assert((2 * (100 * 0x80_0000) + 0x80_0000) / 0x100_0000 == 100);
    }
    assert(0x3f80_0000nat % 0x80_0000 == 0 && 0x3f80_0000nat / 0x80_0000 % 0x100 == 127);
    let fraction = bits as nat % 0x80_0000;
    let exponent = bits as nat / 0x80_0000 % 0x100;
    if 0 < exponent <= 126 {
        lemma_hundredfold(fraction);
        let p = single(100 * (0x80_0000 + fraction));
        let k = (150 - exponent) as nat;
        if k > 24 {
            lemma_pow2_strictly_increases(24, k);
        }
        lemma_pow2_unfold(k + 1);
        let w = pow2(k);
        assert((2 * p + w) / (2 * w) <= 100) by (nonlinear_arith)
            requires
                p <= 100 * w,
                w > 0,
        ;
    }
}

/// A byte times a level is their product, to within the precision of the level, cut to a
/// whole number and to the largest byte. The level is the number whose digits, a one and 23
/// more, stand in units of so much as the exponent says.
pub proof fn lemma_level_scales(n: u8, bits: u32, r: u8)
    requires
        call_ensures(times_byte, (n, bits), r),
        bits < 0x8000_0000,
        118 <= bits / 0x80_0000 < 150,
    ensures
        ({
            let digits = 0x80_0000 + bits as int % 0x80_0000;
            let one = pow2((150 - bits as int / 0x80_0000) as nat) as int;
            &&& r * one <= n * digits + 256
            &&& r < 255 ==> n * digits < (r + 1) * one + 256
        }),
{
    let fraction = bits as nat % 0x80_0000;
    let exponent = bits as nat / 0x80_0000 % 0x100;
    assert(exponent == bits as int / 0x80_0000);
    let product = (n * (0x80_0000 + fraction)) as nat;
    assert(0 <= n * (0x80_0000 + fraction) < 0x100_0000 * 256) by (nonlinear_arith)
        requires
            0 <= n <= 255,
            0 <= fraction < 0x80_0000,
    ;
    assert(is_power(256)) by {
        reveal_with_fuel(is_power, 9);
    }
    lemma_single_is_near(product, 256);
    let p = single(product) as int;
    let one = pow2((150 - exponent) as nat) as int;
    vstd::arithmetic::power2::lemma_pow2_pos((150 - exponent) as nat);
    let q = p / one;
    assert(q * one <= p < (q + 1) * one) by (nonlinear_arith)
        requires
            q == p / one,
            one > 0,
            p >= 0,
    ;
    if q > 255 {
        assert(255 * one <= q * one) by (nonlinear_arith)
            requires
                q >= 255,
                one > 0,
        ;
    }
}

/// A level of one leaves a byte as it is, and no level makes something of nothing.
pub proof fn lemma_full_level_keeps(n: u8, r: u8, bits: u32, dark: u8)
    requires
        call_ensures(times_byte, (n, 0x3f80_0000u32), r),
        call_ensures(times_byte, (0u8, bits), dark),
    ensures
        r == n,
        dark == 0,
{
    assert(0x3f80_0000nat % 0x80_0000 == 0 && 0x3f80_0000nat / 0x80_0000 % 0x100 == 127);
    vstd::arithmetic::power2::lemma2_to64();
    assert(is_power(256)) by {
        reveal_with_fuel(is_power, 9);
    }
    let product = (n * 0x80_0000) as nat;
    assert(product % 256 == 0) by {
        assert(product == (n * 0x8000) * 256);
    }
    lemma_single_keeps(product, 256);
    assert(product / 0x80_0000 == n);
    lemma_byte_product(0, bits as nat % 0x80_0000);
    let exponent = bits as nat / 0x80_0000 % 0x100;
    if exponent >= 150 {
        let w = pow2((exponent - 150) as nat);
        assert(0 * w == 0);
    } else {
        vstd::arithmetic::power2::lemma_pow2_pos((150 - exponent) as nat);
        vstd::arithmetic::div_mod::lemma_basic_div(0, pow2((150 - exponent) as nat) as int);
    }
}

/// A number is told in hundredths to the nearest one, to within the precision it has: a share
/// of its digits, in the units that its exponent says.
pub proof fn lemma_hundredths_are_nearest(bits: u32, r: i32)
    requires
        call_ensures(in_hundredths, (bits,), r),
        bits < 0x8000_0000,
        118 <= bits / 0x80_0000 <= 127,
    ensures
        ({
            let digits = 0x80_0000 + bits as int % 0x80_0000;
            let one = pow2((150 - bits as int / 0x80_0000) as nat) as int;
            &&& 2 * r * one <= 200 * digits + one + 256
            &&& 200 * digits + one < 2 * (r + 1) * one + 256
        }),
{
    let fraction = bits as nat % 0x80_0000;
    let exponent = bits as nat / 0x80_0000 % 0x100;
    assert(exponent == bits as int / 0x80_0000);
    let product = 100 * (0x80_0000 + fraction);
    assert(is_power(128)) by {
        reveal_with_fuel(is_power, 8);
    }
    lemma_single_is_near(product, 128);
    let p = single(product) as int;
    let k = (150 - exponent) as nat;
    let one = pow2(k) as int;
    lemma_pow2_unfold(k + 1);
    vstd::arithmetic::power2::lemma_pow2_pos(k);
    assert(pow2((151 - exponent) as nat) == 2 * one);
    vstd::arithmetic::power2::lemma2_to64();
    if k > 23 {
        lemma_pow2_strictly_increases(23, k);
    }
    let q = (2 * p + one) / (2 * one);
    assert(q * (2 * one) <= 2 * p + one < (q + 1) * (2 * one)) by (nonlinear_arith)
        requires
            q == (2 * p + one) / (2 * one),
            one > 0,
            p >= 0,
    ;
    assert(0 <= q <= 0x7fff_ffff) by (nonlinear_arith)
        requires
            q * (2 * one) <= 2 * p + one,
            q == (2 * p + one) / (2 * one),
            one >= 0x80_0000,
            0 <= p <= 0x7000_0000,
    ;
    assert(q * (2 * one) == 2 * q * one && (q + 1) * (2 * one) == 2 * (q + 1) * one)
        by (nonlinear_arith);
    assert(r == q);
}

proof fn lemma_grain_is_fine(n: nat)
    requires
        n >= 0x80_0000,
    ensures
        grain(n) * 0x80_0000 <= n,
        grain(n) >= 1,
    decreases n,
{
    if n >= 0x100_0000 {
        lemma_grain_is_fine(n / 2);
    }
}

/// Rounding to single precision keeps a number of up to 24 digits, and moves any other by no
/// more than one part in sixteen million.
pub proof fn lemma_rounding_is_close(n: u64, r: u64)
    requires
        call_ensures(round, (n,), r),
    ensures
        n < 0x100_0000 ==> r == n,
        r >= n ==> (r - n) * 0x100_0000 <= n,
        r < n ==> (n - r) * 0x100_0000 <= n,
{
    let step = grain(n as nat);
    if n < 0x100_0000 {
        assert(step == 1);
        assert(n as nat / 1 == n && n as nat % 1 == 0);
    } else {
        lemma_grain_is_fine(n as nat);
        let whole = n as nat / step;
        let rest = n as nat % step;
        vstd::arithmetic::div_mod::lemma_fundamental_div_mod(n as int, step as int);
        assert(step * whole == whole * step) by (nonlinear_arith);
        assert((whole + 1) * step == whole * step + step) by (nonlinear_arith);
        assert(r == whole * step || r == (whole + 1) * step);
    }
}

} // verus!
