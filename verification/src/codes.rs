//! Signed 16-bit codes of amplitudes: the code 32767 stands for 1, and -32767 for -1.
//!
//! An amplitude is a code divided by 32767, and a code is an amplitude times 32767,
//! without its fractional part. Quotient and product are rounded as binary32
//! numbers are.

use crate::rounding::{
    nearest, nearest_is, nearest_is_near, round24, round_to_24_bits, rounding_is_exact,
    rounding_keeps_order, unit_is,
};
use crate::sample::{unit_is_in_range, Sample, MINUS_ONE, ONE, SIGN};
use vstd::arithmetic::power2::{
    lemma2_to64, lemma_pow2_adds, lemma_pow2_pos, lemma_pow2_strictly_increases, lemma_pow2_unfold,
    pow2,
};
use vstd::prelude::*;

verus! {

/// The code of the amplitude 1.
pub const FULL_SCALE: u64 = 0x7fff;

/// The least multiple of [`FULL_SCALE`] whose quotient has 24 significant bits.
pub const NORMAL: u64 = 0x7fff * 0x80_0000;

/// How often `n` has to be doubled until dividing it by [`FULL_SCALE`] gives 24
/// significant bits.
pub open spec fn lifts(n: nat) -> nat
    decreases
        (if n < NORMAL {
            NORMAL - n
        } else {
            0
        }),
{
    if n == 0 || n >= NORMAL {
        0
    } else {
        1 + lifts(2 * n)
    }
}

/// The size of a code, without its sign.
pub open spec fn code_size(code: i16) -> nat {
    if code < 0 {
        (-code) as nat
    } else {
        code as nat
    }
}

/// The 24 significant bits of `n` divided by [`FULL_SCALE`], rounded to nearest.
pub open spec fn quotient(n: nat) -> int {
    nearest((n * pow2(lifts(n))) as int, FULL_SCALE as int) / (FULL_SCALE as int)
}

/// The number that is nearest to a code divided by [`FULL_SCALE`].
pub open spec fn fraction(code: i16) -> Sample {
    let n = code_size(code);
    if n == 0 {
        Sample { bits: 0 }
    } else {
        let magnitude = (149 - lifts(n)) * 0x80_0000 + quotient(n);
        Sample {
            bits: if code < 0 {
                (SIGN + magnitude) as u32
            } else {
                magnitude as u32
            },
        }
    }
}

/// The size of a number times [`FULL_SCALE`], rounded to 24 significant bits and
/// without its fractional part.
pub open spec fn scaled_size(u: Sample) -> int {
    round24((u.mantissa() * FULL_SCALE) as nat) as int / (pow2((150 - u.exponent()) as nat) as int)
}

/// The code of an amplitude: it is held between -1 and 1 and multiplied by
/// [`FULL_SCALE`], the product is rounded to 24 significant bits, and its fractional
/// part is dropped. A NaN gets 0.
pub open spec fn code_for(v: Sample) -> i16 {
    let u = v.unit_spec();
    let size = scaled_size(u);
    if v.is_nan() {
        0
    } else if u.bits >= SIGN {
        (-size) as i16
    } else {
        size as i16
    }
}

/// The amplitude of a code: the nearest fraction, held between -1 and 1.
pub open spec fn amplitude_for(code: i16) -> Sample {
    fraction(code).unit_spec()
}

/// Enough doublings make a number large enough, and not twice as large as that.
proof fn lifted(n: nat)
    requires
        0 < n < 2 * NORMAL,
    ensures
        NORMAL <= n * pow2(lifts(n)) < 2 * NORMAL,
    decreases
        (if n < NORMAL {
            NORMAL - n
        } else {
            0
        }),
{
    lemma2_to64();
    if n < NORMAL {
        lifted(2 * n);
        lemma_pow2_unfold(lifts(n));
        assert((2 * n) * pow2(lifts(2 * n)) == n * (2 * pow2(lifts(2 * n)))) by (nonlinear_arith);
    } else {
        assert(n * 1 == n);
    }
}

/// The doublings of a code: at least as many as make up for the digits of a
/// number.
proof fn code_lifted(n: nat)
    requires
        0 < n <= 0x8000,
    ensures
        23 <= lifts(n) < 39,
        NORMAL <= n * pow2(lifts(n)) < 2 * NORMAL,
        n * pow2(lifts(n)) == (n * pow2((lifts(n) - 23) as nat)) * 0x80_0000,
{
    let k = lifts(n);
    lifted(n);
    lemma2_to64();
    lemma_pow2_pos(k);
    if k < 23 {
        if k < 22 {
            lemma_pow2_strictly_increases(k, 22);
        }
        assert(n * pow2(k) <= 0x8000 * 0x40_0000) by (nonlinear_arith)
            requires
                n <= 0x8000,
                pow2(k) <= 0x40_0000,
        ;
    }
    if k >= 39 {
        lemma_pow2_adds(32, 7);
        if k > 39 {
            lemma_pow2_strictly_increases(39, k);
        }
        assert(n * pow2(k) >= pow2(39)) by (nonlinear_arith)
            requires
                n >= 1,
                pow2(k) >= pow2(39),
        ;
    }
    let short = (k - 23) as nat;
    lemma_pow2_adds(short, 23);
    assert(n * pow2(k) == (n * pow2(short)) * 0x80_0000) by (nonlinear_arith)
        requires
            pow2(k) == pow2(short) * 0x80_0000,
    ;
}

/// The number that is nearest to a code divided by [`FULL_SCALE`].
pub fn decode_i16(code: i16) -> (number: Sample)
    ensures
        number == fraction(code),
{
    let n: u64 = if code < 0 {
        (-(code as i32)) as u64
    } else {
        code as u64
    };
    if n == 0 {
        return Sample { bits: 0 };
    }
    proof {
        code_lifted(n as nat);
        lemma2_to64();
        assert(n * pow2(0) == n);
    }
    let mut lifted: u64 = n;
    let mut k: u32 = 0;
    while lifted < NORMAL
        invariant
            0 < lifted < 2 * NORMAL,
            lifted == n * pow2(k as nat),
            lifts(n as nat) == k + lifts(lifted as nat),
            lifts(n as nat) < 39,
        decreases
            (if lifted < NORMAL {
                NORMAL - lifted
            } else {
                0
            }),
    {
        proof {
            lemma_pow2_unfold((k + 1) as nat);
            assert(2 * (n * pow2(k as nat)) == n * (2 * pow2(k as nat))) by (nonlinear_arith);
        }
        lifted = lifted * 2;
        k = k + 1;
    }
    let below: u64 = lifted / FULL_SCALE;
    let rest: u64 = lifted % FULL_SCALE;
    let q: u64 = if 2 * rest < FULL_SCALE {
        below
    } else {
        below + 1
    };
    let size: u32 = (149 - k) * 0x80_0000 + q as u32;
    if code < 0 {
        Sample { bits: SIGN + size }
    } else {
        Sample { bits: size }
    }
}

/// The code of an amplitude.
pub fn f32_to_i16(v: Sample) -> (code: i16)
    ensures
        code == code_for(v),
{
    if v.not_a_number() {
        return 0;
    }
    let u: Sample = v.unit();
    let (m, e): (u32, u32) = u.parts();
    proof {
        unit_is_in_range(v);
        product_fits(u);
    }
    let rounded: u128 = round_to_24_bits(m as u128 * 0x7fff);
    if e < 100 {
        return 0;
    }
    let shift: u64 = 150 - e as u64;
    let wide: u64 = rounded as u64;
    proof {
        vstd::bits::lemma_u64_shr_is_div(wide, shift);
    }
    let size: u64 = wide >> shift;
    if u.bits >= SIGN {
        (-(size as i32)) as i16
    } else {
        size as i16
    }
}

/// The product that gives a code is no larger than a code can be.
proof fn product_fits(u: Sample)
    requires
        u.magnitude() <= ONE,
    ensures
        u.exponent() <= 127,
        round24((u.mantissa() * FULL_SCALE) as nat) <= 0x7fff * 0x100_0000,
        0 <= scaled_size(u) <= 0x7fff,
        u.exponent() < 100 ==> scaled_size(u) == 0,
{
    let m = u.mantissa();
    let e = u.exponent();
    let product = round24((m * FULL_SCALE) as nat) as int;
    let place = (150 - e) as nat;
    let unit = pow2(place) as int;
    lemma2_to64();
    lemma_pow2_pos(place);
    rounding_is_exact(0x7fff, 24);
    rounding_keeps_order((m * FULL_SCALE) as nat, 0x7fff * 0x100_0000);
    assert(scaled_size(u) == product / unit);
    if e == 127 {
        assert(m == 0x80_0000);
        rounding_is_exact(0x7fff, 23);
        assert(product == 0x7fff * 0x80_0000);
        assert(place == 23);
        assert(unit == 0x80_0000);
        vstd::arithmetic::div_mod::lemma_div_by_multiple(0x7fff, 0x80_0000);
    } else if e < 100 {
        lemma_pow2_adds(32, 7);
        assert(pow2(39) == 0x80_0000_0000);
        lemma_pow2_strictly_increases(39, place);
        vstd::arithmetic::div_mod::lemma_basic_div(product, unit);
    } else {
        if place > 24 {
            lemma_pow2_strictly_increases(24, place);
        } else {
            assert(place == 24);
        }
        assert(0 <= product / unit <= 0x7fff) by (nonlinear_arith)
            requires
                0 <= product <= 0x7fff * 0x100_0000,
                unit >= 0x100_0000,
        ;
    }
}

/// The amplitude of a code.
pub fn i16_to_f32(code: i16) -> (v: Sample)
    ensures
        v == amplitude_for(code),
{
    decode_i16(code).unit()
}

/// The code that is left of a code when it has been turned into an amplitude and
/// back: there is no amplitude for the lowest one.
pub open spec fn symmetric(code: i16) -> i16 {
    if code < -0x7fff {
        -0x7fffi16
    } else {
        code
    }
}

/// The parts of the fraction of a code, and that it lies between -1 and 1.
proof fn fraction_parts(code: i16)
    requires
        code != 0,
    ensures
        ({
            let n = code_size(code);
            let k = lifts(n);
            let a = (n * pow2(k)) as int;
            let q = quotient(n);
            &&& 23 <= k < 39
            &&& 0x80_0000 <= q < 0x100_0000
            &&& 2 * (q * 0x7fff - a) < 0x7fff
            &&& 2 * (a - q * 0x7fff) < 0x7fff
            &&& fraction(code).mantissa() == q
            &&& fraction(code).exponent() == 150 - k
            &&& fraction(code).magnitude() == (149 - k) * 0x80_0000 + q
            &&& (fraction(code).bits >= SIGN) == (code < 0)
            &&& code > i16::MIN ==> fraction(code).magnitude() <= ONE
            &&& code == i16::MIN ==> fraction(code).magnitude() > ONE
        }),
{
    let n = code_size(code);
    let k = lifts(n);
    let a = (n * pow2(k)) as int;
    code_lifted(n);
    nearest_is_near(a, 0x7fff);
    let top = (n * pow2((k - 23) as nat)) as int;
    assert(a == top * 0x80_0000);
    lemma2_to64();
    if k == 23 {
        assert((k - 23) as nat == 0);
        assert(n * 1 == n);
        assert(top == n);
    }
    if n == 0x8000 && k > 23 {
        if k > 24 {
            lemma_pow2_strictly_increases(24, k);
        }
        assert(n * pow2(k) >= 0x8000 * 0x100_0000) by (nonlinear_arith)
            requires
                n == 0x8000,
                pow2(k) >= 0x100_0000,
        ;
    }
    assert(nearest(a, 0x7fff) == quotient(n) * 0x7fff);
    if k > 23 {
        assert(quotient(n) < 0x100_0000);
    }
}

/// The fraction of a code is nearest to the code divided by [`FULL_SCALE`]: the
/// difference is less than half of its last digit.
pub proof fn fractions_are_nearest(code: i16)
    ensures
        !fraction(code).is_nan(),
        ({
            let digit = pow2((fraction(code).exponent() - 1) as nat);
            &&& 2 * (fraction(code).value() * FULL_SCALE - code * pow2(149)) < FULL_SCALE * digit
            &&& 2 * (code * pow2(149) - fraction(code).value() * FULL_SCALE) < FULL_SCALE * digit
        }),
{
    let s = fraction(code);
    let digit = pow2((s.exponent() - 1) as nat) as int;
    lemma_pow2_pos((s.exponent() - 1) as nat);
    if code == 0 {
        assert(0 * digit == 0 && 0 * pow2(149) == 0);
    } else {
        let n = code_size(code);
        let k = lifts(n);
        let a = (n * pow2(k)) as int;
        let q = quotient(n);
        fraction_parts(code);
        lemma_pow2_adds(k, (149 - k) as nat);
        assert(n * pow2(149) == a * digit) by (nonlinear_arith)
            requires
                a == n * pow2(k),
                pow2(149) == pow2(k) * digit,
        ;
        assert(code * pow2(149) == (if code < 0 {
            -(n * pow2(149))
        } else {
            (n * pow2(149)) as int
        })) by (nonlinear_arith)
            requires
                n == (if code < 0 {
                    -(code as int)
                } else {
                    code as int
                }),
        ;
        assert(2 * (q * digit * 0x7fff - a * digit) < 0x7fff * digit && 2 * (a * digit - q * digit
            * 0x7fff) < 0x7fff * digit) by (nonlinear_arith)
            requires
                2 * (q * 0x7fff - a) < 0x7fff,
                2 * (a - q * 0x7fff) < 0x7fff,
                digit > 0,
        ;
    }
}

/// It makes no difference to the code of an amplitude whether it is held between -1
/// and 1 first.
pub proof fn codes_are_of_units(v: Sample)
    ensures
        code_for(v.unit_spec()) == code_for(v),
{
    unit_is_in_range(v);
}

/// The fraction of a code between -32767 and 32767 has the size of the code.
proof fn fraction_has_its_size(code: i16)
    requires
        code > i16::MIN,
    ensures
        scaled_size(fraction(code)) == code_size(code),
{
    lemma2_to64();
    if code == 0 {
        rounding_is_exact(0, 0);
        assert(0 * pow2(0) == 0);
        lemma_pow2_pos(149);
        vstd::arithmetic::div_mod::lemma_basic_div(0, pow2(149) as int);
    } else {
        fraction_parts(code);
        let n = code_size(code);
        let k = lifts(n);
        let a = (n * pow2(k)) as int;
        let p = quotient(n) * 0x7fff;
        code_lifted(n);
        assert(a == (n * pow2((k - 23) as nat)) * 0x80_0000);
        lemma_pow2_pos(k);
        if p >= 0x40_0000_0000 {
            unit_is(p as nat, 15);
            nearest_is(p, 0x8000, a);
        } else {
            unit_is(p as nat, 14);
            nearest_is(p, 0x4000, a);
        }
        assert(round24(p as nat) == a);
        vstd::arithmetic::div_mod::lemma_div_by_multiple(n as int, pow2(k) as int);
    }
}

/// Turning a code into an amplitude and back keeps it, but for the lowest one,
/// which becomes the second lowest. It makes no difference whether the amplitude is
/// held between -1 and 1 on the way.
pub proof fn codes_come_back(code: i16)
    ensures
        code_for(amplitude_for(code)) == symmetric(code),
        code_for(fraction(code)) == symmetric(code),
        symmetric(code) == (if code > -0x7fff {
            code
        } else {
            -0x7fffi16
        }),
{
    let s = fraction(code);
    codes_are_of_units(s);
    if code == i16::MIN {
        let low = Sample { bits: MINUS_ONE };
        fraction_parts(code);
        lemma2_to64();
        rounding_is_exact(0x7fff, 23);
        assert(low.mantissa() == 0x80_0000 && low.exponent() == 127);
        vstd::arithmetic::div_mod::lemma_div_by_multiple(0x7fff, 0x80_0000);
        assert(scaled_size(low) == 0x7fff);
        assert(s.unit_spec() == low);
    } else {
        fraction_has_its_size(code);
        if code != 0 {
            fraction_parts(code);
        }
        assert(s.unit_spec() == s);
    }
}

/// The code of an amplitude is 32767 times the amplitude without its fractional part,
/// up to the rounding of the product, which is less than one in 512. It has the
/// sign of the amplitude.
pub proof fn codes_are_whole_parts(v: Sample)
    requires
        v.bits as int % 0x8000_0000 <= 0x3f80_0000,
    ensures
        ({
            let code = code_for(v) as int;
            let exact = 0x7fff * v.value();
            &&& v.bits < 0x8000_0000 ==> code >= 0 && code * pow2(149) <= exact + pow2(140) && exact
                < (code + 1) * pow2(149) + pow2(140)
            &&& v.bits >= 0x8000_0000 ==> code <= 0 && code * pow2(149) >= exact - pow2(140)
                && exact > (code - 1) * pow2(149) - pow2(140)
        }),
{
    crate::sample::unit_cuts_off_at_one(v);
    crate::sample::digits_and_place_are_the_bits(v);
    product_fits(v);
    let m = v.mantissa();
    let e = v.exponent();
    let size = scaled_size(v);
    let exact = m * 0x7fff;
    let product = round24(exact as nat) as int;
    let place = pow2((150 - e) as nat) as int;
    let digit = pow2((e - 1) as nat) as int;
    lemma_pow2_pos((150 - e) as nat);
    lemma_pow2_pos((e - 1) as nat);
    lemma_pow2_adds((150 - e) as nat, (e - 1) as nat);
    assert(place * digit == pow2(149));
    vstd::arithmetic::div_mod::lemma_fundamental_div_mod(product, place);
    vstd::arithmetic::div_mod::lemma_mod_bound(product, place);
    assert(size * place <= product < (size + 1) * place) by (nonlinear_arith)
        requires
            product == place * size + product % place,
            0 <= product % place < place,
    ;
    product_is_near(m as nat);
    let slack = digit * 0x4000;
    assert(size * (place * digit) <= exact * digit + slack && exact * digit < (size + 1) * (place
        * digit) + slack) by (nonlinear_arith)
        requires
            size * place <= product < (size + 1) * place,
            product <= exact + 0x4000,
            exact <= product + 0x4000,
            slack == digit * 0x4000,
            digit > 0,
    ;
    lemma2_to64();
    lemma_pow2_adds(14, 126);
    if e < 127 {
        lemma_pow2_strictly_increases((e - 1) as nat, 126);
    }
    assert(slack <= pow2(140));
    assert(exact * digit == 0x7fff * (m * digit)) by (nonlinear_arith)
        requires
            exact == m * 0x7fff,
    ;
    assert((-size) * pow2(149) == -(size * pow2(149)) && (-size - 1) * pow2(149) == -((size + 1)
        * pow2(149)) && 0x7fff * (-(m * digit)) == -(0x7fff * (m * digit))) by (nonlinear_arith);
}

/// The code of an amplitude, exactly: the digits times 32767, rounded to 24
/// significant bits, at the place of the digits, without the fractional part. An
/// amplitude beyond full scale has the code of full scale, and what is no number has
/// the code 0.
pub proof fn codes_drop_the_fraction(v: Sample)
    ensures
        v.bits as int % 0x8000_0000 > 0x7f80_0000 ==> code_for(v) == 0,
        0x3f80_0000 < v.bits <= 0x7f80_0000 ==> code_for(v) == 32767,
        0xbf80_0000 < v.bits <= 0xff80_0000 ==> code_for(v) == -32767,
        v.bits as int % 0x8000_0000 <= 0x3f80_0000 ==> {
            let size = if code_for(v) < 0 {
                -code_for(v)
            } else {
                code_for(v) as int
            };
            let product = round24((v.mantissa() * 32767) as nat) * pow2(
                (v.exponent() - 1) as nat,
            );
            &&& size * pow2(149) <= product < (size + 1) * pow2(149)
            &&& v.bits < 0x8000_0000 ==> code_for(v) >= 0
            &&& v.bits >= 0x8000_0000 ==> code_for(v) <= 0
        },
{
    crate::sample::unit_cuts_off_at_one(v);
    crate::sample::digits_and_place_are_the_bits(v);
    crate::sample::order_is_by_bits(v, v);
    let high = Sample { bits: ONE };
    let low = Sample { bits: MINUS_ONE };
    lemma2_to64();
    rounding_is_exact(0x7fff, 23);
    assert(high.mantissa() == 0x80_0000 && high.exponent() == 127);
    assert(low.mantissa() == 0x80_0000 && low.exponent() == 127);
    vstd::arithmetic::div_mod::lemma_div_by_multiple(0x7fff, 0x80_0000);
    assert(scaled_size(high) == 0x7fff && scaled_size(low) == 0x7fff);
    if v.bits as int % 0x8000_0000 <= 0x3f80_0000 {
        product_fits(v);
        let e = v.exponent();
        let size = scaled_size(v);
        let product = round24((v.mantissa() * FULL_SCALE) as nat) as int;
        let place = pow2((150 - e) as nat) as int;
        let digit = pow2((e - 1) as nat) as int;
        lemma_pow2_pos((150 - e) as nat);
        lemma_pow2_pos((e - 1) as nat);
        lemma_pow2_adds((150 - e) as nat, (e - 1) as nat);
        vstd::arithmetic::div_mod::lemma_fundamental_div_mod(product, place);
        vstd::arithmetic::div_mod::lemma_mod_bound(product, place);
        assert(size * (place * digit) <= product * digit < (size + 1) * (place * digit))
            by (nonlinear_arith)
            requires
                product == place * size + product % place,
                0 <= product % place < place,
                digit > 0,
        ;
    }
}

/// The product of digits and [`FULL_SCALE`] is rounded by no more than half of two to
/// the power of 15.
proof fn product_is_near(m: nat)
    requires
        m < 0x100_0000,
    ensures
        round24(m * 0x7fff) <= m * 0x7fff + 0x4000,
        m * 0x7fff <= round24(m * 0x7fff) + 0x4000,
{
    let n = m * 0x7fff;
    crate::rounding::unit_fits(n);
    let u = crate::rounding::unit24(n) as int;
    assert(u <= 0xffff) by (nonlinear_arith)
        requires
            n >= 0x100_0000 ==> 0x80_0000 * u <= n,
            n < 0x100_0000 ==> u == 1,
            n < 0x100_0000 * 0x7fff,
    ;
    if n >= 0x100_0000 {
        let k = crate::rounding::unit_is_a_power(n);
        lemma2_to64();
        if k > 15 {
            if k > 16 {
                lemma_pow2_strictly_increases(16, k);
            }
        } else if k < 15 {
            lemma_pow2_strictly_increases(k, 15);
        }
        assert(u <= 0x8000);
    }
    nearest_is_near(n as int, u);
}

/// The amplitude of a code is its fraction, and 1 or -1 stand for what lies beyond.
pub proof fn amplitudes_are_fractions(code: i16)
    ensures
        code > -32768 ==> amplitude_for(code) == fraction(code),
        code == -32768 ==> amplitude_for(code).bits == 0xbf80_0000,
        code == 0 ==> fraction(code).bits == 0,
        code == 32767 ==> fraction(code).bits == 0x3f80_0000,
        code == -32767 ==> fraction(code).bits == 0xbf80_0000,
        code > 0 ==> 0 < fraction(code).bits <= 0x3f80_0000,
        -32768 < code < 0 ==> 0x8000_0000 < fraction(code).bits <= 0xbf80_0000,
{
    if code != 0 {
        fraction_parts(code);
        lemma2_to64();
        let n = code_size(code);
        let k = lifts(n);
        if n == 0x7fff {
            code_lifted(n);
            if k > 23 {
                if k > 24 {
                    lemma_pow2_strictly_increases(24, k);
                }
                assert(n * pow2(k) >= 0x7fff * 0x100_0000) by (nonlinear_arith)
                    requires
                        n == 0x7fff,
                        pow2(k) >= 0x100_0000,
                ;
            }
            assert(n * pow2(k) == 0x7fff * 0x80_0000);
            assert(quotient(n) == 0x80_0000);
        }
    }
}

} // verus!
