//! Rounding to the 24 significant bits of a binary32 number.
//!
//! The product or the difference of two binary32 numbers is the exact result,
//! rounded to the nearest number with 24 significant bits. Of two that are equally
//! near, the one with an even last bit is taken. Scaled to integers, such a result
//! can be computed without loss and rounded here.

use vstd::prelude::*;

verus! {

/// The least number that needs more than 24 bits.
pub const TWO_24: u128 = 0x100_0000;

/// The multiple of `unit` that is nearest to `n`; of two that are equally near, the
/// even one.
pub open spec fn nearest(n: int, unit: int) -> int {
    let q = n / unit;
    let rest = n % unit;
    if 2 * rest < unit || (2 * rest == unit && q % 2 == 0) {
        q * unit
    } else {
        (q + 1) * unit
    }
}

/// The weight of the last one of the 24 bits that are kept of `n`.
pub open spec fn unit24(n: nat) -> nat
    decreases n,
{
    if n < TWO_24 {
        1
    } else {
        2 * unit24(n / 2)
    }
}

/// `n`, rounded to 24 significant bits.
pub open spec fn round24(n: nat) -> nat {
    nearest(n as int, unit24(n) as int) as nat
}

/// The unit lies between the top 24 bits of a number and the top 23 bits.
pub proof fn unit_fits(n: nat)
    ensures
        unit24(n) >= 1,
        n < 0x100_0000 * unit24(n),
        n >= 0x100_0000 ==> 0x80_0000 * unit24(n) <= n,
        n < 0x100_0000 ==> unit24(n) == 1,
    decreases n,
{
    if n >= 0x100_0000 {
        unit_fits(n / 2);
    }
}

/// A larger number has the same unit, or one that is at least twice as large.
proof fn units_double(a: nat, b: nat)
    requires
        a <= b,
    ensures
        unit24(a) == unit24(b) || 2 * unit24(a) <= unit24(b),
    decreases b,
{
    if a >= 0x100_0000 {
        units_double(a / 2, b / 2);
    } else if b >= 0x100_0000 {
        unit_fits(b / 2);
    }
}

/// A number whose top 24 bits begin at `unit`, a power of two, has that unit.
pub(crate) proof fn unit_is(n: nat, k: nat)
    requires
        0x80_0000 * vstd::arithmetic::power2::pow2(k) <= n < 0x100_0000
            * vstd::arithmetic::power2::pow2(k),
    ensures
        unit24(n) == vstd::arithmetic::power2::pow2(k),
    decreases k,
{
    vstd::arithmetic::power2::lemma2_to64();
    if k > 0 {
        vstd::arithmetic::power2::lemma_pow2_unfold(k);
        vstd::arithmetic::power2::lemma_pow2_pos((k - 1) as nat);
        unit_is(n / 2, (k - 1) as nat);
    }
}

/// The nearest multiple is one of the two around the number.
pub(crate) proof fn nearest_is_near(n: int, unit: int)
    requires
        n >= 0,
        unit >= 1,
    ensures
        nearest(n, unit) == (n / unit) * unit || nearest(n, unit) == (n / unit + 1) * unit,
        nearest(n, unit) - n <= n - nearest(n, unit) + unit,
        n - nearest(n, unit) <= nearest(n, unit) - n + unit,
        2 * (nearest(n, unit) - n) <= unit,
        2 * (n - nearest(n, unit)) <= unit,
        nearest(n, unit) >= 0,
        n % unit == 0 ==> nearest(n, unit) == n,
{
    let q = n / unit;
    vstd::arithmetic::div_mod::lemma_fundamental_div_mod(n, unit);
    vstd::arithmetic::div_mod::lemma_mod_bound(n, unit);
    assert(q * unit == unit * q) by (nonlinear_arith);
    assert((q + 1) * unit == q * unit + unit) by (nonlinear_arith);
    assert(q * unit >= 0) by (nonlinear_arith)
        requires
            q == n / unit,
            n >= 0,
            unit >= 1,
    ;
}

/// A multiple that is less than half a unit away is the nearest one.
pub(crate) proof fn nearest_is(n: int, unit: int, near: int)
    requires
        n >= 0,
        near >= 0,
        unit >= 1,
        near % unit == 0,
        2 * (near - n) < unit,
        2 * (n - near) < unit,
    ensures
        nearest(n, unit) == near,
{
    let p = near / unit;
    vstd::arithmetic::div_mod::lemma_fundamental_div_mod(near, unit);
    assert(p * unit == unit * p && (p - 1) * unit == p * unit - unit && (p - 1 + 1) * unit == p
        * unit) by (nonlinear_arith);
    if n >= near {
        vstd::arithmetic::div_mod::lemma_fundamental_div_mod_converse(n, unit, p, n - near);
    } else {
        vstd::arithmetic::div_mod::lemma_fundamental_div_mod_converse(
            n,
            unit,
            p - 1,
            n - near + unit,
        );
    }
}

/// Rounding to multiples of one unit keeps the order.
proof fn nearest_keeps_order(a: int, b: int, unit: int)
    requires
        0 <= a <= b,
        unit >= 1,
    ensures
        nearest(a, unit) <= nearest(b, unit),
{
    let p = a / unit;
    let q = b / unit;
    nearest_is_near(a, unit);
    nearest_is_near(b, unit);
    vstd::arithmetic::div_mod::lemma_div_is_ordered(a, b, unit);
    if p < q {
        assert((p + 1) * unit <= q * unit && p * unit <= (p + 1) * unit && q * unit <= (q + 1)
            * unit) by (nonlinear_arith)
            requires
                p + 1 <= q,
                unit >= 1,
        ;
    } else {
        assert(p * unit <= (p + 1) * unit) by (nonlinear_arith)
            requires
                unit >= 1,
        ;
        vstd::arithmetic::div_mod::lemma_fundamental_div_mod(a, unit);
        vstd::arithmetic::div_mod::lemma_fundamental_div_mod(b, unit);
    }
}

/// Rounding stays between the top 23 and the top 24 bits of a number.
proof fn round_fits(n: nat)
    ensures
        nearest(n as int, unit24(n) as int) >= 0,
        round24(n) <= 0x100_0000 * unit24(n),
        n >= 0x100_0000 ==> 0x80_0000 * unit24(n) <= round24(n),
{
    let u = unit24(n) as int;
    let q = n as int / u;
    unit_fits(n);
    nearest_is_near(n as int, u);
    vstd::arithmetic::div_mod::lemma_fundamental_div_mod(n as int, u);
    vstd::arithmetic::div_mod::lemma_mod_bound(n as int, u);
    assert(q < 0x100_0000) by (nonlinear_arith)
        requires
            u * q <= n,
            n < 0x100_0000 * u,
            u >= 1,
    ;
    assert(q * u <= 0x100_0000 * u && (q + 1) * u <= 0x100_0000 * u) by (nonlinear_arith)
        requires
            q < 0x100_0000,
            u >= 1,
    ;
    if n >= 0x100_0000 {
        assert(q >= 0x80_0000) by (nonlinear_arith)
            requires
                n == u * q + n % (u as nat),
                n % (u as nat) < u,
                0x80_0000 * u <= n,
                u >= 1,
        ;
        assert(q * u >= 0x80_0000 * u && (q + 1) * u >= 0x80_0000 * u) by (nonlinear_arith)
            requires
                q >= 0x80_0000,
                u >= 1,
        ;
    }
}

/// Rounding to 24 bits keeps the order.
pub proof fn rounding_keeps_order(a: nat, b: nat)
    requires
        a <= b,
    ensures
        round24(a) <= round24(b),
{
    units_double(a, b);
    unit_fits(a);
    unit_fits(b);
    round_fits(a);
    round_fits(b);
    if unit24(a) == unit24(b) {
        nearest_keeps_order(a as int, b as int, unit24(a) as int);
    }
}

/// Twice a number is rounded to twice what the number is rounded to.
proof fn rounding_doubles(n: nat)
    ensures
        round24(2 * n) == 2 * round24(n),
{
    let u = unit24(n) as int;
    unit_fits(n);
    unit_fits(2 * n);
    round_fits(n);
    round_fits(2 * n);
    if 2 * n < 0x100_0000 {
        nearest_is_near(n as int, 1);
        nearest_is_near(2 * n as int, 1);
    } else {
        assert((2 * n) / 2 == n);
        assert(unit24(2 * n) == 2 * u);
        let q = n as int / u;
        let rest = n as int % u;
        vstd::arithmetic::div_mod::lemma_fundamental_div_mod(n as int, u);
        vstd::arithmetic::div_mod::lemma_mod_bound(n as int, u);
        assert(2 * n == (2 * u) * q + 2 * rest) by (nonlinear_arith)
            requires
                n == u * q + rest,
        ;
        vstd::arithmetic::div_mod::lemma_fundamental_div_mod_converse(
            2 * n as int,
            2 * u,
            q,
            2 * rest,
        );
        assert(q * (2 * u) == 2 * (q * u) && (q + 1) * (2 * u) == 2 * ((q + 1) * u))
            by (nonlinear_arith);
    }
}

/// A number that has no more than 24 significant bits stays what it is.
pub proof fn rounding_is_exact(n: nat, k: nat)
    requires
        n <= 0x100_0000,
    ensures
        round24(n * vstd::arithmetic::power2::pow2(k)) == n * vstd::arithmetic::power2::pow2(k),
    decreases k,
{
    vstd::arithmetic::power2::lemma2_to64();
    if k == 0 {
        unit_fits(n);
        if n < 0x100_0000 {
            nearest_is_near(n as int, 1);
        } else {
            reveal_with_fuel(unit24, 3);
            assert(unit24(0x100_0000) == 2);
            nearest_is_near(n as int, 2);
        }
        assert(n * 1 == n);
    } else {
        let p = vstd::arithmetic::power2::pow2((k - 1) as nat);
        rounding_is_exact(n, (k - 1) as nat);
        vstd::arithmetic::power2::lemma_pow2_unfold(k);
        assert(n * (2 * p) == 2 * (n * p)) by (nonlinear_arith);
        rounding_doubles(n * p);
    }
}

/// The unit of a number is a power of two.
pub(crate) proof fn unit_is_a_power(n: nat) -> (k: nat)
    ensures
        unit24(n) == vstd::arithmetic::power2::pow2(k),
    decreases n,
{
    vstd::arithmetic::power2::lemma2_to64();
    if n < 0x100_0000 {
        0
    } else {
        let k = unit_is_a_power(n / 2);
        vstd::arithmetic::power2::lemma_pow2_unfold(k + 1);
        k + 1
    }
}

/// What has been rounded stays what it is, times any power of two.
pub proof fn rounding_repeats(n: nat, k: nat)
    ensures
        round24(round24(n) * vstd::arithmetic::power2::pow2(k)) == round24(n)
            * vstd::arithmetic::power2::pow2(k),
{
    let j = unit_is_a_power(n);
    let u = unit24(n) as int;
    let q = n as int / u;
    let rounded = round24(n) as int;
    unit_fits(n);
    round_fits(n);
    nearest_is_near(n as int, u);
    let m = if nearest(n as int, u) == q * u {
        q
    } else {
        q + 1
    };
    assert(rounded == m * u);
    assert(0 <= m <= 0x100_0000) by (nonlinear_arith)
        requires
            0 <= m * u <= 0x100_0000 * u,
            u >= 1,
    ;
    rounding_is_exact(m as nat, j + k);
    vstd::arithmetic::power2::lemma_pow2_adds(j, k);
    let p = vstd::arithmetic::power2::pow2(k) as int;
    assert(m * (u * p) == (m * u) * p) by (nonlinear_arith);
}

/// Rounds to 24 significant bits.
pub fn round_to_24_bits(n: u128) -> (rounded: u128)
    requires
        n <= u128::MAX / 4,
    ensures
        rounded == round24(n as nat),
{
    let mut unit: u128 = 1;
    let mut top: u128 = n;
    proof {
        unit_fits(n as nat);
        round_fits(n as nat);
    }
    assert(unit * unit24(top as nat) == unit24(n as nat)) by (nonlinear_arith)
        requires
            unit == 1,
            top == n,
    ;
    while top >= TWO_24
        invariant
            unit >= 1,
            n <= u128::MAX / 4,
            unit24(n as nat) <= n || n < TWO_24,
            unit * unit24(top as nat) == unit24(n as nat),
            n < TWO_24 ==> top == n,
        decreases top,
    {
        proof {
            unit_fits((top / 2) as nat);
            let rest = unit24((top / 2) as nat);
            assert(unit * (2 * rest) == (2 * unit) * rest && 2 * unit <= (2 * unit) * rest)
                by (nonlinear_arith)
                requires
                    rest >= 1,
                    unit >= 1,
            ;
        }
        unit = unit * 2;
        top = top / 2;
    }
    assert(unit == unit24(n as nat)) by {
        assert(unit24(top as nat) == 1);
        assert(unit * 1 == unit);
    }
    let q: u128 = n / unit;
    let rest: u128 = n % unit;
    proof {
        nearest_is_near(n as int, unit as int);
        vstd::arithmetic::div_mod::lemma_fundamental_div_mod(n as int, unit as int);
        vstd::arithmetic::div_mod::lemma_mod_bound(n as int, unit as int);
        assert(0 <= q * unit <= n && (q + 1) * unit <= n + unit && q + 1 <= n + 1)
            by (nonlinear_arith)
            requires
                n == unit * q + rest,
                0 <= rest,
                q >= 0,
                unit >= 1,
        ;
    }
    if 2 * rest < unit || (2 * rest == unit && q % 2 == 0) {
        q * unit
    } else {
        (q + 1) * unit
    }
}

/// No number with 24 significant bits is nearer than the one that is rounded to.
pub proof fn rounding_goes_to_the_nearest(n: nat, m: nat, k: nat)
    requires
        m <= 0x100_0000,
    ensures
        ({
            let other = m * vstd::arithmetic::power2::pow2(k);
            let off = if round24(n) >= n {
                round24(n) - n
            } else {
                n - round24(n)
            };
            let other_off = if other >= n {
                other - n
            } else {
                n - other
            };
            off <= other_off
        }),
{
    let other = (m * vstd::arithmetic::power2::pow2(k)) as int;
    let j = unit_is_a_power(n);
    let u = unit24(n) as int;
    unit_fits(n);
    round_fits(n);
    nearest_is_near(n as int, u);
    if n < 0x100_0000 {
        assert(n as int % 1 == 0);
    } else if k >= j {
        let rest = vstd::arithmetic::power2::pow2((k - j) as nat) as int;
        vstd::arithmetic::power2::lemma_pow2_adds((k - j) as nat, j);
        let c = m * rest;
        assert(other == c * u) by (nonlinear_arith)
            requires
                other == m * (rest * u),
                c == m * rest,
        ;
        nearest_beats(n as int, u, c);
    } else {
        if k < j - 1 {
            vstd::arithmetic::power2::lemma_pow2_strictly_increases(k, (j - 1) as nat);
        }
        vstd::arithmetic::power2::lemma_pow2_unfold(j);
        assert(other <= 0x80_0000 * u) by (nonlinear_arith)
            requires
                other == m * vstd::arithmetic::power2::pow2(k),
                m <= 0x100_0000,
                2 * vstd::arithmetic::power2::pow2(k) <= u,
        ;
        nearest_beats(n as int, u, 0x80_0000);
    }
}

/// No multiple of the unit is nearer than the nearest one.
proof fn nearest_beats(n: int, unit: int, c: int)
    requires
        n >= 0,
        unit >= 1,
    ensures
        nearest(n, unit) >= n && c * unit >= n ==> nearest(n, unit) - n <= c * unit - n,
        nearest(n, unit) >= n && c * unit <= n ==> nearest(n, unit) - n <= n - c * unit,
        nearest(n, unit) <= n && c * unit >= n ==> n - nearest(n, unit) <= c * unit - n,
        nearest(n, unit) <= n && c * unit <= n ==> n - nearest(n, unit) <= n - c * unit,
{
    let q = n / unit;
    vstd::arithmetic::div_mod::lemma_fundamental_div_mod(n, unit);
    vstd::arithmetic::div_mod::lemma_mod_bound(n, unit);
    assert(q * unit == unit * q) by (nonlinear_arith);
    assert((q + 1) * unit == q * unit + unit) by (nonlinear_arith);
    if c <= q {
        assert(c * unit <= q * unit) by (nonlinear_arith)
            requires
                c <= q,
                unit >= 1,
        ;
    } else {
        assert(c * unit >= (q + 1) * unit) by (nonlinear_arith)
            requires
                c >= q + 1,
                unit >= 1,
        ;
    }
}

/// Of two numbers that are equally near, the one whose last bit is 0 is taken.
pub proof fn ties_go_to_the_even_one(c: nat, k: nat)
    requires
        0x80_0000 <= c < 0x100_0000,
    ensures
        c % 2 == 0 ==> round24((2 * c + 1) * vstd::arithmetic::power2::pow2(k)) == (2 * c)
            * vstd::arithmetic::power2::pow2(k),
        c % 2 == 1 ==> round24((2 * c + 1) * vstd::arithmetic::power2::pow2(k)) == (2 * c + 2)
            * vstd::arithmetic::power2::pow2(k),
    decreases k,
{
    vstd::arithmetic::power2::lemma2_to64();
    let n = 2 * c + 1;
    if k == 0 {
        assert(n / 2 == c);
        assert(unit24(c) == 1);
        assert(unit24(n) == 2);
        assert(n as int / 2 == c && n as int % 2 == 1);
        assert(n * 1 == n);
    } else {
        let p = vstd::arithmetic::power2::pow2((k - 1) as nat);
        ties_go_to_the_even_one(c, (k - 1) as nat);
        vstd::arithmetic::power2::lemma_pow2_unfold(k);
        assert(n * (2 * p) == 2 * (n * p)) by (nonlinear_arith);
        assert((2 * c) * (2 * p) == 2 * ((2 * c) * p)) by (nonlinear_arith);
        assert((2 * c + 2) * (2 * p) == 2 * ((2 * c + 2) * p)) by (nonlinear_arith);
        rounding_doubles(n * p);
    }
}

} // verus!
