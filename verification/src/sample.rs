//! Audio amplitudes, held by the bit pattern of an IEEE 754 binary32 number.
//!
//! Most of what is done with amplitudes is to store them, to order them and to drop
//! their sign. All three can be read off the bits. The top bit is the sign, and
//! among the remaining bits a larger integer means a larger magnitude, up to
//! infinity; everything beyond infinity is a NaN.
//!
//! The value of a number is an integer multiple of the smallest positive number,
//! two to the power of -149, and that multiple is its value here.

use vstd::arithmetic::power2::{
    lemma2_to64, lemma_pow2_adds, lemma_pow2_pos, lemma_pow2_strictly_increases, pow2,
};
use vstd::prelude::*;

verus! {

/// The weight of the sign bit.
pub const SIGN: u32 = 0x8000_0000;

/// The bits of positive infinity.
pub const INFINITY: u32 = 0x7f80_0000;

/// The bits of the number 1.
pub const ONE: u32 = 0x3f80_0000;

/// The bits of the number -1.
pub const MINUS_ONE: u32 = 0xbf80_0000;

/// A binary32 number.
#[derive(Clone, Copy, Debug, PartialEq, Eq, Structural)]
pub struct Sample {
    /// The bit pattern.
    pub bits: u32,
}

impl Sample {
    /// The bits without the sign.
    pub open spec fn magnitude(self) -> int {
        if self.bits >= SIGN {
            self.bits - SIGN
        } else {
            self.bits as int
        }
    }

    /// Whether this is no number at all.
    pub open spec fn is_nan(self) -> bool {
        self.magnitude() > INFINITY
    }

    /// The significant digits, as an integer below two to the power of 24.
    pub open spec fn mantissa(self) -> int {
        if self.magnitude() < 0x80_0000 {
            self.magnitude()
        } else {
            0x80_0000 + self.magnitude() % 0x80_0000
        }
    }

    /// The place of the last significant digit, counted from 1.
    pub open spec fn exponent(self) -> int {
        if self.magnitude() < 0x80_0000 {
            1
        } else {
            self.magnitude() / 0x80_0000
        }
    }

    /// The value of a finite number, in multiples of the smallest positive one.
    pub open spec fn value(self) -> int {
        let size = self.mantissa() * pow2((self.exponent() - 1) as nat);
        if self.bits >= SIGN {
            -size
        } else {
            size
        }
    }

    /// An integer that orders numbers as their values do. Both zeros get 0.
    pub open spec fn rank(self) -> int {
        if self.bits >= SIGN {
            -self.magnitude()
        } else {
            self.magnitude()
        }
    }

    /// `self < other` as numbers: false as soon as one of them is a NaN.
    pub open spec fn below(self, other: Sample) -> bool {
        !self.is_nan() && !other.is_nan() && self.rank() < other.rank()
    }

    /// `self <= other` as numbers: false as soon as one of them is a NaN.
    pub open spec fn at_most(self, other: Sample) -> bool {
        !self.is_nan() && !other.is_nan() && self.rank() <= other.rank()
    }

    /// The smaller of two numbers; a NaN gives way to the other operand.
    pub open spec fn lesser_spec(self, other: Sample) -> Sample {
        if self.is_nan() || other.below(self) {
            other
        } else {
            self
        }
    }

    /// The larger of two numbers; a NaN gives way to the other operand.
    pub open spec fn greater_spec(self, other: Sample) -> Sample {
        if self.is_nan() || self.below(other) {
            other
        } else {
            self
        }
    }

    /// The number without its sign.
    pub open spec fn abs_spec(self) -> Sample {
        Sample { bits: self.magnitude() as u32 }
    }

    /// The number, held between -1 and 1. A NaN stays what it is.
    pub open spec fn unit_spec(self) -> Sample {
        if self.below(Sample { bits: MINUS_ONE }) {
            Sample { bits: MINUS_ONE }
        } else if (Sample { bits: ONE }).below(self) {
            Sample { bits: ONE }
        } else {
            self
        }
    }

    /// The number zero.
    pub fn zero() -> (zero: Sample)
        ensures
            zero == (Sample { bits: 0 }),
            zero.rank() == 0,
            !zero.is_nan(),
    {
        Sample { bits: 0 }
    }

    /// The number `halves / 2`.
    pub fn from_halves(halves: i32) -> (number: Sample)
        requires
            -128 < halves < 128,
        ensures
            number.value() == halves * pow2(148),
            !number.is_nan(),
    {
        let size: u32 = if halves < 0 {
            (-halves) as u32
        } else {
            halves as u32
        };
        let magnitude: u32 = if size == 0 {
            0
        } else if size < 2 {
            126 * 0x80_0000
        } else if size < 4 {
            127 * 0x80_0000 + (size - 2) * 0x40_0000
        } else if size < 8 {
            128 * 0x80_0000 + (size - 4) * 0x20_0000
        } else if size < 16 {
            129 * 0x80_0000 + (size - 8) * 0x10_0000
        } else if size < 32 {
            130 * 0x80_0000 + (size - 16) * 0x8_0000
        } else if size < 64 {
            131 * 0x80_0000 + (size - 32) * 0x4_0000
        } else {
            132 * 0x80_0000 + (size - 64) * 0x2_0000
        };
        let number: Sample = if halves < 0 {
            Sample { bits: SIGN + magnitude }
        } else {
            Sample { bits: magnitude }
        };
        proof {
            lemma2_to64();
            let place = (number.exponent() - 1) as nat;
            if size == 0 {
                assert(0 * pow2(0) == 0 && 0 * pow2(148) == 0);
            } else {
                let short = (148 - place) as nat;
                lemma_pow2_adds(place, short);
                assert(number.mantissa() == size * pow2(short)) by {
                    if size < 2 {
                        assert(short == 23);
                    } else if size < 4 {
                        assert(short == 22);
                    } else if size < 8 {
                        assert(short == 21);
                    } else if size < 16 {
                        assert(short == 20);
                    } else if size < 32 {
                        assert(short == 19);
                    } else if size < 64 {
                        assert(short == 18);
                    } else {
                        assert(short == 17);
                    }
                }
                assert(number.mantissa() * pow2(place) == size * pow2(148)) by (nonlinear_arith)
                    requires
                        number.mantissa() == size * pow2(short),
                        pow2(place) * pow2(short) == pow2(148),
                ;
            }
            assert((-size) * pow2(148) == -(size * pow2(148))) by (nonlinear_arith);
        }
        number
    }

    fn unsigned(self) -> (bits: u32)
        ensures
            bits == self.magnitude(),
            bits < SIGN,
    {
        if self.bits >= SIGN {
            self.bits - SIGN
        } else {
            self.bits
        }
    }

    /// Whether this is no number at all.
    pub fn not_a_number(self) -> (nan: bool)
        ensures
            nan == self.is_nan(),
    {
        self.unsigned() > INFINITY
    }

    /// The significant digits and the place of the last one of them.
    pub fn parts(self) -> (parts: (u32, u32))
        ensures
            parts.0 == self.mantissa(),
            parts.1 == self.exponent(),
            parts.0 < 0x100_0000,
            1 <= parts.1 <= 255,
    {
        let size: u32 = self.unsigned();
        if size < 0x80_0000 {
            (size, 1)
        } else {
            (0x80_0000 + size % 0x80_0000, size / 0x80_0000)
        }
    }

    /// Whether this number is smaller than `other`.
    pub fn less(self, other: Sample) -> (less: bool)
        ensures
            less == self.below(other),
    {
        let a: u32 = self.unsigned();
        let b: u32 = other.unsigned();
        if a > INFINITY || b > INFINITY {
            false
        } else if self.bits >= SIGN {
            if other.bits >= SIGN {
                b < a
            } else {
                a > 0 || b > 0
            }
        } else {
            other.bits < SIGN && a < b
        }
    }

    /// Whether this number is smaller than `other` or equal to it.
    pub fn less_or_equal(self, other: Sample) -> (less_or_equal: bool)
        ensures
            less_or_equal == self.at_most(other),
    {
        let a: u32 = self.unsigned();
        let b: u32 = other.unsigned();
        if a > INFINITY || b > INFINITY {
            false
        } else {
            !other.less(self)
        }
    }

    /// The smaller of two numbers; a NaN gives way to the other operand.
    pub fn lesser(self, other: Sample) -> (lesser: Sample)
        ensures
            lesser == self.lesser_spec(other),
    {
        if self.unsigned() > INFINITY || other.less(self) {
            other
        } else {
            self
        }
    }

    /// The larger of two numbers; a NaN gives way to the other operand.
    pub fn greater(self, other: Sample) -> (greater: Sample)
        ensures
            greater == self.greater_spec(other),
    {
        if self.unsigned() > INFINITY || self.less(other) {
            other
        } else {
            self
        }
    }

    /// The number without its sign.
    pub fn abs(self) -> (abs: Sample)
        ensures
            abs == self.abs_spec(),
            abs.bits < SIGN,
            abs.is_nan() == self.is_nan(),
            abs.rank() == self.magnitude(),
    {
        Sample { bits: self.unsigned() }
    }

    /// The number, held between -1 and 1. A NaN stays what it is.
    pub fn unit(self) -> (unit: Sample)
        ensures
            unit == self.unit_spec(),
    {
        let low: Sample = Sample { bits: MINUS_ONE };
        let high: Sample = Sample { bits: ONE };
        if self.less(low) {
            low
        } else if high.less(self) {
            high
        } else {
            self
        }
    }
}

impl Default for Sample {
    fn default() -> (zero: Sample)
        ensures
            zero == (Sample { bits: 0 }),
    {
        Sample::zero()
    }
}

/// A larger magnitude means a larger value.
proof fn sizes_are_ordered(a: Sample, b: Sample)
    requires
        a.magnitude() < b.magnitude(),
    ensures
        a.mantissa() * pow2((a.exponent() - 1) as nat) < b.mantissa() * pow2(
            (b.exponent() - 1) as nat,
        ),
{
    let p = pow2((a.exponent() - 1) as nat) as int;
    let q = pow2((b.exponent() - 1) as nat) as int;
    let m = a.mantissa();
    let n = b.mantissa();
    lemma_pow2_pos((a.exponent() - 1) as nat);
    if a.exponent() == b.exponent() {
        assert(m < n);
        assert(m * p < n * p) by (nonlinear_arith)
            requires
                m < n,
                p > 0,
        ;
    } else {
        assert(a.exponent() < b.exponent());
        vstd::arithmetic::power2::lemma_pow2_unfold((b.exponent() - 1) as nat);
        if a.exponent() < b.exponent() - 1 {
            lemma_pow2_strictly_increases(
                (a.exponent() - 1) as nat,
                (b.exponent() - 2) as nat,
            );
        }
        assert(m * p < n * q) by (nonlinear_arith)
            requires
                0 <= m < 0x100_0000,
                n >= 0x80_0000,
                q >= 2 * p,
                p > 0,
        ;
    }
}

/// Numbers are ordered by their values.
pub proof fn order_is_by_value(a: Sample, b: Sample)
    requires
        !a.is_nan(),
        !b.is_nan(),
    ensures
        a.below(b) <==> a.value() < b.value(),
        a.at_most(b) <==> a.value() <= b.value(),
{
    let zero = Sample { bits: 0 };
    assert(0 * pow2(0) == 0);
    if a.magnitude() < b.magnitude() {
        sizes_are_ordered(a, b);
    }
    if b.magnitude() < a.magnitude() {
        sizes_are_ordered(b, a);
    }
    if a.magnitude() > 0 {
        sizes_are_ordered(zero, a);
    }
    if b.magnitude() > 0 {
        sizes_are_ordered(zero, b);
    }
}

/// No number in the pair is below the lesser one, and none is above the
/// greater one. Either result is one of the operands.
pub proof fn lesser_and_greater_bound(a: Sample, b: Sample)
    ensures
        !a.below(a.lesser_spec(b)),
        !b.below(a.lesser_spec(b)),
        !a.greater_spec(b).below(a),
        !a.greater_spec(b).below(b),
        a.lesser_spec(b) == a || a.lesser_spec(b) == b,
        a.greater_spec(b) == a || a.greater_spec(b) == b,
        a.lesser_spec(b).is_nan() <==> a.is_nan() && b.is_nan(),
        a.greater_spec(b).is_nan() <==> a.is_nan() && b.is_nan(),
{
}

/// Dropping the sign twice is the same as dropping it once, and never gives a
/// number below zero.
pub proof fn abs_is_idempotent(a: Sample)
    ensures
        a.abs_spec().abs_spec() == a.abs_spec(),
        !a.abs_spec().below(Sample { bits: 0 }),
{
}

/// Holding numbers between -1 and 1 keeps their order, and takes everything from 1
/// upwards to 1 and everything from -1 downwards to -1.
pub proof fn unit_keeps_order(a: Sample, b: Sample)
    ensures
        a.at_most(b) ==> a.unit_spec().at_most(b.unit_spec()),
        (Sample { bits: ONE }).at_most(a) ==> a.unit_spec() == (Sample { bits: ONE }),
        a.at_most(Sample { bits: MINUS_ONE }) ==> a.unit_spec() == (Sample { bits: MINUS_ONE }),
{
}

/// A number that is held between -1 and 1 lies there, and one that lies there
/// already stays what it is.
pub proof fn unit_is_in_range(a: Sample)
    ensures
        !a.is_nan() ==> (Sample { bits: MINUS_ONE }).at_most(a.unit_spec()) && a.unit_spec().at_most(
            Sample { bits: ONE },
        ),
        a.unit_spec().unit_spec() == a.unit_spec(),
        (Sample { bits: MINUS_ONE }).at_most(a) && a.at_most(Sample { bits: ONE }) ==> a.unit_spec()
            == a,
{
}

/// The order of numbers, read off their bits: among numbers without the sign bit the
/// larger bits are the larger number, among those with it the smaller number, and
/// one with it is below one without it, but for the two zeros. What lies beyond
/// infinity is below nothing.
pub proof fn order_is_by_bits(a: Sample, b: Sample)
    ensures
        a.is_nan() <==> a.bits % 0x8000_0000 > 0x7f80_0000,
        a.below(b) ==> a.bits % 0x8000_0000 <= 0x7f80_0000 && b.bits % 0x8000_0000 <= 0x7f80_0000,
        a.bits % 0x8000_0000 <= 0x7f80_0000 && b.bits % 0x8000_0000 <= 0x7f80_0000 ==> {
            &&& a.bits < 0x8000_0000 && b.bits < 0x8000_0000 ==> (a.below(b) <==> a.bits < b.bits)
            &&& a.bits >= 0x8000_0000 && b.bits >= 0x8000_0000 ==> (a.below(b) <==> a.bits > b.bits)
            &&& a.bits < 0x8000_0000 && b.bits >= 0x8000_0000 ==> !a.below(b)
            &&& a.bits >= 0x8000_0000 && b.bits < 0x8000_0000 ==> (a.below(b) <==> a.bits
                > 0x8000_0000 || b.bits > 0)
            &&& a.at_most(b) <==> !b.below(a)
        },
        a.at_most(b) ==> a.bits % 0x8000_0000 <= 0x7f80_0000 && b.bits % 0x8000_0000
            <= 0x7f80_0000,
{
}

/// Dropping the sign keeps all bits but the first.
pub proof fn abs_keeps_all_other_bits(a: Sample)
    ensures
        a.abs_spec().bits == a.bits % 0x8000_0000,
{
}

/// A number is kept unless it is further from zero than 1, and then it becomes 1 or
/// -1, whichever has its sign. What is no number is kept.
pub proof fn unit_cuts_off_at_one(a: Sample)
    ensures
        a.bits % 0x8000_0000 <= 0x3f80_0000 ==> a.unit_spec() == a,
        a.bits % 0x8000_0000 > 0x7f80_0000 ==> a.unit_spec() == a,
        0x3f80_0000 < a.bits <= 0x7f80_0000 ==> a.unit_spec().bits == 0x3f80_0000,
        0xbf80_0000 < a.bits <= 0xff80_0000 ==> a.unit_spec().bits == 0xbf80_0000,
{
}

/// Digits and place make up the bits: below the first full place they are the bits
/// themselves, and above it every place has as many numbers as there are digits
/// with a leading one.
pub proof fn digits_and_place_are_the_bits(a: Sample)
    ensures
        a.magnitude() == a.bits % 0x8000_0000,
        a.bits % 0x8000_0000 < 0x80_0000 ==> a.exponent() == 1 && a.mantissa() == a.bits
            % 0x8000_0000,
        a.bits % 0x8000_0000 >= 0x80_0000 ==> {
            &&& 0x80_0000 <= a.mantissa() < 0x100_0000
            &&& (a.exponent() - 1) * 0x80_0000 + a.mantissa() == a.bits % 0x8000_0000
        },
{
}

/// Values grow with the bits: zero is 0, the next larger bits are one last digit more,
/// and the sign bit turns a value into its opposite.
pub proof fn values_grow_by_last_digits(a: Sample, next: Sample, opposite: Sample)
    requires
        a.bits < 0x7f80_0000,
        next.bits == a.bits + 1,
        opposite.bits == a.bits + 0x8000_0000,
    ensures
        (Sample { bits: 0 }).value() == 0,
        next.value() - a.value() == pow2(
            (if a.bits < 0x80_0000 {
                0
            } else {
                a.bits / 0x80_0000 - 1
            }) as nat,
        ),
        opposite.value() == -a.value(),
{
    lemma2_to64();
    assert(0 * pow2(0) == 0);
    let m = a.mantissa();
    let e = a.exponent();
    let p = pow2((e - 1) as nat) as int;
    if next.exponent() == e {
        assert(next.mantissa() == m + 1);
        assert((m + 1) * p - m * p == p) by (nonlinear_arith);
    } else {
        assert(next.exponent() == e + 1 && m == 0xff_ffff && next.mantissa() == 0x80_0000);
        vstd::arithmetic::power2::lemma_pow2_unfold(e as nat);
        assert(0x80_0000 * (2 * p) - 0xff_ffff * p == p) by (nonlinear_arith);
    }
}

} // verus!
