//! Fixed-width words that carry several values between threads in one atomic
//! store or one queue slot.

use crate::sample::Sample;
use vstd::prelude::*;

verus! {

/// One amplitude for each of two channels.
#[derive(Clone, Copy, Debug, PartialEq, Eq, Structural)]
pub struct Stereo {
    /// The left channel.
    pub l: Sample,
    /// The right channel.
    pub r: Sample,
}

impl Default for Stereo {
    fn default() -> (silence: Stereo)
        ensures
            silence.l == (Sample { bits: 0 }),
            silence.r == (Sample { bits: 0 }),
    {
        Stereo { l: Sample::zero(), r: Sample::zero() }
    }
}

/// The lowest and the highest amplitude of one channel over one scope point,
/// each as a signed 16-bit code.
#[derive(Clone, Copy, Debug, PartialEq, Eq, Structural)]
pub struct MinMax {
    /// The lowest amplitude.
    pub min: i16,
    /// The highest amplitude.
    pub max: i16,
}

impl Default for MinMax {
    fn default() -> (zero: MinMax)
        ensures
            zero == (MinMax { min: 0, max: 0 }),
    {
        MinMax { min: 0, max: 0 }
    }
}

/// The word for a pair of amplitudes: left in the upper half, right in the
/// lower half.
pub open spec fn stereo_word(s: Stereo) -> int {
    s.l.bits * 0x1_0000_0000 + s.r.bits
}

/// The 16 bits that two's complement gives to a code.
pub open spec fn code_bits(code: i16) -> int {
    if code < 0 {
        code + 0x1_0000
    } else {
        code as int
    }
}

/// The word for one scope point: four 16-bit fields, from the top the left
/// minimum, the left maximum, the right minimum and the right maximum.
pub open spec fn point_word(l: MinMax, r: MinMax) -> int {
    code_bits(l.min) * 0x1_0000_0000_0000 + code_bits(l.max) * 0x1_0000_0000 + code_bits(r.min)
        * 0x1_0000 + code_bits(r.max)
}

/// The pair of amplitudes that a word holds.
pub open spec fn stereo_of(word: u64) -> Stereo {
    Stereo {
        l: Sample { bits: (word as int / 0x1_0000_0000) as u32 },
        r: Sample { bits: (word as int % 0x1_0000_0000) as u32 },
    }
}

/// The code that the low 16 bits of `field` stand for in two's complement.
pub open spec fn code_of(field: int) -> i16 {
    let low = field % 0x1_0000;
    if low >= 0x8000 {
        (low - 0x1_0000) as i16
    } else {
        low as i16
    }
}

/// The scope point that a word holds, left channel first.
pub open spec fn point_of(word: u64) -> (MinMax, MinMax) {
    (
        MinMax {
            min: code_of(word as int / 0x1_0000_0000_0000),
            max: code_of(word as int / 0x1_0000_0000),
        },
        MinMax { min: code_of(word as int / 0x1_0000), max: code_of(word as int) },
    )
}

/// Packs a pair of amplitudes into one word.
pub fn pack_stereo(s: Stereo) -> (word: u64)
    ensures
        word == stereo_word(s),
{
    let lb: u64 = s.l.bits as u64;
    let rb: u64 = s.r.bits as u64;
    assert((lb << 32) | rb == lb * 0x1_0000_0000 + rb) by (bit_vector)
        requires
            lb <= 0xffff_ffff,
            rb <= 0xffff_ffff,
    ;
    (lb << 32) | rb
}

/// Reads a pair of amplitudes back from its word.
pub fn unpack_stereo(word: u64) -> (s: Stereo)
    ensures
        s == stereo_of(word),
{
    let l: u32 = #[verifier::truncate] ((word >> 32) as u32);
    let r: u32 = #[verifier::truncate] (word as u32);
    assert(l as u64 == word / 0x1_0000_0000) by (bit_vector)
        requires
            l == (word >> 32) as u32,
    ;
    assert(r as u64 == word % 0x1_0000_0000) by (bit_vector)
        requires
            r == word as u32,
    ;
    Stereo { l: Sample { bits: l }, r: Sample { bits: r } }
}

fn code_to_field(code: i16) -> (field: u64)
    ensures
        field == code_bits(code),
        field <= 0xffff,
{
    if code < 0 {
        (code as i32 + 0x1_0000) as u64
    } else {
        code as u64
    }
}

fn field_to_code(field: u64) -> (code: i16)
    requires
        field <= 0xffff,
    ensures
        code == code_of(field as int),
{
    if field >= 0x8000 {
        (field as i32 - 0x1_0000) as i16
    } else {
        field as i16
    }
}

/// Packs one scope point into one word.
pub fn pack_scope_point(l: MinMax, r: MinMax) -> (word: u64)
    ensures
        word == point_word(l, r),
{
    let a: u64 = code_to_field(l.min);
    let b: u64 = code_to_field(l.max);
    let c: u64 = code_to_field(r.min);
    let d: u64 = code_to_field(r.max);
    assert((a << 48) | (b << 32) | (c << 16) | d == a * 0x1_0000_0000_0000 + b * 0x1_0000_0000 + c
        * 0x1_0000 + d) by (bit_vector)
        requires
            a <= 0xffff,
            b <= 0xffff,
            c <= 0xffff,
            d <= 0xffff,
    ;
    (a << 48) | (b << 32) | (c << 16) | d
}

/// Reads one scope point back from its word.
pub fn unpack_scope_point(word: u64) -> (point: (MinMax, MinMax))
    ensures
        point == point_of(word),
{
    let a: u64 = (word >> 48) & 0xffff;
    let b: u64 = (word >> 32) & 0xffff;
    let c: u64 = (word >> 16) & 0xffff;
    let d: u64 = word & 0xffff;
    assert(a == (word / 0x1_0000_0000_0000) % 0x1_0000 && b == (word / 0x1_0000_0000) % 0x1_0000
        && c == (word / 0x1_0000) % 0x1_0000 && d == word % 0x1_0000) by (bit_vector)
        requires
            a == (word >> 48) & 0xffff,
            b == (word >> 32) & 0xffff,
            c == (word >> 16) & 0xffff,
            d == word & 0xffff,
    ;
    (
        MinMax { min: field_to_code(a), max: field_to_code(b) },
        MinMax { min: field_to_code(c), max: field_to_code(d) },
    )
}

/// Unpacking what was packed gives the amplitudes back, bit for bit, and every
/// word is what packing makes of the amplitudes that it holds.
pub proof fn stereo_round_trip(s: Stereo, word: u64)
    ensures
        0 <= stereo_word(s) <= u64::MAX,
        stereo_of(stereo_word(s) as u64) == s,
        stereo_word(stereo_of(word)) == word,
{
}

/// Four 16-bit fields can be read back from the number that they make up, and
/// every 64-bit number is made up of four such fields.
proof fn fields_round_trip(a: int, b: int, c: int, d: int, n: int)
    requires
        0 <= a < 0x1_0000,
        0 <= b < 0x1_0000,
        0 <= c < 0x1_0000,
        0 <= d < 0x1_0000,
        n == a * 0x1_0000_0000_0000 + b * 0x1_0000_0000 + c * 0x1_0000 + d,
    ensures
        n / 0x1_0000_0000_0000 == a,
        n / 0x1_0000_0000 == a * 0x1_0000 + b,
        n / 0x1_0000 == a * 0x1_0000_0000 + b * 0x1_0000 + c,
        (n / 0x1_0000_0000) % 0x1_0000 == b,
        (n / 0x1_0000) % 0x1_0000 == c,
        n % 0x1_0000 == d,
        0 <= n <= u64::MAX,
{
}

/// A code is the code of its own bits.
proof fn code_round_trip(code: i16, field: int)
    requires
        0 <= field < 0x1_0000,
    ensures
        0 <= code_bits(code) < 0x1_0000,
        code_of(code_bits(code)) == code,
        code_bits(code_of(field)) == field,
{
}

/// Unpacking what was packed gives the scope point back, and every word is
/// what packing makes of the scope point that it holds.
pub proof fn point_round_trip(l: MinMax, r: MinMax, word: u64)
    ensures
        0 <= point_word(l, r) <= u64::MAX,
        point_of(point_word(l, r) as u64) == (l, r),
        point_word(point_of(word).0, point_of(word).1) == word,
{
    let n = word as int;
    let a = n / 0x1_0000_0000_0000;
    let b = (n / 0x1_0000_0000) % 0x1_0000;
    let c = (n / 0x1_0000) % 0x1_0000;
    let d = n % 0x1_0000;
    code_round_trip(l.min, a);
    code_round_trip(l.max, b);
    code_round_trip(r.min, c);
    code_round_trip(r.max, d);
    fields_round_trip(
        code_bits(l.min),
        code_bits(l.max),
        code_bits(r.min),
        code_bits(r.max),
        point_word(l, r),
    );
    assert(point_of(point_word(l, r) as u64) == (l, r)) by {
        let m = point_word(l, r);
        assert(code_of(m / 0x1_0000_0000) == code_of((m / 0x1_0000_0000) % 0x1_0000));
        assert(code_of(m / 0x1_0000) == code_of((m / 0x1_0000) % 0x1_0000));
        assert(code_of(m) == code_of(m % 0x1_0000));
    }
    assert(point_word(point_of(word).0, point_of(word).1) == word) by {
        assert(code_of(n / 0x1_0000_0000) == code_of(b));
        assert(code_of(n / 0x1_0000) == code_of(c));
        assert(code_of(n) == code_of(d));
        assert(n == (n / 0x1_0000) * 0x1_0000 + d);
        assert(n / 0x1_0000 == (n / 0x1_0000_0000) * 0x1_0000 + c);
        assert(n / 0x1_0000_0000 == a * 0x1_0000 + b);
    }
}

/// Where the values are in a word: the left amplitude in the upper half and the
/// right one in the lower half; of a scope point four times 16 bits, from the top
/// the left minimum and maximum and the right minimum and maximum.
pub proof fn words_hold_their_fields(s: Stereo, l: MinMax, r: MinMax)
    ensures
        stereo_word(s) / 0x1_0000_0000 == s.l.bits,
        stereo_word(s) % 0x1_0000_0000 == s.r.bits,
        0 <= point_word(l, r) < 0x1_0000_0000_0000_0000,
        point_word(l, r) / 0x1_0000_0000_0000 == l.min as int % 0x1_0000,
        (point_word(l, r) / 0x1_0000_0000) % 0x1_0000 == l.max as int % 0x1_0000,
        (point_word(l, r) / 0x1_0000) % 0x1_0000 == r.min as int % 0x1_0000,
        point_word(l, r) % 0x1_0000 == r.max as int % 0x1_0000,
{
    code_round_trip(l.min, 0);
    code_round_trip(l.max, 0);
    code_round_trip(r.min, 0);
    code_round_trip(r.max, 0);
    fields_round_trip(
        code_bits(l.min),
        code_bits(l.max),
        code_bits(r.min),
        code_bits(r.max),
        point_word(l, r),
    );
}

} // verus!
