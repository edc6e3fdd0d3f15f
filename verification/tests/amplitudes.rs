use meter::codes::{decode_i16, f32_to_i16, i16_to_f32};
use meter::packing::{
    pack_scope_point, pack_stereo, unpack_scope_point, unpack_stereo, MinMax, Stereo,
};
use meter::rounding::round_to_24_bits;
use meter::sample::{Sample, INFINITY, MINUS_ONE, ONE, SIGN};

fn sample(v: f32) -> Sample {
    Sample { bits: v.to_bits() }
}

fn number(s: Sample) -> f32 {
    f32::from_bits(s.bits)
}

/// A sequence of numbers without a pattern.
fn scramble(x: &mut u64) -> u64 {
    *x = x.wrapping_mul(6364136223846793005).wrapping_add(1442695040888963407);
    *x >> 16
}

fn numbers() -> Vec<f32> {
    vec![
        f32::NEG_INFINITY,
        f32::MIN,
        -60.0,
        -1.5,
        -1.0,
        -0.75,
        -f32::MIN_POSITIVE,
        -1.0e-45,
        -0.0,
        0.0,
        1.0e-45,
        f32::MIN_POSITIVE,
        1.0e-9,
        0.5,
        0.75,
        1.0,
        1.0000001,
        12.0,
        f32::MAX,
        f32::INFINITY,
        f32::NAN,
        -f32::NAN,
    ]
}

#[test]
fn constants_are_the_bits_of_their_numbers() {
    assert_eq!(SIGN, (-0.0f32).to_bits());
    assert_eq!(INFINITY, f32::INFINITY.to_bits());
    assert_eq!(ONE, 1.0f32.to_bits());
    assert_eq!(MINUS_ONE, (-1.0f32).to_bits());
    assert_eq!(Sample::zero(), sample(0.0));
    assert_eq!(Sample::default(), Sample::zero());
}

#[test]
fn order_is_that_of_the_numbers() {
    for &a in &numbers() {
        for &b in &numbers() {
            assert_eq!(sample(a).less(sample(b)), a < b, "{} < {}", a, b);
            assert_eq!(sample(a).less_or_equal(sample(b)), a <= b, "{} <= {}", a, b);
        }
    }
}

#[test]
fn lesser_and_greater_are_minimum_and_maximum() {
    for &a in &numbers() {
        for &b in &numbers() {
            let lesser = number(sample(a).lesser(sample(b)));
            let greater = number(sample(a).greater(sample(b)));
            if a.is_nan() && b.is_nan() {
                assert!(lesser.is_nan() && greater.is_nan());
            } else {
                assert_eq!(lesser, a.min(b));
                assert_eq!(greater, a.max(b));
            }
        }
    }
}

#[test]
fn lesser_prefers_a_number_to_a_nan() {
    let nan = sample(f32::NAN);
    assert_eq!(nan.lesser(sample(2.0)), sample(2.0));
    assert_eq!(sample(2.0).lesser(nan), sample(2.0));
    assert_eq!(nan.greater(sample(-2.0)), sample(-2.0));
    assert_eq!(sample(-2.0).greater(nan), sample(-2.0));
}

#[test]
fn abs_drops_the_sign() {
    for &a in &numbers() {
        assert_eq!(sample(a).abs().bits, a.abs().to_bits());
    }
    assert_eq!(sample(-0.25).abs(), sample(0.25));
}

#[test]
fn unit_holds_between_minus_one_and_one() {
    for &a in &numbers() {
        assert_eq!(sample(a).unit().bits, a.clamp(-1.0, 1.0).to_bits());
    }
    assert_eq!(sample(3.0).unit(), sample(1.0));
    assert_eq!(sample(-3.0).unit(), sample(-1.0));
    assert_eq!(sample(0.3).unit(), sample(0.3));
    assert!(number(sample(f32::NAN).unit()).is_nan());
}

#[test]
fn stereo_packs_left_above_right() {
    let s = Stereo { l: sample(1.0), r: sample(-2.0) };
    assert_eq!(pack_stereo(s), 0x3f80_0000_c000_0000);
    assert_eq!(unpack_stereo(0x3f80_0000_c000_0000), s);
    assert_eq!(pack_stereo(Stereo::default()), 0);
}

#[test]
fn stereo_round_trip_on_every_pair() {
    for &a in &numbers() {
        for &b in &numbers() {
            let s = Stereo { l: sample(a), r: sample(b) };
            assert_eq!(unpack_stereo(pack_stereo(s)), s);
        }
    }
    for word in [0, 1, u64::MAX, 0x8000_0000_0000_0001, 0x0123_4567_89ab_cdef] {
        assert_eq!(pack_stereo(unpack_stereo(word)), word);
    }
}

#[test]
fn scope_point_packs_four_codes() {
    let l = MinMax { min: -1, max: 1 };
    let r = MinMax { min: i16::MIN, max: i16::MAX };
    assert_eq!(pack_scope_point(l, r), 0xffff_0001_8000_7fff);
    assert_eq!(unpack_scope_point(0xffff_0001_8000_7fff), (l, r));
    assert_eq!(MinMax::default(), MinMax { min: 0, max: 0 });
}

#[test]
fn scope_point_round_trip() {
    let codes = [i16::MIN, -32767, -256, -1, 0, 1, 255, 32766, i16::MAX];
    for &a in &codes {
        for &b in &codes {
            let l = MinMax { min: a, max: b };
            let r = MinMax { min: b, max: a };
            assert_eq!(unpack_scope_point(pack_scope_point(l, r)), (l, r));
        }
    }
    for word in [0, 1, u64::MAX, 0x8000_0000_0000_0001, 0x0123_4567_89ab_cdef] {
        let (l, r) = unpack_scope_point(word);
        assert_eq!(pack_scope_point(l, r), word);
    }
}

#[test]
fn codes_of_amplitudes() {
    for (v, code) in [
        (1.0, 32767),
        (-1.0, -32767),
        (2.0, 32767),
        (f32::NEG_INFINITY, -32767),
        (0.5, 16383),
        (-0.5, -16383),
        (0.0, 0),
        (f32::NAN, 0),
    ] {
        assert_eq!(f32_to_i16(sample(v)), code);
    }
}

#[test]
fn amplitudes_of_codes() {
    assert_eq!(i16_to_f32(32767), sample(1.0));
    assert_eq!(i16_to_f32(-32767), sample(-1.0));
    assert_eq!(i16_to_f32(i16::MIN), sample(-1.0));
    assert_eq!(i16_to_f32(0), sample(0.0));
    assert_eq!(i16_to_f32(16384), sample(16384.0 / 32767.0));
}

#[test]
fn every_code_comes_back_but_the_lowest() {
    for code in i16::MIN..=i16::MAX {
        assert_eq!(f32_to_i16(i16_to_f32(code)), code.max(-32767));
        assert_eq!(f32_to_i16(decode_i16(code)), code.max(-32767));
    }
}

#[test]
fn every_code_is_divided_as_numbers_are() {
    for code in i16::MIN..=i16::MAX {
        let quotient = code as f32 / i16::MAX as f32;
        assert_eq!(decode_i16(code), sample(quotient));
        assert_eq!(i16_to_f32(code), sample(quotient.clamp(-1.0, 1.0)));
    }
}

#[test]
fn amplitudes_are_multiplied_as_numbers_are() {
    let check = |v: f32| {
        let code = (v.clamp(-1.0, 1.0) * i16::MAX as f32) as i16;
        assert_eq!(f32_to_i16(sample(v)), code, "{}", v);
    };
    numbers().into_iter().for_each(check);
    let mut x = 1;
    for _ in 0..300_000 {
        check(f32::from_bits(scramble(&mut x) as u32));
        check(scramble(&mut x) as u32 as f32 / u32::MAX as f32);
        check(-(scramble(&mut x) as u32 as f32) / u32::MAX as f32);
    }
    for code in -32767..=32767i32 {
        let near = code as f32 / 32767.0;
        for step in -3..=3i32 {
            check(f32::from_bits((near.to_bits() as i32 + step) as u32));
        }
    }
}

#[test]
fn rounding_is_that_of_numbers() {
    let mut x = 2;
    for _ in 0..200_000 {
        let n = scramble(&mut x) as u128 * scramble(&mut x) as u128 >> (scramble(&mut x) % 90);
        assert_eq!(round_to_24_bits(n), n as f32 as u128, "{}", n);
    }
    for (n, rounded) in [
        (0u128, 0u128),
        (16_777_216, 16_777_216),
        (16_777_217, 16_777_216),
        (16_777_219, 16_777_220),
        (33_554_431, 33_554_432),
        (33_554_434, 33_554_432),
        (33_554_438, 33_554_440),
    ] {
        assert_eq!(round_to_24_bits(n), rounded);
    }
}

#[test]
fn halves_are_numbers() {
    for halves in -127..128i32 {
        assert_eq!(Sample::from_halves(halves), sample(halves as f32 / 2.0));
    }
}
