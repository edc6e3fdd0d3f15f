//! The LED-style level meter: a row of segments over a linear decibel scale.

use crate::function::{total1, writes};
use crate::sample::{order_is_by_bits, order_is_by_value, Sample};
use vstd::arithmetic::power2::{lemma2_to64, lemma_pow2_adds, lemma_pow2_pos, pow2};
use vstd::prelude::*;

verus! {

/// The lower end of the scale, in decibels.
pub const DB_MIN: i32 = -60;

/// The upper end of the scale, in decibels.
pub const DB_MAX: i32 = 12;

/// The number of segments of the scale.
pub const METER_SEGMENTS: usize = 24;

/// The bits of the number -60, the lower end of the scale.
pub const DB_MIN_BITS: u32 = 0xc270_0000;

/// The bits of the number 12, the upper end of the scale.
pub const DB_MAX_BITS: u32 = 0x4140_0000;

/// The bits of the number -18, at which yellow begins.
pub const YELLOW_BITS: u32 = 0xc190_0000;

/// The bits of the number -6, at which red begins.
pub const RED_BITS: u32 = 0xc0c0_0000;

/// The bits of the smallest amplitude that counts, one thousand-millionth.
pub const AMP_MIN_BITS: u32 = 0x3089_705f;

/// The width of a segment, in decibels.
pub const SEGMENT_DB: i32 = 3;

/// The colors of the meter.
#[derive(Clone, Copy, Debug, PartialEq, Eq, Structural)]
pub enum Tint {
    /// A comfortable level.
    Green,
    /// A high level.
    Yellow,
    /// A level close to clipping, or beyond.
    Red,
    /// A segment that the level does not reach.
    DarkGray,
    /// Text.
    White,
}

/// A piece of the meter's line, all of it in one style.
pub struct MeterSpan {
    /// What it shows.
    pub text: String,
    /// The color.
    pub tint: Tint,
    /// Whether it is emphasized.
    pub bold: bool,
}

/// The color of a level: green below -18 decibels, yellow below -6 decibels, red
/// from there. What is no number at all is red.
pub open spec fn band_of(db: Sample) -> Tint {
    if db.below(Sample { bits: YELLOW_BITS }) {
        Tint::Green
    } else if db.below(Sample { bits: RED_BITS }) {
        Tint::Yellow
    } else {
        Tint::Red
    }
}

/// The color of a level that is a whole number of half decibels.
pub open spec fn tint_of(half_db: int) -> Tint {
    if half_db < 2 * -18 {
        Tint::Green
    } else if half_db < 2 * -6 {
        Tint::Yellow
    } else {
        Tint::Red
    }
}

/// The middle of segment `i`, in half decibels.
pub open spec fn segment_half_db(i: int) -> int {
    2 * DB_MIN + (2 * i + 1) * SEGMENT_DB
}

/// The color of segment `i` of a meter with `lit` segments lit: a lit one has the
/// color of its level, the others are gray.
pub open spec fn segment_tint(lit: int, i: int) -> Tint {
    if i < lit {
        tint_of(segment_half_db(i))
    } else {
        Tint::DarkGray
    }
}

/// The color of a level.
pub fn band_color(db: Sample) -> (tint: Tint)
    ensures
        tint == band_of(db),
{
    if db.less(Sample { bits: YELLOW_BITS }) {
        Tint::Green
    } else if db.less(Sample { bits: RED_BITS }) {
        Tint::Yellow
    } else {
        Tint::Red
    }
}

/// The value of one decibel.
pub open spec fn decibel() -> int {
    pow2(149) as int
}

/// The values of the numbers at which the colors change, and of the ends of the
/// scale.
proof fn threshold_values()
    ensures
        (Sample { bits: YELLOW_BITS }).value() == -18 * decibel(),
        (Sample { bits: RED_BITS }).value() == -6 * decibel(),
        (Sample { bits: DB_MIN_BITS }).value() == -60 * decibel(),
        (Sample { bits: DB_MAX_BITS }).value() == 12 * decibel(),
        decibel() > 0,
{
    lemma2_to64();
    lemma_pow2_pos(149);
    assert((Sample { bits: YELLOW_BITS }).mantissa() == 18 * 0x8_0000);
    lemma_pow2_adds(130, 19);
    assert((Sample { bits: RED_BITS }).mantissa() == 6 * 0x20_0000);
    lemma_pow2_adds(128, 21);
    assert((Sample { bits: DB_MIN_BITS }).mantissa() == 60 * 0x4_0000);
    lemma_pow2_adds(131, 18);
    assert((Sample { bits: DB_MAX_BITS }).mantissa() == 12 * 0x10_0000);
    lemma_pow2_adds(129, 20);
}

/// The colors by the value of a level.
pub proof fn bands_are_by_value(db: Sample)
    requires
        !db.is_nan(),
    ensures
        band_of(db) == Tint::Green <==> db.value() < -18 * decibel(),
        band_of(db) == Tint::Yellow <==> -18 * decibel() <= db.value() < -6 * decibel(),
        band_of(db) == Tint::Red <==> db.value() >= -6 * decibel(),
{
    threshold_values();
    order_is_by_value(db, Sample { bits: YELLOW_BITS });
    order_is_by_value(db, Sample { bits: RED_BITS });
}

/// The color of a level that is a whole number of half decibels.
proof fn half_band(db: Sample, half_db: int)
    requires
        !db.is_nan(),
        db.value() == half_db * pow2(148),
    ensures
        band_of(db) == tint_of(half_db),
{
    bands_are_by_value(db);
    lemma2_to64();
    lemma_pow2_adds(148, 1);
    lemma_pow2_pos(148);
    let p = pow2(148) as int;
    assert(decibel() == 2 * p);
    assert((half_db * p < -36 * p) == (half_db < -36)) by (nonlinear_arith)
        requires
            p > 0,
    ;
    assert((half_db * p < -12 * p) == (half_db < -12)) by (nonlinear_arith)
        requires
            p > 0,
    ;
}

/// The level of an amplitude in decibels: `decibels` is applied to the amplitude,
/// or to the smallest one that counts if that is larger or there is no number.
pub fn amp_to_dbfs<D: Fn(Sample) -> Sample>(amp: Sample, decibels: &D) -> (db: Sample)
    requires
        total1(*decibels),
    ensures
        call_ensures(*decibels, (amp.greater_spec(Sample { bits: AMP_MIN_BITS }),), db),
{
    decibels(amp.greater(Sample { bits: AMP_MIN_BITS }))
}

/// The bits of the least level that lights segment `i`: the upper edge of the
/// segment, three decibels above that of the one below it. Where the sum of a level
/// and 60 cannot hold the last digits of the level, the levels that are rounded up
/// to the edge light the segment too.
pub open spec fn edge_bits(i: int) -> u32 {
    if i == 0 {
        0xc264_0000
    } else if i == 1 {
        0xc258_0000
    } else if i == 2 {
        0xc24c_0000
    } else if i == 3 {
        0xc240_0000
    } else if i == 4 {
        0xc234_0000
    } else if i == 5 {
        0xc228_0000
    } else if i == 6 {
        0xc21c_0000
    } else if i == 7 {
        0xc210_0000
    } else if i == 8 {
        0xc204_0000
    } else if i == 9 {
        0xc1f0_0000
    } else if i == 10 {
        0xc1d8_0001
    } else if i == 11 {
        0xc1c0_0001
    } else if i == 12 {
        0xc1a8_0001
    } else if i == 13 {
        0xc190_0001
    } else if i == 14 {
        0xc170_0002
    } else if i == 15 {
        0xc140_0002
    } else if i == 16 {
        0xc110_0002
    } else if i == 17 {
        0xc0c0_0004
    } else if i == 18 {
        0xc040_0017
    } else if i == 19 {
        0xb600_0000
    } else if i == 20 {
        0x403f_fff8
    } else if i == 21 {
        0x40bf_fff8
    } else if i == 22 {
        0x410f_fffc
    } else {
        0x413f_fffc
    }
}

/// The least level that lights segment `i`.
pub open spec fn edge(i: int) -> Sample {
    Sample { bits: edge_bits(i) }
}

/// How many of the lowest `n` segments a level lights: those up to the highest one
/// whose edge it reaches.
pub open spec fn lit_below(db: Sample, n: nat) -> nat
    decreases n,
{
    if n == 0 {
        0
    } else if edge(n - 1).at_most(db) {
        n
    } else {
        lit_below(db, (n - 1) as nat)
    }
}

/// How many segments a level lights.
pub open spec fn lit_for(db: Sample) -> nat {
    lit_below(db, METER_SEGMENTS as nat)
}

/// The least level that lights segment `i`.
fn segment_edge(i: usize) -> (level: Sample)
    requires
        i < METER_SEGMENTS,
    ensures
        level == edge(i as int),
{
    let bits: u32 = match i {
        0 => 0xc264_0000,
        1 => 0xc258_0000,
        2 => 0xc24c_0000,
        3 => 0xc240_0000,
        4 => 0xc234_0000,
        5 => 0xc228_0000,
        6 => 0xc21c_0000,
        7 => 0xc210_0000,
        8 => 0xc204_0000,
        9 => 0xc1f0_0000,
        10 => 0xc1d8_0001,
        11 => 0xc1c0_0001,
        12 => 0xc1a8_0001,
        13 => 0xc190_0001,
        14 => 0xc170_0002,
        15 => 0xc140_0002,
        16 => 0xc110_0002,
        17 => 0xc0c0_0004,
        18 => 0xc040_0017,
        19 => 0xb600_0000,
        20 => 0x403f_fff8,
        21 => 0x40bf_fff8,
        22 => 0x410f_fffc,
        _ => 0x413f_fffc,
    };
    Sample { bits }
}

/// How many segments a level lights.
pub fn lit_segments_for_db(db: Sample) -> (lit: usize)
    ensures
        lit == lit_for(db),
        lit <= METER_SEGMENTS,
{
    let mut n: usize = METER_SEGMENTS;
    while n > 0
        invariant
            n <= METER_SEGMENTS,
            lit_below(db, n as nat) == lit_for(db),
        decreases n,
    {
        if segment_edge(n - 1).less_or_equal(db) {
            return n;
        }
        n -= 1;
    }
    0
}

/// The least number of characters that the number in front of a meter takes.
pub const NUMBER_WIDTH: usize = 6;

/// A number, moved to the right by blanks if it is shorter than its column.
pub open spec fn aligned(number: Seq<char>) -> Seq<char> {
    if number.len() < NUMBER_WIDTH {
        Seq::new((NUMBER_WIDTH - number.len()) as nat, |i: int| ' ') + number
    } else {
        number
    }
}

/// The text in front of a meter: the label of the channel, and its level, given
/// as a number of decibels with one decimal place.
pub fn meter_label(label: &String, number: &String) -> (text: String)
    ensures
        text@ == label_text(label@, number@),
{
    let mut column: String = String::new();
    let mut i: usize = number.as_str().unicode_len();
    assert(column@ =~= Seq::empty());
    while i < NUMBER_WIDTH
        invariant
            number@.len() <= i,
            number@.len() >= NUMBER_WIDTH ==> i == number@.len(),
            number@.len() < NUMBER_WIDTH ==> i <= NUMBER_WIDTH,
            column@ =~= Seq::new((i - number@.len()) as nat, |i: int| ' '),
        decreases NUMBER_WIDTH - i,
    {
        column.append(" ");
        proof {
            reveal_strlit(" ");
        }
        i += 1;
    }
    column.append(number.as_str());
    assert(column@ =~= aligned(number@));
    let mut text: String = label.clone();
    text.append(" ");
    text.append(column.as_str());
    text.append(" dBFS ");
    text
}

/// The text in front of a meter.
pub open spec fn label_text(label: Seq<char>, number: Seq<char>) -> Seq<char> {
    label + " "@ + aligned(number) + " dBFS "@
}

/// The line of a meter with `lit` segments lit: the text in front of it in white,
/// and one black vertical rectangle for each segment. The lit ones are bold.
pub open spec fn is_meter_line(
    spans: Seq<MeterSpan>,
    label: Seq<char>,
    number: Seq<char>,
    lit: int,
) -> bool {
    &&& spans.len() == METER_SEGMENTS + 1
    &&& spans[0].text@ == label_text(label, number)
    &&& spans[0].tint == Tint::White
    &&& !spans[0].bold
    &&& forall|i: int|
        0 < i <= METER_SEGMENTS ==> {
            &&& (#[trigger] spans[i]).text@ == seq!['\u{25ae}']
            &&& spans[i].tint == segment_tint(lit, i - 1)
            &&& spans[i].bold == (i - 1 < lit)
        }
}

/// The line of a meter with `lit` segments lit, given the label of the channel and
/// its level as a number of decibels with one decimal place.
pub fn meter_spans(label: &String, number: &String, lit: usize) -> (spans: Vec<MeterSpan>)
    ensures
        is_meter_line(spans@, label@, number@, lit as int),
{
    let mut spans: Vec<MeterSpan> = Vec::with_capacity(METER_SEGMENTS + 1);
    spans.push(MeterSpan { text: meter_label(label, number), tint: Tint::White, bold: false });
    let mut i: usize = 0;
    while i < METER_SEGMENTS
        invariant
            i <= METER_SEGMENTS,
            spans.len() == i + 1,
            spans@[0].text@ == label_text(label@, number@),
            spans@[0].tint == Tint::White,
            !spans@[0].bold,
            forall|k: int|
                0 < k <= i ==> {
                    &&& (#[trigger] spans@[k]).text@ == seq!['\u{25ae}']
                    &&& spans@[k].tint == segment_tint(lit as int, k - 1)
                    &&& spans@[k].bold == (k - 1 < lit)
                },
        decreases METER_SEGMENTS - i,
    {
        let tint: Tint = if i < lit {
            let center: Sample = Sample::from_halves(2 * DB_MIN + (2 * i as i32 + 1) * SEGMENT_DB);
            proof {
                half_band(center, segment_half_db(i as int));
            }
            band_color(center)
        } else {
            Tint::DarkGray
        };
        let text: String = "\u{25ae}".to_owned();
        proof {
            reveal_strlit("\u{25ae}");
            assert(text@ =~= seq!['\u{25ae}']);
        }
        spans.push(MeterSpan { text, tint, bold: i < lit });
        i += 1;
    }
    spans
}

/// The line of a meter at level `db`. `decimal` writes the level as a number with
/// one decimal place.
pub fn meter_line<W: Fn(Sample) -> String>(
    label: &String,
    db: Sample,
    decimal: &W,
) -> (line: Vec<MeterSpan>)
    requires
        total1(*decimal),
    ensures
        exists|number: Seq<char>|
            #[trigger] writes(*decimal, db, number) && is_meter_line(
                line@,
                label@,
                number,
                lit_for(db) as int,
            ),
{
    let lit: usize = lit_segments_for_db(db);
    let number: String = decimal(db);
    assert(writes(*decimal, db, number@));
    meter_spans(label, &number, lit)
}

/// The scale is linear: the segments are equally wide, the first one begins at
/// the lower end of the scale and the last one ends at the upper end.
pub proof fn scale_is_linear(i: int)
    ensures
        segment_half_db(i + 1) - segment_half_db(i) == 2 * SEGMENT_DB,
        segment_half_db(0) - SEGMENT_DB == 2 * DB_MIN,
        segment_half_db(METER_SEGMENTS - 1) + SEGMENT_DB == 2 * DB_MAX,
{
}

/// The number in front of a meter ends in the same column for all numbers that are
/// no longer than the column, so the segments of the two meters line up.
pub proof fn numbers_line_up(number: Seq<char>)
    requires
        number.len() <= NUMBER_WIDTH,
    ensures
        aligned(number).len() == NUMBER_WIDTH,
        aligned(number).skip(NUMBER_WIDTH - number.len()) == number,
{
    assert(aligned(number).skip(NUMBER_WIDTH - number.len()) =~= number);
}

/// The lit segments are the lowest ones, as many as asked for and at most all,
/// and from the bottom up fourteen of them are green, four yellow and the rest
/// red.
pub proof fn lit_segments_come_first(
    spans: Seq<MeterSpan>,
    label: Seq<char>,
    number: Seq<char>,
    lit: nat,
    i: int,
)
    requires
        is_meter_line(spans, label, number, lit as int),
        0 <= i < METER_SEGMENTS,
    ensures
        spans[i + 1].bold <==> i < lit,
        spans[i + 1].tint == Tint::DarkGray <==> i >= lit,
        i < lit ==> spans[i + 1].tint == (if i < 14 {
            Tint::Green
        } else if i < 18 {
            Tint::Yellow
        } else {
            Tint::Red
        }),
{
    assert(spans[i + 1].bold == (i < lit));
}

/// The value of the edge of a segment, given its parts: `step` is the value of the
/// last digit, and there are `per_db` of these to a decibel.
proof fn edge_value(i: int, per_db: int, slack: int)
    requires
        0 <= i < METER_SEGMENTS,
        edge(i).exponent() == 108 || 128 <= edge(i).exponent() <= 132,
        per_db == pow2((150 - edge(i).exponent()) as nat),
        slack == pow2((133 - edge(i).exponent()) as nat),
    ensures
        decibel() == per_db * pow2((edge(i).exponent() - 1) as nat),
        pow2(132) == slack * pow2((edge(i).exponent() - 1) as nat),
{
    let e = edge(i).exponent();
    lemma_pow2_adds((e - 1) as nat, (150 - e) as nat);
    lemma_pow2_adds((e - 1) as nat, (133 - e) as nat);
    let p = pow2((e - 1) as nat) as int;
    assert(p * per_db == per_db * p && p * slack == slack * p) by (nonlinear_arith);
}

/// The scale is linear: the edges of the segments are three decibels apart, and the
/// last one is the end of the scale. None is higher than that, and none lower by as
/// much as two to the power of -17 decibels.
pub proof fn edges_are_linear(i: int)
    requires
        0 <= i < METER_SEGMENTS,
    ensures
        !edge(i).is_nan(),
        edge(i).value() <= (DB_MIN + (i + 1) * SEGMENT_DB) * decibel(),
        edge(i).value() > (DB_MIN + (i + 1) * SEGMENT_DB) * decibel() - pow2(132),
{
    lemma2_to64();
    let e = edge(i).exponent();
    let p = pow2((e - 1) as nat) as int;
    lemma_pow2_pos((e - 1) as nat);
    let m = edge(i).mantissa();
    let whole = DB_MIN + (i + 1) * SEGMENT_DB;
    let (per_db, slack): (int, int) = if e == 132 {
        (0x4_0000, 2)
    } else if e == 131 {
        (0x8_0000, 4)
    } else if e == 130 {
        (0x10_0000, 8)
    } else if e == 129 {
        (0x20_0000, 16)
    } else if e == 128 {
        (0x40_0000, 32)
    } else {
        (0x400_0000_0000, 0x200_0000)
    };
    if e == 108 {
        lemma_pow2_adds(32, 10);
    }
    edge_value(i, per_db, slack);
    let signed = if edge_bits(i) >= 0x8000_0000 {
        -m
    } else {
        m
    };
    assert(signed <= whole * per_db && signed > whole * per_db - slack);
    assert(edge(i).value() == signed * p) by (nonlinear_arith)
        requires
            edge(i).value() == (if edge_bits(i) >= 0x8000_0000 {
                -(m * p)
            } else {
                m * p
            }),
            signed == (if edge_bits(i) >= 0x8000_0000 {
                -m
            } else {
                m
            }),
    ;
    assert(signed * p <= whole * (per_db * p) && signed * p > whole * (per_db * p) - slack * p)
        by (nonlinear_arith)
        requires
            signed <= whole * per_db,
            signed > whole * per_db - slack,
            p > 0,
    ;
}

/// A level that reaches the edge of a segment reaches those below it.
proof fn edges_grow(i: int, j: int)
    requires
        0 <= i < j < METER_SEGMENTS,
    ensures
        edge(i).below(edge(j)),
    decreases j - i,
{
    assert(edge(j - 1).below(edge(j)));
    if i < j - 1 {
        edges_grow(i, j - 1);
    }
}

/// A segment is lit exactly if the level reaches its edge.
pub proof fn segments_light_when_reached(db: Sample, i: int)
    requires
        0 <= i < METER_SEGMENTS,
    ensures
        i < lit_for(db) <==> edge(i).at_most(db),
{
    lit_is_highest(db, METER_SEGMENTS as nat);
    let lit = lit_for(db) as int;
    if i < lit - 1 {
        edges_grow(i, lit - 1);
    }
}

/// The highest segment that is lit is the highest one whose edge is reached.
proof fn lit_is_highest(db: Sample, n: nat)
    ensures
        lit_below(db, n) <= n,
        lit_below(db, n) > 0 ==> edge(lit_below(db, n) - 1).at_most(db),
        forall|k: int| lit_below(db, n) <= k < n ==> !(#[trigger] edge(k)).at_most(db),
    decreases n,
{
    if n > 0 && !edge(n - 1).at_most(db) {
        lit_is_highest(db, (n - 1) as nat);
    }
}

/// Over the whole scale and beyond it a higher level never lights fewer segments,
/// and none lights more than there are: none at -60 decibels, all at 12.
pub proof fn higher_levels_light_more(db: Sample, higher: Sample)
    requires
        db.at_most(higher),
    ensures
        lit_for(db) <= lit_for(higher) <= METER_SEGMENTS,
        db.at_most(Sample { bits: DB_MIN_BITS }) ==> lit_for(db) == 0,
        (Sample { bits: DB_MAX_BITS }).at_most(db) ==> lit_for(db) == METER_SEGMENTS,
{
    lit_is_highest(db, METER_SEGMENTS as nat);
    lit_is_highest(higher, METER_SEGMENTS as nat);
    if lit_for(db) > 0 {
        segments_light_when_reached(higher, lit_for(db) - 1);
        segments_light_when_reached(db, 0);
    }
    segments_light_when_reached(db, METER_SEGMENTS - 1);
}

/// Between the ends of the scale a level lights one segment for each three decibels
/// above -60 that it has reached in full: not one more than that, but where it
/// misses the edge by less than two to the power of -17 decibels, and not one less.
pub proof fn levels_light_segments_linearly(db: Sample)
    requires
        (Sample { bits: DB_MIN_BITS }).at_most(db),
    ensures
        SEGMENT_DB * lit_for(db) * decibel() < db.value() - DB_MIN * decibel() + pow2(132),
        lit_for(db) < METER_SEGMENTS ==> db.value() - DB_MIN * decibel() < SEGMENT_DB * (lit_for(
            db,
        ) + 1) * decibel(),
{
    let lit = lit_for(db) as int;
    let unit = decibel();
    threshold_values();
    lemma_pow2_pos(132);
    order_is_by_value(Sample { bits: DB_MIN_BITS }, db);
    lit_is_highest(db, METER_SEGMENTS as nat);
    if lit > 0 {
        edges_are_linear(lit - 1);
        order_is_by_value(edge(lit - 1), db);
    }
    if lit < METER_SEGMENTS {
        edges_are_linear(lit);
        order_is_by_value(edge(lit), db);
    }
    assert((DB_MIN + lit * SEGMENT_DB) * unit == DB_MIN * unit + SEGMENT_DB * lit * unit && (DB_MIN
        + (lit + 1) * SEGMENT_DB) * unit == DB_MIN * unit + SEGMENT_DB * (lit + 1) * unit)
        by (nonlinear_arith)
        requires
            DB_MIN == -60,
            SEGMENT_DB == 3,
    ;
}

/// The text in front of a meter, character by character: the label, a blank, the
/// number moved to the right by as many blanks as it has characters less than six,
/// and the unit between blanks.
pub proof fn labels_are_put_together(label: Seq<char>, number: Seq<char>)
    ensures
        number.len() >= 6 ==> label_text(label, number) == label + seq![' '] + number + seq![
            ' ',
            'd',
            'B',
            'F',
            'S',
            ' ',
        ],
        number.len() < 6 ==> label_text(label, number) == label + seq![' '] + Seq::new(
            (6 - number.len()) as nat,
            |i: int| ' ',
        ) + number + seq![' ', 'd', 'B', 'F', 'S', ' '],
{
    reveal_strlit(" ");
    reveal_strlit(" dBFS ");
    assert(" "@ =~= seq![' ']);
    assert(" dBFS "@ =~= seq![' ', 'd', 'B', 'F', 'S', ' ']);
    if number.len() < 6 {
        assert(label_text(label, number) =~= label + seq![' '] + Seq::new(
            (6 - number.len()) as nat,
            |i: int| ' ',
        ) + number + seq![' ', 'd', 'B', 'F', 'S', ' ']);
    } else {
        assert(label_text(label, number) =~= label + seq![' '] + number + seq![
            ' ',
            'd',
            'B',
            'F',
            'S',
            ' ',
        ]);
    }
}

/// The line of a meter, piece by piece: 25 of them, first the text in white, then 24
/// times the same character. Those up to the number of lit segments are bold, the
/// first fourteen of these green, the next four yellow and the others red. The rest
/// is dark gray.
pub proof fn lines_have_their_pieces(
    spans: Seq<MeterSpan>,
    label: Seq<char>,
    number: Seq<char>,
    lit: int,
    i: int,
)
    requires
        is_meter_line(spans, label, number, lit),
    ensures
        spans.len() == 25,
        spans[0].text@ == label_text(label, number),
        spans[0].tint is White && !spans[0].bold,
        1 <= i <= 24 ==> {
            &&& spans[i].text@ == seq!['\u{25ae}']
            &&& spans[i].bold <==> i <= lit
            &&& i > lit ==> spans[i].tint is DarkGray
            &&& i <= lit && i <= 14 ==> spans[i].tint is Green
            &&& i <= lit && 15 <= i <= 18 ==> spans[i].tint is Yellow
            &&& i <= lit && 19 <= i ==> spans[i].tint is Red
        },
{
    if 1 <= i <= 24 {
        assert(spans[i].text@ == seq!['\u{25ae}']);
    }
}

/// How many segments a level lights, by its value: none up to -60 decibels, all from
/// 12 decibels on, and in between one for each three decibels above -60 that it has
/// in full, where it may miss the last one by less than two to the power of -17
/// decibels. What is no number lights none.
pub proof fn three_decibels_light_a_segment(db: Sample)
    ensures
        db.bits as int % 0x8000_0000 > 0x7f80_0000 ==> lit_for(db) == 0,
        db.bits as int % 0x8000_0000 <= 0x7f80_0000 ==> {
            let lit = lit_for(db) as int;
            &&& 0 <= lit <= 24
            &&& db.value() <= -60 * pow2(149) ==> lit == 0
            &&& db.value() >= 12 * pow2(149) ==> lit == 24
            &&& db.value() >= -60 * pow2(149) ==> 3 * lit * pow2(149) < db.value() + 60 * pow2(149)
                + pow2(132)
            &&& lit < 24 ==> db.value() + 60 * pow2(149) < 3 * (lit + 1) * pow2(149)
        },
{
    order_is_by_bits(db, db);
    threshold_values();
    lit_is_highest(db, METER_SEGMENTS as nat);
    if db.is_nan() {
        if lit_for(db) > 0 {
            assert(edge(lit_for(db) - 1).at_most(db));
        }
    } else {
        let low = Sample { bits: DB_MIN_BITS };
        let high = Sample { bits: DB_MAX_BITS };
        order_is_by_value(db, low);
        order_is_by_value(low, db);
        order_is_by_value(high, db);
        higher_levels_light_more(db, db);
        if low.at_most(db) {
            levels_light_segments_linearly(db);
        } else {
            let unit = pow2(149) as int;
            assert(db.value() + 60 * unit < 3 * (0 + 1) * unit);
        }
    }
}

/// The color of a level, by its value: green below -18 decibels, yellow from there to
/// below -6 decibels, red from there on and for what is no number.
pub proof fn levels_have_their_colors(db: Sample)
    ensures
        db.bits as int % 0x8000_0000 > 0x7f80_0000 ==> band_of(db) is Red,
        db.bits as int % 0x8000_0000 <= 0x7f80_0000 ==> {
            &&& band_of(db) is Green <==> db.value() < -18 * pow2(149)
            &&& band_of(db) is Yellow <==> -18 * pow2(149) <= db.value() < -6 * pow2(149)
            &&& band_of(db) is Red <==> db.value() >= -6 * pow2(149)
        },
{
    order_is_by_bits(db, db);
    if !db.is_nan() {
        bands_are_by_value(db);
    }
}

} // verus!
