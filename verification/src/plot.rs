//! The scope trace, drawn with braille characters: every text cell shows a
//! block of dots, two across and four down.

use crate::codes::{amplitude_for, i16_to_f32};
use crate::packing::MinMax;
use crate::rounding::{
    nearest_is_near, round24, round_to_24_bits, rounding_is_exact, rounding_keeps_order,
    rounding_repeats, unit24, unit_fits,
};
use crate::sample::{
    digits_and_place_are_the_bits, order_is_by_value, unit_cuts_off_at_one, unit_is_in_range, unit_keeps_order, Sample, MINUS_ONE,
    ONE, SIGN,
};
use std::collections::VecDeque;
use vstd::arithmetic::power2::{
    lemma2_to64, lemma_pow2_adds, lemma_pow2_pos, lemma_pow2_strictly_increases, pow2,
};
use vstd::prelude::*;

verus! {

/// The code point of the braille character without a dot.
pub const BRAILLE_BLANK: u32 = 0x2800;

/// The dot rows that one scope point reaches, counted from the top.
#[derive(Clone, Copy, Debug, PartialEq, Eq, Structural)]
pub struct RowSpan {
    /// The row of the highest amplitude.
    pub top: usize,
    /// The row of the lowest amplitude.
    pub bottom: usize,
}

/// The bit of the braille dot in column `dx` and row `dy` of a cell.
pub open spec fn dot_weight(dx: int, dy: int) -> u8 {
    if dx == 0 && dy == 0 {
        0x01
    } else if dx == 0 && dy == 1 {
        0x02
    } else if dx == 0 && dy == 2 {
        0x04
    } else if dx == 1 && dy == 0 {
        0x08
    } else if dx == 1 && dy == 1 {
        0x10
    } else if dx == 1 && dy == 2 {
        0x20
    } else if dx == 0 && dy == 3 {
        0x40
    } else if dx == 1 && dy == 3 {
        0x80
    } else {
        0
    }
}

/// Whether the dot in column `x` and row `y` is lit. The even columns of row
/// `center` always are. The scope points are aligned to the right edge, one to
/// a cell: the right column of the cell is lit between the two rows of the
/// point, the left column at these two rows only.
pub open spec fn dot_lit(center: int, spans: Seq<RowSpan>, width: int, x: int, y: int) -> bool {
    let i = x / 2 - (width - spans.len());
    ||| x % 2 == 0 && y == center
    ||| 0 <= i < spans.len() && if x % 2 == 0 {
        y == spans[i].top || y == spans[i].bottom
    } else {
        spans[i].top <= y <= spans[i].bottom || spans[i].bottom <= y <= spans[i].top
    }
}

/// The bit of one dot of a cell, or 0 if the dot is dark.
pub open spec fn dot_term(
    center: int,
    spans: Seq<RowSpan>,
    width: int,
    col: int,
    row: int,
    dx: int,
    dy: int,
) -> int {
    if dot_lit(center, spans, width, 2 * col + dx, 4 * row + dy) {
        dot_weight(dx, dy) as int
    } else {
        0
    }
}

/// The bits of the cell in text column `col` and text row `row`.
pub open spec fn cell_bits(center: int, spans: Seq<RowSpan>, width: int, col: int, row: int) -> int {
    dot_term(center, spans, width, col, row, 0, 0) + dot_term(center, spans, width, col, row, 1, 0)
        + dot_term(center, spans, width, col, row, 0, 1) + dot_term(
        center,
        spans,
        width,
        col,
        row,
        1,
        1,
    ) + dot_term(center, spans, width, col, row, 0, 2) + dot_term(
        center,
        spans,
        width,
        col,
        row,
        1,
        2,
    ) + dot_term(center, spans, width, col, row, 0, 3) + dot_term(
        center,
        spans,
        width,
        col,
        row,
        1,
        3,
    )
}

/// The text of row `row`.
pub open spec fn line_text(center: int, spans: Seq<RowSpan>, width: nat, row: int) -> Seq<char> {
    Seq::new(
        width,
        |col: int| (BRAILLE_BLANK + cell_bits(center, spans, width as int, col, row)) as char,
    )
}

/// The whole drawing, one text per row. There is none without a cell.
pub open spec fn plot_text(
    center: int,
    spans: Seq<RowSpan>,
    width: nat,
    height: nat,
) -> Seq<Seq<char>> {
    if width == 0 || height == 0 {
        Seq::empty()
    } else {
        Seq::new(height, |row: int| line_text(center, spans, width, row))
    }
}

/// The texts that a list of strings holds.
pub open spec fn texts(lines: Seq<String>) -> Seq<Seq<char>> {
    Seq::new(lines.len(), |i: int| lines[i]@)
}

/// The bit of the braille dot in column `dx` and row `dy` of a cell; 0 outside
/// of the cell.
pub fn braille_bit(dx: usize, dy: usize) -> (bit: u8)
    ensures
        bit == dot_weight(dx as int, dy as int),
{
    match (dx, dy) {
        (0, 0) => 0x01,
        (0, 1) => 0x02,
        (0, 2) => 0x04,
        (1, 0) => 0x08,
        (1, 1) => 0x10,
        (1, 2) => 0x20,
        (0, 3) => 0x40,
        (1, 3) => 0x80,
        _ => 0,
    }
}

/// [`dot_lit`] with only the first `n` scope points drawn.
spec fn dot_lit_so_far(
    center: int,
    spans: Seq<RowSpan>,
    width: int,
    n: int,
    x: int,
    y: int,
) -> bool {
    let i = x / 2 - (width - spans.len());
    ||| x % 2 == 0 && y == center
    ||| 0 <= i < n && if x % 2 == 0 {
        y == spans[i].top || y == spans[i].bottom
    } else {
        spans[i].top <= y <= spans[i].bottom || spans[i].bottom <= y <= spans[i].top
    }
}

/// The dots, row by row.
fn draw_dots(center: usize, spans: &Vec<RowSpan>, width: usize, height: usize) -> (dots: Vec<
    Vec<bool>,
>)
    requires
        width * 2 <= usize::MAX,
        height * 4 <= usize::MAX,
        center < height * 4,
        spans.len() <= width,
        forall|i: int|
            0 <= i < spans.len() ==> #[trigger] spans[i].top < height * 4 && spans[i].bottom
                < height * 4,
    ensures
        dots.len() == height * 4,
        forall|y: int| 0 <= y < height * 4 ==> (#[trigger] dots[y]).len() == width * 2,
        forall|y: int, x: int|
            0 <= y < height * 4 && 0 <= x < width * 2 ==> #[trigger] dots[y][x] == dot_lit(
                center as int,
                spans@,
                width as int,
                x,
                y,
            ),
{
    let sub_w: usize = width * 2;
    let sub_h: usize = height * 4;
    let mut dots: Vec<Vec<bool>> = Vec::new();
    let mut y: usize = 0;
    while y < sub_h
        invariant
            y <= sub_h,
            dots.len() == y,
            forall|j: int| 0 <= j < y ==> (#[trigger] dots[j]).len() == sub_w,
            forall|j: int, x: int| 0 <= j < y && 0 <= x < sub_w ==> !(#[trigger] dots[j][x]),
        decreases sub_h - y,
    {
        dots.push(vec![false; sub_w]);
        y += 1;
    }
    let mut x: usize = 0;
    while x < sub_w
        invariant
            x <= sub_w,
            center < sub_h,
            dots.len() == sub_h,
            forall|j: int| 0 <= j < sub_h ==> (#[trigger] dots[j]).len() == sub_w,
            forall|j: int, k: int|
                0 <= j < sub_h && 0 <= k < sub_w ==> #[trigger] dots[j][k] == (k < x && k % 2 == 0
                    && j == center),
        decreases sub_w - x,
    {
        if x % 2 == 0 {
            dots[center][x] = true;
        }
        x += 1;
    }
    let x_offset: usize = width - spans.len();
    let mut i: usize = 0;
    while i < spans.len()
        invariant
            i <= spans.len() <= width,
            x_offset == width - spans.len(),
            sub_w == width * 2,
            dots.len() == sub_h,
            forall|j: int|
                0 <= j < spans.len() ==> #[trigger] spans[j].top < sub_h && spans[j].bottom < sub_h,
            forall|j: int| 0 <= j < sub_h ==> (#[trigger] dots[j]).len() == sub_w,
            forall|j: int, k: int|
                0 <= j < sub_h && 0 <= k < sub_w ==> #[trigger] dots[j][k] == dot_lit_so_far(
                    center as int,
                    spans@,
                    width as int,
                    i as int,
                    k,
                    j,
                ),
        decreases spans.len() - i,
    {
        let x: usize = (x_offset + i) * 2 + 1;
        let top: usize = spans[i].top;
        let bottom: usize = spans[i].bottom;
        let y0: usize = if top <= bottom {
            top
        } else {
            bottom
        };
        let y1: usize = if top <= bottom {
            bottom
        } else {
            top
        };
        let mut y: usize = y0;
        while y <= y1
            invariant
                y0 <= y <= y1 + 1,
                y1 < sub_h,
                x < sub_w,
                dots.len() == sub_h,
                forall|j: int| 0 <= j < sub_h ==> (#[trigger] dots[j]).len() == sub_w,
                forall|j: int, k: int|
                    0 <= j < sub_h && 0 <= k < sub_w ==> #[trigger] dots[j][k] == (dot_lit_so_far(
                        center as int,
                        spans@,
                        width as int,
                        i as int,
                        k,
                        j,
                    ) || k == x && y0 <= j < y),
            decreases y1 + 1 - y,
        {
            dots[y][x] = true;
            y += 1;
        }
        dots[top][x - 1] = true;
        dots[bottom][x - 1] = true;
        i += 1;
    }
    dots
}

/// The union of the bits of the dots whose flags are set. The flags stand for
/// the left column from the top, then for the right column.
spec fn gathered(
    l0: bool,
    l1: bool,
    l2: bool,
    l3: bool,
    r0: bool,
    r1: bool,
    r2: bool,
    r3: bool,
) -> u8 {
    (if l0 {
        0x01u8
    } else {
        0u8
    }) | (if l1 {
        0x02u8
    } else {
        0u8
    }) | (if l2 {
        0x04u8
    } else {
        0u8
    }) | (if l3 {
        0x40u8
    } else {
        0u8
    }) | (if r0 {
        0x08u8
    } else {
        0u8
    }) | (if r1 {
        0x10u8
    } else {
        0u8
    }) | (if r2 {
        0x20u8
    } else {
        0u8
    }) | (if r3 {
        0x80u8
    } else {
        0u8
    })
}

/// Adding one bit to the union sets the flag of its dot and no other.
proof fn gathered_adds(
    l0: bool,
    l1: bool,
    l2: bool,
    l3: bool,
    r0: bool,
    r1: bool,
    r2: bool,
    r3: bool,
    bit: u8,
)
    by (bit_vector)
    requires
        bit == 0x01 || bit == 0x02 || bit == 0x04 || bit == 0x08 || bit == 0x10 || bit == 0x20
            || bit == 0x40 || bit == 0x80,
    ensures
        gathered(l0, l1, l2, l3, r0, r1, r2, r3) | bit == gathered(
            l0 || bit == 0x01,
            l1 || bit == 0x02,
            l2 || bit == 0x04,
            l3 || bit == 0x40,
            r0 || bit == 0x08,
            r1 || bit == 0x10,
            r2 || bit == 0x20,
            r3 || bit == 0x80,
        ),
{
}

/// The bits of different dots do not overlap, so their union is their sum.
proof fn gathered_is_sum(
    l0: bool,
    l1: bool,
    l2: bool,
    l3: bool,
    r0: bool,
    r1: bool,
    r2: bool,
    r3: bool,
)
    by (bit_vector)
    ensures
        gathered(false, false, false, false, false, false, false, false) == 0,
        gathered(l0, l1, l2, l3, r0, r1, r2, r3) == (if l0 {
            0x01u8
        } else {
            0u8
        }) + (if l1 {
            0x02u8
        } else {
            0u8
        }) + (if l2 {
            0x04u8
        } else {
            0u8
        }) + (if l3 {
            0x40u8
        } else {
            0u8
        }) + (if r0 {
            0x08u8
        } else {
            0u8
        }) + (if r1 {
            0x10u8
        } else {
            0u8
        }) + (if r2 {
            0x20u8
        } else {
            0u8
        }) + (if r3 {
            0x80u8
        } else {
            0u8
        }),
{
}

/// The union has the bit of a dot exactly if the flag of the dot is set.
proof fn gathered_reads_back(
    l0: bool,
    l1: bool,
    l2: bool,
    l3: bool,
    r0: bool,
    r1: bool,
    r2: bool,
    r3: bool,
)
    by (bit_vector)
    ensures
        gathered(l0, l1, l2, l3, r0, r1, r2, r3) & 0x01 != 0 <==> l0,
        gathered(l0, l1, l2, l3, r0, r1, r2, r3) & 0x02 != 0 <==> l1,
        gathered(l0, l1, l2, l3, r0, r1, r2, r3) & 0x04 != 0 <==> l2,
        gathered(l0, l1, l2, l3, r0, r1, r2, r3) & 0x40 != 0 <==> l3,
        gathered(l0, l1, l2, l3, r0, r1, r2, r3) & 0x08 != 0 <==> r0,
        gathered(l0, l1, l2, l3, r0, r1, r2, r3) & 0x10 != 0 <==> r1,
        gathered(l0, l1, l2, l3, r0, r1, r2, r3) & 0x20 != 0 <==> r2,
        gathered(l0, l1, l2, l3, r0, r1, r2, r3) & 0x80 != 0 <==> r3,
{
}

/// Whether a dot of a cell is lit and comes before the dot `at_x`, `at_y` in
/// reading order.
spec fn lit_before(
    dots: Seq<Vec<bool>>,
    col: int,
    row: int,
    dx: int,
    dy: int,
    at_x: int,
    at_y: int,
) -> bool {
    dots[4 * row + dy][2 * col + dx] && (dy < at_y || dy == at_y && dx < at_x)
}

/// The union of the bits of the lit dots of a cell that come before the dot
/// `at_x`, `at_y` in reading order.
spec fn union_before(dots: Seq<Vec<bool>>, col: int, row: int, at_x: int, at_y: int) -> u8 {
    gathered(
        lit_before(dots, col, row, 0, 0, at_x, at_y),
        lit_before(dots, col, row, 0, 1, at_x, at_y),
        lit_before(dots, col, row, 0, 2, at_x, at_y),
        lit_before(dots, col, row, 0, 3, at_x, at_y),
        lit_before(dots, col, row, 1, 0, at_x, at_y),
        lit_before(dots, col, row, 1, 1, at_x, at_y),
        lit_before(dots, col, row, 1, 2, at_x, at_y),
        lit_before(dots, col, row, 1, 3, at_x, at_y),
    )
}

/// The bits of one cell.
fn gather_cell(dots: &Vec<Vec<bool>>, col: usize, row: usize) -> (bits: u8)
    requires
        row * 4 + 3 < dots.len(),
        col * 2 + 1 <= usize::MAX,
        forall|y: int| 0 <= y < dots.len() ==> col * 2 + 1 < (#[trigger] dots[y]).len(),
    ensures
        bits == union_before(dots@, col as int, row as int, 0, 4),
{
    let mut bits: u8 = 0;
    proof {
        gathered_is_sum(false, false, false, false, false, false, false, false);
    }
    let mut dy: usize = 0;
    while dy < 4
        invariant
            dy <= 4,
            row * 4 + 3 < dots.len(),
            forall|y: int| 0 <= y < dots.len() ==> col * 2 + 1 < (#[trigger] dots[y]).len(),
            bits == union_before(dots@, col as int, row as int, 0, dy as int),
        decreases 4 - dy,
    {
        let mut dx: usize = 0;
        while dx < 2
            invariant
                dx <= 2,
                dy < 4,
                row * 4 + 3 < dots.len(),
                forall|y: int| 0 <= y < dots.len() ==> col * 2 + 1 < (#[trigger] dots[y]).len(),
                bits == union_before(dots@, col as int, row as int, dx as int, dy as int),
            decreases 2 - dx,
        {
            assert(0 <= row * 4 + dy < dots.len());
            if dots[row * 4 + dy][col * 2 + dx] {
                let bit: u8 = braille_bit(dx, dy);
                proof {
                    let c = col as int;
                    let r = row as int;
                    let x = dx as int;
                    let y = dy as int;
                    gathered_adds(
                        lit_before(dots@, c, r, 0, 0, x, y),
                        lit_before(dots@, c, r, 0, 1, x, y),
                        lit_before(dots@, c, r, 0, 2, x, y),
                        lit_before(dots@, c, r, 0, 3, x, y),
                        lit_before(dots@, c, r, 1, 0, x, y),
                        lit_before(dots@, c, r, 1, 1, x, y),
                        lit_before(dots@, c, r, 1, 2, x, y),
                        lit_before(dots@, c, r, 1, 3, x, y),
                        bit,
                    );
                }
                bits = bits | bit;
            }
            dx += 1;
        }
        dy += 1;
    }
    bits
}

/// Trusted: `char::from_u32`, which gives the character of a code point and
/// `None` for a number that is no Unicode scalar value.
pub assume_specification[ char::from_u32 ](code: u32) -> (c: Option<char>)
    ensures
        match c {
            Some(c) => c as int == code && !(0xd800 <= code <= 0xdfff) && code <= 0x10ffff,
            None => 0xd800 <= code <= 0xdfff || code > 0x10ffff,
        },
;

/// Trusted: `String::push`, which appends one character.
pub assume_specification[ String::push ](text: &mut String, c: char)
    ensures
        final(text)@ == old(text)@.push(c),
;

/// The text of one row of cells.
fn gather_line(dots: &Vec<Vec<bool>>, width: usize, row: usize) -> (line: String)
    requires
        row * 4 + 3 < dots.len(),
        width * 2 <= usize::MAX,
        forall|y: int| 0 <= y < dots.len() ==> (#[trigger] dots[y]).len() == width * 2,
    ensures
        line@.len() == width,
        forall|col: int|
            0 <= col < width ==> #[trigger] line@[col] == (BRAILLE_BLANK + union_before(
                dots@,
                col,
                row as int,
                0,
                4,
            )) as char,
{
    let mut line: String = String::new();
    let mut col: usize = 0;
    while col < width
        invariant
            col <= width,
            row * 4 + 3 < dots.len(),
            width * 2 <= usize::MAX,
            forall|y: int| 0 <= y < dots.len() ==> (#[trigger] dots[y]).len() == width * 2,
            line@.len() == col,
            forall|k: int|
                0 <= k < col ==> #[trigger] line@[k] == (BRAILLE_BLANK + union_before(
                    dots@,
                    k,
                    row as int,
                    0,
                    4,
                )) as char,
        decreases width - col,
    {
        let bits: u8 = gather_cell(dots, col, row);
        let cell: char = match char::from_u32(BRAILLE_BLANK + bits as u32) {
            Some(c) => c,
            None => ' ',
        };
        line.push(cell);
        col += 1;
    }
    line
}

/// Draws scope points, given by the dot rows that they reach, over a dotted
/// line in row `center`: one text per row.
pub fn plot_lines(center: usize, spans: &Vec<RowSpan>, width: usize, height: usize) -> (lines: Vec<
    String,
>)
    requires
        width > 0 && height > 0 ==> {
            &&& width * 2 <= usize::MAX
            &&& height * 4 <= usize::MAX
            &&& center < height * 4
            &&& spans.len() <= width
            &&& forall|i: int|
                0 <= i < spans.len() ==> #[trigger] spans[i].top < height * 4 && spans[i].bottom
                    < height * 4
        },
    ensures
        texts(lines@) == plot_text(center as int, spans@, width as nat, height as nat),
{
    let mut lines: Vec<String> = Vec::new();
    if width == 0 || height == 0 {
        assert(texts(lines@) =~= Seq::empty());
        return lines;
    }
    let dots: Vec<Vec<bool>> = draw_dots(center, spans, width, height);
    let mut row: usize = 0;
    while row < height
        invariant
            width > 0,
            width * 2 <= usize::MAX,
            row <= height,
            dots.len() == height * 4,
            forall|y: int| 0 <= y < height * 4 ==> (#[trigger] dots[y]).len() == width * 2,
            forall|y: int, x: int|
                0 <= y < height * 4 && 0 <= x < width * 2 ==> #[trigger] dots[y][x] == dot_lit(
                    center as int,
                    spans@,
                    width as int,
                    x,
                    y,
                ),
            lines.len() == row,
            forall|k: int|
                0 <= k < row ==> (#[trigger] lines[k])@ == line_text(
                    center as int,
                    spans@,
                    width as nat,
                    k,
                ),
        decreases height - row,
    {
        let line: String = gather_line(&dots, width, row);
        assert forall|col: int| 0 <= col < width implies line@[col] == line_text(
            center as int,
            spans@,
            width as nat,
            row as int,
        )[col] by {
            let r = row as int;
            gathered_is_sum(
                lit_before(dots@, col, r, 0, 0, 0, 4),
                lit_before(dots@, col, r, 0, 1, 0, 4),
                lit_before(dots@, col, r, 0, 2, 0, 4),
                lit_before(dots@, col, r, 0, 3, 0, 4),
                lit_before(dots@, col, r, 1, 0, 0, 4),
                lit_before(dots@, col, r, 1, 1, 0, 4),
                lit_before(dots@, col, r, 1, 2, 0, 4),
                lit_before(dots@, col, r, 1, 3, 0, 4),
            );
            assert(union_before(dots@, col, r, 0, 4) == cell_bits(
                center as int,
                spans@,
                width as int,
                col,
                r,
            ));
        }
        assert(line@ =~= line_text(center as int, spans@, width as nat, row as int));
        lines.push(line);
        row += 1;
    }
    assert(texts(lines@) =~= plot_text(center as int, spans@, width as nat, height as nat));
    lines
}

/// The scope points that fit into `width` cells: the latest ones.
pub open spec fn visible(trace: Seq<MinMax>, width: nat) -> Seq<MinMax> {
    if trace.len() <= width {
        trace
    } else {
        trace.skip(trace.len() - width)
    }
}

/// Two to the power of 48.
pub const TWO_48: u64 = 0x1_0000_0000_0000;

/// An amplitude between -1 and 1 in multiples of two to the power of -48. What is too
/// small to change the difference to 1 counts as 0.
pub open spec fn fixed48(s: Sample) -> int {
    let size = if s.exponent() < 102 {
        0
    } else {
        s.mantissa() * pow2((s.exponent() - 102) as nat)
    };
    if s.bits >= SIGN {
        -size
    } else {
        size
    }
}

/// The number of the last one of `n` rows, rounded to 24 significant bits as `n`
/// is.
pub open spec fn last_row(n: nat) -> nat {
    round24((round24(n) - 1) as nat)
}

/// The row of an amplitude between -1 and 1 out of more than one row: its distance
/// from 1, rounded, times the last row, rounded, half of it, rounded to the nearest
/// whole number.
pub open spec fn projected(s: Sample, n: nat) -> nat {
    ((round24(round24((TWO_48 - fixed48(s)) as nat) * last_row(n)) + TWO_48) / (2 * TWO_48)) as nat
}

/// The dot row of an amplitude, out of `sub_height` rows counted from the top: it is
/// held between -1 and 1, of which 1 is the first row and -1 the last one. A
/// single row leaves no choice, and what is no number at all gets the first row.
pub open spec fn row_for(sample: Sample, sub_height: usize) -> usize {
    let row = projected(sample.unit_spec(), sub_height as nat);
    if sub_height <= 1 || sample.is_nan() {
        0
    } else if row > usize::MAX {
        usize::MAX
    } else {
        row as usize
    }
}

/// Powers of two that do not fit into 32 bits.
proof fn large_powers()
    ensures
        pow2(48) == TWO_48,
        pow2(49) == 2 * TWO_48,
{
    lemma2_to64();
    lemma_pow2_adds(32, 16);
    lemma_pow2_adds(32, 17);
}

/// An amplitude between -1 and 1 is at most as far from zero as these.
proof fn fixed48_fits(s: Sample)
    requires
        !s.is_nan(),
        s.unit_spec() == s,
    ensures
        s.exponent() <= 127,
        -TWO_48 <= fixed48(s) <= TWO_48,
        s.exponent() >= 102 ==> 0x80_0000 <= s.mantissa() * pow2((s.exponent() - 102) as nat)
            <= TWO_48,
{
    lemma2_to64();
    unit_is_in_range(s);
    assert(s.magnitude() <= ONE);
    if s.exponent() >= 102 {
        let p = pow2((s.exponent() - 102) as nat) as int;
        let m = s.mantissa();
        lemma_pow2_pos((s.exponent() - 102) as nat);
        if s.exponent() == 127 {
            assert(m == 0x80_0000);
            assert((s.exponent() - 102) as nat == 25);
            assert(p == 0x200_0000);
            assert(m * p == TWO_48) by (nonlinear_arith)
                requires
                    m == 0x80_0000,
                    p == 0x200_0000,
            ;
        } else {
            if s.exponent() < 126 {
                lemma_pow2_strictly_increases((s.exponent() - 102) as nat, 24);
            } else {
                assert((s.exponent() - 102) as nat == 24);
            }
            assert(m * p <= TWO_48) by (nonlinear_arith)
                requires
                    0 <= m < 0x100_0000,
                    0 < p <= 0x100_0000,
            ;
        }
        assert(m * p >= 0x80_0000) by (nonlinear_arith)
            requires
                m >= 0x80_0000,
                p >= 1,
        ;
    }
}

/// A higher amplitude is a larger multiple.
proof fn fixed48_keeps_order(a: Sample, b: Sample)
    requires
        a.at_most(b),
        a.unit_spec() == a,
        b.unit_spec() == b,
    ensures
        fixed48(a) <= fixed48(b),
{
    order_is_by_value(a, b);
    fixed48_fits(a);
    fixed48_fits(b);
    let unit = pow2(101) as int;
    lemma_pow2_pos(101);
    fixed48_is_value(a);
    fixed48_is_value(b);
    let x = fixed48(a);
    let y = fixed48(b);
    if x > y {
        if a.exponent() >= 102 && b.exponent() >= 102 {
            assert(x * unit > y * unit) by (nonlinear_arith)
                requires
                    x > y,
                    unit > 0,
            ;
        } else if a.exponent() >= 102 {
            assert(x * unit >= 0x80_0000 * unit) by (nonlinear_arith)
                requires
                    x >= 0x80_0000,
                    unit > 0,
            ;
        } else {
            assert(y * unit <= -0x80_0000 * unit) by (nonlinear_arith)
                requires
                    y <= -0x80_0000,
                    unit > 0,
            ;
        }
    }
}

/// The multiple of an amplitude, and how small it is if it counts as 0.
proof fn fixed48_is_value(s: Sample)
    ensures
        s.exponent() >= 102 ==> s.value() == fixed48(s) * pow2(101),
        s.exponent() < 102 ==> -0x80_0000 * pow2(101) < s.value() < 0x80_0000 * pow2(101),
{
    let m = s.mantissa();
    let e = s.exponent();
    if e >= 102 {
        let p = pow2((e - 102) as nat) as int;
        lemma_pow2_adds((e - 102) as nat, 101);
        assert(m * (p * pow2(101)) == (m * p) * pow2(101) && (-(m * p)) * pow2(101) == -((m * p)
            * pow2(101))) by (nonlinear_arith);
    } else {
        lemma2_to64();
        let p = pow2((e - 1) as nat) as int;
        let q = pow2(100) as int;
        lemma_pow2_pos((e - 1) as nat);
        lemma_pow2_adds(100, 1);
        if e < 101 {
            lemma_pow2_strictly_increases((e - 1) as nat, 100);
        }
        assert(m * p < 0x100_0000 * q) by (nonlinear_arith)
            requires
                0 <= m < 0x100_0000,
                0 < p <= q,
        ;
        assert(m * p >= 0) by (nonlinear_arith)
            requires
                m >= 0,
                p > 0,
        ;
    }
}

/// A higher amplitude is never projected below a lower one, none beyond the last
/// row, 1 onto the first row and -1 onto the last one.
proof fn projection_keeps_order(a: Sample, b: Sample, n: nat)
    requires
        a.at_most(b),
        a.unit_spec() == a,
        b.unit_spec() == b,
    ensures
        projected(b, n) <= projected(a, n) <= last_row(n),
        projected(Sample { bits: ONE }, n) == 0,
        projected(Sample { bits: MINUS_ONE }, n) == last_row(n),
{
    let last = last_row(n);
    let one = Sample { bits: ONE };
    let low = Sample { bits: MINUS_ONE };
    large_powers();
    lemma2_to64();
    fixed48_fits(a);
    fixed48_fits(b);
    fixed48_keeps_order(a, b);
    assert(one.mantissa() == 0x80_0000 && one.exponent() == 127);
    assert(low.mantissa() == 0x80_0000 && low.exponent() == 127);
    assert(fixed48(one) == TWO_48);
    assert(fixed48(low) == -TWO_48);
    let da = (TWO_48 - fixed48(a)) as nat;
    let db = (TWO_48 - fixed48(b)) as nat;
    rounding_keeps_order(db, da);
    rounding_keeps_order(da, (2 * TWO_48) as nat);
    rounding_is_exact(1, 49);
    assert(1 * pow2(49) == pow2(49));
    assert(round24((2 * TWO_48) as nat) == 2 * TWO_48);
    assert(round24(db) * last <= round24(da) * last <= (2 * TWO_48) * last) by (nonlinear_arith)
        requires
            round24(db) <= round24(da) <= 2 * TWO_48,
            last >= 0,
    ;
    rounding_keeps_order(round24(db) * last, round24(da) * last);
    rounding_keeps_order(round24(da) * last, ((2 * TWO_48) * last) as nat);
    rounding_repeats((round24(n) - 1) as nat, 49);
    assert((2 * TWO_48) * last == last * pow2(49)) by (nonlinear_arith)
        requires
            pow2(49) == 2 * TWO_48,
    ;
    assert(round24(((2 * TWO_48) * last) as nat) == (2 * TWO_48) * last);
    let step = 2 * TWO_48;
    let ya = round24(round24(da) * last) as int;
    let yb = round24(round24(db) * last) as int;
    vstd::arithmetic::div_mod::lemma_fundamental_div_mod_converse(
        step * last + TWO_48,
        step,
        last as int,
        TWO_48 as int,
    );
    vstd::arithmetic::div_mod::lemma_div_is_ordered(yb + TWO_48, ya + TWO_48, step);
    vstd::arithmetic::div_mod::lemma_div_is_ordered(ya + TWO_48, step * last + TWO_48, step);
    assert(projected(a, n) == (ya + TWO_48) / step);
    assert(projected(b, n) == (yb + TWO_48) / step);
    rounding_is_exact(0, 0);
    assert(0 * pow2(0) == 0);
    assert(0 * last == 0);
    assert((TWO_48 - fixed48(one)) as nat == 0);
    assert(round24(0) == 0);
    assert(round24(round24(0) * last) == 0);
    vstd::arithmetic::div_mod::lemma_basic_div(TWO_48 as int, step);
}

/// As long as the number of rows has no more than 24 significant bits, the last row
/// is the one before that number.
pub proof fn last_row_is_exact(n: nat)
    requires
        1 <= n <= 0x100_0000,
    ensures
        last_row(n) == n - 1,
{
    lemma2_to64();
    rounding_is_exact(n, 0);
    rounding_is_exact((n - 1) as nat, 0);
    assert(n * 1 == n && (n - 1) * 1 == n - 1);
}

/// The rows that amplitudes get end with the last row.
proof fn rows_fit(sample: Sample, sub_height: usize)
    requires
        last_row(sub_height as nat) < sub_height,
    ensures
        row_for(sample, sub_height) < sub_height,
{
    if sub_height > 1 && !sample.is_nan() {
        unit_is_in_range(sample);
        projection_keeps_order(sample.unit_spec(), sample.unit_spec(), sub_height as nat);
    } else if sub_height == 0 {
        assert(false);
    }
}

/// The dot row of an amplitude.
pub fn sample_to_subrow(sample: Sample, sub_height: usize) -> (row: usize)
    ensures
        row == row_for(sample, sub_height),
{
    if sub_height <= 1 || sample.not_a_number() {
        return 0;
    }
    let unit: Sample = sample.unit();
    let (m, e): (u32, u32) = unit.parts();
    proof {
        unit_is_in_range(sample);
        fixed48_fits(unit);
        large_powers();
        lemma2_to64();
    }
    let size: u64 = if e < 102 {
        0
    } else {
        let shift: u64 = e as u64 - 102;
        let digits: u64 = m as u64;
        proof {
            vstd::bits::lemma_u64_shl_is_mul(digits, shift);
        }
        digits << shift
    };
    let distance: u128 = if unit.bits >= SIGN {
        TWO_48 as u128 + size as u128
    } else {
        TWO_48 as u128 - size as u128
    };
    let near: u128 = round_to_24_bits(distance);
    let rows: u128 = round_to_24_bits(sub_height as u128);
    proof {
        rounding_is_exact(1, 49);
        assert(1 * pow2(49) == pow2(49));
        rounding_keeps_order(distance as nat, (2 * TWO_48) as nat);
        rounding_is_exact(1, 0);
        assert(1 * pow2(0) == 1);
        rounding_keeps_order(1, sub_height as nat);
        rounding_is_exact(1, 64);
        assert(1 * pow2(64) == pow2(64));
        rounding_keeps_order(sub_height as nat, pow2(64));
        rounding_keeps_order((rows - 1) as nat, pow2(64));
    }
    let last: u128 = round_to_24_bits(rows - 1);
    assert(0 <= near * last <= 0x2_0000_0000_0000 * 0x1_0000_0000_0000_0000) by (nonlinear_arith)
        requires
            0 <= near <= 0x2_0000_0000_0000,
            0 <= last <= 0x1_0000_0000_0000_0000,
    ;
    let twice: u128 = round_to_24_bits(near * last);
    proof {
        rounding_is_exact(1, 113);
        assert(1 * pow2(113) == pow2(113));
        lemma_pow2_adds(64, 49);
        rounding_keeps_order((near * last) as nat, pow2(113));
    }
    let row: u128 = (twice + TWO_48 as u128) / (2 * TWO_48 as u128);
    if row > usize::MAX as u128 {
        usize::MAX
    } else {
        row as usize
    }
}

/// A higher amplitude is never drawn below a lower one, every amplitude gets one of
/// the rows, and from full scale on it is the outermost one.
pub proof fn higher_amplitudes_are_drawn_higher(a: Sample, b: Sample, sub_height: usize)
    requires
        1 <= sub_height <= 0x100_0000,
        a.at_most(b),
    ensures
        row_for(b, sub_height) <= row_for(a, sub_height) <= sub_height - 1,
        (Sample { bits: ONE }).at_most(a) ==> row_for(a, sub_height) == 0,
        a.at_most(Sample { bits: MINUS_ONE }) ==> row_for(a, sub_height) == sub_height - 1,
{
    last_row_is_exact(sub_height as nat);
    unit_is_in_range(a);
    unit_is_in_range(b);
    unit_keeps_order(a, b);
    projection_keeps_order(a.unit_spec(), b.unit_spec(), sub_height as nat);
}

/// The dot rows that the given scope points reach.
pub open spec fn spans_of(points: Seq<MinMax>, sub_height: usize) -> Seq<RowSpan> {
    Seq::new(
        points.len(),
        |i: int|
            RowSpan {
                top: row_for(amplitude_for(points[i].max), sub_height),
                bottom: row_for(amplitude_for(points[i].min), sub_height),
            },
    )
}

/// Every dot of a cell has a bit of its own.
pub proof fn dot_weights_are_distinct(dx: int, dy: int, ex: int, ey: int)
    requires
        0 <= dx < 2,
        0 <= dy < 4,
        0 <= ex < 2,
        0 <= ey < 4,
    ensures
        dot_weight(dx, dy) != 0,
        dot_weight(dx, dy) == dot_weight(ex, ey) ==> dx == ex && dy == ey,
{
}

/// The character of a cell shows each of its dots: its bits fit into the
/// braille block, and the bit of a dot is set exactly if the dot is lit.
pub proof fn cell_shows_its_dots(
    center: int,
    spans: Seq<RowSpan>,
    width: int,
    col: int,
    row: int,
    dx: int,
    dy: int,
)
    requires
        0 <= dx < 2,
        0 <= dy < 4,
    ensures
        0 <= cell_bits(center, spans, width, col, row) <= 0xff,
        (cell_bits(center, spans, width, col, row) as u8) & dot_weight(dx, dy) != 0 <==> dot_lit(
            center,
            spans,
            width,
            2 * col + dx,
            4 * row + dy,
        ),
{
    let l0 = dot_lit(center, spans, width, 2 * col, 4 * row);
    let l1 = dot_lit(center, spans, width, 2 * col, 4 * row + 1);
    let l2 = dot_lit(center, spans, width, 2 * col, 4 * row + 2);
    let l3 = dot_lit(center, spans, width, 2 * col, 4 * row + 3);
    let r0 = dot_lit(center, spans, width, 2 * col + 1, 4 * row);
    let r1 = dot_lit(center, spans, width, 2 * col + 1, 4 * row + 1);
    let r2 = dot_lit(center, spans, width, 2 * col + 1, 4 * row + 2);
    let r3 = dot_lit(center, spans, width, 2 * col + 1, 4 * row + 3);
    gathered_is_sum(l0, l1, l2, l3, r0, r1, r2, r3);
    gathered_reads_back(l0, l1, l2, l3, r0, r1, r2, r3);
}

/// The drawing of the latest scope points of a trace.
pub open spec fn scope_text(trace: Seq<MinMax>, width: nat, height: nat) -> Seq<Seq<char>> {
    let sub_height = (4 * height) as usize;
    plot_text(
        row_for(Sample { bits: 0 }, sub_height) as int,
        spans_of(visible(trace, width), sub_height),
        width,
        height,
    )
}

/// One more scope point moves the drawing of the others one cell to the left.
pub proof fn trace_scrolls_left(
    trace: Seq<MinMax>,
    point: MinMax,
    width: nat,
    height: nat,
    row: int,
    col: int,
)
    requires
        0 <= row < height,
        0 <= col,
        col + 1 < width,
    ensures
        scope_text(trace.push(point), width, height)[row][col] == scope_text(
            trace,
            width,
            height,
        )[row][col + 1],
{
    let sub_height = (4 * height) as usize;
    let center = row_for(Sample { bits: 0 }, sub_height) as int;
    let before = spans_of(visible(trace, width), sub_height);
    let after = spans_of(visible(trace.push(point), width), sub_height);
    assert forall|dx: int, dy: int| 0 <= dx < 2 implies #[trigger] dot_lit(
        center,
        after,
        width as int,
        2 * col + dx,
        4 * row + dy,
    ) == dot_lit(center, before, width as int, 2 * (col + 1) + dx, 4 * row + dy) by {
        let i = (2 * col + dx) / 2 - (width - after.len());
        let j = (2 * (col + 1) + dx) / 2 - (width - before.len());
        if 0 <= i < after.len() {
            assert(after[i] == before[j]);
        }
    }
    assert(cell_bits(center, after, width as int, col, row) == cell_bits(
        center,
        before,
        width as int,
        col + 1,
        row,
    ));
}

/// Draws the latest scope points of `trace`. There has to be a dot row for the
/// lowest amplitude.
pub fn scope_lines(trace: &VecDeque<MinMax>, width: usize, height: usize) -> (lines: Vec<String>)
    requires
        width > 0 && height > 0 ==> {
            &&& width * 2 <= usize::MAX
            &&& height * 4 <= usize::MAX
            &&& last_row((4 * height) as nat) < 4 * height
        },
    ensures
        texts(lines@) == scope_text(trace@, width as nat, height as nat),
{
    if width == 0 || height == 0 {
        let lines: Vec<String> = Vec::new();
        assert(texts(lines@) =~= Seq::empty());
        return lines;
    }
    let sub_h: usize = height * 4;
    let center: usize = sample_to_subrow(Sample::zero(), sub_h);
    let n: usize = trace.len();
    let start: usize = if n <= width {
        0
    } else {
        n - width
    };
    let ghost points = visible(trace@, width as nat);
    let mut spans: Vec<RowSpan> = Vec::new();
    let mut i: usize = start;
    while i < n
        invariant
            n == trace.len(),
            start <= i <= n,
            start == (if n <= width {
                0
            } else {
                n - width
            }),
            points == visible(trace@, width as nat),
            last_row(sub_h as nat) < sub_h,
            spans.len() == i - start,
            forall|k: int|
                0 <= k < spans.len() ==> #[trigger] spans[k].top < sub_h && spans[k].bottom < sub_h,
            spans@ =~= spans_of(points, sub_h).take(i - start),
        decreases n - i,
    {
        let point: MinMax = trace[i];
        let high: Sample = i16_to_f32(point.max);
        let low: Sample = i16_to_f32(point.min);
        proof {
            rows_fit(high, sub_h);
            rows_fit(low, sub_h);
        }
        let top: usize = sample_to_subrow(high, sub_h);
        let bottom: usize = sample_to_subrow(low, sub_h);
        assert(point == points[i - start]);
        spans.push(RowSpan { top, bottom });
        i += 1;
    }
    proof {
        rows_fit(Sample { bits: 0 }, sub_h);
        assert(spans@ =~= spans_of(points, sub_h));
    }
    plot_lines(center, &spans, width, height)
}

/// The bits of the dots of a cell: powers of two, upwards in the first three rows of
/// the left column, then of the right column, then in the last row. Outside of the
/// cell there is none.
pub proof fn dot_weights_are_powers(dx: int, dy: int)
    requires
        dx >= 0,
        dy >= 0,
    ensures
        dx < 2 && dy < 3 ==> dot_weight(dx, dy) == pow2((3 * dx + dy) as nat),
        dx < 2 && dy == 3 ==> dot_weight(dx, dy) == pow2((6 + dx) as nat),
        dx >= 2 || dy >= 4 ==> dot_weight(dx, dy) == 0,
{
    lemma2_to64();
}

/// The texts of lines are what the lines hold, one by one.
pub proof fn texts_are_the_lines(lines: Seq<String>, i: int)
    ensures
        texts(lines).len() == lines.len(),
        0 <= i < lines.len() ==> texts(lines)[i] == lines[i]@,
{
}

/// Every dot of a drawing, read off its characters. The dots of column `x` and row `y`
/// are in text column `x / 2` and text row `y / 4`. The scope points are aligned to the
/// right edge: in the right column of its cell a point lights every row from the
/// one of its maximum to the one of its minimum, however many these are and whichever
/// is higher, and in the left column these two rows only. Besides, the left columns
/// have the dots of the center line. No other dot is lit.
pub proof fn every_dot_is_plotted(
    center: int,
    spans: Seq<RowSpan>,
    width: nat,
    height: nat,
    x: int,
    y: int,
)
    requires
        0 <= x < 2 * width,
        0 <= y < 4 * height,
        spans.len() <= width,
    ensures
        ({
            let text = plot_text(center, spans, width, height);
            let shown = text[y / 4][x / 2];
            let bits = (shown as int - 0x2800) as u8;
            let weight: u8 = if x % 2 == 0 {
                if y % 4 == 0 {
                    0x01
                } else if y % 4 == 1 {
                    0x02
                } else if y % 4 == 2 {
                    0x04
                } else {
                    0x40
                }
            } else {
                if y % 4 == 0 {
                    0x08
                } else if y % 4 == 1 {
                    0x10
                } else if y % 4 == 2 {
                    0x20
                } else {
                    0x80
                }
            };
            let i = spans.len() - width + x / 2;
            &&& text.len() == height
            &&& text[y / 4].len() == width
            &&& 0x2800 <= shown as int <= 0x28ff
            &&& x % 2 == 1 && i < 0 ==> bits & weight == 0
            &&& x % 2 == 1 && i >= 0 ==> (bits & weight != 0 <==> (spans[i].top <= y && y
                <= spans[i].bottom) || (spans[i].bottom <= y && y <= spans[i].top))
            &&& x % 2 == 0 && i < 0 ==> (bits & weight != 0 <==> y == center)
            &&& x % 2 == 0 && i >= 0 ==> (bits & weight != 0 <==> y == center || y == spans[i].top
                || y == spans[i].bottom)
        }),
{
    let col = x / 2;
    let row = y / 4;
    let dx = x % 2;
    let dy = y % 4;
    cell_shows_its_dots(center, spans, width as int, col, row, dx, dy);
    let bits = cell_bits(center, spans, width as int, col, row);
    let shown = plot_text(center, spans, width, height)[row][col];
    assert(plot_text(center, spans, width, height)[row] == line_text(center, spans, width, row));
    assert(shown == (BRAILLE_BLANK + bits) as char);
    assert(shown as int == 0x2800 + bits);
    assert((shown as int - 0x2800) as u8 == bits as u8);
    assert(2 * col + dx == x && 4 * row + dy == y);
}

/// Every dot of the scope, read off its characters. Text column `c` shows the scope
/// point that is `width - c` from the end of the trace, if there is one. In the right
/// dot column a point lights every row from the row of its maximum to the row of
/// its minimum, and in the left one these two rows only; besides, the left dot
/// columns have the row of amplitude zero. No other dot is lit.
pub proof fn every_dot_of_the_scope_is_drawn(
    trace: Seq<MinMax>,
    width: nat,
    height: nat,
    x: int,
    y: int,
)
    requires
        0 <= x < 2 * width,
        0 <= y < 4 * height,
        4 * height <= usize::MAX,
    ensures
        ({
            let text = scope_text(trace, width, height);
            let rows = (4 * height) as usize;
            let shown = text[y / 4][x / 2];
            let bits = (shown as int - 0x2800) as u8;
            let weight: u8 = if x % 2 == 0 {
                if y % 4 == 0 {
                    0x01
                } else if y % 4 == 1 {
                    0x02
                } else if y % 4 == 2 {
                    0x04
                } else {
                    0x40
                }
            } else {
                if y % 4 == 0 {
                    0x08
                } else if y % 4 == 1 {
                    0x10
                } else if y % 4 == 2 {
                    0x20
                } else {
                    0x80
                }
            };
            let i = trace.len() - width + x / 2;
            let high = row_for(amplitude_for(trace[i].max), rows);
            let low = row_for(amplitude_for(trace[i].min), rows);
            let center = row_for(Sample { bits: 0 }, rows);
            &&& text.len() == height
            &&& text[y / 4].len() == width
            &&& 0x2800 <= shown as int <= 0x28ff
            &&& x % 2 == 1 && i < 0 ==> bits & weight == 0
            &&& x % 2 == 1 && i >= 0 ==> (bits & weight != 0 <==> (high <= y && y <= low) || (low <= y
                && y <= high))
            &&& x % 2 == 0 && i < 0 ==> (bits & weight != 0 <==> y == center)
            &&& x % 2 == 0 && i >= 0 ==> (bits & weight != 0 <==> y == center || y == high || y
                == low)
        }),
{
    let rows = (4 * height) as usize;
    let center = row_for(Sample { bits: 0 }, rows) as int;
    let points = visible(trace, width);
    let spans = spans_of(points, rows);
    every_dot_is_plotted(center, spans, width, height, x, y);
    let i = trace.len() - width + x / 2;
    let j = spans.len() - width + x / 2;
    if i >= 0 {
        assert(j >= 0);
        assert(points[j] == trace[i]);
    } else {
        assert(j < 0);
    }
}

/// There is no drawing without a cell, and otherwise one text for each text row.
pub proof fn drawings_have_a_text_for_each_row(trace: Seq<MinMax>, width: nat, height: nat)
    ensures
        width == 0 || height == 0 ==> scope_text(trace, width, height).len() == 0,
        width > 0 && height > 0 ==> scope_text(trace, width, height).len() == height,
{
}

/// The row of an amplitude between -1 and 1 is the nearest one on the way from 1 at
/// the top to -1 at the bottom: it is off by no more than half a row and what the
/// rounding of the numbers on the way makes up, less than a millionth of the rows.
pub proof fn rows_are_nearest(s: Sample, sub_height: usize)
    requires
        s.bits as int % 0x8000_0000 <= 0x3f80_0000,
        2 <= sub_height <= 0x100_0000,
    ensures
        ({
            let row = row_for(s, sub_height) as int;
            let exact = (pow2(149) - s.value()) * (sub_height - 1);
            let slack = pow2(149) + (sub_height - 1) * pow2(128);
            &&& row * pow2(150) - exact <= slack
            &&& exact - row * pow2(150) <= slack
        }),
{
    let last = (sub_height - 1) as int;
    unit_cuts_off_at_one(s);
    fixed48_fits(s);
    last_row_is_exact(sub_height as nat);
    large_powers();
    lemma2_to64();
    let f = fixed48(s);
    let d = (TWO_48 - f) as nat;
    let near = round24(d) as int;
    let product = (near * last) as nat;
    let twice = round24(product) as int;
    let row = row_for(s, sub_height) as int;
    projection_keeps_order(s, s, sub_height as nat);
    assert(row == projected(s, sub_height as nat));
    rounding_is_small(d, 0x2_0000_0000_0000);
    rounding_is_exact(1, 49);
    assert(1 * pow2(49) == pow2(49));
    rounding_keeps_order(d, (2 * TWO_48) as nat);
    assert(0 <= product <= 0x2_0000_0000_0000 * last) by (nonlinear_arith)
        requires
            product == near * last,
            0 <= near <= 0x2_0000_0000_0000,
            last >= 0,
    ;
    rounding_is_small(product, (0x2_0000_0000_0000 * last) as nat);
    let step = 2 * TWO_48;
    vstd::arithmetic::div_mod::lemma_fundamental_div_mod(twice + TWO_48, step);
    vstd::arithmetic::div_mod::lemma_mod_bound(twice + TWO_48, step);
    assert(row * step == step * row) by (nonlinear_arith);
    assert(row * step - twice <= TWO_48 && twice - row * step <= TWO_48);
    let off = 0x200_0000 * last;
    assert(near * last - d * last <= off && d * last - near * last <= off) by (nonlinear_arith)
        requires
            near - d <= 0x200_0000,
            d - near <= 0x200_0000,
            off == 0x200_0000 * last,
            last >= 0,
    ;
    assert(row * step - d * last <= TWO_48 + 2 * off && d * last - row * step <= TWO_48 + 2 * off);
    // From multiples of two to the power of -48 to values.
    let unit = pow2(101) as int;
    lemma_pow2_pos(101);
    lemma_pow2_adds(48, 101);
    lemma_pow2_adds(49, 101);
    lemma_pow2_adds(27, 101);
    fixed48_is_value(s);
    let v = s.value();
    let small = 0x80_0000 * unit;
    assert(v - f * unit < small && f * unit - v < small) by {
        if s.exponent() < 102 {
            assert(0 * unit == 0);
        } else {
            assert(small > 0) by (nonlinear_arith)
                requires
                    small == 0x80_0000 * unit,
                    unit > 0,
            ;
        }
    }
    assert(row * pow2(150) == (row * step) * unit) by (nonlinear_arith)
        requires
            pow2(150) == step * unit,
    ;
    let exact = (pow2(149) - v) * last;
    assert(exact - (d * last) * unit <= small * last && (d * last) * unit - exact <= small * last)
        by (nonlinear_arith)
        requires
            exact == (pow2(149) - v) * last,
            d == TWO_48 - f,
            pow2(149) == TWO_48 * unit,
            v - f * unit < small,
            f * unit - v < small,
            last >= 0,
    ;
    let bound = TWO_48 + 2 * off;
    assert((row * step) * unit - (d * last) * unit <= bound * unit && (d * last) * unit - (row
        * step) * unit <= bound * unit) by (nonlinear_arith)
        requires
            row * step - d * last <= bound,
            d * last - row * step <= bound,
            unit > 0,
    ;
    assert(bound * unit + small * last <= pow2(149) + last * pow2(128)) by (nonlinear_arith)
        requires
            bound == TWO_48 + 2 * (0x200_0000 * last),
            small == 0x80_0000 * unit,
            pow2(149) == TWO_48 * unit,
            pow2(128) == 0x800_0000 * unit,
            last >= 0,
            unit > 0,
    ;
}

/// Rounding to 24 bits changes a number by no more than one part in two to the power
/// of 24 of any bound on it.
proof fn rounding_is_small(n: nat, bound: nat)
    requires
        n <= bound,
    ensures
        0x100_0000 * (round24(n) - n) <= bound,
        0x100_0000 * (n - round24(n)) <= bound,
{
    let u = unit24(n) as int;
    unit_fits(n);
    nearest_is_near(n as int, u);
    if n < 0x100_0000 {
        assert(n as int % 1 == 0);
    }
}

/// The row of an amplitude that is a whole number of parts of two to the power of 23,
/// as long as the product has no more than 24 significant bits: the exact one, and
/// of two rows that are equally near the lower one on the screen.
pub proof fn rows_of_simple_amplitudes(s: Sample, c: int, sub_height: usize)
    requires
        s.bits as int % 0x8000_0000 <= 0x3f80_0000,
        s.value() == c * pow2(126),
        2 <= sub_height,
        (0x80_0000 - c) * (sub_height - 1) <= 0x100_0000,
        sub_height <= 0x100_0000,
    ensures
        row_for(s, sub_height) == ((0x80_0000 - c) * (sub_height - 1) + 0x80_0000) / 0x100_0000,
{
    let last = (sub_height - 1) as int;
    unit_cuts_off_at_one(s);
    fixed48_fits(s);
    fixed48_is_value(s);
    last_row_is_exact(sub_height as nat);
    large_powers();
    lemma2_to64();
    let unit = pow2(101) as int;
    lemma_pow2_pos(101);
    lemma_pow2_adds(25, 101);
    let f = fixed48(s);
    assert(f == c * 0x200_0000) by {
        assert(c * pow2(126) == (c * 0x200_0000) * unit) by (nonlinear_arith)
            requires
                pow2(126) == 0x200_0000 * unit,
        ;
        if s.exponent() < 102 {
            assert(c == 0) by (nonlinear_arith)
                requires
                    (c * 0x200_0000) * unit < 0x80_0000 * unit,
                    (c * 0x200_0000) * unit > -0x80_0000 * unit,
                    unit > 0,
            ;
        } else {
            assert(f == c * 0x200_0000) by (nonlinear_arith)
                requires
                    f * unit == (c * 0x200_0000) * unit,
                    unit > 0,
            ;
        }
    }
    let part = 0x80_0000 - c;
    assert(0 <= part <= 0x100_0000);
    let d = (TWO_48 - f) as nat;
    assert(d == part * pow2(25));
    rounding_is_exact(part as nat, 25);
    let whole = part * last;
    assert(whole >= 0) by (nonlinear_arith)
        requires
            whole == part * last,
            part >= 0,
            last >= 0,
    ;
    assert(round24(d) * last == whole * pow2(25)) by (nonlinear_arith)
        requires
            round24(d) == part * pow2(25),
            whole == part * last,
    ;
    rounding_is_exact(whole as nat, 25);
    assert(projected(s, sub_height as nat) == (whole * 0x200_0000 + TWO_48) / (2 * TWO_48));
    projection_keeps_order(s, s, sub_height as nat);
    let q = (whole + 0x80_0000) / 0x100_0000;
    let rest = (whole + 0x80_0000) % 0x100_0000;
    vstd::arithmetic::div_mod::lemma_fundamental_div_mod_converse(
        whole * 0x200_0000 + TWO_48,
        2 * TWO_48,
        q,
        rest * 0x200_0000,
    );
}

/// An amplitude beyond full scale gets the row of full scale, what is no number gets
/// the first row, and a single row leaves no choice.
pub proof fn rows_of_other_amplitudes(s: Sample, sub_height: usize)
    ensures
        sub_height <= 1 ==> row_for(s, sub_height) == 0,
        s.bits as int % 0x8000_0000 > 0x7f80_0000 ==> row_for(s, sub_height) == 0,
        0x3f80_0000 < s.bits <= 0x7f80_0000 ==> row_for(s, sub_height) == row_for(
            Sample { bits: 0x3f80_0000 },
            sub_height,
        ),
        0xbf80_0000 < s.bits <= 0xff80_0000 ==> row_for(s, sub_height) == row_for(
            Sample { bits: 0xbf80_0000 },
            sub_height,
        ),
{
    unit_cuts_off_at_one(s);
    unit_cuts_off_at_one(Sample { bits: 0x3f80_0000 });
    unit_cuts_off_at_one(Sample { bits: 0xbf80_0000 });
}

/// The row of an amplitude between -1 and 1, exactly. `distance` is how far it is from 1,
/// in parts of two to the power of 48: that is rounded to 24 significant bits, times
/// the number of the last row, rounded again, and the row is the nearest whole number
/// to half of it, the larger one of two that are equally near. An amplitude that is
/// smaller than two to the power of -25 gets the row of zero.
pub proof fn rows_are_rounded_on_the_way(s: Sample, distance: nat, sub_height: usize)
    requires
        sub_height >= 2,
        s.bits as int % 0x8000_0000 <= 0x3f80_0000,
    ensures
        s.bits as int % 0x8000_0000 < 0x3300_0000 ==> row_for(s, sub_height) == row_for(
            Sample { bits: 0 },
            sub_height,
        ),
        s.bits as int % 0x8000_0000 >= 0x3300_0000 || s.bits == 0 ==> (distance * pow2(101)
            == pow2(149) - s.value() && row_for(s, sub_height) < usize::MAX ==> {
            let rows = round24((round24(sub_height as nat) - 1) as nat);
            let twice = round24(round24(distance) * rows);
            let row = row_for(s, sub_height);
            &&& row * 0x2_0000_0000_0000 <= twice + 0x1_0000_0000_0000
            &&& twice + 0x1_0000_0000_0000 < (row + 1) * 0x2_0000_0000_0000
        }),
{
    unit_cuts_off_at_one(s);
    unit_cuts_off_at_one(Sample { bits: 0 });
    digits_and_place_are_the_bits(s);
    let zero = Sample { bits: 0 };
    assert(fixed48(zero) == 0);
    if s.bits as int % 0x8000_0000 < 0x3300_0000 {
        assert(s.exponent() < 102);
        assert(fixed48(s) == 0);
    }
    if (s.bits as int % 0x8000_0000 >= 0x3300_0000 || s.bits == 0) && distance * pow2(101) == pow2(
        149,
    ) - s.value() && row_for(s, sub_height) < usize::MAX {
        fixed48_fits(s);
        fixed48_is_value(s);
        large_powers();
        let unit = pow2(101) as int;
        lemma_pow2_pos(101);
        lemma_pow2_adds(48, 101);
        let f = fixed48(s);
        if s.bits == 0 {
            lemma2_to64();
            assert(0 * pow2(0) == 0);
            assert(s.value() == 0);
            assert(0 * unit == 0);
        } else {
            assert(s.exponent() >= 102);
        }
        assert(s.value() == f * unit);
        assert(distance == TWO_48 - f) by (nonlinear_arith)
            requires
                distance * unit == TWO_48 * unit - f * unit,
                unit > 0,
        ;
        let rows = last_row(sub_height as nat);
        let twice = round24(round24(distance) * rows) as int;
        let row = row_for(s, sub_height) as int;
        assert(row == (twice + TWO_48) / (2 * TWO_48));
        vstd::arithmetic::div_mod::lemma_fundamental_div_mod(twice + TWO_48, 2 * TWO_48);
        vstd::arithmetic::div_mod::lemma_mod_bound(twice + TWO_48, 2 * TWO_48);
    }
}

} // verus!
