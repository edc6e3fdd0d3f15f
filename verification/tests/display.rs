use meter::level::{
    amp_to_dbfs, band_color, lit_segments_for_db, meter_label, meter_line, meter_spans, MeterSpan,
    Tint, AMP_MIN_BITS,
    DB_MAX_BITS, DB_MIN_BITS, METER_SEGMENTS, RED_BITS, YELLOW_BITS,
};
use meter::packing::{MinMax, Stereo};
use meter::plot::{braille_bit, plot_lines, sample_to_subrow, scope_lines, RowSpan};
use meter::sample::Sample;
use meter::scope::ScopeHistory;
use meter::view::{channel_body, render, render_channel, Area, DrawMath, Side};
use std::collections::VecDeque;

fn sample(v: f32) -> Sample {
    Sample { bits: v.to_bits() }
}

fn number(s: Sample) -> f32 {
    f32::from_bits(s.bits)
}

fn decibels(s: Sample) -> Sample {
    sample(20.0 * number(s).log10())
}

fn decimal(db: Sample) -> String {
    format!("{:.1}", number(db))
}

type Draw = DrawMath<
    fn(Sample) -> Sample,
    fn(Sample) -> String,
>;

fn math() -> Draw {
    DrawMath { decibels, decimal }
}

/// What a line shows: the text, the color and the emphasis of each piece.
fn shown(line: &[MeterSpan]) -> Vec<(String, Tint, bool)> {
    line.iter().map(|s| (s.text.clone(), s.tint, s.bold)).collect()
}

/// The line of a channel at a level.
fn line_at(label: &str, db: f32) -> Vec<(String, Tint, bool)> {
    shown(&meter_line(&label.to_string(), sample(db), &decimal))
}

fn trace(points: &[(i16, i16)]) -> VecDeque<MinMax> {
    points.iter().map(|&(min, max)| MinMax { min, max }).collect()
}

fn cells(lines: &[String]) -> Vec<Vec<u32>> {
    lines.iter().map(|l| l.chars().map(|c| c as u32 - 0x2800).collect()).collect()
}

#[test]
fn braille_bits() {
    let bits: Vec<u8> = (0..4).map(|dy| braille_bit(0, dy)).collect();
    assert_eq!(bits, vec![0x01, 0x02, 0x04, 0x40]);
    let bits: Vec<u8> = (0..4).map(|dy| braille_bit(1, dy)).collect();
    assert_eq!(bits, vec![0x08, 0x10, 0x20, 0x80]);
    assert_eq!(braille_bit(2, 0), 0);
    assert_eq!(braille_bit(0, 4), 0);
}

#[test]
fn every_dot_has_its_own_bit() {
    let mut all = 0u8;
    for dx in 0..2 {
        for dy in 0..4 {
            let bit = braille_bit(dx, dy);
            assert_eq!(bit.count_ones(), 1);
            assert_eq!(all & bit, 0);
            all |= bit;
        }
    }
    assert_eq!(all, 0xff);
}

#[test]
fn rows_of_amplitudes() {
    for (v, row) in [(1.0, 0), (-1.0, 7), (5.0, 0), (-5.0, 7), (0.0, 4), (0.5, 2), (f32::NAN, 0)] {
        assert_eq!(sample_to_subrow(sample(v), 8), row);
    }
    assert_eq!(sample_to_subrow(sample(-1.0), 1), 0);
    assert_eq!(sample_to_subrow(sample(-1.0), 0), 0);
}

#[test]
fn empty_trace_shows_the_center_line() {
    let lines = scope_lines(&trace(&[]), 3, 1);
    assert_eq!(lines, vec!["\u{2804}\u{2804}\u{2804}".to_string()]);
    let lines = scope_lines(&trace(&[]), 1, 2);
    assert_eq!(lines, vec!["\u{2800}".to_string(), "\u{2801}".to_string()]);
}

#[test]
fn full_scale_point_fills_its_column() {
    let lines = scope_lines(&trace(&[(-32767, 32767)]), 2, 1);
    assert_eq!(lines, vec!["\u{2804}\u{28fd}".to_string()]);
}

#[test]
fn no_cells_no_lines() {
    assert!(scope_lines(&trace(&[(0, 0)]), 0, 5).is_empty());
    assert!(scope_lines(&trace(&[(0, 0)]), 5, 0).is_empty());
    assert!(plot_lines(0, &vec![], 0, 0).is_empty());
}

#[test]
fn plot_draws_spans_in_either_direction() {
    let down = plot_lines(0, &vec![RowSpan { top: 1, bottom: 3 }], 1, 1);
    let up = plot_lines(0, &vec![RowSpan { top: 3, bottom: 1 }], 1, 1);
    assert_eq!(down, up);
    assert_eq!(cells(&down), vec![vec![0x01 | 0x10 | 0x20 | 0x80 | 0x02 | 0x40]]);
}

#[test]
fn drawing_agrees_with_a_dot_by_dot_account() {
    let points: Vec<(i16, i16)> = (0..40)
        .map(|i: i32| {
            let a = ((i * 7919) % 65536 - 32768) as i16;
            let b = ((i * 104_729) % 65536 - 32768) as i16;
            (a.min(b), a.max(b))
        })
        .collect();
    for (width, height, n) in [(5usize, 3usize, 3usize), (10, 4, 10), (12, 5, 40), (1, 1, 40)] {
        let t = trace(&points[..n]);
        let lines = cells(&scope_lines(&t, width, height));
        assert_eq!(lines.len(), height);
        let rows = height * 4;
        let row = |v: i16| {
            let s = (v as f32 / 32767.0).clamp(-1.0, 1.0);
            ((1.0 - s) * 0.5 * (rows as f32 - 1.0)).round() as usize
        };
        let shown = n.min(width);
        for y in 0..rows {
            for x in 0..2 * width {
                let mut lit = x % 2 == 0 && y == row(0);
                let cell = x / 2;
                if cell >= width - shown {
                    let (min, max) = points[n - shown + cell - (width - shown)];
                    let (top, bottom) = (row(max), row(min));
                    lit |= if x % 2 == 1 {
                        top.min(bottom) <= y && y <= top.max(bottom)
                    } else {
                        y == top || y == bottom
                    };
                }
                let bit = braille_bit(x % 2, y % 4) as u32;
                assert_eq!(lines[y / 4][cell] & bit != 0, lit, "x {} y {}", x, y);
            }
        }
    }
}

#[test]
fn trace_scrolls_to_the_left() {
    let mut t = trace(&[]);
    let mut before = cells(&scope_lines(&t, 6, 2));
    for i in 0..20i32 {
        t.push_back(MinMax { min: (-3000 * (i % 7)) as i16, max: (4000 * (i % 5)) as i16 });
        let after = cells(&scope_lines(&t, 6, 2));
        for row in 0..2 {
            assert_eq!(after[row][..5], before[row][1..]);
        }
        before = after;
    }
}

#[test]
fn level_constants_are_the_bits_of_their_numbers() {
    assert_eq!(DB_MIN_BITS, (-60.0f32).to_bits());
    assert_eq!(DB_MAX_BITS, 12.0f32.to_bits());
    assert_eq!(AMP_MIN_BITS, 1.0e-9f32.to_bits());
    assert_eq!(YELLOW_BITS, (-18.0f32).to_bits());
    assert_eq!(RED_BITS, (-6.0f32).to_bits());
}

#[test]
fn levels_of_amplitudes() {
    assert_eq!(amp_to_dbfs(sample(1.0), &decibels), sample(0.0));
    assert_eq!(amp_to_dbfs(sample(10.0), &decibels), sample(20.0));
    let floor = sample(20.0 * 1.0e-9f32.log10());
    for v in [0.0, -1.0, 1.0e-10, 1.0e-9, f32::NAN] {
        assert_eq!(amp_to_dbfs(sample(v), &decibels), floor);
    }
}

#[test]
fn lit_segments_over_the_scale() {
    for (db, lit) in [
        (-100.0, 0),
        (-60.0, 0),
        (-59.9, 0),
        (-57.0, 1),
        (-30.0, 10),
        (-18.0, 14),
        (-6.0, 18),
        (0.0, 20),
        (9.0, 23),
        (11.9, 23),
        (12.0, 24),
        (50.0, 24),
        (f32::NEG_INFINITY, 0),
        (f32::INFINITY, 24),
        (f32::NAN, 0),
    ] {
        assert_eq!(lit_segments_for_db(sample(db)), lit, "{}", db);
    }
}

#[test]
fn band_thresholds() {
    for (db, tint) in [
        (f32::NEG_INFINITY, Tint::Green),
        (-180.0, Tint::Green),
        (-18.5, Tint::Green),
        (-18.000002, Tint::Green),
        (-18.0, Tint::Yellow),
        (-17.999998, Tint::Yellow),
        (-6.0000005, Tint::Yellow),
        (-6.0, Tint::Red),
        (-0.0, Tint::Red),
        (0.0, Tint::Red),
        (12.0, Tint::Red),
        (f32::NAN, Tint::Red),
    ] {
        assert_eq!(band_color(sample(db)), tint, "{}", db);
    }
}

fn spans(lit: usize) -> Vec<(String, Tint, bool)> {
    shown(&meter_spans(&"L".to_string(), &"0.0".to_string(), lit))
}

#[test]
fn bands_are_those_of_the_segment_centers() {
    for (i, segment) in spans(METER_SEGMENTS).iter().skip(1).enumerate() {
        let seg_db = -60.0f32 + (i as f32 + 0.5) * ((12.0f32 - -60.0) / 24.0);
        let tint = if seg_db < -18.0 {
            Tint::Green
        } else if seg_db < -6.0 {
            Tint::Yellow
        } else {
            Tint::Red
        };
        assert_eq!(*segment, ("▮".to_string(), tint, true));
    }
}

#[test]
fn meter_lights_from_the_bottom() {
    for lit in 0..30usize {
        let line = spans(lit);
        assert_eq!(line.len(), 25);
        for (i, segment) in line.iter().skip(1).enumerate() {
            assert_eq!(segment.0, "▮");
            assert_eq!(segment.2, i < lit);
            assert_eq!(segment.1 == Tint::DarkGray, i >= lit);
        }
    }
}

#[test]
fn meter_line_at_zero_decibels() {
    let line = line_at("L", 0.0);
    assert_eq!(line.len(), 25);
    assert_eq!(line[0], ("L    0.0 dBFS ".to_string(), Tint::White, false));
    for (i, span) in line.iter().enumerate().skip(1) {
        let (tint, bold) = match i {
            1..=14 => (Tint::Green, true),
            15..=18 => (Tint::Yellow, true),
            19..=20 => (Tint::Red, true),
            _ => (Tint::DarkGray, false),
        };
        assert_eq!(*span, ("▮".to_string(), tint, bold));
    }
}

#[test]
fn meter_line_always_has_its_pieces() {
    for tenths in -2000..300 {
        let db = tenths as f32 / 10.0;
        let line = line_at("R", db);
        assert_eq!(line.len(), 25);
        assert_eq!(line[0], (format!("R {:>6.1} dBFS ", db), Tint::White, false));
        assert!(line[1..].iter().all(|s| s.0 == "▮"));
    }
}

#[test]
fn higher_levels_light_more_segments() {
    let mut before = 0;
    for hundredths in -7000..2000 {
        let lit = lit_segments_for_db(sample(hundredths as f32 / 100.0));
        assert!(before <= lit && lit <= 24);
        before = lit;
    }
    assert_eq!(before, 24);
}

#[test]
fn segments_light_when_their_upper_edge_is_reached() {
    for whole in -60..12i32 {
        for part in [0.0f32, 0.25, 0.5, 0.75] {
            let lit = lit_segments_for_db(sample(whole as f32 + part)) as i32;
            assert!(3 * lit <= whole + 60 && whole + 60 < 3 * (lit + 1));
        }
    }
}

#[test]
fn higher_amplitudes_are_drawn_higher() {
    for height in [1usize, 2, 3, 4, 8, 100, 4096] {
        let mut before = height - 1;
        for i in -1500..=1500i32 {
            let row = sample_to_subrow(sample(i as f32 / 1000.0), height);
            assert!(row <= before);
            if i <= -1000 {
                assert_eq!(row, height - 1);
            }
            if i >= 1000 {
                assert_eq!(row, 0);
            }
            before = row;
        }
    }
}

#[test]
fn panel_titles() {
    assert_eq!(Side::Left.title(), "Left");
    assert_eq!(Side::Left.label(), "L");
    assert_eq!(Side::Right.title(), "Right");
    assert_eq!(Side::Right.label(), "R");
}

#[test]
fn screen_is_halved_for_every_height() {
    let scope = ScopeHistory::default();
    for y in [0u16, 1, 7, 1000] {
        for height in 0..130u16 {
            let area = Area { x: 3, y, width: 60, height };
            let (left, right) = render(area, Stereo::default(), &scope, &math());
            let upper = (height + 1) / 2;
            assert_eq!(left.area, Area { x: 3, y, width: 60, height: upper });
            assert_eq!(right.area, Area { x: 3, y: y + upper, width: 60, height: height / 2 });
        }
    }
}

#[test]
fn columns_share_the_panel_for_every_width() {
    for x in [0u16, 1, 13, 2000] {
        for width in 0..300u16 {
            let area = Area { x, y: 2, width, height: 6 };
            let view = render_channel(area, Side::Left, sample(-6.0), &trace(&[]), &decimal);
            if width < 10 {
                assert!(view.body.is_none());
                continue;
            }
            let body = view.body.unwrap();
            let meter = (width - 2 - 8).min(40);
            assert_eq!(body.meter_area, Area { x: x + 1, y: 4, width: meter, height: 1 });
            assert_eq!(
                body.scope_area,
                Area { x: x + 1 + meter, y: 3, width: width - 2 - meter, height: 4 }
            );
            assert_eq!(body.lines.len(), 4);
            assert_eq!(body.lines[0].chars().count(), (width - 2 - meter) as usize);
        }
    }
}

#[test]
fn areas_at_the_edge_of_the_coordinates_stay_inside() {
    let scope = ScopeHistory::default();
    for start in [65_000u16, 65_400, 65_500, 65_530, 65_535] {
        for size in [0u16, 1, 2, 9, 10, 30, 100, 600] {
            let area = Area { x: start, y: start, width: size, height: size };
            let (left, right) = render(area, Stereo::default(), &scope, &math());
            for view in [left, right] {
                assert_eq!(view.area.x, start);
                assert_eq!(view.area.width, size);
                assert!(view.area.y >= start);
                let end = start.saturating_add(size);
                assert!(view.area.y.saturating_add(view.area.height) <= end);
                if let Some(body) = view.body {
                    assert!(body.scope_area.x >= start);
                    assert!(body.scope_area.x.saturating_add(body.scope_area.width) <= end);
                }
            }
        }
    }
}

#[test]
fn low_panel_stays_empty() {
    for height in 0..3u16 {
        let area = Area { x: 0, y: 0, width: 80, height };
        let view = render_channel(area, Side::Right, sample(0.0), &trace(&[]), &decimal);
        assert_eq!(view.side, Side::Right);
        assert_eq!(view.area, area);
        assert!(view.body.is_none());
    }
    let area = Area { x: 0, y: 0, width: 80, height: 3 };
    let view = render_channel(area, Side::Right, sample(0.0), &trace(&[]), &decimal);
    assert!(view.body.is_some());
}

#[test]
fn meter_row_is_in_the_middle() {
    for (height, row) in [(1u16, 10u16), (2, 10), (3, 11), (4, 11), (9, 14)] {
        let column = Area { x: 5, y: 10, width: 40, height };
        let scope = Area { x: 45, y: 10, width: 10, height };
        let body = channel_body(column, scope, Side::Left, sample(0.0), &trace(&[(0, 0)]), &decimal);
        assert_eq!(body.meter_area, Area { x: 5, y: row, width: 40, height: 1 });
        assert_eq!(shown(&body.meter), line_at("L", 0.0));
        assert_eq!(body.scope_tint, Tint::Green);
        assert_eq!(body.scope_area, scope);
        assert_eq!(body.lines, scope_lines(&trace(&[(0, 0)]), 10, height as usize));
    }
}

#[test]
fn each_panel_shows_its_own_channel() {
    let mut scope = ScopeHistory::default();
    scope.l.push_back(MinMax { min: -32767, max: 32767 });
    scope.r.push_back(MinMax { min: 0, max: 0 });
    let stereo = Stereo { l: sample(1.0), r: sample(0.0) };
    let area = Area { x: 0, y: 0, width: 80, height: 20 };
    let (left, right) = render(area, stereo, &scope, &math());
    assert_eq!(left.side, Side::Left);
    assert_eq!(right.side, Side::Right);
    let left = left.body.unwrap();
    let right = right.body.unwrap();
    assert_eq!(shown(&left.meter), line_at("L", 0.0));
    assert_eq!(shown(&right.meter), line_at("R", -180.0));
    assert_eq!(left.scope_tint, Tint::Green);
    assert_eq!(right.scope_tint, Tint::Green);
    assert_eq!(left.lines, scope_lines(&scope.l, 38, 8));
    assert_eq!(right.lines, scope_lines(&scope.r, 38, 8));
    assert_ne!(left.lines, right.lines);
}

#[test]
fn meter_label_aligns_the_level() {
    let label = |number: &str| meter_label(&"L".to_string(), &number.to_string());
    assert_eq!(label("0.0"), "L    0.0 dBFS ");
    assert_eq!(label("-60.0"), "L  -60.0 dBFS ");
    assert_eq!(label("-180.0"), "L -180.0 dBFS ");
    assert_eq!(label("-1234.5"), "L -1234.5 dBFS ");
    assert_eq!(label(""), "L        dBFS ");
}

#[test]
fn meter_label_is_that_of_the_formatter() {
    for db in [0.0f32, -0.04, -3.25, -60.0, -180.0, 12.0, 1.0e6, f32::NAN, f32::INFINITY] {
        let text = meter_label(&"R".to_string(), &format!("{:.1}", db));
        assert_eq!(text, format!("{} {:>6.1} dBFS ", "R", db));
    }
}

/// The number whose bits are `steps` away from those of `db`, towards larger numbers.
fn stepped(db: f32, steps: i32) -> f32 {
    let rank = if db.to_bits() >= 0x8000_0000 {
        -((db.to_bits() - 0x8000_0000) as i32)
    } else {
        db.to_bits() as i32
    } + steps;
    f32::from_bits(if rank < 0 { 0x8000_0000 + (-rank) as u32 } else { rank as u32 })
}

fn lit_by_arithmetic(db: f32) -> usize {
    if db <= -60.0 {
        return 0;
    }
    if db >= 12.0 {
        return 24;
    }
    let norm = (db - -60.0) / (12.0 - -60.0);
    (norm * 24.0).floor() as usize
}

#[test]
fn segments_light_as_the_arithmetic_says() {
    for i in 0..=24 {
        let edge = -60.0 + 3.0 * i as f32;
        for steps in -3000..3000 {
            let db = stepped(edge, steps);
            assert_eq!(lit_segments_for_db(sample(db)), lit_by_arithmetic(db), "{}", db);
        }
    }
    for steps in -3000..3000 {
        let db = stepped(f32::from_bits(0xb600_0000), steps);
        assert_eq!(lit_segments_for_db(sample(db)), lit_by_arithmetic(db), "{}", db);
    }
    let mut bits = 0u32;
    while bits < 0xffff_8000 {
        let db = f32::from_bits(bits);
        assert_eq!(lit_segments_for_db(sample(db)), lit_by_arithmetic(db), "{}", db);
        bits += 8191;
    }
}

fn row_by_arithmetic(v: f32, height: usize) -> usize {
    if height <= 1 {
        return 0;
    }
    let y = (1.0 - v.clamp(-1.0, 1.0)) * 0.5 * (height as f32 - 1.0);
    y.round() as usize
}

#[test]
fn rows_are_those_of_the_arithmetic() {
    let mut heights: Vec<usize> = (0..70).map(|h| 4 * h).collect();
    heights.extend([1, 2, 3, 5, 7, 99, 262_140, 16_777_215, 16_777_216, 16_777_217]);
    heights.extend([33_554_433, 33_554_435, usize::MAX / 3, usize::MAX]);
    let mut x = 3u64;
    for &height in &heights {
        let check = |v: f32| {
            let row = sample_to_subrow(sample(v), height);
            assert_eq!(row, row_by_arithmetic(v, height), "{} of {}", v, height);
        };
        for code in (-32768..=32767i32).step_by(37) {
            check(code as f32 / 32767.0);
        }
        for _ in 0..1500 {
            x = x.wrapping_mul(6364136223846793005).wrapping_add(1442695040888963407);
            check(f32::from_bits((x >> 32) as u32));
            check((x >> 40) as f32 / (1u64 << 23) as f32 - 1.0);
        }
        for v in [0.0f32, -0.0, 1.0, -1.0, 0.5, 2.9e-8, 3.0e-8, -2.9e-8, -6.0e-8, 1.0e-40] {
            for steps in -4..=4 {
                check(stepped(v, steps));
            }
        }
        for v in [f32::NAN, f32::INFINITY, f32::NEG_INFINITY, f32::MAX, f32::MIN] {
            check(v);
        }
    }
}
