use meter::capture::{apply_ballistics, process_audio, FrameTap};
use meter::codes::{decode_i16, f32_to_i16};
use meter::packing::{unpack_stereo, MinMax, Stereo};
use meter::playback::{write_frame, write_output};
use meter::queue::SampleConsumer;
use meter::sample::Sample;
use meter::scope::{drain_scope_queue, ScopeBin, ScopeHistory};
use meter::setup::{passthrough_queue, scope_queue};

fn sample(v: f32) -> Sample {
    Sample { bits: v.to_bits() }
}

fn number(s: Sample) -> f32 {
    f32::from_bits(s.bits)
}

fn decode_u16(v: u16) -> Sample {
    sample(2.0 * (v as f32 / u16::MAX as f32) - 1.0)
}

fn blend(input: Sample, coeff: Sample, prev: Sample) -> Sample {
    sample(number(input) + number(coeff) * (number(prev) - number(input)))
}

fn scale_u16(s: Sample) -> u16 {
    ((number(s) + 1.0) * 0.5 * u16::MAX as f32) as u16
}

fn mix(l: Sample, r: Sample) -> Sample {
    sample(0.5 * (number(l) + number(r)))
}

/// Everything that the queue holds, two amplitudes at a time.
fn drain(consumer: &mut SampleConsumer, frames: usize) -> Vec<f32> {
    let mut out = vec![9.0f32; 2 * frames];
    write_output(&mut out, 2, consumer, &number, &mix, false);
    out
}

#[test]
fn ballistics_attack_when_rising() {
    let level = apply_ballistics(sample(1.0), sample(0.5), sample(0.25), sample(0.75), &blend);
    assert_eq!(level, sample(1.0 + 0.25 * (0.5 - 1.0)));
}

#[test]
fn ballistics_release_when_falling_or_level() {
    let level = apply_ballistics(sample(0.5), sample(1.0), sample(0.25), sample(0.75), &blend);
    assert_eq!(level, sample(0.5 + 0.75 * (1.0 - 0.5)));
    let level = apply_ballistics(sample(0.0), sample(0.0), sample(0.25), sample(0.75), &blend);
    assert_eq!(level, sample(0.0));
    let level = apply_ballistics(sample(f32::NAN), sample(1.0), sample(0.0), sample(0.0), &|_i, c, _p| c);
    assert_eq!(level, sample(0.0));
}

#[test]
fn stereo_input_moves_levels_and_feeds_both_queues() {
    let (points, mut point_end) = scope_queue();
    let (samples, mut sample_end) = passthrough_queue(48_000);
    let mut tap = FrameTap { passthrough: Some(samples), bin: ScopeBin::new(2), points };
    let mut state = Stereo::default();
    let data = [0.5f32, -1.0, -0.25, 0.75, 0.125];
    let word = process_audio(
        &data,
        2,
        sample(0.5),
        sample(0.75),
        &mut state,
        &mut tap,
        &sample,
        &blend,
    );
    // 0 rises towards 0.5 and 1.0, then the left level falls and the right rises.
    let l1 = 0.5f32 + 0.5 * (0.0 - 0.5);
    let r1 = 1.0f32 + 0.5 * (0.0 - 1.0);
    let l2 = 0.25f32 + 0.75 * (l1 - 0.25);
    let r2 = 0.75f32 + 0.5 * (r1 - 0.75);
    assert_eq!(state, Stereo { l: sample(l2), r: sample(r2) });
    assert_eq!(unpack_stereo(word.unwrap()), state);
    assert_eq!(drain(&mut sample_end, 3), vec![0.5, -1.0, -0.25, 0.75, 0.0, 0.0]);
    let mut history = ScopeHistory::default();
    assert!(drain_scope_queue(&mut point_end, &mut history, 10));
    assert_eq!(history.l.len(), 1);
    assert_eq!(history.l[0], MinMax { min: -8191, max: 16383 });
    assert_eq!(history.r[0], MinMax { min: -32767, max: 24575 });
    assert_eq!(tap.bin.count, 0);
}

#[test]
fn mono_input_counts_on_both_sides() {
    let (points, _point_end) = scope_queue();
    let (samples, mut sample_end) = passthrough_queue(1);
    let mut tap = FrameTap { passthrough: Some(samples), bin: ScopeBin::new(100), points };
    let mut state = Stereo::default();
    let data = [i16::MAX, i16::MIN, 0];
    let word = process_audio(
        &data,
        1,
        sample(0.0),
        sample(0.0),
        &mut state,
        &mut tap,
        &decode_i16,
        &blend,
    );
    assert_eq!(word, Some(0));
    let low = -32768.0f32 / 32767.0;
    assert_eq!(drain(&mut sample_end, 3), vec![1.0, 1.0, low, low, 0.0, 0.0]);
    assert_eq!(tap.bin.count, 3);
}

#[test]
fn further_channels_and_partial_frames_are_ignored() {
    let (points, _point_end) = scope_queue();
    let (samples, mut sample_end) = passthrough_queue(1);
    let mut tap = FrameTap { passthrough: Some(samples), bin: ScopeBin::new(100), points };
    let mut state = Stereo::default();
    let data = [0u16, 65535, 1, 65535, 0, 2, 65535, 65535];
    process_audio(
        &data,
        3,
        sample(0.0),
        sample(0.0),
        &mut state,
        &mut tap,
        &decode_u16,
        &blend,
    );
    assert_eq!(drain(&mut sample_end, 3), vec![-1.0, 1.0, 1.0, -1.0, 0.0, 0.0]);
    assert_eq!(tap.bin.count, 2);
    assert_eq!(state, Stereo { l: sample(1.0), r: sample(1.0) });
}

#[test]
fn input_without_channels_changes_nothing() {
    let (points, mut point_end) = scope_queue();
    let mut tap = FrameTap { passthrough: None, bin: ScopeBin::new(1), points };
    let start = Stereo { l: sample(0.5), r: sample(0.25) };
    let mut state = start;
    let word = process_audio(
        &[1.0f32, 1.0],
        0,
        sample(0.0),
        sample(0.0),
        &mut state,
        &mut tap,
        &sample,
        &blend,
    );
    assert_eq!(word, None);
    assert_eq!(state, start);
    let mut history = ScopeHistory::default();
    assert!(drain_scope_queue(&mut point_end, &mut history, 10));
    assert_eq!(history.l.len(), 0);
}

#[test]
fn empty_input_still_publishes_the_levels() {
    let (points, _point_end) = scope_queue();
    let mut tap = FrameTap { passthrough: None, bin: ScopeBin::new(1), points };
    let mut state = Stereo { l: sample(0.5), r: sample(0.25) };
    let word = process_audio(
        &[],
        2,
        sample(0.0),
        sample(0.0),
        &mut state,
        &mut tap,
        &sample,
        &blend,
    );
    assert_eq!(word, Some(0x3f00_0000_3e80_0000));
}

#[test]
fn two_buffers_work_like_one() {
    let data: Vec<i16> = (0..400).map(|i| ((i * 7919) % 65536 - 32768) as i16).collect();
    let mut results = Vec::new();
    for cut in [0usize, 2, 100, 398, 400] {
        let (points, mut point_end) = scope_queue();
        let mut tap = FrameTap { passthrough: None, bin: ScopeBin::new(7), points };
        let mut state = Stereo::default();
        for part in [&data[..cut], &data[cut..]] {
            process_audio(
                part,
                2,
                sample(0.25),
                sample(0.875),
                &mut state,
                &mut tap,
                &decode_i16,
                &blend,
            );
        }
        let mut history = ScopeHistory::default();
        assert!(drain_scope_queue(&mut point_end, &mut history, 1000));
        assert_eq!(history.l.len(), 200 / 7);
        results.push((state, tap.bin, history.l, history.r));
    }
    for r in &results {
        assert!(*r == results[0]);
    }
}

#[test]
fn mono_frame_gets_the_mix() {
    let mut frame = [0.0f32];
    write_frame(&mut frame, sample(1.0), sample(0.5), &number, &mix, false);
    assert_eq!(frame, [0.75]);
    let mut frame = [0i16];
    write_frame(&mut frame, sample(1.0), sample(0.5), &f32_to_i16, &mix, true);
    assert_eq!(frame, [24575]);
    let mut frame = [0u16];
    write_frame(&mut frame, sample(-1.0), sample(-3.0), &scale_u16, &mix, true);
    assert_eq!(frame, [0]);
}

#[test]
fn wide_frame_alternates_left_and_right() {
    for n in 2..9usize {
        let mut frame = vec![9.0f32; n];
        write_frame(&mut frame, sample(0.25), sample(-4.0), &number, &mix, false);
        for (i, v) in frame.iter().enumerate() {
            assert_eq!(*v, if i % 2 == 0 { 0.25 } else { -4.0 });
        }
    }
}

#[test]
fn integer_frames_are_clamped() {
    let mut frame = [0i16; 3];
    write_frame(&mut frame, sample(1.5), sample(-7.0), &f32_to_i16, &mix, true);
    assert_eq!(frame, [32767, -32767, 32767]);
    let mut frame = [7u16; 4];
    write_frame(&mut frame, sample(1.5), sample(0.0), &scale_u16, &mix, true);
    assert_eq!(frame, [65535, 32767, 65535, 32767]);
    let mut frame = [0i16; 2];
    write_frame(&mut frame, sample(f32::NAN), sample(0.5), &f32_to_i16, &mix, true);
    assert_eq!(frame, [0, 16383]);
}

#[test]
fn output_plays_what_was_passed_through() {
    let (points, _point_end) = scope_queue();
    let (samples, mut consumer) = passthrough_queue(1);
    let mut tap = FrameTap { passthrough: Some(samples), bin: ScopeBin::new(100), points };
    for i in 0..4 {
        tap.on_frame(sample(i as f32), sample(-(i as f32)));
    }
    let mut out = [9.0f32; 7];
    write_output(&mut out, 3, &mut consumer, &number, &mix, false);
    assert_eq!(out, [0.0, -0.0, 0.0, 1.0, -1.0, 1.0, 9.0]);
    let mut out = [9.0f32; 5];
    write_output(&mut out, 2, &mut consumer, &number, &mix, false);
    assert_eq!(out, [2.0, -2.0, 3.0, -3.0, 9.0]);
}

#[test]
fn dry_queue_plays_silence() {
    let (_samples, mut consumer) = passthrough_queue(1);
    let mut out = [9i16; 5];
    write_output(&mut out, 2, &mut consumer, &f32_to_i16, &mix, true);
    assert_eq!(out, [0, 0, 0, 0, 9]);
    let mut out = [9u16; 2];
    write_output(&mut out, 1, &mut consumer, &scale_u16, &mix, true);
    assert_eq!(out, [32767, 32767]);
}

#[test]
fn output_without_channels_stays_as_it_was() {
    let (mut samples, mut consumer) = passthrough_queue(1);
    samples.offer(sample(0.5).bits);
    let mut out = [9.0f32; 4];
    write_output(&mut out, 0, &mut consumer, &number, &mix, false);
    assert_eq!(out, [9.0; 4]);
    assert_eq!(drain(&mut consumer, 1), vec![0.5, 0.0]);
}

#[test]
fn passthrough_queue_has_room_for_two_seconds() {
    for (rate, room) in [(1usize, 8192usize), (2048, 8192), (2049, 8196), (44_100, 176_400)] {
        let (mut samples, mut consumer) = passthrough_queue(rate);
        for i in 0..room + 4 {
            samples.offer(i as u32);
        }
        let out = drain(&mut consumer, room / 2 + 1);
        assert_eq!(out[room - 1].to_bits(), room as u32 - 1);
        assert_eq!(out[room].to_bits(), 0);
        assert_eq!(out[room + 1].to_bits(), 0);
    }
}

#[test]
fn samples_come_out_in_the_order_in_which_they_went_in() {
    let (mut samples, mut consumer) = passthrough_queue(1);
    let mut sent = 0u32;
    let mut seen = 0u32;
    for round in 1..200u32 {
        for _ in 0..2 * (round % 7) {
            sent += 1;
            samples.offer(sent);
        }
        for v in drain(&mut consumer, (round % 5) as usize) {
            if v.to_bits() != 0 {
                seen += 1;
                assert_eq!(v.to_bits(), seen);
            }
        }
    }
    for v in drain(&mut consumer, (sent - seen) as usize) {
        if v.to_bits() != 0 {
            seen += 1;
            assert_eq!(v.to_bits(), seen);
        }
    }
    assert_eq!(seen, sent);
}

#[test]
fn early_read_gives_silence_and_loses_nothing() {
    let (mut samples, mut consumer) = passthrough_queue(1);
    assert_eq!(drain(&mut consumer, 1), vec![0.0, 0.0]);
    samples.offer(sample(0.5).bits);
    assert_eq!(drain(&mut consumer, 1), vec![0.5, 0.0]);
    samples.offer(sample(0.25).bits);
    samples.offer(sample(0.75).bits);
    assert_eq!(drain(&mut consumer, 1), vec![0.25, 0.75]);
}

#[test]
fn scope_shows_the_extremes_of_the_input() {
    let (points, mut point_end) = scope_queue();
    let mut tap = FrameTap { passthrough: None, bin: ScopeBin::new(4), points };
    let mut history = ScopeHistory::default();
    let input: Vec<(i32, i32)> = (0..4099).map(|i| ((i * 7919) % 32768, -((i * 104_729) % 32768))).collect();
    for (n, &(l, r)) in input.iter().enumerate() {
        tap.on_frame(sample(l as f32 / 32767.0), sample(r as f32 / 32767.0));
        if n % 37 == 0 {
            assert!(drain_scope_queue(&mut point_end, &mut history, 1000));
        }
    }
    assert!(drain_scope_queue(&mut point_end, &mut history, 1000));
    assert_eq!(history.l.len(), 1024);
    for (k, run) in input.chunks_exact(4).enumerate() {
        let code = |v: i32| f32_to_i16(sample((v as f32 / 32767.0).clamp(-1.0, 1.0)));
        let l = run.iter().map(|f| code(f.0));
        let r = run.iter().map(|f| code(f.1));
        let l = MinMax { min: l.clone().min().unwrap(), max: l.max().unwrap() };
        let r = MinMax { min: r.clone().min().unwrap(), max: r.max().unwrap() };
        assert_eq!(history.l[k], l);
        assert_eq!(history.r[k], r);
    }
}

#[test]
fn signed_passthrough_keeps_samples() {
    let input: Vec<i16> = (i16::MIN..=i16::MAX).collect();
    let (points, _point_end) = scope_queue();
    let (samples, mut consumer) = passthrough_queue(48_000);
    let mut tap = FrameTap::new(Some(samples), 200, points);
    let mut state = Stereo::default();
    process_audio(
        &input,
        2,
        sample(0.5),
        sample(0.5),
        &mut state,
        &mut tap,
        &decode_i16,
        &blend,
    );
    let mut output = vec![7i16; input.len()];
    write_output(&mut output, 2, &mut consumer, &f32_to_i16, &mix, true);
    for (i, v) in input.iter().enumerate() {
        assert_eq!(output[i], (*v).max(-32767));
    }
    assert_eq!(drain(&mut consumer, 1), vec![0.0, 0.0]);
}

#[test]
fn new_tap_is_empty() {
    for (rounded, target) in [(0u32, 1u32), (1, 1), (200, 200)] {
        let (points, _point_end) = scope_queue();
        let tap = FrameTap::new(None, rounded, points);
        assert!(tap.passthrough.is_none());
        assert_eq!(tap.bin, ScopeBin::new(target));
    }
}

#[test]
fn bin_holds_the_extremes_of_the_run_under_way() {
    let mut bin = ScopeBin::new(5);
    let values: Vec<f32> = (0..103).map(|i| ((i * 37) % 101) as f32 / 101.0 - 0.5).collect();
    for (n, v) in values.iter().enumerate() {
        bin.collect(sample(*v), sample(-*v));
        let run = &values[(n + 1) - (n + 1) % 5..n + 1];
        assert_eq!(bin.count as usize, run.len());
        assert_eq!(bin.target_samples, 5);
        if !run.is_empty() {
            let low = run.iter().copied().fold(f32::INFINITY, f32::min);
            let high = run.iter().copied().fold(f32::NEG_INFINITY, f32::max);
            assert_eq!(bin.extremes.lmin, sample(low));
            assert_eq!(bin.extremes.lmax, sample(high));
            assert_eq!(bin.extremes.rmin, sample(-high));
            assert_eq!(bin.extremes.rmax, sample(-low));
        }
    }
}

#[test]
fn ballistics_constants() {
    assert_eq!(meter::capture::ATTACK_MS, 1);
    assert_eq!(meter::capture::RELEASE_MS, 200);
}
