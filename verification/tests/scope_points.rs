use meter::packing::{pack_scope_point, MinMax};
use meter::sample::Sample;
use meter::scope::{drain_scope_queue, ScopeBin, ScopeHistory, SCOPE_HISTORY_CAPACITY};
use meter::setup::{scope_bucket_samples, scope_queue, SCOPE_QUEUE_CAPACITY};

fn sample(v: f32) -> Sample {
    Sample { bits: v.to_bits() }
}

fn same(code: i16) -> MinMax {
    MinMax { min: code, max: code }
}

#[test]
fn bin_collects_the_extremes_of_a_run() {
    let mut bin = ScopeBin::new(3);
    assert_eq!(bin.collect(sample(0.25), sample(-0.5)), None);
    assert_eq!(bin.collect(sample(-0.75), sample(-0.25)), None);
    assert_eq!(bin.count, 2);
    let e = bin.collect(sample(0.5), sample(f32::NAN)).unwrap();
    assert_eq!(e.lmin, sample(-0.75));
    assert_eq!(e.lmax, sample(0.5));
    assert_eq!(e.rmin, sample(-0.5));
    assert_eq!(e.rmax, sample(-0.25));
    assert_eq!(bin.count, 0);
    assert_eq!(bin.collect(sample(0.1), sample(0.2)), None);
    assert_eq!(bin.extremes.lmin, sample(0.1));
    assert_eq!(bin.extremes.rmax, sample(0.2));
}

#[test]
fn bin_completes_one_point_per_run() {
    for target in [0u32, 1, 2, 7, 200] {
        let mut bin = ScopeBin::new(target);
        let mut points = 0;
        for n in 1..=1000u32 {
            if bin.collect(sample(0.0), sample(0.0)).is_some() {
                points += 1;
            }
            let run = target.max(1);
            assert_eq!(points, n / run);
            assert_eq!(bin.count, n % run);
        }
    }
}

#[test]
fn points_travel_through_the_queue() {
    let (mut producer, mut consumer) = scope_queue();
    let mut bin = ScopeBin::new(2);
    bin.push_sample(sample(1.0), sample(-2.0), &mut producer);
    bin.push_sample(sample(0.5), sample(0.0), &mut producer);
    bin.push_sample(sample(-1.0), sample(1.0), &mut producer);
    let mut history = ScopeHistory::default();
    assert!(drain_scope_queue(&mut consumer, &mut history, 10));
    assert_eq!(history.l.iter().copied().collect::<Vec<_>>(), vec![MinMax { min: 16383, max: 32767 }]);
    assert_eq!(history.r.iter().copied().collect::<Vec<_>>(), vec![MinMax { min: -32767, max: 0 }]);
}

#[test]
fn drain_stops_at_its_limit() {
    let (mut producer, mut consumer) = scope_queue();
    for code in 0..5i16 {
        producer.offer(pack_scope_point(same(code), same(-code)));
    }
    let mut history = ScopeHistory::default();
    assert!(!drain_scope_queue(&mut consumer, &mut history, 0));
    assert_eq!(history.l.len(), 0);
    assert!(!drain_scope_queue(&mut consumer, &mut history, 2));
    assert_eq!(history.l.iter().copied().collect::<Vec<_>>(), vec![same(0), same(1)]);
    assert!(!drain_scope_queue(&mut consumer, &mut history, 3));
    assert!(drain_scope_queue(&mut consumer, &mut history, 3));
    assert_eq!(history.l.len(), 5);
    assert_eq!(history.r[4], same(-4));
}

#[test]
fn draining_in_steps_is_draining_at_once() {
    let (mut producer, mut consumer) = scope_queue();
    let (mut producer2, mut consumer2) = scope_queue();
    for code in 0..100i16 {
        producer.offer(pack_scope_point(same(code), same(1)));
        producer2.offer(pack_scope_point(same(code), same(1)));
    }
    let mut steps = ScopeHistory::default();
    while !drain_scope_queue(&mut consumer, &mut steps, 7) {}
    let mut once = ScopeHistory::default();
    assert!(drain_scope_queue(&mut consumer2, &mut once, 1000));
    assert_eq!(steps.l, once.l);
    assert_eq!(steps.r, once.r);
}

#[test]
fn history_keeps_the_newest_points() {
    let mut history = ScopeHistory::default();
    let extra = 10;
    for i in 0..SCOPE_HISTORY_CAPACITY + extra {
        history.record(pack_scope_point(same(i as i16), same(-(i as i16))));
    }
    assert_eq!(history.l.len(), 4096);
    assert_eq!(history.r.len(), 4096);
    for i in 0..4096 {
        assert_eq!(history.l[i], same((i + extra) as i16));
        assert_eq!(history.r[i], same(-((i + extra) as i16)));
    }
}

#[test]
fn full_queue_drops_points() {
    let (mut producer, mut consumer) = scope_queue();
    for i in 0..SCOPE_QUEUE_CAPACITY + 3 {
        producer.offer(i as u64);
    }
    let mut history = ScopeHistory::default();
    assert!(!drain_scope_queue(&mut consumer, &mut history, 32_768));
    assert!(drain_scope_queue(&mut consumer, &mut history, 1));
    // The last point that was taken, not one of the three that came too late.
    assert_eq!(history.r.back().copied(), Some(MinMax { min: 0, max: 32767 }));
}

#[test]
fn bucket_has_at_least_one_frame() {
    assert_eq!(scope_bucket_samples(0), 1);
    assert_eq!(scope_bucket_samples(1), 1);
    assert_eq!(scope_bucket_samples(200), 200);
}
