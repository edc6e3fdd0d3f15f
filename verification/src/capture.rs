//! The input callback: every frame moves the meter levels, and is passed on to
//! the scope and, if wanted, to the output.

use crate::codes::code_for;
use crate::function::{computes1, computes3, total1, total3};
use crate::packing::{pack_stereo, point_of, point_round_trip, stereo_word, MinMax, Stereo};
use crate::queue::{
    first_in_first_out, nothing_offered, offered, offers_add_up, point_capacity, point_offers,
    points_in, pulled, received, sample_capacity, sample_offers, samples_in, taken, PointProducer,
    SampleProducer,
};
use crate::sample::{abs_keeps_all_other_bits, order_is_by_bits, Sample};
use crate::scope::{
    bin_after, bin_covers_the_run_under_way, bounds, bucket, completed, history_keeps_the_newest,
    left_after, newest, one_point_per_run, points_cover_their_runs, right_after,
    words_hold_the_extremes, Extremes, ScopeBin,
};
use crate::setup::scope_bucket_samples;
use vstd::prelude::*;

verus! {

/// How fast a level rises towards the input, in milliseconds.
pub const ATTACK_MS: u32 = 1;

/// How fast a level falls towards the input, in milliseconds.
pub const RELEASE_MS: u32 = 200;

/// The level that follows `prev` when the rectified input is `input`: `blend`
/// moves it towards the input, by the attack coefficient while the input is
/// above the level and by the release coefficient otherwise.
pub open spec fn next_level(
    input: Sample,
    prev: Sample,
    attack_coeff: Sample,
    release_coeff: Sample,
    blend: spec_fn(Sample, Sample, Sample) -> Sample,
) -> Sample {
    blend(
        input,
        if prev.below(input) {
            attack_coeff
        } else {
            release_coeff
        },
        prev,
    )
}

/// Moves a meter level towards the rectified input. `blend(input, coeff, prev)`
/// does the arithmetic.
pub fn apply_ballistics<B: Fn(Sample, Sample, Sample) -> Sample>(
    input: Sample,
    prev: Sample,
    attack_coeff: Sample,
    release_coeff: Sample,
    blend: &B,
) -> (level: Sample)
    requires
        total3(*blend),
    ensures
        call_ensures(
            *blend,
            (
                input,
                if prev.below(input) {
                    attack_coeff
                } else {
                    release_coeff
                },
                prev,
            ),
            level,
        ),
{
    let coeff: Sample = if prev.less(input) {
        attack_coeff
    } else {
        release_coeff
    };
    blend(input, coeff, prev)
}

/// The full frames of interleaved data, each as a left and a right amplitude: a
/// frame of one channel counts on both sides, and only the first two channels
/// of a frame count.
pub open spec fn frames_of<T>(
    data: Seq<T>,
    channels: int,
    decode: spec_fn(T) -> Sample,
) -> Seq<(Sample, Sample)> {
    Seq::new(
        (data.len() as int / channels) as nat,
        |i: int|
            (
                decode(data[i * channels]),
                decode(
                    data[i * channels + if channels > 1 {
                        1int
                    } else {
                        0int
                    }],
                ),
            ),
    )
}

/// The levels after the given frames.
pub open spec fn levels_after(
    levels: Stereo,
    frames: Seq<(Sample, Sample)>,
    attack_coeff: Sample,
    release_coeff: Sample,
    blend: spec_fn(Sample, Sample, Sample) -> Sample,
) -> Stereo
    decreases frames.len(),
{
    if frames.len() == 0 {
        levels
    } else {
        let before = levels_after(levels, frames.drop_last(), attack_coeff, release_coeff, blend);
        let (l, r) = frames.last();
        Stereo {
            l: next_level(l.abs_spec(), before.l, attack_coeff, release_coeff, blend),
            r: next_level(r.abs_spec(), before.r, attack_coeff, release_coeff, blend),
        }
    }
}

/// The frames as the output queue is offered them: left and right in turn.
pub open spec fn interleaved(frames: Seq<(Sample, Sample)>) -> Seq<u32> {
    Seq::new(
        2 * frames.len(),
        |k: int|
            if k % 2 == 0 {
                frames[k / 2].0.bits
            } else {
                frames[k / 2].1.bits
            },
    )
}

/// The words of the scope points that the given frames complete.
pub open spec fn point_words(bin: ScopeBin, frames: Seq<(Sample, Sample)>) -> Seq<u64> {
    let points = completed(bin, frames);
    Seq::new(points.len(), |i: int| points[i].word())
}

/// Where frames go: to the output queue, if there is one, and to the scope.
pub struct FrameTap {
    /// The queue that feeds the output device.
    pub passthrough: Option<SampleProducer>,
    /// The scope point under way.
    pub bin: ScopeBin,
    /// The queue that feeds the scope display.
    pub points: PointProducer,
}

impl FrameTap {
    /// What the given frames do to a tap.
    pub open spec fn took(self, after: FrameTap, frames: Seq<(Sample, Sample)>) -> bool {
        &&& after.bin == bin_after(self.bin, frames)
        &&& point_capacity(after.points) == point_capacity(self.points)
        &&& points_in(after.points) == points_in(self.points)
        &&& offered(
            point_offers(self.points),
            point_offers(after.points),
            point_words(self.bin, frames),
            point_capacity(self.points),
            points_in(self.points),
        )
        &&& match (self.passthrough, after.passthrough) {
            (Some(p), Some(q)) => {
                &&& sample_capacity(q) == sample_capacity(p)
                &&& samples_in(q) == samples_in(p)
                &&& offered(
                    sample_offers(p),
                    sample_offers(q),
                    interleaved(frames),
                    sample_capacity(p),
                    samples_in(p),
                )
            },
            (None, None) => true,
            _ => false,
        }
    }

    /// A tap that has passed nothing on: `rounded` frames make up a scope point,
    /// or one if that is zero.
    pub fn new(
        passthrough: Option<SampleProducer>,
        rounded: u32,
        points: PointProducer,
    ) -> (tap: FrameTap)
        ensures
            tap.passthrough == passthrough,
            tap.points == points,
            tap.bin.wf(),
            tap.bin.count == 0,
            tap.bin.target_samples == bucket(rounded),
            tap.bin.target_samples == (if rounded == 0 {
                1
            } else {
                rounded
            }),
    {
        FrameTap { passthrough, bin: ScopeBin::new(scope_bucket_samples(rounded)), points }
    }

    /// Passes one frame on.
    pub fn on_frame(&mut self, l: Sample, r: Sample)
        requires
            old(self).bin.wf(),
        ensures
            final(self).bin.wf(),
            old(self).took(*final(self), seq![(l, r)]),
    {
        let ghost frames = seq![(l, r)];
        if let Some(producer) = &mut self.passthrough {
            let ghost start = *producer;
            producer.offer(l.bits);
            let ghost mid = *producer;
            producer.offer(r.bits);
            proof {
                offers_add_up(
                    sample_offers(start),
                    sample_offers(mid),
                    sample_offers(*producer),
                    seq![l.bits],
                    seq![r.bits],
                    sample_capacity(start),
                    samples_in(start),
                );
                assert(seq![l.bits] + seq![r.bits] =~= interleaved(frames));
            }
        }
        self.bin.push_sample(l, r, &mut self.points);
        proof {
            assert(frames.drop_last() =~= Seq::empty());
            assert(bin_after(old(self).bin, frames.drop_last()) == old(self).bin);
            assert(completed(old(self).bin, frames.drop_last()) =~= Seq::empty());
            assert(point_words(old(self).bin, frames) =~= old(self).bin.emits(l, r));
        }
    }
}

/// No frame leaves a tap as it is.
proof fn no_frame_taken(tap: FrameTap)
    ensures
        tap.took(tap, Seq::empty()),
{
    let none = Seq::<(Sample, Sample)>::empty();
    nothing_offered(point_offers(tap.points), point_capacity(tap.points), points_in(tap.points));
    assert(point_words(tap.bin, none) =~= Seq::empty());
    assert(interleaved(none) =~= Seq::empty());
    if let Some(p) = tap.passthrough {
        nothing_offered(sample_offers(p), sample_capacity(p), samples_in(p));
    }
}

/// A bin works through frames in one go as it does in two.
proof fn bins_add_up(bin: ScopeBin, first: Seq<(Sample, Sample)>, second: Seq<(Sample, Sample)>)
    ensures
        bin_after(bin, first + second) == bin_after(bin_after(bin, first), second),
        completed(bin, first + second) == completed(bin, first) + completed(
            bin_after(bin, first),
            second,
        ),
    decreases second.len(),
{
    if second.len() == 0 {
        assert(first + second =~= first);
        assert(completed(bin, first) + completed(bin_after(bin, first), second) =~= completed(
            bin,
            first,
        ));
    } else {
        bins_add_up(bin, first, second.drop_last());
        assert((first + second).drop_last() =~= first + second.drop_last());
        assert((first + second).last() == second.last());
        assert(completed(bin, first + second) =~= completed(bin, first) + completed(
            bin_after(bin, first),
            second,
        ));
    }
}

/// Passing frames on in two buffers has the effect of passing them on in one.
pub proof fn taps_add_up(
    a: FrameTap,
    b: FrameTap,
    c: FrameTap,
    first: Seq<(Sample, Sample)>,
    second: Seq<(Sample, Sample)>,
)
    requires
        a.took(b, first),
        b.took(c, second),
    ensures
        a.took(c, first + second),
{
    bins_add_up(a.bin, first, second);
    assert(point_words(a.bin, first + second) =~= point_words(a.bin, first) + point_words(
        b.bin,
        second,
    ));
    offers_add_up(
        point_offers(a.points),
        point_offers(b.points),
        point_offers(c.points),
        point_words(a.bin, first),
        point_words(b.bin, second),
        point_capacity(a.points),
        points_in(a.points),
    );
    if let (Some(p), Some(q), Some(r)) = (a.passthrough, b.passthrough, c.passthrough) {
        assert(interleaved(first + second) =~= interleaved(first) + interleaved(second));
        offers_add_up(
            sample_offers(p),
            sample_offers(q),
            sample_offers(r),
            interleaved(first),
            interleaved(second),
            sample_capacity(p),
            samples_in(p),
        );
    }
}

/// The scope shows what the queue took, in the order in which it took it: `pulls` is
/// what the display has been given so far, and the history that this makes holds
/// the points of the words that came first, as many of the newest as it keeps.
pub proof fn scope_shows_what_was_taken(
    items: Seq<u64>,
    offers: Seq<(u64, bool)>,
    capacity: nat,
    line: Map<nat, u64>,
    pulls: Seq<Option<u64>>,
)
    requires
        offered(Seq::empty(), offers, items, capacity, line),
        pulled(Seq::empty(), pulls, line),
        received(pulls).len() <= taken(offers).len(),
    ensures
        received(pulls) == taken(offers).take(received(pulls).len() as int),
        left_after(Seq::empty(), received(pulls)) == newest(
            Seq::new(received(pulls).len(), |i: int| point_of(taken(offers)[i]).0),
        ),
        right_after(Seq::empty(), received(pulls)) == newest(
            Seq::new(received(pulls).len(), |i: int| point_of(taken(offers)[i]).1),
        ),
{
    let words = received(pulls);
    assert forall|i: int| 0 <= i < words.len() implies #[trigger] words[i] == taken(offers)[i] by {
        first_in_first_out(offers, items, capacity, pulls, line, i);
    }
    assert(words =~= taken(offers).take(words.len() as int));
    history_keeps_the_newest(Seq::empty(), Seq::empty(), words);
    assert(Seq::empty() + Seq::new(words.len(), |i: int| point_of(words[i]).0) =~= Seq::new(
        words.len(),
        |i: int| point_of(taken(offers)[i]).0,
    ));
    assert(Seq::empty() + Seq::new(words.len(), |i: int| point_of(words[i]).1) =~= Seq::new(
        words.len(),
        |i: int| point_of(taken(offers)[i]).1,
    ));
}

/// Every word that a queue takes is that of a point which the frames completed, and
/// the words come in the order of the frames.
pub proof fn taken_points_are_completed(
    bin: ScopeBin,
    frames: Seq<(Sample, Sample)>,
    offers: Seq<(u64, bool)>,
    capacity: nat,
    line: Map<nat, u64>,
    k: int,
)
    requires
        offered(Seq::empty(), offers, point_words(bin, frames), capacity, line),
        0 <= k < offers.len(),
    ensures
        offers.len() == completed(bin, frames).len(),
        offers[k].0 == completed(bin, frames)[k].word(),
        point_of(offers[k].0) == (
            completed(bin, frames)[k].left(),
            completed(bin, frames)[k].right(),
        ),
{
    let point = completed(bin, frames)[k];
    point_round_trip(point.left(), point.right(), 0);
}

/// The scope shows the input. Frames go through a bin and a new queue which
/// refuses no point, and `pulls` is what the display has been given so far. The
/// history that this makes holds the extremes of the points that the frames
/// complete, in the order of the frames, as many of the newest as it keeps.
pub proof fn scope_shows_the_input(
    bin: ScopeBin,
    frames: Seq<(Sample, Sample)>,
    offers: Seq<(u64, bool)>,
    capacity: nat,
    line: Map<nat, u64>,
    pulls: Seq<Option<u64>>,
)
    requires
        offered(Seq::empty(), offers, point_words(bin, frames), capacity, line),
        taken(offers) == point_words(bin, frames),
        pulled(Seq::empty(), pulls, line),
        received(pulls).len() <= completed(bin, frames).len(),
    ensures
        left_after(Seq::empty(), received(pulls)) == newest(
            Seq::new(received(pulls).len(), |i: int| completed(bin, frames)[i].left()),
        ),
        right_after(Seq::empty(), received(pulls)) == newest(
            Seq::new(received(pulls).len(), |i: int| completed(bin, frames)[i].right()),
        ),
{
    let words = taken(offers);
    let points = completed(bin, frames);
    scope_shows_what_was_taken(point_words(bin, frames), offers, capacity, line, pulls);
    assert forall|i: int| 0 <= i < points.len() implies point_of(#[trigger] words[i]) == (
        points[i].left(),
        points[i].right(),
    ) by {
        point_round_trip(points[i].left(), points[i].right(), 0);
    }
    let n = received(pulls).len();
    assert(Seq::new(n, |i: int| point_of(words[i]).0) =~= Seq::new(n, |i: int| points[i].left()));
    assert(Seq::new(n, |i: int| point_of(words[i]).1) =~= Seq::new(n, |i: int| points[i].right()));
}

/// A run of frames makes one point. As many frames as make up a point go through an
/// empty bin: before the last one nothing is offered to the queue, with the last
/// one the extremes of these frames are, and the bin is empty again. If the queue
/// has room, it takes them behind everything that it took before.
pub proof fn a_run_makes_one_point(
    bin: ScopeBin,
    frames: Seq<(Sample, Sample)>,
    before: Seq<(u64, bool)>,
    after: Seq<(u64, bool)>,
    capacity: nat,
    line: Map<nat, u64>,
    k: int,
)
    requires
        bin.count == 0,
        frames.len() == bucket(bin.target_samples),
        offered(before, after, point_words(bin, frames), capacity, line),
        0 <= k < frames.len(),
    ensures
        point_words(bin, frames.take(k)) == Seq::<u64>::empty(),
        completed(bin, frames).len() == 1,
        bounds(completed(bin, frames)[0], frames),
        point_words(bin, frames) == seq![completed(bin, frames)[0].word()],
        bin_after(bin, frames).count == 0,
        bin_after(bin, frames).target_samples == bin.target_samples,
        after.len() == before.len() + 1,
        after.last().0 == completed(bin, frames)[0].word(),
        taken(before).len() < capacity ==> after.last().1,
        after.last().1 ==> taken(after) == taken(before).push(completed(bin, frames)[0].word()),
        !after.last().1 ==> taken(after) == taken(before),
{
    let t = bucket(bin.target_samples);
    assert(t % t == 0 && t / t == 1) by (nonlinear_arith)
        requires
            t > 0,
    ;
    assert(k / t == 0) by (nonlinear_arith)
        requires
            0 <= k < t,
    ;
    one_point_per_run(bin, frames);
    one_point_per_run(bin, frames.take(k));
    points_cover_their_runs(bin, frames, 0);
    bin_covers_the_run_under_way(bin, frames);
    assert(0 * t == 0 && (0 + 1) * t == t);
    assert(frames.subrange(0, t) =~= frames);
    assert(point_words(bin, frames.take(k)) =~= Seq::empty());
    assert(point_words(bin, frames) =~= seq![completed(bin, frames)[0].word()]);
    assert(after[before.len() as int] == after.last());
    assert(after.take(before.len() as int) == before);
    assert(after.drop_last() =~= before);
    reveal(taken);
}

/// The levels after two buffers are those after one buffer with the frames of
/// both.
pub proof fn levels_add_up(
    levels: Stereo,
    first: Seq<(Sample, Sample)>,
    second: Seq<(Sample, Sample)>,
    attack_coeff: Sample,
    release_coeff: Sample,
    blend: spec_fn(Sample, Sample, Sample) -> Sample,
)
    ensures
        levels_after(levels, first + second, attack_coeff, release_coeff, blend) == levels_after(
            levels_after(levels, first, attack_coeff, release_coeff, blend),
            second,
            attack_coeff,
            release_coeff,
            blend,
        ),
    decreases second.len(),
{
    if second.len() == 0 {
        assert(first + second =~= first);
    } else {
        levels_add_up(
            levels,
            first,
            second.drop_last(),
            attack_coeff,
            release_coeff,
            blend,
        );
        assert((first + second).drop_last() =~= first + second.drop_last());
        assert((first + second).last() == second.last());
    }
}

/// Cutting interleaved data between two frames does not change its frames.
pub proof fn frames_add_up<T>(
    first: Seq<T>,
    second: Seq<T>,
    channels: int,
    decode: spec_fn(T) -> Sample,
)
    requires
        channels > 0,
        first.len() as int % channels == 0,
    ensures
        frames_of(first + second, channels, decode) == frames_of(first, channels, decode)
            + frames_of(second, channels, decode),
{
    let m = first.len() as int;
    let n = second.len() as int;
    let p = m / channels;
    let q = n / channels;
    vstd::arithmetic::div_mod::lemma_fundamental_div_mod(m, channels);
    vstd::arithmetic::div_mod::lemma_fundamental_div_mod(n, channels);
    vstd::arithmetic::div_mod::lemma_mod_bound(n, channels);
    assert(m + n == channels * (p + q) + n % channels) by (nonlinear_arith)
        requires
            m == channels * p,
            n == channels * q + n % channels,
    ;
    vstd::arithmetic::div_mod::lemma_fundamental_div_mod_converse(
        m + n,
        channels,
        p + q,
        n % channels,
    );
    assert(p >= 0 && q >= 0) by (nonlinear_arith)
        requires
            p == m / channels,
            q == n / channels,
            m >= 0,
            n >= 0,
            channels > 0,
    ;
    let side = if channels > 1 {
        1int
    } else {
        0int
    };
    assert forall|i: int| 0 <= i < p + q implies frames_of(first + second, channels, decode)[i] == (
    frames_of(first, channels, decode) + frames_of(second, channels, decode))[i] by {
        if i < p {
            assert(0 <= i * channels && i * channels + side < m) by (nonlinear_arith)
                requires
                    0 <= i < p,
                    m == channels * p,
                    channels > side,
                    0 <= side <= 1,
            ;
        } else {
            assert(i * channels == m + (i - p) * channels && (i - p) * channels >= 0 && (i - p)
                * channels + side < n) by (nonlinear_arith)
                requires
                    m == channels * p,
                    n >= channels * q,
                    p <= i < p + q,
                    channels > side,
                    0 <= side <= 1,
            ;
        }
    }
    assert(frames_of(first + second, channels, decode) =~= frames_of(first, channels, decode)
        + frames_of(second, channels, decode));
}

/// Works through one buffer of interleaved input. `decode` turns an input value
/// into an amplitude and `blend` moves the levels. Returns the word to publish for
/// the meter; without channels there is nothing to work through and nothing to
/// publish.
pub fn process_audio<
    T: Copy,
    D: Fn(T) -> Sample,
    B: Fn(Sample, Sample, Sample) -> Sample,
>(
    data: &[T],
    channels: usize,
    attack_coeff: Sample,
    release_coeff: Sample,
    state: &mut Stereo,
    tap: &mut FrameTap,
    decode: &D,
    blend: &B,
) -> (meter: Option<u64>)
    requires
        old(tap).bin.wf(),
        total1(*decode),
        total3(*blend),
    ensures
        final(tap).bin.wf(),
        channels == 0 ==> {
            &&& meter is None
            &&& *final(state) == *old(state)
            &&& *final(tap) == *old(tap)
        },
        channels > 0 ==> {
            &&& meter == Some(stereo_word(*final(state)) as u64)
            &&& forall|d: spec_fn(T) -> Sample| #[trigger]
                computes1(*decode, d) ==> old(tap).took(
                    *final(tap),
                    frames_of(data@, channels as int, d),
                )
            &&& forall|d: spec_fn(T) -> Sample, b: spec_fn(Sample, Sample, Sample) -> Sample|
                #[trigger] computes1(*decode, d) && #[trigger] computes3(*blend, b)
                    ==> *final(state) == levels_after(
                    *old(state),
                    frames_of(data@, channels as int, d),
                    attack_coeff,
                    release_coeff,
                    b,
                )
        },
{
    if channels == 0 {
        return None;
    }
    let n: usize = data.len() / channels;
    let mut i: usize = 0;
    proof {
        no_frame_taken(*tap);
        assert forall|d: spec_fn(T) -> Sample| #[trigger] frames_of(
            data@,
            channels as int,
            d,
        ).take(0) == Seq::<(Sample, Sample)>::empty() by {
            assert(frames_of(data@, channels as int, d).take(0) =~= Seq::empty());
        }
    }
    while i < n
        invariant
            channels > 0,
            i <= n,
            n == data@.len() as int / channels as int,
            total1(*decode),
            total3(*blend),
            tap.bin.wf(),
            forall|d: spec_fn(T) -> Sample| #[trigger]
                computes1(*decode, d) ==> old(tap).took(
                    *tap,
                    frames_of(data@, channels as int, d).take(i as int),
                ),
            forall|d: spec_fn(T) -> Sample, b: spec_fn(Sample, Sample, Sample) -> Sample|
                #[trigger] computes1(*decode, d) && #[trigger] computes3(*blend, b)
                    ==> *state == levels_after(
                    *old(state),
                    frames_of(data@, channels as int, d).take(i as int),
                    attack_coeff,
                    release_coeff,
                    b,
                ),
        decreases n - i,
    {
        assert(0 <= i * channels && (i + 1) * channels <= data@.len() && (i + 1) * channels == i
            * channels + channels) by (nonlinear_arith)
            requires
                0 <= i < n,
                n == data@.len() as int / channels as int,
                channels > 0,
        ;
        assert(data.len() == data@.len());
        let start: usize = i * channels;
        let l: Sample = decode(data[start]);
        let r: Sample = if channels > 1 {
            decode(data[start + 1])
        } else {
            l
        };
        state.l = apply_ballistics(l.abs(), state.l, attack_coeff, release_coeff, blend);
        state.r = apply_ballistics(r.abs(), state.r, attack_coeff, release_coeff, blend);
        let ghost before = *tap;
        tap.on_frame(l, r);
        proof {
            assert forall|d: spec_fn(T) -> Sample| #[trigger] computes1(*decode, d) implies {
                let frames = frames_of(data@, channels as int, d);
                &&& frames.take(i + 1) == frames.take(i as int) + seq![(l, r)]
                &&& frames.take(i + 1).drop_last() == frames.take(i as int)
                &&& frames.take(i + 1).last() == (l, r)
            } by {
                let frames = frames_of(data@, channels as int, d);
                assert(frames[i as int] == (l, r));
                assert(frames.take(i + 1) =~= frames.take(i as int) + seq![(l, r)]);
                assert(frames.take(i + 1).drop_last() =~= frames.take(i as int));
            }
            assert forall|d: spec_fn(T) -> Sample| #[trigger] computes1(*decode, d) implies old(
                tap,
            ).took(*tap, frames_of(data@, channels as int, d).take(i + 1)) by {
                let frames = frames_of(data@, channels as int, d);
                taps_add_up(*old(tap), before, *tap, frames.take(i as int), seq![(l, r)]);
            }
        }
        i += 1;
    }
    proof {
        assert forall|d: spec_fn(T) -> Sample| frames_of(data@, channels as int, d).take(n as int)
            == #[trigger] frames_of(data@, channels as int, d) by {
            assert(frames_of(data@, channels as int, d).take(n as int) =~= frames_of(
                data@,
                channels as int,
                d,
            ));
        }
    }
    Some(pack_stereo(*state))
}

/// What one frame does to the levels, for every amplitude: on each side the amplitude
/// without its sign bit is blended into the level, with the attack coefficient if it
/// is the larger number of the two and with the release coefficient otherwise.
pub proof fn one_frame_moves_the_levels(
    levels: Stereo,
    l: Sample,
    r: Sample,
    attack_coeff: Sample,
    release_coeff: Sample,
    blend: spec_fn(Sample, Sample, Sample) -> Sample,
)
    ensures
        ({
            let after = levels_after(levels, seq![(l, r)], attack_coeff, release_coeff, blend);
            let left = Sample { bits: (l.bits as int % 0x8000_0000) as u32 };
            let right = Sample { bits: (r.bits as int % 0x8000_0000) as u32 };
            let key = |s: Sample|
                if s.bits >= 0x8000_0000 {
                    0x8000_0000 - s.bits
                } else {
                    s.bits as int
                };
            let rises = |input: Sample, prev: Sample|
                input.bits as int % 0x8000_0000 <= 0x7f80_0000 && prev.bits as int % 0x8000_0000
                    <= 0x7f80_0000 && key(prev) < key(input);
            &&& rises(left, levels.l) ==> after.l == blend(left, attack_coeff, levels.l)
            &&& !rises(left, levels.l) ==> after.l == blend(left, release_coeff, levels.l)
            &&& rises(right, levels.r) ==> after.r == blend(right, attack_coeff, levels.r)
            &&& !rises(right, levels.r) ==> after.r == blend(right, release_coeff, levels.r)
        }),
        levels_after(levels, Seq::empty(), attack_coeff, release_coeff, blend) == levels,
{
    let frames = seq![(l, r)];
    assert(frames.drop_last() =~= Seq::empty());
    assert(levels_after(levels, frames.drop_last(), attack_coeff, release_coeff, blend) == levels);
    assert(frames.last() == (l, r));
    abs_keeps_all_other_bits(l);
    abs_keeps_all_other_bits(r);
    order_is_by_bits(levels.l, l.abs_spec());
    order_is_by_bits(levels.r, r.abs_spec());
}

/// What one more frame does to the levels that the frames before it have led to.
pub proof fn each_frame_moves_the_levels(
    levels: Stereo,
    frames: Seq<(Sample, Sample)>,
    l: Sample,
    r: Sample,
    attack_coeff: Sample,
    release_coeff: Sample,
    blend: spec_fn(Sample, Sample, Sample) -> Sample,
)
    ensures
        levels_after(levels, frames.push((l, r)), attack_coeff, release_coeff, blend)
            == levels_after(
            levels_after(levels, frames, attack_coeff, release_coeff, blend),
            seq![(l, r)],
            attack_coeff,
            release_coeff,
            blend,
        ),
{
    levels_add_up(levels, frames, seq![(l, r)], attack_coeff, release_coeff, blend);
    assert(frames.push((l, r)) =~= frames + seq![(l, r)]);
}

/// Where the amplitudes of frame `i` come from: the left one from the first value of
/// the frame, the right one from the second, or from the first if there is no other.
pub proof fn frames_are_cut_from_the_data<T>(
    data: Seq<T>,
    channels: int,
    decode: spec_fn(T) -> Sample,
    i: int,
)
    requires
        channels > 0,
        0 <= i,
        (i + 1) * channels <= data.len(),
    ensures
        i < frames_of(data, channels, decode).len(),
        frames_of(data, channels, decode)[i].0 == decode(data[i * channels]),
        channels == 1 ==> frames_of(data, channels, decode)[i].1 == decode(data[i]),
        channels >= 2 ==> frames_of(data, channels, decode)[i].1 == decode(data[i * channels + 1]),
{
    assert(data.len() as int / channels >= i + 1) by (nonlinear_arith)
        requires
            (i + 1) * channels <= data.len(),
            channels > 0,
    ;
    if channels == 1 {
        assert(i * channels == i);
    }
}

/// There are as many frames as fit into the data in full.
pub proof fn frames_are_full<T>(data: Seq<T>, channels: int, decode: spec_fn(T) -> Sample)
    requires
        channels > 0,
    ensures
        frames_of(data, channels, decode).len() * channels <= data.len(),
        data.len() < (frames_of(data, channels, decode).len() + 1) * channels,
{
    let n = data.len() as int;
    vstd::arithmetic::div_mod::lemma_fundamental_div_mod(n, channels);
    vstd::arithmetic::div_mod::lemma_mod_bound(n, channels);
    let q = n / channels;
    assert(q >= 0) by (nonlinear_arith)
        requires
            q == n / channels,
            n >= 0,
            channels > 0,
    ;
    assert(q * channels == channels * q && (q + 1) * channels == channels * q + channels)
        by (nonlinear_arith);
}

/// The frames take turns on the way to the output: left, right, left, right.
pub proof fn sides_take_turns(frames: Seq<(Sample, Sample)>, i: int)
    ensures
        interleaved(frames).len() == 2 * frames.len(),
        0 <= i < frames.len() ==> {
            &&& interleaved(frames)[2 * i] == frames[i].0.bits
            &&& interleaved(frames)[2 * i + 1] == frames[i].1.bits
        },
{
}

/// What becomes of frames that a tap takes. If there is an output, its queue is
/// offered both sides of every frame, left before right, behind everything that it
/// was offered before. The queue of the scope is offered one word for each point that
/// the frames complete, with the codes of its extremes.
pub proof fn a_tap_passes_frames_on(
    before: FrameTap,
    after: FrameTap,
    frames: Seq<(Sample, Sample)>,
    i: int,
    k: int,
)
    requires
        before.took(after, frames),
    ensures
        before.passthrough is Some <==> after.passthrough is Some,
        before.passthrough is Some ==> {
            let old = sample_offers(before.passthrough->0);
            let new = sample_offers(after.passthrough->0);
            &&& new.len() == old.len() + 2 * frames.len()
            &&& new.take(old.len() as int) == old
            &&& 0 <= i < frames.len() ==> {
                &&& new[old.len() + 2 * i].0 == frames[i].0.bits
                &&& new[old.len() + 2 * i + 1].0 == frames[i].1.bits
                &&& !new[old.len() + 2 * i].1 ==> taken(new.take(old.len() + 2 * i)).len()
                    >= sample_capacity(before.passthrough->0)
                &&& !new[old.len() + 2 * i + 1].1 ==> taken(new.take(old.len() + 2 * i + 1)).len()
                    >= sample_capacity(before.passthrough->0)
            }
            &&& sample_capacity(after.passthrough->0) == sample_capacity(before.passthrough->0)
            &&& samples_in(after.passthrough->0) == samples_in(before.passthrough->0)
        },
        ({
            let old = point_offers(before.points);
            let new = point_offers(after.points);
            let e = completed(before.bin, frames)[k];
            &&& new.len() == old.len() + completed(before.bin, frames).len()
            &&& new.take(old.len() as int) == old
            &&& 0 <= k < completed(before.bin, frames).len() ==> {
                &&& point_of(new[old.len() + k].0) == (
                    MinMax { min: code_for(e.lmin), max: code_for(e.lmax) },
                    MinMax { min: code_for(e.rmin), max: code_for(e.rmax) },
                )
                &&& !new[old.len() + k].1 ==> taken(new.take(old.len() + k)).len()
                    >= point_capacity(before.points)
            }
            &&& point_capacity(after.points) == point_capacity(before.points)
            &&& points_in(after.points) == points_in(before.points)
        }),
        after.bin == bin_after(before.bin, frames),
{
    words_hold_the_extremes(completed(before.bin, frames)[k]);
}

/// The bin of a tap after frames, and the points that it has completed, frame by
/// frame.
pub proof fn a_bin_goes_from_frame_to_frame(
    bin: ScopeBin,
    frames: Seq<(Sample, Sample)>,
    l: Sample,
    r: Sample,
)
    ensures
        bin_after(bin, Seq::empty()) == bin,
        completed(bin, Seq::empty()) == Seq::<Extremes>::empty(),
        bin_after(bin, frames.push((l, r))) == bin_after(bin, frames).after(l, r),
        completed(bin, frames.push((l, r))) == (if bin_after(bin, frames).target_samples
            <= bin_after(bin, frames).count + 1 {
            completed(bin, frames).push(bin_after(bin, frames).taking(l, r))
        } else {
            completed(bin, frames)
        }),
{
    assert(frames.push((l, r)).drop_last() =~= frames);
}

} // verus!
