//! Scope points: the extremes of a run of frames, how they are collected in
//! the audio callback, and the history that the display keeps of them.

use crate::codes::{code_for, f32_to_i16};
use crate::packing::{
    pack_scope_point, point_of, point_round_trip, point_word, unpack_scope_point, MinMax,
};
use crate::queue::{
    nothing_offered, nothing_pulled, offered, one_more_pulled, point_capacity, point_offers,
    point_pulls, points_in, points_out, pulled, received, PointConsumer, PointProducer,
};
use crate::sample::Sample;
use std::collections::VecDeque;
use vstd::prelude::*;

verus! {

/// How many scope points of each channel the display keeps.
pub const SCOPE_HISTORY_CAPACITY: usize = 4096;

/// The extremes of both channels over the frames of one scope point.
#[derive(Clone, Copy, Debug, PartialEq, Eq, Structural)]
pub struct Extremes {
    /// The lowest amplitude on the left.
    pub lmin: Sample,
    /// The highest amplitude on the left.
    pub lmax: Sample,
    /// The lowest amplitude on the right.
    pub rmin: Sample,
    /// The highest amplitude on the right.
    pub rmax: Sample,
}

impl Extremes {
    /// The extremes of a single frame.
    pub open spec fn of(l: Sample, r: Sample) -> Extremes {
        Extremes { lmin: l, lmax: l, rmin: r, rmax: r }
    }

    /// The extremes with one more frame taken in.
    pub open spec fn widened(self, l: Sample, r: Sample) -> Extremes {
        Extremes {
            lmin: self.lmin.lesser_spec(l),
            lmax: self.lmax.greater_spec(l),
            rmin: self.rmin.lesser_spec(r),
            rmax: self.rmax.greater_spec(r),
        }
    }

    /// The extremes on the left, as codes.
    pub open spec fn left(self) -> MinMax {
        MinMax { min: code_for(self.lmin), max: code_for(self.lmax) }
    }

    /// The extremes on the right, as codes.
    pub open spec fn right(self) -> MinMax {
        MinMax { min: code_for(self.rmin), max: code_for(self.rmax) }
    }

    /// The word that stands for these extremes once each of them has been turned
    /// into a code.
    pub open spec fn word(self) -> u64 {
        point_word(self.left(), self.right()) as u64
    }
}

/// Collects frames until a scope point is complete.
#[derive(Clone, Copy, Debug, PartialEq, Eq, Structural)]
pub struct ScopeBin {
    /// How many frames make up a point.
    pub target_samples: u32,
    /// How many frames have come in since the last point.
    pub count: u32,
    /// The extremes of these frames; of no meaning while there are none.
    pub extremes: Extremes,
}

impl ScopeBin {
    /// A bin never holds as many frames as it takes to complete a point.
    pub open spec fn wf(self) -> bool {
        self.count == 0 || self.count < self.target_samples
    }

    /// The extremes with one more frame taken in.
    pub open spec fn taking(self, l: Sample, r: Sample) -> Extremes {
        if self.count == 0 {
            Extremes::of(l, r)
        } else {
            self.extremes.widened(l, r)
        }
    }

    /// Whether the next frame completes a point.
    pub open spec fn completes(self) -> bool {
        self.count + 1 >= self.target_samples
    }

    /// The words that one more frame adds to what the bin has given out.
    pub open spec fn emits(self, l: Sample, r: Sample) -> Seq<u64> {
        if self.completes() {
            seq![self.taking(l, r).word()]
        } else {
            Seq::empty()
        }
    }

    /// The bin after one more frame.
    pub open spec fn after(self, l: Sample, r: Sample) -> ScopeBin {
        ScopeBin {
            target_samples: self.target_samples,
            count: if self.completes() {
                0
            } else {
                (self.count + 1) as u32
            },
            extremes: self.taking(l, r),
        }
    }

    /// An empty bin.
    pub fn new(target_samples: u32) -> (bin: ScopeBin)
        ensures
            bin.wf(),
            bin.target_samples == target_samples,
            bin.count == 0,
            bin.extremes == Extremes::of(Sample { bits: 0 }, Sample { bits: 0 }),
    {
        let zero: Sample = Sample::zero();
        ScopeBin {
            target_samples,
            count: 0,
            extremes: Extremes { lmin: zero, lmax: zero, rmin: zero, rmax: zero },
        }
    }

    /// Takes one frame in, and returns the extremes of a point that this
    /// completes.
    pub fn collect(&mut self, l: Sample, r: Sample) -> (complete: Option<Extremes>)
        requires
            old(self).wf(),
        ensures
            final(self).wf(),
            *final(self) == old(self).after(l, r),
            complete == (if old(self).completes() {
                Some(old(self).taking(l, r))
            } else {
                None
            }),
    {
        if self.count == 0 {
            self.extremes = Extremes { lmin: l, lmax: l, rmin: r, rmax: r };
        } else {
            self.extremes =
            Extremes {
                lmin: self.extremes.lmin.lesser(l),
                lmax: self.extremes.lmax.greater(l),
                rmin: self.extremes.rmin.lesser(r),
                rmax: self.extremes.rmax.greater(r),
            };
        }
        self.count = self.count + 1;
        if self.count >= self.target_samples {
            self.count = 0;
            Some(self.extremes)
        } else {
            None
        }
    }

    /// Takes one frame in. If that completes a point, the point is offered to
    /// the queue; a queue without room drops it.
    pub fn push_sample(&mut self, l: Sample, r: Sample, producer: &mut PointProducer)
        requires
            old(self).wf(),
        ensures
            final(self).wf(),
            *final(self) == old(self).after(l, r),
            point_capacity(*final(producer)) == point_capacity(*old(producer)),
            points_in(*final(producer)) == points_in(*old(producer)),
            offered(
                point_offers(*old(producer)),
                point_offers(*final(producer)),
                old(self).emits(l, r),
                point_capacity(*old(producer)),
                points_in(*old(producer)),
            ),
    {
        proof {
            nothing_offered(
                point_offers(*producer),
                point_capacity(*producer),
                points_in(*producer),
            );
        }
        if let Some(extremes) = self.collect(l, r) {
            let lmin: i16 = f32_to_i16(extremes.lmin);
            let lmax: i16 = f32_to_i16(extremes.lmax);
            let rmin: i16 = f32_to_i16(extremes.rmin);
            let rmax: i16 = f32_to_i16(extremes.rmax);
            let packed: u64 = pack_scope_point(
                MinMax { min: lmin, max: lmax },
                MinMax { min: rmin, max: rmax },
            );
            producer.offer(packed);
        }
    }
}

/// The scope points that the display keeps, oldest first.
pub struct ScopeHistory {
    /// The points of the left channel.
    pub l: VecDeque<MinMax>,
    /// The points of the right channel.
    pub r: VecDeque<MinMax>,
}

/// A history with one more point: the oldest one makes room if there is more
/// than the history keeps.
pub open spec fn recorded(points: Seq<MinMax>, point: MinMax) -> Seq<MinMax> {
    let longer = points.push(point);
    if longer.len() > SCOPE_HISTORY_CAPACITY {
        longer.drop_first()
    } else {
        longer
    }
}

/// A left history after the points of the given words.
pub open spec fn left_after(points: Seq<MinMax>, words: Seq<u64>) -> Seq<MinMax>
    decreases words.len(),
{
    if words.len() == 0 {
        points
    } else {
        recorded(left_after(points, words.drop_last()), point_of(words.last()).0)
    }
}

/// A right history after the points of the given words.
pub open spec fn right_after(points: Seq<MinMax>, words: Seq<u64>) -> Seq<MinMax>
    decreases words.len(),
{
    if words.len() == 0 {
        points
    } else {
        recorded(right_after(points, words.drop_last()), point_of(words.last()).1)
    }
}

impl Default for ScopeHistory {
    fn default() -> (history: ScopeHistory)
        ensures
            history.l@ == Seq::<MinMax>::empty(),
            history.r@ == Seq::<MinMax>::empty(),
    {
        ScopeHistory { l: VecDeque::new(), r: VecDeque::new() }
    }
}

impl ScopeHistory {
    /// Adds the point that a word holds.
    pub fn record(&mut self, word: u64)
        ensures
            final(self).l@ == recorded(old(self).l@, point_of(word).0),
            final(self).r@ == recorded(old(self).r@, point_of(word).1),
    {
        let (l, r): (MinMax, MinMax) = unpack_scope_point(word);
        self.l.push_back(l);
        self.r.push_back(r);
        if self.l.len() > SCOPE_HISTORY_CAPACITY {
            let _ = self.l.pop_front();
        }
        if self.r.len() > SCOPE_HISTORY_CAPACITY {
            let _ = self.r.pop_front();
        }
        assert(self.l@ =~= recorded(old(self).l@, point_of(word).0));
        assert(self.r@ =~= recorded(old(self).r@, point_of(word).1));
    }
}

/// What the reading end of a queue is given when it takes `words` out and then,
/// if `emptied`, finds the queue empty.
pub open spec fn given(words: Seq<u64>, emptied: bool) -> Seq<Option<u64>> {
    let points = Seq::new(words.len(), |i: int| Some(words[i]));
    if emptied {
        points.push(None)
    } else {
        points
    }
}

/// Moves points from the queue into the history until the queue reports that
/// it is empty, at most `limit` of them; returns whether the queue did so.
pub fn drain_scope_queue(
    scope_cons: &mut PointConsumer,
    scope: &mut ScopeHistory,
    limit: usize,
) -> (emptied: bool)
    ensures
        points_out(*final(scope_cons)) == points_out(*old(scope_cons)),
        pulled(
            point_pulls(*old(scope_cons)),
            point_pulls(*final(scope_cons)),
            points_out(*old(scope_cons)),
        ),
        exists|words: Seq<u64>|
            {
                &&& point_pulls(*final(scope_cons)) == point_pulls(*old(scope_cons))
                    + #[trigger] given(words, emptied)
                &&& words.len() <= limit
                &&& !emptied ==> words.len() == limit
                &&& final(scope).l@ == left_after(old(scope).l@, words)
                &&& final(scope).r@ == right_after(old(scope).r@, words)
            },
{
    let ghost start = point_pulls(*scope_cons);
    let ghost mut words: Seq<u64> = Seq::empty();
    let mut done: usize = 0;
    proof {
        assert(start + given(words, false) =~= start);
        nothing_pulled(start, points_out(*scope_cons));
    }
    while done < limit
        invariant
            done <= limit,
            words.len() == done,
            start == point_pulls(*old(scope_cons)),
            points_out(*scope_cons) == points_out(*old(scope_cons)),
            pulled(start, point_pulls(*scope_cons), points_out(*scope_cons)),
            point_pulls(*scope_cons) == start + given(words, false),
            scope.l@ == left_after(old(scope).l@, words),
            scope.r@ == right_after(old(scope).r@, words),
        decreases limit - done,
    {
        let ghost before = point_pulls(*scope_cons);
        let popped: Option<u64> = scope_cons.try_pop();
        proof {
            one_more_pulled(
                start,
                before,
                point_pulls(*scope_cons),
                popped,
                points_out(*scope_cons),
            );
        }
        match popped {
            Some(packed) => {
                scope.record(packed);
                proof {
                    assert(point_pulls(*scope_cons) =~= start + given(words.push(packed), false));
                    assert(words.push(packed).drop_last() =~= words);
                    words = words.push(packed);
                }
                done += 1;
            },
            None => {
                assert(point_pulls(*scope_cons) =~= start + given(words, true));
                return true;
            },
        }
    }
    false
}

/// A bin after the given frames, each a left and a right amplitude.
pub open spec fn bin_after(bin: ScopeBin, frames: Seq<(Sample, Sample)>) -> ScopeBin
    decreases frames.len(),
{
    if frames.len() == 0 {
        bin
    } else {
        bin_after(bin, frames.drop_last()).after(frames.last().0, frames.last().1)
    }
}

/// The extremes of the points that the given frames complete, oldest first.
pub open spec fn completed(bin: ScopeBin, frames: Seq<(Sample, Sample)>) -> Seq<Extremes>
    decreases frames.len(),
{
    if frames.len() == 0 {
        Seq::empty()
    } else {
        let before = bin_after(bin, frames.drop_last());
        let points = completed(bin, frames.drop_last());
        if before.completes() {
            points.push(before.taking(frames.last().0, frames.last().1))
        } else {
            points
        }
    }
}

/// `e` holds the extremes of `frames`: no frame lies outside of them, each is
/// an amplitude that occurs, and a NaN is ignored wherever there is a number.
pub open spec fn bounds(e: Extremes, frames: Seq<(Sample, Sample)>) -> bool {
    &&& forall|i: int|
        0 <= i < frames.len() ==> {
            &&& !(#[trigger] frames[i]).0.below(e.lmin)
            &&& !e.lmax.below(frames[i].0)
            &&& !frames[i].1.below(e.rmin)
            &&& !e.rmax.below(frames[i].1)
            &&& !frames[i].0.is_nan() ==> !e.lmin.is_nan() && !e.lmax.is_nan()
            &&& !frames[i].1.is_nan() ==> !e.rmin.is_nan() && !e.rmax.is_nan()
        }
    &&& exists|i: int| 0 <= i < frames.len() && (#[trigger] frames[i]).0 == e.lmin
    &&& exists|i: int| 0 <= i < frames.len() && (#[trigger] frames[i]).0 == e.lmax
    &&& exists|i: int| 0 <= i < frames.len() && (#[trigger] frames[i]).1 == e.rmin
    &&& exists|i: int| 0 <= i < frames.len() && (#[trigger] frames[i]).1 == e.rmax
}

/// Taking one more frame in keeps extremes what they are.
proof fn widened_bounds(e: Extremes, frames: Seq<(Sample, Sample)>, l: Sample, r: Sample)
    requires
        bounds(e, frames),
    ensures
        bounds(e.widened(l, r), frames.push((l, r))),
{
    let more = frames.push((l, r));
    let w = e.widened(l, r);
    let n = frames.len() as int;
    assert(more[n] == (l, r));
    let a = choose|i: int| 0 <= i < frames.len() && (#[trigger] frames[i]).0 == e.lmin;
    let b = choose|i: int| 0 <= i < frames.len() && (#[trigger] frames[i]).0 == e.lmax;
    let c = choose|i: int| 0 <= i < frames.len() && (#[trigger] frames[i]).1 == e.rmin;
    let d = choose|i: int| 0 <= i < frames.len() && (#[trigger] frames[i]).1 == e.rmax;
    assert(more[a] == frames[a] && more[b] == frames[b] && more[c] == frames[c] && more[d]
        == frames[d]);
    assert forall|i: int| 0 <= i < more.len() implies {
        &&& !(#[trigger] more[i]).0.below(w.lmin)
        &&& !w.lmax.below(more[i].0)
        &&& !more[i].1.below(w.rmin)
        &&& !w.rmax.below(more[i].1)
        &&& !more[i].0.is_nan() ==> !w.lmin.is_nan() && !w.lmax.is_nan()
        &&& !more[i].1.is_nan() ==> !w.rmin.is_nan() && !w.rmax.is_nan()
    } by {
        if i < n {
            assert(more[i] == frames[i]);
        }
    }
}

/// The number of frames to a point; a target of 0 works like a target of 1.
pub open spec fn bucket(target_samples: u32) -> int {
    if target_samples == 0 {
        1
    } else {
        target_samples as int
    }
}

/// An empty bin cuts the frames into runs of equal length, completes one point
/// for each full run and no other, and holds the rest.
pub proof fn one_point_per_run(bin: ScopeBin, frames: Seq<(Sample, Sample)>)
    requires
        bin.count == 0,
    ensures
        bin_after(bin, frames).wf(),
        bin_after(bin, frames).count == frames.len() as int % bucket(bin.target_samples),
        completed(bin, frames).len() == frames.len() as int / bucket(bin.target_samples),
{
    runs_so_far(bin, frames);
}

/// Every point that a bin completes, starting empty, has the extremes of its own
/// run of frames.
pub proof fn points_cover_their_runs(bin: ScopeBin, frames: Seq<(Sample, Sample)>, k: int)
    requires
        bin.count == 0,
        0 <= k < frames.len() as int / bucket(bin.target_samples),
    ensures
        0 <= k < completed(bin, frames).len(),
        0 <= k * bucket(bin.target_samples) <= (k + 1) * bucket(bin.target_samples)
            <= frames.len(),
        bounds(
            completed(bin, frames)[k],
            frames.subrange(
                k * bucket(bin.target_samples),
                (k + 1) * bucket(bin.target_samples),
            ),
        ),
{
    runs_so_far(bin, frames);
    assert(run_is_covered(bin, frames, k));
}

/// The run under way: a bin that started empty holds the extremes of the frames
/// since its last point, if there are any, and its target never changes.
pub proof fn bin_covers_the_run_under_way(bin: ScopeBin, frames: Seq<(Sample, Sample)>)
    requires
        bin.count == 0,
    ensures
        bin_after(bin, frames).target_samples == bin.target_samples,
        bin_after(bin, frames).count == frames.len() as int % bucket(bin.target_samples),
        bin_after(bin, frames).count <= frames.len(),
        bin_after(bin, frames).count > 0 ==> bounds(
            bin_after(bin, frames).extremes,
            frames.skip(frames.len() - bin_after(bin, frames).count),
        ),
{
    runs_so_far(bin, frames);
    let n = frames.len() as int;
    let count = bin_after(bin, frames).count as int;
    vstd::arithmetic::div_mod::lemma_mod_decreases(frames.len(), bucket(bin.target_samples) as nat);
    assert(frames.skip(n - count) =~= frames.subrange(n - count, n));
}

/// Point `k` has the extremes of run `k`.
spec fn run_is_covered(bin: ScopeBin, frames: Seq<(Sample, Sample)>, k: int) -> bool {
    let t = bucket(bin.target_samples);
    &&& 0 <= k * t <= (k + 1) * t <= frames.len()
    &&& bounds(completed(bin, frames)[k], frames.subrange(k * t, (k + 1) * t))
}

proof fn runs_so_far(bin: ScopeBin, frames: Seq<(Sample, Sample)>)
    requires
        bin.count == 0,
    ensures
        ({
            let t = bucket(bin.target_samples);
            let n = frames.len() as int;
            let now = bin_after(bin, frames);
            &&& now.target_samples == bin.target_samples
            &&& now.wf()
            &&& now.count == n % t
            &&& completed(bin, frames).len() == n / t
            &&& now.count > 0 ==> bounds(now.extremes, frames.subrange(n - now.count, n))
            &&& forall|k: int| 0 <= k < n / t ==> #[trigger] run_is_covered(bin, frames, k)
        }),
    decreases frames.len(),
{
    let t = bucket(bin.target_samples);
    let n = frames.len() as int;
    if n == 0 {
        assert(0int % t == 0 && 0int / t == 0) by (nonlinear_arith)
            requires
                t > 0,
        ;
    } else {
        let earlier = frames.drop_last();
        let (l, r) = frames.last();
        runs_so_far(bin, earlier);
        let before = bin_after(bin, earlier);
        let c = before.count as int;
        let q = (n - 1) / t;
        vstd::arithmetic::div_mod::lemma_fundamental_div_mod(n - 1, t);
        vstd::arithmetic::div_mod::lemma_mod_bound(n - 1, t);
        assert(q * t == t * q) by (nonlinear_arith);
        assert((q + 1) * t == q * t + t) by (nonlinear_arith);
        assert(q >= 0) by (nonlinear_arith)
            requires
                q == (n - 1) / t,
                n >= 1,
                t > 0,
        ;
        let run = frames.subrange(n - 1 - c, n);
        assert(bounds(before.taking(l, r), run)) by {
            if c == 0 {
                assert(run =~= seq![(l, r)]);
                assert(run[0] == (l, r));
            } else {
                widened_bounds(before.extremes, earlier.subrange(n - 1 - c, n - 1), l, r);
                assert(run =~= earlier.subrange(n - 1 - c, n - 1).push((l, r)));
            }
        }
        if before.completes() {
            assert(c + 1 == t);
            vstd::arithmetic::div_mod::lemma_fundamental_div_mod_converse(n, t, q + 1, 0);
            assert(completed(bin, frames)[q] == before.taking(l, r));
            assert(q * t >= 0) by (nonlinear_arith)
                requires
                    q >= 0,
                    t > 0,
            ;
            assert(run_is_covered(bin, frames, q));
        } else {
            vstd::arithmetic::div_mod::lemma_fundamental_div_mod_converse(n, t, q, c + 1);
        }
        assert forall|k: int| 0 <= k < n / t implies #[trigger] run_is_covered(bin, frames, k) by {
            if k < q {
                assert(run_is_covered(bin, earlier, k));
                assert(completed(bin, frames)[k] == completed(bin, earlier)[k]);
                assert(frames.subrange(k * t, (k + 1) * t) =~= earlier.subrange(
                    k * t,
                    (k + 1) * t,
                ));
            }
        }
    }
}

/// The latest points of a sequence, as many as the history keeps.
pub open spec fn newest(points: Seq<MinMax>) -> Seq<MinMax> {
    if points.len() <= SCOPE_HISTORY_CAPACITY {
        points
    } else {
        points.skip(points.len() - SCOPE_HISTORY_CAPACITY)
    }
}

/// The history keeps the latest points of each channel, in the order in which they
/// came, and the same number of them for both channels if it starts that way.
pub proof fn history_keeps_the_newest(l: Seq<MinMax>, r: Seq<MinMax>, words: Seq<u64>)
    requires
        l.len() <= SCOPE_HISTORY_CAPACITY,
        r.len() <= SCOPE_HISTORY_CAPACITY,
    ensures
        left_after(l, words) == newest(
            l + Seq::new(words.len(), |i: int| point_of(words[i]).0),
        ),
        right_after(r, words) == newest(
            r + Seq::new(words.len(), |i: int| point_of(words[i]).1),
        ),
        left_after(l, words).len() <= SCOPE_HISTORY_CAPACITY,
        right_after(r, words).len() <= SCOPE_HISTORY_CAPACITY,
        l.len() == r.len() ==> left_after(l, words).len() == right_after(r, words).len(),
    decreases words.len(),
{
    let lefts = l + Seq::new(words.len(), |i: int| point_of(words[i]).0);
    let rights = r + Seq::new(words.len(), |i: int| point_of(words[i]).1);
    if words.len() == 0 {
        assert(lefts =~= l);
        assert(rights =~= r);
    } else {
        let earlier = words.drop_last();
        history_keeps_the_newest(l, r, earlier);
        assert(lefts =~= (l + Seq::new(earlier.len(), |i: int| point_of(earlier[i]).0)).push(
            point_of(words.last()).0,
        ));
        assert(rights =~= (r + Seq::new(earlier.len(), |i: int| point_of(earlier[i]).1)).push(
            point_of(words.last()).1,
        ));
        assert(left_after(l, words) =~= newest(lefts));
        assert(right_after(r, words) =~= newest(rights));
    }
}

/// Draining in two steps leaves what draining at once leaves.
pub proof fn draining_adds_up(points: Seq<MinMax>, first: Seq<u64>, second: Seq<u64>)
    ensures
        left_after(points, first + second) == left_after(left_after(points, first), second),
        right_after(points, first + second) == right_after(right_after(points, first), second),
    decreases second.len(),
{
    if second.len() == 0 {
        assert(first + second =~= first);
    } else {
        draining_adds_up(points, first, second.drop_last());
        assert((first + second).drop_last() =~= first + second.drop_last());
        assert((first + second).last() == second.last());
    }
}

/// What draining adds to the record of the reading end are the words that went
/// into the history.
proof fn drained_is_received(pulls: Seq<Option<u64>>, words: Seq<u64>, emptied: bool)
    ensures
        received(pulls + given(words, emptied)) == received(pulls) + words,
    decreases
        words.len() + if emptied {
            1nat
        } else {
            0nat
        },
{
    reveal(received);
    let all = pulls + given(words, emptied);
    if emptied {
        drained_is_received(pulls, words, false);
        assert(all.drop_last() =~= pulls + given(words, false));
    } else if words.len() > 0 {
        drained_is_received(pulls, words.drop_last(), false);
        assert(all.drop_last() =~= pulls + given(words.drop_last(), false));
        assert(received(all) =~= received(pulls) + words);
    } else {
        assert(all =~= pulls);
        assert(received(pulls) + words =~= received(pulls));
    }
}

/// The history is made of everything that came out of the queue: what holds of a
/// new history and a new queue goes on to hold whenever the queue is drained.
pub proof fn history_follows_the_queue(
    l: Seq<MinMax>,
    r: Seq<MinMax>,
    pulls: Seq<Option<u64>>,
    words: Seq<u64>,
    emptied: bool,
)
    requires
        l == left_after(Seq::empty(), received(pulls)),
        r == right_after(Seq::empty(), received(pulls)),
    ensures
        left_after(l, words) == left_after(
            Seq::empty(),
            received(pulls + given(words, emptied)),
        ),
        right_after(r, words) == right_after(
            Seq::empty(),
            received(pulls + given(words, emptied)),
        ),
{
    drained_is_received(pulls, words, emptied);
    draining_adds_up(Seq::empty(), received(pulls), words);
}

/// One more frame: a bin that waits for no more than this one gives a point and is
/// empty, any other counts it. The first frame of a run is its extremes. After that
/// each extreme is the old one or the new amplitude, and neither of them lies
/// outside of it.
pub proof fn a_bin_takes_a_frame(bin: ScopeBin, l: Sample, r: Sample)
    requires
        bin.count < u32::MAX,
    ensures
        bin.completes() <==> bin.target_samples <= bin.count + 1,
        bin.after(l, r).target_samples == bin.target_samples,
        bin.after(l, r).count == (if bin.target_samples <= bin.count + 1 {
            0
        } else {
            bin.count + 1
        }),
        bin.after(l, r).extremes == bin.taking(l, r),
        bin.count == 0 ==> bin.taking(l, r) == (Extremes { lmin: l, lmax: l, rmin: r, rmax: r }),
        bin.count > 0 ==> {
            let old = bin.extremes;
            let new = bin.taking(l, r);
            &&& new.lmin == old.lmin || new.lmin == l
            &&& new.lmax == old.lmax || new.lmax == l
            &&& new.rmin == old.rmin || new.rmin == r
            &&& new.rmax == old.rmax || new.rmax == r
            &&& !old.lmin.below(new.lmin) && !l.below(new.lmin)
            &&& !new.lmax.below(old.lmax) && !new.lmax.below(l)
            &&& !old.rmin.below(new.rmin) && !r.below(new.rmin)
            &&& !new.rmax.below(old.rmax) && !new.rmax.below(r)
            &&& new.lmin.is_nan() <==> old.lmin.is_nan() && l.is_nan()
            &&& new.lmax.is_nan() <==> old.lmax.is_nan() && l.is_nan()
            &&& new.rmin.is_nan() <==> old.rmin.is_nan() && r.is_nan()
            &&& new.rmax.is_nan() <==> old.rmax.is_nan() && r.is_nan()
        },
        bin.count == 0 ==> bin.wf(),
        bin.count < bin.target_samples ==> bin.wf(),
        bin.emits(l, r).len() == (if bin.target_samples <= bin.count + 1 {
            1int
        } else {
            0
        }),
        bin.target_samples <= bin.count + 1 ==> bin.emits(l, r)[0] == bin.taking(l, r).word(),
{
}

/// The word of extremes holds the code of each of them in its place.
pub proof fn words_hold_the_extremes(e: Extremes)
    ensures
        point_of(e.word()) == (
            MinMax { min: code_for(e.lmin), max: code_for(e.lmax) },
            MinMax { min: code_for(e.rmin), max: code_for(e.rmax) },
        ),
{
    point_round_trip(e.left(), e.right(), 0);
}

/// Every point has the extremes of its own run of frames, counted from the first one:
/// no amplitude of the run lies outside, and each extreme occurs in the run.
pub proof fn points_have_extremes_that_occur(
    bin: ScopeBin,
    frames: Seq<(Sample, Sample)>,
    t: int,
    k: int,
    j: int,
)
    requires
        bin.count == 0,
        t == bin.target_samples || (t == 1 && bin.target_samples == 0),
        t > 0,
        0 <= k,
        k * t <= j < (k + 1) * t <= frames.len(),
    ensures
        completed(bin, frames).len() == frames.len() as int / t,
        k < completed(bin, frames).len(),
        ({
            let e = completed(bin, frames)[k];
            &&& !frames[j].0.below(e.lmin) && !e.lmax.below(frames[j].0)
            &&& !frames[j].1.below(e.rmin) && !e.rmax.below(frames[j].1)
            &&& !frames[j].0.is_nan() ==> !e.lmin.is_nan() && !e.lmax.is_nan()
            &&& !frames[j].1.is_nan() ==> !e.rmin.is_nan() && !e.rmax.is_nan()
            &&& exists|i: int| k * t <= i < (k + 1) * t && (#[trigger] frames[i]).0 == e.lmin
            &&& exists|i: int| k * t <= i < (k + 1) * t && (#[trigger] frames[i]).0 == e.lmax
            &&& exists|i: int| k * t <= i < (k + 1) * t && (#[trigger] frames[i]).1 == e.rmin
            &&& exists|i: int| k * t <= i < (k + 1) * t && (#[trigger] frames[i]).1 == e.rmax
        }),
{
    assert(k < frames.len() as int / t) by (nonlinear_arith)
        requires
            (k + 1) * t <= frames.len(),
            t > 0,
    ;
    one_point_per_run(bin, frames);
    points_cover_their_runs(bin, frames, k);
    let e = completed(bin, frames)[k];
    let run = frames.subrange(k * t, (k + 1) * t);
    assert(run[j - k * t] == frames[j]);
    let a = choose|i: int| 0 <= i < run.len() && (#[trigger] run[i]).0 == e.lmin;
    let b = choose|i: int| 0 <= i < run.len() && (#[trigger] run[i]).0 == e.lmax;
    let c = choose|i: int| 0 <= i < run.len() && (#[trigger] run[i]).1 == e.rmin;
    let d = choose|i: int| 0 <= i < run.len() && (#[trigger] run[i]).1 == e.rmax;
    assert(frames[k * t + a].0 == e.lmin);
    assert(frames[k * t + b].0 == e.lmax);
    assert(frames[k * t + c].1 == e.rmin);
    assert(frames[k * t + d].1 == e.rmax);
}

/// The history, read from its end: the words come first, the latest one last, then
/// what was there before, and nothing else. It is never longer than 4096 points.
pub proof fn history_ends_with_the_latest(
    l: Seq<MinMax>,
    r: Seq<MinMax>,
    words: Seq<u64>,
    j: int,
)
    requires
        l.len() == r.len() <= 4096,
    ensures
        ({
            let left = left_after(l, words);
            let right = right_after(r, words);
            let n = (if l.len() + words.len() > 4096 {
                4096
            } else {
                (l.len() + words.len()) as int
            });
            &&& left.len() == n && right.len() == n
            &&& 0 <= j < n && j < words.len() ==> {
                &&& left[n - 1 - j] == point_of(words[words.len() - 1 - j]).0
                &&& right[n - 1 - j] == point_of(words[words.len() - 1 - j]).1
            }
            &&& words.len() <= j < n ==> {
                &&& left[n - 1 - j] == l[l.len() - 1 - (j - words.len())]
                &&& right[n - 1 - j] == r[r.len() - 1 - (j - words.len())]
            }
        }),
{
    history_keeps_the_newest(l, r, words);
}

/// One more point goes to the end, and the first one goes if there were 4096.
pub proof fn a_point_goes_to_the_end(points: Seq<MinMax>, point: MinMax, i: int)
    ensures
        recorded(points, point).last() == point,
        points.len() < 4096 ==> recorded(points, point).len() == points.len() + 1,
        points.len() < 4096 && 0 <= i < points.len() ==> recorded(points, point)[i] == points[i],
        points.len() >= 4096 ==> recorded(points, point).len() == points.len(),
        points.len() >= 4096 && 0 < i < points.len() ==> recorded(points, point)[i - 1]
            == points[i],
{
}

/// What draining reads: each word in its order, and then, if the queue was emptied,
/// one read that found nothing.
pub proof fn draining_reads_the_words(words: Seq<u64>, emptied: bool, i: int)
    ensures
        0 <= i < words.len() ==> given(words, emptied)[i] == Some(words[i]),
        given(words, true).len() == words.len() + 1,
        given(words, true).last() is None,
        given(words, false).len() == words.len(),
{
}

/// The history goes from word to word: each one adds its left point on the left and its
/// right point on the right.
pub proof fn history_goes_from_word_to_word(points: Seq<MinMax>, words: Seq<u64>, word: u64)
    ensures
        left_after(points, Seq::empty()) == points,
        right_after(points, Seq::empty()) == points,
        left_after(points, words.push(word)) == recorded(
            left_after(points, words),
            point_of(word).0,
        ),
        right_after(points, words.push(word)) == recorded(
            right_after(points, words),
            point_of(word).1,
        ),
{
    assert(words.push(word).drop_last() =~= words);
}

} // verus!
