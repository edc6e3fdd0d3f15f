//! Bounded single-producer, single-consumer queues that carry data out of the
//! audio callbacks without locking: scope points towards the display, and
//! samples towards the output device.
//!
//! The two ends of a queue usually live on different threads, so what a queue
//! holds at a given moment is not a property of either end. What an end has
//! done is: the writing end is described by the items that it has offered so
//! far, each with whether the queue had room for it, the reading end by what it
//! has been given so far, `None` standing for each time the queue was empty.
//!
//! What ties the two ends together is the line of a queue: the items that it
//! takes over its whole life, numbered from 0 in the order in which it takes
//! them. Both ends have the same line. The writing end adds to it and the reading
//! end goes along it, so the first item in is the first one out.

use ringbuf::traits::{Consumer, Producer, Split};
use ringbuf::{HeapCons, HeapProd, HeapRb};
use vstd::prelude::*;

verus! {

/// The writing end of a queue of packed scope points.
#[verifier::external_body]
pub struct PointProducer {
    inner: HeapProd<u64>,
}

/// The reading end of a queue of packed scope points.
#[verifier::external_body]
pub struct PointConsumer {
    inner: HeapCons<u64>,
}

/// The writing end of a queue of sample bit patterns.
#[verifier::external_body]
pub struct SampleProducer {
    inner: HeapProd<u32>,
}

/// The reading end of a queue of sample bit patterns.
#[verifier::external_body]
pub struct SampleConsumer {
    inner: HeapCons<u32>,
}

/// The points that this end has offered, oldest first, each with whether the
/// queue took it.
pub uninterp spec fn point_offers(producer: PointProducer) -> Seq<(u64, bool)>;

/// The number of points that the queue of this end has room for.
pub uninterp spec fn point_capacity(producer: PointProducer) -> nat;

/// What this end has been given, oldest first.
pub uninterp spec fn point_pulls(consumer: PointConsumer) -> Seq<Option<u64>>;

/// The line of the queue that this end writes to.
pub uninterp spec fn points_in(producer: PointProducer) -> Map<nat, u64>;

/// The line of the queue that this end reads from.
pub uninterp spec fn points_out(consumer: PointConsumer) -> Map<nat, u64>;

/// The samples that this end has offered, oldest first, each with whether the
/// queue took it.
pub uninterp spec fn sample_offers(producer: SampleProducer) -> Seq<(u32, bool)>;

/// The number of samples that the queue of this end has room for.
pub uninterp spec fn sample_capacity(producer: SampleProducer) -> nat;

/// What this end has been given, oldest first.
pub uninterp spec fn sample_pulls(consumer: SampleConsumer) -> Seq<Option<u32>>;

/// The line of the queue that this end writes to.
pub uninterp spec fn samples_in(producer: SampleProducer) -> Map<nat, u32>;

/// The line of the queue that this end reads from.
pub uninterp spec fn samples_out(consumer: SampleConsumer) -> Map<nat, u32>;

/// The items that were taken, out of the given offers.
#[verifier::opaque]
pub open spec fn taken<A>(offers: Seq<(A, bool)>) -> Seq<A>
    decreases offers.len(),
{
    if offers.len() == 0 {
        Seq::empty()
    } else if offers.last().1 {
        taken(offers.drop_last()).push(offers.last().0)
    } else {
        taken(offers.drop_last())
    }
}

/// The items among what a reading end was given.
#[verifier::opaque]
pub open spec fn received<A>(pulls: Seq<Option<A>>) -> Seq<A>
    decreases pulls.len(),
{
    if pulls.len() == 0 {
        Seq::empty()
    } else {
        match pulls.last() {
            Some(item) => received(pulls.drop_last()).push(item),
            None => received(pulls.drop_last()),
        }
    }
}

/// Between `before` and `after` exactly `items` were offered, in this order. An
/// offer is not refused before the queue has taken as many items as it has room
/// for, and an item that is taken is the next one on the line.
pub open spec fn offered<A>(
    before: Seq<(A, bool)>,
    after: Seq<(A, bool)>,
    items: Seq<A>,
    capacity: nat,
    line: Map<nat, A>,
) -> bool {
    &&& after.len() == before.len() + items.len()
    &&& after.take(before.len() as int) == before
    &&& forall|k: int|
        before.len() <= k < after.len() ==> {
            let ahead = taken(after.take(k)).len();
            &&& (#[trigger] after[k]).0 == items[k - before.len()]
            &&& ahead < capacity ==> after[k].1
            &&& after[k].1 ==> line[ahead] == after[k].0
        }
}

/// Between `before` and `after` a reading end only asked for more, and every item
/// that it was given is the next one on the line.
pub open spec fn pulled<A>(
    before: Seq<Option<A>>,
    after: Seq<Option<A>>,
    line: Map<nat, A>,
) -> bool {
    &&& before.len() <= after.len()
    &&& after.take(before.len() as int) == before
    &&& forall|k: int|
        before.len() <= k < after.len() && (#[trigger] after[k]) is Some ==> line[received(
            after.take(k),
        ).len()] == after[k]->0
}

/// Offering nothing changes nothing.
pub(crate) proof fn nothing_offered<A>(
    offers: Seq<(A, bool)>,
    capacity: nat,
    line: Map<nat, A>,
)
    ensures
        offered(offers, offers, Seq::<A>::empty(), capacity, line),
{
    assert(offers.take(offers.len() as int) =~= offers);
}

/// One offer, as a single attempt reports it.
pub(crate) proof fn one_offered<A>(
    before: Seq<(A, bool)>,
    after: Seq<(A, bool)>,
    item: A,
    took: bool,
    capacity: nat,
    line: Map<nat, A>,
)
    requires
        after == before.push((item, took)),
        taken(before).len() < capacity ==> took,
        took ==> line[taken(before).len()] == item,
    ensures
        offered(before, after, seq![item], capacity, line),
{
    assert(after.take(before.len() as int) =~= before);
}

/// Asking for nothing changes nothing.
pub(crate) proof fn nothing_pulled<A>(pulls: Seq<Option<A>>, line: Map<nat, A>)
    ensures
        pulled(pulls, pulls, line),
{
    assert(pulls.take(pulls.len() as int) =~= pulls);
}

/// One more attempt to read.
pub(crate) proof fn one_more_pulled<A>(
    start: Seq<Option<A>>,
    before: Seq<Option<A>>,
    after: Seq<Option<A>>,
    given: Option<A>,
    line: Map<nat, A>,
)
    requires
        pulled(start, before, line),
        after == before.push(given),
        given is Some ==> line[received(before).len()] == given->0,
    ensures
        pulled(start, after, line),
{
    assert(after.take(start.len() as int) =~= before.take(start.len() as int));
    assert forall|k: int| start.len() <= k < after.len() && (#[trigger] after[k]) is Some implies line[
    received(after.take(k)).len()] == after[k]->0 by {
        if k < before.len() {
            assert(before[k] == after[k]);
            assert(after.take(k) =~= before.take(k));
        } else {
            assert(after.take(k) =~= before);
        }
    }
}

/// Offers made one after the other add up.
pub proof fn offers_add_up<A>(
    a: Seq<(A, bool)>,
    b: Seq<(A, bool)>,
    c: Seq<(A, bool)>,
    first: Seq<A>,
    second: Seq<A>,
    capacity: nat,
    line: Map<nat, A>,
)
    requires
        offered(a, b, first, capacity, line),
        offered(b, c, second, capacity, line),
    ensures
        offered(a, c, first + second, capacity, line),
{
    assert forall|i: int| 0 <= i < b.len() implies c[i] == b[i] by {
        assert(c.take(b.len() as int)[i] == c[i]);
    }
    assert(c.take(a.len() as int) =~= b.take(a.len() as int));
    assert forall|k: int| a.len() <= k < c.len() implies {
        let ahead = taken(c.take(k)).len();
        &&& (#[trigger] c[k]).0 == (first + second)[k - a.len()]
        &&& ahead < capacity ==> c[k].1
        &&& c[k].1 ==> line[ahead] == c[k].0
    } by {
        if k < b.len() {
            assert(b[k] == c[k]);
            assert(c.take(k) =~= b.take(k));
        }
    }
}

/// Reads made one after the other add up.
pub proof fn pulls_add_up<A>(
    a: Seq<Option<A>>,
    b: Seq<Option<A>>,
    c: Seq<Option<A>>,
    line: Map<nat, A>,
)
    requires
        pulled(a, b, line),
        pulled(b, c, line),
    ensures
        pulled(a, c, line),
{
    assert(c.take(a.len() as int) =~= b.take(a.len() as int)) by {
        assert forall|i: int| 0 <= i < b.len() implies c[i] == b[i] by {
            assert(c.take(b.len() as int)[i] == c[i]);
        }
    }
    assert forall|k: int| a.len() <= k < c.len() && (#[trigger] c[k]) is Some implies line[received(
        c.take(k),
    ).len()] == c[k]->0 by {
        if k < b.len() {
            assert(c.take(b.len() as int)[k] == c[k]);
            assert(b[k] == c[k]);
            assert(c.take(k) =~= b.take(k)) by {
                assert forall|i: int| 0 <= i < k implies c[i] == b[i] by {
                    assert(c.take(b.len() as int)[i] == c[i]);
                }
            }
        }
    }
}

/// As long as a new queue has been offered no more items than it has room for,
/// it has taken every one of them.
pub proof fn nothing_is_dropped_while_there_is_room<A>(
    offers: Seq<(A, bool)>,
    items: Seq<A>,
    capacity: nat,
    line: Map<nat, A>,
)
    requires
        offered(Seq::empty(), offers, items, capacity, line),
        items.len() <= capacity,
    ensures
        taken(offers) == items,
    decreases items.len(),
{
    reveal(taken);
    if items.len() > 0 {
        let n = offers.len() - 1;
        fewer_offered(offers, items, capacity, line);
        nothing_is_dropped_while_there_is_room(
            offers.drop_last(),
            items.drop_last(),
            capacity,
            line,
        );
        assert(offers.take(n) =~= offers.drop_last());
        assert(offers[n].1);
        assert(taken(offers) =~= items);
    } else {
        assert(taken(offers) =~= items);
    }
}

/// What a new queue was offered, without the last offer.
proof fn fewer_offered<A>(
    offers: Seq<(A, bool)>,
    items: Seq<A>,
    capacity: nat,
    line: Map<nat, A>,
)
    requires
        offered(Seq::empty(), offers, items, capacity, line),
        items.len() > 0,
    ensures
        offered(Seq::empty(), offers.drop_last(), items.drop_last(), capacity, line),
{
    let shorter = offers.drop_last();
    assert(shorter.take(0) =~= Seq::empty());
    assert forall|k: int| 0 <= k < shorter.len() implies {
        let ahead = taken(shorter.take(k)).len();
        &&& (#[trigger] shorter[k]).0 == items.drop_last()[k]
        &&& ahead < capacity ==> shorter[k].1
        &&& shorter[k].1 ==> line[ahead] == shorter[k].0
    } by {
        assert(shorter[k] == offers[k]);
        assert(shorter.take(k) =~= offers.take(k));
    }
}

/// What a new queue takes is the line from its beginning.
pub(crate) proof fn taken_follows_the_line<A>(
    offers: Seq<(A, bool)>,
    items: Seq<A>,
    capacity: nat,
    line: Map<nat, A>,
    i: int,
)
    requires
        offered(Seq::empty(), offers, items, capacity, line),
        0 <= i < taken(offers).len(),
    ensures
        taken(offers)[i] == line[i as nat],
    decreases offers.len(),
{
    reveal(taken);
    let n = offers.len() - 1;
    assert(offers.take(n) =~= offers.drop_last());
    assert(offers[n] == offers.last());
    if i < taken(offers.drop_last()).len() {
        fewer_offered(offers, items, capacity, line);
        taken_follows_the_line(offers.drop_last(), items.drop_last(), capacity, line, i);
    }
}

/// What the reading end of a new queue is given is the line from its beginning.
proof fn received_follows_the_line<A>(pulls: Seq<Option<A>>, line: Map<nat, A>, i: int)
    requires
        pulled(Seq::empty(), pulls, line),
        0 <= i < received(pulls).len(),
    ensures
        received(pulls)[i] == line[i as nat],
    decreases pulls.len(),
{
    reveal(received);
    let n = pulls.len() - 1;
    let shorter = pulls.drop_last();
    assert(pulls.take(n) =~= shorter);
    assert(pulls[n] == pulls.last());
    if i < received(shorter).len() {
        assert(shorter.take(0) =~= Seq::empty());
        assert forall|k: int| 0 <= k < shorter.len() && (#[trigger] shorter[k]) is Some implies line[
        received(shorter.take(k)).len()] == shorter[k]->0 by {
            assert(shorter[k] == pulls[k]);
            assert(shorter.take(k) =~= pulls.take(k));
        }
        received_follows_the_line(shorter, line, i);
    }
}

/// First in, first out: the item that the reading end is given as number `i` is
/// the one that the queue took as number `i`. None is lost on the way, repeated or
/// overtaken.
pub proof fn first_in_first_out<A>(
    offers: Seq<(A, bool)>,
    items: Seq<A>,
    capacity: nat,
    pulls: Seq<Option<A>>,
    line: Map<nat, A>,
    i: int,
)
    requires
        offered(Seq::empty(), offers, items, capacity, line),
        pulled(Seq::empty(), pulls, line),
        0 <= i < taken(offers).len(),
        i < received(pulls).len(),
    ensures
        received(pulls)[i] == taken(offers)[i],
{
    taken_follows_the_line(offers, items, capacity, line, i);
    received_follows_the_line(pulls, line, i);
}

/// A read that found an item is one of those that count.
pub(crate) proof fn found_is_received<A>(pulls: Seq<Option<A>>, k: int)
    requires
        0 <= k < pulls.len(),
        pulls[k] is Some,
    ensures
        received(pulls.take(k)).len() < received(pulls).len(),
    decreases pulls.len(),
{
    reveal(received);
    let shorter = pulls.drop_last();
    if k < pulls.len() - 1 {
        found_is_received(shorter, k);
        assert(shorter.take(k) =~= pulls.take(k));
    } else {
        assert(pulls.take(k) =~= shorter);
    }
}

/// Where every read found an item, the items are what the reads gave.
pub(crate) proof fn all_received<A>(pulls: Seq<Option<A>>)
    requires
        forall|k: int| 0 <= k < pulls.len() ==> (#[trigger] pulls[k]) is Some,
    ensures
        received(pulls) == Seq::new(pulls.len(), |k: int| pulls[k]->0),
    decreases pulls.len(),
{
    reveal(received);
    if pulls.len() > 0 {
        let shorter = pulls.drop_last();
        assert forall|k: int| 0 <= k < shorter.len() implies (#[trigger] shorter[k]) is Some by {
            assert(shorter[k] == pulls[k]);
        }
        all_received(shorter);
        assert(pulls[pulls.len() - 1] is Some);
    }
    assert(received(pulls) =~= Seq::new(pulls.len(), |k: int| pulls[k]->0));
}

/// Trusted: `ringbuf::HeapRb::new`, which makes an empty ring buffer with
/// exactly the given room and panics if that is zero or too large to allocate,
/// followed by `split`, which hands out the two ends of it. Neither end has done
/// anything yet, and both have the line of the one buffer.
#[verifier::external_body]
pub(crate) fn point_queue(capacity: usize) -> (ends: (PointProducer, PointConsumer))
    requires
        0 < capacity <= usize::MAX / 16,
    ensures
        point_offers(ends.0) == Seq::<(u64, bool)>::empty(),
        point_capacity(ends.0) == capacity,
        point_pulls(ends.1) == Seq::<Option<u64>>::empty(),
        points_in(ends.0) == points_out(ends.1),
{
    let (producer, consumer) = HeapRb::<u64>::new(capacity).split();
    (PointProducer { inner: producer }, PointConsumer { inner: consumer })
}

/// Trusted: `ringbuf::HeapRb::new` and `split`, as for [`point_queue`].
#[verifier::external_body]
pub(crate) fn sample_queue(capacity: usize) -> (ends: (SampleProducer, SampleConsumer))
    requires
        0 < capacity <= usize::MAX / 8,
    ensures
        sample_offers(ends.0) == Seq::<(u32, bool)>::empty(),
        sample_capacity(ends.0) == capacity,
        sample_pulls(ends.1) == Seq::<Option<u32>>::empty(),
        samples_in(ends.0) == samples_out(ends.1),
{
    let (producer, consumer) = HeapRb::<u32>::new(capacity).split();
    (SampleProducer { inner: producer }, SampleConsumer { inner: consumer })
}

impl PointProducer {
    /// Trusted: `ringbuf::traits::Producer::try_push`. It takes the item, or
    /// gives it back when the ring buffer is full. The buffer cannot be full
    /// before it has taken as many items as it has room for. An item that it
    /// takes comes behind those that it took before. When a full buffer has room
    /// again depends on the reading end: the contract does not say it.
    #[verifier::external_body]
    fn try_push(&mut self, point: u64) -> (pushed: Result<(), u64>)
        ensures
            point_capacity(*final(self)) == point_capacity(*old(self)),
            points_in(*final(self)) == points_in(*old(self)),
            match pushed {
                Ok(_) => {
                    &&& point_offers(*final(self)) == point_offers(*old(self)).push((point, true))
                    &&& points_in(*old(self))[taken(point_offers(*old(self))).len()] == point
                },
                Err(back) => {
                    &&& back == point
                    &&& point_offers(*final(self)) == point_offers(*old(self)).push((point, false))
                    &&& taken(point_offers(*old(self))).len() >= point_capacity(*old(self))
                },
            },
    {
        self.inner.try_push(point)
    }

    /// Offers one item to the queue, which drops it if there is no room.
    pub fn offer(&mut self, point: u64)
        ensures
            point_capacity(*final(self)) == point_capacity(*old(self)),
            points_in(*final(self)) == points_in(*old(self)),
            offered(
                point_offers(*old(self)),
                point_offers(*final(self)),
                seq![point],
                point_capacity(*old(self)),
                points_in(*old(self)),
            ),
    {
        let pushed: Result<(), u64> = self.try_push(point);
        proof {
            one_offered(
                point_offers(*old(self)),
                point_offers(*self),
                point,
                pushed is Ok,
                point_capacity(*old(self)),
                points_in(*old(self)),
            );
        }
    }
}

impl PointConsumer {
    /// Trusted: `ringbuf::traits::Consumer::try_pop`. It takes the oldest item
    /// out, or returns `None` when there is none. The oldest item is the one that
    /// was taken next after those that have been read. Whether there is one
    /// depends on how far the writing end has got by then, possibly on another
    /// thread: the contract does not say it.
    #[verifier::external_body]
    pub(crate) fn try_pop(&mut self) -> (point: Option<u64>)
        ensures
            point_pulls(*final(self)) == point_pulls(*old(self)).push(point),
            points_out(*final(self)) == points_out(*old(self)),
            point is Some ==> points_out(*old(self))[received(point_pulls(*old(self))).len()]
                == point->0,
    {
        self.inner.try_pop()
    }
}

impl SampleProducer {
    /// Trusted: `ringbuf::traits::Producer::try_push`, as for
    /// [`PointProducer::try_push`].
    #[verifier::external_body]
    fn try_push(&mut self, bits: u32) -> (pushed: Result<(), u32>)
        ensures
            sample_capacity(*final(self)) == sample_capacity(*old(self)),
            samples_in(*final(self)) == samples_in(*old(self)),
            match pushed {
                Ok(_) => {
                    &&& sample_offers(*final(self)) == sample_offers(*old(self)).push((bits, true))
                    &&& samples_in(*old(self))[taken(sample_offers(*old(self))).len()] == bits
                },
                Err(back) => {
                    &&& back == bits
                    &&& sample_offers(*final(self)) == sample_offers(*old(self)).push((bits, false))
                    &&& taken(sample_offers(*old(self))).len() >= sample_capacity(*old(self))
                },
            },
    {
        self.inner.try_push(bits)
    }

    /// Offers one item to the queue, which drops it if there is no room.
    pub fn offer(&mut self, bits: u32)
        ensures
            sample_capacity(*final(self)) == sample_capacity(*old(self)),
            samples_in(*final(self)) == samples_in(*old(self)),
            offered(
                sample_offers(*old(self)),
                sample_offers(*final(self)),
                seq![bits],
                sample_capacity(*old(self)),
                samples_in(*old(self)),
            ),
    {
        let pushed: Result<(), u32> = self.try_push(bits);
        proof {
            one_offered(
                sample_offers(*old(self)),
                sample_offers(*self),
                bits,
                pushed is Ok,
                sample_capacity(*old(self)),
                samples_in(*old(self)),
            );
        }
    }
}

impl SampleConsumer {
    /// Trusted: `ringbuf::traits::Consumer::try_pop`, as for
    /// [`PointConsumer::try_pop`].
    #[verifier::external_body]
    pub(crate) fn try_pop(&mut self) -> (bits: Option<u32>)
        ensures
            sample_pulls(*final(self)) == sample_pulls(*old(self)).push(bits),
            samples_out(*final(self)) == samples_out(*old(self)),
            bits is Some ==> samples_out(*old(self))[received(sample_pulls(*old(self))).len()]
                == bits->0,
    {
        self.inner.try_pop()
    }
}

/// What is taken and what is received, one step at a time: an offer that is taken
/// comes last, one that is refused leaves no trace, and neither does a read that finds
/// nothing.
pub proof fn steps_are_counted<A>(offers: Seq<(A, bool)>, pulls: Seq<Option<A>>, item: A)
    ensures
        taken(Seq::<(A, bool)>::empty()) == Seq::<A>::empty(),
        taken(offers.push((item, true))) == taken(offers).push(item),
        taken(offers.push((item, false))) == taken(offers),
        received(Seq::<Option<A>>::empty()) == Seq::<A>::empty(),
        received(pulls.push(Some(item))) == received(pulls).push(item),
        received(pulls.push(None)) == received(pulls),
{
    reveal(taken);
    reveal(received);
    assert(offers.push((item, true)).drop_last() =~= offers);
    assert(offers.push((item, false)).drop_last() =~= offers);
    assert(pulls.push(Some(item)).drop_last() =~= pulls);
    assert(pulls.push(None).drop_last() =~= pulls);
}

/// What was offered before stays as it was, the new items follow in their order, and
/// one is refused only if the queue has taken as many as it has room for.
pub proof fn offers_are_in_order<A>(
    before: Seq<(A, bool)>,
    after: Seq<(A, bool)>,
    items: Seq<A>,
    capacity: nat,
    line: Map<nat, A>,
    i: int,
    k: int,
)
    requires
        offered(before, after, items, capacity, line),
    ensures
        after.len() == before.len() + items.len(),
        0 <= i < before.len() ==> after[i] == before[i],
        0 <= k < items.len() ==> {
            &&& after[before.len() + k].0 == items[k]
            &&& !after[before.len() + k].1 ==> taken(after.take(before.len() + k)).len() >= capacity
        },
{
    if 0 <= i < before.len() {
        assert(after.take(before.len() as int)[i] == after[i]);
    }
}

/// What was read before stays as it was.
pub proof fn reads_are_kept<A>(
    before: Seq<Option<A>>,
    after: Seq<Option<A>>,
    line: Map<nat, A>,
    i: int,
)
    requires
        pulled(before, after, line),
    ensures
        after.len() >= before.len(),
        0 <= i < before.len() ==> after[i] == before[i],
{
    if 0 <= i < before.len() {
        assert(after.take(before.len() as int)[i] == after[i]);
    }
}

} // verus!
