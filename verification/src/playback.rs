//! The output callback: frames come out of a queue and are spread over the
//! channels of the output device.

use crate::function::{computes1, computes2, total1, total2};
use crate::capture::{frames_of, interleaved};
use crate::codes::{code_for, codes_come_back, fraction, symmetric};
use crate::queue::{
    all_received, first_in_first_out, found_is_received, nothing_is_dropped_while_there_is_room,
    nothing_pulled, offered, one_more_pulled, pulled, received, sample_pulls, samples_out, taken, taken_follows_the_line, SampleConsumer,
};
use crate::sample::{unit_cuts_off_at_one, Sample};
use vstd::prelude::*;

verus! {

/// The value of channel `channel` of an output frame: a single channel plays
/// what `mix` makes of both sides, otherwise left and right take turns.
pub open spec fn channel_value<T>(
    channels: int,
    channel: int,
    l: Sample,
    r: Sample,
    encode: spec_fn(Sample) -> T,
    mix: spec_fn(Sample, Sample) -> Sample,
) -> T {
    if channels == 1 {
        encode(mix(l, r))
    } else if channel % 2 == 0 {
        encode(l)
    } else {
        encode(r)
    }
}

/// An output frame of `n` channels.
pub open spec fn filled<T>(
    n: nat,
    l: Sample,
    r: Sample,
    encode: spec_fn(Sample) -> T,
    mix: spec_fn(Sample, Sample) -> Sample,
) -> Seq<T> {
    Seq::new(n, |c: int| channel_value(n as int, c, l, r, encode, mix))
}

/// An amplitude, held between -1 and 1 if `clamp` says so.
pub open spec fn limited(s: Sample, clamp: bool) -> Sample {
    if clamp {
        s.unit_spec()
    } else {
        s
    }
}

/// `encode`, applied to amplitudes that are first held between -1 and 1 if
/// `clamp` says so.
pub open spec fn encoder<T>(encode: spec_fn(Sample) -> T, clamp: bool) -> spec_fn(Sample) -> T {
    |s: Sample| encode(limited(s, clamp))
}

/// The output value of an amplitude.
fn encode_sample<T, E: Fn(Sample) -> T>(s: Sample, encode: &E, clamp: bool) -> (value: T)
    requires
        total1(*encode),
    ensures
        call_ensures(*encode, (limited(s, clamp),), value),
{
    if clamp {
        encode(s.unit())
    } else {
        encode(s)
    }
}

/// Fills one output frame. `encode` turns an amplitude into an output value,
/// `mix` makes one amplitude of two, which only a single channel needs. Output
/// values that cannot hold more than full scale need `clamp`.
pub fn write_frame<T: Copy, E: Fn(Sample) -> T, M: Fn(Sample, Sample) -> Sample>(
    frame: &mut [T],
    l: Sample,
    r: Sample,
    encode: &E,
    mix: &M,
    clamp: bool,
)
    requires
        old(frame)@.len() > 0,
        total1(*encode),
        total2(*mix),
    ensures
        final(frame)@.len() == old(frame)@.len(),
        forall|e: spec_fn(Sample) -> T, m: spec_fn(Sample, Sample) -> Sample|
            #![trigger computes1(*encode, e), computes2(*mix, m)]
            #![trigger filled(old(frame)@.len(), l, r, encoder(e, clamp), m)]
            computes1(*encode, e) && (old(frame)@.len() != 1 || computes2(*mix, m))
                ==> final(frame)@ == filled(old(frame)@.len(), l, r, encoder(e, clamp), m),
{
    let n: usize = frame.len();
    if n == 1 {
        let both: Sample = mix(l, r);
        let value: T = encode_sample(both, encode, clamp);
        frame[0] = value;
        assert forall|e: spec_fn(Sample) -> T, m: spec_fn(Sample, Sample) -> Sample|
            computes1(*encode, e) && computes2(*mix, m) implies frame@ == #[trigger] filled(
            1,
            l,
            r,
            encoder(e, clamp),
            m,
        ) by {
            assert(frame@ =~= filled(1, l, r, encoder(e, clamp), m));
        }
        return ;
    }
    let left: T = encode_sample(l, encode, clamp);
    let right: T = encode_sample(r, encode, clamp);
    frame[0] = left;
    frame[1] = right;
    let mut i: usize = 2;
    while i < n
        invariant
            2 <= i <= n,
            frame@.len() == n,
            forall|c: int|
                0 <= c < i ==> #[trigger] frame@[c] == if c % 2 == 0 {
                    left
                } else {
                    right
                },
        decreases n - i,
    {
        frame[i] =
        if i % 2 == 0 {
            left
        } else {
            right
        };
        i += 1;
    }
    assert forall|e: spec_fn(Sample) -> T, m: spec_fn(Sample, Sample) -> Sample|
        computes1(*encode, e) implies frame@ == #[trigger] filled(
        n as nat,
        l,
        r,
        encoder(e, clamp),
        m,
    ) by {
        assert(frame@ =~= filled(n as nat, l, r, encoder(e, clamp), m));
    }
}

/// The amplitude that a queue gives; silence if it is empty.
pub open spec fn or_silence(given: Option<u32>) -> Sample {
    match given {
        Some(bits) => Sample { bits },
        None => Sample { bits: 0 },
    }
}

/// The value at position `k` of an output buffer whose frame `i` takes
/// `given[2 * i]` for its left side and `given[2 * i + 1]` for its right side.
pub open spec fn played_value<T>(
    channels: int,
    k: int,
    given: Seq<Option<u32>>,
    encode: spec_fn(Sample) -> T,
    mix: spec_fn(Sample, Sample) -> Sample,
) -> T {
    channel_value(
        channels,
        k % channels,
        or_silence(given[2 * (k / channels)]),
        or_silence(given[2 * (k / channels) + 1]),
        encode,
        mix,
    )
}

/// An output buffer filled with full frames. What is left over behind the last
/// one stays as it was.
pub open spec fn played<T>(
    data: Seq<T>,
    channels: int,
    given: Seq<Option<u32>>,
    encode: spec_fn(Sample) -> T,
    mix: spec_fn(Sample, Sample) -> Sample,
) -> Seq<T> {
    Seq::new(
        data.len(),
        |k: int|
            if k / channels < data.len() as int / channels {
                played_value(channels, k, given, encode, mix)
            } else {
                data[k]
            },
    )
}

/// What filling a buffer does to it, when the queue gives `given`: two
/// amplitudes are taken for every full frame.
pub open spec fn plays<T, E: Fn(Sample) -> T, M: Fn(Sample, Sample) -> Sample>(
    before: Seq<T>,
    after: Seq<T>,
    channels: int,
    given: Seq<Option<u32>>,
    encode: E,
    mix: M,
    clamp: bool,
) -> bool {
    &&& given.len() == 2 * (before.len() as int / channels)
    &&& after.len() == before.len()
    &&& forall|e: spec_fn(Sample) -> T, m: spec_fn(Sample, Sample) -> Sample|
        #![trigger computes1(encode, e), computes2(mix, m)]
        #![trigger played(before, channels, given, encoder(e, clamp), m)]
        computes1(encode, e) && (channels != 1 || computes2(mix, m)) ==> after == played(
            before,
            channels,
            given,
            encoder(e, clamp),
            m,
        )
}

/// The next amplitude from the queue; silence if it is empty.
fn next_amplitude(consumer: &mut SampleConsumer) -> (amplitude: Sample)
    ensures
        samples_out(*final(consumer)) == samples_out(*old(consumer)),
        exists|given: Option<u32>|
            {
                &&& amplitude == #[trigger] or_silence(given)
                &&& sample_pulls(*final(consumer)) == sample_pulls(*old(consumer)).push(given)
                &&& given is Some ==> samples_out(*old(consumer))[received(
                    sample_pulls(*old(consumer)),
                ).len()] == given->0
            },
{
    match consumer.try_pop() {
        Some(bits) => {
            let amplitude: Sample = Sample { bits };
            assert(amplitude == or_silence(Some(bits)));
            amplitude
        },
        None => {
            assert(Sample { bits: 0 } == or_silence(None));
            Sample::zero()
        },
    }
}

/// Fills an output buffer with frames from the queue, two amplitudes each;
/// where the queue runs dry, silence takes their place. Without channels the
/// buffer stays as it was. Output values that cannot hold more than full scale
/// need `clamp`.
pub fn write_output<T: Copy, E: Fn(Sample) -> T, M: Fn(Sample, Sample) -> Sample>(
    data: &mut [T],
    channels_out: usize,
    consumer: &mut SampleConsumer,
    encode: &E,
    mix: &M,
    clamp: bool,
)
    requires
        total1(*encode),
        total2(*mix),
    ensures
        channels_out == 0 ==> final(data)@ == old(data)@ && *final(consumer) == *old(consumer),
        samples_out(*final(consumer)) == samples_out(*old(consumer)),
        pulled(
            sample_pulls(*old(consumer)),
            sample_pulls(*final(consumer)),
            samples_out(*old(consumer)),
        ),
        channels_out > 0 ==> exists|given: Seq<Option<u32>>|
            {
                &&& sample_pulls(*final(consumer)) == sample_pulls(*old(consumer)) + given
                &&& #[trigger] plays(
                    old(data)@,
                    final(data)@,
                    channels_out as int,
                    given,
                    *encode,
                    *mix,
                    clamp,
                )
            },
{
    proof {
        nothing_pulled(sample_pulls(*consumer), samples_out(*consumer));
    }
    if channels_out == 0 {
        return ;
    }
    let n: usize = data.len() / channels_out;
    let ghost channels = channels_out as int;
    let ghost len = data@.len() as int;
    let ghost mut given: Seq<Option<u32>> = Seq::empty();
    let mut i: usize = 0;
    while i < n
        invariant
            channels_out > 0,
            channels == channels_out,
            len == data@.len() == old(data)@.len(),
            i <= n,
            n == len / channels,
            total1(*encode),
            total2(*mix),
            given.len() == 2 * i,
            sample_pulls(*consumer) =~= sample_pulls(*old(consumer)) + given,
            samples_out(*consumer) == samples_out(*old(consumer)),
            pulled(
                sample_pulls(*old(consumer)),
                sample_pulls(*consumer),
                samples_out(*consumer),
            ),
            forall|k: int| i * channels <= k < len ==> #[trigger] data@[k] == old(data)@[k],
            forall|e: spec_fn(Sample) -> T, m: spec_fn(Sample, Sample) -> Sample, k: int|
                computes1(*encode, e) && (channels != 1 || computes2(*mix, m)) && 0 <= k < i
                    * channels ==> data@[k] == #[trigger] played_value(
                    channels,
                    k,
                    given,
                    encoder(e, clamp),
                    m,
                ),
        decreases n - i,
    {
        assert(0 <= i * channels_out && (i + 1) * channels_out <= len && (i + 1) * channels_out == i
            * channels_out + channels_out) by (nonlinear_arith)
            requires
                0 <= i < n,
                n == len / channels_out as int,
                channels_out > 0,
        ;
        assert(data.len() == data@.len());
        let ghost before = data@;
        let ghost so_far = sample_pulls(*consumer);
        let l: Sample = next_amplitude(consumer);
        let ghost gl = sample_pulls(*consumer).last();
        proof {
            one_more_pulled(
                sample_pulls(*old(consumer)),
                so_far,
                sample_pulls(*consumer),
                gl,
                samples_out(*consumer),
            );
        }
        let ghost so_far = sample_pulls(*consumer);
        let r: Sample = next_amplitude(consumer);
        let ghost gr = sample_pulls(*consumer).last();
        proof {
            one_more_pulled(
                sample_pulls(*old(consumer)),
                so_far,
                sample_pulls(*consumer),
                gr,
                samples_out(*consumer),
            );
        }
        let ghost more = given.push(gl).push(gr);
        let start: usize = i * channels_out;
        let (_, tail) = data.split_at_mut(start);
        let (frame, _) = tail.split_at_mut(channels_out);
        write_frame(frame, l, r, encode, mix, clamp);
        proof {
            assert forall|e: spec_fn(Sample) -> T, m: spec_fn(Sample, Sample) -> Sample, k: int|
                computes1(*encode, e) && (channels != 1 || computes2(*mix, m)) && 0 <= k < (i + 1)
                    * channels implies data@[k] == #[trigger] played_value(
                channels,
                k,
                more,
                encoder(e, clamp),
                m,
            ) by {
                let q = k / channels;
                if k < start {
                    assert(data@[k] == before[k]);
                    assert(0 <= q < i) by (nonlinear_arith)
                        requires
                            q == k / channels,
                            0 <= k < i * channels,
                            channels > 0,
                    ;
                    assert(data@[k] == played_value(channels, k, given, encoder(e, clamp), m));
                } else {
                    vstd::arithmetic::div_mod::lemma_fundamental_div_mod_converse(
                        k,
                        channels,
                        i as int,
                        k - start,
                    );
                    let values = filled(channels as nat, l, r, encoder(e, clamp), m);
                    assert(data@[k] == values[k - start]);
                }
            }
            assert forall|k: int| (i + 1) * channels <= k < len implies #[trigger] data@[k] == old(
                data,
            )@[k] by {
                assert(data@[k] == before[k]);
            }
            given = more;
        }
        i += 1;
    }
    proof {
        assert forall|e: spec_fn(Sample) -> T, m: spec_fn(Sample, Sample) -> Sample|
            computes1(*encode, e) && (channels != 1 || computes2(*mix, m)) implies data@
            == #[trigger] played(
            old(data)@,
            channels,
            given,
            encoder(e, clamp),
            m,
        ) by {
            let whole = played(old(data)@, channels, given, encoder(e, clamp), m);
            assert forall|k: int| 0 <= k < len implies data@[k] == #[trigger] whole[k] by {
                assert((k / channels < n) == (k < n * channels)) by (nonlinear_arith)
                    requires
                        channels > 0,
                        0 <= k,
                        n >= 0,
                ;
                if k < n * channels {
                    assert(data@[k] == played_value(channels, k, given, encoder(e, clamp), m));
                }
            }
            assert(data@ =~= whole);
        }
        assert(plays(old(data)@, data@, channels, given, *encode, *mix, clamp));
    }
}

/// What read number `k` of a new queue plays, when the queue takes the items
/// `sent`: the first one that has not been read yet, or silence if the read came
/// too early.
pub open spec fn due(reads: Seq<Option<u32>>, k: int, sent: Seq<u32>) -> Sample {
    if reads[k] is Some {
        Sample { bits: sent[received(reads.take(k)).len() as int] }
    } else {
        Sample { bits: 0 }
    }
}

/// A read gives what is due.
proof fn read_gives_what_is_due(
    items: Seq<u32>,
    offers: Seq<(u32, bool)>,
    capacity: nat,
    line: Map<nat, u32>,
    reads: Seq<Option<u32>>,
    k: int,
)
    requires
        offered(Seq::empty(), offers, items, capacity, line),
        pulled(Seq::empty(), reads, line),
        received(reads).len() <= taken(offers).len(),
        0 <= k < reads.len(),
    ensures
        or_silence(reads[k]) == due(reads, k, taken(offers)),
{
    if reads[k] is Some {
        found_is_received(reads, k);
        taken_follows_the_line(
            offers,
            items,
            capacity,
            line,
            received(reads.take(k)).len() as int,
        );
    }
}

/// Output plays what the queue took, in the order in which it took it. `earlier` is
/// what the output callback was given before this buffer and `given` what it is
/// given for it: every read that finds an item plays the first one that has not
/// been played yet, every other read plays silence, and no item is skipped or
/// played twice.
pub proof fn output_plays_what_was_taken<T>(
    items: Seq<u32>,
    offers: Seq<(u32, bool)>,
    capacity: nat,
    line: Map<nat, u32>,
    earlier: Seq<Option<u32>>,
    given: Seq<Option<u32>>,
    data: Seq<T>,
    channels: int,
    encode: spec_fn(Sample) -> T,
    mix: spec_fn(Sample, Sample) -> Sample,
    i: int,
    channel: int,
)
    requires
        offered(Seq::empty(), offers, items, capacity, line),
        pulled(Seq::empty(), earlier + given, line),
        received(earlier + given).len() <= taken(offers).len(),
        channels > 0,
        given.len() == 2 * (data.len() as int / channels),
        0 <= i < data.len() as int / channels,
        0 <= channel < channels,
    ensures
        0 <= i * channels + channel < data.len(),
        played(data, channels, given, encode, mix)[i * channels + channel] == channel_value(
            channels,
            channel,
            due(earlier + given, earlier.len() + 2 * i, taken(offers)),
            due(earlier + given, earlier.len() + 2 * i + 1, taken(offers)),
            encode,
            mix,
        ),
{
    let k = i * channels + channel;
    let n = data.len() as int / channels;
    assert(0 <= k < data.len()) by (nonlinear_arith)
        requires
            k == i * channels + channel,
            n == data.len() as int / channels,
            0 <= i < n,
            0 <= channel < channels,
    ;
    vstd::arithmetic::div_mod::lemma_fundamental_div_mod_converse(k, channels, i, channel);
    let reads = earlier + given;
    let at = earlier.len() + 2 * i;
    read_gives_what_is_due(items, offers, capacity, line, reads, at);
    read_gives_what_is_due(items, offers, capacity, line, reads, at + 1);
    assert(reads[at] == given[2 * i]);
    assert(reads[at + 1] == given[2 * i + 1]);
}

/// Passthrough plays the input. Frames go through a new queue which refuses none of
/// them. Every read that finds an item plays the first side of a frame that has
/// not been played yet, whatever reads came too early before. Where no read came
/// too early, output goes on with the input frame at which it had stopped.
pub proof fn passthrough_plays_the_input<T>(
    frames: Seq<(Sample, Sample)>,
    offers: Seq<(u32, bool)>,
    capacity: nat,
    line: Map<nat, u32>,
    earlier: Seq<Option<u32>>,
    given: Seq<Option<u32>>,
    data: Seq<T>,
    channels: int,
    encode: spec_fn(Sample) -> T,
    mix: spec_fn(Sample, Sample) -> Sample,
    i: int,
    channel: int,
)
    requires
        offered(Seq::empty(), offers, interleaved(frames), capacity, line),
        taken(offers) == interleaved(frames),
        pulled(Seq::empty(), earlier + given, line),
        received(earlier + given).len() <= 2 * frames.len(),
        channels > 0,
        given.len() == 2 * (data.len() as int / channels),
        0 <= i < data.len() as int / channels,
        0 <= channel < channels,
    ensures
        0 <= i * channels + channel < data.len(),
        played(data, channels, given, encode, mix)[i * channels + channel] == channel_value(
            channels,
            channel,
            due(earlier + given, earlier.len() + 2 * i, interleaved(frames)),
            due(earlier + given, earlier.len() + 2 * i + 1, interleaved(frames)),
            encode,
            mix,
        ),
        earlier.len() as int % 2 == 0 && (forall|k: int|
            0 <= k < earlier.len() + 2 * i + 2 ==> (#[trigger] (earlier + given)[k]) is Some) ==> {
            let j = earlier.len() as int / 2 + i;
            &&& j < frames.len()
            &&& played(data, channels, given, encode, mix)[i * channels + channel]
                == channel_value(channels, channel, frames[j].0, frames[j].1, encode, mix)
        },
{
    output_plays_what_was_taken(
        interleaved(frames),
        offers,
        capacity,
        line,
        earlier,
        given,
        data,
        channels,
        encode,
        mix,
        i,
        channel,
    );
    let reads = earlier + given;
    let at = earlier.len() + 2 * i;
    if earlier.len() as int % 2 == 0 && (forall|k: int|
        0 <= k < at + 2 ==> (#[trigger] reads[k]) is Some) {
        all_found_so_far(reads, at);
        all_found_so_far(reads, at + 1);
        assert(reads[at + 1] is Some);
        found_is_received(reads, at + 1);
    }
}

/// Where no read so far came too early, as many items have been read as there were
/// reads.
proof fn all_found_so_far(reads: Seq<Option<u32>>, k: int)
    requires
        0 <= k < reads.len(),
        forall|j: int| 0 <= j <= k ==> (#[trigger] reads[j]) is Some,
    ensures
        reads[k] is Some,
        received(reads.take(k)).len() == k,
{
    let before = reads.take(k);
    assert forall|j: int| 0 <= j < before.len() implies (#[trigger] before[j]) is Some by {
        assert(before[j] == reads[j]);
    }
    all_received(before);
}

/// Passthrough of signed 16-bit samples from two channels to two channels loses
/// nothing but the lowest value, which becomes the second lowest: what comes out
/// is what went in, and nothing stays in the queue. The queue is new and has room
/// for the samples, and no read came too early.
pub proof fn passthrough_keeps_signed_samples(
    input: Seq<i16>,
    offers: Seq<(u32, bool)>,
    capacity: nat,
    line: Map<nat, u32>,
    given: Seq<Option<u32>>,
    output: Seq<i16>,
    mix: spec_fn(Sample, Sample) -> Sample,
    k: int,
)
    requires
        input.len() as int % 2 == 0,
        output.len() == input.len(),
        offered(
            Seq::empty(),
            offers,
            interleaved(frames_of(input, 2, |x: i16| fraction(x))),
            capacity,
            line,
        ),
        input.len() <= capacity,
        pulled(Seq::empty(), given, line),
        given.len() == input.len(),
        forall|j: int| 0 <= j < given.len() ==> (#[trigger] given[j]) is Some,
        0 <= k < input.len(),
    ensures
        played(output, 2, given, encoder(|s: Sample| code_for(s), true), mix)[k] == symmetric(
            input[k],
        ),
        input[k] > -32768 ==> played(
            output,
            2,
            given,
            encoder(|s: Sample| code_for(s), true),
            mix,
        )[k] == input[k],
        received(given) == taken(offers),
{
    let decode = |x: i16| fraction(x);
    let encode = encoder(|s: Sample| code_for(s), true);
    let frames = frames_of(input, 2, decode);
    nothing_is_dropped_while_there_is_room(offers, interleaved(frames), capacity, line);
    all_received(given);
    assert forall|j: int| 0 <= j < given.len() implies received(given)[j] == taken(offers)[j] by {
        first_in_first_out(offers, interleaved(frames), capacity, given, line, j);
    }
    assert(received(given) =~= taken(offers));
    let none = Seq::<Option<u32>>::empty();
    assert(none + given =~= given);
    assert(2 * (k / 2) + k % 2 == k);
    passthrough_plays_the_input(
        frames,
        offers,
        capacity,
        line,
        none,
        given,
        output,
        2,
        encode,
        mix,
        k / 2,
        k % 2,
    );
    codes_come_back(input[k]);
}

/// A queue that has run dry plays silence: every full frame gets what zero
/// amplitudes give.
pub proof fn dry_queue_plays_silence<T>(
    data: Seq<T>,
    channels: int,
    given: Seq<Option<u32>>,
    encode: spec_fn(Sample) -> T,
    mix: spec_fn(Sample, Sample) -> Sample,
    k: int,
)
    requires
        channels > 0,
        0 <= k < data.len(),
        k / channels < data.len() as int / channels,
        given.len() == 2 * (data.len() as int / channels),
        forall|j: int| 0 <= j < given.len() ==> #[trigger] given[j] is None,
    ensures
        played(data, channels, given, encode, mix)[k] == channel_value(
            channels,
            k % channels,
            Sample { bits: 0 },
            Sample { bits: 0 },
            encode,
            mix,
        ),
{
    assert(k / channels >= 0) by (nonlinear_arith)
        requires
            k >= 0,
            channels > 0,
    ;
    assert(given[2 * (k / channels)] is None);
    assert(given[2 * (k / channels) + 1] is None);
}

/// What an amplitude becomes on the way to the device: without clamping the device
/// value of that very amplitude, with clamping that of 1 if it is above 1 and that
/// of -1 if it is below -1.
pub proof fn encoding_keeps_or_cuts_off<T>(encode: spec_fn(Sample) -> T, s: Sample)
    ensures
        encoder(encode, false)(s) == encode(s),
        s.bits as int % 0x8000_0000 <= 0x3f80_0000 ==> encoder(encode, true)(s) == encode(s),
        s.bits as int % 0x8000_0000 > 0x7f80_0000 ==> encoder(encode, true)(s) == encode(s),
        0x3f80_0000 < s.bits <= 0x7f80_0000 ==> encoder(encode, true)(s) == encode(
            Sample { bits: 0x3f80_0000 },
        ),
        0xbf80_0000 < s.bits <= 0xff80_0000 ==> encoder(encode, true)(s) == encode(
            Sample { bits: 0xbf80_0000 },
        ),
{
    unit_cuts_off_at_one(s);
}

/// A frame, channel by channel: a single channel gets what both sides are mixed to,
/// and otherwise the first channel, the third and so on get the left side, the others
/// the right side.
pub proof fn a_frame_is_filled_side_by_side<T>(
    n: nat,
    l: Sample,
    r: Sample,
    encode: spec_fn(Sample) -> T,
    mix: spec_fn(Sample, Sample) -> Sample,
    c: int,
)
    requires
        0 <= c < n,
    ensures
        filled(n, l, r, encode, mix).len() == n,
        n == 1 ==> filled(n, l, r, encode, mix)[c] == encode(mix(l, r)),
        n > 1 && c % 2 == 0 ==> filled(n, l, r, encode, mix)[c] == encode(l),
        n > 1 && c % 2 == 1 ==> filled(n, l, r, encode, mix)[c] == encode(r),
{
}

/// What a buffer holds after it has been filled, value by value. Frame `i` takes read
/// `2 * i` for its left side and read `2 * i + 1` for its right side, where a read
/// that found nothing counts as zero.
pub proof fn a_buffer_is_filled_frame_by_frame<
    T,
    E: Fn(Sample) -> T,
    M: Fn(Sample, Sample) -> Sample,
>(
    before: Seq<T>,
    after: Seq<T>,
    channels: int,
    given: Seq<Option<u32>>,
    encode: E,
    mix: M,
    clamp: bool,
    e: spec_fn(Sample) -> T,
    m: spec_fn(Sample, Sample) -> Sample,
    i: int,
    c: int,
)
    requires
        channels > 0,
        plays(before, after, channels, given, encode, mix, clamp),
        forall|x: Sample, v: T| #[trigger] call_ensures(encode, (x,), v) ==> v == e(x),
        forall|x: Sample, y: Sample, v: Sample| #[trigger]
            call_ensures(mix, (x, y), v) ==> v == m(x, y),
        0 <= i,
        (i + 1) * channels <= before.len(),
        0 <= c < channels,
    ensures
        2 * i + 1 < given.len(),
        ({
            let l = match given[2 * i] {
                Some(bits) => Sample { bits },
                None => Sample { bits: 0 },
            };
            let r = match given[2 * i + 1] {
                Some(bits) => Sample { bits },
                None => Sample { bits: 0 },
            };
            let put = encoder(e, clamp);
            &&& channels == 1 ==> after[i * channels + c] == put(m(l, r))
            &&& channels > 1 && c % 2 == 0 ==> after[i * channels + c] == put(l)
            &&& channels > 1 && c % 2 == 1 ==> after[i * channels + c] == put(r)
        }),
{
    let len = before.len() as int;
    let n = len / channels;
    assert(computes1(encode, e));
    assert(computes2(mix, m));
    assert(after == played(before, channels, given, encoder(e, clamp), m));
    assert(i < n) by (nonlinear_arith)
        requires
            (i + 1) * channels <= len,
            channels > 0,
            n == len / channels,
    ;
    let at = i * channels + c;
    vstd::arithmetic::div_mod::lemma_fundamental_div_mod_converse(at, channels, i, c);
    assert(0 <= at < len) by (nonlinear_arith)
        requires
            at == i * channels + c,
            0 <= i,
            0 <= c < channels,
            (i + 1) * channels <= len,
    ;
    assert(after[at] == played_value(channels, at, given, encoder(e, clamp), m));
}

/// Filling a buffer takes two reads for every full frame, and keeps its length and
/// what lies behind the last full frame.
pub proof fn a_buffer_keeps_what_is_left_over<
    T,
    E: Fn(Sample) -> T,
    M: Fn(Sample, Sample) -> Sample,
>(
    before: Seq<T>,
    after: Seq<T>,
    channels: int,
    given: Seq<Option<u32>>,
    encode: E,
    mix: M,
    clamp: bool,
    e: spec_fn(Sample) -> T,
    m: spec_fn(Sample, Sample) -> Sample,
    k: int,
)
    requires
        channels > 0,
        plays(before, after, channels, given, encode, mix, clamp),
        forall|x: Sample, v: T| #[trigger] call_ensures(encode, (x,), v) ==> v == e(x),
        forall|x: Sample, y: Sample, v: Sample| #[trigger]
            call_ensures(mix, (x, y), v) ==> v == m(x, y),
    ensures
        after.len() == before.len(),
        given.len() == 2 * (before.len() as int / channels),
        before.len() - before.len() as int % channels <= k < before.len() ==> after[k] == before[k],
{
    let len = before.len() as int;
    let n = len / channels;
    assert(computes1(encode, e));
    assert(computes2(mix, m));
    assert(after == played(before, channels, given, encoder(e, clamp), m));
    vstd::arithmetic::div_mod::lemma_fundamental_div_mod(len, channels);
    vstd::arithmetic::div_mod::lemma_mod_bound(len, channels);
    if len - len % channels <= k < len {
        assert(k / channels >= n) by (nonlinear_arith)
            requires
                k >= channels * n,
                channels > 0,
        ;
    }
}

/// Passthrough from two channels to two channels gives every value back as it was
/// decoded and encoded again, whatever decoding and encoding are. The queue is new
/// and has room for the samples, and no read came too early.
pub proof fn passthrough_encodes_what_was_decoded<S, T>(
    input: Seq<S>,
    offers: Seq<(u32, bool)>,
    capacity: nat,
    line: Map<nat, u32>,
    given: Seq<Option<u32>>,
    output: Seq<T>,
    decode: spec_fn(S) -> Sample,
    encode: spec_fn(Sample) -> T,
    mix: spec_fn(Sample, Sample) -> Sample,
    k: int,
)
    requires
        input.len() as int % 2 == 0,
        output.len() == input.len(),
        offered(Seq::empty(), offers, interleaved(frames_of(input, 2, decode)), capacity, line),
        input.len() <= capacity,
        pulled(Seq::empty(), given, line),
        given.len() == input.len(),
        forall|j: int| 0 <= j < given.len() ==> (#[trigger] given[j]) is Some,
        0 <= k < input.len(),
    ensures
        played(output, 2, given, encode, mix)[k] == encode(decode(input[k])),
        played(output, 2, given, encoder(encode, false), mix)[k] == encode(decode(input[k])),
        decode(input[k]).bits as int % 0x8000_0000 <= 0x3f80_0000 ==> played(
            output,
            2,
            given,
            encoder(encode, true),
            mix,
        )[k] == encode(decode(input[k])),
        received(given) == taken(offers),
{
    let frames = frames_of(input, 2, decode);
    nothing_is_dropped_while_there_is_room(offers, interleaved(frames), capacity, line);
    all_received(given);
    assert forall|j: int| 0 <= j < given.len() implies received(given)[j] == taken(offers)[j] by {
        first_in_first_out(offers, interleaved(frames), capacity, given, line, j);
    }
    assert(received(given) =~= taken(offers));
    let none = Seq::<Option<u32>>::empty();
    assert(none + given =~= given);
    assert(2 * (k / 2) + k % 2 == k);
    let s = decode(input[k]);
    encoding_keeps_or_cuts_off(encode, s);
    let plain = encoder(encode, false);
    let cut = encoder(encode, true);
    passthrough_plays_the_input(
        frames, offers, capacity, line, none, given, output, 2, encode, mix, k / 2, k % 2,
    );
    passthrough_plays_the_input(
        frames, offers, capacity, line, none, given, output, 2, plain, mix, k / 2, k % 2,
    );
    passthrough_plays_the_input(
        frames, offers, capacity, line, none, given, output, 2, cut, mix, k / 2, k % 2,
    );
}

/// Passthrough of binary32 samples from two channels to two channels keeps every
/// sample bit for bit: what comes out is what went in, and nothing stays in the queue.
/// The queue is new and has room for the samples, and no read came too early.
pub proof fn passthrough_keeps_numbers(
    input: Seq<u32>,
    offers: Seq<(u32, bool)>,
    capacity: nat,
    line: Map<nat, u32>,
    given: Seq<Option<u32>>,
    output: Seq<u32>,
    mix: spec_fn(Sample, Sample) -> Sample,
    k: int,
)
    requires
        input.len() as int % 2 == 0,
        output.len() == input.len(),
        offered(
            Seq::empty(),
            offers,
            interleaved(frames_of(input, 2, |bits: u32| Sample { bits })),
            capacity,
            line,
        ),
        input.len() <= capacity,
        pulled(Seq::empty(), given, line),
        given.len() == input.len(),
        forall|j: int| 0 <= j < given.len() ==> (#[trigger] given[j]) is Some,
        0 <= k < input.len(),
    ensures
        played(output, 2, given, encoder(|s: Sample| s.bits, false), mix)[k] == input[k],
        received(given) == taken(offers),
{
    passthrough_encodes_what_was_decoded(
        input,
        offers,
        capacity,
        line,
        given,
        output,
        |bits: u32| Sample { bits },
        |s: Sample| s.bits,
        mix,
        k,
    );
}

} // verus!
