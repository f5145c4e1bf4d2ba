//! How the frames of a packet become mono.
//!
//! Samples are floating point numbers, with which only the caller can calculate.
//! The functions here take sum and quotient as arguments and decide what goes into
//! them.
//!
//! A law that rests on a fact of that arithmetic names the fact and asks it only of
//! samples that `within` admits, with results told apart by `same`: finite samples
//! in range, for one, and the equality under which both zeros are the same.
use vstd::prelude::*;

use crate::functions;

verus! {

/// Whether two lists of samples are the same, sample by sample, as `same` tells
/// samples apart.
pub open spec fn all_same<S>(one: Seq<S>, other: Seq<S>, same: spec_fn(S, S) -> bool) -> bool {
    &&& one.len() == other.len()
    &&& forall|i: int| 0 <= i < one.len() ==> same(#[trigger] one[i], other[i])
}

/// Whether `sums` are the running sums of the channels of a frame, as `sum` adds
/// them up.
pub open spec fn are_running_sums<S, A: Fn(S, S) -> S>(
    frame: Seq<S>,
    zero: S,
    sum: A,
    sums: Seq<S>,
) -> bool {
    &&& sums.len() == frame.len() + 1
    &&& sums[0] == zero
    &&& forall|c: int|
        0 <= c < frame.len() ==> call_ensures(sum, (sums[c], frame[c]), #[trigger] sums[c + 1])
}

/// Whether `mono` is the mean of a frame: the sum of its channels, divided by
/// their number.
pub open spec fn is_mean<S, A: Fn(S, S) -> S, D: Fn(S, usize) -> S>(
    frame: Seq<S>,
    zero: S,
    sum: A,
    divide: D,
    mono: S,
) -> bool {
    exists|sums: Seq<S>| #[trigger]
        are_running_sums(frame, zero, sum, sums) && call_ensures(
            divide,
            (sums.last(), frame.len() as usize),
            mono,
        )
}

/// The frame at an index, of interleaved samples: one for each channel.
pub open spec fn frame_at<S>(interleaved: Seq<S>, channels: int, frame: int) -> Seq<S> {
    interleaved.subrange(frame * channels, frame * channels + channels)
}

/// The frames of interleaved samples.
pub open spec fn frames_of<S>(interleaved: Seq<S>, frames: int, channels: int) -> Seq<Seq<S>> {
    Seq::new(frames as nat, |f: int| frame_at(interleaved, channels, f))
}

/// Whether `mono` holds the mean of each frame, in order.
pub open spec fn is_mix<S, A: Fn(S, S) -> S, D: Fn(S, usize) -> S>(
    frames: Seq<Seq<S>>,
    zero: S,
    sum: A,
    divide: D,
    mono: Seq<S>,
) -> bool {
    &&& mono.len() == frames.len()
    &&& forall|f: int|
        0 <= f < frames.len() ==> is_mean(frames[f], zero, sum, divide, #[trigger] mono[f])
}

/// Appends the mean of each frame of interleaved samples.
pub fn mix_down<S: Copy, A: Fn(S, S) -> S, D: Fn(S, usize) -> S>(
    samples: &mut Vec<S>,
    interleaved: &[S],
    frames: usize,
    channels: usize,
    zero: S,
    sum: A,
    divide: D,
)
    requires
        frames * channels <= interleaved@.len(),
        forall|a: S, b: S| call_requires(sum, (a, b)),
        forall|a: S| call_requires(divide, (a, channels)),
    ensures
        old(samples)@.is_prefix_of(final(samples)@),
        is_mix(
            frames_of(interleaved@, frames as int, channels as int),
            zero,
            sum,
            divide,
            final(samples)@.skip(old(samples)@.len() as int),
        ),
{
    let ghost before = samples@;
    let available: usize = interleaved.len();
    let mut frame: usize = 0;
    let mut start: usize = 0;
    while frame < frames
        invariant
            frame <= frames,
            start == frame * channels,
            available == interleaved@.len(),
            frames * channels <= available,
            forall|a: S, b: S| call_requires(sum, (a, b)),
            forall|a: S| call_requires(divide, (a, channels)),
            samples@.len() == before.len() + frame,
            samples@.take(before.len() as int) == before,
            forall|f: int|
                0 <= f < frame ==> is_mean(
                    #[trigger] frame_at(interleaved@, channels as int, f),
                    zero,
                    sum,
                    divide,
                    samples@[before.len() + f],
                ),
        decreases frames - frame,
    {
        proof {
            assert((frame + 1) * channels <= frames * channels) by (nonlinear_arith)
                requires
                    frame + 1 <= frames,
            ;
            assert((frame + 1) * channels == frame * channels + channels) by (nonlinear_arith);
        }
        let ghost this = frame_at(interleaved@, channels as int, frame as int);
        let mut total: S = zero;
        let ghost mut sums: Seq<S> = seq![zero];
        let mut channel: usize = 0;
        while channel < channels
            invariant
                channel <= channels,
                start == frame * channels,
                start + channels <= interleaved@.len(),
                this == frame_at(interleaved@, channels as int, frame as int),
                forall|a: S, b: S| call_requires(sum, (a, b)),
                are_running_sums(this.take(channel as int), zero, sum, sums),
                total == sums.last(),
            decreases channels - channel,
        {
            total = sum(total, interleaved[start + channel]);
            proof {
                let longer = sums.push(total);
                let part = this.take(channel + 1);
                assert forall|c: int| 0 <= c < part.len() implies call_ensures(
                    sum,
                    (longer[c], part[c]),
                    #[trigger] longer[c + 1],
                ) by {
                    if c < channel {
                        assert(longer[c + 1] == sums[c + 1]);
                        assert(part[c] == this.take(channel as int)[c]);
                    }
                }
                sums = longer;
            }
            channel = channel + 1;
        }
        let mono: S = divide(total, channels);
        let ghost mixed = samples@;
        samples.push(mono);
        proof {
            assert(this.take(channel as int) =~= this);
            assert(is_mean(this, zero, sum, divide, mono));
            assert(samples@.take(before.len() as int) =~= mixed.take(before.len() as int));
        }
        start = start + channels;
        frame = frame + 1;
    }
    proof {
        let all = frames_of(interleaved@, frames as int, channels as int);
        let mono = samples@.skip(before.len() as int);
        assert forall|f: int| 0 <= f < all.len() implies is_mean(
            all[f],
            zero,
            sum,
            divide,
            #[trigger] mono[f],
        ) by {
            assert(all[f] == frame_at(interleaved@, channels as int, f));
            assert(mono[f] == samples@[before.len() + f]);
        }
        assert(before =~= samples@.take(before.len() as int));
    }
}

/// Whether adding a sample to zero gives that sample.
pub open spec fn adds_from_zero<S, A: Fn(S, S) -> S>(
    zero: S,
    sum: A,
    within: spec_fn(S) -> bool,
    same: spec_fn(S, S) -> bool,
) -> bool {
    forall|a: S, r: S| within(a) && #[trigger] call_ensures(sum, (zero, a), r) ==> same(r, a)
}

/// Whether dividing by one changes nothing.
pub open spec fn divides_by_one<S, D: Fn(S, usize) -> S>(
    divide: D,
    within: spec_fn(S) -> bool,
    same: spec_fn(S, S) -> bool,
) -> bool {
    forall|a: S, t: S, r: S| #[trigger]
        within(a) && same(t, a) && #[trigger] call_ensures(divide, (t, 1usize), r) ==> same(r, a)
}

/// Whether half of a sample added to itself is that sample.
pub open spec fn halves_a_double<S, A: Fn(S, S) -> S, D: Fn(S, usize) -> S>(
    sum: A,
    divide: D,
    within: spec_fn(S) -> bool,
    same: spec_fn(S, S) -> bool,
) -> bool {
    forall|a: S, s: S, t: S, r: S|
        within(a) && same(s, a) && #[trigger] call_ensures(sum, (s, a), t)
            && #[trigger] call_ensures(divide, (t, 2usize), r) ==> same(r, a)
}

/// Whether two samples have the same sum in either order.
pub open spec fn adds_in_either_order<S, A: Fn(S, S) -> S>(
    sum: A,
    within: spec_fn(S) -> bool,
    same: spec_fn(S, S) -> bool,
) -> bool {
    forall|a: S, b: S, s: S, u: S, t: S, v: S|
        within(a) && within(b) && same(s, a) && same(u, b) && #[trigger] call_ensures(
            sum,
            (s, b),
            t,
        ) && #[trigger] call_ensures(sum, (u, a), v) ==> same(t, v)
}

/// Whether halves of the same sums are the same.
pub open spec fn halves_alike<S, D: Fn(S, usize) -> S>(
    divide: D,
    same: spec_fn(S, S) -> bool,
) -> bool {
    forall|t: S, v: S, r: S, w: S|
        same(t, v) && #[trigger] call_ensures(divide, (t, 2usize), r) && #[trigger] call_ensures(
            divide,
            (v, 2usize),
            w,
        ) ==> same(r, w)
}

/// Whether frames have one channel, with samples that are within bounds.
pub open spec fn is_mono<S>(frames: Seq<Seq<S>>, within: spec_fn(S) -> bool) -> bool {
    forall|f: int|
        0 <= f < frames.len() ==> (#[trigger] frames[f]).len() == 1 && within(frames[f][0])
}

/// Whether frames have two channels, with samples that are within bounds.
pub open spec fn is_stereo<S>(frames: Seq<Seq<S>>, within: spec_fn(S) -> bool) -> bool {
    forall|f: int|
        0 <= f < frames.len() ==> (#[trigger] frames[f]).len() == 2 && within(frames[f][0])
            && within(frames[f][1])
}

/// The first channel of frames.
pub open spec fn first_channel<S>(frames: Seq<Seq<S>>) -> Seq<S> {
    Seq::new(frames.len(), |f: int| frames[f][0])
}

/// Frames of two channels, each the same as the first of other frames.
pub open spec fn doubled<S>(frames: Seq<Seq<S>>) -> Seq<Seq<S>> {
    Seq::new(frames.len(), |f: int| seq![frames[f][0], frames[f][0]])
}

/// Frames of two channels with the channels exchanged.
pub open spec fn exchanged<S>(frames: Seq<Seq<S>>) -> Seq<Seq<S>> {
    Seq::new(frames.len(), |f: int| seq![frames[f][1], frames[f][0]])
}

/// Frames of one channel are mixed to the samples of that channel.
pub proof fn lemma_one_channel_stays<S, A: Fn(S, S) -> S, D: Fn(S, usize) -> S>(
    frames: Seq<Seq<S>>,
    zero: S,
    sum: A,
    divide: D,
    within: spec_fn(S) -> bool,
    same: spec_fn(S, S) -> bool,
    mono: Seq<S>,
)
    requires
        adds_from_zero(zero, sum, within, same),
        divides_by_one(divide, within, same),
        is_mono(frames, within),
        is_mix(frames, zero, sum, divide, mono),
    ensures
        all_same(mono, first_channel(frames), same),
{
    assert forall|f: int| 0 <= f < mono.len() implies same(
        #[trigger] mono[f],
        first_channel(frames)[f],
    ) by {
        let frame = frames[f];
        let sums = lemma_sums_of_mean(frame, zero, sum, divide, mono[f]);
        assert(call_ensures(sum, (sums[0], frame[0]), sums[0int + 1]));
        assert(within(frame[0]));
    }
}

/// Frames of two equal channels are mixed to the samples of each.
pub proof fn lemma_equal_channels_stay<S, A: Fn(S, S) -> S, D: Fn(S, usize) -> S>(
    frames: Seq<Seq<S>>,
    zero: S,
    sum: A,
    divide: D,
    within: spec_fn(S) -> bool,
    same: spec_fn(S, S) -> bool,
    mono: Seq<S>,
)
    requires
        adds_from_zero(zero, sum, within, same),
        halves_a_double(sum, divide, within, same),
        is_mono(frames, within),
        is_mix(doubled(frames), zero, sum, divide, mono),
    ensures
        all_same(mono, first_channel(frames), same),
{
    assert forall|f: int| 0 <= f < mono.len() implies same(
        #[trigger] mono[f],
        first_channel(frames)[f],
    ) by {
        let frame = doubled(frames)[f];
        let sums = lemma_sums_of_mean(frame, zero, sum, divide, mono[f]);
        assert(call_ensures(sum, (sums[0], frame[0]), sums[0int + 1]));
        assert(call_ensures(sum, (sums[1], frame[1]), sums[1int + 1]));
        assert(within(frames[f][0]));
    }
}

/// Exchanging two channels changes nothing in their mix.
pub proof fn lemma_exchanged_channels_mix_alike<S, A: Fn(S, S) -> S, D: Fn(S, usize) -> S>(
    frames: Seq<Seq<S>>,
    zero: S,
    sum: A,
    divide: D,
    within: spec_fn(S) -> bool,
    same: spec_fn(S, S) -> bool,
    mono: Seq<S>,
    exchanged_mono: Seq<S>,
)
    requires
        adds_from_zero(zero, sum, within, same),
        adds_in_either_order(sum, within, same),
        halves_alike(divide, same),
        is_stereo(frames, within),
        is_mix(frames, zero, sum, divide, mono),
        is_mix(exchanged(frames), zero, sum, divide, exchanged_mono),
    ensures
        all_same(mono, exchanged_mono, same),
{
    assert forall|f: int| 0 <= f < mono.len() implies same(
        #[trigger] mono[f],
        exchanged_mono[f],
    ) by {
        let frame = frames[f];
        let other = exchanged(frames)[f];
        let sums = lemma_sums_of_mean(frame, zero, sum, divide, mono[f]);
        let other_sums = lemma_sums_of_mean(other, zero, sum, divide, exchanged_mono[f]);
        assert(call_ensures(sum, (sums[0], frame[0]), sums[0int + 1]));
        assert(call_ensures(sum, (sums[1], frame[1]), sums[1int + 1]));
        assert(call_ensures(sum, (other_sums[0], other[0]), other_sums[0int + 1]));
        assert(call_ensures(sum, (other_sums[1], other[1]), other_sums[1int + 1]));
        assert(within(frame[0]) && within(frame[1]));
    }
}

/// The running sums behind a mean.
proof fn lemma_sums_of_mean<S, A: Fn(S, S) -> S, D: Fn(S, usize) -> S>(
    frame: Seq<S>,
    zero: S,
    sum: A,
    divide: D,
    mono: S,
) -> (sums: Seq<S>)
    requires
        is_mean(frame, zero, sum, divide, mono),
    ensures
        are_running_sums(frame, zero, sum, sums),
        call_ensures(divide, (sums.last(), frame.len() as usize), mono),
{
    choose|sums: Seq<S>| #[trigger]
        are_running_sums(frame, zero, sum, sums) && call_ensures(
            divide,
            (sums.last(), frame.len() as usize),
            mono,
        )
}

/// Frames settle their mix, where adding up and dividing have one result each.
pub proof fn lemma_mix_has_one_outcome<S, A: Fn(S, S) -> S, D: Fn(S, usize) -> S>(
    frames: Seq<Seq<S>>,
    zero: S,
    sum: A,
    divide: D,
    one: Seq<S>,
    other: Seq<S>,
)
    requires
        functions::has_one_result_of_two(sum),
        functions::has_one_result_of_two(divide),
        is_mix(frames, zero, sum, divide, one),
        is_mix(frames, zero, sum, divide, other),
    ensures
        one == other,
{
    assert forall|f: int| 0 <= f < frames.len() implies one[f] == other[f] by {
        assert(is_mean(frames[f], zero, sum, divide, one[f]));
        assert(is_mean(frames[f], zero, sum, divide, other[f]));
        let sums = lemma_sums_of_mean(frames[f], zero, sum, divide, one[f]);
        let other_sums = lemma_sums_of_mean(frames[f], zero, sum, divide, other[f]);
        lemma_running_sums_agree(
            frames[f],
            zero,
            sum,
            sums,
            other_sums,
            frames[f].len() as int,
        );
    }
    assert(one =~= other);
}

/// A frame settles its running sums.
proof fn lemma_running_sums_agree<S, A: Fn(S, S) -> S>(
    frame: Seq<S>,
    zero: S,
    sum: A,
    one: Seq<S>,
    other: Seq<S>,
    c: int,
)
    requires
        functions::has_one_result_of_two(sum),
        are_running_sums(frame, zero, sum, one),
        are_running_sums(frame, zero, sum, other),
        0 <= c <= frame.len(),
    ensures
        one[c] == other[c],
    decreases c,
{
    if c > 0 {
        lemma_running_sums_agree(frame, zero, sum, one, other, c - 1);
        assert(call_ensures(sum, (one[c - 1], frame[c - 1]), one[c - 1 + 1]));
        assert(call_ensures(sum, (other[c - 1], frame[c - 1]), other[c - 1 + 1]));
    }
}

/// What mixing does: each frame of interleaved samples gives one sample, in order,
/// a quotient of the sum of its channels, from zero on and each once, by their
/// number. Gives the running sums of each frame.
pub proof fn lemma_what_mixing_does<S, A: Fn(S, S) -> S, D: Fn(S, usize) -> S>(
    interleaved: Seq<S>,
    frames: usize,
    channels: usize,
    zero: S,
    sum: A,
    divide: D,
    mono: Seq<S>,
) -> (sums: Seq<Seq<S>>)
    requires
        frames * channels <= interleaved.len(),
        is_mix(
            frames_of(interleaved, frames as int, channels as int),
            zero,
            sum,
            divide,
            mono,
        ),
    ensures
        mono.len() == frames,
        sums.len() == frames,
        forall|f: int|
            0 <= f < frames ==> (#[trigger] sums[f]).len() == channels + 1 && sums[f][0] == zero
                && call_ensures(divide, (sums[f][channels as int], channels), mono[f]),
        forall|f: int, c: int|
            0 <= f < frames && 0 <= c < channels ==> call_ensures(
                sum,
                (sums[f][c], interleaved[f * channels + c]),
                #[trigger] sums[f][c + 1],
            ),
{
    let all = frames_of(interleaved, frames as int, channels as int);
    let sums = Seq::new(
        frames as nat,
        |f: int|
            choose|sums: Seq<S>| #[trigger]
                are_running_sums(all[f], zero, sum, sums) && call_ensures(
                    divide,
                    (sums.last(), all[f].len() as usize),
                    mono[f],
                ),
    );
    assert forall|f: int| 0 <= f < frames implies are_running_sums(
        all[f],
        zero,
        sum,
        #[trigger] sums[f],
    ) && call_ensures(divide, (sums[f].last(), channels), mono[f]) && all[f].len()
        == channels by {
        assert(is_mean(all[f], zero, sum, divide, mono[f]));
        assert(0 <= f * channels && f * channels + channels <= frames * channels)
            by (nonlinear_arith)
            requires
                0 <= f < frames,
                channels >= 0,
        ;
        assert(all[f].len() == channels);
    }
    assert forall|f: int, c: int| 0 <= f < frames && 0 <= c < channels implies call_ensures(
        sum,
        (sums[f][c], interleaved[f * channels + c]),
        #[trigger] sums[f][c + 1],
    ) by {
        assert(are_running_sums(all[f], zero, sum, sums[f]));
        assert(0 <= f * channels && f * channels + channels <= frames * channels)
            by (nonlinear_arith)
            requires
                0 <= f < frames,
                channels >= 0,
        ;
        assert(all[f][c] == interleaved[f * channels + c]);
        assert(call_ensures(sum, (sums[f][c], all[f][c]), sums[f][c + 1]));
    }
    sums
}

/// A frame is mixed by itself: where two streams of samples agree in a frame, they
/// agree in what it is mixed to.
pub proof fn lemma_frames_are_mixed_each_by_itself<S, A: Fn(S, S) -> S, D: Fn(S, usize) -> S>(
    interleaved: Seq<S>,
    other: Seq<S>,
    frames: usize,
    channels: usize,
    zero: S,
    sum: A,
    divide: D,
    mono: Seq<S>,
    other_mono: Seq<S>,
    f: int,
)
    requires
        functions::has_one_result_of_two(sum),
        functions::has_one_result_of_two(divide),
        frames * channels <= interleaved.len(),
        frames * channels <= other.len(),
        is_mix(frames_of(interleaved, frames as int, channels as int), zero, sum, divide, mono),
        is_mix(frames_of(other, frames as int, channels as int), zero, sum, divide, other_mono),
        0 <= f < frames,
        forall|c: int|
            0 <= c < channels ==> #[trigger] interleaved[f * channels + c] == other[f * channels
                + c],
    ensures
        other_mono[f] == mono[f],
{
    let sums = lemma_what_mixing_does(interleaved, frames, channels, zero, sum, divide, mono);
    let other_sums = lemma_what_mixing_does(
        other,
        frames,
        channels,
        zero,
        sum,
        divide,
        other_mono,
    );
    assert(sums[f].len() == channels + 1 && other_sums[f].len() == channels + 1);
    let frame = Seq::new(channels as nat, |c: int| interleaved[f * channels + c]);
    assert(are_running_sums(frame, zero, sum, sums[f]));
    assert forall|c: int| 0 <= c < frame.len() implies call_ensures(
        sum,
        (other_sums[f][c], frame[c]),
        #[trigger] other_sums[f][c + 1],
    ) by {
        assert(interleaved[f * channels + c] == other[f * channels + c]);
    }
    assert(are_running_sums(frame, zero, sum, other_sums[f]));
    lemma_running_sums_agree(frame, zero, sum, sums[f], other_sums[f], channels as int);
}

/// What a mean is: a quotient, by the number of channels, of a sum of all channels
/// of the frame, each added once, in order, to zero. Gives the running sums.
pub proof fn lemma_what_a_mean_is<S, A: Fn(S, S) -> S, D: Fn(S, usize) -> S>(
    frame: Seq<S>,
    zero: S,
    sum: A,
    divide: D,
    mono: S,
) -> (sums: Seq<S>)
    requires
        is_mean(frame, zero, sum, divide, mono),
    ensures
        sums.len() == frame.len() + 1,
        sums[0] == zero,
        forall|c: int|
            0 <= c < frame.len() ==> call_ensures(
                sum,
                (sums[c], frame[c]),
                #[trigger] sums[c + 1],
            ),
        call_ensures(divide, (sums[frame.len() as int], frame.len() as usize), mono),
{
    lemma_sums_of_mean(frame, zero, sum, divide, mono)
}

/// Which samples a frame has: of interleaved samples, the one of each channel, at
/// the place of the frame.
pub proof fn lemma_which_samples_a_frame_has<S>(
    interleaved: Seq<S>,
    frames: int,
    channels: int,
    f: int,
)
    requires
        0 <= f < frames,
        0 <= channels,
        frames * channels <= interleaved.len(),
    ensures
        frames_of(interleaved, frames, channels).len() == frames,
        frames_of(interleaved, frames, channels)[f].len() == channels,
        forall|c: int|
            0 <= c < channels ==> #[trigger] frames_of(interleaved, frames, channels)[f][c]
                == interleaved[f * channels + c],
{
    assert(0 <= f * channels && f * channels + channels <= frames * channels) by (nonlinear_arith)
        requires
            0 <= f < frames,
            0 <= channels,
    ;
}

} // verus!
