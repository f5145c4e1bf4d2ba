//! What a whole run of the decoding loop comes to.
//!
//! A run is a sequence of turns. In each, the loop asks the stream for a packet
//! and goes by [`after_fetch`](crate::audio::after_fetch), and where that says so
//! it decodes the packet and goes by
//! [`after_decode`](crate::audio::after_decode). Nothing else goes into it: not
//! how many samples the stream said it would have.
use vstd::prelude::*;

use crate::audio;
use crate::audio::{AfterDecode, AfterFetch, Decoded, Fetched, SelectedTrack, TrackInfo};
use crate::functions;
use crate::mixing;

verus! {

/// How far the decoding loop has come.
#[derive(Clone, Copy, PartialEq, Eq, Structural, Debug)]
pub enum Progress {
    Running,
    Finished,
    Failed,
}

/// One turn of the decoding loop: what fetching brought, and what decoding would
/// bring of it.
pub type Turn = (Fetched, Decoded);

/// Where a running loop stands after one more turn.
pub open spec fn standing_after(track_id: u32, turn: Turn) -> Progress {
    match audio::after_fetch_spec(track_id, turn.0) {
        AfterFetch::FetchNext => Progress::Running,
        AfterFetch::Finish => Progress::Finished,
        AfterFetch::Fail => Progress::Failed,
        AfterFetch::Decode => match audio::after_decode_spec(turn.1) {
            AfterDecode::Fail => Progress::Failed,
            _ => Progress::Running,
        },
    }
}

/// Where the decoding loop stands after some turns.
pub open spec fn progress(track_id: u32, turns: Seq<Turn>) -> Progress
    decreases turns.len(),
{
    if turns.len() == 0 {
        Progress::Running
    } else if progress(track_id, turns.drop_last()) != Progress::Running {
        progress(track_id, turns.drop_last())
    } else {
        standing_after(track_id, turns.last())
    }
}

/// Whether the frames of a turn are mixed, when the loop gets to it.
pub open spec fn is_mixed(track_id: u32, turn: Turn) -> bool {
    &&& audio::after_fetch_spec(track_id, turn.0) == AfterFetch::Decode
    &&& audio::after_decode_spec(turn.1) == AfterDecode::MixAndFetchNext
}

/// The turns whose frames are mixed before the loop ends, in order.
pub open spec fn mixed_turns(track_id: u32, turns: Seq<Turn>) -> Seq<int>
    decreases turns.len(),
{
    if turns.len() == 0 {
        Seq::empty()
    } else {
        let before = mixed_turns(track_id, turns.drop_last());
        if progress(track_id, turns.drop_last()) == Progress::Running && is_mixed(
            track_id,
            turns.last(),
        ) {
            before.push(turns.len() - 1)
        } else {
            before
        }
    }
}

/// The values at some indices.
pub open spec fn picked<T>(values: Seq<T>, indices: Seq<int>) -> Seq<T> {
    Seq::new(indices.len(), |k: int| values[indices[k]])
}

/// Whether each of `monos` is what mixing makes of the frames at its place.
pub open spec fn are_mixes<S, A: Fn(S, S) -> S, D: Fn(S, usize) -> S>(
    sounds: Seq<Seq<Seq<S>>>,
    zero: S,
    sum: A,
    divide: D,
    monos: Seq<Seq<S>>,
) -> bool {
    &&& monos.len() == sounds.len()
    &&& forall|k: int|
        0 <= k < sounds.len() ==> mixing::is_mix(
            sounds[k],
            zero,
            sum,
            divide,
            #[trigger] monos[k],
        )
}

/// Whether `samples` are those of a run: the mixed frames of the turns that are
/// mixed, one after another. `sounds` are the frames to which the packet of each
/// turn decodes.
pub open spec fn is_loaded<S, A: Fn(S, S) -> S, D: Fn(S, usize) -> S>(
    track_id: u32,
    turns: Seq<Turn>,
    sounds: Seq<Seq<Seq<S>>>,
    zero: S,
    sum: A,
    divide: D,
    samples: Seq<S>,
) -> bool {
    exists|monos: Seq<Seq<S>>|
        {
            &&& #[trigger] are_mixes(
                picked(sounds, mixed_turns(track_id, turns)),
                zero,
                sum,
                divide,
                monos,
            )
            &&& samples == monos.flatten()
        }
}

/// Whether `result` is what loading a stream with those tracks comes to: the
/// samples of a finished run over the selected track, and the rate of that
/// track, or nothing where no track has a codec or the run failed.
pub open spec fn is_load_result<S, A: Fn(S, S) -> S, D: Fn(S, usize) -> S>(
    tracks: Seq<TrackInfo>,
    turns: Seq<Turn>,
    sounds: Seq<Seq<Seq<S>>>,
    zero: S,
    sum: A,
    divide: D,
    result: Option<(Seq<S>, u32)>,
) -> bool {
    match result {
        Some((samples, rate)) => exists|track: SelectedTrack|
            {
                &&& #[trigger] audio::selects(tracks, track)
                &&& rate == track.sample_rate
                &&& progress(track.id, turns) == Progress::Finished
                &&& is_loaded(track.id, turns, sounds, zero, sum, divide, samples)
            },
        None => audio::selects_none(tracks) || exists|track: SelectedTrack| #[trigger]
            audio::selects(tracks, track) && progress(track.id, turns) == Progress::Failed,
    }
}

/// Takes one turn of the decoding loop while it is running: mixes the frames of
/// the packet where the turn says so, and says where the loop then stands.
///
/// Frames are looked at only where they are mixed.
pub fn take_turn<S: Copy, A: Fn(S, S) -> S, D: Fn(S, usize) -> S>(
    track_id: u32,
    turn: Turn,
    samples: &mut Vec<S>,
    interleaved: &[S],
    frames: usize,
    channels: usize,
    zero: S,
    sum: A,
    divide: D,
) -> (standing: Progress)
    requires
        is_mixed(track_id, turn) ==> frames * channels <= interleaved@.len(),
        is_mixed(track_id, turn) ==> forall|a: S, b: S| call_requires(sum, (a, b)),
        is_mixed(track_id, turn) ==> forall|a: S| call_requires(divide, (a, channels)),
    ensures
        standing == standing_after(track_id, turn),
        if is_mixed(track_id, turn) {
            &&& old(samples)@.is_prefix_of(final(samples)@)
            &&& mixing::is_mix(
                mixing::frames_of(interleaved@, frames as int, channels as int),
                zero,
                sum,
                divide,
                final(samples)@.skip(old(samples)@.len() as int),
            )
        } else {
            final(samples)@ == old(samples)@
        },
        forall|turns: Seq<Turn>, sounds: Seq<Seq<Seq<S>>>|
            {
                &&& progress(track_id, turns) == Progress::Running
                &&& #[trigger] is_loaded(track_id, turns, sounds, zero, sum, divide, old(samples)@)
                &&& is_mixed(track_id, turn) ==> sounds[turns.len() as int] == mixing::frames_of(
                    interleaved@,
                    frames as int,
                    channels as int,
                )
            } ==> {
                &&& progress(track_id, turns.push(turn)) == standing
                &&& is_loaded(
                    track_id,
                    turns.push(turn),
                    sounds,
                    zero,
                    sum,
                    divide,
                    final(samples)@,
                )
            },
{
    let ghost before = samples@;
    let (fetched, decoded): (Fetched, Decoded) = turn;
    let standing: Progress = match audio::after_fetch(track_id, fetched) {
        AfterFetch::FetchNext => Progress::Running,
        AfterFetch::Finish => Progress::Finished,
        AfterFetch::Fail => Progress::Failed,
        AfterFetch::Decode => match audio::after_decode(decoded) {
            AfterDecode::ReportAndFetchNext => Progress::Running,
            AfterDecode::Fail => Progress::Failed,
            AfterDecode::MixAndFetchNext => {
                mixing::mix_down(samples, interleaved, frames, channels, zero, sum, divide);
                Progress::Running
            },
        },
    };
    proof {
        let mono = samples@.skip(before.len() as int);
        assert(samples@ =~= before + mono);
        assert forall|turns: Seq<Turn>, sounds: Seq<Seq<Seq<S>>>|
            {
                &&& progress(track_id, turns) == Progress::Running
                &&& #[trigger] is_loaded(track_id, turns, sounds, zero, sum, divide, before)
                &&& is_mixed(track_id, turn) ==> sounds[turns.len() as int] == mixing::frames_of(
                    interleaved@,
                    frames as int,
                    channels as int,
                )
            } implies {
            &&& progress(track_id, turns.push(turn)) == standing
            &&& is_loaded(track_id, turns.push(turn), sounds, zero, sum, divide, samples@)
        } by {
            assert(turns.push(turn).drop_last() =~= turns);
            lemma_turn_adds_its_mix(
                track_id,
                turns,
                turn,
                sounds,
                zero,
                sum,
                divide,
                before,
                mono,
            );
        }
    }
    standing
}

/// Whether the loop passes over a turn without its mattering: the packet is of
/// another track, or damaged.
pub open spec fn is_passed_over(track_id: u32, turn: Turn) -> bool {
    turn.0 matches Fetched::Packet { track_id: id } && (id != track_id || turn.1
        == Decoded::Damaged)
}

/// Whether `kept` are indices of turns, in order, among which only turns are
/// missing that are passed over.
pub open spec fn leaves_out_passed_over(track_id: u32, turns: Seq<Turn>, kept: Seq<int>) -> bool {
    &&& forall|k: int| 0 <= k < kept.len() ==> 0 <= #[trigger] kept[k] < turns.len()
    &&& forall|k: int, l: int| 0 <= k < l < kept.len() ==> kept[k] < kept[l]
    &&& forall|i: int|
        0 <= i < turns.len() ==> kept.contains(i) || is_passed_over(track_id, #[trigger] turns[i])
}

/// A stream that breaks off loads: whatever packets came, of this track or
/// another, damaged or not, the loop runs on, and the end of the stream finishes
/// it, unless fetching failed before, or decoding a packet of this track.
pub proof fn lemma_broken_off_stream_loads(track_id: u32, turns: Seq<Turn>, last: Decoded)
    requires
        forall|i: int| 0 <= i < turns.len() ==> (#[trigger] turns[i]).0 is Packet,
        forall|i: int|
            0 <= i < turns.len() && (#[trigger] turns[i]).0 == (Fetched::Packet { track_id })
                ==> !(turns[i].1 is Failure),
    ensures
        progress(track_id, turns) == Progress::Running,
        progress(track_id, turns.push((Fetched::StreamEnd, last))) == Progress::Finished,
    decreases turns.len(),
{
    if turns.len() > 0 {
        let before = turns.drop_last();
        assert(forall|i: int| 0 <= i < before.len() ==> before[i] == turns[i]);
        lemma_broken_off_stream_loads(track_id, before, last);
        assert(turns[turns.len() - 1].0 is Packet);
    }
    assert(turns.push((Fetched::StreamEnd, last)).drop_last() =~= turns);
}

/// Packets of other tracks are never mixed, and neither are damaged ones.
pub proof fn lemma_only_sound_packets_of_the_track_are_mixed(track_id: u32, turn: Turn)
    ensures
        is_mixed(track_id, turn) <==> turn.0 == (Fetched::Packet { track_id }) && turn.1
            == Decoded::Frames,
{
}

/// The turns that are mixed are turns of the run, in order, at which the loop is
/// still running.
pub proof fn lemma_mixed_turns_come_in_order(track_id: u32, turns: Seq<Turn>)
    ensures
        forall|k: int|
            0 <= k < mixed_turns(track_id, turns).len() ==> {
                let i = #[trigger] mixed_turns(track_id, turns)[k];
                &&& 0 <= i < turns.len()
                &&& is_mixed(track_id, turns[i])
                &&& progress(track_id, turns.take(i)) == Progress::Running
            },
        forall|k: int, l: int|
            0 <= k < l < mixed_turns(track_id, turns).len() ==> mixed_turns(track_id, turns)[k]
                < mixed_turns(track_id, turns)[l],
    decreases turns.len(),
{
    if turns.len() > 0 {
        let before = turns.drop_last();
        lemma_mixed_turns_come_in_order(track_id, before);
        assert(turns.take(turns.len() - 1) =~= before);
        assert forall|k: int| 0 <= k < mixed_turns(track_id, turns).len() implies {
            let i = #[trigger] mixed_turns(track_id, turns)[k];
            &&& 0 <= i < turns.len()
            &&& is_mixed(track_id, turns[i])
            &&& progress(track_id, turns.take(i)) == Progress::Running
        } by {
            if k < mixed_turns(track_id, before).len() {
                let i = mixed_turns(track_id, before)[k];
                assert(turns.take(i) =~= before.take(i));
            }
        }
    }
}

/// Leaving out packets of other tracks and damaged packets, all or some of them,
/// changes neither how a run ends nor which turns are mixed, but for their
/// numbers.
pub proof fn lemma_passed_over_turns_leave_the_run(
    track_id: u32,
    turns: Seq<Turn>,
    kept: Seq<int>,
)
    requires
        leaves_out_passed_over(track_id, turns, kept),
    ensures
        progress(track_id, picked(turns, kept)) == progress(track_id, turns),
        picked(kept, mixed_turns(track_id, picked(turns, kept))) == mixed_turns(track_id, turns),
    decreases turns.len(),
{
    let few = picked(turns, kept);
    if turns.len() == 0 {
        if kept.len() > 0 {
            assert(kept[0] < turns.len());
        }
        assert(few =~= turns);
        assert(mixed_turns(track_id, few) =~= Seq::empty());
        assert(picked(kept, mixed_turns(track_id, few)) =~= mixed_turns(track_id, turns));
    } else {
        let last = turns.len() - 1;
        let before = turns.drop_last();
        assert(forall|i: int| 0 <= i < before.len() ==> before[i] == turns[i]);
        if kept.len() > 0 && kept.last() == last {
            let rest = kept.drop_last();
            assert forall|i: int| 0 <= i < before.len() implies rest.contains(i) || is_passed_over(
                track_id,
                #[trigger] before[i],
            ) by {
                if kept.contains(i) {
                    let k = choose|k: int| 0 <= k < kept.len() && kept[k] == i;
                    assert(rest[k] == i);
                }
            }
            assert forall|k: int| 0 <= k < rest.len() implies 0 <= #[trigger] rest[k]
                < before.len() by {
                assert(kept[k] < kept[kept.len() - 1]);
            }
            lemma_passed_over_turns_leave_the_run(track_id, before, rest);
            let fewer = picked(before, rest);
            assert(few.drop_last() =~= fewer);
            assert(few.last() == turns.last());
            lemma_mixed_turns_come_in_order(track_id, fewer);
            assert(picked(kept, mixed_turns(track_id, fewer)) =~= picked(
                rest,
                mixed_turns(track_id, fewer),
            ));
            if progress(track_id, before) == Progress::Running && is_mixed(
                track_id,
                turns.last(),
            ) {
                assert(mixed_turns(track_id, few) == mixed_turns(track_id, fewer).push(
                    few.len() - 1,
                ));
                assert(picked(kept, mixed_turns(track_id, few)) =~= picked(
                    rest,
                    mixed_turns(track_id, fewer),
                ).push(last));
            }
        } else {
            assert forall|k: int| 0 <= k < kept.len() implies 0 <= #[trigger] kept[k]
                < before.len() by {
                if k < kept.len() - 1 {
                    assert(kept[k] < kept[kept.len() - 1]);
                }
            }
            assert(!kept.contains(last));
            assert(is_passed_over(track_id, turns[last]));
            lemma_passed_over_turns_leave_the_run(track_id, before, kept);
            assert(picked(before, kept) =~= few);
        }
    }
}

/// Before the first turn there are no samples.
pub proof fn lemma_loading_starts_empty<S, A: Fn(S, S) -> S, D: Fn(S, usize) -> S>(
    track_id: u32,
    sounds: Seq<Seq<Seq<S>>>,
    zero: S,
    sum: A,
    divide: D,
)
    ensures
        is_loaded(track_id, Seq::empty(), sounds, zero, sum, divide, Seq::empty()),
{
    let monos = Seq::<Seq<S>>::empty();
    let turns = Seq::<Turn>::empty();
    assert(are_mixes(picked(sounds, mixed_turns(track_id, turns)), zero, sum, divide, monos));
    assert(monos.flatten() =~= Seq::<S>::empty());
}

/// A turn adds to the samples what mixing makes of its frames, where it is mixed,
/// and nothing elsewhere.
pub proof fn lemma_turn_adds_its_mix<S, A: Fn(S, S) -> S, D: Fn(S, usize) -> S>(
    track_id: u32,
    turns: Seq<Turn>,
    turn: Turn,
    sounds: Seq<Seq<Seq<S>>>,
    zero: S,
    sum: A,
    divide: D,
    samples: Seq<S>,
    mono: Seq<S>,
)
    requires
        is_loaded(track_id, turns, sounds, zero, sum, divide, samples),
        if progress(track_id, turns) == Progress::Running && is_mixed(track_id, turn) {
            mixing::is_mix(sounds[turns.len() as int], zero, sum, divide, mono)
        } else {
            mono.len() == 0
        },
    ensures
        is_loaded(track_id, turns.push(turn), sounds, zero, sum, divide, samples + mono),
{
    let mixed = mixed_turns(track_id, turns);
    let monos = choose|monos: Seq<Seq<S>>|
        {
            &&& #[trigger] are_mixes(picked(sounds, mixed), zero, sum, divide, monos)
            &&& samples == monos.flatten()
        };
    let longer = turns.push(turn);
    assert(longer.drop_last() =~= turns);
    if progress(track_id, turns) == Progress::Running && is_mixed(track_id, turn) {
        let more = monos.push(mono);
        monos.lemma_flatten_push(mono);
        let sources = picked(sounds, mixed_turns(track_id, longer));
        assert forall|k: int| 0 <= k < sources.len() implies mixing::is_mix(
            sources[k],
            zero,
            sum,
            divide,
            #[trigger] more[k],
        ) by {
            if k < mixed.len() {
                assert(sources[k] == picked(sounds, mixed)[k]);
                assert(more[k] == monos[k]);
            }
        }
        assert(are_mixes(sources, zero, sum, divide, more));
    } else {
        assert(samples + mono =~= samples);
    }
}

/// The turns and the frames settle the samples.
proof fn lemma_samples_have_one_outcome<S, A: Fn(S, S) -> S, D: Fn(S, usize) -> S>(
    sounds: Seq<Seq<Seq<S>>>,
    zero: S,
    sum: A,
    divide: D,
    one: Seq<Seq<S>>,
    other: Seq<Seq<S>>,
)
    requires
        functions::has_one_result_of_two(sum),
        functions::has_one_result_of_two(divide),
        are_mixes(sounds, zero, sum, divide, one),
        are_mixes(sounds, zero, sum, divide, other),
    ensures
        one == other,
{
    assert forall|k: int| 0 <= k < sounds.len() implies one[k] == other[k] by {
        mixing::lemma_mix_has_one_outcome(sounds[k], zero, sum, divide, one[k], other[k]);
    }
    assert(one =~= other);
}

/// Loading depends on the tracks, on the turns and on the frames to which their
/// packets decode, and on nothing else: two streams that agree in these give the
/// same samples at the same rate, or both give nothing, whatever else their
/// headers say.
pub proof fn lemma_loading_has_one_outcome<S, A: Fn(S, S) -> S, D: Fn(S, usize) -> S>(
    tracks: Seq<TrackInfo>,
    turns: Seq<Turn>,
    sounds: Seq<Seq<Seq<S>>>,
    zero: S,
    sum: A,
    divide: D,
    one: Option<(Seq<S>, u32)>,
    other: Option<(Seq<S>, u32)>,
)
    requires
        functions::has_one_result_of_two(sum),
        functions::has_one_result_of_two(divide),
        is_load_result(tracks, turns, sounds, zero, sum, divide, one),
        is_load_result(tracks, turns, sounds, zero, sum, divide, other),
    ensures
        one == other,
{
    assert forall|a: SelectedTrack, b: SelectedTrack| #[trigger]
        audio::selects(tracks, a) && #[trigger] audio::selects(tracks, b) implies a
        == b by {
        audio::lemma_selection_has_one_outcome(tracks, a, b);
    }
    assert forall|a: SelectedTrack| #[trigger]
        audio::selects(tracks, a) implies !audio::selects_none(tracks) by {
        audio::lemma_selection_has_one_outcome(tracks, a, a);
    }
    if let (Some((one_samples, _)), Some((other_samples, _))) = (one, other) {
        let track = choose|track: SelectedTrack|
            {
                &&& #[trigger] audio::selects(tracks, track)
                &&& is_loaded(track.id, turns, sounds, zero, sum, divide, one_samples)
            };
        let sources = picked(sounds, mixed_turns(track.id, turns));
        let one_monos = choose|monos: Seq<Seq<S>>|
            #[trigger] are_mixes(sources, zero, sum, divide, monos) && one_samples
                == monos.flatten();
        let other_monos = choose|monos: Seq<Seq<S>>|
            #[trigger] are_mixes(sources, zero, sum, divide, monos) && other_samples
                == monos.flatten();
        lemma_samples_have_one_outcome(sources, zero, sum, divide, one_monos, other_monos);
    }
}

/// Leaving out packets of other tracks and damaged packets, all or some of them,
/// changes nothing in what loading comes to: such packets add no samples, make
/// nothing fail and hold nothing up.
pub proof fn lemma_passed_over_packets_change_nothing<
    S,
    A: Fn(S, S) -> S,
    D: Fn(S, usize) -> S,
>(
    tracks: Seq<TrackInfo>,
    track: SelectedTrack,
    turns: Seq<Turn>,
    sounds: Seq<Seq<Seq<S>>>,
    kept: Seq<int>,
    zero: S,
    sum: A,
    divide: D,
    result: Option<(Seq<S>, u32)>,
)
    requires
        audio::selects(tracks, track),
        leaves_out_passed_over(track.id, turns, kept),
    ensures
        is_load_result(
            tracks,
            picked(turns, kept),
            picked(sounds, kept),
            zero,
            sum,
            divide,
            result,
        ) <==> is_load_result(tracks, turns, sounds, zero, sum, divide, result),
{
    assert forall|other: SelectedTrack| #[trigger]
        audio::selects(tracks, other) implies other == track by {
        audio::lemma_selection_has_one_outcome(tracks, track, other);
    }
    audio::lemma_selection_has_one_outcome(tracks, track, track);
    lemma_passed_over_turns_leave_the_run(track.id, turns, kept);
    let few = picked(turns, kept);
    lemma_mixed_turns_come_in_order(track.id, few);
    assert(picked(picked(sounds, kept), mixed_turns(track.id, few)) =~= picked(
        sounds,
        mixed_turns(track.id, turns),
    )) by {
        let mixed = mixed_turns(track.id, few);
        assert forall|k: int| 0 <= k < mixed.len() implies picked(sounds, kept)[#[trigger] mixed[k]]
            == sounds[mixed_turns(track.id, turns)[k]] by {
            assert(picked(kept, mixed)[k] == kept[mixed[k]]);
        }
    }
}

/// Two streams with the same tracks load alike where they come to the same
/// packets once packets of other tracks and damaged packets are left out of
/// both, wherever and however many those were.
pub proof fn lemma_streams_with_the_same_core_load_alike<
    S,
    A: Fn(S, S) -> S,
    D: Fn(S, usize) -> S,
>(
    tracks: Seq<TrackInfo>,
    track: SelectedTrack,
    turns: Seq<Turn>,
    sounds: Seq<Seq<Seq<S>>>,
    kept: Seq<int>,
    other_turns: Seq<Turn>,
    other_sounds: Seq<Seq<Seq<S>>>,
    other_kept: Seq<int>,
    zero: S,
    sum: A,
    divide: D,
    result: Option<(Seq<S>, u32)>,
)
    requires
        audio::selects(tracks, track),
        leaves_out_passed_over(track.id, turns, kept),
        leaves_out_passed_over(track.id, other_turns, other_kept),
        picked(turns, kept) == picked(other_turns, other_kept),
        picked(sounds, kept) == picked(other_sounds, other_kept),
    ensures
        is_load_result(tracks, turns, sounds, zero, sum, divide, result) <==> is_load_result(
            tracks,
            other_turns,
            other_sounds,
            zero,
            sum,
            divide,
            result,
        ),
{
    lemma_passed_over_packets_change_nothing(
        tracks,
        track,
        turns,
        sounds,
        kept,
        zero,
        sum,
        divide,
        result,
    );
    lemma_passed_over_packets_change_nothing(
        tracks,
        track,
        other_turns,
        other_sounds,
        other_kept,
        zero,
        sum,
        divide,
        result,
    );
}

/// Cutting a run that finishes short, at any place, leaves a run that finishes
/// with the end of the stream, and the turns that it mixes are the first ones
/// that the whole run mixes.
pub proof fn lemma_cut_run_mixes_the_first_turns(
    track_id: u32,
    turns: Seq<Turn>,
    n: int,
    last: Decoded,
)
    requires
        progress(track_id, turns) == Progress::Finished,
        0 <= n <= turns.len(),
    ensures
        progress(track_id, turns.take(n).push((Fetched::StreamEnd, last))) == Progress::Finished,
        mixed_turns(track_id, turns.take(n).push((Fetched::StreamEnd, last))) == mixed_turns(
            track_id,
            turns.take(n),
        ),
        mixed_turns(track_id, turns.take(n)).is_prefix_of(mixed_turns(track_id, turns)),
{
    lemma_prefix_of_run(track_id, turns, n);
    let cut = turns.take(n);
    assert(cut.push((Fetched::StreamEnd, last)).drop_last() =~= cut);
}

/// What a run has come to after some of its turns stays.
proof fn lemma_prefix_of_run(track_id: u32, turns: Seq<Turn>, n: int)
    requires
        0 <= n <= turns.len(),
    ensures
        progress(track_id, turns.take(n)) == Progress::Running || progress(track_id, turns.take(n))
            == progress(track_id, turns),
        mixed_turns(track_id, turns.take(n)).is_prefix_of(mixed_turns(track_id, turns)),
    decreases turns.len(),
{
    if n == turns.len() {
        assert(turns.take(n) =~= turns);
        assert(mixed_turns(track_id, turns) =~= mixed_turns(track_id, turns).take(
            mixed_turns(track_id, turns).len() as int,
        ));
    } else {
        let before = turns.drop_last();
        lemma_prefix_of_run(track_id, before, n);
        assert(before.take(n) =~= turns.take(n));
        let short = mixed_turns(track_id, turns.take(n));
        assert(short =~= mixed_turns(track_id, turns).take(short.len() as int));
    }
}

/// A stream that is cut short loads like the whole one: at the same rate, with
/// the samples of the packets that came, which are the first ones of the whole.
pub proof fn lemma_cut_stream_loads_the_first_samples<
    S,
    A: Fn(S, S) -> S,
    D: Fn(S, usize) -> S,
>(
    tracks: Seq<TrackInfo>,
    turns: Seq<Turn>,
    sounds: Seq<Seq<Seq<S>>>,
    n: int,
    last: Decoded,
    zero: S,
    sum: A,
    divide: D,
    samples: Seq<S>,
    rate: u32,
)
    requires
        is_load_result(tracks, turns, sounds, zero, sum, divide, Some((samples, rate))),
        0 <= n <= turns.len(),
    ensures
        exists|first: Seq<S>|
            {
                &&& #[trigger] first.is_prefix_of(samples)
                &&& is_load_result(
                    tracks,
                    turns.take(n).push((Fetched::StreamEnd, last)),
                    sounds,
                    zero,
                    sum,
                    divide,
                    Some((first, rate)),
                )
            },
        functions::has_one_result_of_two(sum) && functions::has_one_result_of_two(divide) ==> forall|
            result: Option<(Seq<S>, u32)>,
        | #[trigger]
            is_load_result(
                tracks,
                turns.take(n).push((Fetched::StreamEnd, last)),
                sounds,
                zero,
                sum,
                divide,
                result,
            ) ==> (result matches Some((first, its_rate)) && its_rate == rate
                && first.is_prefix_of(samples)),
{
    let track = choose|track: SelectedTrack|
        {
            &&& #[trigger] audio::selects(tracks, track)
            &&& rate == track.sample_rate
            &&& progress(track.id, turns) == Progress::Finished
            &&& is_loaded(track.id, turns, sounds, zero, sum, divide, samples)
        };
    let cut = turns.take(n).push((Fetched::StreamEnd, last));
    lemma_cut_run_mixes_the_first_turns(track.id, turns, n, last);
    let all = mixed_turns(track.id, turns);
    let some = mixed_turns(track.id, cut);
    let monos = choose|monos: Seq<Seq<S>>|
        #[trigger] are_mixes(picked(sounds, all), zero, sum, divide, monos) && samples
            == monos.flatten();
    let first_monos = monos.take(some.len() as int);
    let first = first_monos.flatten();
    assert forall|k: int| 0 <= k < some.len() implies mixing::is_mix(
        picked(sounds, some)[k],
        zero,
        sum,
        divide,
        #[trigger] first_monos[k],
    ) by {
        assert(some[k] == all[k]);
        assert(first_monos[k] == monos[k]);
        assert(picked(sounds, some)[k] == picked(sounds, all)[k]);
    }
    assert(are_mixes(picked(sounds, some), zero, sum, divide, first_monos));
    assert(monos =~= first_monos + monos.skip(some.len() as int));
    vstd::seq_lib::lemma_flatten_concat(first_monos, monos.skip(some.len() as int));
    assert(first =~= samples.take(first.len() as int));
    assert(first.is_prefix_of(samples));
    assert(is_load_result(tracks, cut, sounds, zero, sum, divide, Some((first, rate))));
    if functions::has_one_result_of_two(sum) && functions::has_one_result_of_two(divide) {
        assert forall|result: Option<(Seq<S>, u32)>| #[trigger]
            is_load_result(tracks, cut, sounds, zero, sum, divide, result) implies result
            == Some((first, rate)) by {
            lemma_loading_has_one_outcome(
                tracks,
                cut,
                sounds,
                zero,
                sum,
                divide,
                result,
                Some((first, rate)),
            );
        }
    }
}

/// Whether `same` goes both ways and carries over.
pub open spec fn is_symmetric_and_transitive<S>(same: spec_fn(S, S) -> bool) -> bool {
    &&& forall|a: S, b: S| #[trigger] same(a, b) ==> same(b, a)
    &&& forall|a: S, b: S, c: S| #[trigger] same(a, b) && #[trigger] same(b, c) ==> same(a, c)
}

/// The first channel of what the mixed turns of a run decode to.
pub open spec fn first_channel_of_run<S>(
    track_id: u32,
    turns: Seq<Turn>,
    sounds: Seq<Seq<Seq<S>>>,
) -> Seq<S> {
    picked(sounds, mixed_turns(track_id, turns)).map_values(
        |frames: Seq<Seq<S>>| mixing::first_channel(frames),
    ).flatten()
}

/// Whether every packet that is mixed has one channel, with samples that are
/// within bounds.
pub open spec fn is_mono_run<S>(
    track_id: u32,
    turns: Seq<Turn>,
    sounds: Seq<Seq<Seq<S>>>,
    within: spec_fn(S) -> bool,
) -> bool {
    forall|i: int|
        0 <= i < turns.len() && is_mixed(track_id, #[trigger] turns[i]) ==> mixing::is_mono(
            sounds[i],
            within,
        )
}

/// A stream with one channel loads as the samples of that channel.
pub proof fn lemma_mono_stream_loads_as_it_is<S, A: Fn(S, S) -> S, D: Fn(S, usize) -> S>(
    tracks: Seq<TrackInfo>,
    track: SelectedTrack,
    turns: Seq<Turn>,
    sounds: Seq<Seq<Seq<S>>>,
    zero: S,
    sum: A,
    divide: D,
    within: spec_fn(S) -> bool,
    same: spec_fn(S, S) -> bool,
    samples: Seq<S>,
    rate: u32,
)
    requires
        mixing::adds_from_zero(zero, sum, within, same),
        mixing::divides_by_one(divide, within, same),
        audio::selects(tracks, track),
        is_mono_run(track.id, turns, sounds, within),
        is_load_result(tracks, turns, sounds, zero, sum, divide, Some((samples, rate))),
    ensures
        rate == track.sample_rate,
        mixing::all_same(samples, first_channel_of_run(track.id, turns, sounds), same),
{
    let monos = lemma_mixes_of_load(
        tracks,
        track,
        turns,
        sounds,
        zero,
        sum,
        divide,
        samples,
        rate,
    );
    let mixed = mixed_turns(track.id, turns);
    let sources = picked(sounds, mixed);
    let channels = sources.map_values(|frames: Seq<Seq<S>>| mixing::first_channel(frames));
    lemma_mixed_turns_come_in_order(track.id, turns);
    assert forall|k: int| 0 <= k < monos.len() implies mixing::all_same(
        #[trigger] monos[k],
        channels[k],
        same,
    ) by {
        assert(is_mixed(track.id, turns[mixed[k]]));
        mixing::lemma_one_channel_stays(sources[k], zero, sum, divide, within, same, monos[k]);
    }
    lemma_flattened_same(monos, channels, same);
}

/// A stream with two equal channels loads as the samples of each.
pub proof fn lemma_doubled_stream_loads_as_one<S, A: Fn(S, S) -> S, D: Fn(S, usize) -> S>(
    tracks: Seq<TrackInfo>,
    track: SelectedTrack,
    turns: Seq<Turn>,
    sounds: Seq<Seq<Seq<S>>>,
    zero: S,
    sum: A,
    divide: D,
    within: spec_fn(S) -> bool,
    same: spec_fn(S, S) -> bool,
    samples: Seq<S>,
    rate: u32,
)
    requires
        mixing::adds_from_zero(zero, sum, within, same),
        mixing::halves_a_double(sum, divide, within, same),
        audio::selects(tracks, track),
        turns.len() <= sounds.len(),
        is_mono_run(track.id, turns, sounds, within),
        is_load_result(
            tracks,
            turns,
            sounds.map_values(|frames: Seq<Seq<S>>| mixing::doubled(frames)),
            zero,
            sum,
            divide,
            Some((samples, rate)),
        ),
    ensures
        rate == track.sample_rate,
        mixing::all_same(samples, first_channel_of_run(track.id, turns, sounds), same),
{
    let twins = sounds.map_values(|frames: Seq<Seq<S>>| mixing::doubled(frames));
    let monos = lemma_mixes_of_load(
        tracks,
        track,
        turns,
        twins,
        zero,
        sum,
        divide,
        samples,
        rate,
    );
    let mixed = mixed_turns(track.id, turns);
    let sources = picked(sounds, mixed);
    let channels = sources.map_values(|frames: Seq<Seq<S>>| mixing::first_channel(frames));
    lemma_mixed_turns_come_in_order(track.id, turns);
    assert forall|k: int| 0 <= k < monos.len() implies mixing::all_same(
        #[trigger] monos[k],
        channels[k],
        same,
    ) by {
        assert(is_mixed(track.id, turns[mixed[k]]));
        assert(picked(twins, mixed)[k] == mixing::doubled(sources[k]));
        mixing::lemma_equal_channels_stay(sources[k], zero, sum, divide, within, same, monos[k]);
    }
    lemma_flattened_same(monos, channels, same);
}

/// A stream with two equal channels loads like the one with that channel alone.
pub proof fn lemma_doubled_stream_loads_like_mono<S, A: Fn(S, S) -> S, D: Fn(S, usize) -> S>(
    tracks: Seq<TrackInfo>,
    track: SelectedTrack,
    turns: Seq<Turn>,
    sounds: Seq<Seq<Seq<S>>>,
    zero: S,
    sum: A,
    divide: D,
    within: spec_fn(S) -> bool,
    same: spec_fn(S, S) -> bool,
    mono: (Seq<S>, u32),
    doubled: (Seq<S>, u32),
)
    requires
        mixing::adds_from_zero(zero, sum, within, same),
        mixing::divides_by_one(divide, within, same),
        mixing::halves_a_double(sum, divide, within, same),
        is_symmetric_and_transitive(same),
        audio::selects(tracks, track),
        turns.len() <= sounds.len(),
        is_mono_run(track.id, turns, sounds, within),
        is_load_result(tracks, turns, sounds, zero, sum, divide, Some(mono)),
        is_load_result(
            tracks,
            turns,
            sounds.map_values(|frames: Seq<Seq<S>>| mixing::doubled(frames)),
            zero,
            sum,
            divide,
            Some(doubled),
        ),
    ensures
        doubled.1 == mono.1,
        mixing::all_same(doubled.0, mono.0, same),
{
    lemma_mono_stream_loads_as_it_is(
        tracks,
        track,
        turns,
        sounds,
        zero,
        sum,
        divide,
        within,
        same,
        mono.0,
        mono.1,
    );
    lemma_doubled_stream_loads_as_one(
        tracks,
        track,
        turns,
        sounds,
        zero,
        sum,
        divide,
        within,
        same,
        doubled.0,
        doubled.1,
    );
    let channel = first_channel_of_run(track.id, turns, sounds);
    assert forall|i: int| 0 <= i < doubled.0.len() implies same(
        #[trigger] doubled.0[i],
        mono.0[i],
    ) by {
        assert(same(doubled.0[i], channel[i]));
        assert(same(mono.0[i], channel[i]));
        assert(same(channel[i], mono.0[i]));
    }
}

/// Exchanging the two channels of a stream changes nothing in what it loads as.
pub proof fn lemma_exchanged_channels_load_alike<S, A: Fn(S, S) -> S, D: Fn(S, usize) -> S>(
    tracks: Seq<TrackInfo>,
    track: SelectedTrack,
    turns: Seq<Turn>,
    sounds: Seq<Seq<Seq<S>>>,
    zero: S,
    sum: A,
    divide: D,
    within: spec_fn(S) -> bool,
    same: spec_fn(S, S) -> bool,
    one: (Seq<S>, u32),
    other: (Seq<S>, u32),
)
    requires
        mixing::adds_from_zero(zero, sum, within, same),
        mixing::adds_in_either_order(sum, within, same),
        mixing::halves_alike(divide, same),
        audio::selects(tracks, track),
        turns.len() <= sounds.len(),
        forall|i: int|
            0 <= i < turns.len() && is_mixed(track.id, #[trigger] turns[i]) ==> mixing::is_stereo(
                sounds[i],
                within,
            ),
        is_load_result(tracks, turns, sounds, zero, sum, divide, Some(one)),
        is_load_result(
            tracks,
            turns,
            sounds.map_values(|frames: Seq<Seq<S>>| mixing::exchanged(frames)),
            zero,
            sum,
            divide,
            Some(other),
        ),
    ensures
        one.1 == other.1,
        mixing::all_same(one.0, other.0, same),
{
    let turned = sounds.map_values(|frames: Seq<Seq<S>>| mixing::exchanged(frames));
    let monos = lemma_mixes_of_load(tracks, track, turns, sounds, zero, sum, divide, one.0, one.1);
    let other_monos = lemma_mixes_of_load(
        tracks,
        track,
        turns,
        turned,
        zero,
        sum,
        divide,
        other.0,
        other.1,
    );
    let mixed = mixed_turns(track.id, turns);
    let sources = picked(sounds, mixed);
    lemma_mixed_turns_come_in_order(track.id, turns);
    assert forall|k: int| 0 <= k < monos.len() implies mixing::all_same(
        #[trigger] monos[k],
        other_monos[k],
        same,
    ) by {
        assert(is_mixed(track.id, turns[mixed[k]]));
        assert(picked(turned, mixed)[k] == mixing::exchanged(sources[k]));
        mixing::lemma_exchanged_channels_mix_alike(
            sources[k],
            zero,
            sum,
            divide,
            within,
            same,
            monos[k],
            other_monos[k],
        );
    }
    lemma_flattened_same(monos, other_monos, same);
}

/// The mixes of which the samples of a load are made.
proof fn lemma_mixes_of_load<S, A: Fn(S, S) -> S, D: Fn(S, usize) -> S>(
    tracks: Seq<TrackInfo>,
    track: SelectedTrack,
    turns: Seq<Turn>,
    sounds: Seq<Seq<Seq<S>>>,
    zero: S,
    sum: A,
    divide: D,
    samples: Seq<S>,
    rate: u32,
) -> (monos: Seq<Seq<S>>)
    requires
        audio::selects(tracks, track),
        is_load_result(tracks, turns, sounds, zero, sum, divide, Some((samples, rate))),
    ensures
        rate == track.sample_rate,
        are_mixes(picked(sounds, mixed_turns(track.id, turns)), zero, sum, divide, monos),
        samples == monos.flatten(),
{
    assert forall|other: SelectedTrack| #[trigger]
        audio::selects(tracks, other) implies other == track by {
        audio::lemma_selection_has_one_outcome(tracks, track, other);
    }
    choose|monos: Seq<Seq<S>>|
        {
            &&& #[trigger] are_mixes(
                picked(sounds, mixed_turns(track.id, turns)),
                zero,
                sum,
                divide,
                monos,
            )
            &&& samples == monos.flatten()
        }
}

/// Pieces that are the same, one for one, join to the same.
proof fn lemma_flattened_same<S>(
    one: Seq<Seq<S>>,
    other: Seq<Seq<S>>,
    same: spec_fn(S, S) -> bool,
)
    requires
        one.len() == other.len(),
        forall|k: int| 0 <= k < one.len() ==> mixing::all_same(#[trigger] one[k], other[k], same),
    ensures
        mixing::all_same(one.flatten(), other.flatten(), same),
    decreases one.len(),
{
    if one.len() > 0 {
        let before = one.drop_last();
        let other_before = other.drop_last();
        assert(forall|k: int|
            0 <= k < before.len() ==> before[k] == one[k] && other_before[k] == other[k]);
        lemma_flattened_same(before, other_before, same);
        before.lemma_flatten_push(one.last());
        other_before.lemma_flatten_push(other.last());
        assert(before.push(one.last()) =~= one);
        assert(other_before.push(other.last()) =~= other);
        assert(mixing::all_same(one[one.len() - 1], other[one.len() - 1], same));
        let (all, other_all) = (one.flatten(), other.flatten());
        assert forall|i: int| 0 <= i < all.len() implies same(#[trigger] all[i], other_all[i]) by {
            let split = before.flatten().len();
            if i < split {
                assert(all[i] == before.flatten()[i]);
                assert(other_all[i] == other_before.flatten()[i]);
            } else {
                assert(all[i] == one.last()[i - split]);
                assert(other_all[i] == other.last()[i - split]);
            }
        }
    }
}

// What the loop is for.
/// How a turn leaves the loop: running after every packet but one of the track
/// that cannot be decoded, finished by the end of the stream, and failed by a
/// failure.
pub proof fn lemma_how_a_turn_leaves_the_loop(track_id: u32, turn: Turn)
    ensures
        standing_after(track_id, turn) == Progress::Finished <==> turn.0 == Fetched::StreamEnd,
        standing_after(track_id, turn) == Progress::Failed <==> turn.0 == Fetched::Failure || (
        turn.0 == (Fetched::Packet { track_id }) && turn.1 == Decoded::Failure),
{
}

/// How a run ends: with the first turn that brings the end of the stream or a
/// failure, and as that turn says. Until then it is running, however many turns
/// there are.
pub proof fn lemma_how_a_run_ends(track_id: u32, turns: Seq<Turn>)
    ensures
        progress(track_id, turns) == Progress::Running <==> forall|i: int|
            0 <= i < turns.len() ==> (#[trigger] turns[i]).0 is Packet && !(turns[i].0
                == (Fetched::Packet { track_id }) && turns[i].1 == Decoded::Failure),
        forall|n: int|
            0 <= n < turns.len() && progress(track_id, #[trigger] turns.take(n))
                == Progress::Running && turns[n].0 == Fetched::StreamEnd ==> progress(
                track_id,
                turns,
            ) == Progress::Finished,
        forall|n: int|
            0 <= n < turns.len() && progress(track_id, #[trigger] turns.take(n))
                == Progress::Running && (turns[n].0 == Fetched::Failure || (turns[n].0
                == (Fetched::Packet { track_id }) && turns[n].1 == Decoded::Failure)) ==> progress(
                track_id,
                turns,
            ) == Progress::Failed,
    decreases turns.len(),
{
    if turns.len() > 0 {
        let before = turns.drop_last();
        let last = turns.len() - 1;
        lemma_how_a_run_ends(track_id, before);
        assert(forall|i: int| 0 <= i < before.len() ==> before[i] == turns[i]);
        assert(turns[last] == turns.last());
        if progress(track_id, turns) == Progress::Running {
            assert forall|i: int| 0 <= i < turns.len() implies (#[trigger] turns[i]).0 is Packet
                && !(turns[i].0 == (Fetched::Packet { track_id }) && turns[i].1
                == Decoded::Failure) by {
                if i < last {
                    assert(before[i] == turns[i]);
                }
            }
        }
        assert forall|n: int|
            0 <= n < turns.len() && progress(track_id, #[trigger] turns.take(n))
                == Progress::Running && turns[n].0 == Fetched::StreamEnd implies progress(
            track_id,
            turns,
        ) == Progress::Finished by {
            if n < last {
                assert(before.take(n) =~= turns.take(n));
                assert(before[n] == turns[n]);
            } else {
                assert(turns.take(n) =~= before);
            }
        }
        assert forall|n: int|
            0 <= n < turns.len() && progress(track_id, #[trigger] turns.take(n))
                == Progress::Running && (turns[n].0 == Fetched::Failure || (turns[n].0
                == (Fetched::Packet { track_id }) && turns[n].1 == Decoded::Failure)) implies progress(
            track_id,
            turns,
        ) == Progress::Failed by {
            if n < last {
                assert(before.take(n) =~= turns.take(n));
                assert(before[n] == turns[n]);
            } else {
                assert(turns.take(n) =~= before);
            }
        }
    }
}

/// Which turns are mixed: exactly those, in order, that bring frames of a packet of
/// the track before the end of the stream or a failure.
pub proof fn lemma_which_turns_are_mixed(track_id: u32, turns: Seq<Turn>, i: int)
    requires
        0 <= i < turns.len(),
    ensures
        mixed_turns(track_id, turns).contains(i) <==> {
            &&& turns[i].0 == (Fetched::Packet { track_id })
            &&& turns[i].1 == Decoded::Frames
            &&& forall|j: int|
                0 <= j < i ==> (#[trigger] turns[j]).0 is Packet && !(turns[j].0
                    == (Fetched::Packet { track_id }) && turns[j].1 == Decoded::Failure)
        },
        forall|k: int, l: int|
            0 <= k < l < mixed_turns(track_id, turns).len() ==> mixed_turns(track_id, turns)[k]
                < mixed_turns(track_id, turns)[l],
    decreases turns.len(),
{
    lemma_mixed_turns_come_in_order(track_id, turns);
    lemma_how_a_run_ends(track_id, turns.take(i));
    assert(forall|j: int| 0 <= j < i ==> turns.take(i)[j] == turns[j]);
    let before = turns.drop_last();
    let last = turns.len() - 1;
    let mixed = mixed_turns(track_id, turns);
    let some = mixed_turns(track_id, before);
    lemma_mixed_turns_come_in_order(track_id, before);
    assert(turns.last() == turns[last]);
    let runs = forall|j: int|
        0 <= j < i ==> (#[trigger] turns[j]).0 is Packet && !(turns[j].0 == (Fetched::Packet {
            track_id,
        }) && turns[j].1 == Decoded::Failure);
    assert(runs <==> progress(track_id, turns.take(i)) == Progress::Running) by {
        if progress(track_id, turns.take(i)) == Progress::Running {
            assert forall|j: int| 0 <= j < i implies (#[trigger] turns[j]).0 is Packet && !(
            turns[j].0 == (Fetched::Packet { track_id }) && turns[j].1 == Decoded::Failure) by {
                assert(turns.take(i)[j] == turns[j]);
            }
        }
    }
    if i == last {
        assert(turns.take(last) =~= before);
        if mixed.len() > some.len() {
            assert(mixed[mixed.len() - 1] == last);
        } else {
            assert(!mixed.contains(last)) by {
                if mixed.contains(last) {
                    let k = choose|k: int| 0 <= k < mixed.len() && mixed[k] == last;
                    assert(some[k] < before.len());
                }
            }
        }
    } else {
        lemma_which_turns_are_mixed(track_id, before, i);
        assert(before[i] == turns[i]);
        assert(forall|j: int| 0 <= j < i ==> before[j] == turns[j]);
        assert(runs ==> forall|j: int|
            0 <= j < i ==> (#[trigger] before[j]).0 is Packet && !(before[j].0
                == (Fetched::Packet { track_id }) && before[j].1 == Decoded::Failure));
        if !runs {
            let j = choose|j: int|
                0 <= j < i && !((#[trigger] turns[j]).0 is Packet && !(turns[j].0
                    == (Fetched::Packet { track_id }) && turns[j].1 == Decoded::Failure));
            assert(before[j] == turns[j]);
        }
        if mixed.contains(i) {
            let k = choose|k: int| 0 <= k < mixed.len() && mixed[k] == i;
            assert(some[k] == i);
        }
        if some.contains(i) {
            let k = choose|k: int| 0 <= k < some.len() && some[k] == i;
            assert(mixed[k] == i);
        }
    }
}

/// What samples a run has: those of its mixed turns one after another, each turn
/// with one sample for each frame of its packet, the mean of that frame. Gives the
/// samples of each mixed turn.
pub proof fn lemma_what_samples_a_run_has<S, A: Fn(S, S) -> S, D: Fn(S, usize) -> S>(
    track_id: u32,
    turns: Seq<Turn>,
    sounds: Seq<Seq<Seq<S>>>,
    zero: S,
    sum: A,
    divide: D,
    samples: Seq<S>,
) -> (monos: Seq<Seq<S>>)
    requires
        is_loaded(track_id, turns, sounds, zero, sum, divide, samples),
    ensures
        samples == monos.flatten(),
        monos.len() == mixed_turns(track_id, turns).len(),
        forall|k: int|
            0 <= k < monos.len() ==> {
                let frames = sounds[mixed_turns(track_id, turns)[k]];
                &&& (#[trigger] monos[k]).len() == frames.len()
                &&& forall|f: int|
                    0 <= f < frames.len() ==> mixing::is_mean(
                        frames[f],
                        zero,
                        sum,
                        divide,
                        #[trigger] monos[k][f],
                    )
            },
{
    let mixed = mixed_turns(track_id, turns);
    let monos = choose|monos: Seq<Seq<S>>|
        {
            &&& #[trigger] are_mixes(picked(sounds, mixed), zero, sum, divide, monos)
            &&& samples == monos.flatten()
        };
    assert forall|k: int| 0 <= k < monos.len() implies {
        let frames = sounds[mixed[k]];
        &&& (#[trigger] monos[k]).len() == frames.len()
        &&& forall|f: int|
            0 <= f < frames.len() ==> mixing::is_mean(
                frames[f],
                zero,
                sum,
                divide,
                #[trigger] monos[k][f],
            )
    } by {
        assert(picked(sounds, mixed)[k] == sounds[mixed[k]]);
        assert(mixing::is_mix(picked(sounds, mixed)[k], zero, sum, divide, monos[k]));
    }
    monos
}

} // verus!
