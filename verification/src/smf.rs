//! The Standard MIDI File that is being built, kept by the `midly` crate.
//!
//! Each function here hands its arguments to `midly`, and its contract, which is
//! not proved, says what `midly` does with them. A file is described by
//! two names. [`smf_header`] is the format and the division word of the header
//! chunk. [`smf_tracks`] is the list of tracks, where an event is its delta
//! time and the bytes of its message with the status byte written out.
use vstd::prelude::*;

verus! {

/// The number of distinct delta times.
pub const DELTA_LIMIT: u32 = 0x1000_0000;

/// The number of distinct tempos.
pub const TEMPO_LIMIT: u32 = 0x100_0000;

/// The number of distinct keys, and of distinct velocities.
pub const DATA_LIMIT: u8 = 0x80;

/// The number of channels.
pub const CHANNEL_LIMIT: u8 = 0x10;

/// The number of distinct counts of ticks per beat.
pub const DIVISION_LIMIT: u16 = 0x8000;

/// `midly::Smf`, a MIDI file in memory.
#[verifier::external_type_specification]
#[verifier::external_body]
pub struct ExSmf<'a>(midly::Smf<'a>);

/// The format number and the division word that a file's header chunk holds.
pub uninterp spec fn smf_header(smf: midly::Smf<'static>) -> (u16, u16);

/// The events of each track of a file: delta time and message bytes.
pub uninterp spec fn smf_tracks(smf: midly::Smf<'static>) -> Seq<Seq<(u32, Seq<u8>)>>;

/// The bytes of a 16-bit number, the most significant first.
pub open spec fn big_endian_16(n: int) -> Seq<u8> {
    seq![(n / 0x100) as u8, (n % 0x100) as u8]
}

/// The bytes of a 24-bit number, the most significant first.
pub open spec fn big_endian_24(n: int) -> Seq<u8> {
    seq![(n / 0x1_0000) as u8, (n / 0x100 % 0x100) as u8, (n % 0x100) as u8]
}

/// The bytes of a 32-bit number, the most significant first.
pub open spec fn big_endian_32(n: int) -> Seq<u8> {
    big_endian_16(n / 0x1_0000) + big_endian_16(n % 0x1_0000)
}

/// The header chunk of a file: `MThd`, the length 6, the format, the number of
/// tracks and the division word.
pub open spec fn header_chunk(header: (u16, u16), tracks: int) -> Seq<u8> {
    seq![0x4d, 0x54, 0x68, 0x64, 0, 0, 0, 6] + big_endian_16(header.0 as int) + big_endian_16(
        tracks,
    ) + big_endian_16(header.1 as int)
}

/// What precedes the events in a track chunk: `MTrk` and the number of bytes
/// that follow.
pub open spec fn track_chunk_start(length: int) -> Seq<u8> {
    seq![0x4d, 0x54, 0x72, 0x6b] + big_endian_32(length)
}

/// The message that sets the tempo, in microseconds per beat.
pub open spec fn tempo_message(micros_per_beat: u32) -> Seq<u8> {
    seq![0xff, 0x51, 3] + big_endian_24(micros_per_beat as int % TEMPO_LIMIT as int)
}

/// The message that starts a note on a channel.
pub open spec fn note_on_message(channel: u8, key: u8, velocity: u8) -> Seq<u8> {
    seq![
        (0x90 + channel % CHANNEL_LIMIT) as u8,
        (key % DATA_LIMIT) as u8,
        (velocity % DATA_LIMIT) as u8,
    ]
}

/// The message that ends a note on a channel.
pub open spec fn note_off_message(channel: u8, key: u8, velocity: u8) -> Seq<u8> {
    seq![
        (0x80 + channel % CHANNEL_LIMIT) as u8,
        (key % DATA_LIMIT) as u8,
        (velocity % DATA_LIMIT) as u8,
    ]
}

/// The bytes of a delta time but for the last: seven bits in each, the most
/// significant first, without zeros in front, and with the top bit set.
pub open spec fn leading_bytes(n: int) -> Seq<u8>
    decreases n,
{
    if n <= 0 {
        Seq::empty()
    } else {
        leading_bytes(n / 0x80).push((0x80 + n % 0x80) as u8)
    }
}

/// The bytes of a delta time: its last seven bits stand in the last byte.
pub open spec fn variable_length(n: int) -> Seq<u8> {
    leading_bytes(n / 0x80).push((n % 0x80) as u8)
}

/// Whether a message is to a channel, and so may leave out a status byte that is
/// the one of the message before it.
pub open spec fn is_channel_message(message: Seq<u8>) -> bool {
    0x80 <= message[0] < 0xf0
}

/// The events of a track as its chunk holds them: each with its delta time, and
/// with its status byte unless it is to a channel and the event before it had the
/// same.
pub open spec fn laid_out(events: Seq<(u32, Seq<u8>)>) -> Seq<u8>
    decreases events.len(),
{
    if events.len() == 0 {
        Seq::empty()
    } else {
        let before = events.drop_last();
        let (delta, message) = events.last();
        let runs_on = before.len() > 0 && is_channel_message(message) && before.last().1[0]
            == message[0];
        laid_out(before) + variable_length(delta as int) + if runs_on {
            message.skip(1)
        } else {
            message
        }
    }
}

/// The bytes of a file with a header and one track, or nothing where the events
/// take more bytes than the length field of a chunk can say.
pub open spec fn file_bytes(header: (u16, u16), events: Seq<(u32, Seq<u8>)>) -> Option<Seq<u8>> {
    let body = laid_out(events);
    if body.len() <= u32::MAX {
        Some(header_chunk(header, 1) + track_chunk_start(body.len() as int) + body)
    } else {
        None
    }
}

/// Whether every message has a status byte and no message is longer than the one
/// that sets the tempo.
pub open spec fn are_short(events: Seq<(u32, Seq<u8>)>) -> bool {
    forall|i: int| 0 <= i < events.len() ==> 1 <= (#[trigger] events[i]).1.len() <= 6
}

/// A file of the format with a single track, with that track empty.
///
/// Calls `midly::Header::new` with `Format::SingleTrack`, which is format 0, and
/// with `Timing::Metrical`, whose division word is the count of ticks per beat.
/// The conversion into `u15` drops the top bit of that count.
#[verifier::external_body]
pub(crate) fn new_single_track(ticks_per_beat: u16) -> (smf: midly::Smf<'static>)
    ensures
        smf_header(smf) == (0u16, (ticks_per_beat % DIVISION_LIMIT) as u16),
        smf_tracks(smf) == seq![Seq::<(u32, Seq<u8>)>::empty()],
{
    let timing = midly::Timing::Metrical(ticks_per_beat.into());
    midly::Smf {
        header: midly::Header::new(midly::Format::SingleTrack, timing),
        tracks: vec![midly::Track::new()],
    }
}

/// Appends a tempo event to the only track of a file.
///
/// Builds a `midly::TrackEvent` with `MetaMessage::Tempo`. The conversion into
/// `u28` drops the top four bits of the delta time, and
/// `midly::num::u24::from_int_lossy` drops the top eight bits of the tempo.
#[verifier::external_body]
pub(crate) fn push_tempo(smf: &mut midly::Smf<'static>, delta: u32, micros_per_beat: u32)
    requires
        smf_tracks(*old(smf)).len() == 1,
    ensures
        smf_header(*final(smf)) == smf_header(*old(smf)),
        smf_tracks(*final(smf)) == seq![
            smf_tracks(*old(smf))[0].push(
                ((delta % DELTA_LIMIT) as u32, tempo_message(micros_per_beat)),
            ),
        ],
{
    let tempo = midly::num::u24::from_int_lossy(micros_per_beat);
    smf.tracks[0].push(midly::TrackEvent {
        delta: delta.into(),
        kind: midly::TrackEventKind::Meta(midly::MetaMessage::Tempo(tempo)),
    });
}

/// Appends the start of a note to the only track of a file.
///
/// Builds a `midly::TrackEvent` with `MidiMessage::NoteOn`. The conversions into
/// `u28`, `u4` and `u7` drop the top four bits of the delta time, the top four
/// bits of the channel, and the top bit of the key and of the velocity.
#[verifier::external_body]
pub(crate) fn push_note_on(
    smf: &mut midly::Smf<'static>,
    delta: u32,
    channel: u8,
    key: u8,
    velocity: u8,
)
    requires
        smf_tracks(*old(smf)).len() == 1,
    ensures
        smf_header(*final(smf)) == smf_header(*old(smf)),
        smf_tracks(*final(smf)) == seq![
            smf_tracks(*old(smf))[0].push(
                ((delta % DELTA_LIMIT) as u32, note_on_message(channel, key, velocity)),
            ),
        ],
{
    let message = midly::MidiMessage::NoteOn { key: key.into(), vel: velocity.into() };
    smf.tracks[0].push(midly::TrackEvent {
        delta: delta.into(),
        kind: midly::TrackEventKind::Midi { channel: channel.into(), message },
    });
}

/// Appends the end of a note to the only track of a file.
///
/// Builds a `midly::TrackEvent` with `MidiMessage::NoteOff`. The conversions
/// into `u28`, `u4` and `u7` drop the top four bits of the delta time, the top
/// four bits of the channel, and the top bit of the key and of the velocity.
#[verifier::external_body]
pub(crate) fn push_note_off(
    smf: &mut midly::Smf<'static>,
    delta: u32,
    channel: u8,
    key: u8,
    velocity: u8,
)
    requires
        smf_tracks(*old(smf)).len() == 1,
    ensures
        smf_header(*final(smf)) == smf_header(*old(smf)),
        smf_tracks(*final(smf)) == seq![
            smf_tracks(*old(smf))[0].push(
                ((delta % DELTA_LIMIT) as u32, note_off_message(channel, key, velocity)),
            ),
        ],
{
    let message = midly::MidiMessage::NoteOff { key: key.into(), vel: velocity.into() };
    smf.tracks[0].push(midly::TrackEvent {
        delta: delta.into(),
        kind: midly::TrackEventKind::Midi { channel: channel.into(), message },
    });
}

/// The bytes of a file with one track, or nothing where the track is too long
/// for the format.
///
/// Calls `midly::Smf::write` on a vector. It writes the header chunk and then the
/// track chunk: the length of the events and the events, each with its delta time
/// as a variable-length number and then its message, where a message to a channel
/// leaves out a status byte equal to the one before it. It fails only where the
/// length of the events needs more than 32 bits.
#[verifier::external_body]
pub(crate) fn encode(smf: &midly::Smf<'static>) -> (bytes: Option<Vec<u8>>)
    requires
        smf_tracks(*smf).len() == 1,
        are_short(smf_tracks(*smf)[0]),
    ensures
        match bytes {
            Some(written) => file_bytes(smf_header(*smf), smf_tracks(*smf)[0]) == Some(written@),
            None => file_bytes(smf_header(*smf), smf_tracks(*smf)[0]) is None,
        },
{
    let mut bytes = Vec::new();
    smf.write(&mut bytes).ok().map(|_| bytes)
}

/// An event takes at most ten bytes: four for its delta time and six for its
/// message.
pub(crate) proof fn lemma_laid_out_length(events: Seq<(u32, Seq<u8>)>)
    requires
        are_short(events),
        forall|i: int| 0 <= i < events.len() ==> (#[trigger] events[i]).0 < DELTA_LIMIT,
    ensures
        laid_out(events).len() <= events.len() * 10,
    decreases events.len(),
{
    if events.len() > 0 {
        let before = events.drop_last();
        assert(forall|i: int| 0 <= i < before.len() ==> before[i] == events[i]);
        lemma_laid_out_length(before);
        let (delta, message) = events[events.len() - 1];
        assert(variable_length(delta as int).len() <= 4) by {
            reveal_with_fuel(leading_bytes, 4);
        }
    }
}

/// How the events of a chunk grow: one more event adds its delta time, and its
/// message without the status byte exactly where it is to a channel and the event
/// before it has the same status.
pub proof fn lemma_how_a_chunk_grows(
    events: Seq<(u32, Seq<u8>)>,
    delta: u32,
    message: Seq<u8>,
)
    requires
        message.len() > 0,
    ensures
        laid_out(Seq::empty()) == Seq::<u8>::empty(),
        laid_out(events.push((delta, message))) == laid_out(events) + variable_length(
            delta as int,
        ) + if events.len() > 0 && 0x80 <= message[0] < 0xf0 && events.last().1[0] == message[0] {
            message.skip(1)
        } else {
            message
        },
{
    assert(events.push((delta, message)).drop_last() =~= events);
}

/// How delta times are written: seven bits in each byte, the most significant
/// first, with the top bit set in all but the last, in as few bytes as will do.
pub proof fn lemma_how_delta_times_are_written(n: int)
    requires
        0 <= n < 0x1000_0000,
    ensures
        n < 0x80 ==> variable_length(n) == seq![n as u8],
        0x80 <= n < 0x4000 ==> variable_length(n) == seq![
            (0x80 + n / 0x80) as u8,
            (n % 0x80) as u8,
        ],
        0x4000 <= n < 0x20_0000 ==> variable_length(n) == seq![
            (0x80 + n / 0x4000) as u8,
            (0x80 + n / 0x80 % 0x80) as u8,
            (n % 0x80) as u8,
        ],
        0x20_0000 <= n ==> variable_length(n) == seq![
            (0x80 + n / 0x20_0000) as u8,
            (0x80 + n / 0x4000 % 0x80) as u8,
            (0x80 + n / 0x80 % 0x80) as u8,
            (n % 0x80) as u8,
        ],
{
    reveal_with_fuel(leading_bytes, 4);
    assert(n / 0x80 / 0x80 == n / 0x4000);
    assert(n / 0x80 / 0x80 / 0x80 == n / 0x20_0000);
    assert(n / 0x80 / 0x80 / 0x80 / 0x80 == 0);
    if n < 0x80 {
        assert(variable_length(n) =~= seq![n as u8]);
    } else if n < 0x4000 {
        assert(variable_length(n) =~= seq![(0x80 + n / 0x80) as u8, (n % 0x80) as u8]);
    } else if n < 0x20_0000 {
        assert(variable_length(n) =~= seq![
            (0x80 + n / 0x4000) as u8,
            (0x80 + n / 0x80 % 0x80) as u8,
            (n % 0x80) as u8,
        ]);
    } else {
        assert(variable_length(n) =~= seq![
            (0x80 + n / 0x20_0000) as u8,
            (0x80 + n / 0x4000 % 0x80) as u8,
            (0x80 + n / 0x80 % 0x80) as u8,
            (n % 0x80) as u8,
        ]);
    }
}

} // verus!
