//! From notes in time to the bytes of a MIDI file.
use vstd::prelude::*;

use crate::functions;
use crate::notes::NoteInfo;
use crate::single::Single;
use crate::smf;

verus! {

/// Ticks per beat of every file that is written.
pub const TICKS_PER_BEAT: u16 = 480;

/// The channel on which every note is played: the first.
pub const CHANNEL: u8 = 0;

/// The velocity with which every note starts.
pub const NOTE_ON_VELOCITY: u8 = 127;

/// The velocity with which every note ends.
pub const NOTE_OFF_VELOCITY: u8 = 0;

/// A note whose times are counted in ticks from the start of the file.
#[derive(Clone, Copy, PartialEq, Eq, Structural, Debug)]
pub struct TickNote {
    pub onset: u32,
    pub offset: u32,
    pub key: u8,
}

/// An event of a MIDI track. A delta time counts ticks since the event before.
#[derive(Clone, Copy, PartialEq, Eq, Structural, Debug)]
pub enum Event {
    /// Sets the tempo, in microseconds per beat, at the start of the track.
    Tempo { micros_per_beat: u32 },
    /// Starts a note.
    NoteOn { delta: u32, key: u8 },
    /// Ends a note.
    NoteOff { delta: u32, key: u8 },
}

/// Why a MIDI file could not be written.
#[derive(Clone, Copy, PartialEq, Eq, Structural, Debug)]
pub enum MidiError {
    /// The track is longer than the length field of a chunk can say.
    TooLong,
}

impl TickNote {
    /// Whether the note lasts at least one tick.
    pub open spec fn sounds(self) -> bool {
        self.onset < self.offset
    }
}

/// The notes that last at least one tick, in order.
pub open spec fn sounding(notes: Seq<TickNote>) -> Seq<TickNote> {
    notes.filter(|note: TickNote| note.sounds())
}

/// The tick at which the last sounding note ends; 0 before the first.
pub open spec fn last_tick(notes: Seq<TickNote>) -> u32 {
    let heard = sounding(notes);
    if heard.len() == 0 {
        0
    } else {
        heard.last().offset
    }
}

/// The wait before a note that starts at `onset` when the track has come to
/// `now`; none for a note that should have started before.
pub open spec fn wait(now: u32, onset: u32) -> u32 {
    if onset >= now {
        (onset - now) as u32
    } else {
        0
    }
}

/// The two events of a note when the track has come to `now`.
pub open spec fn note_pair(now: u32, note: TickNote) -> Seq<Event> {
    seq![
        Event::NoteOn { delta: wait(now, note.onset), key: note.key },
        Event::NoteOff { delta: (note.offset - note.onset) as u32, key: note.key },
    ]
}

/// The events of notes: each note that sounds starts and ends after what the
/// notes before it put on the track.
pub open spec fn note_events(notes: Seq<TickNote>) -> Seq<Event>
    decreases notes.len(),
{
    if notes.len() == 0 {
        Seq::empty()
    } else {
        let before = notes.drop_last();
        if notes.last().sounds() {
            note_events(before) + note_pair(last_tick(before), notes.last())
        } else {
            note_events(before)
        }
    }
}

/// The events of a track: the tempo, and then the notes.
pub open spec fn track(micros_per_beat: u32, notes: Seq<TickNote>) -> Seq<Event> {
    seq![Event::Tempo { micros_per_beat }] + note_events(notes)
}

/// An event as a MIDI file holds it: its delta time, reduced to the 28 bits
/// that a file has for it, and its message.
pub open spec fn in_file(event: Event) -> (u32, Seq<u8>) {
    match event {
        Event::Tempo { micros_per_beat } => (0u32, smf::tempo_message(micros_per_beat)),
        Event::NoteOn { delta, key } => (
            (delta % smf::DELTA_LIMIT) as u32,
            smf::note_on_message(CHANNEL, key, NOTE_ON_VELOCITY),
        ),
        Event::NoteOff { delta, key } => (
            (delta % smf::DELTA_LIMIT) as u32,
            smf::note_off_message(CHANNEL, key, NOTE_OFF_VELOCITY),
        ),
    }
}

/// The events of a track as a MIDI file holds them.
pub open spec fn all_in_file(events: Seq<Event>) -> Seq<(u32, Seq<u8>)> {
    events.map_values(|event: Event| in_file(event))
}

/// The bytes of the MIDI file with those events, or nothing where they are too
/// many.
pub open spec fn file_of(events: Seq<Event>) -> Option<Seq<u8>> {
    smf::file_bytes((0u16, TICKS_PER_BEAT), all_in_file(events))
}

/// Whether bytes begin as a MIDI file in the format with a single track, with
/// metrical timing, whose only chunk after the header runs to the end.
pub open spec fn is_single_track_file(bytes: Seq<u8>) -> bool {
    &&& 22 <= bytes.len() <= 22 + u32::MAX
    &&& bytes.subrange(0, 14) == smf::header_chunk((0u16, TICKS_PER_BEAT), 1)
    &&& bytes.subrange(14, 22) == smf::track_chunk_start(bytes.len() - 22)
}

/// The events that put notes on a track, after the one that sets the tempo.
///
/// Notes that do not last a tick are left out. A note that would start before
/// the end of the last one follows it without a wait.
pub fn track_events(micros_per_beat: u32, notes: &Vec<TickNote>) -> (events: Vec<Event>)
    ensures
        events@ == track(micros_per_beat, notes@),
{
    let mut events: Vec<Event> = Vec::new();
    events.push(Event::Tempo { micros_per_beat });
    let mut now: u32 = 0;
    let mut i: usize = 0;
    proof {
        assert(notes@.take(0) =~= Seq::empty());
        reveal_with_fuel(Seq::filter, 1);
        assert(events@ =~= track(micros_per_beat, notes@.take(0)));
    }
    while i < notes.len()
        invariant
            i <= notes@.len(),
            events@ == track(micros_per_beat, notes@.take(i as int)),
            now == last_tick(notes@.take(i as int)),
        decreases notes@.len() - i,
    {
        let note: TickNote = notes[i];
        proof {
            lemma_take_one_more(notes@, i as int);
            lemma_last_tick(notes@.take(i + 1));
        }
        i = i + 1;
        if note.offset <= note.onset {
            continue;
        }
        let delta_on: u32 = if note.onset >= now {
            note.onset - now
        } else {
            0
        };
        events.push(Event::NoteOn { delta: delta_on, key: note.key });
        events.push(Event::NoteOff { delta: note.offset - note.onset, key: note.key });
        now = note.offset;
        proof {
            let before = notes@.take(i - 1);
            assert(events@ =~= seq![Event::Tempo { micros_per_beat }] + (note_events(before)
                + note_pair(last_tick(before), note)));
        }
    }
    proof {
        assert(notes@.take(i as int) =~= notes@);
    }
    events
}

/// The bytes of the MIDI file with those events on its only track.
pub fn write_events(events: &Vec<Event>) -> (result: Result<Vec<u8>, MidiError>)
    ensures
        match result {
            Ok(bytes) => file_of(events@) == Some(bytes@) && is_single_track_file(bytes@),
            Err(MidiError::TooLong) => file_of(events@) is None,
        },
        events@.len() * 10 <= u32::MAX ==> result is Ok,
{
    let mut file: midly::Smf<'static> = smf::new_single_track(TICKS_PER_BEAT);
    let mut i: usize = 0;
    proof {
        assert(all_in_file(events@.take(0)) =~= Seq::empty());
    }
    while i < events.len()
        invariant
            i <= events@.len(),
            smf::smf_header(file) == (0u16, TICKS_PER_BEAT),
            smf::smf_tracks(file) == seq![all_in_file(events@.take(i as int))],
        decreases events@.len() - i,
    {
        match events[i] {
            Event::Tempo { micros_per_beat } => smf::push_tempo(&mut file, 0, micros_per_beat),
            Event::NoteOn { delta, key } => {
                smf::push_note_on(&mut file, delta, CHANNEL, key, NOTE_ON_VELOCITY)
            },
            Event::NoteOff { delta, key } => {
                smf::push_note_off(&mut file, delta, CHANNEL, key, NOTE_OFF_VELOCITY)
            },
        }
        proof {
            let before = all_in_file(events@.take(i as int));
            let after = all_in_file(events@.take(i + 1));
            assert(after =~= before.push(in_file(events@[i as int])));
        }
        i = i + 1;
    }
    proof {
        assert(events@.take(i as int) =~= events@);
        smf::lemma_laid_out_length(all_in_file(events@));
        lemma_file_begins(all_in_file(events@));
    }
    written(smf::encode(&file))
}

/// A file begins with its header and the start of its track.
proof fn lemma_file_begins(events: Seq<(u32, Seq<u8>)>)
    ensures
        smf::file_bytes((0u16, TICKS_PER_BEAT), events) matches Some(bytes)
            ==> is_single_track_file(bytes),
{
    let body = smf::laid_out(events);
    let header = smf::header_chunk((0u16, TICKS_PER_BEAT), 1);
    let start = smf::track_chunk_start(body.len() as int);
    let bytes = header + start + body;
    assert(bytes.subrange(0, 14) =~= header);
    assert(bytes.subrange(14, 22) =~= start);
}

/// What writing comes to where the bytes of the file are those, or where there
/// are none.
pub fn written(bytes: Option<Vec<u8>>) -> (result: Result<Vec<u8>, MidiError>)
    ensures
        match bytes {
            Some(bytes) => result == Ok::<Vec<u8>, MidiError>(bytes),
            None => result == Err::<Vec<u8>, MidiError>(MidiError::TooLong),
        },
{
    match bytes {
        Some(bytes) => Ok(bytes),
        None => Err(MidiError::TooLong),
    }
}

/// The bytes of the MIDI file that plays notes at a tempo.
pub fn midi_file(micros_per_beat: u32, notes: &Vec<TickNote>) -> (result: Result<
    Vec<u8>,
    MidiError,
>)
    ensures
        match result {
            Ok(bytes) => file_of(track(micros_per_beat, notes@)) == Some(bytes@)
                && is_single_track_file(bytes@),
            Err(MidiError::TooLong) => file_of(track(micros_per_beat, notes@)) is None,
        },
        (2 * notes@.len() + 1) * 10 <= u32::MAX ==> result is Ok,
{
    proof {
        lemma_events_per_note(notes@);
    }
    write_events(&track_events(micros_per_beat, notes))
}

/// Whether `tick` is `note` with its times counted by `ticks` and its pitch
/// rounded to a key by `key`.
pub open spec fn is_quantized<T: Fn(Single) -> u32, K: Fn(Single) -> u8>(
    note: NoteInfo,
    ticks: T,
    key: K,
    tick: TickNote,
) -> bool {
    &&& call_ensures(ticks, (note.onset,), tick.onset)
    &&& call_ensures(ticks, (note.offset,), tick.offset)
    &&& call_ensures(key, (note.pitch,), tick.key)
}

/// Whether `quantized` holds the notes of `notes`, one for one, on ticks.
pub open spec fn all_quantized<T: Fn(Single) -> u32, K: Fn(Single) -> u8>(
    notes: Seq<NoteInfo>,
    ticks: T,
    key: K,
    quantized: Seq<TickNote>,
) -> bool {
    &&& quantized.len() == notes.len()
    &&& forall|i: int|
        0 <= i < notes.len() ==> is_quantized(notes[i], ticks, key, #[trigger] quantized[i])
}

/// Counts the times of notes in ticks and rounds their pitches to keys.
///
/// How many ticks a time is, and which key a pitch, is a matter of floating
/// point, and so of the caller.
pub fn quantize<T: Fn(Single) -> u32, K: Fn(Single) -> u8>(
    notes: &Vec<NoteInfo>,
    ticks: T,
    key: K,
) -> (quantized: Vec<TickNote>)
    requires
        forall|time: Single| call_requires(ticks, (time,)),
        forall|pitch: Single| call_requires(key, (pitch,)),
    ensures
        all_quantized(notes@, ticks, key, quantized@),
        quantized@.len() == notes@.len(),
        forall|i: int|
            0 <= i < notes@.len() ==> call_ensures(
                ticks,
                (notes@[i].onset,),
                (#[trigger] quantized@[i]).onset,
            ) && call_ensures(ticks, (notes@[i].offset,), quantized@[i].offset) && call_ensures(
                key,
                (notes@[i].pitch,),
                quantized@[i].key,
            ),
{
    let mut quantized: Vec<TickNote> = Vec::new();
    let mut i: usize = 0;
    while i < notes.len()
        invariant
            i <= notes@.len(),
            all_quantized(notes@.take(i as int), ticks, key, quantized@),
            forall|time: Single| call_requires(ticks, (time,)),
            forall|pitch: Single| call_requires(key, (pitch,)),
        decreases notes@.len() - i,
    {
        let note: NoteInfo = notes[i];
        let tick: TickNote = TickNote {
            onset: ticks(note.onset),
            offset: ticks(note.offset),
            key: key(note.pitch),
        };
        quantized.push(tick);
        i = i + 1;
    }
    proof {
        assert(notes@.take(i as int) =~= notes@);
    }
    quantized
}

/// The bytes of the MIDI file that plays notes at a tempo, with their times
/// counted by `ticks` and their pitches rounded to keys by `key`.
pub fn write_midi<T: Fn(Single) -> u32, K: Fn(Single) -> u8>(
    notes: &Vec<NoteInfo>,
    micros_per_beat: u32,
    ticks: T,
    key: K,
) -> (result: Result<Vec<u8>, MidiError>)
    requires
        forall|time: Single| call_requires(ticks, (time,)),
        forall|pitch: Single| call_requires(key, (pitch,)),
    ensures
        exists|quantized: Seq<TickNote>| #[trigger]
            all_quantized(notes@, ticks, key, quantized) && match result {
                Ok(bytes) => file_of(track(micros_per_beat, quantized)) == Some(bytes@)
                    && is_single_track_file(bytes@),
                Err(MidiError::TooLong) => file_of(track(micros_per_beat, quantized)) is None,
            },
        (2 * notes@.len() + 1) * 10 <= u32::MAX ==> result is Ok,
{
    let quantized: Vec<TickNote> = quantize(notes, ticks, key);
    midi_file(micros_per_beat, &quantized)
}

/// Whether a time counts as many ticks as another does by another count.
pub open spec fn count_alike<T: Fn(Single) -> u32, U: Fn(Single) -> u32>(
    ticks: T,
    time: Single,
    other_ticks: U,
    other_time: Single,
) -> bool {
    forall|count: u32, other_count: u32| #[trigger]
        call_ensures(ticks, (time,), count) && #[trigger] call_ensures(
            other_ticks,
            (other_time,),
            other_count,
        ) ==> count == other_count
}

/// The same notes at the same tempo give the same bytes, however often they are
/// written, where `ticks` and `key` have one result each.
pub proof fn lemma_same_notes_give_the_same_bytes<T: Fn(Single) -> u32, K: Fn(Single) -> u8>(
    notes: Seq<NoteInfo>,
    micros_per_beat: u32,
    ticks: T,
    key: K,
    one: Seq<TickNote>,
    other: Seq<TickNote>,
)
    requires
        functions::has_one_result(ticks),
        functions::has_one_result(key),
        all_quantized(notes, ticks, key, one),
        all_quantized(notes, ticks, key, other),
    ensures
        one == other,
        file_of(track(micros_per_beat, one)) == file_of(track(micros_per_beat, other)),
{
    assert forall|i: int| 0 <= i < notes.len() implies one[i] == other[i] by {
        assert(is_quantized(notes[i], ticks, key, one[i]));
        assert(is_quantized(notes[i], ticks, key, other[i]));
    }
    assert(one =~= other);
}

/// Note events depend on ticks and keys alone: where two lists of notes have the
/// same pitches and come to the same ticks, each by its own count, their tracks
/// differ in nothing but the tempo. Notes in half the time at twice the tempo,
/// for one, give the same note events.
pub proof fn lemma_same_ticks_give_the_same_note_events<
    T: Fn(Single) -> u32,
    U: Fn(Single) -> u32,
    K: Fn(Single) -> u8,
>(
    notes: Seq<NoteInfo>,
    micros_per_beat: u32,
    ticks: T,
    other_notes: Seq<NoteInfo>,
    other_micros_per_beat: u32,
    other_ticks: U,
    key: K,
    quantized: Seq<TickNote>,
    other_quantized: Seq<TickNote>,
)
    requires
        functions::has_one_result(key),
        notes.len() == other_notes.len(),
        forall|i: int|
            0 <= i < notes.len() ==> (#[trigger] notes[i]).pitch == other_notes[i].pitch
                && count_alike(ticks, notes[i].onset, other_ticks, other_notes[i].onset)
                && count_alike(ticks, notes[i].offset, other_ticks, other_notes[i].offset),
        all_quantized(notes, ticks, key, quantized),
        all_quantized(other_notes, other_ticks, key, other_quantized),
    ensures
        quantized == other_quantized,
        note_events(quantized) == note_events(other_quantized),
        all_in_file(track(micros_per_beat, quantized)).skip(1) == all_in_file(
            track(other_micros_per_beat, other_quantized),
        ).skip(1),
{
    assert forall|i: int| 0 <= i < notes.len() implies quantized[i] == other_quantized[i] by {
        assert(notes[i].pitch == other_notes[i].pitch);
        assert(is_quantized(notes[i], ticks, key, quantized[i]));
        assert(is_quantized(other_notes[i], other_ticks, key, other_quantized[i]));
    }
    assert(quantized =~= other_quantized);
    let events = track(micros_per_beat, quantized);
    let other_events = track(other_micros_per_beat, other_quantized);
    assert forall|i: int| 1 <= i < events.len() implies events[i] == other_events[i] by {}
    assert(all_in_file(events).skip(1) =~= all_in_file(other_events).skip(1));
}

/// The ticks that pass while a track plays.
pub open spec fn elapsed(events: Seq<(u32, Seq<u8>)>) -> int
    decreases events.len(),
{
    if events.len() == 0 {
        0
    } else {
        elapsed(events.drop_last()) + events.last().0
    }
}

/// Whether a message has that status byte and two data bytes.
pub open spec fn has_status(message: Seq<u8>, status: u8) -> bool {
    message.len() == 3 && message[0] == status
}

/// The notes that a listener hears when a track plays: each from a message that
/// starts a key, with a velocity that is not zero, to the message right behind it
/// that ends the same key.
pub open spec fn heard(events: Seq<(u32, Seq<u8>)>) -> Seq<TickNote>
    decreases events.len(),
{
    if events.len() < 2 {
        Seq::empty()
    } else {
        let start = events[events.len() - 2].1;
        let end = events.last().1;
        if has_status(start, 0x90) && start[2] != 0 && has_status(end, 0x80) && start[1]
            == end[1] {
            heard(events.drop_last().drop_last()).push(
                TickNote {
                    onset: elapsed(events.drop_last()) as u32,
                    offset: elapsed(events) as u32,
                    key: start[1],
                },
            )
        } else {
            heard(events.drop_last())
        }
    }
}

/// Whether no note starts before the note in front of it has ended.
pub open spec fn in_turn(notes: Seq<TickNote>) -> bool {
    forall|i: int, j: int| 0 <= i < j < notes.len() ==> notes[i].offset <= notes[j].onset
}

/// Whether every delta time and every key of those notes, played in turn, has
/// room in a MIDI file.
pub open spec fn representable(notes: Seq<TickNote>) -> bool {
    &&& notes.len() > 0 ==> notes[0].onset < smf::DELTA_LIMIT
    &&& forall|i: int, j: int|
        0 <= i < notes.len() && j == i + 1 && j < notes.len() ==> (#[trigger] notes[j]).onset
            - (#[trigger] notes[i]).offset < smf::DELTA_LIMIT
    &&& forall|i: int|
        0 <= i < notes.len() ==> (#[trigger] notes[i]).offset - notes[i].onset
            < smf::DELTA_LIMIT && notes[i].key < smf::DATA_LIMIT
}

/// A written track plays the notes it was made from: where the sounding notes
/// come in turn and their delta times and keys have room in the file, a listener
/// hears exactly those notes, at their own ticks and keys, and the track ends
/// with the last of them.
pub proof fn lemma_track_plays_its_notes(micros_per_beat: u32, notes: Seq<TickNote>)
    requires
        in_turn(sounding(notes)),
        representable(sounding(notes)),
    ensures
        heard(all_in_file(track(micros_per_beat, notes))) == sounding(notes),
        elapsed(all_in_file(track(micros_per_beat, notes))) == last_tick(notes),
    decreases notes.len(),
{
    let events = all_in_file(track(micros_per_beat, notes));
    if notes.len() == 0 {
        reveal_with_fuel(Seq::filter, 1);
        reveal_with_fuel(elapsed, 2);
        assert(track(micros_per_beat, notes) =~= seq![Event::Tempo { micros_per_beat }]);
        assert(heard(events) =~= Seq::empty());
    } else {
        let before = notes.drop_last();
        let note = notes.last();
        let prior = all_in_file(track(micros_per_beat, before));
        lemma_last_tick(notes);
        if note.sounds() {
            let all = sounding(notes);
            assert(all.drop_last() =~= sounding(before));
            assert(all.last() == note);
            lemma_room_without_last(all);
            lemma_track_plays_its_notes(micros_per_beat, before);
            let now = last_tick(before);
            let pair = note_pair(now, note);
            assert(events =~= prior.push(in_file(pair[0])).push(in_file(pair[1])));
            lemma_pair_is_heard(prior, now, note);
        } else {
            lemma_track_plays_its_notes(micros_per_beat, before);
        }
    }
}

/// What holds of notes in turn that have room holds of all but the last, and the
/// last starts no sooner than they end, after a wait that has room.
proof fn lemma_room_without_last(notes: Seq<TickNote>)
    requires
        notes.len() > 0,
        in_turn(notes),
        representable(notes),
    ensures
        in_turn(notes.drop_last()),
        representable(notes.drop_last()),
        ({
            let now = if notes.len() == 1 {
                0u32
            } else {
                notes.drop_last().last().offset
            };
            now <= notes.last().onset && notes.last().onset - now < smf::DELTA_LIMIT
        }),
{
    let some = notes.drop_last();
    assert forall|i: int, j: int| 0 <= i < j < some.len() implies some[i].offset
        <= some[j].onset by {
        assert(some[i] == notes[i] && some[j] == notes[j]);
    }
    assert forall|i: int, j: int|
        0 <= i < some.len() && j == i + 1 && j < some.len() implies (#[trigger] some[j]).onset
        - (#[trigger] some[i]).offset < smf::DELTA_LIMIT by {
        assert(some[i] == notes[i] && some[j] == notes[j]);
    }
    if notes.len() > 1 {
        let last = notes.len() - 1;
        assert(notes[last - 1] == some.last());
        assert(notes[last - 1].offset <= notes[last].onset);
    }
}

/// The pair of events of a note adds that note to what is heard.
proof fn lemma_pair_is_heard(prior: Seq<(u32, Seq<u8>)>, now: u32, note: TickNote)
    requires
        elapsed(prior) == now,
        note.sounds(),
        now <= note.onset,
        note.onset - now < smf::DELTA_LIMIT,
        note.offset - note.onset < smf::DELTA_LIMIT,
        note.key < smf::DATA_LIMIT,
    ensures
        ({
            let pair = note_pair(now, note);
            let events = prior.push(in_file(pair[0])).push(in_file(pair[1]));
            &&& elapsed(events) == note.offset
            &&& heard(events) == heard(prior).push(note)
        }),
{
    let pair = note_pair(now, note);
    let started = prior.push(in_file(pair[0]));
    let events = started.push(in_file(pair[1]));
    assert(started.drop_last() =~= prior);
    assert(events.drop_last() =~= started);
    assert(elapsed(started) == note.onset);
    assert(elapsed(events) == note.offset);
    assert(heard(events) =~= heard(prior).push(note));
}

/// Whether `ticks` never counts fewer ticks for a later time.
pub open spec fn counts_forward<T: Fn(Single) -> u32>(ticks: T) -> bool {
    forall|a: Single, b: Single, x: u32, y: u32|
        a.at_most(b) && #[trigger] call_ensures(ticks, (a,), x) && #[trigger] call_ensures(
            ticks,
            (b,),
            y,
        ) ==> x <= y
}

/// Clean notes come in turn on ticks too: where ticks are counted forward, no
/// note starts on a tick before the one on which the note in front of it ends.
pub proof fn lemma_clean_notes_come_in_turn<T: Fn(Single) -> u32, K: Fn(Single) -> u8>(
    notes: Seq<NoteInfo>,
    ticks: T,
    key: K,
    quantized: Seq<TickNote>,
)
    requires
        crate::notes::is_clean(notes),
        counts_forward(ticks),
        all_quantized(notes, ticks, key, quantized),
    ensures
        in_turn(quantized),
        in_turn(sounding(quantized)),
{
    assert forall|i: int, j: int| 0 <= i < j < quantized.len() implies quantized[i].offset
        <= quantized[j].onset by {
        assert(notes[i].offset.at_most(notes[j].onset));
        assert(is_quantized(notes[i], ticks, key, quantized[i]));
        assert(is_quantized(notes[j], ticks, key, quantized[j]));
    }
    lemma_sounding_in_turn(quantized);
}

/// Clean notes are heard as they are: where ticks are counted forward and the
/// delta times and keys have room in the file, a listener hears every note that
/// lasts a tick, on the ticks and the key that were counted for it.
pub proof fn lemma_clean_notes_are_heard<T: Fn(Single) -> u32, K: Fn(Single) -> u8>(
    notes: Seq<NoteInfo>,
    micros_per_beat: u32,
    ticks: T,
    key: K,
    quantized: Seq<TickNote>,
)
    requires
        crate::notes::is_clean(notes),
        counts_forward(ticks),
        all_quantized(notes, ticks, key, quantized),
        representable(sounding(quantized)),
    ensures
        heard(all_in_file(track(micros_per_beat, quantized))) == sounding(quantized),
{
    lemma_clean_notes_come_in_turn(notes, ticks, key, quantized);
    lemma_track_plays_its_notes(micros_per_beat, quantized);
}

/// Sounding notes come in turn among notes that do, and end by where the next
/// note may start.
proof fn lemma_sounding_in_turn(notes: Seq<TickNote>)
    requires
        in_turn(notes),
    ensures
        in_turn(sounding(notes)),
        forall|i: int| 0 <= i < sounding(notes).len() ==> notes.contains(
            #[trigger] sounding(notes)[i],
        ),
    decreases notes.len(),
{
    if notes.len() == 0 {
        reveal_with_fuel(Seq::filter, 1);
    } else {
        let before = notes.drop_last();
        let some = sounding(before);
        let all = sounding(notes);
        assert forall|i: int, j: int| 0 <= i < j < before.len() implies before[i].offset
            <= before[j].onset by {
            assert(before[i] == notes[i] && before[j] == notes[j]);
        }
        lemma_sounding_in_turn(before);
        lemma_last_tick(notes);
        assert forall|i: int| 0 <= i < some.len() implies exists|k: int|
            0 <= k < notes.len() - 1 && notes[k] == #[trigger] some[i] by {
            let k = choose|k: int| 0 <= k < before.len() && before[k] == some[i];
            assert(notes[k] == some[i]);
        }
        assert forall|i: int| 0 <= i < all.len() implies notes.contains(#[trigger] all[i]) by {
            if i < some.len() {
                assert(all[i] == some[i]);
            } else {
                assert(all[i] == notes[notes.len() - 1]);
            }
        }
        assert forall|i: int, j: int| 0 <= i < j < all.len() implies all[i].offset
            <= all[j].onset by {
            assert(all[i] == some[i]);
            if j < some.len() {
                assert(all[j] == some[j]);
            } else {
                let k = choose|k: int| 0 <= k < notes.len() - 1 && notes[k] == some[i];
                assert(notes[k].offset <= notes[notes.len() - 1].onset);
            }
        }
    }
}

/// Every track begins with its tempo, at tick 0.
pub proof fn lemma_track_begins_with_tempo(micros_per_beat: u32, notes: Seq<TickNote>)
    ensures
        all_in_file(track(micros_per_beat, notes))[0] == (
            0u32,
            smf::tempo_message(micros_per_beat),
        ),
{
}

/// The events of a track, after its tempo, are as many as twice the notes that
/// sound: notes that last no tick leave no trace.
pub proof fn lemma_silent_notes_leave_no_events(micros_per_beat: u32, notes: Seq<TickNote>)
    ensures
        track(micros_per_beat, notes) == track(micros_per_beat, sounding(notes)),
        track(micros_per_beat, notes).len() == 1 + 2 * sounding(notes).len(),
    decreases notes.len(),
{
    lemma_events_per_note(notes);
    if notes.len() == 0 {
        reveal_with_fuel(Seq::filter, 1);
    } else {
        let before = notes.drop_last();
        lemma_silent_notes_leave_no_events(micros_per_beat, before);
        lemma_last_tick(notes);
        let tempo = seq![Event::Tempo { micros_per_beat }];
        assert(track(micros_per_beat, before).skip(1) =~= note_events(before));
        assert(track(micros_per_beat, sounding(before)).skip(1) =~= note_events(
            sounding(before),
        ));
        if notes.last().sounds() {
            let all = sounding(notes);
            assert(all.drop_last() =~= sounding(before));
            lemma_sounding_again(before);
        }
    }
}

/// Among sounding notes all sound.
proof fn lemma_sounding_again(notes: Seq<TickNote>)
    ensures
        sounding(sounding(notes)) == sounding(notes),
    decreases notes.len(),
{
    reveal_with_fuel(Seq::filter, 1);
    if notes.len() > 0 {
        lemma_sounding_again(notes.drop_last());
        lemma_last_tick(notes);
        if notes.last().sounds() {
            assert(sounding(notes).drop_last() =~= sounding(notes.drop_last()));
            lemma_last_tick(sounding(notes));
        }
    }
}

/// No more than two events stand for a note.
proof fn lemma_events_per_note(notes: Seq<TickNote>)
    ensures
        note_events(notes).len() == 2 * sounding(notes).len(),
        sounding(notes).len() <= notes.len(),
    decreases notes.len(),
{
    if notes.len() > 0 {
        lemma_events_per_note(notes.drop_last());
        lemma_last_tick(notes);
    } else {
        reveal_with_fuel(Seq::filter, 1);
    }
}

/// Taking one item more leaves, without it, what was taken before.
proof fn lemma_take_one_more<T>(items: Seq<T>, i: int)
    requires
        0 <= i < items.len(),
    ensures
        items.take(i + 1).drop_last() == items.take(i),
        items.take(i + 1).last() == items[i],
{
    assert(items.take(i + 1).drop_last() =~= items.take(i));
}

/// How the last tick and the sounding notes grow with a note.
proof fn lemma_last_tick(notes: Seq<TickNote>)
    requires
        notes.len() > 0,
    ensures
        notes.last().sounds() ==> sounding(notes) == sounding(notes.drop_last()).push(notes.last()),
        notes.last().sounds() ==> last_tick(notes) == notes.last().offset,
        !notes.last().sounds() ==> sounding(notes) == sounding(notes.drop_last()),
        !notes.last().sounds() ==> last_tick(notes) == last_tick(notes.drop_last()),
{
    reveal_with_fuel(Seq::filter, 1);
}

// What the operations are for.
/// What is on a track: its tempo, and then two events for each note that lasts a
/// tick, in order. A note starts after a wait from the end of the note before it,
/// or from the start of the track, that brings it to its own tick, or at once where
/// that tick is past. It ends after its own length, on the same key. Gives the
/// numbers of the notes that last a tick.
pub proof fn lemma_what_is_on_a_track(micros_per_beat: u32, notes: Seq<TickNote>) -> (origins: Seq<
    int,
>)
    ensures
        forall|k: int| 0 <= k < origins.len() ==> 0 <= #[trigger] origins[k] < notes.len(),
        forall|k: int, l: int| 0 <= k < l < origins.len() ==> origins[k] < origins[l],
        forall|i: int|
            0 <= i < notes.len() ==> (#[trigger] origins.contains(i) <==> notes[i].onset
                < notes[i].offset),
        track(micros_per_beat, notes).len() == 1 + 2 * origins.len(),
        track(micros_per_beat, notes)[0] == (Event::Tempo { micros_per_beat }),
        forall|k: int|
            0 <= k < origins.len() ==> {
                let note = notes[#[trigger] origins[k]];
                let now: u32 = if k == 0 {
                    0
                } else {
                    notes[origins[k - 1]].offset
                };
                let delta: u32 = if note.onset >= now {
                    (note.onset - now) as u32
                } else {
                    0
                };
                &&& track(micros_per_beat, notes)[1 + 2 * k] == (Event::NoteOn {
                    delta,
                    key: note.key,
                })
                &&& track(micros_per_beat, notes)[2 + 2 * k] == (Event::NoteOff {
                    delta: (note.offset - note.onset) as u32,
                    key: note.key,
                })
            },
        last_tick(notes) == if origins.len() == 0 {
            0u32
        } else {
            notes[origins.last()].offset
        },
    decreases notes.len(),
{
    if notes.len() == 0 {
        reveal_with_fuel(Seq::filter, 1);
        Seq::empty()
    } else {
        let some = notes.drop_last();
        let last = notes.len() - 1;
        let before = lemma_what_is_on_a_track(micros_per_beat, some);
        let prior = track(micros_per_beat, some);
        let events = track(micros_per_beat, notes);
        lemma_last_tick(notes);
        assert(forall|i: int| 0 <= i < some.len() ==> some[i] == notes[i]);
        let origins = if notes.last().onset < notes.last().offset {
            before.push(last)
        } else {
            before
        };
        if notes.last().onset < notes.last().offset {
            assert(events =~= prior + note_pair(last_tick(some), notes.last()));
        } else {
            assert(events =~= prior);
        }
        assert forall|i: int| 0 <= i < notes.len() implies (#[trigger] origins.contains(i)
            <==> notes[i].onset < notes[i].offset) by {
            if i < last {
                assert(some[i] == notes[i]);
                if before.contains(i) {
                    let k = choose|k: int| 0 <= k < before.len() && before[k] == i;
                    assert(origins[k] == i);
                }
                if origins.contains(i) {
                    let k = choose|k: int| 0 <= k < origins.len() && origins[k] == i;
                    assert(before[k] == i);
                }
            } else if origins.len() > before.len() {
                assert(origins[origins.len() - 1] == last);
            }
        }
        assert forall|k: int| 0 <= k < origins.len() implies {
            let note = notes[#[trigger] origins[k]];
            let now: u32 = if k == 0 {
                0
            } else {
                notes[origins[k - 1]].offset
            };
            let delta: u32 = if note.onset >= now {
                (note.onset - now) as u32
            } else {
                0
            };
            &&& events[1 + 2 * k] == (Event::NoteOn { delta, key: note.key })
            &&& events[2 + 2 * k] == (Event::NoteOff {
                delta: (note.offset - note.onset) as u32,
                key: note.key,
            })
        } by {
            if k < before.len() {
                assert(before[k] == origins[k]);
                assert(some[before[k]] == notes[before[k]]);
                assert(events[1 + 2 * k] == prior[1 + 2 * k]);
                assert(events[2 + 2 * k] == prior[2 + 2 * k]);
                if k > 0 {
                    assert(before[k - 1] == origins[k - 1]);
                    assert(some[before[k - 1]] == notes[before[k - 1]]);
                }
            } else if k > 0 {
                assert(before.last() == origins[k - 1]);
                assert(some[before[k - 1]] == notes[before[k - 1]]);
            }
        }
        if origins.len() == before.len() && before.len() > 0 {
            assert(some[before[before.len() - 1]] == notes[before[before.len() - 1]]);
        }
        origins
    }
}

/// How a file holds each event: a tempo as the meta message with its three bytes,
/// the start of a note on the first channel with velocity 127 and its end with
/// velocity 0, whatever the delta time and the key.
pub proof fn lemma_how_a_file_holds_events(events: Seq<Event>, i: int)
    requires
        0 <= i < events.len(),
    ensures
        all_in_file(events).len() == events.len(),
        events[i] matches Event::Tempo { micros_per_beat } ==> {
            let (delta, message) = all_in_file(events)[i];
            &&& delta == 0
            &&& message.len() == 6
            &&& message.take(3) == seq![0xffu8, 0x51, 3]
            &&& message[3] * 0x1_0000 + message[4] * 0x100 + message[5] == micros_per_beat
                % 0x100_0000
        },
        events[i] matches Event::NoteOn { delta, key } ==> all_in_file(events)[i] == (
            (delta % 0x1000_0000) as u32,
            seq![0x90u8, (key % 0x80) as u8, 127],
        ),
        events[i] matches Event::NoteOff { delta, key } ==> all_in_file(events)[i] == (
            (delta % 0x1000_0000) as u32,
            seq![0x80u8, (key % 0x80) as u8, 0],
        ),
{
    let (delta, message) = all_in_file(events)[i];
    assert(all_in_file(events)[i] == in_file(events[i]));
    match events[i] {
        Event::Tempo { micros_per_beat } => {
            let n = micros_per_beat as int % smf::TEMPO_LIMIT as int;
            assert(message.take(3) =~= seq![0xffu8, 0x51, 3]);
            assert(n / 0x1_0000 <= 0xff);
            assert(n / 0x1_0000 * 0x1_0000 + n / 0x100 % 0x100 * 0x100 + n % 0x100 == n);
        },
        Event::NoteOn { delta, key } => {
            assert(message =~= seq![0x90u8, (key % 0x80) as u8, 127]);
        },
        Event::NoteOff { delta, key } => {
            assert(message =~= seq![0x80u8, (key % 0x80) as u8, 0]);
        },
    }
}

/// Every message of a file that starts a note has velocity 127, and every one that
/// ends a note has velocity 0.
pub proof fn lemma_velocities_of_a_file(events: Seq<Event>, i: int)
    requires
        0 <= i < events.len(),
    ensures
        all_in_file(events)[i].1[0] == 0x90 ==> all_in_file(events)[i].1[2] == 127,
        all_in_file(events)[i].1[0] == 0x80 ==> all_in_file(events)[i].1[2] == 0,
        all_in_file(events)[i].1[0] == 0x90 <==> events[i] is NoteOn,
        all_in_file(events)[i].1[0] == 0x80 <==> events[i] is NoteOff,
{
    lemma_how_a_file_holds_events(events, i);
    if events[i] is Tempo {
        assert(all_in_file(events)[i].1[0] == all_in_file(events)[i].1.take(3)[0]);
    }
}

/// What the bytes of a file are: the header chunk of a single metrical track with
/// 480 ticks per beat, the start of a track chunk, the number of bytes that follow,
/// and those bytes, which are the events one after another.
pub proof fn lemma_what_the_bytes_of_a_file_are(events: Seq<Event>)
    ensures
        file_of(events) is Some <==> smf::laid_out(all_in_file(events)).len() <= 0xffff_ffff,
        file_of(events) matches Some(bytes) ==> {
            let body = smf::laid_out(all_in_file(events));
            &&& bytes.len() == 22 + body.len()
            &&& bytes.take(18) == seq![
                0x4du8,
                0x54,
                0x68,
                0x64,
                0,
                0,
                0,
                6,
                0,
                0,
                0,
                1,
                0x01,
                0xe0,
                0x4d,
                0x54,
                0x72,
                0x6b,
            ]
            &&& bytes[18] * 0x100_0000 + bytes[19] * 0x1_0000 + bytes[20] * 0x100 + bytes[21]
                == body.len()
            &&& bytes.skip(22) == body
        },
{
    if let Some(bytes) = file_of(events) {
        let body = smf::laid_out(all_in_file(events));
        let n = body.len() as int;
        assert(bytes.skip(22) =~= body);
        assert(bytes.take(18) =~= seq![
            0x4du8,
            0x54,
            0x68,
            0x64,
            0,
            0,
            0,
            6,
            0,
            0,
            0,
            1,
            0x01,
            0xe0,
            0x4d,
            0x54,
            0x72,
            0x6b,
        ]);
        let high = n / 0x1_0000;
        let low = n % 0x1_0000;
        assert(0 <= high <= 0xffff && 0 <= low <= 0xffff && high * 0x1_0000 + low == n);
        assert(bytes[18] == high / 0x100 && bytes[19] == high % 0x100);
        assert(bytes[20] == low / 0x100 && bytes[21] == low % 0x100);
    }
}

/// What counting in ticks does: each note becomes one, at its place, with its own
/// times counted and its own pitch rounded.
pub proof fn lemma_what_counting_in_ticks_does<T: Fn(Single) -> u32, K: Fn(Single) -> u8>(
    notes: Seq<NoteInfo>,
    ticks: T,
    key: K,
    quantized: Seq<TickNote>,
)
    ensures
        all_quantized(notes, ticks, key, quantized) <==> {
            &&& quantized.len() == notes.len()
            &&& forall|i: int|
                0 <= i < notes.len() ==> {
                    let tick = #[trigger] quantized[i];
                    &&& call_ensures(ticks, (notes[i].onset,), tick.onset)
                    &&& call_ensures(ticks, (notes[i].offset,), tick.offset)
                    &&& call_ensures(key, (notes[i].pitch,), tick.key)
                }
        },
{
    if all_quantized(notes, ticks, key, quantized) {
        assert forall|i: int| 0 <= i < notes.len() implies {
            let tick = #[trigger] quantized[i];
            &&& call_ensures(ticks, (notes[i].onset,), tick.onset)
            &&& call_ensures(ticks, (notes[i].offset,), tick.offset)
            &&& call_ensures(key, (notes[i].pitch,), tick.key)
        } by {
            assert(is_quantized(notes[i], ticks, key, quantized[i]));
        }
    }
}

} // verus!
