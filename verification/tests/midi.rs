use game_rs::midi::{
    midi_file, quantize, track_events, write_events, write_midi, written, Event, MidiError,
    TickNote,
};
use game_rs::notes::NoteInfo;
use game_rs::single::Single;
use midly::{Format, MetaMessage, MidiMessage, Smf, Timing, TrackEventKind};

fn single(x: f32) -> Single {
    Single { bits: x.to_bits() }
}

fn tick(onset: u32, offset: u32, key: u8) -> TickNote {
    TickNote { onset, offset, key }
}

/// The absolute tick, whether it starts a note, and the key, of each note event.
fn played(bytes: &[u8]) -> Vec<(u32, bool, u8)> {
    let smf = Smf::parse(bytes).unwrap();
    let mut now = 0;
    let mut events = Vec::new();
    for event in &smf.tracks[0] {
        now += event.delta.as_int();
        match event.kind {
            TrackEventKind::Midi { message: MidiMessage::NoteOn { key, vel }, channel } => {
                assert_eq!(vel.as_int(), 127);
                assert_eq!(channel.as_int(), 0);
                events.push((now, true, key.as_int()));
            }
            TrackEventKind::Midi { message: MidiMessage::NoteOff { key, vel }, channel } => {
                assert_eq!(vel.as_int(), 0);
                assert_eq!(channel.as_int(), 0);
                events.push((now, false, key.as_int()));
            }
            _ => {}
        }
    }
    events
}

#[test]
fn one_note_on_a_track() {
    assert_eq!(
        track_events(500_000, &vec![tick(0, 480, 60)]),
        vec![
            Event::Tempo { micros_per_beat: 500_000 },
            Event::NoteOn { delta: 0, key: 60 },
            Event::NoteOff { delta: 480, key: 60 },
        ]
    );
}

#[test]
fn waits_between_notes() {
    let notes = vec![tick(10, 20, 1), tick(25, 25, 2), tick(30, 29, 3), tick(20, 30, 4), tick(35, 36, 5)];
    assert_eq!(
        track_events(1, &notes),
        vec![
            Event::Tempo { micros_per_beat: 1 },
            Event::NoteOn { delta: 10, key: 1 },
            Event::NoteOff { delta: 10, key: 1 },
            Event::NoteOn { delta: 0, key: 4 },
            Event::NoteOff { delta: 10, key: 4 },
            Event::NoteOn { delta: 5, key: 5 },
            Event::NoteOff { delta: 1, key: 5 },
        ]
    );
}

#[test]
fn late_notes_follow_without_a_wait() {
    assert_eq!(
        track_events(1, &vec![tick(0, 100, 1), tick(50, 60, 2), tick(70, 80, 3)]),
        vec![
            Event::Tempo { micros_per_beat: 1 },
            Event::NoteOn { delta: 0, key: 1 },
            Event::NoteOff { delta: 100, key: 1 },
            Event::NoteOn { delta: 0, key: 2 },
            Event::NoteOff { delta: 10, key: 2 },
            Event::NoteOn { delta: 10, key: 3 },
            Event::NoteOff { delta: 10, key: 3 },
        ]
    );
}

#[test]
fn silent_notes_leave_no_events() {
    assert_eq!(track_events(3, &vec![tick(5, 5, 1), tick(9, 2, 1)]), track_events(3, &vec![]));
    assert_eq!(track_events(3, &vec![]), vec![Event::Tempo { micros_per_beat: 3 }]);
}

#[test]
fn bytes_of_a_file() {
    let bytes = midi_file(500_000, &vec![tick(0, 480, 60)]).unwrap();
    let expected: Vec<u8> = vec![
        0x4d, 0x54, 0x68, 0x64, 0, 0, 0, 6, 0, 0, 0, 1, 0x01, 0xe0, 0x4d, 0x54, 0x72, 0x6b, 0, 0,
        0, 16, 0, 0xff, 0x51, 3, 0x07, 0xa1, 0x20, 0, 0x90, 60, 127, 0x83, 0x60, 0x80, 60, 0,
    ];
    assert_eq!(bytes, expected);
}

#[test]
fn a_file_without_bytes_is_too_long() {
    assert_eq!(written(None), Err(MidiError::TooLong));
    assert_eq!(written(Some(vec![1, 2])), Ok(vec![1, 2]));
}

#[test]
fn bytes_of_a_file_without_notes() {
    let bytes = midi_file(500_000, &vec![]).unwrap();
    assert_eq!(bytes.len(), 29);
    assert_eq!(bytes[22..].to_vec(), vec![0, 0xff, 0x51, 3, 0x07, 0xa1, 0x20]);
}

#[test]
fn a_file_has_one_metrical_track() {
    let bytes = midi_file(600_000, &vec![tick(3, 4, 5)]).unwrap();
    let smf = Smf::parse(&bytes).unwrap();
    assert_eq!(smf.header.format, Format::SingleTrack);
    assert_eq!(smf.header.timing, Timing::Metrical(480.into()));
    assert_eq!(smf.tracks.len(), 1);
    assert_eq!(smf.tracks[0].len(), 3);
    assert_eq!(smf.tracks[0][0].delta.as_int(), 0);
    assert_eq!(smf.tracks[0][0].kind, TrackEventKind::Meta(MetaMessage::Tempo(600_000.into())));
}

#[test]
fn a_file_plays_its_notes() {
    let mut notes = Vec::new();
    for i in 0..1000 {
        notes.push(tick(300 * i, 300 * i + 1 + i % 200, (i % 128) as u8));
    }
    let bytes = midi_file(500_000, &notes).unwrap();
    let mut expected = Vec::new();
    for note in &notes {
        expected.push((note.onset, true, note.key));
        expected.push((note.offset, false, note.key));
    }
    assert_eq!(played(&bytes), expected);
}

#[test]
fn numbers_are_cut_to_what_a_file_holds() {
    let bytes = write_events(&vec![
        Event::Tempo { micros_per_beat: 0x0912_3456 },
        Event::NoteOn { delta: 0x1000_0005, key: 0x85 },
        Event::NoteOff { delta: 0xffff_ffff, key: 0xff },
    ])
    .unwrap();
    assert_eq!(
        bytes[22..].to_vec(),
        vec![
            0, 0xff, 0x51, 3, 0x12, 0x34, 0x56, 5, 0x90, 5, 127, 0xff, 0xff, 0xff, 0x7f, 0x80,
            127, 0,
        ]
    );
}

#[test]
fn a_repeated_status_is_written_once() {
    let bytes = write_events(&vec![
        Event::NoteOn { delta: 0, key: 1 },
        Event::NoteOn { delta: 2, key: 3 },
    ])
    .unwrap();
    assert_eq!(bytes[22..].to_vec(), vec![0, 0x90, 1, 127, 2, 3, 127]);
}

fn ticks_at(tempo: f32) -> impl Fn(Single) -> u32 {
    move |time: Single| (f32::from_bits(time.bits) * tempo * 8.0).round() as u32
}

fn key_of(pitch: Single) -> u8 {
    f32::from_bits(pitch.bits).round().clamp(0.0, 127.0) as u8
}

fn note(onset: f32, offset: f32, pitch: f32) -> NoteInfo {
    NoteInfo { onset: single(onset), offset: single(offset), pitch: single(pitch) }
}

#[test]
fn notes_fall_on_ticks_and_keys() {
    let notes = vec![note(0.0, 0.5, 59.6), note(1.0, 1.25, -3.0), note(2.0, 2.5, 300.0)];
    assert_eq!(
        quantize(&notes, ticks_at(120.0), key_of),
        vec![tick(0, 480, 60), tick(960, 1200, 0), tick(1920, 2400, 127)]
    );
}

#[test]
fn notes_in_seconds_become_a_file() {
    let notes = vec![note(0.25, 0.5, 60.0), note(0.5, 0.5001, 61.0), note(0.75, 1.0, 62.0)];
    let bytes = write_midi(&notes, 500_000, ticks_at(120.0), key_of).unwrap();
    assert_eq!(
        played(&bytes),
        vec![(240, true, 60), (480, false, 60), (720, true, 62), (960, false, 62)]
    );
}

#[test]
fn delta_times_take_one_to_four_bytes() {
    let deltas: Vec<(u32, Vec<u8>)> = vec![
        (0x7f, vec![0x7f]),
        (0x80, vec![0x81, 0]),
        (0x3fff, vec![0xff, 0x7f]),
        (0x4000, vec![0x81, 0x80, 0]),
        (0x1f_ffff, vec![0xff, 0xff, 0x7f]),
        (0x20_0000, vec![0x81, 0x80, 0x80, 0]),
    ];
    for (delta, mut expected) in deltas {
        let bytes = write_events(&vec![Event::NoteOff { delta, key: 9 }]).unwrap();
        expected.extend(vec![0x80, 9, 0]);
        assert_eq!(bytes[22..].to_vec(), expected);
    }
}

#[test]
fn a_tempo_ends_a_repeated_status() {
    let bytes = write_events(&vec![
        Event::NoteOn { delta: 0, key: 1 },
        Event::Tempo { micros_per_beat: 2 },
        Event::Tempo { micros_per_beat: 3 },
        Event::NoteOn { delta: 4, key: 5 },
    ])
    .unwrap();
    assert_eq!(
        bytes[22..].to_vec(),
        vec![
            0, 0x90, 1, 127, 0, 0xff, 0x51, 3, 0, 0, 2, 0, 0xff, 0x51, 3, 0, 0, 3, 4, 0x90, 5,
            127,
        ]
    );
}

#[test]
fn the_same_notes_give_the_same_bytes() {
    let notes = vec![note(0.1, 0.7, 61.2), note(0.7, 1.3, 64.8)];
    let once = write_midi(&notes, 461_538, ticks_at(130.0), key_of).unwrap();
    let twice = write_midi(&notes, 461_538, ticks_at(130.0), key_of).unwrap();
    assert_eq!(once, twice);
}

#[test]
fn half_the_time_at_twice_the_tempo_gives_the_same_note_events() {
    let notes = vec![note(0.25, 0.5, 60.0), note(0.8, 1.1, 62.4)];
    let half = vec![note(0.125, 0.25, 60.0), note(0.4, 0.55, 62.4)];
    let bytes = write_midi(&notes, 500_000, ticks_at(120.0), key_of).unwrap();
    let half_bytes = write_midi(&half, 250_000, ticks_at(240.0), key_of).unwrap();
    assert_eq!(played(&bytes), played(&half_bytes));
    assert_eq!(bytes[29..].to_vec(), half_bytes[29..].to_vec());
}
