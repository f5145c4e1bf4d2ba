use game_rs::notes::{clean_notes, decode_notes, extract_notes, sort_notes, NoteInfo};
use game_rs::single::{Order, Single};

fn single(x: f32) -> Single {
    Single { bits: x.to_bits() }
}

fn singles(xs: &[f32]) -> Vec<Single> {
    xs.iter().map(|x| single(*x)).collect()
}

fn note(onset: f32, offset: f32, pitch: f32) -> NoteInfo {
    NoteInfo { onset: single(onset), offset: single(offset), pitch: single(pitch) }
}

fn sum(a: Single, b: Single) -> Single {
    single(f32::from_bits(a.bits) + f32::from_bits(b.bits))
}

#[test]
fn regions_follow_one_another() {
    let notes = decode_notes(
        &singles(&[0.5, 0.25, 1.0]),
        &vec![true, false, true],
        &singles(&[60.0, 61.0, 62.5]),
        sum,
    );
    assert_eq!(notes, vec![note(0.0, 0.5, 60.0), note(0.75, 1.75, 62.5)]);
}

#[test]
fn regions_without_length_are_dropped() {
    let notes = decode_notes(
        &singles(&[0.0, 1.0, -0.5, 0.25]),
        &vec![true, true, true, true],
        &singles(&[1.0, 2.0, 3.0, 4.0]),
        sum,
    );
    assert_eq!(notes, vec![note(0.0, 1.0, 2.0), note(0.5, 0.75, 4.0)]);
}

#[test]
fn regions_at_infinity_are_decoded_and_then_cleaned_away() {
    let durations = singles(&[f32::INFINITY, 1.0]);
    let presence = vec![true, true];
    let scores = singles(&[1.0, 2.0]);
    let infinity = f32::INFINITY;
    assert_eq!(
        decode_notes(&durations, &presence, &scores, sum),
        vec![note(0.0, infinity, 1.0), note(infinity, infinity, 2.0)]
    );
    assert_eq!(
        extract_notes(&durations, &presence, &scores, sum),
        vec![note(0.0, infinity, 1.0)]
    );
}

#[test]
fn only_regions_with_a_voicing_count() {
    let notes = decode_notes(&singles(&[1.0, 2.0]), &vec![true], &singles(&[1.0, 2.0]), sum);
    assert_eq!(notes, vec![note(0.0, 1.0, 1.0)]);
    assert_eq!(decode_notes(&vec![], &vec![], &vec![], sum), vec![]);
}

#[test]
fn notes_are_ordered_by_onset_offset_and_pitch() {
    assert_eq!(note(1.0, 9.0, 9.0).order_against(note(2.0, 0.0, 0.0)), Order::Less);
    assert_eq!(note(1.0, 3.0, 0.0).order_against(note(1.0, 2.0, 9.0)), Order::Greater);
    assert_eq!(note(1.0, 2.0, 4.0).order_against(note(1.0, 2.0, 5.0)), Order::Less);
    assert_eq!(note(1.0, 2.0, 4.0).order_against(note(1.0, 2.0, 4.0)), Order::Same);
    assert_eq!(note(1.0, 2.0, f32::NAN).order_against(note(1.0, 2.0, 4.0)), Order::Same);
}

#[test]
fn sorting_keeps_equal_notes_as_they_stand() {
    let mut notes = vec![
        note(2.0, 3.0, 1.0),
        note(0.0, 1.0, 5.0),
        note(-0.0, 1.0, 5.0),
        note(0.0, 1.0, 4.0),
        note(0.0, 0.5, 9.0),
    ];
    sort_notes(&mut notes);
    assert_eq!(
        notes,
        vec![
            note(0.0, 0.5, 9.0),
            note(0.0, 1.0, 4.0),
            note(0.0, 1.0, 5.0),
            note(-0.0, 1.0, 5.0),
            note(2.0, 3.0, 1.0),
        ]
    );
}

#[test]
fn sorting_agrees_with_the_standard_sort() {
    let mut seed: u32 = 7;
    let mut notes = Vec::new();
    for _ in 0..200 {
        seed = seed.wrapping_mul(1_664_525).wrapping_add(1_013_904_223);
        let onset = ((seed >> 8) % 13) as f32 * 0.5 - 2.0;
        let offset = ((seed >> 16) % 3) as f32;
        let pitch = ((seed >> 24) % 4) as f32;
        notes.push(note(onset, offset, pitch));
    }
    let mut expected: Vec<(f32, f32, f32)> = notes
        .iter()
        .map(|n| {
            (
                f32::from_bits(n.onset.bits),
                f32::from_bits(n.offset.bits),
                f32::from_bits(n.pitch.bits),
            )
        })
        .collect();
    expected.sort_by(|a, b| a.partial_cmp(b).unwrap());
    sort_notes(&mut notes);
    let expected: Vec<NoteInfo> = expected.iter().map(|n| note(n.0, n.1, n.2)).collect();
    assert_eq!(notes, expected);
}

#[test]
fn sorting_sorted_notes_changes_nothing() {
    let sorted = vec![note(0.0, 1.0, 60.0), note(1.0, 2.0, f32::NAN), note(2.0, 3.0, 62.0)];
    let mut notes = sorted.clone();
    sort_notes(&mut notes);
    assert_eq!(notes, sorted);
}

#[test]
fn sorting_loses_no_note_to_a_nan() {
    let mut notes = vec![note(f32::NAN, 1.0, 1.0), note(3.0, 4.0, 2.0), note(1.0, 2.0, 3.0)];
    sort_notes(&mut notes);
    assert_eq!(notes.len(), 3);
    for pitch in [1.0, 2.0, 3.0] {
        assert!(notes.iter().any(|n| n.pitch == single(pitch)));
    }
}

#[test]
fn overlaps_are_trimmed() {
    let notes = vec![
        note(0.0, 1.0, 60.0),
        note(0.5, 1.5, 61.0),
        note(0.75, 1.25, 62.0),
        note(2.0, 3.0, 63.0),
    ];
    let clean = clean_notes(&notes);
    assert_eq!(
        clean,
        vec![note(0.0, 1.0, 60.0), note(1.0, 1.5, 61.0), note(2.0, 3.0, 63.0)]
    );
    assert_eq!(clean_notes(&clean), clean);
}

#[test]
fn cleaning_starts_at_zero() {
    assert_eq!(
        clean_notes(&vec![note(-1.0, 0.5, 60.0), note(-3.0, -2.0, 61.0)]),
        vec![note(0.0, 0.5, 60.0)]
    );
}

#[test]
fn cleaning_drops_notes_that_end_nowhere() {
    assert_eq!(
        clean_notes(&vec![
            note(0.0, f32::NAN, 60.0),
            note(f32::NAN, 1.0, 61.0),
            note(2.0, 2.0, 62.0),
        ]),
        vec![note(0.0, 1.0, 61.0)]
    );
}

#[test]
fn extraction_keeps_forward_regions() {
    let durations = singles(&[0.25, 0.5, 0.0, 0.75]);
    let presence = vec![false, true, true, true];
    let scores = singles(&[0.0, 57.25, 58.0, 59.75]);
    assert_eq!(
        extract_notes(&durations, &presence, &scores, sum),
        vec![note(0.25, 0.75, 57.25), note(0.75, 1.5, 59.75)]
    );
}

#[test]
fn extraction_sorts_and_cleans_regions_that_go_back() {
    let durations = singles(&[2.0, -1.5, 1.0]);
    let presence = vec![true, true, true];
    let scores = singles(&[1.0, 2.0, 3.0]);
    assert_eq!(
        extract_notes(&durations, &presence, &scores, sum),
        vec![note(0.0, 2.0, 1.0)]
    );
}
