use game_rs::audio::{Decoded, Fetched};
use game_rs::loading::{take_turn, Progress};

const OURS: u32 = 4;

/// A turn of the decoding loop, with stereo frames of the packet.
type Turn = (Fetched, Decoded, Vec<f32>);

fn packet(track_id: u32, decoded: Decoded, interleaved: Vec<f32>) -> Turn {
    (Fetched::Packet { track_id }, decoded, interleaved)
}

fn end() -> Turn {
    (Fetched::StreamEnd, Decoded::Frames, vec![])
}

/// Runs the decoding loop: the samples, or nothing where it fails.
fn load(turns: &Vec<Turn>) -> Option<Vec<f32>> {
    let mut samples = vec![];
    for (fetched, decoded, interleaved) in turns {
        let standing = take_turn(
            OURS,
            (*fetched, *decoded),
            &mut samples,
            interleaved,
            interleaved.len() / 2,
            2,
            0.0f32,
            |a: f32, b: f32| a + b,
            |a: f32, n: usize| a / n as f32,
        );
        match standing {
            Progress::Running => {}
            Progress::Finished => return Some(samples),
            Progress::Failed => return None,
        }
    }
    panic!("the stream has no end")
}

fn whole() -> Vec<Turn> {
    vec![
        packet(OURS, Decoded::Frames, vec![1.0, 3.0, 0.0, 1.0]),
        packet(7, Decoded::Failure, vec![9.0, 9.0]),
        packet(OURS, Decoded::Damaged, vec![8.0, 8.0]),
        packet(OURS, Decoded::Frames, vec![-1.0, -2.0]),
        packet(7, Decoded::Frames, vec![7.0, 7.0]),
        end(),
    ]
}

#[test]
fn a_run_mixes_the_sound_packets_of_the_track() {
    assert_eq!(load(&whole()), Some(vec![2.0, 0.5, -1.5]));
}

#[test]
fn packets_of_other_tracks_change_nothing() {
    let mut turns = whole();
    turns.remove(4);
    turns.remove(1);
    assert_eq!(load(&turns), load(&whole()));
}

#[test]
fn damaged_packets_change_nothing() {
    let mut turns = whole();
    turns.remove(2);
    assert_eq!(load(&turns), load(&whole()));
}

#[test]
fn a_cut_stream_loads_the_first_samples() {
    let all = load(&whole()).unwrap();
    let lengths = [0, 2, 2, 2, 3, 3];
    for n in 0..6 {
        let mut turns = whole();
        turns.truncate(n);
        turns.push(end());
        assert_eq!(load(&turns), Some(all[..lengths[n]].to_vec()));
    }
}

#[test]
fn failures_end_a_run_without_samples() {
    assert_eq!(load(&vec![packet(OURS, Decoded::Failure, vec![]), end()]), None);
    assert_eq!(load(&vec![(Fetched::Failure, Decoded::Frames, vec![]), end()]), None);
}

#[test]
fn frames_that_are_not_mixed_are_not_looked_at() {
    let mut samples = vec![1.0f32];
    let standing = take_turn(
        OURS,
        (Fetched::Packet { track_id: 7 }, Decoded::Frames),
        &mut samples,
        &[],
        usize::MAX,
        2,
        0.0f32,
        |a: f32, b: f32| a + b,
        |a: f32, n: usize| a / n as f32,
    );
    assert_eq!(standing, Progress::Running);
    assert_eq!(samples, vec![1.0]);
}
