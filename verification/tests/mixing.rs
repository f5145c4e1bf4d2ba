use game_rs::mixing::mix_down;

fn mix(samples: &mut Vec<f32>, interleaved: &[f32], frames: usize, channels: usize) {
    mix_down(
        samples,
        interleaved,
        frames,
        channels,
        0.0f32,
        |a: f32, b: f32| a + b,
        |a: f32, n: usize| a / n as f32,
    );
}

#[test]
fn frames_are_mixed_to_their_mean() {
    let mut samples = vec![9.0];
    mix(&mut samples, &[1.0, 3.0, -1.0, 0.0, 0.5, 0.25, 7.0], 3, 2);
    assert_eq!(samples, vec![9.0, 2.0, -0.5, 0.375]);
}

#[test]
fn mono_frames_stay_as_they_are() {
    let mut samples = vec![];
    mix(&mut samples, &[0.1, 0.2, 0.3], 3, 1);
    assert_eq!(samples, vec![0.1, 0.2, 0.3]);
}

#[test]
fn frames_without_channels_have_no_mean() {
    let mut samples = vec![];
    mix(&mut samples, &[], 2, 0);
    assert_eq!(samples.len(), 2);
    assert!(samples[0].is_nan() && samples[1].is_nan());
}

#[test]
fn two_equal_channels_are_mixed_to_each() {
    let channel = vec![0.1, -1.0, 0.0, 1.0 / 3.0];
    let mut interleaved = vec![];
    for x in &channel {
        interleaved.push(*x);
        interleaved.push(*x);
    }
    let mut samples = vec![];
    mix(&mut samples, &interleaved, 4, 2);
    assert_eq!(samples, channel);
}

#[test]
fn exchanged_channels_are_mixed_alike() {
    let mut one = vec![];
    let mut other = vec![];
    mix(&mut one, &[0.1, 0.7, -0.3, 0.9], 2, 2);
    mix(&mut other, &[0.7, 0.1, 0.9, -0.3], 2, 2);
    assert_eq!(one, other);
}
