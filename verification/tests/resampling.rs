use game_rs::resampling::resample;

fn resampled(samples: &Vec<f32>, from: u32, to: u32) -> Vec<f32> {
    let ratio = to as f64 / from as f64;
    let new_length = (samples.len() as f64 * ratio).round() as usize;
    resample(
        samples,
        from,
        to,
        new_length,
        |i: usize| {
            let position = i as f64 / ratio;
            let index = position.floor() as usize;
            (index, position - index as f64)
        },
        |a: f32, b: f32, fraction: f64| a + fraction as f32 * (b - a),
    )
}

#[test]
fn the_same_rate_changes_nothing() {
    assert_eq!(resampled(&vec![1.0, 5.0, 2.0], 44_100, 44_100), vec![1.0, 5.0, 2.0]);
}

#[test]
fn twice_the_rate_interpolates() {
    assert_eq!(
        resampled(&vec![0.0, 1.0, 3.0], 22_050, 44_100),
        vec![0.0, 0.5, 1.0, 2.0, 3.0, 3.0]
    );
}

#[test]
fn half_the_rate_skips() {
    assert_eq!(resampled(&vec![0.0, 1.0, 2.0, 3.0], 44_100, 22_050), vec![0.0, 2.0]);
}

#[test]
fn positions_beyond_the_samples_give_nothing() {
    let out = resample(
        &vec![10, 20],
        1,
        2,
        4,
        |i: usize| (i, 0u8),
        |a: i32, _b: i32, _fraction: u8| a + 1,
    );
    assert_eq!(out, vec![11, 20]);
    assert_eq!(resampled(&vec![], 1, 2), vec![]);
}

#[test]
fn samples_put_behind_change_no_earlier_output() {
    let first = vec![0.0, 0.5, -0.5, 1.0];
    let mut all = first.clone();
    all.extend(vec![0.25, -1.0, 0.75]);
    let short = resampled(&first, 3, 4);
    let long = resampled(&all, 3, 4);
    assert!(short.len() <= long.len());
    // Position 3 of the output falls at 2.25, and position 4 at the last sample.
    assert_eq!(short[..4].to_vec(), long[..4].to_vec());
    assert_eq!(short[4], 1.0);
}

#[test]
fn doubling_and_halving_loses_nothing() {
    let samples = vec![0.1, -0.7, 1.0, 0.0, -1.0];
    let up = resampled(&samples, 22_050, 44_100);
    assert_eq!(up.len(), 10);
    assert_eq!(resampled(&up, 44_100, 22_050), samples);
}

#[test]
fn only_the_ratio_of_rates_matters() {
    let samples = vec![0.3, -0.2, 0.9, 0.4, -1.0, 0.6];
    assert_eq!(resampled(&samples, 8_000, 12_000), resampled(&samples, 2, 3));
    assert_eq!(resampled(&samples, 48_000, 16_000), resampled(&samples, 3, 1));
}

#[test]
fn negated_samples_give_the_negated_result() {
    let samples = vec![0.3, -0.2, 0.9, 0.4, -1.0];
    let negated = samples.iter().map(|x: &f32| -x).collect();
    let expected: Vec<f32> = resampled(&samples, 3, 7).iter().map(|x: &f32| -x).collect();
    assert_eq!(resampled(&negated, 3, 7), expected);
}
