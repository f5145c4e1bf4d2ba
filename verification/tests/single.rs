use game_rs::single::{Order, Single};

fn single(x: f32) -> Single {
    Single { bits: x.to_bits() }
}

fn samples() -> Vec<f32> {
    vec![
        0.0,
        -0.0,
        1.0,
        -1.0,
        0.1,
        0.3,
        -0.25,
        1.0e-45,
        -1.0e-45,
        f32::MIN_POSITIVE,
        -f32::MIN_POSITIVE,
        f32::MAX,
        f32::MIN,
        f32::INFINITY,
        f32::NEG_INFINITY,
        f32::NAN,
        -f32::NAN,
        16_777_216.0,
        16_777_217.5,
    ]
}

#[test]
fn comparison_agrees_with_floating_point() {
    for a in samples() {
        assert_eq!(single(a).is_nan(), a.is_nan());
        for b in samples() {
            assert_eq!(single(a).is_below(single(b)), a < b, "{a} < {b}");
            let order = match a.partial_cmp(&b) {
                Some(std::cmp::Ordering::Less) => Order::Less,
                Some(std::cmp::Ordering::Greater) => Order::Greater,
                _ => Order::Same,
            };
            assert_eq!(single(a).order_against(single(b)), order, "{a} against {b}");
        }
    }
}

#[test]
fn larger_agrees_with_floating_point() {
    for a in samples() {
        for b in samples() {
            let ours = f32::from_bits(single(a).max(single(b)).bits);
            let theirs = a.max(b);
            assert!(ours == theirs || ours.is_nan() && theirs.is_nan(), "max of {a} and {b}");
        }
    }
}

#[test]
fn spans_without_length_agree_with_floating_point() {
    for start in samples() {
        for end in samples() {
            assert_eq!(
                single(end).is_over_by(single(start)),
                end - start <= 0.0,
                "from {start} to {end}"
            );
        }
    }
}

#[test]
fn bit_patterns() {
    assert_eq!(Single::zero(), single(0.0));
    assert_eq!(single(-1.0).magnitude(), 0x3f80_0000);
    assert_eq!(single(1.0).magnitude(), 0x3f80_0000);
}
