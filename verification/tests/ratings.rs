use matchmaker::rating::{clamp_rating, rating_to_bracket, OrdF64};

fn rating(value: f64) -> OrdF64 {
    OrdF64 { bits: value.to_bits() }
}

fn value(rating: OrdF64) -> f64 {
    f64::from_bits(rating.bits)
}

const SAMPLES: [f64; 26] = [
    0.0, -0.0, 0.5, 1.0, 199.99999999999997, 200.0, 200.00000000000003, 399.0, 1500.0, 1599.999,
    2800.0, 2999.9999999999995, 3000.0, 3000.0000000000005, 1e6, 1e12, 1e300, -1.0, -1500.5,
    -1e300, 5e-324, 2.2250738585072014e-308, f64::MAX, f64::MIN, f64::INFINITY,
    f64::NEG_INFINITY,
];

#[test]
fn brackets_are_two_hundred_points_wide() {
    assert_eq!(rating_to_bracket(rating(0.0)), 0);
    assert_eq!(rating_to_bracket(rating(199.99)), 0);
    assert_eq!(rating_to_bracket(rating(200.0)), 1);
    assert_eq!(rating_to_bracket(rating(1500.0)), 7);
    assert_eq!(rating_to_bracket(rating(3000.0)), 15);
}

#[test]
fn brackets_agree_with_the_division() {
    for x in SAMPLES {
        assert_eq!(rating_to_bracket(rating(x)), (x / 200.0).floor() as u32, "{x}");
    }
    assert_eq!(rating_to_bracket(rating(f64::NAN)), 0);
    for step in 0..60_000u32 {
        let x = f64::from(step) / 16.0;
        assert_eq!(rating_to_bracket(rating(x)), (x / 200.0).floor() as u32, "{x}");
    }
    for k in 0..4000u32 {
        let edge = f64::from(k) * 200.0;
        for x in [f64::from_bits(edge.to_bits().saturating_sub(1)), edge, f64::from_bits(edge.to_bits() + 1)] {
            assert_eq!(rating_to_bracket(rating(x)), (x / 200.0).floor() as u32, "{x}");
        }
    }
}

#[test]
fn keys_follow_the_total_order() {
    for a in SAMPLES {
        for b in SAMPLES {
            let (x, y) = (rating(a), rating(b));
            assert_eq!(x.key().cmp(&y.key()), a.total_cmp(&b), "{a} {b}");
            assert_eq!(x.is_below(y), a < b, "{a} {b}");
        }
        assert_eq!(OrdF64::from_key(rating(a).key()), rating(a));
    }
    assert!(!rating(f64::NAN).is_below(rating(1.0)));
    assert!(!rating(1.0).is_below(rating(f64::NAN)));
}

#[test]
fn larger_and_smaller_agree_with_doubles() {
    for a in SAMPLES {
        for b in SAMPLES {
            if a == 0.0 && b == 0.0 {
                continue;
            }
            assert_eq!(value(rating(a).max(rating(b))), a.max(b), "{a} {b}");
            assert_eq!(value(rating(a).min(rating(b))), a.min(b), "{a} {b}");
        }
        assert_eq!(rating(f64::NAN).max(rating(a)), rating(a));
        assert_eq!(rating(a).max(rating(f64::NAN)), rating(a));
        assert_eq!(rating(f64::NAN).min(rating(a)), rating(a));
        assert_eq!(rating(a).min(rating(f64::NAN)), rating(a));
        assert_eq!(rating(a).abs(), rating(a.abs()));
        assert_eq!(rating(a).is_finite(), a.is_finite());
    }
    assert!(!rating(f64::NAN).is_finite());
}

#[test]
fn ratings_are_clamped_once_and_for_all() {
    for x in SAMPLES {
        let clamped = clamp_rating(rating(x));
        assert_eq!(value(clamped), x.clamp(0.0, 3000.0), "{x}");
        assert!(value(clamped).is_sign_positive());
        assert_eq!(clamp_rating(clamped), clamped);
        assert!(rating_to_bracket(clamped) <= 15);
    }
    assert_eq!(clamp_rating(rating(-5.0)), rating(0.0));
    assert_eq!(clamp_rating(rating(3001.0)), rating(3000.0));
    assert_eq!(clamp_rating(rating(-0.0)), rating(0.0));
}

#[test]
fn higher_ratings_have_no_lower_brackets() {
    let mut sorted = SAMPLES.to_vec();
    sorted.sort_by(|a, b| a.total_cmp(b));
    for pair in sorted.windows(2) {
        assert!(rating_to_bracket(rating(pair[0])) <= rating_to_bracket(rating(pair[1])));
    }
}
