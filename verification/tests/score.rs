//! Scores: their order and how they are printed.

use lusty::score::Score;

fn score_of(x: f64) -> Score {
    Score::from_bits(x.to_bits()).unwrap()
}

#[test]
fn scores_print_with_nine_decimals() {
    let cases = [
        0.0,
        -0.0,
        0.75,
        -0.024,
        1.0,
        -1.5,
        1.0 / 3.0,
        2.0 / 3.0,
        0.999_999_999_4,
        0.999_999_999_6,
        // Ties between two last digits go to the even one.
        1.0 / 1024.0,
        3.0 / 1024.0,
        0.000_000_000_5,
        0.000_000_000_4,
        1.5e-9,
        5e-324,
        f64::MIN_POSITIVE,
        123_456_789.123_456_789,
        9_007_199_254_740_993.0,
        1e22,
        f64::MAX,
        f64::MIN,
        f64::INFINITY,
        f64::NEG_INFINITY,
    ];
    for x in cases {
        assert_eq!(score_of(x).to_text(), format!("{x:.9}"), "{x:e}");
    }
    let mut bits: u64 = 0x9e37_79b9_7f4a_7c15;
    for _ in 0..2000 {
        bits ^= bits << 13;
        bits ^= bits >> 7;
        bits ^= bits << 17;
        let x = f64::from_bits(bits);
        if !x.is_nan() {
            assert_eq!(score_of(x).to_text(), format!("{x:.9}"), "{bits:x}");
        }
        let near_one = (bits >> 11) as f64 / (1u64 << 53) as f64;
        assert_eq!(score_of(near_one).to_text(), format!("{near_one:.9}"));
    }
}

#[test]
fn scores_are_ordered_as_numbers() {
    let values = [
        f64::NEG_INFINITY,
        -2.0,
        -1e-300,
        -0.0,
        0.0,
        5e-324,
        0.5,
        0.75,
        1e300,
        f64::INFINITY,
    ];
    for a in values {
        for b in values {
            assert_eq!(score_of(a).at_least(score_of(b)), a >= b, "{a} {b}");
        }
        assert_eq!(score_of(a).is_zero(), a == 0.0);
        assert_eq!(score_of(a).is_positive(), a > 0.0);
        assert_eq!(score_of(a).to_bits(), a.to_bits());
    }
}

#[test]
fn a_nan_is_no_score() {
    assert_eq!(Score::from_bits(f64::NAN.to_bits()), None);
    assert_eq!(Score::from_bits((-f64::NAN).to_bits()), None);
    assert_eq!(Score::from_bits(0x7ff0_0000_0000_0001), None);
    assert!(Score::from_bits(f64::INFINITY.to_bits()).is_some());
}
