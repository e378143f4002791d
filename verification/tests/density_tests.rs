use pointgen::density::{acceptance_weight, WEIGHT_ONE};

#[test]
fn weight_peaks_at_center() {
    assert_eq!(acceptance_weight(0, 0, 1000), WEIGHT_ONE);
    assert_eq!(acceptance_weight(-10000, -10000, 1000), WEIGHT_ONE);
    assert_eq!(acceptance_weight(15000, 15000, 1), WEIGHT_ONE);
    assert_eq!(acceptance_weight(29999, 29999, 60000), WEIGHT_ONE);
}

#[test]
fn weight_is_symmetric_about_center() {
    let cases = [(0i64, 137i64, 1000i64), (5000, 2500, 700), (-10000, 9999, 123), (100, 60000, 60000)];
    for (center, offset, spread) in cases {
        assert_eq!(
            acceptance_weight(center - offset, center, spread),
            acceptance_weight(center + offset, center, spread),
        );
    }
}

#[test]
fn weight_exact_values() {
    // one spread from the center: exponent 1/2, interpolated halfway
    // between WEIGHT_ONE and WEIGHT_ONE / 2
    assert_eq!(acceptance_weight(1000, 0, 1000), 786432);
    // two spreads from the center: exponent exactly 2
    assert_eq!(acceptance_weight(2000, 0, 1000), 262144);
    // far away: the weight rounds to zero
    assert_eq!(acceptance_weight(29000, -29000, 100), 0);
}

#[test]
fn weight_stays_in_range_and_decays() {
    let mut previous = WEIGHT_ONE + 1;
    for step in 0..60 {
        let value = step * 500;
        let w = acceptance_weight(value, 0, 1000);
        assert!(0 <= w && w <= WEIGHT_ONE);
        assert!(w < previous || w == 0);
        previous = if w > 0 { w } else { previous };
    }
}
