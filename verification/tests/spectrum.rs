use roygbiv::fixed::SCALE;
use roygbiv::spectrum::rgb_scale;
use roygbiv::spectrum::Color;

#[test]
fn out_of_domain_positions_are_black() {
    for p in [0, 200 * SCALE, 379 * SCALE, 781 * SCALE, 5000 * SCALE, u64::MAX] {
        assert_eq!(rgb_scale(p, 800000, SCALE), Color { r: 0, g: 0, b: 0 });
    }
}

#[test]
fn zero_raw_channels_stay_zero_with_zero_gamma() {
    // With gamma 0 every nonzero channel saturates, but a raw channel of
    // exactly zero must stay zero: no 0^0 == 1 artifact.
    assert_eq!(rgb_scale(500 * SCALE, 0, SCALE), Color { r: 255, g: 0, b: 0 });
}

#[test]
fn full_red_is_exact_for_any_gamma() {
    // Position 500 mirrors into the pure red band with edge factor 1, so
    // the red channel is a full unit and gamma correction leaves it alone.
    assert_eq!(rgb_scale(500 * SCALE, 800000, SCALE), Color { r: 255, g: 0, b: 0 });
    assert_eq!(rgb_scale(500 * SCALE, SCALE, SCALE), Color { r: 255, g: 0, b: 0 });
    assert_eq!(rgb_scale(500 * SCALE, 3 * SCALE, SCALE), Color { r: 255, g: 0, b: 0 });
}

#[test]
fn brightness_halves_output() {
    assert_eq!(rgb_scale(500 * SCALE, SCALE, 500000), Color { r: 127, g: 0, b: 0 });
}

#[test]
fn brightness_saturates_at_255() {
    assert_eq!(rgb_scale(500 * SCALE, SCALE, 2 * SCALE), Color { r: 255, g: 0, b: 0 });
    assert_eq!(rgb_scale(500 * SCALE, SCALE, u64::MAX), Color { r: 255, g: 0, b: 0 });
}

#[test]
fn gamma_two_squares_low_edge() {
    // 255 * 0.3^2 truncates to 22: the whole part of the exponent is
    // applied by repeated multiplication.
    assert_eq!(rgb_scale(380 * SCALE, 2 * SCALE, SCALE), Color { r: 22, g: 0, b: 0 });
}

#[test]
fn extreme_gamma_darkens_everything() {
    // 0.3 raised to an astronomic exponent underflows the fixed-point
    // range and leaves black.
    assert_eq!(rgb_scale(380 * SCALE, u64::MAX, SCALE), Color { r: 0, g: 0, b: 0 });
}

#[test]
fn gamma_square_root_of_low_edge() {
    // Position 380 mirrors to the far red edge: raw red 1, edge factor 0.3,
    // and 255 * sqrt(0.3) truncates to 139.
    assert_eq!(rgb_scale(380 * SCALE, 500000, SCALE), Color { r: 139, g: 0, b: 0 });
}

#[test]
fn low_edge_is_dimmed_red() {
    // With gamma 1 the low edge is red scaled by the 0.3 edge factor.
    assert_eq!(rgb_scale(380 * SCALE, SCALE, SCALE), Color { r: 76, g: 0, b: 0 });
    assert_eq!(rgb_scale(380 * SCALE, 800000, SCALE), Color { r: 97, g: 0, b: 0 });
}

#[test]
fn high_edge_is_dimmed_violet() {
    // Position 780 mirrors to the violet edge: red and blue full, factor 0.3.
    assert_eq!(rgb_scale(780 * SCALE, SCALE, SCALE), Color { r: 76, g: 0, b: 76 });
    assert_eq!(rgb_scale(780 * SCALE, 800000, SCALE), Color { r: 97, g: 0, b: 97 });
}

#[test]
fn mid_band_formula_value() {
    // Position 680 mirrors to 480, where green is (480 - 440) / 50 = 0.8 of
    // a unit: 255 * 0.8 truncates to 204.
    assert_eq!(rgb_scale(680 * SCALE, SCALE, SCALE), Color { r: 0, g: 204, b: 255 });
}

#[test]
fn band_boundaries_are_continuous() {
    // Crossing any boundary between two bands by one millionth changes no
    // channel by more than one 8-bit step.
    for boundary in [440u64, 490, 510, 580, 645] {
        let p = 1160 * SCALE - boundary * SCALE;
        let at = rgb_scale(p, SCALE, SCALE);
        let below = rgb_scale(p + 1, SCALE, SCALE);
        assert!(at.r.abs_diff(below.r) <= 1);
        assert!(at.g.abs_diff(below.g) <= 1);
        assert!(at.b.abs_diff(below.b) <= 1);
    }
}

#[test]
fn mapping_is_deterministic() {
    for p in [0, 380 * SCALE, 499123456, 700 * SCALE, 780 * SCALE] {
        let first = rgb_scale(p, 800000, 1500000);
        let second = rgb_scale(p, 800000, 1500000);
        assert_eq!(first, second);
    }
}
