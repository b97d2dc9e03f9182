use exact_algebra::rounding::div_ceil;
use exact_algebra::rounding::div_floor;
use exact_algebra::rounding::div_round;

#[test]
fn rounding_to_the_nearest_integer() {
    assert_eq!(div_round(7, 2), 4);
    assert_eq!(div_round(-7, 2), -4);
    assert_eq!(div_round(5, 10), 1);
    assert_eq!(div_round(-5, 10), -1);
    assert_eq!(div_round(4, 10), 0);
    assert_eq!(div_round(-4, 10), 0);
    assert_eq!(div_round(6, 10), 1);
    assert_eq!(div_round(-6, 10), -1);
    assert_eq!(div_round(0, 3), 0);
    assert_eq!(div_round(9, 3), 3);
    assert_eq!(div_round(-9, 3), -3);
}

#[test]
fn rounding_agrees_with_floating_point_rounding() {
    for x in -50i128..=50 {
        for n in 1i128..=9 {
            let expected = (x as f64 / n as f64).round() as i128;
            assert_eq!(div_round(x, n), expected);
        }
    }
}

#[test]
fn rounding_downwards() {
    assert_eq!(div_floor(7, 2), 3);
    assert_eq!(div_floor(-7, 2), -4);
    assert_eq!(div_floor(-8, 2), -4);
    assert_eq!(div_floor(-1, 5), -1);
    assert_eq!(div_floor(0, 5), 0);
    assert_eq!(div_floor(i128::MIN, 1), i128::MIN);
    assert_eq!(div_floor(i128::MAX, 1), i128::MAX);
}

#[test]
fn rounding_upwards() {
    assert_eq!(div_ceil(7, 2), 4);
    assert_eq!(div_ceil(-7, 2), -3);
    assert_eq!(div_ceil(8, 2), 4);
    assert_eq!(div_ceil(1, 5), 1);
    assert_eq!(div_ceil(-1, 5), 0);
    assert_eq!(div_ceil(0, 5), 0);
}

#[test]
fn rounding_downwards_and_upwards_agree_with_floating_point() {
    for x in -50i128..=50 {
        for n in 1i128..=9 {
            assert_eq!(div_floor(x, n), (x as f64 / n as f64).floor() as i128);
            assert_eq!(div_ceil(x, n), (x as f64 / n as f64).ceil() as i128);
        }
    }
}
