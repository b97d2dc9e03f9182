use std::cmp::Ordering;

use exact_algebra::gaussian::Gaussian;

fn identity_holds(a: Gaussian, b: Gaussian) {
    let (q, r) = a.div_rem(&b);
    assert_eq!(q.multiply(&b).add(&r), a);
    assert_eq!(a.divide(&b), q);
    assert_eq!(a.modulo(&b), r);
    assert!(2 * r.norm() <= b.norm());
}

#[test]
fn sum_and_product_of_two_numbers() {
    let a = Gaussian::new(3, 4);
    let b = Gaussian::new(1, 3);
    assert_eq!(a.add(&b), Gaussian::new(4, 7));
    assert_eq!(a.multiply(&b), Gaussian::new(-9, 13));
}

#[test]
fn parts_are_what_the_number_was_made_of() {
    let a = Gaussian::new(-7, 12);
    assert_eq!(a.real_part(), -7);
    assert_eq!(a.imag_part(), 12);
}

#[test]
fn difference_of_two_numbers() {
    let a = Gaussian::new(3, 4);
    let b = Gaussian::new(1, 3);
    assert_eq!(a.subtract(&b), Gaussian::new(2, 1));
    assert_eq!(b.subtract(&a), Gaussian::new(-2, -1));
}

#[test]
fn norm_is_the_sum_of_the_squares() {
    assert_eq!(Gaussian::new(3, 4).norm(), 25);
    assert_eq!(Gaussian::new(-3, 4).norm(), 25);
    assert_eq!(Gaussian::new(0, 0).norm(), 0);
    assert_eq!(Gaussian::new(0, -1).norm(), 1);
}

#[test]
fn division_rounds_each_part_to_the_nearest_integer() {
    let a = Gaussian::new(3, 4);
    let b = Gaussian::new(1, 3);
    // a / b = 1.5 - 0.5i
    let (q, r) = a.div_rem(&b);
    assert_eq!(q, Gaussian::new(2, -1));
    assert_eq!(r, Gaussian::new(-2, -1));
}

#[test]
fn a_tie_is_rounded_away_from_zero() {
    let two = Gaussian::new(2, 0);
    assert_eq!(Gaussian::new(1, 0).div_rem(&two), (Gaussian::new(1, 0), Gaussian::new(-1, 0)));
    assert_eq!(Gaussian::new(-1, 0).div_rem(&two), (Gaussian::new(-1, 0), Gaussian::new(1, 0)));
    assert_eq!(Gaussian::new(0, 3).div_rem(&two), (Gaussian::new(0, 2), Gaussian::new(0, -1)));
    assert_eq!(Gaussian::new(0, -3).div_rem(&two), (Gaussian::new(0, -2), Gaussian::new(0, 1)));
}

#[test]
fn dividend_is_quotient_times_divisor_plus_remainder() {
    let values = [-7isize, -3, -1, 0, 1, 2, 5, 11];
    for &ar in &values {
        for &ai in &values {
            for &br in &values {
                for &bi in &values {
                    if br != 0 || bi != 0 {
                        identity_holds(Gaussian::new(ar, ai), Gaussian::new(br, bi));
                    }
                }
            }
        }
    }
}

#[test]
fn a_multiple_divides_without_remainder() {
    let k = Gaussian::new(12, -5);
    let d = Gaussian::new(-3, 7);
    let a = k.multiply(&d);
    assert_eq!(a.div_rem(&d), (k, Gaussian::new(0, 0)));
}

#[test]
fn gcd_of_two_numbers() {
    let a = Gaussian::new(3, 4);
    let b = Gaussian::new(1, 3);
    assert_eq!(Gaussian::gcd(&a, &b), Gaussian::new(-2, -1));
    assert_eq!(Gaussian::gcd(&b, &a), Gaussian::new(-2, -1));
}

#[test]
fn gcd_that_is_a_unit_is_given_as_one() {
    assert_eq!(Gaussian::gcd(&Gaussian::new(2, 0), &Gaussian::new(3, 0)), Gaussian::new(1, 0));
    assert_eq!(Gaussian::gcd(&Gaussian::new(0, -1), &Gaussian::new(0, 0)), Gaussian::new(1, 0));
    assert_eq!(Gaussian::gcd(&Gaussian::new(0, 0), &Gaussian::new(0, 1)), Gaussian::new(1, 0));
}

#[test]
fn gcd_that_is_no_unit_is_left_as_it_comes() {
    assert_eq!(Gaussian::gcd(&Gaussian::new(0, -2), &Gaussian::new(0, 0)), Gaussian::new(0, -2));
    assert_eq!(Gaussian::gcd(&Gaussian::new(0, 0), &Gaussian::new(-4, 0)), Gaussian::new(-4, 0));
}

#[test]
fn gcd_of_two_zeros_is_zero() {
    assert_eq!(Gaussian::gcd(&Gaussian::new(0, 0), &Gaussian::new(0, 0)), Gaussian::new(0, 0));
}

#[test]
fn gcd_divides_both_numbers() {
    let values = [-9isize, -4, -1, 0, 1, 3, 6, 10];
    for &ar in &values {
        for &ai in &values {
            for &br in &values {
                for &bi in &values {
                    let a = Gaussian::new(ar, ai);
                    let b = Gaussian::new(br, bi);
                    let g = Gaussian::gcd(&a, &b);
                    if a.is_zero() && b.is_zero() {
                        assert!(g.is_zero());
                    } else {
                        assert_eq!(a.modulo(&g).norm(), 0);
                        assert_eq!(b.modulo(&g).norm(), 0);
                    }
                }
            }
        }
    }
}

#[test]
fn lcm_of_two_numbers() {
    let a = Gaussian::new(3, 4);
    let b = Gaussian::new(1, 3);
    assert_eq!(Gaussian::lcm(&a, &b), Gaussian::new(1, -7));
}

#[test]
fn lcm_times_gcd_is_the_product() {
    let values = [-5isize, -2, 0, 1, 4, 7];
    for &ar in &values {
        for &ai in &values {
            for &br in &values {
                for &bi in &values {
                    let a = Gaussian::new(ar, ai);
                    let b = Gaussian::new(br, bi);
                    if !(a.is_zero() && b.is_zero()) {
                        let l = Gaussian::lcm(&a, &b);
                        let g = Gaussian::gcd(&a, &b);
                        assert_eq!(l.multiply(&g), a.multiply(&b));
                        assert_eq!(l.multiply(&g).norm(), a.multiply(&b).norm());
                    }
                }
            }
        }
    }
}

#[test]
fn units_are_the_four_numbers_of_norm_one() {
    assert!(Gaussian::new(1, 0).is_unit());
    assert!(Gaussian::new(-1, 0).is_unit());
    assert!(Gaussian::new(0, 1).is_unit());
    assert!(Gaussian::new(0, -1).is_unit());
    assert!(!Gaussian::new(0, 0).is_unit());
    assert!(!Gaussian::new(1, 1).is_unit());
    assert!(!Gaussian::new(2, 0).is_unit());
}

#[test]
fn numbers_are_ordered_by_norm_alone() {
    let a = Gaussian::new(3, 4);
    let b = Gaussian::new(5, 0);
    let c = Gaussian::new(1, 3);
    assert_eq!(a.partial_cmp(&b), Some(Ordering::Equal));
    assert_ne!(a, b);
    assert_eq!(a.partial_cmp(&c), Some(Ordering::Greater));
    assert_eq!(c.partial_cmp(&a), Some(Ordering::Less));
    assert!(a > c);
    assert!(c < b);
}

#[test]
fn order_holds_for_the_largest_parts() {
    let a = Gaussian::new(isize::MIN, isize::MIN);
    let b = Gaussian::new(isize::MAX, isize::MAX);
    assert_eq!(a.partial_cmp(&b), Some(Ordering::Greater));
    assert_eq!(b.partial_cmp(&a), Some(Ordering::Less));
}

#[test]
fn text_has_a_plus_sign_also_before_a_negative_part() {
    assert_eq!(Gaussian::new(3, -4).to_string(), "3 + -4i");
    assert_eq!(Gaussian::new(3, 4).to_string(), "3 + 4i");
    assert_eq!(Gaussian::new(-120, 0).to_string(), "-120 + 0i");
    assert_eq!(Gaussian::new(0, 1005).to_string(), "0 + 1005i");
}

#[test]
fn text_of_the_largest_parts() {
    let text = Gaussian::new(isize::MIN, isize::MAX).to_string();
    assert_eq!(text, format!("{} + {}i", isize::MIN, isize::MAX));
}

#[test]
fn the_four_roundings_of_a_quotient() {
    let a = Gaussian::new(3, 4);
    let b = Gaussian::new(1, 3);
    // a / b = 1.5 - 0.5i
    let roundings = a.check_round(&b);
    assert_eq!(roundings.floor_floor.quotient, Gaussian::new(1, -1));
    assert_eq!(roundings.floor_floor.remainder, Gaussian::new(-1, 2));
    assert_eq!(roundings.floor_floor.norm, 5);
    assert_eq!(roundings.floor_ceil.quotient, Gaussian::new(1, 0));
    assert_eq!(roundings.floor_ceil.remainder, Gaussian::new(2, 1));
    assert_eq!(roundings.floor_ceil.norm, 5);
    assert_eq!(roundings.ceil_ceil.quotient, Gaussian::new(2, 0));
    assert_eq!(roundings.ceil_ceil.remainder, Gaussian::new(1, -2));
    assert_eq!(roundings.ceil_ceil.norm, 5);
    assert_eq!(roundings.ceil_floor.quotient, Gaussian::new(2, -1));
    assert_eq!(roundings.ceil_floor.remainder, Gaussian::new(-2, -1));
    assert_eq!(roundings.ceil_floor.norm, 5);
}

#[test]
fn the_four_roundings_of_an_exact_quotient_are_one() {
    let a = Gaussian::new(-9, 13);
    let b = Gaussian::new(-2, -1);
    let roundings = a.check_round(&b);
    assert_eq!(roundings.floor_floor.quotient, Gaussian::new(1, -7));
    assert_eq!(roundings.floor_ceil, roundings.floor_floor);
    assert_eq!(roundings.ceil_ceil, roundings.floor_floor);
    assert_eq!(roundings.ceil_floor, roundings.floor_floor);
    assert_eq!(roundings.floor_floor.norm, 0);
}
