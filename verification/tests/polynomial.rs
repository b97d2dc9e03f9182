use exact_algebra::polynomial::render;
use exact_algebra::polynomial::Coefficient;
use exact_algebra::polynomial::Sign;

fn coefficient(c: f64) -> Coefficient {
    let sign = if c < 0.0 {
        Sign::Negative
    } else if c == 0.0 {
        Sign::Zero
    } else {
        Sign::Positive
    };
    Coefficient { sign, unit: c.abs() == 1.0, magnitude: c.abs().to_string() }
}

fn text(coefficients: &[f64]) -> String {
    let all: Vec<Coefficient> = coefficients.iter().map(|c| coefficient(*c)).collect();
    render(&all)
}

#[test]
fn square_plus_one() {
    assert_eq!(text(&[1.0, 0.0, 1.0]), "x² + 1");
}

#[test]
fn square_of_a_sum() {
    assert_eq!(text(&[1.0, 2.0, 1.0]), "x² + 2x + 1");
}

#[test]
fn no_coefficients_give_zero() {
    assert_eq!(text(&[]), "0");
}

#[test]
fn zero_coefficients_give_zero() {
    assert_eq!(text(&[0.0]), "0");
    assert_eq!(text(&[0.0, 0.0, 0.0]), "0");
}

#[test]
fn a_single_coefficient_stands_alone() {
    assert_eq!(text(&[3.0]), "3");
    assert_eq!(text(&[-3.0]), "-3");
    assert_eq!(text(&[1.0]), "1");
    assert_eq!(text(&[-0.5]), "-0.5");
}

#[test]
fn a_negative_coefficient_gives_a_minus_sign() {
    assert_eq!(text(&[-1.0, 2.0, -3.0]), "- 3x² + 2x - 1");
    assert_eq!(text(&[1.0, -2.0]), "- 2x + 1");
}

#[test]
fn one_is_left_out_before_the_variable_only() {
    assert_eq!(text(&[1.0, 1.0, 1.0]), "x² + x + 1");
    assert_eq!(text(&[2.5, 1.0, 0.0, 4.0]), "4x³ + x + 2.5");
    assert_eq!(text(&[1.0, 1.5]), "1.5x + 1");
}

#[test]
fn minus_one_keeps_its_one() {
    assert_eq!(text(&[-1.0, -1.0, -1.0]), "- 1x² - 1x - 1");
    assert_eq!(text(&[2.5, -1.0, 0.0, 4.0]), "4x³ - 1x + 2.5");
    assert_eq!(text(&[1.0, -1.0]), "- 1x + 1");
}

#[test]
fn terms_with_a_zero_coefficient_are_left_out() {
    assert_eq!(text(&[0.0, 0.0, 0.0, 7.0]), "7x³");
    assert_eq!(text(&[0.0, 5.0]), "5x");
    assert_eq!(text(&[0.0, 0.0, 2.0, 0.0, 1.0]), "x⁴ + 2x²");
}

#[test]
fn a_zero_at_the_highest_degree_leaves_the_plus_sign() {
    assert_eq!(text(&[1.0, 0.0]), "+ 1");
    assert_eq!(text(&[1.0, 2.0, 0.0]), "+ 2x + 1");
    assert_eq!(text(&[-1.0, 0.0]), "- 1");
}

#[test]
fn degrees_are_written_in_superscript_digits() {
    let mut coefficients = vec![0.0; 13];
    coefficients[12] = 1.0;
    coefficients[10] = 3.0;
    coefficients[9] = -2.0;
    assert_eq!(text(&coefficients), "x¹² + 3x¹⁰ - 2x⁹");
    let mut all = vec![0.0; 3457];
    all[3456] = 2.0;
    all[780] = 1.0;
    assert_eq!(text(&all), "2x³⁴⁵⁶ + x⁷⁸⁰");
}

#[test]
fn a_coefficient_that_is_no_number_counts_as_positive() {
    assert_eq!(text(&[f64::NAN, f64::NAN]), "NaNx + NaN");
    assert_eq!(text(&[1.0, f64::INFINITY]), "infx + 1");
    assert_eq!(text(&[1.0, f64::NEG_INFINITY]), "- infx + 1");
}
