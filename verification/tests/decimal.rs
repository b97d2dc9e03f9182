use exact_algebra::decimal::push_decimal;
use exact_algebra::decimal::push_digits;

fn decimal(v: i128) -> String {
    let mut text = String::new();
    push_decimal(&mut text, v);
    text
}

#[test]
fn numbers_in_decimal() {
    assert_eq!(decimal(0), "0");
    assert_eq!(decimal(7), "7");
    assert_eq!(decimal(10), "10");
    assert_eq!(decimal(1234567890), "1234567890");
    assert_eq!(decimal(-1), "-1");
    assert_eq!(decimal(-9080), "-9080");
}

#[test]
fn the_largest_and_the_smallest_number_in_decimal() {
    assert_eq!(decimal(i128::MAX), i128::MAX.to_string());
    assert_eq!(decimal(i128::MIN), i128::MIN.to_string());
}

#[test]
fn decimal_agrees_with_the_standard_text() {
    let mut v: i128 = 1;
    for _ in 0..60 {
        assert_eq!(decimal(v), v.to_string());
        assert_eq!(decimal(-v), (-v).to_string());
        assert_eq!(decimal(v - 1), (v - 1).to_string());
        v *= 3;
    }
}

#[test]
fn digits_are_appended_to_what_is_there() {
    let mut text = String::from("n = ");
    push_digits(&mut text, 405);
    assert_eq!(text, "n = 405");
    push_decimal(&mut text, -6);
    assert_eq!(text, "n = 405-6");
    push_digits(&mut text, u128::MAX);
    assert_eq!(text, format!("n = 405-6{}", u128::MAX));
}
