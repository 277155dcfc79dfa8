use paintings::text::{digit, push_decimal};

fn decimal(value: usize) -> String {
    let mut text = String::new();
    push_decimal(&mut text, value);
    text
}

#[test]
fn numbers_are_written_in_decimal_digits() {
    assert_eq!(decimal(0), "0");
    assert_eq!(decimal(7), "7");
    assert_eq!(decimal(10), "10");
    assert_eq!(decimal(1080), "1080");
    assert_eq!(decimal(usize::MAX), usize::MAX.to_string());
    let mut text = String::from("x");
    push_decimal(&mut text, 305);
    assert_eq!(text, "x305");
}

#[test]
fn each_digit_has_its_character() {
    let characters: String = (0..10).map(digit).collect();
    assert_eq!(characters, "0123456789");
}
