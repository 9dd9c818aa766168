use dirsize::text::{divide_rounded, push_decimal, push_fixed2, push_padded};

fn decimal_of(n: u128) -> String {
    let mut text = String::new();
    push_decimal(&mut text, n);
    text
}

fn fixed2_of(n: u128) -> String {
    let mut text = String::new();
    push_fixed2(&mut text, n);
    text
}

fn padded_of(name: &str, width: usize) -> String {
    let mut text = String::new();
    push_padded(&mut text, name, width);
    text
}

#[test]
fn push_decimal_writes_the_digits() {
    assert_eq!(decimal_of(0), "0");
    assert_eq!(decimal_of(7), "7");
    assert_eq!(decimal_of(10), "10");
    assert_eq!(decimal_of(1234567890), "1234567890");
    assert_eq!(decimal_of(u128::MAX), "340282366920938463463374607431768211455");
}

#[test]
fn push_decimal_appends() {
    let mut text = String::from("size: ");
    push_decimal(&mut text, 42);
    assert_eq!(text, "size: 42");
}

#[test]
fn push_fixed2_writes_two_places() {
    assert_eq!(fixed2_of(0), "0.00");
    assert_eq!(fixed2_of(5), "0.05");
    assert_eq!(fixed2_of(50), "0.50");
    assert_eq!(fixed2_of(99), "0.99");
    assert_eq!(fixed2_of(100), "1.00");
    assert_eq!(fixed2_of(123456), "1234.56");
}

#[test]
fn push_padded_fills_up_with_spaces() {
    assert_eq!(padded_of("src", 6), "src   ");
    assert_eq!(padded_of("src", 3), "src");
    assert_eq!(padded_of("", 2), "  ");
}

#[test]
fn push_padded_cuts_nothing() {
    assert_eq!(padded_of("target", 3), "target");
    assert_eq!(padded_of("target", 0), "target");
}

#[test]
fn push_padded_counts_characters() {
    assert_eq!(padded_of("añb", 5), "añb  ");
    assert_eq!(padded_of("日本", 3), "日本 ");
}

#[test]
fn divide_rounded_rounds_to_the_nearest() {
    assert_eq!(divide_rounded(7, 2), 4);
    assert_eq!(divide_rounded(5, 2), 2);
    assert_eq!(divide_rounded(10, 4), 2);
    assert_eq!(divide_rounded(14, 4), 4);
    assert_eq!(divide_rounded(9, 4), 2);
    assert_eq!(divide_rounded(11, 4), 3);
    assert_eq!(divide_rounded(0, 3), 0);
    assert_eq!(divide_rounded(12, 1), 12);
    assert_eq!(divide_rounded(1, 3), 0);
    assert_eq!(divide_rounded(2, 3), 1);
}

#[test]
fn divide_rounded_takes_the_largest_number() {
    assert_eq!(divide_rounded(u128::MAX, 1), u128::MAX);
    assert_eq!(divide_rounded(u128::MAX, 2), 1 << 127);
    assert_eq!(divide_rounded(u128::MAX, u128::MAX), 1);
    assert_eq!(divide_rounded(u128::MAX - 1, u128::MAX), 1);
    assert_eq!(divide_rounded(u128::MAX / 2, u128::MAX), 0);
}
