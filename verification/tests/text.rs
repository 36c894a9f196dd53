use bounty_registry::text::{bytes_less, decimal_string, push_decimal, text_precedes};

#[test]
fn a_proper_prefix_precedes() {
    assert!(text_precedes("ab", "abc"));
    assert!(!text_precedes("abc", "ab"));
    assert!(text_precedes("", "a"));
}

#[test]
fn no_text_precedes_itself() {
    assert!(!text_precedes("", ""));
    assert!(!text_precedes("task", "task"));
}

#[test]
fn the_first_differing_byte_decides() {
    assert!(text_precedes("abc", "abd"));
    assert!(!text_precedes("abd", "abc"));
    assert!(text_precedes("10-x", "9-x"));
    assert!(text_precedes("Z", "a"));
    assert!(text_precedes("9", "A"));
}

#[test]
fn the_order_is_that_of_the_standard_strings() {
    let words = ["", "a", "ab", "b", "B", "1700-On5B", "1700-M9be", "é", "z", "日本", "~"];
    for a in words.iter() {
        for b in words.iter() {
            assert_eq!(text_precedes(a, b), a < b, "{:?} {:?}", a, b);
        }
    }
}

#[test]
fn bytes_are_ordered_as_unsigned() {
    assert!(bytes_less(&[1, 2], &[1, 200]));
    assert!(!bytes_less(&[200], &[100, 1]));
    assert!(bytes_less(&[], &[0]));
    assert!(!bytes_less(&[0], &[]));
}

#[test]
fn decimal_of_zero_is_one_digit() {
    assert_eq!(decimal_string(0), "0");
}

#[test]
fn decimal_has_no_leading_zero() {
    assert_eq!(decimal_string(7), "7");
    assert_eq!(decimal_string(10), "10");
    assert_eq!(decimal_string(1009), "1009");
    assert_eq!(decimal_string(1_700_000_000_000_000_000), "1700000000000000000");
}

#[test]
fn decimal_of_the_largest_amount() {
    assert_eq!(decimal_string(u128::MAX), "340282366920938463463374607431768211455");
    assert_eq!(decimal_string(u64::MAX as u128), "18446744073709551615");
}

#[test]
fn push_decimal_appends() {
    let mut s = String::from("n=");
    push_decimal(&mut s, 42);
    push_decimal(&mut s, 0);
    assert_eq!(s, "n=420");
}
