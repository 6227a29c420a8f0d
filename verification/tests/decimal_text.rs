use polybot::decimal::{Dec, MAX_MANTISSA};
use polybot::text::{u64_to_decimal, usize_to_decimal};
use polybot::json::{json_string_array, json_string_literal};

#[test]
fn parse_keeps_mantissa_and_scale() {
    assert_eq!(Dec::parse("0.53"), Some(Dec::new(53, 2)));
    assert_eq!(Dec::parse("1.050"), Some(Dec::new(1050, 3)));
    assert_eq!(Dec::parse("-7"), Some(Dec::new(-7, 0)));
    assert_eq!(Dec::parse("abc"), None);
    assert_eq!(Dec::parse(""), None);
}

#[test]
fn addition_aligns_scales() {
    let a = Dec::new(53, 2);
    let b = Dec::new(4, 1);
    assert_eq!(a.checked_add(&b), Some(Dec::new(93, 2)));
}

#[test]
fn subtraction_and_multiplication() {
    assert_eq!(Dec::new(105, 2).checked_sub(&Dec::one()), Some(Dec::new(5, 2)));
    assert_eq!(Dec::new(200, 1).checked_mul(&Dec::new(5, 2)), Some(Dec::new(1000, 3)));
}

#[test]
fn division_by_zero_is_none() {
    assert_eq!(Dec::one().checked_div(&Dec::zero()), None);
    assert_eq!(Dec::one().checked_div(&Dec::new(50, 2)), Some(Dec::new(2, 0)));
}

#[test]
fn addition_overflow_is_none() {
    let max = Dec::new(0xFFFF_FFFF_FFFF_FFFF_FFFF_FFFF, 0);
    assert_eq!(max.checked_add(&Dec::one()), None);
}

#[test]
fn comparisons_are_by_value() {
    assert!(Dec::new(5, 1).lt(&Dec::new(51, 2)));
    assert!(!Dec::new(50, 2).lt(&Dec::new(5, 1)));
    assert!(Dec::new(50, 2).le(&Dec::new(5, 1)));
    assert!(Dec::new(-5, 2).lt(&Dec::zero()));
}

#[test]
fn integers_render_in_decimal() {
    assert_eq!(u64_to_decimal(0), "0");
    assert_eq!(u64_to_decimal(7), "7");
    assert_eq!(u64_to_decimal(1234567890), "1234567890");
    assert_eq!(u64_to_decimal(u64::MAX), u64::MAX.to_string());
    assert_eq!(usize_to_decimal(100), "100");
}

#[test]
fn json_literal_escapes_quotes() {
    assert_eq!(json_string_literal("abc"), "\"abc\"");
    assert_eq!(json_string_literal("a\"b"), "\"a\\\"b\"");
    assert_eq!(json_string_literal("line\nnext"), "\"line\\nnext\"");
}

#[test]
fn json_array_of_strings() {
    assert_eq!(json_string_array(&vec![]), "[]");
    assert_eq!(json_string_array(&vec!["1".to_string()]), "[\"1\"]");
    assert_eq!(json_string_array(&vec!["1".to_string(), "22".to_string()]), "[\"1\",\"22\"]");
}

#[test]
fn json_escapes_quotes_backslashes_and_controls() {
    assert_eq!(json_string_literal("a\\b"), "\"a\\\\b\"");
    assert_eq!(json_string_literal("\t\r\u{8}\u{c}"), "\"\\t\\r\\b\\f\"");
    assert_eq!(json_string_literal("\u{1}\u{1f}"), "\"\\u0001\\u001f\"");
    assert_eq!(json_string_literal("\u{7f}é/"), "\"\u{7f}é/\"");
}

#[test]
fn arithmetic_returns_representable_results_within_one() {
    let max = Dec::new(MAX_MANTISSA, 0);
    // a quotient below 2^95 is returned, rounded
    let q = Dec::new(1, 0).checked_div(&Dec::new(3, 0)).expect("quotient");
    assert_eq!(q.scale, 28);
    assert_eq!(q.mantissa, 3333333333333333333333333333);
    assert_eq!(max.checked_div(&Dec::new(3, 0)), Some(Dec::new(MAX_MANTISSA / 3, 0)));
    assert_eq!(Dec::new(1, 0).checked_div(&Dec::new(95, 2)).map(|d| d.mantissa / 10i128.pow(d.scale - 2)), Some(105));
    // differences and products below 2^95 are returned
    assert_eq!(Dec::new(105, 2).checked_sub(&Dec::new(1, 0)), Some(Dec::new(5, 2)));
    let far = Dec::new(1, 28).checked_sub(&Dec::new(MAX_MANTISSA / 4, 0)).expect("difference");
    assert!(far.lt(&Dec::new(-(MAX_MANTISSA / 4) + 1, 0)) && Dec::new(-(MAX_MANTISSA / 4) - 1, 0).lt(&far));
    assert_eq!(Dec::new(200, 1).checked_mul(&Dec::new(-5, 2)), Some(Dec::new(-1000, 3)));
    // beyond 96 bits they overflow
    assert_eq!(max.checked_mul(&Dec::new(2, 0)), None);
    assert_eq!(max.checked_div(&Dec::new(1, 1)), None);
}
