use dbseed::value::Value;
use dbseed::value::coerce_bool;
use dbseed::value::coerce_int;
use dbseed::value::int_to_string;
use dbseed::value::parse_i64_or_zero;
use dbseed::value::value_text;

#[test]
fn decimal_text_of_integers() {
    assert_eq!(int_to_string(0), "0");
    assert_eq!(int_to_string(7), "7");
    assert_eq!(int_to_string(12345), "12345");
    assert_eq!(int_to_string(-1), "-1");
    assert_eq!(int_to_string(-9007), "-9007");
    assert_eq!(int_to_string(i64::MAX), "9223372036854775807");
    assert_eq!(int_to_string(i64::MIN), "-9223372036854775808");
}

#[test]
fn parse_plain_numbers() {
    assert_eq!(parse_i64_or_zero("123"), 123);
    assert_eq!(parse_i64_or_zero("+42"), 42);
    assert_eq!(parse_i64_or_zero("-17"), -17);
    assert_eq!(parse_i64_or_zero("007"), 7);
    assert_eq!(parse_i64_or_zero("0"), 0);
}

#[test]
fn parse_extremes() {
    assert_eq!(parse_i64_or_zero("9223372036854775807"), i64::MAX);
    assert_eq!(parse_i64_or_zero("-9223372036854775808"), i64::MIN);
    // one past either end silently defaults to zero
    assert_eq!(parse_i64_or_zero("9223372036854775808"), 0);
    assert_eq!(parse_i64_or_zero("-9223372036854775809"), 0);
    assert_eq!(parse_i64_or_zero("00000000000000000000123"), 123);
}

#[test]
fn parse_garbage_defaults_to_zero() {
    assert_eq!(parse_i64_or_zero(""), 0);
    assert_eq!(parse_i64_or_zero("abc"), 0);
    assert_eq!(parse_i64_or_zero("12x"), 0);
    assert_eq!(parse_i64_or_zero("-"), 0);
    assert_eq!(parse_i64_or_zero("+"), 0);
    assert_eq!(parse_i64_or_zero(" 5"), 0);
    assert_eq!(parse_i64_or_zero("3.5"), 0);
}

#[test]
fn integer_coercion_policy() {
    assert_eq!(coerce_int(&Value::Int(9)), 9);
    assert_eq!(coerce_int(&Value::Bool(true)), 1);
    assert_eq!(coerce_int(&Value::Bool(false)), 0);
    assert_eq!(coerce_int(&Value::Str(String::from("12"))), 12);
    assert_eq!(coerce_int(&Value::Str(String::from("oops"))), 0);
    assert_eq!(coerce_int(&Value::Null), 0);
}

#[test]
fn boolean_coercion_policy() {
    assert!(coerce_bool(&Value::Bool(true)));
    assert!(!coerce_bool(&Value::Bool(false)));
    assert!(coerce_bool(&Value::Int(2)));
    assert!(!coerce_bool(&Value::Int(0)));
    assert!(coerce_bool(&Value::Str(String::from("true"))));
    assert!(coerce_bool(&Value::Str(String::from("1"))));
    assert!(!coerce_bool(&Value::Str(String::from("0"))));
    assert!(!coerce_bool(&Value::Str(String::from("yes"))));
    assert!(!coerce_bool(&Value::Null));
}

#[test]
fn stringified_values() {
    assert_eq!(value_text(&Value::Str(String::from("Ann"))), "Ann");
    assert_eq!(value_text(&Value::Int(30)), "30");
    assert_eq!(value_text(&Value::Int(-2)), "-2");
    assert_eq!(value_text(&Value::Bool(true)), "");
    assert_eq!(value_text(&Value::Null), "");
}
