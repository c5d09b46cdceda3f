//! The scalar parsers: exact values, exact bounds, and the conventional
//! complaint for every way a literal can be wrong.

use flat_query::{Deserializer, Error, parse_bool, parse_signed, parse_unsigned};

fn message_of(e: Error) -> String {
    match e {
        Error::Message(m) => m,
        other => panic!("expected a message, got {other:?}"),
    }
}

#[test]
fn unsigned_literals_parse_exactly() {
    assert_eq!(parse_unsigned("0", u64::MAX).unwrap(), 0);
    assert_eq!(parse_unsigned("123", u64::MAX).unwrap(), 123);
    assert_eq!(parse_unsigned("+7", u64::MAX).unwrap(), 7);
    assert_eq!(parse_unsigned("007", u64::MAX).unwrap(), 7);
    assert_eq!(
        parse_unsigned("18446744073709551615", u64::MAX).unwrap(),
        u64::MAX
    );
    assert_eq!(parse_unsigned("255", u8::MAX as u64).unwrap(), 255);
}

#[test]
fn unsigned_failures_name_their_cause() {
    assert_eq!(
        message_of(parse_unsigned("", u64::MAX).unwrap_err()),
        "cannot parse integer from empty string"
    );
    assert_eq!(
        message_of(parse_unsigned("+", u64::MAX).unwrap_err()),
        "invalid digit found in string"
    );
    assert_eq!(
        message_of(parse_unsigned("12a", u64::MAX).unwrap_err()),
        "invalid digit found in string"
    );
    assert_eq!(
        message_of(parse_unsigned("-1", u64::MAX).unwrap_err()),
        "invalid digit found in string"
    );
    assert_eq!(
        message_of(parse_unsigned("256", u8::MAX as u64).unwrap_err()),
        "number too large to fit in target type"
    );
    assert_eq!(
        message_of(parse_unsigned("18446744073709551616", u64::MAX).unwrap_err()),
        "number too large to fit in target type"
    );
}

#[test]
fn signed_literals_parse_exactly() {
    assert_eq!(parse_signed("42", i64::MIN, i64::MAX).unwrap(), 42);
    assert_eq!(parse_signed("+42", i64::MIN, i64::MAX).unwrap(), 42);
    assert_eq!(parse_signed("-42", i64::MIN, i64::MAX).unwrap(), -42);
    assert_eq!(parse_signed("-0", i64::MIN, i64::MAX).unwrap(), 0);
    assert_eq!(
        parse_signed("-9223372036854775808", i64::MIN, i64::MAX).unwrap(),
        i64::MIN
    );
    assert_eq!(
        parse_signed("9223372036854775807", i64::MIN, i64::MAX).unwrap(),
        i64::MAX
    );
    assert_eq!(parse_signed("-128", i8::MIN as i64, i8::MAX as i64).unwrap(), -128);
    assert_eq!(parse_signed("127", i8::MIN as i64, i8::MAX as i64).unwrap(), 127);
}

#[test]
fn signed_failures_name_their_cause() {
    assert_eq!(
        message_of(parse_signed("", i64::MIN, i64::MAX).unwrap_err()),
        "cannot parse integer from empty string"
    );
    assert_eq!(
        message_of(parse_signed("-", i64::MIN, i64::MAX).unwrap_err()),
        "invalid digit found in string"
    );
    assert_eq!(
        message_of(parse_signed("1.5", i64::MIN, i64::MAX).unwrap_err()),
        "invalid digit found in string"
    );
    assert_eq!(
        message_of(parse_signed("128", i8::MIN as i64, i8::MAX as i64).unwrap_err()),
        "number too large to fit in target type"
    );
    assert_eq!(
        message_of(parse_signed("-129", i8::MIN as i64, i8::MAX as i64).unwrap_err()),
        "number too small to fit in target type"
    );
    assert_eq!(
        message_of(parse_signed("-9223372036854775809", i64::MIN, i64::MAX).unwrap_err()),
        "number too small to fit in target type"
    );
}

#[test]
fn bool_literals_parse_exactly() {
    assert_eq!(parse_bool("true").unwrap(), true);
    assert_eq!(parse_bool("false").unwrap(), false);
    assert_eq!(
        message_of(parse_bool("TRUE").unwrap_err()),
        "provided string was not `true` or `false`"
    );
    assert_eq!(
        message_of(parse_bool("1").unwrap_err()),
        "provided string was not `true` or `false`"
    );
}

#[test]
fn decoding_scalars_consumes_the_unit() {
    let mut d = Deserializer::from_query_str("a=true&b=-5&c=250&d=oops").unwrap();
    assert_eq!(d.current_key().unwrap(), "a");
    assert_eq!(d.decode_bool().unwrap(), true);
    assert_eq!(d.current_key().unwrap(), "b");
    assert_eq!(d.decode_signed(i32::MIN as i64, i32::MAX as i64).unwrap(), -5);
    assert_eq!(d.current_key().unwrap(), "c");
    assert_eq!(d.decode_unsigned(u8::MAX as u64).unwrap(), 250);
    assert_eq!(d.current_key().unwrap(), "d");
    let err = d.decode_unsigned(u64::MAX).unwrap_err();
    assert_eq!(message_of(err), "invalid digit found in string");
    // The failing parse still consumed its unit.
    assert!(d.is_empty());
}

#[test]
fn describe_reports_the_message() {
    let e = Error::Message("something went wrong".to_string());
    assert_eq!(e.describe(), "something went wrong");
    assert_eq!(Error::TrailingValues.describe(), "unconsumed keys remain after decoding");
}
