use pepser::parser::json::{
    array, boolean, digits, json_number, json_object, json_pair, json_value, null, string,
    JsonNumber, JsonValue,
};

fn number(sign: i64, integral: u64, decimal: &str, exponent: i32) -> JsonValue {
    JsonValue::Number(JsonNumber { sign, integral, decimal: decimal.to_string(), exponent })
}

/// The inherited number-combining rule: the entire signed mantissa raised to
/// the power of the exponent.
fn combine(sign: i64, integral: u64, decimal: f64, exponent: i32) -> f64 {
    (sign as f64 * (integral as f64 + decimal)).powi(exponent)
}

#[test]
fn parse_object() {
    println!(
        "{:?}",
        json_value(
            "    {
            \"description\": \"the description of the test case\",
            \"schema\": {\"the schema that should\" : \"be validated against\"},
            \"tests\": [
                {
                    \"description\": \"a specific test of a valid instance\",
                    \"data\": \"the instance\",
                    \"valid\": true
                },
                {
                    \"description\": \"another specific test this time, invalid\",
                    \"data\": -15.3E2,
                    \"valid\": false
                }
            ]
        }"
        )
    );
}

#[test]
fn nested_array_round_trip() {
    assert_eq!(
        json_value("[true, false, [false]]"),
        Ok((
            "",
            JsonValue::Array(vec![
                JsonValue::Boolean(true),
                JsonValue::Boolean(false),
                JsonValue::Array(vec![JsonValue::Boolean(false)]),
            ])
        ))
    );
}

#[test]
fn string_escape_decode() {
    assert_eq!(string("\"a\\\"b\""), Ok(("", "a\"b".to_string())));
}

#[test]
fn string_escape_table() {
    assert_eq!(
        string("\"a\\\\b\\nc\\td\\re\\/f\\fg\\bh\""),
        Ok(("", "a\\b\nc\td\re/f\u{000C}g\u{0008}h".to_string()))
    );
}

#[test]
fn number_decode_with_exponent() {
    assert_eq!(json_number("-15.3E2"), Ok(("", number(-1, 15, "3", 2))));
    // The documented combining rule raises the whole signed mantissa to the
    // exponent: (-15.3)^2, not -15.3 * 10^2.
    let combined = combine(-1, 15, 0.3, 2);
    assert_eq!(combined, (-1.0f64 * (15.0f64 + 0.3f64)).powi(2));
    assert!((combined - 234.09f64).abs() < 1e-9);
}

#[test]
fn number_without_exponent_reads_exponent_one() {
    assert_eq!(json_number("5"), Ok(("", number(1, 5, "", 1))));
    assert_eq!(combine(1, 5, 0.0, 1), 5.0);
}

#[test]
fn number_leading_zero_stops_after_the_zero() {
    assert_eq!(json_number("0123"), Ok(("123", number(1, 0, "", 1))));
}

#[test]
fn number_with_explicit_positive_exponent_sign() {
    assert_eq!(json_number("2e+3"), Ok(("", number(1, 2, "", 3))));
    assert_eq!(json_number("2e-3"), Ok(("", number(1, 2, "", -3))));
}

#[test]
fn number_integral_saturates_at_u64_max() {
    assert_eq!(
        json_number("99999999999999999999999"),
        Ok(("", number(1, u64::MAX, "", 1)))
    );
}

#[test]
fn number_dot_without_digits_fails() {
    assert!(json_number("1.x").is_err());
}

#[test]
fn object_duplicate_keys_keep_the_last_value() {
    let parsed = json_value("{\"a\":1,\"a\":2}").unwrap();
    assert_eq!(parsed.0, "");
    match parsed.1 {
        JsonValue::Object(pairs) => {
            assert_eq!(pairs.len(), 1);
            assert_eq!(pairs[0].0, "a");
            assert_eq!(pairs[0].1, number(1, 2, "", 1));
        },
        other => panic!("expected an object, got {:?}", other),
    }
}

#[test]
fn empty_array_and_empty_object() {
    assert_eq!(json_value("[]"), Ok(("", JsonValue::Array(vec![]))));
    assert_eq!(json_value("{}"), Ok(("", JsonValue::Object(vec![]))));
    assert_eq!(json_value("[ ]"), Ok(("", JsonValue::Array(vec![]))));
    assert_eq!(json_value("{ }"), Ok(("", JsonValue::Object(vec![]))));
}

#[test]
fn null_and_boolean_literals() {
    assert_eq!(null("nullx"), Ok(("x", JsonValue::Null)));
    assert!(null("nux").is_err());
    assert_eq!(boolean("true,"), Ok((",", JsonValue::Boolean(true))));
    assert_eq!(boolean("false,"), Ok((",", JsonValue::Boolean(false))));
    assert!(boolean("truX").is_err());
}

#[test]
fn digits_matches_a_digit_run() {
    assert_eq!(digits("123abc"), Ok(("abc", "123")));
    assert!(digits("abc").is_err());
}

#[test]
fn value_skips_leading_whitespace() {
    assert_eq!(json_value("  \t\n null"), Ok(("", JsonValue::Null)));
}

#[test]
fn pair_parses_key_and_value() {
    assert_eq!(
        json_pair(" \"k\" : true ,"),
        Ok((",", ("k".to_string(), JsonValue::Boolean(true))))
    );
}

#[test]
fn array_tolerates_whitespace_around_elements() {
    // Whitespace is skipped before each value and before the closing
    // bracket; the separator itself is the bare comma.
    assert_eq!(
        array("[ true, null ]"),
        Ok(("", JsonValue::Array(vec![JsonValue::Boolean(true), JsonValue::Null])))
    );
}

#[test]
fn object_parses_string_values() {
    assert_eq!(
        json_object("{\"k\": \"v\"}"),
        Ok((
            "",
            JsonValue::Object(vec![("k".to_string(), JsonValue::String("v".to_string()))])
        ))
    );
}

#[test]
fn unclosed_array_reports_the_missing_bracket() {
    // The closing bracket was expected right after the consumed element.
    let e = array("[true").unwrap_err();
    assert_eq!(e.index, 5);
    // At the value level the ordered choice then falls through to the number
    // alternative, whose failure at the start is what is reported.
    let e2 = json_value("[true").unwrap_err();
    assert_eq!(e2.index, 0);
}

#[test]
fn garbage_input_fails() {
    assert!(json_value("@!").is_err());
    assert!(json_value("").is_err());
}
