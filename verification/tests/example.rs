// The original macro expansion path: a literal's token text goes through
// `extract_string_value` where it is a raw string, and the contents are
// parsed with underscores allowed, as the macro layer does.

use hexf::{extract_string_value, parse_hexf32, parse_hexf64};

fn hexf32(s: &str) -> f32 {
    f32::from_bits(parse_hexf32(s, true).unwrap())
}

fn hexf64(s: &str) -> f64 {
    f64::from_bits(parse_hexf64(s, true).unwrap())
}

fn hexf32_token(token: &str) -> f32 {
    hexf32(extract_string_value(token).unwrap())
}

fn hexf64_token(token: &str) -> f64 {
    hexf64(extract_string_value(token).unwrap())
}

#[test]
fn basic() {
    assert_eq!(hexf32("0x1.99999ap-4"), 0.1f32);
    assert_eq!(hexf64("0x1.999999999999ap-4"), 0.1f64);
    assert_eq!(hexf64("0x1.999999999998ap-4"), 0.1f64 - f64::EPSILON);
}

#[test]
fn negative() {
    assert_eq!(hexf32("-0x1.99999ap-4"), -0.1f32);
    assert_eq!(hexf64("-0x1.999999999999ap-4"), -0.1f64);
    assert_eq!(hexf64("-0x1.999999999998ap-4"), -0.1f64 + f64::EPSILON);
    assert!(hexf32("-0x0.0p0").is_sign_negative());
    assert!(hexf64("-0x0.0p0").is_sign_negative());
}

#[test]
fn zeroes() {
    assert_eq!(1.0f64 / hexf64("0x0.0p0"), f64::INFINITY);
    assert_eq!(1.0f64 / hexf64("-0x0.0p0"), f64::NEG_INFINITY);
}

#[test]
fn syntax() {
    assert_eq!(hexf32("0x1.0p0"), 1.0f32);
    assert_eq!(hexf64("0x1.0p0"), 1.0f64);
    // Raw string literals are handled
    assert_eq!(hexf32_token(r###"r"0x1.0p0""###), 1.0f32);
    assert_eq!(hexf64_token(r###"r"0x1.0p0""###), 1.0f64);
    assert_eq!(hexf32_token(r###"r##"-0x2.8p0"##"###), -2.5f32);
    assert_eq!(hexf64_token(r###"r##"-0x2.8p0"##"###), -2.5f64);
}

#[test]
fn syntax_whitespace() {
    assert_eq!(hexf32("0x1.0p0"), 1.0f32);
    assert_eq!(hexf64("-0x1.8p0"), -1.5f64);
}
