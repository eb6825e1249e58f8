use hexf::{parse_hexf32, parse_hexf64, ParseHexfError};

#[test]
fn concrete_vectors() {
    assert_eq!(parse_hexf32("0x1.99999ap-4", false), Ok(0.1f32.to_bits()));
    assert_eq!(parse_hexf64("0x1.999999999999ap-4", false), Ok(0.1f64.to_bits()));
    assert_eq!(
        parse_hexf64("0x1.999999999998ap-4", false),
        Ok((0.1f64 - f64::EPSILON).to_bits())
    );
    assert_eq!(
        1.0f64 / f64::from_bits(parse_hexf64("-0x0.0p0", false).unwrap()),
        f64::NEG_INFINITY
    );
    assert_eq!(parse_hexf32("0x1p0", false), Ok(1.0f32.to_bits()));
    assert_eq!(parse_hexf32("0x.8p1", false), Ok(1.0f32.to_bits()));
    assert_eq!(parse_hexf32("0x1.p0", false), Ok(1.0f32.to_bits()));
    assert_eq!(parse_hexf32("+0x10p-4", false), Ok(1.0f32.to_bits()));
    assert_eq!(parse_hexf64("0xA.8p0", false), Ok(10.5f64.to_bits()));
    assert_eq!(parse_hexf64("0xa.8P0", false), Err(ParseHexfError::MalformedLiteral));
}

#[test]
fn grammar_rejection() {
    // no 0x prefix
    assert_eq!(parse_hexf32("1.0p0", false), Err(ParseHexfError::MalformedLiteral));
    assert_eq!(parse_hexf64("0X1.0p0", false), Err(ParseHexfError::MalformedLiteral));
    // missing exponent part
    assert_eq!(parse_hexf32("0x1.0", false), Err(ParseHexfError::MalformedLiteral));
    assert_eq!(parse_hexf64("0x1.0p", false), Err(ParseHexfError::MalformedLiteral));
    // a lone dot with no digits
    assert_eq!(parse_hexf32("0x.p0", false), Err(ParseHexfError::MalformedLiteral));
    assert_eq!(parse_hexf32("0xp0", false), Err(ParseHexfError::MalformedLiteral));
    // stray characters and signs
    assert_eq!(parse_hexf32("", false), Err(ParseHexfError::MalformedLiteral));
    assert_eq!(parse_hexf32("-", false), Err(ParseHexfError::MalformedLiteral));
    assert_eq!(parse_hexf32("0x1.0p0 ", false), Err(ParseHexfError::MalformedLiteral));
    assert_eq!(parse_hexf32("0x1.0q0", false), Err(ParseHexfError::MalformedLiteral));
    assert_eq!(parse_hexf32("0x1..0p0", false), Err(ParseHexfError::MalformedLiteral));
    assert_eq!(parse_hexf32("0x1.0p+-1", false), Err(ParseHexfError::MalformedLiteral));
}

#[test]
fn underscore_separators() {
    // underscores only between digits, and only when allowed
    assert_eq!(parse_hexf32("0x1_0p0", true), Ok(16.0f32.to_bits()));
    assert_eq!(parse_hexf64("0x1_0.8_8p1_0", true), Ok((16.53125f64 * 1024.0).to_bits()));
    assert_eq!(parse_hexf32("0x1_0p0", false), Err(ParseHexfError::MalformedLiteral));
    assert_eq!(parse_hexf32("0x_1p0", true), Err(ParseHexfError::MalformedLiteral));
    assert_eq!(parse_hexf32("0x1_p0", true), Err(ParseHexfError::MalformedLiteral));
    assert_eq!(parse_hexf32("0x1__0p0", true), Err(ParseHexfError::MalformedLiteral));
    assert_eq!(parse_hexf32("0x1._5p0", true), Err(ParseHexfError::MalformedLiteral));
    assert_eq!(parse_hexf32("0x1_.5p0", true), Err(ParseHexfError::MalformedLiteral));
    assert_eq!(parse_hexf32("0x1p_1", true), Err(ParseHexfError::MalformedLiteral));
    assert_eq!(parse_hexf32("0x1p1_", true), Err(ParseHexfError::MalformedLiteral));
}

#[test]
fn separators_are_cosmetic() {
    // A well-separated literal parses to exactly what the same literal
    // with every separator removed parses to, at either setting.
    assert_eq!(
        parse_hexf64("0x1_0.8_8p1_0", true),
        parse_hexf64("0x10.88p10", false)
    );
    assert_eq!(
        parse_hexf32("-0x1.99_99_9ap-4", true),
        parse_hexf32("-0x1.99999ap-4", false)
    );
    assert_eq!(
        parse_hexf64("0x1.9_9999999999_9ap-4", true),
        parse_hexf64("0x1.999999999999ap-4", true)
    );
}

#[test]
fn rounding_ties_to_even() {
    // The discarded bit is exactly half the retained unit in both cases:
    // the even neighbour wins, downward as well as upward.
    assert_eq!(parse_hexf32("0x1.000001p0", false), Ok(0x3f800000));
    assert_eq!(parse_hexf32("0x1.000003p0", false), Ok(0x3f800002));
    // A sticky bit below the tie breaks it upward.
    assert_eq!(parse_hexf32("0x1.0000011p0", false), Ok(0x3f800001));
    assert_eq!(parse_hexf64("0x1.00000000000008p0", false), Ok(0x3ff0000000000000));
    assert_eq!(parse_hexf64("0x1.00000000000018p0", false), Ok(0x3ff0000000000002));
}

#[test]
fn range_errors() {
    assert_eq!(parse_hexf32("0x1p128", false), Err(ParseHexfError::Overflow));
    assert_eq!(parse_hexf32("0x1.fffffep127", false), Ok(f32::MAX.to_bits()));
    assert_eq!(parse_hexf32("0x1.ffffffp127", false), Err(ParseHexfError::Overflow));
    assert_eq!(parse_hexf64("0x1p1024", false), Err(ParseHexfError::Overflow));
    assert_eq!(parse_hexf64("0x1p999999999999999999999999", false), Err(ParseHexfError::Overflow));
    assert_eq!(parse_hexf32("0x1p-1000", false), Err(ParseHexfError::Underflow));
    assert_eq!(parse_hexf64("0x1p-999999999999999999999999", false), Err(ParseHexfError::Underflow));
}

#[test]
fn tiny_values() {
    // Half the least subnormal rounds to even: signed zero.
    assert_eq!(parse_hexf32("0x1p-150", false), Ok(0x00000000));
    assert_eq!(parse_hexf32("-0x1p-150", false), Ok(0x80000000));
    // Anything above the halfway point rounds up to the least subnormal.
    assert_eq!(parse_hexf32("0x1.8p-150", false), Ok(1));
    assert_eq!(parse_hexf32("0x1p-149", false), Ok(1));
    assert_eq!(parse_hexf64("0x1p-1074", false), Ok(1));
    assert_eq!(parse_hexf64("0x1p-1075", false), Ok(0));
}

#[test]
fn zero_forms() {
    // All-zero mantissa digits yield signed zero whatever the exponent says.
    assert_eq!(parse_hexf32("0x0p99999", false), Ok(0x00000000));
    assert_eq!(parse_hexf32("-0x0.000p-99999", false), Ok(0x80000000));
    assert_eq!(parse_hexf64("0x0.0p0", false), Ok(0));
}

#[test]
fn long_mantissas() {
    // Digits beyond the 64-bit working significand still steer rounding.
    assert_eq!(
        parse_hexf64("0x1.0000000000000000000000000001p0", false),
        Ok(0x3ff0000000000000)
    );
    assert_eq!(
        parse_hexf64("0x1.00000000000008000000000000001p0", false),
        Ok(0x3ff0000000000001)
    );
    assert_eq!(parse_hexf64("0x00000000000000000001p0", false), Ok(1.0f64.to_bits()));
}
