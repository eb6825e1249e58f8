use hexf::{extract_string_value, ExtractStringError};

#[test]
fn plain_literals() {
    assert_eq!(extract_string_value("\"0x1.0p0\""), Ok("0x1.0p0"));
    assert_eq!(extract_string_value("\"\""), Ok(""));
    assert_eq!(extract_string_value("\""), Err(ExtractStringError::BadLiteral));
    assert_eq!(extract_string_value("\"abc"), Err(ExtractStringError::BadLiteral));
    assert_eq!(extract_string_value("abc"), Err(ExtractStringError::BadLiteral));
    assert_eq!(extract_string_value(""), Err(ExtractStringError::BadLiteral));
    assert_eq!(extract_string_value("42"), Err(ExtractStringError::BadLiteral));
}

#[test]
fn escape_sequences_rejected() {
    assert_eq!(
        extract_string_value("\"0x1\\u{2e}0p0\""),
        Err(ExtractStringError::EscapeSequence)
    );
    assert_eq!(extract_string_value("\"a\\nb\""), Err(ExtractStringError::EscapeSequence));
}

#[test]
fn raw_literals() {
    assert_eq!(extract_string_value("r\"0x1.0p0\""), Ok("0x1.0p0"));
    assert_eq!(extract_string_value("r#\"0x1.0p0\"#"), Ok("0x1.0p0"));
    assert_eq!(extract_string_value("r##\"-0x2.8p0\"##"), Ok("-0x2.8p0"));
    // Backslashes are fine in raw literals: nothing is interpreted.
    assert_eq!(extract_string_value("r\"a\\b\""), Ok("a\\b"));
}

#[test]
fn raw_literals_malformed() {
    assert_eq!(extract_string_value("r"), Err(ExtractStringError::BadLiteral));
    assert_eq!(extract_string_value("r#"), Err(ExtractStringError::BadLiteral));
    assert_eq!(extract_string_value("r##"), Err(ExtractStringError::BadLiteral));
    assert_eq!(extract_string_value("r#\"x\""), Err(ExtractStringError::BadLiteral));
    assert_eq!(extract_string_value("r#\"x\"##"), Err(ExtractStringError::BadLiteral));
    assert_eq!(extract_string_value("r#x#"), Err(ExtractStringError::BadLiteral));
    assert_eq!(extract_string_value("rx"), Err(ExtractStringError::BadLiteral));
}
