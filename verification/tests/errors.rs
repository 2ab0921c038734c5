use rustoml::config_error::{format_error, ConfigError};

#[test]
fn messages_of_each_error() {
    let cases = vec![
        (
            ConfigError::UnexpectedCharacter {
                line: 1,
                col: 2,
                expected: "x".to_string(),
                found: "y".to_string(),
            },
            "unexpected character at line 1, column 2: expected x, found 'y'",
        ),
        (
            ConfigError::UnterminatedString { line: 3, col: 4 },
            "unterminated string starting at line 3, column 4",
        ),
        (
            ConfigError::InvalidNumber { line: 5, col: 6, detail: "bad".to_string() },
            "invalid number at line 5, column 6: bad",
        ),
        (
            ConfigError::InvalidEscapeSequence { line: 7, col: 8 },
            "invalid escape sequence at line 7, column 8",
        ),
        (
            ConfigError::ExpectedToken {
                line: 9,
                col: 10,
                expected: "=".to_string(),
                found: "Comma".to_string(),
            },
            "expected = at line 9, column 10, found Comma",
        ),
        (
            ConfigError::MissingValue { line: 0, col: 1, key: "k".to_string() },
            "missing value for key 'k' at line 0, column 1",
        ),
        (
            ConfigError::SchemaViolation {
                line: 0,
                key: "k".to_string(),
                expected: ">= 3".to_string(),
                found: "3".to_string(),
            },
            "schema violation at line 0: key 'k' expected type >= 3, found 3",
        ),
        (
            ConfigError::MissingRequiredKey { key: "k".to_string() },
            "missing required key 'k'",
        ),
        (
            ConfigError::ValueOutOfRange {
                key: "k".to_string(),
                value: "9".to_string(),
                min: -1,
                max: 5,
            },
            "key 'k' has value 9 which is outside range -1 to 5",
        ),
        (
            ConfigError::UnknownKey { key: "k".to_string(), line: 12 },
            "unknown key 'k' at line 12",
        ),
        (ConfigError::Io { detail: "gone".to_string() }, "io error: gone"),
    ];
    for (err, text) in cases {
        assert_eq!(err.message(), text);
    }
}

#[test]
fn report_without_a_line() {
    let err = ConfigError::MissingRequiredKey { key: "k".to_string() };
    assert_eq!(format_error(&err, "a = 1\n"), "Error: missing required key 'k'");
    let err = ConfigError::MissingValue { line: 0, col: 0, key: "k".to_string() };
    assert_eq!(
        format_error(&err, "a = 1\n"),
        "Error: missing value for key 'k' at line 0, column 0"
    );
}

#[test]
fn report_shows_the_line() {
    let err = ConfigError::UnterminatedString { line: 2, col: 5 };
    assert_eq!(
        format_error(&err, "a = 1\nb = \"x\n"),
        "Error: unterminated string starting at line 2, column 5\n   |\n 2 | b = \"x\n   |"
    );
}

#[test]
fn report_widths_and_line_ends() {
    let source = "l1\nl2\nl3\nl4\nl5\nl6\nl7\nl8\nl9\nl10\r\nl11\nl12";
    let err = ConfigError::UnknownKey { key: "z".to_string(), line: 10 };
    assert_eq!(
        format_error(&err, source),
        "Error: unknown key 'z' at line 10\n   |\n10 | l10\n   |"
    );
    let err = ConfigError::UnknownKey { key: "z".to_string(), line: 40 };
    assert_eq!(
        format_error(&err, source),
        "Error: unknown key 'z' at line 40\n   |\n40 | \n   |"
    );
    let err = ConfigError::UnknownKey { key: "z".to_string(), line: 2 };
    assert_eq!(
        format_error(&err, "a\r\nb\r\n"),
        "Error: unknown key 'z' at line 2\n   |\n 2 | b\n   |"
    );
    assert_eq!(
        format_error(&err, "a\nb\r"),
        "Error: unknown key 'z' at line 2\n   |\n 2 | b\r\n   |"
    );
    assert_eq!(
        format_error(&err, "a\n"),
        "Error: unknown key 'z' at line 2\n   |\n 2 | \n   |"
    );
}
