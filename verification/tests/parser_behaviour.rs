use rustoml::config_error::ConfigError;
use rustoml::lexer::Lexer;
use rustoml::parser::Parser;
use rustoml::toml_value::TomlValue;

fn parse_text(text: &str) -> Result<TomlValue, ConfigError> {
    let tokens = Lexer::new(text).tokenize().expect("the text lexes");
    Parser::new(tokens).parse()
}

fn tbl(entries: Vec<(&str, TomlValue)>) -> TomlValue {
    TomlValue::Table(entries.into_iter().map(|(k, v)| (k.to_string(), v)).collect())
}

fn expected_token(line: usize, col: usize, expected: &str, found: &str) -> ConfigError {
    ConfigError::ExpectedToken {
        line,
        col,
        expected: expected.to_string(),
        found: found.to_string(),
    }
}

fn unexpected(line: usize, col: usize, expected: &str, found: &str) -> ConfigError {
    ConfigError::UnexpectedCharacter {
        line,
        col,
        expected: expected.to_string(),
        found: found.to_string(),
    }
}

#[test]
fn single_pair_reads_back() {
    let v = parse_text("answer = 42").unwrap();
    assert_eq!(v, tbl(vec![("answer", TomlValue::Integer(42))]));
    assert_eq!(v.get("answer"), Ok(&TomlValue::Integer(42)));
    assert_eq!(v.as_int("answer"), Ok(42));
}

#[test]
fn later_assignment_wins() {
    assert_eq!(
        parse_text("a = 1\nb = true\na = 2").unwrap(),
        tbl(vec![("a", TomlValue::Integer(2)), ("b", TomlValue::Boolean(true))])
    );
}

#[test]
fn quoted_keys_and_comments() {
    assert_eq!(
        parse_text("# head\n\"my key\" = 'v' # tail\n\n").unwrap(),
        tbl(vec![("my key", TomlValue::String("v".to_string()))])
    );
}

#[test]
fn header_without_keys_adds_nothing() {
    assert_eq!(parse_text("[t]\n").unwrap(), tbl(vec![]));
}

#[test]
fn dotted_headers_nest() {
    assert_eq!(
        parse_text("[a.b]\nc = 1\n[a]\nd = 2").unwrap(),
        tbl(vec![(
            "a",
            tbl(vec![("b", tbl(vec![("c", TomlValue::Integer(1))])), ("d", TomlValue::Integer(2))])
        )])
    );
}

#[test]
fn arrays_nest_and_span_lines() {
    assert_eq!(
        parse_text("a = [1, [2, 3], \"x\"]\nb = [\n1,\n2]\nc = []").unwrap(),
        tbl(vec![
            (
                "a",
                TomlValue::Array(vec![
                    TomlValue::Integer(1),
                    TomlValue::Array(vec![TomlValue::Integer(2), TomlValue::Integer(3)]),
                    TomlValue::String("x".to_string()),
                ])
            ),
            ("b", TomlValue::Array(vec![TomlValue::Integer(1), TomlValue::Integer(2)])),
            ("c", TomlValue::Array(vec![])),
        ])
    );
}

#[test]
fn line_break_before_closing_bracket_is_refused() {
    assert_eq!(
        parse_text("a = [\n1,\n2\n]"),
        Err(expected_token(4, 1, ",", "LBracket"))
    );
}

#[test]
fn inline_tables() {
    assert_eq!(
        parse_text("p = { x = 1, y = { z = \"deep\" }, x = 3 }\nq = {}").unwrap(),
        tbl(vec![
            (
                "p",
                tbl(vec![
                    ("x", TomlValue::Integer(3)),
                    ("y", tbl(vec![("z", TomlValue::String("deep".to_string()))])),
                ])
            ),
            ("q", tbl(vec![])),
        ])
    );
}

#[test]
fn arrays_of_tables() {
    assert_eq!(
        parse_text("[[a]]\nx = 1\n[[a]]\nx = 2\n[a.b]\ny = 3\n[[c.d]]").unwrap(),
        tbl(vec![
            (
                "a",
                TomlValue::Array(vec![
                    tbl(vec![("x", TomlValue::Integer(1))]),
                    tbl(vec![
                        ("x", TomlValue::Integer(2)),
                        ("b", tbl(vec![("y", TomlValue::Integer(3))])),
                    ]),
                ])
            ),
            ("c", tbl(vec![("d", TomlValue::Array(vec![tbl(vec![])]))])),
        ])
    );
}

#[test]
fn key_value_errors() {
    assert_eq!(parse_text("key value"), Err(expected_token(1, 5, "=", "Identifier(\"value\")")));
    assert_eq!(parse_text("key ="), Err(expected_token(0, 0, "value", "end of input")));
    assert_eq!(
        parse_text("key"),
        Err(ConfigError::MissingValue { line: 0, col: 1, key: "key".to_string() })
    );
    assert_eq!(
        parse_text("= 1"),
        Err(unexpected(1, 1, "key, table header, or comment", "Equal"))
    );
    assert_eq!(
        parse_text("a = ]"),
        Err(expected_token(1, 5, "value (string, integer, float, or boolean)", "RBracket"))
    );
}

#[test]
fn header_errors() {
    assert_eq!(parse_text("[a"), Err(expected_token(1, 2, "']'", "end of the file")));
    assert_eq!(parse_text("[[a"), Err(expected_token(1, 3, "']]'", "end of the file")));
    assert_eq!(
        parse_text("[a b]"),
        Err(expected_token(1, 4, "'.' or ']'", "Identifier(\"b\")"))
    );
    assert_eq!(parse_text("[[a]"), Err(expected_token(1, 4, "'.' or ']]'", "RBracket")));
    assert_eq!(parse_text("[1]"), Err(expected_token(1, 2, "string or identifier", "Integer(1)")));
}

#[test]
fn array_and_inline_table_errors() {
    assert_eq!(parse_text("a = [1 2]"), Err(expected_token(1, 8, ",", "LBracket")));
    assert_eq!(parse_text("a = [1,"), Err(unexpected(1, 5, "]", "end of input")));
    assert_eq!(parse_text("a = {b 1}"), Err(expected_token(1, 8, "=", "Integer(1)")));
    assert_eq!(
        parse_text("a = {b = 1 c = 2}"),
        Err(expected_token(1, 12, "',' or '}'", "Identifier(\"c\")"))
    );
    assert_eq!(parse_text("a = {1 = 2}"), Err(expected_token(1, 6, "key or '}'", "Integer(1)")));
    assert_eq!(
        parse_text("a = {b"),
        Err(ConfigError::MissingValue { line: 1, col: 6, key: "b".to_string() })
    );
    assert_eq!(parse_text("a = {"), Err(unexpected(1, 5, "}", "end of input")));
}

#[test]
fn conflicting_tables() {
    assert_eq!(
        parse_text("a = 1\n[a]\nb = 2"),
        Err(unexpected(0, 0, "a table", "a conflicting value"))
    );
    assert_eq!(
        parse_text("a = []\n[a]\nb = 2"),
        Err(unexpected(0, 0, "an array of tables", "an empty or non-table array"))
    );
    assert_eq!(
        parse_text("[a]\nb = 1\n[[a]]"),
        Err(unexpected(0, 0, "an array", "a statically defined table or value"))
    );
    assert_eq!(
        parse_text("x = 1\n[[x.y]]"),
        Err(unexpected(0, 0, "valid array table", "invalid array table"))
    );
}

#[test]
fn parser_reports_string_found_quoted() {
    assert_eq!(
        parse_text("[\"a\\\"b\" x]"),
        Err(expected_token(1, 9, "'.' or ']'", "Identifier(\"x\")"))
    );
    assert_eq!(
        parse_text("a = [1 \"t\\tq\"]"),
        Err(expected_token(1, 8, ",", "LBracket"))
    );
    assert_eq!(
        parse_text("\"s\" \"t\\tq\""),
        Err(expected_token(1, 5, "=", "StringLit(\"t\\tq\")"))
    );
}
