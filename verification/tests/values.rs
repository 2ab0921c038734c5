use rustoml::config_get_error::{format_error, ConfigGetError};
use rustoml::token::FloatValue;
use rustoml::toml_value::{debug_text, display, toml_type_name, TomlValue};

fn entries(e: Vec<(&str, TomlValue)>) -> TomlValue {
    TomlValue::Table(e.into_iter().map(|(k, v)| (k.to_string(), v)).collect())
}

fn sample_table() -> TomlValue {
    entries(vec![
        ("flag", TomlValue::Boolean(true)),
        ("count", TomlValue::Integer(-7)),
        ("ratio", TomlValue::Float(FloatValue::Finite { literal: "0.5".to_string() })),
        ("name", TomlValue::String("box".to_string())),
        ("when", TomlValue::DateTime("1979-05-27".to_string())),
        ("list", TomlValue::Array(vec![TomlValue::Integer(1), TomlValue::String("a".to_string())])),
        ("inner", entries(vec![("k", TomlValue::Integer(1))])),
    ])
}

fn mismatch(path: &str, expected: &str, found: &str) -> ConfigGetError {
    ConfigGetError::TypeMismatch {
        path: path.to_string(),
        expected: expected.to_string(),
        found: found.to_string(),
    }
}

#[test]
fn type_names() {
    let t = sample_table();
    let names: Vec<&str> = ["flag", "count", "ratio", "name", "when", "list", "inner"]
        .iter()
        .map(|k| toml_type_name(t.get(k).unwrap()))
        .collect();
    assert_eq!(
        names,
        vec!["boolean", "integer", "float", "string", "datetime", "array", "table"]
    );
}

#[test]
fn getters_read_their_types() {
    let t = sample_table();
    assert_eq!(t.as_bool("flag"), Ok(true));
    assert_eq!(t.as_int("count"), Ok(-7));
    assert_eq!(t.as_float("ratio"), Ok(FloatValue::Finite { literal: "0.5".to_string() }));
    assert_eq!(t.as_str("name"), Ok("box"));
    assert_eq!(t.get("inner").unwrap().as_int("k"), Ok(1));
}

#[test]
fn getters_report_mismatches() {
    let t = sample_table();
    assert_eq!(t.as_bool("count"), Err(mismatch("count", "boolean", "integer")));
    assert_eq!(t.as_int("name"), Err(mismatch("name", "integer", "string")));
    assert_eq!(t.as_float("flag"), Err(mismatch("flag", "float", "boolean")));
    assert_eq!(t.as_str("list"), Err(mismatch("list", "string", "array")));
    assert_eq!(t.as_int("nope"), Err(ConfigGetError::MissingKey { key: "nope".to_string() }));
    assert_eq!(
        TomlValue::Integer(3).get("x"),
        Err(mismatch("x", "table", "integer"))
    );
}

#[test]
fn indexing_arrays() {
    let t = sample_table();
    assert_eq!(t.get_at_index("list", 1), Ok(&TomlValue::String("a".to_string())));
    assert_eq!(
        t.get_at_index("list", 5),
        Err(ConfigGetError::IndexOutOfBounds { path: "list[5]".to_string(), index: 5, len: 2 })
    );
    assert_eq!(t.get_at_index("name", 0), Err(mismatch("name", "array", "string")));
    assert_eq!(
        t.get_at_index("gone", 0),
        Err(ConfigGetError::MissingKey { key: "gone".to_string() })
    );
}

#[test]
fn get_error_messages() {
    assert_eq!(
        format_error(&ConfigGetError::MissingKey { key: "x".to_string() }),
        "Err: required key 'x' is missing"
    );
    assert_eq!(
        format_error(&mismatch("p", "table", "integer")),
        "Err: key 'p' expected a table, but found a integer"
    );
    assert_eq!(
        ConfigGetError::IndexOutOfBounds { path: "a[3]".to_string(), index: 3, len: 1 }.message(),
        "index 3 is out of bounds for 'a[3]' of length 1"
    );
}

#[test]
fn display_values() {
    assert_eq!(display(&TomlValue::String("hi".to_string())), "\"hi\"");
    assert_eq!(display(&TomlValue::Integer(-12)), "-12");
    assert_eq!(display(&TomlValue::Boolean(false)), "false");
    assert_eq!(display(&TomlValue::DateTime("d".to_string())), "d");
    assert_eq!(
        display(&TomlValue::Float(FloatValue::Finite { literal: "2.5".to_string() })),
        "2.5"
    );
    assert_eq!(display(&TomlValue::Float(FloatValue::Infinite { negative: true })), "-inf");
    assert_eq!(display(&TomlValue::Float(FloatValue::NotANumber { negative: true })), "NaN");
    assert_eq!(
        display(&TomlValue::Array(vec![TomlValue::Integer(1), TomlValue::String("a\"b".to_string())])),
        "[Integer(1), String(\"a\\\"b\")]"
    );
    assert_eq!(
        display(&entries(vec![
            ("a", TomlValue::Integer(1)),
            ("b", entries(vec![("c", TomlValue::String("x".to_string()))])),
        ])),
        "{a: 1, b: {c: \"x\"}}"
    );
    assert_eq!(display(&entries(vec![])), "{}");
    assert_eq!(display(&TomlValue::Array(vec![])), "[]");
}

#[test]
fn debug_text_of_values() {
    assert_eq!(
        debug_text(&entries(vec![
            ("k", TomlValue::Array(vec![TomlValue::Boolean(true)])),
            ("t", TomlValue::String("tab\there".to_string())),
        ])),
        "Table({\"k\": Array([Boolean(true)]), \"t\": String(\"tab\\there\")})"
    );
    assert_eq!(
        debug_text(&TomlValue::Float(FloatValue::Infinite { negative: false })),
        "Float(inf)"
    );
    assert_eq!(debug_text(&TomlValue::DateTime("x".to_string())), "DateTime(\"x\")");
}

#[test]
fn copies_are_equal() {
    let t = sample_table();
    assert_eq!(t.copy(), t);
}
