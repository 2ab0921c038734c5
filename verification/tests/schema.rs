use rustoml::config_error::ConfigError;
use rustoml::field::{FieldSchema, FieldType};
use rustoml::lexer::Lexer;
use rustoml::parser::Parser;
use rustoml::schema::{parse_schema, try_validate, validate};
use rustoml::token::FloatValue;
use rustoml::toml_value::TomlValue;
use rustoml::validate_schema::{FloatCheck, Validation};

fn document(text: &str) -> TomlValue {
    let tokens = Lexer::new(text).tokenize().expect("the text lexes");
    Parser::new(tokens).parse().expect("the text parses")
}

fn table_entries(v: TomlValue) -> Vec<(String, TomlValue)> {
    match v {
        TomlValue::Table(t) => t,
        other => panic!("not a table: {:?}", other),
    }
}

fn plain(field_type: FieldType) -> FieldSchema {
    FieldSchema { field_type, required: false, default: None, allowed_values: None, description: None }
}

fn finite_float(text: &str) -> FloatValue {
    FloatValue::Finite { literal: text.to_string() }
}

const SCHEMA: &str = "
[channel]
type = \"integer\"
required = true
min = 1
max = 65535
allowedvalues = [80, 443, 8080]

[host]
type = \"string\"
minlen = 1
maxlen = 20
pattern = \"^[a-z.]+$\"
description = \"the host name\"

[ratio]
type = \"float\"
min = 0.0
max = 1.0

[debug]
type = \"boolean\"
default = false

[tags]
type = \"array[string]\"

[db.user]
type = \" string \"
required = true
";

fn attribute_error() -> ConfigError {
    ConfigError::ExpectedToken {
        line: 0,
        col: 0,
        expected: "boolean".to_string(),
        found: "non boolean".to_string(),
    }
}

fn violation(key: &str, expected: &str, found: &str) -> ConfigError {
    ConfigError::SchemaViolation {
        line: 0,
        key: key.to_string(),
        expected: expected.to_string(),
        found: found.to_string(),
    }
}

#[test]
fn field_types_from_names() {
    assert_eq!(
        FieldType::from_str("string"),
        Some(FieldType::String { min: None, max: None, pattern: None })
    );
    assert_eq!(FieldType::from_str("  integer\t"), Some(FieldType::Integer { min: None, max: None }));
    assert_eq!(FieldType::from_str("float"), Some(FieldType::Float { min: None, max: None }));
    assert_eq!(FieldType::from_str("boolean\u{3000}"), Some(FieldType::Boolean));
    assert_eq!(
        FieldType::from_str("array [ boolean ]"),
        Some(FieldType::Array(Box::new(FieldType::Boolean)))
    );
    assert_eq!(
        FieldType::from_str("array[array[float]]"),
        Some(FieldType::Array(Box::new(FieldType::Array(Box::new(FieldType::Float {
            min: None,
            max: None
        })))))
    );
    for bad in ["table", "array[]", "arrayx[string]", "Array[string]", "array[string", "", "array"] {
        assert_eq!(FieldType::from_str(bad), None, "{:?}", bad);
    }
}

#[test]
fn field_type_names_read_back() {
    let t = FieldType::Array(Box::new(FieldType::Array(Box::new(FieldType::Integer {
        min: None,
        max: None,
    }))));
    assert_eq!(t.name(), "array[array[integer]]");
    assert_eq!(FieldType::from_str(&t.name()), Some(t));
    assert_eq!(FieldType::Table(vec![]).name(), "table");
    assert_eq!(
        FieldType::Integer { min: Some(1), max: None }.name(),
        "integer"
    );
}

#[test]
fn schema_from_document() {
    let schema = parse_schema(&document(SCHEMA)).unwrap();
    let expected: Vec<(String, FieldSchema)> = vec![
        (
            "channel".to_string(),
            FieldSchema {
                field_type: FieldType::Integer { min: Some(1), max: Some(65535) },
                required: true,
                default: None,
                allowed_values: Some(vec![
                    TomlValue::Integer(80),
                    TomlValue::Integer(443),
                    TomlValue::Integer(8080),
                ]),
                description: None,
            },
        ),
        (
            "host".to_string(),
            FieldSchema {
                field_type: FieldType::String {
                    min: Some(1),
                    max: Some(20),
                    pattern: Some("^[a-z.]+$".to_string()),
                },
                required: false,
                default: None,
                allowed_values: None,
                description: Some("the host name".to_string()),
            },
        ),
        (
            "ratio".to_string(),
            plain(FieldType::Float { min: Some(finite_float("0.0")), max: Some(finite_float("1.0")) }),
        ),
        (
            "debug".to_string(),
            FieldSchema { default: Some(TomlValue::Boolean(false)), ..plain(FieldType::Boolean) },
        ),
        (
            "db".to_string(),
            FieldSchema {
                field_type: FieldType::Table(vec![(
                    "user".to_string(),
                    FieldSchema {
                        required: true,
                        ..plain(FieldType::String { min: None, max: None, pattern: None })
                    },
                )]),
                required: true,
                default: None,
                allowed_values: None,
                description: None,
            },
        ),
    ];
    assert_eq!(schema, expected);
}

#[test]
fn schema_errors() {
    assert_eq!(
        parse_schema(&TomlValue::Integer(1)),
        Err(ConfigError::UnexpectedCharacter {
            line: 0,
            col: 0,
            expected: "table".to_string(),
            found: "non-table value".to_string(),
        })
    );
    assert_eq!(
        parse_schema(&document("[a]\ntype = 1")),
        Err(violation("a", "a string value for  'type'", "missing or invalid type"))
    );
    assert_eq!(
        parse_schema(&document("[a]\ntype = \"number\"")),
        Err(violation("a", "valid type (e.g., string,integer,array[...])", "number"))
    );
    for bad in [
        "[a]\ntype = \"integer\"\nminlen = 1",
        "[a]\ntype = \"integer\"\nmin = 1.5",
        "[a]\ntype = \"string\"\ndefault = 1",
        "[a]\ntype = \"boolean\"\nmin = 1",
        "[a]\ntype = \"float\"\nrequired = \"yes\"",
        "[a]\ntype = \"string\"\nallowedvalues = 3",
        "[a]\ntype = \"string\"\ncolour = \"red\"",
    ] {
        assert_eq!(parse_schema(&document(bad)), Err(attribute_error()), "{:?}", bad);
    }
}

#[test]
fn negative_lengths_wrap() {
    let schema = parse_schema(&document("[a]\ntype = \"string\"\nmaxlen = -1")).unwrap();
    assert_eq!(
        schema[0].1.field_type,
        FieldType::String { min: None, max: Some(usize::MAX), pattern: None }
    );
}

fn check(config: &str) -> Validation {
    let schema = parse_schema(&document(SCHEMA)).unwrap();
    let config = table_entries(document(config));
    validate(&schema, &config)
}

fn stops_with(config: &str, error: ConfigError) {
    let v = check(config);
    assert_eq!(v.error, Some(error), "{:?}", config);
}

#[test]
fn valid_document() {
    let v = check("channel = 443\nhost = \"example.org\"\nratio = 0.25\ndebug = true\ntags = [\"a\"]\n[db]\nuser = \"me\"");
    assert_eq!(v.error, None);
    assert_eq!(
        v.float_checks,
        vec![FloatCheck {
            key: "ratio".to_string(),
            value: finite_float("0.25"),
            min: Some(finite_float("0.0")),
            max: Some(finite_float("1.0")),
            allowed_values: None,
        }]
    );
}

#[test]
fn validation_failures() {
    stops_with(
        "host = \"x\"",
        ConfigError::MissingValue { line: 0, col: 0, key: "channel".to_string() },
    );
    stops_with("channel = 0", violation("channel", ">= 1", "1"));
    stops_with("channel = 70000", violation("channel", "<= 65535", "65535"));
    stops_with("channel = 81", attribute_error());
    stops_with("channel = \"80\"", violation("channel", "integer", "String(\"80\")"));
    stops_with("channel = 80\nhost = \"\"", violation("host", ">= 1", "1"));
    stops_with(
        "channel = 80\nhost = \"a-very-long-host-name.example\"",
        violation("host", "<= 20", "20"),
    );
    stops_with("channel = 80\nhost = \"Bad\"", attribute_error());
    stops_with("channel = 80\ndebug = 1", violation("debug", "boolean", "Integer(1)"));
    stops_with(
        "channel = 80\n[db]\nuser = 5",
        violation("user", "string", "Integer(5)"),
    );
    stops_with(
        "channel = 80\ndb = 5",
        violation("db", "table", "Integer(5)"),
    );
    stops_with(
        "channel = 80\n[db]\nname = \"x\"",
        ConfigError::MissingValue { line: 0, col: 0, key: "user".to_string() },
    );
}

#[test]
fn float_checks_come_before_later_errors() {
    let v = check("channel = 80\nratio = 5.0\ndebug = \"no\"");
    assert_eq!(v.float_checks.len(), 1);
    assert_eq!(v.float_checks[0].value, finite_float("5.0"));
    assert_eq!(v.error, Some(violation("debug", "boolean", "String(\"no\")")));
}

#[test]
fn string_length_counts_bytes() {
    let schema = parse_schema(&document("[s]\ntype = \"string\"\nmaxlen = 3")).unwrap();
    let ok = table_entries(document("s = \"abc\""));
    assert_eq!(validate(&schema, &ok).error, None);
    let wide = table_entries(document("s = \"\u{e9}\u{e9}\""));
    assert_eq!(validate(&schema, &wide).error, Some(violation("s", "<= 3", "3")));
}

#[test]
fn patterns_that_do_not_compile() {
    let schema = parse_schema(&document("[s]\ntype = \"string\"\npattern = \"(\"")).unwrap();
    let config = table_entries(document("s = \"x\""));
    assert_eq!(try_validate(&schema, &config), None);
    let absent = table_entries(document("t = 1"));
    assert_eq!(
        try_validate(&schema, &absent),
        Some(Validation { float_checks: vec![], error: None })
    );
}

#[test]
fn repeated_field_keeps_one_entry() {
    let field = |t: &str| {
        TomlValue::Table(vec![("type".to_string(), TomlValue::String(t.to_string()))])
    };
    let doc = TomlValue::Table(vec![
        ("a".to_string(), field("integer")),
        ("b".to_string(), field("boolean")),
        ("a".to_string(), field("string")),
    ]);
    let schema = parse_schema(&doc).unwrap();
    assert_eq!(
        schema,
        vec![
            ("a".to_string(), plain(FieldType::String { min: None, max: None, pattern: None })),
            ("b".to_string(), plain(FieldType::Boolean)),
        ]
    );
}

#[test]
fn attribute_order_does_not_matter() {
    let first = parse_schema(&document(
        "[host]\ntype = \"string\"\nrequired = true\nminlen = 1\nmaxlen = 9\npattern = \"^[a-z]+$\"\ndescription = \"h\"\n",
    ));
    let second = parse_schema(&document(
        "[host]\ndescription = \"h\"\npattern = \"^[a-z]+$\"\nmaxlen = 9\nminlen = 1\nrequired = true\ntype = \"string\"\n",
    ));
    assert_eq!(first, second);
    assert_eq!(
        first,
        Ok(vec![(
            "host".to_string(),
            FieldSchema {
                field_type: FieldType::String {
                    min: Some(1),
                    max: Some(9),
                    pattern: Some("^[a-z]+$".to_string()),
                },
                required: true,
                default: None,
                allowed_values: None,
                description: Some("h".to_string()),
            },
        )])
    );
    let int_first = parse_schema(&document("[port]\ntype = \"integer\"\nmin = 1\nmax = 5\ndefault = 2\n"));
    let int_second = parse_schema(&document("[port]\ndefault = 2\nmax = 5\ntype = \"integer\"\nmin = 1\n"));
    assert_eq!(int_first, int_second);
    assert_eq!(
        int_first,
        Ok(vec![(
            "port".to_string(),
            FieldSchema {
                default: Some(TomlValue::Integer(2)),
                ..plain(FieldType::Integer { min: Some(1), max: Some(5) })
            },
        )])
    );
}
