use rustoml::lexer::Lexer;
use rustoml::parser::Parser;
use rustoml::token::FloatValue;
use rustoml::toml_value::TomlValue;

const TREE_SAMPLE: &str = "# sample configuration
[root]
name = \"rustoml\"

[root.braces]
key = { inner = 1, other = \"two\" }

[root.numbers.floats.normal]
float1 = 3.14

[root.numbers.floats.special]
float7 = [inf, -inf, nan]

[[ArrayOfTables]]
index = 0

[[ArrayOfTables]]
index = 1
";

fn table(entries: Vec<(&str, TomlValue)>) -> TomlValue {
    TomlValue::Table(entries.into_iter().map(|(k, v)| (k.to_string(), v)).collect())
}

#[test]
fn test_parser() {
    let toml = TREE_SAMPLE;
    let mut lexer = Lexer::new(toml);
    let tokenized = lexer.tokenize();
    let tokens = match tokenized {
        Ok(tokens) => tokens,
        Err(e) => panic!("{:?}", e),
    };
    let mut parser = Parser::new(tokens);
    let parsed = parser.parse();
    let expected = table(vec![
        (
            "root",
            table(vec![
                ("name", TomlValue::String("rustoml".to_string())),
                (
                    "braces",
                    table(vec![(
                        "key",
                        table(vec![
                            ("inner", TomlValue::Integer(1)),
                            ("other", TomlValue::String("two".to_string())),
                        ]),
                    )]),
                ),
                (
                    "numbers",
                    table(vec![(
                        "floats",
                        table(vec![
                            (
                                "normal",
                                table(vec![(
                                    "float1",
                                    TomlValue::Float(FloatValue::Finite {
                                        literal: "3.14".to_string(),
                                    }),
                                )]),
                            ),
                            (
                                "special",
                                table(vec![(
                                    "float7",
                                    TomlValue::Array(vec![
                                        TomlValue::Float(FloatValue::Infinite { negative: false }),
                                        TomlValue::Float(FloatValue::Infinite { negative: true }),
                                        TomlValue::Float(FloatValue::NotANumber { negative: false }),
                                    ]),
                                )]),
                            ),
                        ]),
                    )]),
                ),
            ]),
        ),
        (
            "ArrayOfTables",
            TomlValue::Array(vec![
                table(vec![("index", TomlValue::Integer(0))]),
                table(vec![("index", TomlValue::Integer(1))]),
            ]),
        ),
    ]);
    match parsed {
        Ok(parsed) => {
            assert_eq!(parsed, expected);
        }
        Err(e) => panic!("{:?}", e),
    }
}
