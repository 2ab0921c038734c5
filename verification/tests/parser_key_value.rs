use rustoml::lexer::Lexer;
use rustoml::parser::Parser;
use rustoml::token::FloatValue;
use rustoml::toml_value::TomlValue;

const READ_SAMPLE: &str = "# sample configuration
[root]
name = \"rustoml\"

[root.braces]
key = { inner = 1, other = \"two\" }

[root.numbers.floats.normal]
float1 = 3.14

[root.numbers.floats.special]
float7 = [inf, -inf, nan]

[[ArrayOfTables]]
index = 0

[[ArrayOfTables]]
index = 1
";

#[test]
fn parser_key_value_nested_braces() {
    let toml = READ_SAMPLE;
    let mut lexer = Lexer::new(toml);
    let tokenized = lexer.tokenize();
    let tokens = match tokenized {
        Ok(tokens) => tokens,
        Err(e) => panic!("{:?}", e),
    };
    let mut parser = Parser::new(tokens);
    let parsed = parser.parse();
    match parsed {
        Ok(parsed) => {
            let braces = parsed.get("root").unwrap().get("braces").unwrap().get("key");
            assert_eq!(
                braces,
                Ok(&TomlValue::Table(vec![
                    ("inner".to_string(), TomlValue::Integer(1)),
                    ("other".to_string(), TomlValue::String("two".to_string())),
                ]))
            );
            let deep_nested = parsed
                .get("root")
                .unwrap()
                .get("numbers")
                .unwrap()
                .get("floats")
                .unwrap()
                .get("normal")
                .unwrap()
                .get("float1")
                .unwrap();
            assert_eq!(
                deep_nested,
                &TomlValue::Float(FloatValue::Finite { literal: "3.14".to_string() })
            );
            let array_val = parsed
                .get("root")
                .unwrap()
                .get("numbers")
                .unwrap()
                .get("floats")
                .unwrap()
                .get("special")
                .unwrap()
                .get_at_index("float7", 0)
                .unwrap();
            assert_eq!(array_val, &TomlValue::Float(FloatValue::Infinite { negative: false }));
            let array_table = parsed.get_at_index("ArrayOfTables", 1).unwrap().get("index").unwrap();
            assert_eq!(array_table, &TomlValue::Integer(1));
        }
        Err(e) => panic!("{:?}", e),
    }
}
