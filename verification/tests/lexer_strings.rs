use rustoml::config_error::ConfigError;
use rustoml::lexer::Lexer;
use rustoml::token::{SpannedToken, TokenKind};

fn str_tok(kind: TokenKind, line: usize, col: usize) -> SpannedToken {
    SpannedToken { kind, line, col }
}

/// The tokens of `<name> = <string>` for a seven-letter name.
fn string_line(name: &str, text: &str) -> Result<Vec<SpannedToken>, ConfigError> {
    Ok(vec![
        str_tok(TokenKind::Identifier(name.to_string()), 1, 1),
        str_tok(TokenKind::Equal, 1, 9),
        str_tok(TokenKind::StringLit(text.to_string()), 1, 11),
    ])
}

#[test]
fn lexer_strings() {
    let toml = r#"string1 = "single line string \t single line string""#;
    let mut lexer = Lexer::new(toml);
    let tokens = lexer.tokenize();
    assert_eq!(tokens, string_line("string1", "single line string \t single line string"));
}

#[test]
fn lexer_literal() {
    let toml = r#"string1 = 'single line string \t single line string'"#;
    let mut lexer = Lexer::new(toml);
    let tokens = lexer.tokenize();
    assert_eq!(tokens, string_line("string1", "single line string \\t single line string"));
}

#[test]
fn lexer_strings_multiline() {
    let toml = r#"string2 = """
This is a multinine
Really a multine string

Nice string
""""#;
    let mut lexer = Lexer::new(toml);
    let tokens = lexer.tokenize();
    assert_eq!(
        tokens,
        string_line("string2", "This is a multinine\nReally a multine string\n\nNice string\n")
    );
}

#[test]
fn lexer_literal_multiline() {
    let toml = r#"string1 = '''
This is a multiline literal \n\t\r
"Good literal it is" \"   ><

Nice string
'''"#;
    let mut lexer = Lexer::new(toml);
    let tokens = lexer.tokenize();
    assert_eq!(
        tokens,
        string_line(
            "string1",
            "This is a multiline literal \\n\\t\\r\n\"Good literal it is\" \\\"   ><\n\nNice string\n"
        )
    );
}

#[test]
fn lexer_unterminated_string() {
    let toml = r#"string1 = "single line string \t single line string"#;
    let mut lexer = Lexer::new(toml);
    let tokens = lexer.tokenize();
    assert_eq!(tokens, Err(ConfigError::UnterminatedString { line: 1, col: 11 }));
}

#[test]
fn lexer_unterminated_multiline_string() {
    let toml = r#"string2 = """
This is a multinine
Really a multine string

Nice string
"""#;
    let mut lexer = Lexer::new(toml);
    let tokens = lexer.tokenize();
    assert_eq!(tokens, Err(ConfigError::UnterminatedString { line: 1, col: 11 }));
}

#[test]
fn lexer_unterminated_string_literal() {
    let toml = r#"string1 = 'single line string \t single line string"#;
    let mut lexer = Lexer::new(toml);
    let tokens = lexer.tokenize();
    assert_eq!(tokens, Err(ConfigError::UnterminatedString { line: 1, col: 11 }));
}

#[test]
fn lexer_unterminated_string_literal_multiline() {
    let toml = r#"string1 = '''
This is a multiline literal \n\t\r
"Good literal it is" \"   ><

Nice string
''"#;
    let mut lexer = Lexer::new(toml);
    let tokens = lexer.tokenize();
    assert_eq!(tokens, Err(ConfigError::UnterminatedString { line: 1, col: 11 }));
}

#[test]
fn lexer_middle_multiline_literal() {
    let toml = r#"string1 = '''
This is a mult'ili'ne literal \n\t\r
"Good literal it is" \"   ><

Nice string
'''"#;
    let mut lexer = Lexer::new(toml);
    let tokens = lexer.tokenize();
    assert_eq!(
        tokens,
        string_line(
            "string1",
            "This is a mult'ili'ne literal \\n\\t\\r\n\"Good literal it is\" \\\"   ><\n\nNice string\n"
        )
    );
}

#[test]
fn lexer_middle_string_multiline() {
    let toml = r#"string2 = """
This i"s a mul"tinine
Really" a multine string

Nice string
""""#;
    let mut lexer = Lexer::new(toml);
    let tokens = lexer.tokenize();
    assert_eq!(
        tokens,
        string_line(
            "string2",
            "This i\"s a mul\"tinine\nReally\" a multine string\n\nNice string\n"
        )
    );
}

#[test]
fn string_escapes() {
    assert_eq!(
        Lexer::new(r#"string1 = "a\"b\\c\nd\re""#).tokenize(),
        string_line("string1", "a\"b\\c\nd\re")
    );
    assert_eq!(
        Lexer::new(r#"string1 = "bad \q""#).tokenize(),
        Err(ConfigError::UnexpectedCharacter {
            line: 1,
            col: 17,
            expected: "valid escape sequence".to_string(),
            found: "q".to_string(),
        })
    );
    assert_eq!(
        Lexer::new("string1 = \"end \\").tokenize(),
        Err(ConfigError::UnexpectedCharacter {
            line: 1,
            col: 17,
            expected: "valid escape sequence".to_string(),
            found: "end of input".to_string(),
        })
    );
}

#[test]
fn multiline_string_escapes() {
    assert_eq!(
        Lexer::new("string2 = \"\"\"one \\\n    two\\t\"\"\"").tokenize(),
        string_line("string2", "one two\t")
    );
    assert_eq!(
        Lexer::new("string2 = \"\"\"\r\nx\\q\"\"\"").tokenize(),
        Err(ConfigError::InvalidEscapeSequence { line: 2, col: 3 })
    );
}

#[test]
fn literal_stops_at_line_end() {
    assert_eq!(
        Lexer::new("string1 = 'open\n'").tokenize(),
        Err(ConfigError::UnterminatedString { line: 1, col: 11 })
    );
}

#[test]
fn bytes_are_read_as_latin1() {
    assert_eq!(
        Lexer::new("string1 = \"\u{e9}\"").tokenize(),
        string_line("string1", "\u{c3}\u{a9}")
    );
}

#[test]
fn comments_and_newlines() {
    assert_eq!(
        Lexer::new("# note\nkey = 1 # tail").tokenize(),
        Ok(vec![
            str_tok(TokenKind::Comment(" note".to_string()), 1, 7),
            str_tok(TokenKind::NewLine, 2, 1),
            str_tok(TokenKind::Identifier("key".to_string()), 2, 1),
            str_tok(TokenKind::Equal, 2, 5),
            str_tok(TokenKind::Integer(1), 2, 7),
            str_tok(TokenKind::Comment(" tail".to_string()), 2, 15),
        ])
    );
}

#[test]
fn unexpected_character() {
    assert_eq!(
        Lexer::new("key = @").tokenize(),
        Err(ConfigError::UnexpectedCharacter {
            line: 1,
            col: 7,
            expected: "valid TOML syntax".to_string(),
            found: "@".to_string(),
        })
    );
}

#[test]
fn closing_quotes_end_at_the_first_triple() {
    assert_eq!(
        Lexer::new("s = '''a''''").tokenize(),
        Err(ConfigError::UnterminatedString { line: 1, col: 12 })
    );
    assert_eq!(
        Lexer::new("s = \"\"\"a\\\r\n  b\"\"\"").tokenize(),
        Ok(vec![
            str_tok(TokenKind::Identifier("s".to_string()), 1, 1),
            str_tok(TokenKind::Equal, 1, 3),
            str_tok(TokenKind::StringLit("ab".to_string()), 1, 5),
        ])
    );
}

#[test]
fn unicode_escapes() {
    assert_eq!(Lexer::new(r#"string1 = "\u0041""#).tokenize(), string_line("string1", "A"));
    assert_eq!(
        Lexer::new(r#"string1 = "x\U0001F600y""#).tokenize(),
        string_line("string1", "x\u{1F600}y")
    );
    assert_eq!(
        Lexer::new(r#"string1 = "caf\u00e9 \u00E9""#).tokenize(),
        string_line("string1", "caf\u{e9} \u{e9}")
    );
    assert_eq!(
        Lexer::new(r#"string1 = "\b\f""#).tokenize(),
        string_line("string1", "\u{8}\u{c}")
    );
}

#[test]
fn bad_unicode_escapes() {
    assert_eq!(
        Lexer::new(r#"string1 = "\u12""#).tokenize(),
        Err(ConfigError::UnexpectedCharacter {
            line: 1,
            col: 13,
            expected: "valid escape sequence".to_string(),
            found: "u".to_string(),
        })
    );
    assert_eq!(
        Lexer::new(r#"string1 = "\uD800""#).tokenize(),
        Err(ConfigError::UnexpectedCharacter {
            line: 1,
            col: 13,
            expected: "valid escape sequence".to_string(),
            found: "u".to_string(),
        })
    );
    assert_eq!(
        Lexer::new(r#"string1 = "\U00110000""#).tokenize(),
        Err(ConfigError::UnexpectedCharacter {
            line: 1,
            col: 13,
            expected: "valid escape sequence".to_string(),
            found: "U".to_string(),
        })
    );
}

#[test]
fn multiline_unicode_escapes() {
    assert_eq!(
        Lexer::new("string2 = \"\"\"\\u00e9\\U0001F600\\b\"\"\"").tokenize(),
        string_line("string2", "\u{e9}\u{1F600}\u{8}")
    );
    assert_eq!(
        Lexer::new("string2 = \"\"\"\\u00g9\"\"\"").tokenize(),
        Err(ConfigError::InvalidEscapeSequence { line: 1, col: 15 })
    );
}

#[test]
fn advance_tracks_line_and_column() {
    let mut lexer = Lexer::new("ab\ncd");
    assert_eq!((lexer.line(), lexer.col(), lexer.current()), (1, 1, Some(b'a')));
    lexer.advance();
    assert_eq!((lexer.line(), lexer.col(), lexer.current()), (1, 2, Some(b'b')));
    assert_eq!(lexer.peek(), Some(b'\n'));
    assert_eq!(lexer.peek_n(2), Some(b'c'));
    lexer.advance();
    lexer.advance();
    assert_eq!((lexer.line(), lexer.col(), lexer.current()), (2, 1, Some(b'c')));
    lexer.advance();
    lexer.advance();
    assert_eq!((lexer.line(), lexer.col(), lexer.current()), (2, 3, None));
    lexer.advance();
    assert_eq!((lexer.line(), lexer.col(), lexer.current()), (2, 3, None));
    assert_eq!(lexer.peek(), None);
}
