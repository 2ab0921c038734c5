use rustoml::config_error::ConfigError;
use rustoml::lexer::Lexer;
use rustoml::token::{SpannedToken, TokenKind};

fn int_tok(kind: TokenKind, line: usize, col: usize) -> SpannedToken {
    SpannedToken { kind, line, col }
}

/// The tokens of `<name> = <n>` for a four-letter name.
fn short_line(name: &str, n: i64) -> Result<Vec<SpannedToken>, ConfigError> {
    Ok(vec![
        int_tok(TokenKind::Identifier(name.to_string()), 1, 1),
        int_tok(TokenKind::Equal, 1, 6),
        int_tok(TokenKind::Integer(n), 1, 8),
    ])
}

fn integer_line(n: i64) -> Result<Vec<SpannedToken>, ConfigError> {
    Ok(vec![
        int_tok(TokenKind::Identifier("integer".to_string()), 1, 1),
        int_tok(TokenKind::Equal, 1, 9),
        int_tok(TokenKind::Integer(n), 1, 11),
    ])
}

#[test]
fn lexer_integer() {
    let toml = "integer = -100";
    let mut lexer = Lexer::new(toml);
    let tokens = lexer.tokenize();
    assert_eq!(tokens, integer_line(-100));
}

#[test]
fn lexer_binary_integer() {
    let toml = "intb = 0b100101010101";
    let mut lexer = Lexer::new(toml);
    let tokens = lexer.tokenize();
    assert_eq!(tokens, short_line("intb", 0b100101010101));
    assert_eq!(tokens, short_line("intb", 2389));
}

#[test]
fn lexer_hex_integer() {
    let toml = "inth = 0x34b34cf";
    let mut lexer = Lexer::new(toml);
    let tokens = lexer.tokenize();
    assert_eq!(tokens, short_line("inth", 0x34b34cf));
}

#[test]
fn lexer_octal_integer() {
    let toml = "into = 0o235647235";
    let mut lexer = Lexer::new(toml);
    let tokens = lexer.tokenize();
    assert_eq!(tokens, short_line("into", 0o235647235));
}

#[test]
fn lexer_underscore_integer() {
    let toml = "integer = -1_0_0";
    let mut lexer = Lexer::new(toml);
    let tokens = lexer.tokenize();
    assert_eq!(tokens, integer_line(-100));
}

#[test]
fn lexer_binary_underscore() {
    let toml = "intb = 0b100_1010_10_101";
    let mut lexer = Lexer::new(toml);
    let tokens = lexer.tokenize();
    assert_eq!(tokens, short_line("intb", 0b100101010101));
}

#[test]
fn lexer_hex_underscore() {
    let toml = "inth = 0x34_b34_cf";
    let mut lexer = Lexer::new(toml);
    let tokens = lexer.tokenize();
    assert_eq!(tokens, short_line("inth", 0x34b34cf));
}

#[test]
fn lexer_octal_underscore() {
    let toml = "into = 0o2_35_64723_5";
    let mut lexer = Lexer::new(toml);
    let tokens = lexer.tokenize();
    assert_eq!(tokens, short_line("into", 0o235647235));
}

fn int_error(detail: &str) -> Result<Vec<SpannedToken>, ConfigError> {
    Err(ConfigError::InvalidNumber { line: 1, col: 11, detail: detail.to_string() })
}

#[test]
fn integer_limits_and_signs() {
    assert_eq!(Lexer::new("integer = +42").tokenize(), integer_line(42));
    assert_eq!(
        Lexer::new("integer = 9223372036854775807").tokenize(),
        integer_line(i64::MAX)
    );
    assert_eq!(
        Lexer::new("integer = -9223372036854775808").tokenize(),
        integer_line(i64::MIN)
    );
    assert_eq!(
        Lexer::new("integer = 9223372036854775808").tokenize(),
        int_error("cannot parse '9223372036854775808' as integer")
    );
    assert_eq!(
        Lexer::new("integer = -").tokenize(),
        int_error("cannot parse '-' as integer")
    );
    assert_eq!(
        Lexer::new("integer = 0x7fffffffffffffff").tokenize(),
        integer_line(i64::MAX)
    );
}

#[test]
fn integer_radix_errors() {
    assert_eq!(
        Lexer::new("integer = 0x8000000000000000").tokenize(),
        int_error("invalid hexadecimal number")
    );
    assert_eq!(Lexer::new("integer = 0x").tokenize(), int_error("invalid hexadecimal number"));
    assert_eq!(
        Lexer::new("integer = 0b102").tokenize(),
        int_error("invalid character '2' in binary number")
    );
    assert_eq!(
        Lexer::new("integer = 0o78").tokenize(),
        int_error("invalid character '8' in octal number")
    );
    assert_eq!(
        Lexer::new("integer = 0xfg").tokenize(),
        int_error("invalid character 'g' in hexadecimal number")
    );
    assert_eq!(
        Lexer::new("integer = 0b1_").tokenize(),
        int_error("underscore should have numbers on both ends")
    );
    assert_eq!(
        Lexer::new("integer = 1__0").tokenize(),
        int_error("underscore should have numbers on both ends")
    );
}
