use rustoml::config_error::ConfigError;
use rustoml::lexer::Lexer;
use rustoml::token::{FloatValue, SpannedToken, TokenKind};

fn float_tok(kind: TokenKind, line: usize, col: usize) -> SpannedToken {
    SpannedToken { kind, line, col }
}

fn finite(text: &str) -> TokenKind {
    TokenKind::Float(FloatValue::Finite { literal: text.to_string() })
}

/// The tokens of `float = <value>` where the value is one token at column 9.
fn float_line(value: TokenKind) -> Result<Vec<SpannedToken>, ConfigError> {
    Ok(vec![
        float_tok(TokenKind::Identifier("float".to_string()), 1, 1),
        float_tok(TokenKind::Equal, 1, 7),
        float_tok(value, 1, 9),
    ])
}

fn number_error(detail: &str) -> Result<Vec<SpannedToken>, ConfigError> {
    Err(ConfigError::InvalidNumber { line: 1, col: 9, detail: detail.to_string() })
}

#[test]
fn test_float() {
    let toml = "float = 3.14";
    let mut lexer = Lexer::new(toml);
    let tokens = lexer.tokenize();
    assert_eq!(tokens, float_line(finite("3.14")));
}

#[test]
fn test_float_underscores() {
    let toml = "float = 3.14_15";
    let mut lexer = Lexer::new(toml);
    let tokens = lexer.tokenize();
    assert_eq!(tokens, float_line(finite("3.1415")));
}

#[test]
fn test_float_underscore_start() {
    let toml = "float = _3.1415";
    let mut lexer = Lexer::new(toml);
    let tokens = lexer.tokenize();
    assert_eq!(
        tokens,
        Ok(vec![
            float_tok(TokenKind::Identifier("float".to_string()), 1, 1),
            float_tok(TokenKind::Equal, 1, 7),
            float_tok(TokenKind::Identifier("_3".to_string()), 1, 9),
            float_tok(TokenKind::Dot, 1, 11),
            float_tok(TokenKind::Integer(1415), 1, 12),
        ])
    );
}

#[test]
fn test_float_underscore_end() {
    let toml = "float = 3.1415_";
    let mut lexer = Lexer::new(toml);
    let tokens = lexer.tokenize();
    assert_eq!(tokens, number_error("underscore should have numbers on both ends"));
}

#[test]
fn test_float_underscore_before_dot() {
    let toml = "float = 3_.1415";
    let mut lexer = Lexer::new(toml);
    let tokens = lexer.tokenize();
    assert_eq!(tokens, number_error("underscore should have numbers on both ends"));
}

#[test]
fn test_float_underscore_after_dot() {
    let toml = "float = 3._1415";
    let mut lexer = Lexer::new(toml);
    let tokens = lexer.tokenize();
    assert_eq!(tokens, number_error("fractional part must start with a digit"));
}

#[test]
fn test_float_special() {
    let toml = "float = nan";
    let mut lexer = Lexer::new(toml);
    let tokens = lexer.tokenize();
    assert_eq!(tokens, float_line(TokenKind::Float(FloatValue::NotANumber { negative: false })));
}

#[test]
fn test_float_special_sign() {
    let toml = "float = -inf";
    let mut lexer = Lexer::new(toml);
    let tokens = lexer.tokenize();
    assert_eq!(tokens, float_line(TokenKind::Float(FloatValue::Infinite { negative: true })));
}

#[test]
fn test_float_scientific() {
    let toml = "float = 6.6e23";
    let mut lexer = Lexer::new(toml);
    let tokens = lexer.tokenize();
    assert_eq!(tokens, float_line(finite("6.6e23")));
}

#[test]
fn test_float_scientific_exponent_sign() {
    let toml = "float = 6.6e+23";
    let mut lexer = Lexer::new(toml);
    let tokens = lexer.tokenize();
    assert_eq!(tokens, float_line(finite("6.6e+23")));
}

#[test]
fn test_float_scientific_exponent_underscore() {
    let toml = "float = 6.6e+2_3";
    let mut lexer = Lexer::new(toml);
    let tokens = lexer.tokenize();
    assert_eq!(tokens, float_line(finite("6.6e+23")));
}

#[test]
fn test_float_scientific_no_dot() {
    let toml = "float = 1e6";
    let mut lexer = Lexer::new(toml);
    let tokens = lexer.tokenize();
    assert_eq!(tokens, float_line(finite("1e6")));
}

#[test]
fn test_float_scientific_dot_after_exponent() {
    let toml = "float = 1e2.5";
    let mut lexer = Lexer::new(toml);
    let tokens = lexer.tokenize();
    assert_eq!(tokens, number_error("fractional part cannot follow an exponent"));
}

#[test]
fn float_specials_with_signs() {
    assert_eq!(
        Lexer::new("float = +inf").tokenize(),
        float_line(TokenKind::Float(FloatValue::Infinite { negative: false }))
    );
    assert_eq!(
        Lexer::new("float = inf").tokenize(),
        float_line(TokenKind::Float(FloatValue::Infinite { negative: false }))
    );
    assert_eq!(
        Lexer::new("float = -nan").tokenize(),
        float_line(TokenKind::Float(FloatValue::NotANumber { negative: true }))
    );
    assert_eq!(
        Lexer::new("float = +nan").tokenize(),
        float_line(TokenKind::Float(FloatValue::NotANumber { negative: false }))
    );
}

#[test]
fn float_errors() {
    assert_eq!(Lexer::new("float = 1.2.3").tokenize(), number_error("multiple decimal points"));
    assert_eq!(Lexer::new("float = 1e2e3").tokenize(), number_error("multiple exponents"));
    assert_eq!(
        Lexer::new("float = 1e+").tokenize(),
        number_error("exponent part must start with a digit")
    );
    assert_eq!(Lexer::new("float = -.5").tokenize(), number_error("number cannot start with dot"));
    assert_eq!(
        Lexer::new("float = -_5").tokenize(),
        number_error("underscore should have numbers on both ends")
    );
    assert_eq!(
        Lexer::new("float = infx").tokenize(),
        float_line(TokenKind::Identifier("infx".to_string()))
    );
    assert_eq!(
        Lexer::new("float = -infx").tokenize(),
        number_error("invalid character 'x' after inf")
    );
    assert_eq!(
        Lexer::new("float = +nan1").tokenize(),
        number_error("invalid character '1' after nan")
    );
    assert_eq!(
        Lexer::new("float = -int").tokenize(),
        number_error("only nan and inf special characters are allowed")
    );
    assert_eq!(
        Lexer::new("float = 1.5x").tokenize(),
        number_error("invalid character 'x' in number")
    );
}

#[test]
fn float_in_array_stops_at_delimiters() {
    assert_eq!(
        Lexer::new("[1.5,2e3]").tokenize(),
        Ok(vec![
            float_tok(TokenKind::LBracket, 1, 1),
            float_tok(finite("1.5"), 1, 2),
            float_tok(TokenKind::Comma, 1, 5),
            float_tok(finite("2e3"), 1, 6),
            float_tok(TokenKind::RBracket, 1, 9),
        ])
    );
}
