use rustoml::lexer::Lexer;
use rustoml::token::{SpannedToken, TokenKind};

fn spanned(kind: TokenKind, line: usize, col: usize) -> SpannedToken {
    SpannedToken { kind, line, col }
}

#[test]
fn lexer_boolean() {
    let toml = "boolean =  true";
    let mut lexer = Lexer::new(toml);
    let tokens = lexer.tokenize();
    assert_eq!(
        tokens,
        Ok(vec![
            spanned(TokenKind::Identifier("boolean".to_string()), 1, 1),
            spanned(TokenKind::Equal, 1, 9),
            spanned(TokenKind::Boolean(true), 1, 12),
        ])
    );
}

#[test]
fn lexer_boolean_false_and_words() {
    let mut lexer = Lexer::new("a = false\nb-c_d = true");
    assert_eq!(
        lexer.tokenize(),
        Ok(vec![
            spanned(TokenKind::Identifier("a".to_string()), 1, 1),
            spanned(TokenKind::Equal, 1, 3),
            spanned(TokenKind::Boolean(false), 1, 5),
            spanned(TokenKind::NewLine, 2, 1),
            spanned(TokenKind::Identifier("b-c_d".to_string()), 2, 1),
            spanned(TokenKind::Equal, 2, 7),
            spanned(TokenKind::Boolean(true), 2, 9),
        ])
    );
}
