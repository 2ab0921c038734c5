use rustoml::lexer::Lexer;
use rustoml::token::{FloatValue, SpannedToken, TokenKind};

const LEXED_SAMPLE: &str = "# sample configuration
[root]
name = \"rustoml\"

[root.braces]
key = { inner = 1, other = \"two\" }

[root.numbers.floats.normal]
float1 = 3.14

[root.numbers.floats.special]
float7 = [inf, -inf, nan]

[[ArrayOfTables]]
index = 0

[[ArrayOfTables]]
index = 1
";

fn at(kind: TokenKind, line: usize, col: usize) -> SpannedToken {
    SpannedToken { kind, line, col }
}

fn word(w: &str) -> TokenKind {
    TokenKind::Identifier(w.to_string())
}

fn header(line: usize, parts: &[(&str, usize)], close: usize) -> Vec<SpannedToken> {
    let mut v = vec![at(TokenKind::LBracket, line, 1)];
    for (i, (p, col)) in parts.iter().enumerate() {
        if i > 0 {
            v.push(at(TokenKind::Dot, line, col - 1));
        }
        v.push(at(word(p), line, *col));
    }
    v.push(at(TokenKind::RBracket, line, close));
    v.push(at(TokenKind::NewLine, line + 1, 1));
    v
}

#[test]
fn test_lexer() {
    let mut lexer = Lexer::new(LEXED_SAMPLE);
    let tokenized = lexer.tokenize();
    let mut expected = vec![
        at(TokenKind::Comment(" sample configuration".to_string()), 1, 23),
        at(TokenKind::NewLine, 2, 1),
    ];
    expected.extend(header(2, &[("root", 2)], 6));
    expected.extend(vec![
        at(word("name"), 3, 1),
        at(TokenKind::Equal, 3, 6),
        at(TokenKind::StringLit("rustoml".to_string()), 3, 8),
        at(TokenKind::NewLine, 4, 1),
        at(TokenKind::NewLine, 5, 1),
    ]);
    expected.extend(header(5, &[("root", 2), ("braces", 7)], 13));
    expected.extend(vec![
        at(word("key"), 6, 1),
        at(TokenKind::Equal, 6, 5),
        at(TokenKind::LBrace, 6, 7),
        at(word("inner"), 6, 9),
        at(TokenKind::Equal, 6, 15),
        at(TokenKind::Integer(1), 6, 17),
        at(TokenKind::Comma, 6, 18),
        at(word("other"), 6, 20),
        at(TokenKind::Equal, 6, 26),
        at(TokenKind::StringLit("two".to_string()), 6, 28),
        at(TokenKind::RBrace, 6, 34),
        at(TokenKind::NewLine, 7, 1),
        at(TokenKind::NewLine, 8, 1),
    ]);
    expected.extend(header(8, &[("root", 2), ("numbers", 7), ("floats", 15), ("normal", 22)], 28));
    expected.extend(vec![
        at(word("float1"), 9, 1),
        at(TokenKind::Equal, 9, 8),
        at(TokenKind::Float(FloatValue::Finite { literal: "3.14".to_string() }), 9, 10),
        at(TokenKind::NewLine, 10, 1),
        at(TokenKind::NewLine, 11, 1),
    ]);
    expected.extend(header(11, &[("root", 2), ("numbers", 7), ("floats", 15), ("special", 22)], 29));
    expected.extend(vec![
        at(word("float7"), 12, 1),
        at(TokenKind::Equal, 12, 8),
        at(TokenKind::LBracket, 12, 10),
        at(TokenKind::Float(FloatValue::Infinite { negative: false }), 12, 11),
        at(TokenKind::Comma, 12, 14),
        at(TokenKind::Float(FloatValue::Infinite { negative: true }), 12, 16),
        at(TokenKind::Comma, 12, 20),
        at(TokenKind::Float(FloatValue::NotANumber { negative: false }), 12, 22),
        at(TokenKind::RBracket, 12, 25),
        at(TokenKind::NewLine, 13, 1),
        at(TokenKind::NewLine, 14, 1),
    ]);
    for (line, index) in [(14usize, 0i64), (17, 1)] {
        expected.extend(vec![
            at(TokenKind::LBracket, line, 1),
            at(TokenKind::LBracket, line, 2),
            at(word("ArrayOfTables"), line, 3),
            at(TokenKind::RBracket, line, 16),
            at(TokenKind::RBracket, line, 17),
            at(TokenKind::NewLine, line + 1, 1),
            at(word("index"), line + 1, 1),
            at(TokenKind::Equal, line + 1, 7),
            at(TokenKind::Integer(index), line + 1, 9),
            at(TokenKind::NewLine, line + 2, 1),
        ]);
        if line == 14 {
            expected.push(at(TokenKind::NewLine, 17, 1));
        }
    }
    assert_eq!(tokenized, Ok(expected));
}

#[test]
fn tokens_come_in_document_order() {
    let tokens = Lexer::new(LEXED_SAMPLE).tokenize().unwrap();
    for pair in tokens.windows(2) {
        assert!((pair[0].line, pair[0].col) <= (pair[1].line, pair[1].col), "{:?}", pair);
    }
    assert!(tokens.iter().all(|t| t.line >= 1 && t.col >= 1));
}
