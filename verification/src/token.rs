//! Tokens produced by the lexer and read by the parser.
use vstd::prelude::*;
use crate::text::{int_text, push_int_text, push_quoted, quoted};

verus! {

/// A floating-point literal as it was written in the document.
///
/// The library never computes with floating-point numbers; a finite float keeps
/// the text of its literal (sign, digits, `.`, exponent; underscores removed),
/// which parses with Rust's `f64` grammar.
#[derive(Debug, PartialEq)]
pub enum FloatValue {
    Finite { literal: String },
    Infinite { negative: bool },
    NotANumber { negative: bool },
}

/// Mathematical model of a [`FloatValue`].
pub enum FloatValueV {
    Finite(Seq<char>),
    Infinite(bool),
    NotANumber(bool),
}

impl View for FloatValue {
    type V = FloatValueV;

    open spec fn view(&self) -> FloatValueV {
        match self {
            FloatValue::Finite { literal } => FloatValueV::Finite(literal@),
            FloatValue::Infinite { negative } => FloatValueV::Infinite(*negative),
            FloatValue::NotANumber { negative } => FloatValueV::NotANumber(*negative),
        }
    }
}

impl FloatValue {
    /// A copy with the same view.
    pub fn copy(&self) -> (r: FloatValue)
        ensures
            r@ == self@,
    {
        match self {
            FloatValue::Finite { literal } => FloatValue::Finite { literal: literal.clone() },
            FloatValue::Infinite { negative } => FloatValue::Infinite { negative: *negative },
            FloatValue::NotANumber { negative } => FloatValue::NotANumber { negative: *negative },
        }
    }
}

#[derive(Debug, PartialEq)]
pub enum TokenKind {
    Equal,
    Comma,
    LBracket,
    RBracket,
    LBrace,
    RBrace,
    Dot,
    StringLit(String),
    Integer(i64),
    Float(FloatValue),
    Boolean(bool),
    DateTime(String),
    Identifier(String),
    Comment(String),
    NewLine,
}

/// Mathematical model of a [`TokenKind`].
pub enum TokenKindV {
    Equal,
    Comma,
    LBracket,
    RBracket,
    LBrace,
    RBrace,
    Dot,
    StringLit(Seq<char>),
    Integer(i64),
    Float(FloatValueV),
    Boolean(bool),
    DateTime(Seq<char>),
    Identifier(Seq<char>),
    Comment(Seq<char>),
    NewLine,
}

impl View for TokenKind {
    type V = TokenKindV;

    open spec fn view(&self) -> TokenKindV {
        match self {
            TokenKind::Equal => TokenKindV::Equal,
            TokenKind::Comma => TokenKindV::Comma,
            TokenKind::LBracket => TokenKindV::LBracket,
            TokenKind::RBracket => TokenKindV::RBracket,
            TokenKind::LBrace => TokenKindV::LBrace,
            TokenKind::RBrace => TokenKindV::RBrace,
            TokenKind::Dot => TokenKindV::Dot,
            TokenKind::StringLit(s) => TokenKindV::StringLit(s@),
            TokenKind::Integer(n) => TokenKindV::Integer(*n),
            TokenKind::Float(f) => TokenKindV::Float(f@),
            TokenKind::Boolean(b) => TokenKindV::Boolean(*b),
            TokenKind::DateTime(s) => TokenKindV::DateTime(s@),
            TokenKind::Identifier(s) => TokenKindV::Identifier(s@),
            TokenKind::Comment(s) => TokenKindV::Comment(s@),
            TokenKind::NewLine => TokenKindV::NewLine,
        }
    }
}

impl TokenKind {
    /// A copy with the same view.
    pub fn copy(&self) -> (r: TokenKind)
        ensures
            r@ == self@,
    {
        match self {
            TokenKind::Equal => TokenKind::Equal,
            TokenKind::Comma => TokenKind::Comma,
            TokenKind::LBracket => TokenKind::LBracket,
            TokenKind::RBracket => TokenKind::RBracket,
            TokenKind::LBrace => TokenKind::LBrace,
            TokenKind::RBrace => TokenKind::RBrace,
            TokenKind::Dot => TokenKind::Dot,
            TokenKind::StringLit(s) => TokenKind::StringLit(s.clone()),
            TokenKind::Integer(n) => TokenKind::Integer(*n),
            TokenKind::Float(f) => TokenKind::Float(f.copy()),
            TokenKind::Boolean(b) => TokenKind::Boolean(*b),
            TokenKind::DateTime(s) => TokenKind::DateTime(s.clone()),
            TokenKind::Identifier(s) => TokenKind::Identifier(s.clone()),
            TokenKind::Comment(s) => TokenKind::Comment(s.clone()),
            TokenKind::NewLine => TokenKind::NewLine,
        }
    }
}

/// A token with the line and column (both counted from 1) that the lexer gives it.
#[derive(Debug, PartialEq)]
pub struct SpannedToken {
    pub kind: TokenKind,
    pub line: usize,
    pub col: usize,
}

/// Mathematical model of a [`SpannedToken`].
pub struct SpannedTokenV {
    pub kind: TokenKindV,
    pub line: nat,
    pub col: nat,
}

impl View for SpannedToken {
    type V = SpannedTokenV;

    open spec fn view(&self) -> SpannedTokenV {
        SpannedTokenV { kind: self.kind@, line: self.line as nat, col: self.col as nat }
    }
}

/// The models of a sequence of tokens.
pub open spec fn tokens_view(v: Seq<SpannedToken>) -> Seq<SpannedTokenV> {
    v.map_values(|t: SpannedToken| t@)
}

impl SpannedToken {
    pub fn kind(&self) -> (r: &TokenKind)
        ensures
            r@ == self.kind@,
    {
        &self.kind
    }

    pub fn line(&self) -> (r: usize)
        ensures
            r == self.line,
    {
        self.line
    }

    pub fn col(&self) -> (r: usize)
        ensures
            r == self.col,
    {
        self.col
    }

    /// A copy with the same view.
    pub fn copy(&self) -> (r: SpannedToken)
        ensures
            r@ == self@,
    {
        SpannedToken { kind: self.kind.copy(), line: self.line, col: self.col }
    }
}

/// How a float is written in messages: its literal, `inf`, `-inf` or `NaN`.
pub open spec fn float_text(f: FloatValueV) -> Seq<char> {
    match f {
        FloatValueV::Finite(lit) => lit,
        FloatValueV::Infinite(negative) => if negative {
            "-inf"@
        } else {
            "inf"@
        },
        FloatValueV::NotANumber(_) => "NaN"@,
    }
}

/// How a token kind is written in messages, in the form of Rust's `Debug`.
pub open spec fn kind_debug(k: TokenKindV) -> Seq<char> {
    match k {
        TokenKindV::Equal => "Equal"@,
        TokenKindV::Comma => "Comma"@,
        TokenKindV::LBracket => "LBracket"@,
        TokenKindV::RBracket => "RBracket"@,
        TokenKindV::LBrace => "LBrace"@,
        TokenKindV::RBrace => "RBrace"@,
        TokenKindV::Dot => "Dot"@,
        TokenKindV::StringLit(s) => "StringLit("@ + quoted(s) + ")"@,
        TokenKindV::Integer(n) => "Integer("@ + int_text(n as int) + ")"@,
        TokenKindV::Float(f) => "Float("@ + float_text(f) + ")"@,
        TokenKindV::Boolean(b) => if b {
            "Boolean(true)"@
        } else {
            "Boolean(false)"@
        },
        TokenKindV::DateTime(s) => "DateTime("@ + quoted(s) + ")"@,
        TokenKindV::Identifier(s) => "Identifier("@ + quoted(s) + ")"@,
        TokenKindV::Comment(s) => "Comment("@ + quoted(s) + ")"@,
        TokenKindV::NewLine => "NewLine"@,
    }
}

impl FloatValue {
    /// How the float is written in messages.
    pub fn text(&self) -> (r: String)
        ensures
            r@ == float_text(self@),
    {
        match self {
            FloatValue::Finite { literal } => literal.clone(),
            FloatValue::Infinite { negative } => if *negative {
                String::from_str("-inf")
            } else {
                String::from_str("inf")
            },
            FloatValue::NotANumber { .. } => String::from_str("NaN"),
        }
    }
}

/// `head`, then `body`, then `)`.
fn wrapped(head: &str, body: String) -> (r: String)
    ensures
        r@ == head@ + body@ + ")"@,
{
    let mut s = String::from_str(head);
    s.append(body.as_str());
    s.append(")");
    s
}

fn wrapped_quoted(head: &str, t: &String) -> (r: String)
    ensures
        r@ == head@ + quoted(t@) + ")"@,
{
    let mut s = String::from_str(head);
    push_quoted(&mut s, t.as_str());
    s.append(")");
    s
}

impl TokenKind {
    /// How the token kind is written in messages.
    pub fn debug_text(&self) -> (r: String)
        ensures
            r@ == kind_debug(self@),
    {
        match self {
            TokenKind::Equal => String::from_str("Equal"),
            TokenKind::Comma => String::from_str("Comma"),
            TokenKind::LBracket => String::from_str("LBracket"),
            TokenKind::RBracket => String::from_str("RBracket"),
            TokenKind::LBrace => String::from_str("LBrace"),
            TokenKind::RBrace => String::from_str("RBrace"),
            TokenKind::Dot => String::from_str("Dot"),
            TokenKind::StringLit(s) => wrapped_quoted("StringLit(", s),
            TokenKind::Integer(n) => {
                let mut s = String::from_str("Integer(");
                push_int_text(&mut s, *n);
                s.append(")");
                s
            },
            TokenKind::Float(f) => wrapped("Float(", f.text()),
            TokenKind::Boolean(b) => if *b {
                String::from_str("Boolean(true)")
            } else {
                String::from_str("Boolean(false)")
            },
            TokenKind::DateTime(s) => wrapped_quoted("DateTime(", s),
            TokenKind::Identifier(s) => wrapped_quoted("Identifier(", s),
            TokenKind::Comment(s) => wrapped_quoted("Comment(", s),
            TokenKind::NewLine => String::from_str("NewLine"),
        }
    }
}

} // verus!
