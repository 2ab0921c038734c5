//! Errors met while reading, parsing or validating a document.
use vstd::prelude::*;
use crate::text::{int_text, nat_text, push_int_text, push_usize_text};

verus! {

#[derive(Debug, PartialEq)]
pub enum ConfigError {
    UnexpectedCharacter { line: usize, col: usize, expected: String, found: String },
    UnterminatedString { line: usize, col: usize },
    InvalidNumber { line: usize, col: usize, detail: String },
    InvalidEscapeSequence { line: usize, col: usize },
    ExpectedToken { line: usize, col: usize, expected: String, found: String },
    MissingValue { line: usize, col: usize, key: String },
    SchemaViolation { line: usize, key: String, expected: String, found: String },
    MissingRequiredKey { key: String },
    ValueOutOfRange { key: String, value: String, min: i64, max: i64 },
    UnknownKey { key: String, line: usize },
    /// A failure to read a document; `detail` is the system's message.
    Io { detail: String },
}

/// Mathematical model of a [`ConfigError`].
pub enum ConfigErrorV {
    UnexpectedCharacter { line: nat, col: nat, expected: Seq<char>, found: Seq<char> },
    UnterminatedString { line: nat, col: nat },
    InvalidNumber { line: nat, col: nat, detail: Seq<char> },
    InvalidEscapeSequence { line: nat, col: nat },
    ExpectedToken { line: nat, col: nat, expected: Seq<char>, found: Seq<char> },
    MissingValue { line: nat, col: nat, key: Seq<char> },
    SchemaViolation { line: nat, key: Seq<char>, expected: Seq<char>, found: Seq<char> },
    MissingRequiredKey { key: Seq<char> },
    ValueOutOfRange { key: Seq<char>, value: Seq<char>, min: i64, max: i64 },
    UnknownKey { key: Seq<char>, line: nat },
    Io { detail: Seq<char> },
}

impl View for ConfigError {
    type V = ConfigErrorV;

    open spec fn view(&self) -> ConfigErrorV {
        match self {
            ConfigError::UnexpectedCharacter { line, col, expected, found } =>
                ConfigErrorV::UnexpectedCharacter {
                    line: *line as nat,
                    col: *col as nat,
                    expected: expected@,
                    found: found@,
                },
            ConfigError::UnterminatedString { line, col } =>
                ConfigErrorV::UnterminatedString { line: *line as nat, col: *col as nat },
            ConfigError::InvalidNumber { line, col, detail } =>
                ConfigErrorV::InvalidNumber { line: *line as nat, col: *col as nat, detail: detail@ },
            ConfigError::InvalidEscapeSequence { line, col } =>
                ConfigErrorV::InvalidEscapeSequence { line: *line as nat, col: *col as nat },
            ConfigError::ExpectedToken { line, col, expected, found } =>
                ConfigErrorV::ExpectedToken {
                    line: *line as nat,
                    col: *col as nat,
                    expected: expected@,
                    found: found@,
                },
            ConfigError::MissingValue { line, col, key } =>
                ConfigErrorV::MissingValue { line: *line as nat, col: *col as nat, key: key@ },
            ConfigError::SchemaViolation { line, key, expected, found } =>
                ConfigErrorV::SchemaViolation {
                    line: *line as nat,
                    key: key@,
                    expected: expected@,
                    found: found@,
                },
            ConfigError::MissingRequiredKey { key } => ConfigErrorV::MissingRequiredKey { key: key@ },
            ConfigError::ValueOutOfRange { key, value, min, max } =>
                ConfigErrorV::ValueOutOfRange { key: key@, value: value@, min: *min, max: *max },
            ConfigError::UnknownKey { key, line } =>
                ConfigErrorV::UnknownKey { key: key@, line: *line as nat },
            ConfigError::Io { detail } => ConfigErrorV::Io { detail: detail@ },
        }
    }
}


/// The message of an error.
pub open spec fn error_message(e: ConfigErrorV) -> Seq<char> {
    match e {
        ConfigErrorV::UnexpectedCharacter { line, col, expected, found } => "unexpected character at line "@
            + nat_text(line) + ", column "@ + nat_text(col) + ": expected "@ + expected + ", found '"@
            + found + "'"@,
        ConfigErrorV::UnterminatedString { line, col } => "unterminated string starting at line "@
            + nat_text(line) + ", column "@ + nat_text(col),
        ConfigErrorV::InvalidNumber { line, col, detail } => "invalid number at line "@ + nat_text(line)
            + ", column "@ + nat_text(col) + ": "@ + detail,
        ConfigErrorV::InvalidEscapeSequence { line, col } => "invalid escape sequence at line "@
            + nat_text(line) + ", column "@ + nat_text(col),
        ConfigErrorV::ExpectedToken { line, col, expected, found } => "expected "@ + expected
            + " at line "@ + nat_text(line) + ", column "@ + nat_text(col) + ", found "@ + found,
        ConfigErrorV::MissingValue { line, col, key } => "missing value for key '"@ + key
            + "' at line "@ + nat_text(line) + ", column "@ + nat_text(col),
        ConfigErrorV::SchemaViolation { line, key, expected, found } => "schema violation at line "@
            + nat_text(line) + ": key '"@ + key + "' expected type "@ + expected + ", found "@ + found,
        ConfigErrorV::MissingRequiredKey { key } => "missing required key '"@ + key + "'"@,
        ConfigErrorV::ValueOutOfRange { key, value, min, max } => "key '"@ + key + "' has value "@
            + value + " which is outside range "@ + int_text(min as int) + " to "@ + int_text(
            max as int,
        ),
        ConfigErrorV::UnknownKey { key, line } => "unknown key '"@ + key + "' at line "@ + nat_text(
            line,
        ),
        ConfigErrorV::Io { detail } => "io error: "@ + detail,
    }
}

/// The line of the document that an error points at, or 0 when it points at none.
pub open spec fn error_line(e: ConfigErrorV) -> nat {
    match e {
        ConfigErrorV::UnexpectedCharacter { line, .. } => line,
        ConfigErrorV::UnterminatedString { line, .. } => line,
        ConfigErrorV::InvalidNumber { line, .. } => line,
        ConfigErrorV::ExpectedToken { line, .. } => line,
        ConfigErrorV::MissingValue { line, .. } => line,
        ConfigErrorV::SchemaViolation { line, .. } => line,
        ConfigErrorV::UnknownKey { line, .. } => line,
        _ => 0,
    }
}

/// The index of the first line feed in `s` from `i` on, or the length of `s`.
pub open spec fn line_end(s: Seq<char>, i: int) -> int
    decreases s.len() - i,
{
    if i < 0 || i >= s.len() || s[i] == '\n' {
        if i < 0 { 0 } else { i }
    } else {
        line_end(s, i + 1)
    }
}

/// The lines of `s` from index `i` on, as `str::lines` gives them: split at each
/// line feed, a carriage return just before it dropped, and no empty line after a
/// final line feed.
pub open spec fn lines_from(s: Seq<char>, i: int) -> Seq<Seq<char>>
    decreases s.len() - i,
{
    if i < 0 || i >= s.len() {
        seq![]
    } else {
        proof {
            lemma_line_end(s, i);
        }
        let j = line_end(s, i);
        let raw = s.subrange(i, j);
        let line = if j < s.len() && raw.len() > 0 && raw.last() == '\r' {
            raw.drop_last()
        } else {
            raw
        };
        if j < s.len() {
            seq![line] + lines_from(s, j + 1)
        } else {
            seq![line]
        }
    }
}

/// The `n`-th line of `source` (counted from 1), or nothing past the last line.
pub open spec fn source_line(source: Seq<char>, n: nat) -> Seq<char> {
    let lines = lines_from(source, 0);
    if 1 <= n <= lines.len() {
        lines[n - 1]
    } else {
        seq![]
    }
}

/// A line number right-aligned in two columns.
pub open spec fn width2(n: nat) -> Seq<char> {
    if n < 10 {
        seq![' '] + nat_text(n)
    } else {
        nat_text(n)
    }
}

/// The report of an error: its message, and the line of `source` it points at.
pub open spec fn error_report(e: ConfigErrorV, source: Seq<char>) -> Seq<char> {
    let n = error_line(e);
    if n == 0 {
        "Error: "@ + error_message(e)
    } else {
        "Error: "@ + error_message(e) + "\n   |\n"@ + width2(n) + " | "@ + source_line(source, n)
            + "\n   |"@
    }
}

pub proof fn lemma_line_end(s: Seq<char>, i: int)
    requires
        0 <= i <= s.len(),
    ensures
        i <= line_end(s, i) <= s.len(),
        line_end(s, i) < s.len() ==> s[line_end(s, i)] == '\n',
        forall|k: int| i <= k < line_end(s, i) ==> s[k] != '\n',
    decreases s.len() - i,
{
    if i < s.len() && s[i] != '\n' {
        lemma_line_end(s, i + 1);
    }
}

/// Appends `a`, the decimal digits of `line`, `b`, those of `col`.
fn push_at(s: &mut String, a: &str, line: usize, b: &str, col: usize)
    ensures
        final(s)@ == old(s)@ + a@ + nat_text(line as nat) + b@ + nat_text(col as nat),
{
    s.append(a);
    push_usize_text(s, line);
    s.append(b);
    push_usize_text(s, col);
}

impl ConfigError {
    /// The message of the error.
    pub fn message(&self) -> (r: String)
        ensures
            r@ == error_message(self@),
    {
        let mut s = String::new();
        match self {
            ConfigError::UnexpectedCharacter { line, col, expected, found } => {
                push_at(&mut s, "unexpected character at line ", *line, ", column ", *col);
                s.append(": expected ");
                s.append(expected.as_str());
                s.append(", found '");
                s.append(found.as_str());
                s.append("'");
            },
            ConfigError::UnterminatedString { line, col } => {
                push_at(&mut s, "unterminated string starting at line ", *line, ", column ", *col);
            },
            ConfigError::InvalidNumber { line, col, detail } => {
                push_at(&mut s, "invalid number at line ", *line, ", column ", *col);
                s.append(": ");
                s.append(detail.as_str());
            },
            ConfigError::InvalidEscapeSequence { line, col } => {
                push_at(&mut s, "invalid escape sequence at line ", *line, ", column ", *col);
            },
            ConfigError::ExpectedToken { line, col, expected, found } => {
                s.append("expected ");
                s.append(expected.as_str());
                push_at(&mut s, " at line ", *line, ", column ", *col);
                s.append(", found ");
                s.append(found.as_str());
            },
            ConfigError::MissingValue { line, col, key } => {
                s.append("missing value for key '");
                s.append(key.as_str());
                push_at(&mut s, "' at line ", *line, ", column ", *col);
            },
            ConfigError::SchemaViolation { line, key, expected, found } => {
                s.append("schema violation at line ");
                push_usize_text(&mut s, *line);
                s.append(": key '");
                s.append(key.as_str());
                s.append("' expected type ");
                s.append(expected.as_str());
                s.append(", found ");
                s.append(found.as_str());
            },
            ConfigError::MissingRequiredKey { key } => {
                s.append("missing required key '");
                s.append(key.as_str());
                s.append("'");
            },
            ConfigError::ValueOutOfRange { key, value, min, max } => {
                s.append("key '");
                s.append(key.as_str());
                s.append("' has value ");
                s.append(value.as_str());
                s.append(" which is outside range ");
                push_int_text(&mut s, *min);
                s.append(" to ");
                push_int_text(&mut s, *max);
            },
            ConfigError::UnknownKey { key, line } => {
                s.append("unknown key '");
                s.append(key.as_str());
                s.append("' at line ");
                push_usize_text(&mut s, *line);
            },
            ConfigError::Io { detail } => {
                s.append("io error: ");
                s.append(detail.as_str());
            },
        }
        proof {
            assert(s@ =~= error_message(self@));
        }
        s
    }

    /// The line of the document that the error points at, or 0 when it points at none.
    pub fn line(&self) -> (r: usize)
        ensures
            r == error_line(self@),
    {
        match self {
            ConfigError::UnexpectedCharacter { line, .. } => *line,
            ConfigError::UnterminatedString { line, .. } => *line,
            ConfigError::InvalidNumber { line, .. } => *line,
            ConfigError::ExpectedToken { line, .. } => *line,
            ConfigError::MissingValue { line, .. } => *line,
            ConfigError::SchemaViolation { line, .. } => *line,
            ConfigError::UnknownKey { line, .. } => *line,
            _ => 0,
        }
    }
}

/// The `n`-th line of `source` (counted from 1), or an empty string past the last line.
fn line_of(source: &str, n: usize) -> (r: String)
    requires
        n >= 1,
    ensures
        r@ == source_line(source@, n as nat),
{
    let ghost s = source@;
    let len = source.unicode_len();
    let mut i: usize = 0;
    let mut k: usize = n - 1;
    while i < len
        invariant
            len == s.len(),
            i <= len,
            source@ == s,
            k < n,
            source_line(s, n as nat) == (if k < lines_from(s, i as int).len() {
                lines_from(s, i as int)[k as int]
            } else {
                seq![]
            }),
        decreases len - i,
    {
        proof {
            lemma_line_end(s, i as int);
        }
        let mut j = i;
        while j < len && source.get_char(j) != '\n'
            invariant
                len == s.len(),
                i <= j <= len,
                source@ == s,
                line_end(s, i as int) == line_end(s, j as int),
            decreases len - j,
        {
            j = j + 1;
        }
        proof {
            lemma_line_end(s, j as int);
            assert(j == line_end(s, i as int));
        }
        if k == 0 {
            let mut end = j;
            if j < len && j > i && source.get_char(j - 1) == '\r' {
                end = j - 1;
            }
            let mut line = String::new();
            let mut m = i;
            while m < end
                invariant
                    len == s.len(),
                    i <= m <= end <= len,
                    source@ == s,
                    line@ == s.subrange(i as int, m as int),
                decreases end - m,
            {
                let c = source.get_char(m);
                proof {
                    assert(s.subrange(i as int, m + 1) =~= s.subrange(i as int, m as int).push(c));
                }
                line.push(c);
                m = m + 1;
            }
            proof {
                let raw = s.subrange(i as int, j as int);
                if end < j {
                    assert(raw.drop_last() =~= s.subrange(i as int, end as int));
                }
            }
            return line;
        }
        if j >= len {
            return String::new();
        }
        proof {
            let rest = lines_from(s, j + 1);
            assert(lines_from(s, i as int).len() == rest.len() + 1);
            assert(forall|q: int| 1 <= q <= rest.len() ==> lines_from(s, i as int)[q] == rest[q - 1]);
        }
        k = k - 1;
        i = j + 1;
    }
    String::new()
}

/// The report of an error: `Error: ` and its message, then, when the error points
/// at a line of the document, that line of `source` under its number.
pub fn format_error(err: &ConfigError, source: &str) -> (r: String)
    ensures
        r@ == error_report(err@, source@),
{
    let line_num = err.line();
    let mut s = String::from_str("Error: ");
    let message = err.message();
    s.append(message.as_str());
    if line_num == 0 {
        return s;
    }
    s.append("\n   |\n");
    if line_num < 10 {
        s.push(' ');
    }
    push_usize_text(&mut s, line_num);
    s.append(" | ");
    let content = line_of(source, line_num);
    s.append(content.as_str());
    s.append("\n   |");
    proof {
        assert(s@ =~= error_report(err@, source@));
    }
    s
}
} // verus!
