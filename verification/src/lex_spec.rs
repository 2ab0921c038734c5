//! The lexical grammar of a document, stated over its bytes.
//!
//! Positions are byte offsets into the input. Each reader states what the token
//! starting at a position is and where the next token starts, or which error the
//! lexer reports there.
use vstd::prelude::*;
use crate::ascii::{BACKSLASH, COMMA, CR, DIGIT_0, DIGIT_1, DIGIT_7, DIGIT_9, DOT, DQUOTE, EQUAL, HASH, LBRACE, LBRACKET, LOWER_A, LOWER_B, LOWER_E, LOWER_F, LOWER_I, LOWER_L, LOWER_N, LOWER_O, LOWER_R, LOWER_S, LOWER_T, LOWER_U, LOWER_X, LOWER_Z, MINUS, NL, PLUS, RBRACE, RBRACKET, SPACE, SQUOTE, TAB, UNDERSCORE, UPPER_A, UPPER_E, UPPER_F, UPPER_U, UPPER_Z};
use crate::config_error::ConfigErrorV;
use crate::text::byte_char;
use crate::token::{FloatValueV, SpannedTokenV, TokenKindV};

verus! {

// ---------------------------------------------------------------- positions

/// Line (counted from 1) of byte offset `p`.
pub open spec fn line_at(inp: Seq<u8>, p: int) -> nat
    decreases p,
{
    if p <= 0 {
        1
    } else {
        line_at(inp, p - 1) + if inp[p - 1] == NL { 1nat } else { 0nat }
    }
}

/// Column (counted from 1) of byte offset `p`.
pub open spec fn col_at(inp: Seq<u8>, p: int) -> nat
    decreases p,
{
    if p <= 0 {
        1
    } else if inp[p - 1] == NL {
        1
    } else {
        col_at(inp, p - 1) + 1
    }
}

/// The number of line feeds among the first `p` bytes.
pub open spec fn newlines_before(inp: Seq<u8>, p: int) -> nat
    decreases p,
{
    if p <= 0 {
        0
    } else {
        newlines_before(inp, p - 1) + if inp[p - 1] == NL { 1nat } else { 0nat }
    }
}

/// Where the line holding offset `p` starts: just after the last line feed
/// before `p`, or 0.
pub open spec fn line_start(inp: Seq<u8>, p: int) -> int
    decreases p,
{
    if p <= 0 {
        0
    } else if inp[p - 1] == NL {
        p
    } else {
        line_start(inp, p - 1)
    }
}

/// The line of offset `p` is one more than the number of line feeds before it,
/// and its column is its distance from the start of its line, counted from 1.
pub proof fn lemma_line_col_meaning(inp: Seq<u8>, p: int)
    requires
        0 <= p <= inp.len(),
    ensures
        line_at(inp, p) == 1 + newlines_before(inp, p),
        col_at(inp, p) == p - line_start(inp, p) + 1,
        0 <= line_start(inp, p) <= p,
    decreases p,
{
    if p > 0 {
        lemma_line_col_meaning(inp, p - 1);
    }
}

pub proof fn lemma_line_col_bounds(inp: Seq<u8>, p: int)
    requires
        0 <= p,
    ensures
        1 <= line_at(inp, p) <= p + 1,
        1 <= col_at(inp, p) <= p + 1,
    decreases p,
{
    if p > 0 {
        lemma_line_col_bounds(inp, p - 1);
    }
}

// ---------------------------------------------------------------- byte classes

pub open spec fn digit_byte(b: u8) -> bool {
    DIGIT_0 <= b <= DIGIT_9
}

pub open spec fn alpha_byte(b: u8) -> bool {
    (LOWER_A <= b <= LOWER_Z) || (UPPER_A <= b <= UPPER_Z)
}

/// Bytes that may continue a bare word.
pub open spec fn is_word_byte(b: u8) -> bool {
    alpha_byte(b) || digit_byte(b) || b == UNDERSCORE || b == MINUS
}

/// Bytes that may not directly follow `inf` or `nan`.
pub open spec fn is_name_byte(b: u8) -> bool {
    alpha_byte(b) || digit_byte(b) || b == UNDERSCORE
}

/// Bytes that end a number.
pub open spec fn is_number_end(b: u8) -> bool {
    b == SPACE || b == TAB || b == NL || b == CR || b == COMMA || b == RBRACKET || b == RBRACE
        || b == HASH
}

pub open spec fn is_radix_digit(b: u8, radix: nat) -> bool {
    if radix == 16 {
        digit_byte(b) || (LOWER_A <= b <= LOWER_F) || (UPPER_A <= b <= UPPER_F)
    } else if radix == 8 {
        DIGIT_0 <= b <= DIGIT_7
    } else {
        DIGIT_0 <= b <= DIGIT_1
    }
}

pub open spec fn digit_value(b: u8) -> nat {
    if digit_byte(b) {
        (b - DIGIT_0) as nat
    } else if LOWER_A <= b <= LOWER_F {
        (b - LOWER_A + 10) as nat
    } else {
        (b - UPPER_A + 10) as nat
    }
}

/// The character that a one-letter escape stands for in a basic string:
/// `\"`, `\\`, `\b`, `\f`, `\n`, `\r`, `\t`.
pub open spec fn escape_char(b: u8) -> Option<char> {
    if b == DQUOTE {
        Some('"')
    } else if b == BACKSLASH {
        Some('\\')
    } else if b == LOWER_B {
        Some('\x08')
    } else if b == LOWER_F {
        Some('\x0c')
    } else if b == LOWER_N {
        Some('\n')
    } else if b == LOWER_R {
        Some('\r')
    } else if b == LOWER_T {
        Some('\t')
    } else {
        None
    }
}

/// Whether `v` is a Unicode scalar value: a code point that is not a surrogate.
pub open spec fn is_scalar(v: nat) -> bool {
    v < 0xd800 || (0xe000 <= v && v <= 0x10ffff)
}

/// The escape whose letter is at `j` (just after a backslash): the character it
/// stands for and the number of bytes it takes from `j` on. Besides the one-letter
/// escapes, `\uXXXX` and `\UXXXXXXXX` give the Unicode scalar value written by
/// four or eight hexadecimal digits.
pub open spec fn escape_at(inp: Seq<u8>, j: int) -> Option<(char, int)> {
    if j < 0 || j >= inp.len() {
        None
    } else if escape_char(inp[j]) is Some {
        Some((escape_char(inp[j])->0, 1))
    } else if inp[j] == LOWER_U || inp[j] == UPPER_U {
        let m: int = if inp[j] == LOWER_U { 4 } else { 8 };
        if j + 1 + m <= inp.len() && (forall|k: int|
            j + 1 <= k < j + 1 + m ==> is_radix_digit(#[trigger] inp[k], 16)) && is_scalar(
            digits_value(inp.subrange(j + 1, j + 1 + m), 16),
        ) {
            Some((digits_value(inp.subrange(j + 1, j + 1 + m), 16) as char, m + 1))
        } else {
            None
        }
    } else {
        None
    }
}

/// The Latin-1 reading of a byte sequence.
pub open spec fn chars_of(s: Seq<u8>) -> Seq<char> {
    s.map_values(|b: u8| byte_char(b))
}

/// `s` without its underscores.
pub open spec fn strip_underscores(s: Seq<u8>) -> Seq<u8>
    decreases s.len(),
{
    if s.len() == 0 {
        s
    } else if s.last() == UNDERSCORE {
        strip_underscores(s.drop_last())
    } else {
        strip_underscores(s.drop_last()).push(s.last())
    }
}

/// Value of a sequence of digits in the given radix.
pub open spec fn digits_value(s: Seq<u8>, radix: nat) -> nat
    decreases s.len(),
{
    if s.len() == 0 {
        0
    } else {
        digits_value(s.drop_last(), radix) * radix + digit_value(s.last())
    }
}

// ---------------------------------------------------------------- results

pub open spec fn tok(kind: TokenKindV, inp: Seq<u8>, p: int) -> SpannedTokenV {
    SpannedTokenV { kind, line: line_at(inp, p), col: col_at(inp, p) }
}

pub open spec fn unterminated(inp: Seq<u8>, start: int) -> ConfigErrorV {
    ConfigErrorV::UnterminatedString { line: line_at(inp, start), col: col_at(inp, start) }
}

pub open spec fn number_error(inp: Seq<u8>, start: int, detail: Seq<char>) -> ConfigErrorV {
    ConfigErrorV::InvalidNumber { line: line_at(inp, start), col: col_at(inp, start), detail }
}

/// Adds `prefix` in front of the text of a successful read.
pub open spec fn prepend(prefix: Seq<char>, r: Result<(Seq<char>, int), ConfigErrorV>) -> Result<
    (Seq<char>, int),
    ConfigErrorV,
> {
    match r {
        Ok((s, e)) => Ok((prefix + s, e)),
        Err(x) => Err(x),
    }
}

// ---------------------------------------------------------------- words and comments

/// End of a comment whose text starts at `i`: the next newline, or the end.
pub open spec fn comment_end(inp: Seq<u8>, i: int) -> int
    decreases inp.len() - i,
{
    if i < inp.len() && inp[i] != NL {
        comment_end(inp, i + 1)
    } else {
        i
    }
}

/// End of a bare word starting at `i`.
pub open spec fn word_end(inp: Seq<u8>, i: int) -> int
    decreases inp.len() - i,
{
    if 0 <= i < inp.len() && is_word_byte(inp[i]) {
        word_end(inp, i + 1)
    } else {
        i
    }
}

/// End of the whitespace that a line-ending backslash skips.
pub open spec fn blank_end(inp: Seq<u8>, i: int) -> int
    decreases inp.len() - i,
{
    if 0 <= i < inp.len() && (inp[i] == NL || inp[i] == TAB || inp[i] == SPACE || inp[i]
        == CR) {
        blank_end(inp, i + 1)
    } else {
        i
    }
}

pub proof fn lemma_blank_end(inp: Seq<u8>, i: int)
    requires
        0 <= i,
    ensures
        i <= blank_end(inp, i),
        blank_end(inp, i) <= inp.len() || blank_end(inp, i) == i,
    decreases inp.len() - i,
{
    if 0 <= i < inp.len() && (inp[i] == NL || inp[i] == TAB || inp[i] == SPACE || inp[i] == CR) {
        lemma_blank_end(inp, i + 1);
    }
}

/// The token of a bare word.
pub open spec fn word_kind(w: Seq<u8>) -> TokenKindV {
    if w == seq![LOWER_I, LOWER_N, LOWER_F] {
        TokenKindV::Float(FloatValueV::Infinite(false))
    } else if w == seq![LOWER_N, LOWER_A, LOWER_N] {
        TokenKindV::Float(FloatValueV::NotANumber(false))
    } else if w == seq![LOWER_T, LOWER_R, LOWER_U, LOWER_E] {
        TokenKindV::Boolean(true)
    } else if w == seq![LOWER_F, LOWER_A, LOWER_L, LOWER_S, LOWER_E] {
        TokenKindV::Boolean(false)
    } else {
        TokenKindV::Identifier(chars_of(w))
    }
}

// ---------------------------------------------------------------- strings

/// Text of a basic string from `i` to its closing quote, and the position after it.
pub open spec fn basic_body(inp: Seq<u8>, start: int, i: int) -> Result<
    (Seq<char>, int),
    ConfigErrorV,
>
    decreases inp.len() - i,
{
    if i < 0 || i >= inp.len() {
        Err(unterminated(inp, start))
    } else if inp[i] == DQUOTE {
        Ok((seq![], i + 1))
    } else if inp[i] == BACKSLASH {
        if escape_at(inp, i + 1) is Some {
            let (c, n) = escape_at(inp, i + 1)->0;
            prepend(seq![c], basic_body(inp, start, i + 1 + n))
        } else {
            Err(
                ConfigErrorV::UnexpectedCharacter {
                    line: line_at(inp, i + 1),
                    col: col_at(inp, i + 1),
                    expected: "valid escape sequence"@,
                    found: if i + 1 < inp.len() {
                        seq![byte_char(inp[i + 1])]
                    } else {
                        "end of input"@
                    },
                },
            )
        }
    } else {
        prepend(seq![byte_char(inp[i])], basic_body(inp, start, i + 1))
    }
}

/// True when three `q` bytes start at `i`.
pub open spec fn triple_at(inp: Seq<u8>, i: int, q: u8) -> bool {
    0 <= i && i + 2 < inp.len() && inp[i] == q && inp[i + 1] == q && inp[i + 2] == q
}

/// Position after a line break that starts at `q`, or `q` when none does.
pub open spec fn skip_line_break(inp: Seq<u8>, q: int) -> int {
    if 0 <= q < inp.len() && inp[q] == NL {
        q + 1
    } else if 0 <= q && q + 1 < inp.len() && inp[q] == CR && inp[q + 1] == NL {
        q + 2
    } else {
        q
    }
}

/// Where the text of a multi-line string opened at `start` begins: a line break
/// right after the opening delimiter is dropped.
pub open spec fn multiline_text_start(inp: Seq<u8>, start: int) -> int {
    skip_line_break(inp, start + 3)
}

/// Text of a multi-line basic string from `i` to its closing delimiter.
pub open spec fn multiline_basic_body(inp: Seq<u8>, start: int, i: int) -> Result<
    (Seq<char>, int),
    ConfigErrorV,
>
    decreases inp.len() - i,
{
    if i < 0 || i >= inp.len() {
        Err(unterminated(inp, start))
    } else if inp[i] == DQUOTE {
        if triple_at(inp, i, DQUOTE) {
            Ok((seq![], i + 3))
        } else {
            prepend(seq!['"'], multiline_basic_body(inp, start, i + 1))
        }
    } else if inp[i] == BACKSLASH {
        let j = i + 1;
        if j < inp.len() && (inp[j] == NL || inp[j] == CR) {
            proof {
                lemma_blank_end(inp, j);
            }
            multiline_basic_body(inp, start, blank_end(inp, j))
        } else if escape_at(inp, j) is Some {
            let (c, n) = escape_at(inp, j)->0;
            prepend(seq![c], multiline_basic_body(inp, start, j + n))
        } else {
            Err(ConfigErrorV::InvalidEscapeSequence { line: line_at(inp, j), col: col_at(inp, j) })
        }
    } else {
        prepend(seq![byte_char(inp[i])], multiline_basic_body(inp, start, i + 1))
    }
}

/// Text of a literal string from `i` to its closing quote.
pub open spec fn literal_body(inp: Seq<u8>, start: int, i: int) -> Result<
    (Seq<char>, int),
    ConfigErrorV,
>
    decreases inp.len() - i,
{
    if i < 0 || i >= inp.len() || inp[i] == NL {
        Err(unterminated(inp, start))
    } else if inp[i] == SQUOTE {
        Ok((seq![], i + 1))
    } else {
        prepend(seq![byte_char(inp[i])], literal_body(inp, start, i + 1))
    }
}

/// Text of a multi-line literal string from `i` to its closing delimiter.
pub open spec fn multiline_literal_body(inp: Seq<u8>, start: int, i: int) -> Result<
    (Seq<char>, int),
    ConfigErrorV,
>
    decreases inp.len() - i,
{
    if i < 0 || i >= inp.len() {
        Err(unterminated(inp, start))
    } else if triple_at(inp, i, SQUOTE) {
        Ok((seq![], i + 3))
    } else {
        prepend(seq![byte_char(inp[i])], multiline_literal_body(inp, start, i + 1))
    }
}

/// The string token that starts at `start` (a quote), and the position after it.
pub open spec fn string_token(inp: Seq<u8>, start: int) -> Result<(SpannedTokenV, int), ConfigErrorV> {
    let body = if inp[start] == DQUOTE {
        if triple_at(inp, start, DQUOTE) {
            multiline_basic_body(inp, start, multiline_text_start(inp, start))
        } else {
            basic_body(inp, start, start + 1)
        }
    } else {
        if triple_at(inp, start, SQUOTE) {
            multiline_literal_body(inp, start, multiline_text_start(inp, start))
        } else {
            literal_body(inp, start, start + 1)
        }
    };
    match body {
        Ok((s, e)) => Ok((tok(TokenKindV::StringLit(s), inp, start), e)),
        Err(x) => Err(x),
    }
}

// ---------------------------------------------------------------- numbers

pub open spec fn radix_name(radix: nat) -> Seq<char> {
    if radix == 16 {
        "hexadecimal"@
    } else if radix == 8 {
        "octal"@
    } else {
        "binary"@
    }
}

pub open spec fn underscore_detail() -> Seq<char> {
    "underscore should have numbers on both ends"@
}

/// The radix that the byte after a leading `0` selects.
pub open spec fn radix_of(b: u8) -> nat {
    if b == LOWER_X {
        16
    } else if b == LOWER_O {
        8
    } else {
        2
    }
}

/// True when the number at `start` is written with a radix prefix (`0x`, `0o`, `0b`).
pub open spec fn has_radix_prefix(inp: Seq<u8>, start: int) -> bool {
    0 <= start && start + 1 < inp.len() && inp[start] == DIGIT_0 && (inp[start + 1] == LOWER_X
        || inp[start + 1] == LOWER_O || inp[start + 1] == LOWER_B)
}

/// End of the digits of a prefixed integer, read from `i`.
pub open spec fn radix_scan(inp: Seq<u8>, start: int, i: int, radix: nat) -> Result<
    int,
    ConfigErrorV,
>
    decreases inp.len() - i,
{
    if i < 0 || i >= inp.len() {
        Ok(i)
    } else if is_radix_digit(inp[i], radix) {
        radix_scan(inp, start, i + 1, radix)
    } else if inp[i] == UNDERSCORE {
        if i + 1 < inp.len() && is_radix_digit(inp[i + 1], radix) {
            radix_scan(inp, start, i + 1, radix)
        } else {
            Err(number_error(inp, start, underscore_detail()))
        }
    } else if is_number_end(inp[i]) {
        Ok(i)
    } else {
        Err(
            number_error(
                inp,
                start,
                "invalid character '"@ + seq![byte_char(inp[i])] + "' in "@ + radix_name(radix)
                    + " number"@,
            ),
        )
    }
}

/// The integer written with a radix prefix at `start`.
pub open spec fn prefixed_number(inp: Seq<u8>, start: int) -> Result<
    (SpannedTokenV, int),
    ConfigErrorV,
> {
    let radix = radix_of(inp[start + 1]);
    match radix_scan(inp, start, start + 2, radix) {
        Err(e) => Err(e),
        Ok(end) => {
            let digits = strip_underscores(inp.subrange(start + 2, end));
            if digits.len() > 0 && digits_value(digits, radix) <= i64::MAX {
                Ok((tok(TokenKindV::Integer(digits_value(digits, radix) as i64), inp, start), end))
            } else {
                Err(number_error(inp, start, "invalid "@ + radix_name(radix) + " number"@))
            }
        },
    }
}

/// Length of the sign that opens the number at `start`.
pub open spec fn sign_len(inp: Seq<u8>, start: int) -> int {
    if inp[start] == MINUS || inp[start] == PLUS {
        1
    } else {
        0
    }
}

pub open spec fn sign_text(inp: Seq<u8>, start: int) -> Seq<char> {
    if inp[start] == MINUS {
        seq!['-']
    } else if inp[start] == PLUS {
        seq!['+']
    } else {
        seq![]
    }
}

/// `inf` or `nan` after the sign of the number at `start`; `i` holds `i` or `n`.
pub open spec fn special_number(inp: Seq<u8>, start: int, i: int) -> Result<
    (SpannedTokenV, int),
    ConfigErrorV,
> {
    let negative = inp[start] == MINUS;
    let is_inf = inp[i] == LOWER_I;
    let second = if is_inf { LOWER_N } else { LOWER_A };
    let third = if is_inf { LOWER_F } else { LOWER_N };
    if i + 2 < inp.len() && inp[i + 1] == second && inp[i + 2] == third {
        let k = i + 3;
        if k < inp.len() && is_name_byte(inp[k]) {
            Err(
                number_error(
                    inp,
                    start,
                    "invalid character '"@ + seq![byte_char(inp[k])] + if is_inf {
                        "' after inf"@
                    } else {
                        "' after nan"@
                    },
                ),
            )
        } else {
            let value = if is_inf {
                FloatValueV::Infinite(negative)
            } else {
                FloatValueV::NotANumber(negative)
            };
            Ok((tok(TokenKindV::Float(value), inp, start), k))
        }
    } else {
        Err(number_error(inp, start, "only nan and inf special characters are allowed"@))
    }
}

/// End of a decimal number read from `i`, and whether it holds a fraction and an exponent.
pub open spec fn decimal_scan(
    inp: Seq<u8>,
    start: int,
    i: int,
    has_dot: bool,
    has_exp: bool,
) -> Result<(int, bool, bool), ConfigErrorV>
    decreases inp.len() - i,
{
    if i < 0 || i >= inp.len() {
        Ok((i, has_dot, has_exp))
    } else {
        let c = inp[i];
        if digit_byte(c) {
            decimal_scan(inp, start, i + 1, has_dot, has_exp)
        } else if c == UNDERSCORE {
            if i + 1 < inp.len() && digit_byte(inp[i + 1]) {
                decimal_scan(inp, start, i + 1, has_dot, has_exp)
            } else {
                Err(number_error(inp, start, underscore_detail()))
            }
        } else if c == DOT {
            if has_exp {
                Err(number_error(inp, start, "fractional part cannot follow an exponent"@))
            } else if has_dot {
                Err(number_error(inp, start, "multiple decimal points"@))
            } else if i + 1 < inp.len() && digit_byte(inp[i + 1]) {
                decimal_scan(inp, start, i + 1, true, has_exp)
            } else {
                Err(number_error(inp, start, "fractional part must start with a digit"@))
            }
        } else if c == LOWER_E || c == UPPER_E {
            if has_exp {
                Err(number_error(inp, start, "multiple exponents"@))
            } else {
                let j = if i + 1 < inp.len() && (inp[i + 1] == PLUS || inp[i + 1] == MINUS) {
                    i + 2
                } else {
                    i + 1
                };
                if j < inp.len() && digit_byte(inp[j]) {
                    decimal_scan(inp, start, j + 1, has_dot, true)
                } else {
                    Err(number_error(inp, start, "exponent part must start with a digit"@))
                }
            }
        } else if is_number_end(c) {
            Ok((i, has_dot, has_exp))
        } else {
            Err(
                number_error(
                    inp,
                    start,
                    "invalid character '"@ + seq![byte_char(c)] + "' in number"@,
                ),
            )
        }
    }
}

/// The literal text of the decimal number at `start` whose digits end at `end`.
pub open spec fn decimal_text(inp: Seq<u8>, start: int, end: int) -> Seq<char> {
    sign_text(inp, start) + chars_of(
        strip_underscores(inp.subrange(start + sign_len(inp, start), end)),
    )
}

/// The value of a decimal number once its extent is known.
///
/// A float literal is accepted when its mantissa holds a digit, which is what Rust's
/// `f64` grammar asks of such text; an integer when it has digits and fits in `i64`.
pub open spec fn decimal_value(inp: Seq<u8>, start: int, end: int, is_float: bool) -> Result<
    (SpannedTokenV, int),
    ConfigErrorV,
> {
    let body = strip_underscores(inp.subrange(start + sign_len(inp, start), end));
    let text = decimal_text(inp, start, end);
    if is_float {
        if body.len() > 0 && digit_byte(body[0]) {
            Ok((tok(TokenKindV::Float(FloatValueV::Finite(text)), inp, start), end))
        } else {
            Err(number_error(inp, start, "cannot parse '"@ + text + "' as float"@))
        }
    } else {
        let negative = inp[start] == MINUS;
        let magnitude = digits_value(body, 10);
        if body.len() > 0 && (if negative {
            magnitude <= 0x8000_0000_0000_0000
        } else {
            magnitude <= i64::MAX
        }) {
            let value: int = if negative {
                -magnitude
            } else {
                magnitude as int
            };
            Ok((tok(TokenKindV::Integer(value as i64), inp, start), end))
        } else {
            Err(number_error(inp, start, "cannot parse '"@ + text + "' as integer"@))
        }
    }
}

/// The decimal number (or signed `inf`/`nan`) at `start`.
pub open spec fn decimal_number(inp: Seq<u8>, start: int) -> Result<
    (SpannedTokenV, int),
    ConfigErrorV,
> {
    let i0 = start + sign_len(inp, start);
    if i0 < inp.len() && (inp[i0] == LOWER_I || inp[i0] == LOWER_N) {
        special_number(inp, start, i0)
    } else if i0 < inp.len() && inp[i0] == UNDERSCORE {
        Err(number_error(inp, start, underscore_detail()))
    } else if i0 < inp.len() && inp[i0] == DOT {
        Err(number_error(inp, start, "number cannot start with dot"@))
    } else {
        let first = if i0 < inp.len() && digit_byte(inp[i0]) {
            i0 + 1
        } else {
            i0
        };
        match decimal_scan(inp, start, first, false, false) {
            Err(e) => Err(e),
            Ok((end, has_dot, has_exp)) => decimal_value(inp, start, end, has_dot || has_exp),
        }
    }
}

/// The number token at `start` (a digit or a sign).
pub open spec fn number_token(inp: Seq<u8>, start: int) -> Result<(SpannedTokenV, int), ConfigErrorV> {
    if has_radix_prefix(inp, start) {
        prefixed_number(inp, start)
    } else {
        decimal_number(inp, start)
    }
}

proof fn lemma_radix_scan_end(inp: Seq<u8>, start: int, i: int, radix: nat)
    requires
        0 <= i <= inp.len(),
    ensures
        radix_scan(inp, start, i, radix) matches Ok(e) ==> i <= e <= inp.len() && (e == inp.len()
            || is_number_end(inp[e])),
    decreases inp.len() - i,
{
    if 0 <= i < inp.len() && (is_radix_digit(inp[i], radix) || inp[i] == UNDERSCORE) {
        lemma_radix_scan_end(inp, start, i + 1, radix);
    }
}

proof fn lemma_decimal_scan_end(inp: Seq<u8>, start: int, i: int, has_dot: bool, has_exp: bool)
    requires
        0 <= i <= inp.len(),
    ensures
        decimal_scan(inp, start, i, has_dot, has_exp) matches Ok((e, _, _)) ==> i <= e <= inp.len()
            && (e == inp.len() || is_number_end(inp[e])),
    decreases inp.len() - i,
{
    if 0 <= i < inp.len() {
        let c = inp[i];
        if digit_byte(c) || c == UNDERSCORE {
            lemma_decimal_scan_end(inp, start, i + 1, has_dot, has_exp);
        } else if c == DOT {
            lemma_decimal_scan_end(inp, start, i + 1, true, has_exp);
        } else if c == LOWER_E || c == UPPER_E {
            let j = if i + 1 < inp.len() && (inp[i + 1] == PLUS || inp[i + 1] == MINUS) {
                i + 2
            } else {
                i + 1
            };
            if j < inp.len() && digit_byte(inp[j]) {
                lemma_decimal_scan_end(inp, start, j + 1, has_dot, true);
            }
        }
    }
}

/// A number never runs into a word: where a number token ends, the input ends or
/// the next byte is not a letter, a digit or an underscore.
pub proof fn lemma_number_boundary(inp: Seq<u8>, start: int)
    requires
        0 <= start < inp.len(),
        digit_byte(inp[start]) || inp[start] == MINUS || inp[start] == PLUS,
    ensures
        number_token(inp, start) matches Ok((_, e)) ==> start < e <= inp.len() && (e == inp.len()
            || !is_name_byte(inp[e])),
{
    if has_radix_prefix(inp, start) {
        lemma_radix_scan_end(inp, start, start + 2, radix_of(inp[start + 1]));
    } else {
        let i0 = start + sign_len(inp, start);
        if !(i0 < inp.len() && (inp[i0] == LOWER_I || inp[i0] == LOWER_N || inp[i0] == UNDERSCORE
            || inp[i0] == DOT)) {
            let first = if i0 < inp.len() && digit_byte(inp[i0]) {
                i0 + 1
            } else {
                i0
            };
            lemma_decimal_scan_end(inp, start, first, false, false);
        }
    }
}

// ---------------------------------------------------------------- the token stream

/// The token of a one-byte punctuation mark.
pub open spec fn punct_kind(b: u8) -> Option<TokenKindV> {
    if b == EQUAL {
        Some(TokenKindV::Equal)
    } else if b == COMMA {
        Some(TokenKindV::Comma)
    } else if b == LBRACKET {
        Some(TokenKindV::LBracket)
    } else if b == RBRACKET {
        Some(TokenKindV::RBracket)
    } else if b == LBRACE {
        Some(TokenKindV::LBrace)
    } else if b == RBRACE {
        Some(TokenKindV::RBrace)
    } else if b == DOT {
        Some(TokenKindV::Dot)
    } else {
        None
    }
}

pub open spec fn some_token(r: Result<(SpannedTokenV, int), ConfigErrorV>) -> Result<
    (Option<SpannedTokenV>, int),
    ConfigErrorV,
> {
    match r {
        Ok((t, e)) => Ok((Some(t), e)),
        Err(x) => Err(x),
    }
}

/// What the lexer does at byte offset `p`: the token it emits there (whitespace
/// emits none) and where it goes on, or the error it reports.
pub open spec fn step(inp: Seq<u8>, p: int) -> Result<(Option<SpannedTokenV>, int), ConfigErrorV> {
    let c = inp[p];
    if c == SPACE || c == TAB || c == CR {
        Ok((None, p + 1))
    } else if c == NL {
        Ok((Some(tok(TokenKindV::NewLine, inp, p + 1)), p + 1))
    } else if c == HASH {
        let e = comment_end(inp, p + 1);
        Ok((Some(tok(TokenKindV::Comment(chars_of(inp.subrange(p + 1, e))), inp, e)), e))
    } else if punct_kind(c) is Some {
        Ok((Some(tok(punct_kind(c)->0, inp, p)), p + 1))
    } else if c == DQUOTE || c == SQUOTE {
        some_token(string_token(inp, p))
    } else if digit_byte(c) || c == MINUS || c == PLUS {
        some_token(number_token(inp, p))
    } else if alpha_byte(c) || c == UNDERSCORE {
        let e = word_end(inp, p);
        Ok((Some(tok(word_kind(inp.subrange(p, e)), inp, p)), e))
    } else {
        Err(
            ConfigErrorV::UnexpectedCharacter {
                line: line_at(inp, p),
                col: col_at(inp, p),
                expected: "valid TOML syntax"@,
                found: seq![byte_char(c)],
            },
        )
    }
}

pub open spec fn opt_seq(t: Option<SpannedTokenV>) -> Seq<SpannedTokenV> {
    match t {
        Some(x) => seq![x],
        None => seq![],
    }
}

/// The tokens of the input from byte offset `p` on, or the first error met.
pub open spec fn lex(inp: Seq<u8>, p: int) -> Result<Seq<SpannedTokenV>, ConfigErrorV>
    decreases inp.len() - p,
{
    if p < 0 || p >= inp.len() {
        Ok(seq![])
    } else {
        match step(inp, p) {
            Err(e) => Err(e),
            Ok((t, q)) => if p < q <= inp.len() {
                match lex(inp, q) {
                    Ok(rest) => Ok(opt_seq(t) + rest),
                    Err(e) => Err(e),
                }
            } else {
                Ok(seq![])
            },
        }
    }
}

// ---------------------------------------------------------------- order of tokens

/// Whether position `(line, col)` comes at or before the position of `t`.
pub open spec fn at_or_before(line: nat, col: nat, t: SpannedTokenV) -> bool {
    line < t.line || (line == t.line && col <= t.col)
}

proof fn lemma_line_col_monotone(inp: Seq<u8>, a: int, b: int)
    requires
        0 <= a <= b <= inp.len(),
    ensures
        line_at(inp, a) < line_at(inp, b) || (line_at(inp, a) == line_at(inp, b) && col_at(inp, a)
            <= col_at(inp, b)),
    decreases b - a,
{
    if a < b {
        lemma_line_col_monotone(inp, a, b - 1);
    }
}

/// The byte offset whose line and column a token emitted at `p` carries: `p`
/// itself, or the offset where the lexer goes on.
proof fn lemma_step_token(inp: Seq<u8>, p: int) -> (o: int)
    requires
        0 <= p < inp.len(),
    ensures
        step(inp, p) matches Ok((Some(t), q)) ==> (o == p || o == q) && t.line == line_at(inp, o)
            && t.col == col_at(inp, o),
{
    let c = inp[p];
    if c == NL {
        p + 1
    } else if c == HASH {
        comment_end(inp, p + 1)
    } else {
        p
    }
}

/// The lexer gives its tokens in the order of the document: no token's line and
/// column come before those of the token ahead of it, or before the position
/// where lexing began.
pub proof fn lemma_tokens_in_order(inp: Seq<u8>, p: int)
    requires
        0 <= p <= inp.len(),
    ensures
        lex(inp, p) matches Ok(ts) ==> (forall|k: int|
            0 <= k < ts.len() ==> #[trigger] at_or_before(line_at(inp, p), col_at(inp, p), ts[k]))
            && (forall|k: int|
            0 <= k < ts.len() - 1 ==> #[trigger] at_or_before(ts[k].line, ts[k].col, ts[k + 1])),
    decreases inp.len() - p,
{
    if p < inp.len() {
        match step(inp, p) {
            Ok((t, q)) => {
                if p < q <= inp.len() {
                    lemma_tokens_in_order(inp, q);
                    let o = lemma_step_token(inp, p);
                    lemma_line_col_monotone(inp, p, q);
                    match t {
                        Some(tk) => {
                            lemma_line_col_monotone(inp, p, o);
                            lemma_line_col_monotone(inp, o, q);
                        },
                        None => {},
                    }
                    match lex(inp, q) {
                        Ok(rest) => {
                            let ts = opt_seq(t) + rest;
                            assert forall|k: int| 0 <= k < ts.len() implies #[trigger] at_or_before(
                                line_at(inp, p),
                                col_at(inp, p),
                                ts[k],
                            ) by {
                                if t is Some && k == 0 {
                                } else {
                                    let r = if t is Some { k - 1 } else { k };
                                    assert(ts[k] == rest[r]);
                                    assert(at_or_before(line_at(inp, q), col_at(inp, q), rest[r]));
                                }
                            }
                            assert forall|k: int| 0 <= k < ts.len() - 1 implies #[trigger] at_or_before(
                                ts[k].line,
                                ts[k].col,
                                ts[k + 1],
                            ) by {
                                if t is Some && k == 0 {
                                    assert(ts[1] == rest[0]);
                                    assert(at_or_before(line_at(inp, q), col_at(inp, q), rest[0]));
                                } else {
                                    let r = if t is Some { k - 1 } else { k };
                                    assert(ts[k] == rest[r]);
                                    assert(ts[k + 1] == rest[r + 1]);
                                    assert(at_or_before(rest[r].line, rest[r].col, rest[r + 1]));
                                }
                            }
                        },
                        Err(_) => {},
                    }
                }
            },
            Err(_) => {},
        }
    }
}

// ---------------------------------------------------------------- facts used by the lexer

pub proof fn lemma_prepend_push(a: Seq<char>, x: char, r: Result<(Seq<char>, int), ConfigErrorV>)
    ensures
        prepend(a, prepend(seq![x], r)) == prepend(a.push(x), r),
{
    if let Ok((s, e)) = r {
        assert(a + (seq![x] + s) =~= a.push(x) + s);
    }
}

pub proof fn lemma_prepend_empty(r: Result<(Seq<char>, int), ConfigErrorV>)
    ensures
        prepend(seq![], r) == r,
{
    if let Ok((s, e)) = r {
        assert(Seq::<char>::empty() + s =~= s);
    }
}

pub proof fn lemma_strip_step(s: Seq<u8>, a: int, b: int)
    requires
        0 <= a <= b < s.len(),
    ensures
        strip_underscores(s.subrange(a, b + 1)) == if s[b] == UNDERSCORE {
            strip_underscores(s.subrange(a, b))
        } else {
            strip_underscores(s.subrange(a, b)).push(s[b])
        },
{
    let t = s.subrange(a, b + 1);
    assert(t.drop_last() =~= s.subrange(a, b));
    assert(t.last() == s[b]);
}

pub proof fn lemma_strip_empty(s: Seq<u8>, a: int)
    requires
        0 <= a <= s.len(),
    ensures
        strip_underscores(s.subrange(a, a)) == Seq::<u8>::empty(),
{
    assert(s.subrange(a, a) =~= Seq::<u8>::empty());
}

pub proof fn lemma_chars_push(s: Seq<u8>, b: u8)
    ensures
        chars_of(s.push(b)) == chars_of(s).push(byte_char(b)),
{
    assert(chars_of(s.push(b)) =~= chars_of(s).push(byte_char(b)));
}

pub proof fn lemma_chars_sub_step(s: Seq<u8>, a: int, b: int)
    requires
        0 <= a <= b < s.len(),
    ensures
        chars_of(s.subrange(a, b + 1)) == chars_of(s.subrange(a, b)).push(byte_char(s[b])),
{
    assert(chars_of(s.subrange(a, b + 1)) =~= chars_of(s.subrange(a, b)).push(byte_char(s[b])));
}

/// The value of a prefix of digits never exceeds the value of the whole.
pub proof fn lemma_digits_value_prefix(s: Seq<u8>, k: int, radix: nat)
    requires
        0 <= k <= s.len(),
        radix >= 1,
    ensures
        digits_value(s.take(k), radix) <= digits_value(s, radix),
    decreases s.len(),
{
    if k < s.len() {
        assert(s.drop_last().take(k) =~= s.take(k));
        lemma_digits_value_prefix(s.drop_last(), k, radix);
        let v = digits_value(s.drop_last(), radix);
        assert(v * radix >= v) by (nonlinear_arith)
            requires
                radix >= 1,
        ;
    } else {
        assert(s.take(k) =~= s);
    }
}

pub proof fn lemma_digits_value_take_step(s: Seq<u8>, i: int, radix: nat)
    requires
        0 <= i < s.len(),
    ensures
        digits_value(s.take(i + 1), radix) == digits_value(s.take(i), radix) * radix + digit_value(
            s[i],
        ),
{
    assert(s.take(i + 1).drop_last() =~= s.take(i));
}

} // verus!
