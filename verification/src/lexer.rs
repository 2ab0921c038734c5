//! The lexer: turns the bytes of a document into tokens.
use vstd::prelude::*;
use vstd::string::StringSliceAdditionalSpecFns;
use crate::ascii::{BACKSLASH, COMMA, CR, DIGIT_0, DIGIT_1, DIGIT_7, DIGIT_9, DOT, DQUOTE, EQUAL, HASH, LBRACE, LBRACKET, LOWER_A, LOWER_B, LOWER_E, LOWER_F, LOWER_I, LOWER_L, LOWER_N, LOWER_O, LOWER_R, LOWER_S, LOWER_T, LOWER_U, LOWER_X, LOWER_Z, MINUS, NL, PLUS, RBRACE, RBRACKET, SPACE, SQUOTE, TAB, UNDERSCORE, UPPER_A, UPPER_E, UPPER_F, UPPER_U, UPPER_Z};
use crate::config_error::{ConfigError, ConfigErrorV};
use crate::lex_spec::{escape_at, alpha_byte, basic_body, blank_end, chars_of, col_at, comment_end, decimal_number, decimal_scan, digit_byte, digit_value, digits_value, escape_char, has_radix_prefix, is_name_byte, is_number_end, is_radix_digit, is_word_byte, lemma_chars_push, lemma_chars_sub_step, lemma_digits_value_prefix, lemma_digits_value_take_step, lemma_line_col_bounds, lemma_prepend_empty, lemma_prepend_push, lemma_strip_empty, lemma_strip_step, lex, line_at, literal_body, multiline_basic_body, multiline_literal_body, multiline_text_start, number_token, opt_seq, prefixed_number, prepend, radix_name, radix_of, radix_scan, sign_len, sign_text, skip_line_break, special_number, step, strip_underscores, tok, triple_at, underscore_detail, word_end, word_kind};
use crate::text::{byte_char, lemma_char_of_code};
use crate::token::{FloatValue, SpannedToken, SpannedTokenV, TokenKind, TokenKindV, tokens_view};

verus! {

#[derive(Debug)]
pub struct Lexer {
    input: Vec<u8>,
    pos: usize,
    line: usize,
    col: usize,
}

/// True when `r` is what `s` says the reader returns, with the lexer left at `end`.
pub open spec fn reads(
    r: Result<SpannedToken, ConfigError>,
    end: int,
    s: Result<(SpannedTokenV, int), ConfigErrorV>,
) -> bool {
    match r {
        Ok(t) => s == Ok::<(SpannedTokenV, int), ConfigErrorV>((t@, end)),
        Err(e) => s == Err::<(SpannedTokenV, int), ConfigErrorV>(e@),
    }
}

/// The string token whose text `body` reads, opened at `start`.
pub open spec fn string_result(
    inp: Seq<u8>,
    start: int,
    body: Result<(Seq<char>, int), ConfigErrorV>,
) -> Result<(SpannedTokenV, int), ConfigErrorV> {
    match body {
        Ok((s, e)) => Ok((tok(TokenKindV::StringLit(s), inp, start), e)),
        Err(x) => Err(x),
    }
}

impl Lexer {
    /// The lexer's state is consistent: the line and column are those of its position.
    pub closed spec fn wf(&self) -> bool {
        &&& self.input.len() < usize::MAX
        &&& self.pos <= self.input.len()
        &&& self.line == line_at(self.input@, self.pos as int)
        &&& self.col == col_at(self.input@, self.pos as int)
    }

    /// The bytes being read.
    pub closed spec fn bytes(&self) -> Seq<u8> {
        self.input@
    }

    /// The byte offset of the next byte to read.
    pub closed spec fn position(&self) -> int {
        self.pos as int
    }

    /// A lexer at the first byte of `input`.
    pub fn new(input: &str) -> (r: Self)
        requires
            input.spec_bytes().len() < usize::MAX,
        ensures
            r.wf(),
            r.bytes() == input.spec_bytes(),
            r.position() == 0,
    {
        let bytes = vstd::slice::slice_to_vec(input.as_bytes());
        Self { input: bytes, pos: 0, line: 1, col: 1 }
    }

    /// The line (counted from 1) that the lexer stands on.
    pub closed spec fn line_no(&self) -> int {
        self.line as int
    }

    /// The column (counted from 1) that the lexer stands on.
    pub closed spec fn col_no(&self) -> int {
        self.col as int
    }

    /// What a consistent lexer is: its position lies within the bytes, and its line
    /// and column are those of that position.
    pub proof fn lemma_wf_meaning(&self)
        requires
            self.wf(),
        ensures
            0 <= self.position() <= self.bytes().len(),
            self.line_no() == line_at(self.bytes(), self.position()),
            self.col_no() == col_at(self.bytes(), self.position()),
    {
    }

    /// The line (counted from 1) that the lexer stands on.
    pub fn line(&self) -> (r: usize)
        ensures
            r == self.line_no(),
    {
        self.line
    }

    /// The column (counted from 1) that the lexer stands on.
    pub fn col(&self) -> (r: usize)
        ensures
            r == self.col_no(),
    {
        self.col
    }

    /// The byte at the current position, if any.
    pub fn current(&self) -> (r: Option<u8>)
        requires
            self.wf(),
        ensures
            r == if self.position() < self.bytes().len() {
                Some(self.bytes()[self.position()])
            } else {
                None::<u8>
            },
    {
        if self.pos < self.input.len() {
            Some(self.input[self.pos])
        } else {
            None
        }
    }

    /// Moves one byte on, keeping the line and column those of the new position;
    /// at the end of the input nothing changes.
    pub fn advance(&mut self)
        requires
            old(self).wf(),
        ensures
            final(self).wf(),
            final(self).bytes() == old(self).bytes(),
            final(self).position() == if old(self).position() < old(self).bytes().len() {
                old(self).position() + 1
            } else {
                old(self).position()
            },
            final(self).line_no() == line_at(final(self).bytes(), final(self).position()),
            final(self).col_no() == col_at(final(self).bytes(), final(self).position()),
    {
        if self.pos < self.input.len() {
            proof {
                lemma_line_col_bounds(self.input@, self.pos as int);
            }
            if self.input[self.pos] == NL {
                self.line = self.line + 1;
                self.col = 1;
            } else {
                self.col = self.col + 1;
            }
            self.pos = self.pos + 1;
        }
    }

    /// The byte after the current one, if any.
    pub fn peek(&self) -> (r: Option<u8>)
        requires
            self.wf(),
        ensures
            r == if self.position() + 1 < self.bytes().len() {
                Some(self.bytes()[self.position() + 1])
            } else {
                None::<u8>
            },
    {
        if 1 < self.input.len() - self.pos {
            Some(self.input[self.pos + 1])
        } else {
            None
        }
    }

    /// The byte `n` places after the current one, if any.
    pub fn peek_n(&self, n: usize) -> (r: Option<u8>)
        requires
            self.wf(),
        ensures
            r == if self.position() + n < self.bytes().len() {
                Some(self.bytes()[self.position() + n])
            } else {
                None::<u8>
            },
    {
        if n < self.input.len() - self.pos {
            Some(self.input[self.pos + n])
        } else {
            None
        }
    }

    /// Moves `n` bytes on.
    fn advance_by(&mut self, n: usize)
        requires
            old(self).wf(),
            old(self).pos + n <= old(self).input.len(),
        ensures
            final(self).wf(),
            final(self).input@ == old(self).input@,
            final(self).pos == old(self).pos + n,
    {
        let mut k: usize = 0;
        while k < n
            invariant
                self.wf(),
                self.input@ == old(self).input@,
                k <= n,
                self.pos == old(self).pos + k,
                old(self).pos + n <= self.input.len(),
            decreases n - k,
        {
            self.advance();
            k = k + 1;
        }
    }

    /// The escape whose letter is at the current position, as [`escape_at`] reads it.
    fn escape_here(&self) -> (r: Option<(char, usize)>)
        requires
            self.wf(),
        ensures
            match escape_at(self.input@, self.pos as int) {
                Some((c, n)) => r == Some((c, n as usize)),
                None => r is None,
            },
    {
        let ghost inp = self.input@;
        let ghost j = self.pos as int;
        if self.pos >= self.input.len() {
            return None;
        }
        let b = self.input[self.pos];
        match escape_of(b) {
            Some(c) => {
                return Some((c, 1));
            },
            None => {},
        }
        if b != LOWER_U && b != UPPER_U {
            return None;
        }
        let m: usize = if b == LOWER_U {
            4
        } else {
            8
        };
        if m >= self.input.len() - self.pos {
            return None;
        }
        let mut digits: Vec<u8> = Vec::new();
        let mut k: usize = 0;
        while k < m
            invariant
                inp == self.input@,
                j == self.pos,
                j + 1 + m <= inp.len(),
                self.pos + 1 + m <= self.input.len(),
                m == 4 || m == 8,
                m == 4 <==> inp[j] == LOWER_U,
                inp[j] == LOWER_U || inp[j] == UPPER_U,
                k <= m,
                digits@ == inp.subrange(j + 1, j + 1 + k),
                forall|q: int| j + 1 <= q < j + 1 + k ==> is_radix_digit(#[trigger] inp[q], 16),
            decreases m - k,
        {
            let d = self.input[self.pos + 1 + k];
            if !is_radix_digit_exec(d, 16) {
                return None;
            }
            proof {
                assert(inp.subrange(j + 1, j + 2 + k) =~= inp.subrange(j + 1, j + 1 + k).push(d));
            }
            digits.push(d);
            k = k + 1;
        }
        proof {
            assert forall|q: int| 0 <= q < digits.len() implies is_radix_digit(#[trigger] digits@[q], 16)
                && digit_value(digits@[q]) < 16 by {
                assert(digits@[q] == inp[j + 1 + q]);
            }
        }
        let v = match digits_to_i64(&digits, 16) {
            Some(v) => v,
            None => {
                return None;
            },
        };
        let ghost val = digits_value(inp.subrange(j + 1, j + 1 + m), 16);
        proof {
            assert(digits@ == inp.subrange(j + 1, j + 1 + m));
            assert(v == val);
        }
        if v > 0x10ffff {
            return None;
        }
        match core::char::from_u32(v as u32) {
            Some(c) => {
                proof {
                    lemma_char_of_code(c, val);
                }
                Some((c, m + 1))
            },
            None => None,
        }
    }

    fn read_comment(&mut self) -> (r: SpannedToken)
        requires
            old(self).wf(),
            old(self).pos < old(self).input.len(),
            old(self).input@[old(self).pos as int] == HASH,
        ensures
            final(self).wf(),
            final(self).input@ == old(self).input@,
            final(self).pos == comment_end(old(self).input@, old(self).pos + 1),
            r@ == tok(
                TokenKindV::Comment(
                    chars_of(old(self).input@.subrange(old(self).pos + 1, final(self).pos as int)),
                ),
                old(self).input@,
                final(self).pos as int,
            ),
            final(self).pos > old(self).pos,
    {
        let ghost inp = self.input@;
        self.advance();
        let ghost first = self.pos as int;
        let mut result = String::new();
        proof {
            assert(inp.subrange(first, first) =~= Seq::<u8>::empty());
        }
        loop
            invariant
                self.wf(),
                self.input@ == inp,
                0 <= first <= self.pos <= inp.len(),
                comment_end(inp, first) == comment_end(inp, self.pos as int),
                result@ == chars_of(inp.subrange(first, self.pos as int)),
            ensures
                self.pos >= inp.len() || inp[self.pos as int] == NL,
            decreases inp.len() - self.pos,
        {
            let cur = self.current();
            if cur.is_none() {
                break;
            }
            let c = cur.unwrap();
            if c == NL {
                break;
            }
            proof {
                lemma_chars_sub_step(inp, first, self.pos as int);
            }
            result.push(c as char);
            self.advance();
        }
        SpannedToken { kind: TokenKind::Comment(result), line: self.line, col: self.col }
    }

    /// What starts at the current position: a token, nothing (for whitespace), or an error.
    fn next_token(&mut self) -> (r: Result<Option<SpannedToken>, ConfigError>)
        requires
            old(self).wf(),
            old(self).pos < old(self).input.len(),
        ensures
            final(self).wf(),
            final(self).input@ == old(self).input@,
            match r {
                Ok(t) => step(old(self).input@, old(self).pos as int) == Ok::<
                    (Option<SpannedTokenV>, int),
                    ConfigErrorV,
                >((opt_view(t), final(self).pos as int)) && final(self).pos > old(self).pos,
                Err(e) => step(old(self).input@, old(self).pos as int) == Err::<
                    (Option<SpannedTokenV>, int),
                    ConfigErrorV,
                >(e@),
            },
            final(self).pos >= old(self).pos,
    {
        let c = self.input[self.pos];
        if c == SPACE || c == TAB || c == CR {
            self.advance();
            Ok(None)
        } else if c == NL {
            self.advance();
            Ok(Some(SpannedToken { kind: TokenKind::NewLine, line: self.line, col: self.col }))
        } else if c == HASH {
            Ok(Some(self.read_comment()))
        } else if c == EQUAL || c == COMMA || c == LBRACKET || c == RBRACKET || c == LBRACE || c
            == RBRACE || c == DOT {
            let kind = if c == EQUAL {
                TokenKind::Equal
            } else if c == COMMA {
                TokenKind::Comma
            } else if c == LBRACKET {
                TokenKind::LBracket
            } else if c == RBRACKET {
                TokenKind::RBracket
            } else if c == LBRACE {
                TokenKind::LBrace
            } else if c == RBRACE {
                TokenKind::RBrace
            } else {
                TokenKind::Dot
            };
            let t = SpannedToken { kind, line: self.line, col: self.col };
            self.advance();
            Ok(Some(t))
        } else if c == DQUOTE || c == SQUOTE {
            let r = if self.peek() == Some(c) && self.peek_n(2) == Some(c) {
                if c == DQUOTE {
                    self.read_multiline_string()
                } else {
                    self.read_multiline_literal()
                }
            } else {
                if c == DQUOTE {
                    self.read_string()
                } else {
                    self.read_literal()
                }
            };
            match r {
                Ok(t) => Ok(Some(t)),
                Err(e) => Err(e),
            }
        } else if is_digit(c) || c == MINUS || c == PLUS {
            match self.read_number() {
                Ok(t) => Ok(Some(t)),
                Err(e) => Err(e),
            }
        } else if is_alpha(c) || c == UNDERSCORE {
            Ok(Some(self.read_identifier()))
        } else {
            Err(
                ConfigError::UnexpectedCharacter {
                    line: self.line,
                    col: self.col,
                    expected: String::from_str("valid TOML syntax"),
                    found: char_string(c as char),
                },
            )
        }
    }

    /// Reads the tokens from the current position to the end of the input.
    pub fn tokenize(&mut self) -> (r: Result<Vec<SpannedToken>, ConfigError>)
        requires
            old(self).wf(),
        ensures
            final(self).wf(),
            final(self).bytes() == old(self).bytes(),
            old(self).position() <= final(self).position(),
            match r {
                Ok(v) => lex(old(self).bytes(), old(self).position()) == Ok::<
                    Seq<SpannedTokenV>,
                    ConfigErrorV,
                >(tokens_view(v@)) && final(self).position() == final(self).bytes().len(),
                Err(e) => lex(old(self).bytes(), old(self).position()) == Err::<
                    Seq<SpannedTokenV>,
                    ConfigErrorV,
                >(e@),
            },
    {
        let ghost inp = self.input@;
        let ghost p0 = self.pos as int;
        let mut tokens: Vec<SpannedToken> = Vec::new();
        proof {
            lemma_after_empty(lex(inp, p0));
        }
        while self.pos < self.input.len()
            invariant
                self.wf(),
                self.input@ == inp,
                inp == old(self).input@,
                p0 == old(self).pos,
                p0 <= self.pos <= inp.len(),
                lex(inp, p0) == after(tokens_view(tokens@), lex(inp, self.pos as int)),
            decreases inp.len() - self.pos,
        {
            let ghost p = self.pos as int;
            match self.next_token() {
                Err(e) => {
                    proof {
                        assert(lex(inp, p) == Err::<Seq<SpannedTokenV>, ConfigErrorV>(e@));
                    }
                    return Err(e);
                },
                Ok(t) => {
                    proof {
                        lemma_after_after(tokens_view(tokens@), opt_seq(opt_view(t)), lex(inp, self.pos as int));
                    }
                    match t {
                        Some(t) => {
                            proof {
                                assert(tokens_view(tokens@.push(t)) =~= tokens_view(tokens@) + seq![t@]);
                            }
                            tokens.push(t);
                        },
                        None => {
                            proof {
                                assert(tokens_view(tokens@) + Seq::<SpannedTokenV>::empty() =~= tokens_view(tokens@));
                            }
                        },
                    }
                },
            }
        }
        proof {
            assert(tokens_view(tokens@) + Seq::<SpannedTokenV>::empty() =~= tokens_view(tokens@));
        }
        Ok(tokens)
    }

    fn read_number(&mut self) -> (r: Result<SpannedToken, ConfigError>)
        requires
            old(self).wf(),
            old(self).pos < old(self).input.len(),
            digit_byte(old(self).input@[old(self).pos as int]) || old(self).input@[old(self).pos as int] == MINUS
                || old(self).input@[old(self).pos as int] == PLUS,
        ensures
            final(self).wf(),
            final(self).input@ == old(self).input@,
            reads(r, final(self).pos as int, number_token(old(self).input@, old(self).pos as int)),
            r is Ok ==> final(self).pos > old(self).pos,
            final(self).pos >= old(self).pos,
    {
        if self.current() == Some(DIGIT_0) && (self.peek() == Some(LOWER_X) || self.peek() == Some(
            LOWER_O,
        ) || self.peek() == Some(LOWER_B)) {
            self.read_prefixed_number()
        } else {
            self.read_decimal_number()
        }
    }

    /// An integer written with a `0x`, `0o` or `0b` prefix.
    fn read_prefixed_number(&mut self) -> (r: Result<SpannedToken, ConfigError>)
        requires
            old(self).wf(),
            has_radix_prefix(old(self).input@, old(self).pos as int),
        ensures
            final(self).wf(),
            final(self).input@ == old(self).input@,
            reads(r, final(self).pos as int, prefixed_number(old(self).input@, old(self).pos as int)),
            r is Ok ==> final(self).pos > old(self).pos,
            final(self).pos >= old(self).pos,
    {
        let ghost inp = self.input@;
        let ghost start = self.pos as int;
        let start_line = self.line;
        let start_col = self.col;
        let marker = self.input[self.pos + 1];
        let radix: u64 = if marker == LOWER_X {
            16
        } else if marker == LOWER_O {
            8
        } else {
            2
        };
        self.advance();
        self.advance();
        let mut digits: Vec<u8> = Vec::new();
        proof {
            lemma_strip_empty(inp, start + 2);
        }
        loop
            invariant
                self.wf(),
                self.input@ == inp,
                inp == old(self).input@,
                start == old(self).pos,
                0 <= start,
                start + 2 <= self.pos <= inp.len(),
                start_line == line_at(inp, start),
                start_col == col_at(inp, start),
                radix as nat == radix_of(inp[start + 1]),
                radix == 2 || radix == 8 || radix == 16,
                radix_scan(inp, start, start + 2, radix as nat) == radix_scan(
                    inp,
                    start,
                    self.pos as int,
                    radix as nat,
                ),
                digits@ == strip_underscores(inp.subrange(start + 2, self.pos as int)),
                forall|k: int|
                    0 <= k < digits.len() ==> is_radix_digit(#[trigger] digits@[k], radix as nat),
            ensures
                radix_scan(inp, start, start + 2, radix as nat) == Ok::<int, ConfigErrorV>(
                    self.pos as int,
                ),
            decreases inp.len() - self.pos,
        {
            let cur = self.current();
            if cur.is_none() {
                break;
            }
            let c = cur.unwrap();
            if is_radix_digit_exec(c, radix) {
                proof {
                    lemma_strip_step(inp, start + 2, self.pos as int);
                }
                digits.push(c);
                self.advance();
            } else if c == UNDERSCORE {
                let next = self.peek();
                if next.is_some() && is_radix_digit_exec(next.unwrap(), radix) {
                    proof {
                        lemma_strip_step(inp, start + 2, self.pos as int);
                    }
                    self.advance();
                } else {
                    return Err(underscore_error(start_line, start_col));
                }
            } else if is_number_end_exec(c) {
                break;
            } else {
                let mut tail = String::from_str("' in ");
                tail.append(radix_name_text(radix));
                tail.append(" number");
                let detail = text_around("invalid character '", c as char, tail.as_str());
                proof {
                    assert(detail@ =~= "invalid character '"@ + seq![byte_char(c)] + "' in "@
                        + radix_name(radix as nat) + " number"@);
                }
                return Err(ConfigError::InvalidNumber { line: start_line, col: start_col, detail });
            }
        }
        proof {
            assert forall|k: int| 0 <= k < digits.len() implies is_radix_digit(
                #[trigger] digits@[k],
                16,
            ) && digit_value(digits@[k]) < radix by {
                assert(is_radix_digit(digits@[k], radix as nat));
            }
        }
        match digits_to_i64(&digits, radix) {
            Some(v) => Ok(SpannedToken { kind: TokenKind::Integer(v), line: start_line, col: start_col }),
            None => {
                let mut detail = String::from_str("invalid ");
                detail.append(radix_name_text(radix));
                detail.append(" number");
                Err(ConfigError::InvalidNumber { line: start_line, col: start_col, detail })
            },
        }
    }

    /// `inf` or `nan` after a sign; the lexer stands on its first letter.
    fn read_special(
        &mut self,
        start_line: usize,
        start_col: usize,
        negative: bool,
        Ghost(start): Ghost<int>,
    ) -> (r: Result<SpannedToken, ConfigError>)
        requires
            old(self).wf(),
            old(self).pos < old(self).input.len(),
            old(self).input@[old(self).pos as int] == LOWER_I || old(self).input@[old(
                self,
            ).pos as int] == LOWER_N,
        ensures
            final(self).wf(),
            final(self).input@ == old(self).input@,
            0 <= start <= old(self).pos && start_line == line_at(old(self).input@, start)
                && start_col == col_at(old(self).input@, start) && negative == (old(
                self,
            ).input@[start] == MINUS) ==> reads(
                r,
                final(self).pos as int,
                special_number(old(self).input@, start, old(self).pos as int),
            ),
            r is Ok ==> final(self).pos > old(self).pos,
            final(self).pos >= old(self).pos,
    {
        let is_inf = self.input[self.pos] == LOWER_I;
        let second = if is_inf {
            LOWER_N
        } else {
            LOWER_A
        };
        let third = if is_inf {
            LOWER_F
        } else {
            LOWER_N
        };
        if self.peek() == Some(second) && self.peek_n(2) == Some(third) {
            self.advance();
            self.advance();
            self.advance();
            let cur = self.current();
            if cur.is_some() && is_name_byte_exec(cur.unwrap()) {
                let tail = if is_inf {
                    "' after inf"
                } else {
                    "' after nan"
                };
                return Err(
                    ConfigError::InvalidNumber {
                        line: start_line,
                        col: start_col,
                        detail: text_around("invalid character '", cur.unwrap() as char, tail),
                    },
                );
            }
            let value = if is_inf {
                FloatValue::Infinite { negative }
            } else {
                FloatValue::NotANumber { negative }
            };
            Ok(SpannedToken { kind: TokenKind::Float(value), line: start_line, col: start_col })
        } else {
            Err(
                number_error_text(
                    start_line,
                    start_col,
                    "only nan and inf special characters are allowed",
                ),
            )
        }
    }

    /// A decimal integer or float, or a signed `inf` or `nan`.
    fn read_decimal_number(&mut self) -> (r: Result<SpannedToken, ConfigError>)
        requires
            old(self).wf(),
            old(self).pos < old(self).input.len(),
            digit_byte(old(self).input@[old(self).pos as int]) || old(self).input@[old(self).pos as int] == MINUS
                || old(self).input@[old(self).pos as int] == PLUS,
        ensures
            final(self).wf(),
            final(self).input@ == old(self).input@,
            reads(r, final(self).pos as int, decimal_number(old(self).input@, old(self).pos as int)),
            r is Ok ==> final(self).pos > old(self).pos,
            final(self).pos >= old(self).pos,
    {
        let ghost inp = self.input@;
        let ghost start = self.pos as int;
        let start_line = self.line;
        let start_col = self.col;
        let first_byte = self.input[self.pos];
        let negative = first_byte == MINUS;
        let mut text = String::new();
        if first_byte == MINUS {
            text.push('-');
            self.advance();
        } else if first_byte == PLUS {
            text.push('+');
            self.advance();
        }
        let ghost i0 = self.pos as int;
        assert(i0 == start + sign_len(inp, start));
        assert(text@ == sign_text(inp, start));
        let c0 = self.current();
        if c0 == Some(LOWER_I) || c0 == Some(LOWER_N) {
            return self.read_special(start_line, start_col, negative, Ghost(start));
        }
        if c0 == Some(UNDERSCORE) {
            return Err(underscore_error(start_line, start_col));
        }
        if c0 == Some(DOT) {
            return Err(number_error_text(start_line, start_col, "number cannot start with dot"));
        }
        let mut body: Vec<u8> = Vec::new();
        proof {
            lemma_strip_empty(inp, i0);
            assert(text@ + chars_of(Seq::<u8>::empty()) =~= text@);
        }
        if c0.is_some() && is_digit(c0.unwrap()) {
            let c = c0.unwrap();
            proof {
                lemma_strip_step(inp, i0, i0);
                lemma_chars_push(body@, c);
                assert(sign_text(inp, start) + chars_of(body@).push(byte_char(c)) =~= text@.push(
                    byte_char(c),
                ));
            }
            body.push(c);
            text.push(c as char);
            self.advance();
        }
        let ghost first = self.pos as int;
        let mut has_dot = false;
        let mut has_exp = false;
        loop
            invariant
                self.wf(),
                self.input@ == inp,
                inp == old(self).input@,
                start == old(self).pos,
                0 <= start,
                i0 == start + sign_len(inp, start),
                i0 <= self.pos <= inp.len(),
                !(i0 < inp.len() && (inp[i0] == LOWER_I || inp[i0] == LOWER_N || inp[i0]
                    == UNDERSCORE || inp[i0] == DOT)),
                first == if i0 < inp.len() && digit_byte(inp[i0]) {
                    i0 + 1
                } else {
                    i0
                },
                start_line == line_at(inp, start),
                start_col == col_at(inp, start),
                decimal_scan(inp, start, first, false, false) == decimal_scan(
                    inp,
                    start,
                    self.pos as int,
                    has_dot,
                    has_exp,
                ),
                body@ == strip_underscores(inp.subrange(i0, self.pos as int)),
                text@ == sign_text(inp, start) + chars_of(body@),
                !has_dot && !has_exp ==> forall|k: int|
                    0 <= k < body.len() ==> digit_byte(#[trigger] body@[k]),
            ensures
                decimal_scan(inp, start, first, false, false) == Ok::<
                    (int, bool, bool),
                    ConfigErrorV,
                >((self.pos as int, has_dot, has_exp)),
            decreases inp.len() - self.pos,
        {
            let cur = self.current();
            if cur.is_none() {
                break;
            }
            let c = cur.unwrap();
            if is_digit(c) {
                proof {
                    lemma_strip_step(inp, i0, self.pos as int);
                    lemma_chars_push(body@, c);
                }
                body.push(c);
                text.push(c as char);
                self.advance();
            } else if c == UNDERSCORE {
                let next = self.peek();
                if next.is_some() && is_digit(next.unwrap()) {
                    proof {
                        lemma_strip_step(inp, i0, self.pos as int);
                    }
                    self.advance();
                } else {
                    return Err(underscore_error(start_line, start_col));
                }
            } else if c == DOT {
                if has_exp {
                    return Err(
                        number_error_text(
                            start_line,
                            start_col,
                            "fractional part cannot follow an exponent",
                        ),
                    );
                }
                if has_dot {
                    return Err(number_error_text(start_line, start_col, "multiple decimal points"));
                }
                let next = self.peek();
                if !(next.is_some() && is_digit(next.unwrap())) {
                    return Err(
                        number_error_text(
                            start_line,
                            start_col,
                            "fractional part must start with a digit",
                        ),
                    );
                }
                has_dot = true;
                proof {
                    lemma_strip_step(inp, i0, self.pos as int);
                    lemma_chars_push(body@, c);
                }
                body.push(c);
                text.push('.');
                self.advance();
            } else if c == LOWER_E || c == UPPER_E {
                if has_exp {
                    return Err(number_error_text(start_line, start_col, "multiple exponents"));
                }
                has_exp = true;
                proof {
                    lemma_strip_step(inp, i0, self.pos as int);
                    lemma_chars_push(body@, c);
                }
                body.push(c);
                text.push(c as char);
                self.advance();
                let sign = self.current();
                if sign == Some(PLUS) || sign == Some(MINUS) {
                    let sb = sign.unwrap();
                    proof {
                        lemma_strip_step(inp, i0, self.pos as int);
                        lemma_chars_push(body@, sb);
                    }
                    body.push(sb);
                    text.push(sb as char);
                    self.advance();
                }
                let d = self.current();
                if d.is_some() && is_digit(d.unwrap()) {
                    let db = d.unwrap();
                    proof {
                        lemma_strip_step(inp, i0, self.pos as int);
                        lemma_chars_push(body@, db);
                    }
                    body.push(db);
                    text.push(db as char);
                    self.advance();
                } else {
                    return Err(
                        number_error_text(
                            start_line,
                            start_col,
                            "exponent part must start with a digit",
                        ),
                    );
                }
            } else if is_number_end_exec(c) {
                break;
            } else {
                return Err(
                    ConfigError::InvalidNumber {
                        line: start_line,
                        col: start_col,
                        detail: text_around("invalid character '", c as char, "' in number"),
                    },
                );
            }
        }
        if has_dot || has_exp {
            if body.len() > 0 && is_digit(body[0]) {
                Ok(
                    SpannedToken {
                        kind: TokenKind::Float(FloatValue::Finite { literal: text }),
                        line: start_line,
                        col: start_col,
                    },
                )
            } else {
                let mut detail = String::from_str("cannot parse '");
                detail.append(text.as_str());
                detail.append("' as float");
                Err(ConfigError::InvalidNumber { line: start_line, col: start_col, detail })
            }
        } else {
            match decimal_to_i64(&body, negative) {
                Some(v) => Ok(
                    SpannedToken { kind: TokenKind::Integer(v), line: start_line, col: start_col },
                ),
                None => {
                    let mut detail = String::from_str("cannot parse '");
                    detail.append(text.as_str());
                    detail.append("' as integer");
                    Err(ConfigError::InvalidNumber { line: start_line, col: start_col, detail })
                },
            }
        }
    }

    fn read_identifier(&mut self) -> (r: SpannedToken)
        requires
            old(self).wf(),
            old(self).pos < old(self).input.len(),
            is_word_byte(old(self).input@[old(self).pos as int]),
        ensures
            final(self).wf(),
            final(self).input@ == old(self).input@,
            final(self).pos == word_end(old(self).input@, old(self).pos as int),
            r@ == tok(
                word_kind(old(self).input@.subrange(old(self).pos as int, final(self).pos as int)),
                old(self).input@,
                old(self).pos as int,
            ),
            final(self).pos > old(self).pos,
    {
        let ghost inp = self.input@;
        let ghost start = self.pos as int;
        let start_line = self.line;
        let start_col = self.col;
        let mut word: Vec<u8> = Vec::new();
        proof {
            assert(inp.subrange(start, start) =~= Seq::<u8>::empty());
        }
        loop
            invariant
                self.wf(),
                self.input@ == inp,
                0 <= start <= self.pos <= inp.len(),
                word_end(inp, start) == word_end(inp, self.pos as int),
                word@ == inp.subrange(start, self.pos as int),
            ensures
                self.pos >= inp.len() || !is_word_byte(inp[self.pos as int]),
            decreases inp.len() - self.pos,
        {
            let cur = self.current();
            if cur.is_none() {
                break;
            }
            let c = cur.unwrap();
            if !is_word_byte_exec(c) {
                break;
            }
            proof {
                assert(inp.subrange(start, self.pos + 1) =~= inp.subrange(start, self.pos as int).push(c));
            }
            word.push(c);
            self.advance();
        }
        SpannedToken { kind: word_kind_of(&word), line: start_line, col: start_col }
    }

    /// Reads the line break that may follow the opening delimiter of a multi-line string.
    fn skip_newlines_in_multiline_string(&mut self)
        requires
            old(self).wf(),
        ensures
            final(self).wf(),
            final(self).input@ == old(self).input@,
            final(self).pos == skip_line_break(old(self).input@, old(self).pos as int),
    {
        if self.current() == Some(NL) {
            self.advance();
        } else if self.current() == Some(CR) && self.peek() == Some(NL) {
            self.advance();
            self.advance();
        }
    }

    fn read_string(&mut self) -> (r: Result<SpannedToken, ConfigError>)
        requires
            old(self).wf(),
            old(self).pos < old(self).input.len(),
            old(self).input@[old(self).pos as int] == DQUOTE,
        ensures
            final(self).wf(),
            final(self).input@ == old(self).input@,
            reads(
                r,
                final(self).pos as int,
                string_result(
                    old(self).input@,
                    old(self).pos as int,
                    basic_body(old(self).input@, old(self).pos as int, old(self).pos + 1),
                ),
            ),
            r is Ok ==> final(self).pos > old(self).pos,
            final(self).pos >= old(self).pos,
    {
        let ghost inp = self.input@;
        let ghost start = self.pos as int;
        let start_line = self.line;
        let start_col = self.col;
        self.advance();
        let mut result = String::new();
        proof {
            lemma_prepend_empty(basic_body(inp, start, start + 1));
        }
        loop
            invariant
                self.wf(),
                self.input@ == inp,
                inp == old(self).input@,
                start == old(self).pos,
                0 <= start < self.pos <= inp.len(),
                start_line == line_at(inp, start),
                start_col == col_at(inp, start),
                basic_body(inp, start, start + 1) == prepend(
                    result@,
                    basic_body(inp, start, self.pos as int),
                ),
            decreases inp.len() - self.pos,
        {
            let cur = self.current();
            if cur.is_none() {
                return Err(ConfigError::UnterminatedString { line: start_line, col: start_col });
            }
            let c = cur.unwrap();
            if c == DQUOTE {
                self.advance();
                proof {
                    assert(result@ + Seq::<char>::empty() =~= result@);
                }
                return Ok(
                    SpannedToken {
                        kind: TokenKind::StringLit(result),
                        line: start_line,
                        col: start_col,
                    },
                );
            } else if c == BACKSLASH {
                self.advance();
                let next = self.current();
                match self.escape_here() {
                    Some((e, n)) => {
                        proof {
                            lemma_prepend_push(
                                result@,
                                e,
                                basic_body(inp, start, self.pos + n),
                            );
                        }
                        result.push(e);
                        self.advance_by(n);
                    },
                    None => {
                        let found = match next {
                            Some(b) => char_string(b as char),
                            None => String::from_str("end of input"),
                        };
                        return Err(
                            ConfigError::UnexpectedCharacter {
                                line: self.line,
                                col: self.col,
                                expected: String::from_str("valid escape sequence"),
                                found,
                            },
                        );
                    },
                }
            } else {
                proof {
                    lemma_prepend_push(
                        result@,
                        byte_char(c),
                        basic_body(inp, start, self.pos + 1),
                    );
                }
                result.push(c as char);
                self.advance();
            }
        }
    }

    fn read_multiline_string(&mut self) -> (r: Result<SpannedToken, ConfigError>)
        requires
            old(self).wf(),
            triple_at(old(self).input@, old(self).pos as int, DQUOTE),
        ensures
            final(self).wf(),
            final(self).input@ == old(self).input@,
            reads(
                r,
                final(self).pos as int,
                string_result(
                    old(self).input@,
                    old(self).pos as int,
                    multiline_basic_body(
                        old(self).input@,
                        old(self).pos as int,
                        multiline_text_start(old(self).input@, old(self).pos as int),
                    ),
                ),
            ),
            r is Ok ==> final(self).pos > old(self).pos,
            final(self).pos >= old(self).pos,
    {
        let ghost inp = self.input@;
        let ghost start = self.pos as int;
        let start_line = self.line;
        let start_col = self.col;
        self.advance();
        self.advance();
        self.advance();
        self.skip_newlines_in_multiline_string();
        let mut result = String::new();
        proof {
            lemma_prepend_empty(multiline_basic_body(inp, start, self.pos as int));
        }
        loop
            invariant
                self.wf(),
                self.input@ == inp,
                inp == old(self).input@,
                start == old(self).pos,
                0 <= start < self.pos <= inp.len(),
                start_line == line_at(inp, start),
                start_col == col_at(inp, start),
                multiline_basic_body(inp, start, multiline_text_start(inp, start)) == prepend(
                    result@,
                    multiline_basic_body(inp, start, self.pos as int),
                ),
            decreases inp.len() - self.pos,
        {
            let cur = self.current();
            if cur.is_none() {
                return Err(ConfigError::UnterminatedString { line: start_line, col: start_col });
            }
            let c = cur.unwrap();
            if c == DQUOTE {
                if self.peek() == Some(DQUOTE) && self.peek_n(2) == Some(DQUOTE) {
                    self.advance();
                    self.advance();
                    self.advance();
                    proof {
                        assert(result@ + Seq::<char>::empty() =~= result@);
                    }
                    return Ok(
                        SpannedToken {
                            kind: TokenKind::StringLit(result),
                            line: start_line,
                            col: start_col,
                        },
                    );
                } else {
                    proof {
                        lemma_prepend_push(
                            result@,
                            '"',
                            multiline_basic_body(inp, start, self.pos + 1),
                        );
                    }
                    result.push('"');
                    self.advance();
                }
            } else if c == BACKSLASH {
                self.advance();
                let next = self.current();
                if next == Some(NL) || next == Some(CR) {
                    let ghost j = self.pos as int;
                    loop
                        invariant
                            self.wf(),
                            self.input@ == inp,
                            0 <= start < j <= self.pos <= inp.len(),
                            blank_end(inp, j) == blank_end(inp, self.pos as int),
                        ensures
                            self.pos == blank_end(inp, j),
                        decreases inp.len() - self.pos,
                    {
                        let cur = self.current();
                        if cur.is_none() {
                            break;
                        }
                        let b = cur.unwrap();
                        if b == NL || b == TAB || b == SPACE || b == CR {
                            self.advance();
                        } else {
                            break;
                        }
                    }
                } else {
                    match self.escape_here() {
                        Some((e, n)) => {
                            proof {
                                lemma_prepend_push(
                                    result@,
                                    e,
                                    multiline_basic_body(inp, start, self.pos + n),
                                );
                            }
                            result.push(e);
                            self.advance_by(n);
                        },
                        None => {
                            return Err(
                                ConfigError::InvalidEscapeSequence {
                                    line: self.line,
                                    col: self.col,
                                },
                            );
                        },
                    }
                }
            } else {
                proof {
                    lemma_prepend_push(
                        result@,
                        byte_char(c),
                        multiline_basic_body(inp, start, self.pos + 1),
                    );
                }
                result.push(c as char);
                self.advance();
            }
        }
    }

    fn read_literal(&mut self) -> (r: Result<SpannedToken, ConfigError>)
        requires
            old(self).wf(),
            old(self).pos < old(self).input.len(),
            old(self).input@[old(self).pos as int] == SQUOTE,
        ensures
            final(self).wf(),
            final(self).input@ == old(self).input@,
            reads(
                r,
                final(self).pos as int,
                string_result(
                    old(self).input@,
                    old(self).pos as int,
                    literal_body(old(self).input@, old(self).pos as int, old(self).pos + 1),
                ),
            ),
            r is Ok ==> final(self).pos > old(self).pos,
            final(self).pos >= old(self).pos,
    {
        let ghost inp = self.input@;
        let ghost start = self.pos as int;
        let start_line = self.line;
        let start_col = self.col;
        self.advance();
        let mut result = String::new();
        proof {
            lemma_prepend_empty(literal_body(inp, start, start + 1));
        }
        loop
            invariant
                self.wf(),
                self.input@ == inp,
                inp == old(self).input@,
                start == old(self).pos,
                0 <= start < self.pos <= inp.len(),
                start_line == line_at(inp, start),
                start_col == col_at(inp, start),
                literal_body(inp, start, start + 1) == prepend(
                    result@,
                    literal_body(inp, start, self.pos as int),
                ),
            decreases inp.len() - self.pos,
        {
            let cur = self.current();
            if cur.is_none() {
                return Err(ConfigError::UnterminatedString { line: start_line, col: start_col });
            }
            let c = cur.unwrap();
            if c == NL {
                return Err(ConfigError::UnterminatedString { line: start_line, col: start_col });
            } else if c == SQUOTE {
                self.advance();
                proof {
                    assert(result@ + Seq::<char>::empty() =~= result@);
                }
                return Ok(
                    SpannedToken {
                        kind: TokenKind::StringLit(result),
                        line: start_line,
                        col: start_col,
                    },
                );
            } else {
                proof {
                    lemma_prepend_push(
                        result@,
                        byte_char(c),
                        literal_body(inp, start, self.pos + 1),
                    );
                }
                result.push(c as char);
                self.advance();
            }
        }
    }

    fn read_multiline_literal(&mut self) -> (r: Result<SpannedToken, ConfigError>)
        requires
            old(self).wf(),
            triple_at(old(self).input@, old(self).pos as int, SQUOTE),
        ensures
            final(self).wf(),
            final(self).input@ == old(self).input@,
            reads(
                r,
                final(self).pos as int,
                string_result(
                    old(self).input@,
                    old(self).pos as int,
                    multiline_literal_body(
                        old(self).input@,
                        old(self).pos as int,
                        multiline_text_start(old(self).input@, old(self).pos as int),
                    ),
                ),
            ),
            r is Ok ==> final(self).pos > old(self).pos,
            final(self).pos >= old(self).pos,
    {
        let ghost inp = self.input@;
        let ghost start = self.pos as int;
        let start_line = self.line;
        let start_col = self.col;
        self.advance();
        self.advance();
        self.advance();
        self.skip_newlines_in_multiline_string();
        let mut result = String::new();
        proof {
            lemma_prepend_empty(multiline_literal_body(inp, start, self.pos as int));
        }
        loop
            invariant
                self.wf(),
                self.input@ == inp,
                inp == old(self).input@,
                start == old(self).pos,
                0 <= start < self.pos <= inp.len(),
                start_line == line_at(inp, start),
                start_col == col_at(inp, start),
                multiline_literal_body(inp, start, multiline_text_start(inp, start)) == prepend(
                    result@,
                    multiline_literal_body(inp, start, self.pos as int),
                ),
            decreases inp.len() - self.pos,
        {
            let cur = self.current();
            if cur.is_none() {
                return Err(ConfigError::UnterminatedString { line: start_line, col: start_col });
            }
            let c = cur.unwrap();
            if c == SQUOTE && self.peek() == Some(SQUOTE) && self.peek_n(2) == Some(SQUOTE) {
                self.advance();
                self.advance();
                self.advance();
                proof {
                    assert(result@ + Seq::<char>::empty() =~= result@);
                }
                return Ok(
                    SpannedToken {
                        kind: TokenKind::StringLit(result),
                        line: start_line,
                        col: start_col,
                    },
                );
            } else {
                proof {
                    lemma_prepend_push(
                        result@,
                        byte_char(c),
                        multiline_literal_body(inp, start, self.pos + 1),
                    );
                }
                result.push(c as char);
                self.advance();
            }
        }
    }
}

/// `a`, then the character `c`, then `b`.
fn text_around(a: &str, c: char, b: &str) -> (r: String)
    ensures
        r@ == a@ + seq![c] + b@,
{
    let mut s = String::from_str(a);
    s.push(c);
    s.append(b);
    proof {
        assert(a@.push(c) =~= a@ + seq![c]);
    }
    s
}

fn radix_name_text(radix: u64) -> (r: &'static str)
    ensures
        r@ == radix_name(radix as nat),
{
    if radix == 16 {
        "hexadecimal"
    } else if radix == 8 {
        "octal"
    } else {
        "binary"
    }
}

fn underscore_error(line: usize, col: usize) -> (r: ConfigError)
    ensures
        r@ == (ConfigErrorV::InvalidNumber {
            line: line as nat,
            col: col as nat,
            detail: underscore_detail(),
        }),
{
    ConfigError::InvalidNumber {
        line,
        col,
        detail: String::from_str("underscore should have numbers on both ends"),
    }
}

fn number_error_text(line: usize, col: usize, detail: &str) -> (r: ConfigError)
    ensures
        r@ == (ConfigErrorV::InvalidNumber { line: line as nat, col: col as nat, detail: detail@ }),
{
    ConfigError::InvalidNumber { line, col, detail: String::from_str(detail) }
}

/// Whether `c` is an ASCII letter.
pub fn is_alpha(c: u8) -> (r: bool)
    ensures
        r == alpha_byte(c),
{
    (LOWER_A <= c && c <= LOWER_Z) || (UPPER_A <= c && c <= UPPER_Z)
}

/// Whether `c` is an ASCII decimal digit.
pub fn is_digit(c: u8) -> (r: bool)
    ensures
        r == digit_byte(c),
{
    DIGIT_0 <= c && c <= DIGIT_9
}

fn is_name_byte_exec(b: u8) -> (r: bool)
    ensures
        r == is_name_byte(b),
{
    is_alpha(b) || is_digit(b) || b == UNDERSCORE
}

fn is_number_end_exec(b: u8) -> (r: bool)
    ensures
        r == is_number_end(b),
{
    b == SPACE || b == TAB || b == NL || b == CR || b == COMMA || b == RBRACKET || b == RBRACE
        || b == HASH
}

fn is_radix_digit_exec(b: u8, radix: u64) -> (r: bool)
    ensures
        r == is_radix_digit(b, radix as nat),
{
    if radix == 16 {
        (DIGIT_0 <= b && b <= DIGIT_9) || (LOWER_A <= b && b <= LOWER_F) || (UPPER_A <= b && b
            <= UPPER_F)
    } else if radix == 8 {
        DIGIT_0 <= b && b <= DIGIT_7
    } else {
        DIGIT_0 <= b && b <= DIGIT_1
    }
}

fn digit_value_exec(b: u8) -> (r: u8)
    requires
        is_radix_digit(b, 16),
    ensures
        r == digit_value(b),
        r < 16,
{
    if DIGIT_0 <= b && b <= DIGIT_9 {
        b - DIGIT_0
    } else if LOWER_A <= b && b <= LOWER_F {
        b - LOWER_A + 10
    } else {
        b - UPPER_A + 10
    }
}

/// Value of some digits, when there is at least one and the value fits in `i64`.
fn digits_to_i64(digits: &Vec<u8>, radix: u64) -> (r: Option<i64>)
    requires
        radix == 2 || radix == 8 || radix == 10 || radix == 16,
        forall|k: int| 0 <= k < digits.len() ==> is_radix_digit(#[trigger] digits@[k], 16),
        forall|k: int| 0 <= k < digits.len() ==> digit_value(#[trigger] digits@[k]) < radix,
    ensures
        r is Some <==> digits.len() > 0 && digits_value(digits@, radix as nat) <= i64::MAX,
        r matches Some(v) ==> v == digits_value(digits@, radix as nat),
{
    let mut acc: u64 = 0;
    let mut i: usize = 0;
    proof {
        assert(digits@.take(0) =~= Seq::<u8>::empty());
    }
    while i < digits.len()
        invariant
            radix == 2 || radix == 8 || radix == 10 || radix == 16,
            forall|k: int| 0 <= k < digits.len() ==> is_radix_digit(#[trigger] digits@[k], 16),
            forall|k: int| 0 <= k < digits.len() ==> digit_value(#[trigger] digits@[k]) < radix,
            i <= digits.len(),
            acc == digits_value(digits@.take(i as int), radix as nat),
            acc <= i64::MAX,
        decreases digits.len() - i,
    {
        let d = digit_value_exec(digits[i]);
        proof {
            lemma_digits_value_take_step(digits@, i as int, radix as nat);
        }
        assert((acc as u128) * (radix as u128) <= 0x7fff_ffff_ffff_ffffu128 * 16) by (nonlinear_arith)
            requires
                acc <= i64::MAX,
                radix <= 16,
        ;
        let next: u128 = (acc as u128) * (radix as u128) + (d as u128);
        if next > 0x7fff_ffff_ffff_ffffu128 {
            proof {
                lemma_digits_value_prefix(digits@, i + 1, radix as nat);
            }
            return None;
        }
        acc = next as u64;
        i = i + 1;
    }
    proof {
        assert(digits@.take(digits.len() as int) =~= digits@);
    }
    if digits.len() == 0 {
        None
    } else {
        Some(acc as i64)
    }
}

/// The signed value of some decimal digits, when there is at least one and it fits in `i64`.
fn decimal_to_i64(digits: &Vec<u8>, negative: bool) -> (r: Option<i64>)
    requires
        forall|k: int| 0 <= k < digits.len() ==> digit_byte(#[trigger] digits@[k]),
    ensures
        r is Some <==> digits.len() > 0 && (if negative {
            digits_value(digits@, 10) <= 0x8000_0000_0000_0000
        } else {
            digits_value(digits@, 10) <= i64::MAX
        }),
        r matches Some(v) ==> v == (if negative {
            -digits_value(digits@, 10)
        } else {
            digits_value(digits@, 10) as int
        }),
{
    let mut acc: u64 = 0;
    let mut i: usize = 0;
    proof {
        assert(digits@.take(0) =~= Seq::<u8>::empty());
    }
    while i < digits.len()
        invariant
            forall|k: int| 0 <= k < digits.len() ==> digit_byte(#[trigger] digits@[k]),
            i <= digits.len(),
            acc == digits_value(digits@.take(i as int), 10),
            acc <= 0x8000_0000_0000_0000u64,
        decreases digits.len() - i,
    {
        let d = digits[i] - DIGIT_0;
        proof {
            lemma_digits_value_take_step(digits@, i as int, 10);
        }
        let next: u128 = (acc as u128) * 10 + (d as u128);
        if next > 0x8000_0000_0000_0000u128 {
            proof {
                lemma_digits_value_prefix(digits@, i + 1, 10);
            }
            return None;
        }
        acc = next as u64;
        i = i + 1;
    }
    proof {
        assert(digits@.take(digits.len() as int) =~= digits@);
    }
    if digits.len() == 0 {
        None
    } else if negative {
        if acc == 0x8000_0000_0000_0000u64 {
            Some(i64::MIN)
        } else {
            Some(-(acc as i64))
        }
    } else if acc <= 0x7fff_ffff_ffff_ffffu64 {
        Some(acc as i64)
    } else {
        None
    }
}

fn is_word_byte_exec(b: u8) -> (r: bool)
    ensures
        r == is_word_byte(b),
{
    is_alpha(b) || is_digit(b) || b == UNDERSCORE || b == MINUS
}

fn escape_of(b: u8) -> (r: Option<char>)
    ensures
        r == escape_char(b),
{
    if b == DQUOTE {
        Some('"')
    } else if b == BACKSLASH {
        Some('\\')
    } else if b == LOWER_B {
        Some('\x08')
    } else if b == LOWER_F {
        Some('\x0c')
    } else if b == LOWER_N {
        Some('\n')
    } else if b == LOWER_R {
        Some('\r')
    } else if b == LOWER_T {
        Some('\t')
    } else {
        None
    }
}

/// A string of one character.
pub(crate) fn char_string(c: char) -> (r: String)
    ensures
        r@ == seq![c],
{
    let mut s = String::new();
    s.push(c);
    proof {
        assert(Seq::<char>::empty().push(c) =~= seq![c]);
    }
    s
}

/// The Latin-1 reading of some bytes.
pub(crate) fn latin1_string(bytes: &Vec<u8>) -> (r: String)
    ensures
        r@ == chars_of(bytes@),
{
    let mut s = String::new();
    let mut i: usize = 0;
    while i < bytes.len()
        invariant
            i <= bytes.len(),
            s@ == chars_of(bytes@.take(i as int)),
        decreases bytes.len() - i,
    {
        proof {
            assert(bytes@.take(i + 1) =~= bytes@.take(i as int).push(bytes@[i as int]));
            lemma_chars_push(bytes@.take(i as int), bytes@[i as int]);
        }
        s.push(bytes[i] as char);
        i = i + 1;
    }
    proof {
        assert(bytes@.take(bytes.len() as int) =~= bytes@);
    }
    s
}

fn word_kind_of(w: &Vec<u8>) -> (r: TokenKind)
    ensures
        r@ == word_kind(w@),
{
    if w.len() == 3 && w[0] == LOWER_I && w[1] == LOWER_N && w[2] == LOWER_F {
        proof {
            assert(w@ =~= seq![LOWER_I, LOWER_N, LOWER_F]);
        }
        TokenKind::Float(FloatValue::Infinite { negative: false })
    } else if w.len() == 3 && w[0] == LOWER_N && w[1] == LOWER_A && w[2] == LOWER_N {
        proof {
            assert(w@ =~= seq![LOWER_N, LOWER_A, LOWER_N]);
        }
        TokenKind::Float(FloatValue::NotANumber { negative: false })
    } else if w.len() == 4 && w[0] == LOWER_T && w[1] == LOWER_R && w[2] == LOWER_U && w[3]
        == LOWER_E {
        proof {
            assert(w@ =~= seq![LOWER_T, LOWER_R, LOWER_U, LOWER_E]);
        }
        TokenKind::Boolean(true)
    } else if w.len() == 5 && w[0] == LOWER_F && w[1] == LOWER_A && w[2] == LOWER_L && w[3]
        == LOWER_S && w[4] == LOWER_E {
        proof {
            assert(w@ =~= seq![LOWER_F, LOWER_A, LOWER_L, LOWER_S, LOWER_E]);
        }
        TokenKind::Boolean(false)
    } else {
        TokenKind::Identifier(latin1_string(w))
    }
}

pub open spec fn opt_view(t: Option<SpannedToken>) -> Option<SpannedTokenV> {
    match t {
        Some(x) => Some(x@),
        None => None,
    }
}

/// `r` with `before` in front of its tokens.
pub open spec fn after(
    before: Seq<SpannedTokenV>,
    r: Result<Seq<SpannedTokenV>, ConfigErrorV>,
) -> Result<Seq<SpannedTokenV>, ConfigErrorV> {
    match r {
        Ok(rest) => Ok(before + rest),
        Err(e) => Err(e),
    }
}

proof fn lemma_after_empty(r: Result<Seq<SpannedTokenV>, ConfigErrorV>)
    ensures
        after(seq![], r) == r,
{
    if let Ok(rest) = r {
        assert(Seq::<SpannedTokenV>::empty() + rest =~= rest);
    }
}

proof fn lemma_after_after(
    a: Seq<SpannedTokenV>,
    b: Seq<SpannedTokenV>,
    r: Result<Seq<SpannedTokenV>, ConfigErrorV>,
)
    ensures
        after(a, after(b, r)) == after(a + b, r),
{
    if let Ok(rest) = r {
        assert(a + (b + rest) =~= (a + b) + rest);
    }
}

} // verus!
