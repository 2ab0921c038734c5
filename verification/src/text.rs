//! Text helpers shared by the lexer, the parser and the error messages:
//! decimal numbers, and the quoted form in which strings are shown in messages.
use vstd::prelude::*;

verus! {

/// `String::push` appends one character at the end of the string.
pub assume_specification[ std::string::String::push ](s: &mut std::string::String, ch: char)
    ensures
        final(s)@ == old(s)@.push(ch),
;

/// `char::from_u32` gives the character whose code is `i`, and nothing when `i`
/// is not a Unicode scalar value (a surrogate, or above `0x10FFFF`).
pub assume_specification[ core::char::from_u32 ](i: u32) -> (r: Option<char>)
    ensures
        r is Some <==> (i < 0xd800 || (0xe000 <= i && i <= 0x10ffff)),
        r matches Some(c) ==> c as u32 == i,
;

/// A character is the one whose code it has.
pub proof fn lemma_char_of_code(c: char, n: nat)
    requires
        c as u32 == n,
    ensures
        n as char == c,
{
    assert(c as nat == n);
    assert((c as nat) as char == c);
}

/// The character that a byte stands for when it is read as Latin-1.
pub open spec fn byte_char(b: u8) -> char {
    b as char
}

// ---------------------------------------------------------------- decimal numbers

/// The character of a decimal or hexadecimal digit (hexadecimal ones in lower case).
pub open spec fn digit_char(d: nat) -> char {
    if d < 10 {
        (48 + d) as char
    } else {
        (87 + d) as char
    }
}

/// The decimal digits of `n`, without leading zeros.
pub open spec fn nat_text(n: nat) -> Seq<char>
    decreases n,
{
    if n < 10 {
        seq![digit_char(n)]
    } else {
        nat_text(n / 10).push(digit_char(n % 10))
    }
}

/// The hexadecimal digits of `n` in lower case, without leading zeros.
pub open spec fn hex_text(n: nat) -> Seq<char>
    decreases n,
{
    if n < 16 {
        seq![digit_char(n)]
    } else {
        hex_text(n / 16).push(digit_char(n % 16))
    }
}

/// The decimal text of an integer, with a `-` when it is negative.
pub open spec fn int_text(n: int) -> Seq<char> {
    if n < 0 {
        seq!['-'] + nat_text((-n) as nat)
    } else {
        nat_text(n as nat)
    }
}

fn digit_of(d: u64) -> (r: char)
    requires
        d < 16,
    ensures
        r == digit_char(d as nat),
{
    if d < 10 {
        ((48 + d) as u8) as char
    } else {
        ((87 + d) as u8) as char
    }
}

/// Appends the decimal digits of `n`.
pub(crate) fn push_nat_text(s: &mut String, n: u64)
    ensures
        final(s)@ == old(s)@ + nat_text(n as nat),
    decreases n,
{
    if n >= 10 {
        push_nat_text(s, n / 10);
    }
    s.push(digit_of(n % 10));
    proof {
        if n < 10 {
            assert(old(s)@.push(digit_char(n as nat)) =~= old(s)@ + nat_text(n as nat));
        } else {
            assert((old(s)@ + nat_text((n / 10) as nat)).push(digit_char((n % 10) as nat)) =~= old(
                s,
            )@ + nat_text(n as nat));
        }
    }
}

/// Appends the hexadecimal digits of `n`.
pub(crate) fn push_hex_text(s: &mut String, n: u64)
    ensures
        final(s)@ == old(s)@ + hex_text(n as nat),
    decreases n,
{
    if n >= 16 {
        push_hex_text(s, n / 16);
    }
    s.push(digit_of(n % 16));
    proof {
        if n < 16 {
            assert(old(s)@.push(digit_char(n as nat)) =~= old(s)@ + hex_text(n as nat));
        } else {
            assert((old(s)@ + hex_text((n / 16) as nat)).push(digit_char((n % 16) as nat)) =~= old(
                s,
            )@ + hex_text(n as nat));
        }
    }
}

/// Appends the decimal text of `n`.
pub(crate) fn push_int_text(s: &mut String, n: i64)
    ensures
        final(s)@ == old(s)@ + int_text(n as int),
{
    if n < 0 {
        s.push('-');
        let m: u64 = (0i128 - n as i128) as u64;
        push_nat_text(s, m);
        proof {
            assert(old(s)@.push('-') + nat_text(m as nat) =~= old(s)@ + (seq!['-'] + nat_text(
                m as nat,
            )));
        }
    } else {
        push_nat_text(s, n as u64);
    }
}

/// Appends the decimal digits of `n`.
pub(crate) fn push_usize_text(s: &mut String, n: usize)
    ensures
        final(s)@ == old(s)@ + nat_text(n as nat),
{
    push_nat_text(s, n as u64);
}

/// The decimal text of `n`.
pub(crate) fn int_string(n: i64) -> (r: String)
    ensures
        r@ == int_text(n as int),
{
    let mut s = String::new();
    push_int_text(&mut s, n);
    proof {
        assert(Seq::<char>::empty() + int_text(n as int) =~= int_text(n as int));
    }
    s
}

/// The decimal text of `n`.
pub(crate) fn usize_string(n: usize) -> (r: String)
    ensures
        r@ == nat_text(n as nat),
{
    let mut s = String::new();
    push_nat_text(&mut s, n as u64);
    proof {
        assert(Seq::<char>::empty() + nat_text(n as nat) =~= nat_text(n as nat));
    }
    s
}

// ---------------------------------------------------------------- quoted strings

/// Characters that are shown as `\u{..}` in a quoted string: the control
/// characters, and the Latin-1 ones that are not printable.
pub open spec fn is_hidden_char(c: char) -> bool {
    let n = c as u32;
    n < 0x20 || (0x7f <= n && n <= 0xa0) || n == 0xad
}

/// How one character is written inside a quoted string.
pub open spec fn escape_debug(c: char) -> Seq<char> {
    if c == '\0' {
        seq!['\\', '0']
    } else if c == '\t' {
        seq!['\\', 't']
    } else if c == '\r' {
        seq!['\\', 'r']
    } else if c == '\n' {
        seq!['\\', 'n']
    } else if c == '"' {
        seq!['\\', '"']
    } else if c == '\\' {
        seq!['\\', '\\']
    } else if is_hidden_char(c) {
        seq!['\\', 'u', '{'] + hex_text(c as nat) + seq!['}']
    } else {
        seq![c]
    }
}

/// The characters of `s`, each written as inside a quoted string.
pub open spec fn escaped_chars(s: Seq<char>) -> Seq<char>
    decreases s.len(),
{
    if s.len() == 0 {
        seq![]
    } else {
        escaped_chars(s.drop_last()) + escape_debug(s.last())
    }
}

/// `s` between double quotes, with quotes, backslashes and hidden characters escaped.
pub open spec fn quoted(s: Seq<char>) -> Seq<char> {
    seq!['"'] + escaped_chars(s) + seq!['"']
}

fn push_escaped_char(s: &mut String, c: char)
    ensures
        final(s)@ == old(s)@ + escape_debug(c),
{
    let n = c as u32;
    if c == '\0' {
        s.push('\\');
        s.push('0');
    } else if c == '\t' {
        s.push('\\');
        s.push('t');
    } else if c == '\r' {
        s.push('\\');
        s.push('r');
    } else if c == '\n' {
        s.push('\\');
        s.push('n');
    } else if c == '"' {
        s.push('\\');
        s.push('"');
    } else if c == '\\' {
        s.push('\\');
        s.push('\\');
    } else if n < 0x20 || (0x7f <= n && n <= 0xa0) || n == 0xad {
        s.push('\\');
        s.push('u');
        s.push('{');
        push_hex_text(s, n as u64);
        s.push('}');
        proof {
            assert(old(s)@.push('\\').push('u').push('{') + hex_text(n as nat) =~= old(s)@ + seq![
                '\\',
                'u',
                '{',
            ] + hex_text(n as nat));
            assert((old(s)@ + seq!['\\', 'u', '{'] + hex_text(n as nat)).push('}') =~= old(s)@ + (
            seq!['\\', 'u', '{'] + hex_text(c as nat) + seq!['}']));
        }
        return ;
    } else {
        s.push(c);
    }
    proof {
        assert(final(s)@ =~= old(s)@ + escape_debug(c));
    }
}

/// Appends `t` between double quotes, escaped as [`quoted`] says.
pub(crate) fn push_quoted(s: &mut String, t: &str)
    ensures
        final(s)@ == old(s)@ + quoted(t@),
{
    s.push('"');
    let n = t.unicode_len();
    let mut i: usize = 0;
    proof {
        assert(t@.take(0) =~= Seq::<char>::empty());
        assert(old(s)@.push('"') =~= old(s)@ + seq!['"'] + escaped_chars(t@.take(0)));
    }
    while i < n
        invariant
            n == t@.len(),
            i <= n,
            s@ == old(s)@ + seq!['"'] + escaped_chars(t@.take(i as int)),
        decreases n - i,
    {
        let c = t.get_char(i);
        proof {
            assert(t@.take(i + 1).drop_last() =~= t@.take(i as int));
        }
        push_escaped_char(s, c);
        proof {
            assert(s@ =~= old(s)@ + seq!['"'] + escaped_chars(t@.take(i + 1)));
        }
        i = i + 1;
    }
    s.push('"');
    proof {
        assert(t@.take(n as int) =~= t@);
        assert(s@ =~= old(s)@ + quoted(t@));
    }
}

} // verus!
