//! Laws of the lexical grammar, stated over plain bytes: what a whole document made
//! of one number lexes to.
use vstd::prelude::*;
use crate::config_error::ConfigErrorV;
use crate::lex_spec::{chars_of, decimal_scan, digit_value, digits_value, is_radix_digit, lex, radix_scan, strip_underscores};
use crate::token::{FloatValueV, SpannedTokenV, TokenKindV};

verus! {

/// A decimal digit, `0` to `9`.
pub open spec fn is_decimal_byte(b: u8) -> bool {
    0x30 <= b <= 0x39
}

/// A hexadecimal digit: `0` to `9`, `a` to `f` or `A` to `F`.
pub open spec fn is_hex_byte(b: u8) -> bool {
    (0x30 <= b <= 0x39) || (0x61 <= b <= 0x66) || (0x41 <= b <= 0x46)
}

/// The worth of one hexadecimal digit: `0`-`9` are worth 0 to 9, and the letters
/// `a`-`f` and `A`-`F` alike are worth 10 to 15.
pub open spec fn hex_byte_worth(b: u8) -> int {
    if 0x30 <= b <= 0x39 {
        b - 0x30
    } else if 0x61 <= b <= 0x66 {
        b - 0x61 + 10
    } else {
        b - 0x41 + 10
    }
}

/// The number that a string of hexadecimal digits writes in base sixteen.
pub open spec fn hex_number(d: Seq<u8>) -> int
    decreases d.len(),
{
    if d.len() == 0 {
        0
    } else {
        hex_number(d.drop_last()) * 16 + hex_byte_worth(d.last())
    }
}

/// The one token that a document consisting of a single value lexes to.
pub open spec fn only_token(kind: TokenKindV) -> Result<Seq<SpannedTokenV>, ConfigErrorV> {
    Ok(seq![SpannedTokenV { kind, line: 1, col: 1 }])
}

proof fn lemma_strip_nothing(s: Seq<u8>)
    requires
        forall|k: int| 0 <= k < s.len() ==> #[trigger] s[k] != 0x5f,
    ensures
        strip_underscores(s) == s,
    decreases s.len(),
{
    if s.len() > 0 {
        lemma_strip_nothing(s.drop_last());
        assert(strip_underscores(s.drop_last()).push(s.last()) =~= s);
    }
}

proof fn lemma_hex_value(d: Seq<u8>)
    requires
        forall|k: int| 0 <= k < d.len() ==> is_hex_byte(#[trigger] d[k]),
    ensures
        digits_value(d, 16) == hex_number(d),
    decreases d.len(),
{
    if d.len() > 0 {
        lemma_hex_value(d.drop_last());
        assert(is_hex_byte(d[d.len() - 1]));
        assert(digit_value(d.last()) == hex_byte_worth(d.last()));
    }
}

proof fn lemma_radix_scan_hex(inp: Seq<u8>, i: int)
    requires
        0 <= i <= inp.len(),
        forall|k: int| i <= k < inp.len() ==> is_hex_byte(#[trigger] inp[k]),
    ensures
        radix_scan(inp, 0, i, 16) == Ok::<int, ConfigErrorV>(inp.len() as int),
    decreases inp.len() - i,
{
    if i < inp.len() {
        assert(is_hex_byte(inp[i]));
        assert(is_radix_digit(inp[i], 16));
        lemma_radix_scan_hex(inp, i + 1);
    }
}

/// A `0x` integer is read in base sixteen, with upper- and lower-case letters
/// alike: a document that is `0x` followed by hexadecimal digits whose number fits
/// in an `i64` lexes to one integer token holding that number.
pub proof fn lemma_hex_integer(d: Seq<u8>)
    requires
        d.len() > 0,
        forall|k: int| 0 <= k < d.len() ==> is_hex_byte(#[trigger] d[k]),
        hex_number(d) <= i64::MAX,
    ensures
        lex(seq![0x30u8, 0x78u8] + d, 0) == only_token(TokenKindV::Integer(hex_number(d) as i64)),
{
    let inp = seq![0x30u8, 0x78u8] + d;
    assert forall|k: int| 2 <= k < inp.len() implies is_hex_byte(#[trigger] inp[k]) by {
        assert(inp[k] == d[k - 2]);
    }
    lemma_radix_scan_hex(inp, 2);
    assert(inp.subrange(2, inp.len() as int) =~= d);
    assert forall|k: int| 0 <= k < d.len() implies #[trigger] d[k] != 0x5f by {
        assert(is_hex_byte(d[k]));
    }
    lemma_strip_nothing(d);
    lemma_hex_value(d);
    assert(lex(inp, inp.len() as int) == Ok::<Seq<SpannedTokenV>, ConfigErrorV>(seq![]));
    let t = SpannedTokenV { kind: TokenKindV::Integer(hex_number(d) as i64), line: 1, col: 1 };
    assert(seq![t] + seq![] =~= seq![t]);
}

proof fn lemma_decimal_scan_digits(inp: Seq<u8>, i: int, k: int, has_dot: bool, has_exp: bool)
    requires
        0 <= i <= k <= inp.len(),
        forall|q: int| i <= q < k ==> is_decimal_byte(#[trigger] inp[q]),
    ensures
        decimal_scan(inp, 0, i, has_dot, has_exp) == decimal_scan(inp, 0, k, has_dot, has_exp),
    decreases k - i,
{
    if i < k {
        assert(is_decimal_byte(inp[i]));
        lemma_decimal_scan_digits(inp, i + 1, k, has_dot, has_exp);
    }
}

/// An exponent may be marked by `e` or by `E`: a document made of digits, the
/// marker and digits again lexes to one float token, whose literal is the text as
/// written.
pub proof fn lemma_exponent_float(m: Seq<u8>, marker: u8, x: Seq<u8>)
    requires
        m.len() > 0,
        x.len() > 0,
        forall|k: int| 0 <= k < m.len() ==> is_decimal_byte(#[trigger] m[k]),
        forall|k: int| 0 <= k < x.len() ==> is_decimal_byte(#[trigger] x[k]),
        marker == 0x65 || marker == 0x45,
    ensures
        lex(m.push(marker) + x, 0) == only_token(
            TokenKindV::Float(FloatValueV::Finite(chars_of(m.push(marker) + x))),
        ),
{
    let inp = m.push(marker) + x;
    let l = m.len() as int;
    assert(inp[0] == m[0]);
    assert(is_decimal_byte(m[0]));
    assert(inp[l] == marker);
    assert forall|q: int| 1 <= q < l implies is_decimal_byte(#[trigger] inp[q]) by {
        assert(inp[q] == m[q]);
    }
    assert forall|q: int| l + 1 <= q < inp.len() implies is_decimal_byte(#[trigger] inp[q]) by {
        assert(inp[q] == x[q - l - 1]);
    }
    assert(is_decimal_byte(inp[l + 1]));
    if l > 1 {
        assert(is_decimal_byte(inp[1]));
    }
    lemma_decimal_scan_digits(inp, 1, l, false, false);
    lemma_decimal_scan_digits(inp, l + 2, inp.len() as int, false, true);
    assert(decimal_scan(inp, 0, 1, false, false) == Ok::<(int, bool, bool), ConfigErrorV>(
        (inp.len() as int, false, true),
    ));
    assert(inp.subrange(0, inp.len() as int) =~= inp);
    assert forall|q: int| 0 <= q < inp.len() implies #[trigger] inp[q] != 0x5f by {
        if q != l {
            assert(is_decimal_byte(inp[q]));
        }
    }
    lemma_strip_nothing(inp);
    assert(lex(inp, inp.len() as int) == Ok::<Seq<SpannedTokenV>, ConfigErrorV>(seq![]));
    let t = SpannedTokenV {
        kind: TokenKindV::Float(FloatValueV::Finite(chars_of(inp))),
        line: 1,
        col: 1,
    };
    assert(seq![] + chars_of(inp) =~= chars_of(inp));
    assert(seq![t] + seq![] =~= seq![t]);
}


/// The number that a string of decimal, octal or binary digits writes in base `r`,
/// each digit worth its distance from `0`.
pub open spec fn based_number(d: Seq<u8>, r: int) -> int
    decreases d.len(),
{
    if d.len() == 0 {
        0
    } else {
        based_number(d.drop_last(), r) * r + (d.last() - 0x30)
    }
}

/// A digit of base `r` (two, eight or ten): `0` up to the digit worth `r - 1`.
pub open spec fn is_based_byte(b: u8, r: int) -> bool {
    0x30 <= b && b < 0x30 + r
}

proof fn lemma_based_value(d: Seq<u8>, r: int)
    requires
        r == 2 || r == 8 || r == 10,
        forall|k: int| 0 <= k < d.len() ==> is_based_byte(#[trigger] d[k], r),
    ensures
        digits_value(d, r as nat) == based_number(d, r),
    decreases d.len(),
{
    if d.len() > 0 {
        lemma_based_value(d.drop_last(), r);
        assert(is_based_byte(d[d.len() - 1], r));
    }
}

proof fn lemma_radix_scan_based(inp: Seq<u8>, i: int, r: int)
    requires
        0 <= i <= inp.len(),
        r == 2 || r == 8,
        forall|k: int| i <= k < inp.len() ==> is_based_byte(#[trigger] inp[k], r),
    ensures
        radix_scan(inp, 0, i, r as nat) == Ok::<int, ConfigErrorV>(inp.len() as int),
    decreases inp.len() - i,
{
    if i < inp.len() {
        assert(is_based_byte(inp[i], r));
        assert(is_radix_digit(inp[i], r as nat));
        lemma_radix_scan_based(inp, i + 1, r);
    }
}

/// A `0o` integer is read in base eight and a `0b` integer in base two: a document
/// that is the prefix followed by digits of that base, whose number fits in an
/// `i64`, lexes to one integer token holding that number.
pub proof fn lemma_octal_binary_integer(letter: u8, d: Seq<u8>)
    requires
        letter == 0x6f || letter == 0x62,
        d.len() > 0,
        forall|k: int| 0 <= k < d.len() ==> is_based_byte(#[trigger] d[k], if letter == 0x6f { 8int } else { 2int }),
        based_number(d, if letter == 0x6f { 8int } else { 2int }) <= i64::MAX,
    ensures
        lex(seq![0x30u8, letter] + d, 0) == only_token(
            TokenKindV::Integer(based_number(d, if letter == 0x6f { 8int } else { 2int }) as i64),
        ),
{
    let r: int = if letter == 0x6f { 8 } else { 2 };
    let inp = seq![0x30u8, letter] + d;
    assert forall|k: int| 2 <= k < inp.len() implies is_based_byte(#[trigger] inp[k], r) by {
        assert(inp[k] == d[k - 2]);
    }
    lemma_radix_scan_based(inp, 2, r);
    assert(inp.subrange(2, inp.len() as int) =~= d);
    assert forall|k: int| 0 <= k < d.len() implies #[trigger] d[k] != 0x5f by {
        assert(is_based_byte(d[k], r));
    }
    lemma_strip_nothing(d);
    lemma_based_value(d, r);
    assert(lex(inp, inp.len() as int) == Ok::<Seq<SpannedTokenV>, ConfigErrorV>(seq![]));
    let t = SpannedTokenV { kind: TokenKindV::Integer(based_number(d, r) as i64), line: 1, col: 1 };
    assert(seq![t] + seq![] =~= seq![t]);
}

/// A decimal integer, signed or not, is read in base ten: a document that is an
/// optional `+` or `-` followed by decimal digits lexes to one integer token holding
/// that number, negated after a `-`, as long as it lies within `i64`.
pub proof fn lemma_decimal_integer(sign: Seq<u8>, d: Seq<u8>)
    requires
        sign == Seq::<u8>::empty() || sign == seq![0x2bu8] || sign == seq![0x2du8],
        d.len() > 0,
        forall|k: int| 0 <= k < d.len() ==> is_decimal_byte(#[trigger] d[k]),
        i64::MIN <= (if sign == seq![0x2du8] { -based_number(d, 10) } else { based_number(d, 10) }),
        (if sign == seq![0x2du8] { -based_number(d, 10) } else { based_number(d, 10) }) <= i64::MAX,
    ensures
        lex(sign + d, 0) == only_token(
            TokenKindV::Integer(
                (if sign == seq![0x2du8] { -based_number(d, 10) } else { based_number(d, 10) }) as i64,
            ),
        ),
{
    let inp = sign + d;
    let s = sign.len() as int;
    assert forall|k: int| 0 <= k < d.len() implies is_based_byte(#[trigger] d[k], 10) by {
        assert(is_decimal_byte(d[k]));
    }
    lemma_based_value(d, 10);
    assert forall|q: int| s <= q < inp.len() implies is_decimal_byte(#[trigger] inp[q]) by {
        assert(inp[q] == d[q - s]);
    }
    assert(is_decimal_byte(inp[s]));
    if s + 1 < inp.len() {
        assert(is_decimal_byte(inp[s + 1]));
    }
    lemma_decimal_scan_digits(inp, s + 1, inp.len() as int, false, false);
    assert(inp.subrange(s, inp.len() as int) =~= d);
    assert forall|k: int| 0 <= k < d.len() implies #[trigger] d[k] != 0x5f by {
        assert(is_decimal_byte(d[k]));
    }
    lemma_strip_nothing(d);
    assert(lex(inp, inp.len() as int) == Ok::<Seq<SpannedTokenV>, ConfigErrorV>(seq![]));
    let v: int = if sign == seq![0x2du8] { -based_number(d, 10) } else { based_number(d, 10) };
    let t = SpannedTokenV { kind: TokenKindV::Integer(v as i64), line: 1, col: 1 };
    assert(seq![t] + seq![] =~= seq![t]);
}

/// A fraction makes a float: a document made of digits, a `.` and digits again
/// lexes to one float token, whose literal is the text as written.
pub proof fn lemma_fraction_float(m: Seq<u8>, f: Seq<u8>)
    requires
        m.len() > 0,
        f.len() > 0,
        forall|k: int| 0 <= k < m.len() ==> is_decimal_byte(#[trigger] m[k]),
        forall|k: int| 0 <= k < f.len() ==> is_decimal_byte(#[trigger] f[k]),
    ensures
        lex(m.push(0x2e) + f, 0) == only_token(
            TokenKindV::Float(FloatValueV::Finite(chars_of(m.push(0x2e) + f))),
        ),
{
    let inp = m.push(0x2e) + f;
    let l = m.len() as int;
    assert(inp[0] == m[0]);
    assert(is_decimal_byte(m[0]));
    assert(inp[l] == 0x2e);
    assert forall|q: int| 1 <= q < l implies is_decimal_byte(#[trigger] inp[q]) by {
        assert(inp[q] == m[q]);
    }
    assert forall|q: int| l + 1 <= q < inp.len() implies is_decimal_byte(#[trigger] inp[q]) by {
        assert(inp[q] == f[q - l - 1]);
    }
    assert(is_decimal_byte(inp[l + 1]));
    if l > 1 {
        assert(is_decimal_byte(inp[1]));
    }
    lemma_decimal_scan_digits(inp, 1, l, false, false);
    lemma_decimal_scan_digits(inp, l + 1, inp.len() as int, true, false);
    assert(decimal_scan(inp, 0, 1, false, false) == Ok::<(int, bool, bool), ConfigErrorV>(
        (inp.len() as int, true, false),
    ));
    assert(inp.subrange(0, inp.len() as int) =~= inp);
    assert forall|q: int| 0 <= q < inp.len() implies #[trigger] inp[q] != 0x5f by {
        if q != l {
            assert(is_decimal_byte(inp[q]));
        }
    }
    lemma_strip_nothing(inp);
    assert(lex(inp, inp.len() as int) == Ok::<Seq<SpannedTokenV>, ConfigErrorV>(seq![]));
    let t = SpannedTokenV {
        kind: TokenKindV::Float(FloatValueV::Finite(chars_of(inp))),
        line: 1,
        col: 1,
    };
    assert(seq![] + chars_of(inp) =~= chars_of(inp));
    assert(seq![t] + seq![] =~= seq![t]);
}
} // verus!
