//! Byte values of the ASCII characters that the lexical grammar names.
use vstd::prelude::*;

verus! {

/// line feed
pub const NL: u8 = 10u8;

/// tab
pub const TAB: u8 = 9u8;

/// carriage return
pub const CR: u8 = 13u8;

/// space
pub const SPACE: u8 = 32u8;

/// `#`
pub const HASH: u8 = 35u8;

/// `"`
pub const DQUOTE: u8 = 34u8;

/// `'`
pub const SQUOTE: u8 = 39u8;

/// `\\`
pub const BACKSLASH: u8 = 92u8;

/// `_`
pub const UNDERSCORE: u8 = 95u8;

/// `-`
pub const MINUS: u8 = 45u8;

/// `+`
pub const PLUS: u8 = 43u8;

/// `.`
pub const DOT: u8 = 46u8;

/// `,`
pub const COMMA: u8 = 44u8;

/// `=`
pub const EQUAL: u8 = 61u8;

/// `[`
pub const LBRACKET: u8 = 91u8;

/// `]`
pub const RBRACKET: u8 = 93u8;

/// `{`
pub const LBRACE: u8 = 123u8;

/// `}`
pub const RBRACE: u8 = 125u8;

/// `0`
pub const DIGIT_0: u8 = 48u8;

/// `1`
pub const DIGIT_1: u8 = 49u8;

/// `7`
pub const DIGIT_7: u8 = 55u8;

/// `9`
pub const DIGIT_9: u8 = 57u8;

/// `a`
pub const LOWER_A: u8 = 97u8;

/// `b`
pub const LOWER_B: u8 = 98u8;

/// `e`
pub const LOWER_E: u8 = 101u8;

/// `f`
pub const LOWER_F: u8 = 102u8;

/// `i`
pub const LOWER_I: u8 = 105u8;

/// `l`
pub const LOWER_L: u8 = 108u8;

/// `n`
pub const LOWER_N: u8 = 110u8;

/// `o`
pub const LOWER_O: u8 = 111u8;

/// `r`
pub const LOWER_R: u8 = 114u8;

/// `s`
pub const LOWER_S: u8 = 115u8;

/// `t`
pub const LOWER_T: u8 = 116u8;

/// `u`
pub const LOWER_U: u8 = 117u8;

/// `U`
pub const UPPER_U: u8 = 85u8;

/// `x`
pub const LOWER_X: u8 = 120u8;

/// `z`
pub const LOWER_Z: u8 = 122u8;

/// `A`
pub const UPPER_A: u8 = 65u8;

/// `E`
pub const UPPER_E: u8 = 69u8;

/// `F`
pub const UPPER_F: u8 = 70u8;

/// `Z`
pub const UPPER_Z: u8 = 90u8;

} // verus!
