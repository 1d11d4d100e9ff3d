//! Byte values of the ASCII characters that ved's syntax gives a meaning.

use vstd::prelude::*;

verus! {

pub const TAB: u8 = 9;
pub const NEWLINE: u8 = 10;
pub const CARRIAGE_RETURN: u8 = 13;
pub const SPACE: u8 = 32;
pub const DOLLAR: u8 = 36;
pub const AMPERSAND: u8 = 38;
pub const LPAREN: u8 = 40;
pub const RPAREN: u8 = 41;
pub const STAR: u8 = 42;
pub const PLUS: u8 = 43;
pub const COMMA: u8 = 44;
pub const DASH: u8 = 45;
pub const DOT: u8 = 46;
pub const DIGIT_0: u8 = 48;
pub const DIGIT_1: u8 = 49;
pub const DIGIT_7: u8 = 55;
pub const DIGIT_9: u8 = 57;
pub const SEMICOLON: u8 = 59;
pub const LBRACKET: u8 = 91;
pub const BACKSLASH: u8 = 92;
pub const RBRACKET: u8 = 93;
pub const CARET: u8 = 94;
pub const TILDE: u8 = 126;

} // verus!
