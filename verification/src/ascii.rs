//! ASCII bytes by name, and their classes.

use vstd::prelude::*;

verus! {

pub const TAB: u8 = 0x09;
pub const NEWLINE: u8 = 0x0a;
pub const FORM_FEED: u8 = 0x0c;
pub const RETURN: u8 = 0x0d;
pub const SPACE: u8 = 0x20;
pub const DOUBLE_QUOTE: u8 = 0x22;
pub const HASH: u8 = 0x23;
pub const AMPERSAND: u8 = 0x26;
pub const SINGLE_QUOTE: u8 = 0x27;
pub const OPEN_PAREN: u8 = 0x28;
pub const STAR: u8 = 0x2a;
pub const SLASH: u8 = 0x2f;
pub const DIGIT_0: u8 = 0x30;
pub const DIGIT_9: u8 = 0x39;
pub const COLON: u8 = 0x3a;
pub const GREATER: u8 = 0x3e;
pub const UPPER_A: u8 = 0x41;
pub const UPPER_Z: u8 = 0x5a;
pub const BACKSLASH: u8 = 0x5c;
pub const UNDERSCORE: u8 = 0x5f;
pub const LOWER_A: u8 = 0x61;
pub const LOWER_D: u8 = 0x64;
pub const LOWER_E: u8 = 0x65;
pub const LOWER_F: u8 = 0x66;
pub const LOWER_I: u8 = 0x69;
pub const LOWER_N: u8 = 0x6e;
pub const LOWER_Z: u8 = 0x7a;

pub open spec fn upper_byte(b: u8) -> bool {
    UPPER_A <= b <= UPPER_Z
}

pub open spec fn digit_byte(b: u8) -> bool {
    DIGIT_0 <= b <= DIGIT_9
}

/// Can `b` start an identifier?
pub open spec fn ident_start(b: u8) -> bool {
    b == UNDERSCORE || upper_byte(b) || LOWER_A <= b <= LOWER_Z
}

/// Can `b` continue an identifier?
pub open spec fn ident_continue(b: u8) -> bool {
    ident_start(b) || digit_byte(b)
}

/// ASCII whitespace: space, tab, line feed, form feed, carriage return.
pub open spec fn ascii_space(b: u8) -> bool {
    b == SPACE || b == TAB || b == NEWLINE || b == FORM_FEED || b == RETURN
}

/// The characters of ASCII bytes.
pub open spec fn ascii_text(bytes: Seq<u8>) -> Seq<char> {
    bytes.map_values(|b: u8| b as char)
}

pub fn is_upper_byte(b: u8) -> (r: bool)
    ensures
        r == upper_byte(b),
{
    UPPER_A <= b && b <= UPPER_Z
}

pub fn is_digit_byte(b: u8) -> (r: bool)
    ensures
        r == digit_byte(b),
{
    DIGIT_0 <= b && b <= DIGIT_9
}

pub fn is_ident_start(b: u8) -> (r: bool)
    ensures
        r == ident_start(b),
{
    b == UNDERSCORE || is_upper_byte(b) || (LOWER_A <= b && b <= LOWER_Z)
}

pub fn is_ident_continue(b: u8) -> (r: bool)
    ensures
        r == ident_continue(b),
{
    is_ident_start(b) || is_digit_byte(b)
}

pub fn is_ascii_space(b: u8) -> (r: bool)
    ensures
        r == ascii_space(b),
{
    b == SPACE || b == TAB || b == NEWLINE || b == FORM_FEED || b == RETURN
}

/// The string of the ASCII bytes `src[from..to]`.
pub fn ascii_string(src: &[u8], from: usize, to: usize) -> (r: String)
    requires
        from <= to <= src@.len(),
    ensures
        r@ == ascii_text(src@.subrange(from as int, to as int)),
{
    let mut out = String::new();
    let mut i: usize = from;
    while i < to
        invariant
            from <= i <= to <= src@.len(),
            out@ =~= ascii_text(src@.subrange(from as int, i as int)),
        decreases to - i,
    {
        out.push(src[i] as char);
        i += 1;
    }
    out
}

} // verus!
