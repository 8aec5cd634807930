//! The character classes of the MessageFormat 2 syntax.
use vstd::prelude::*;

verus! {

/// `content-char`: a character that may stand unescaped in message text.
pub open spec fn content_char(c: char) -> bool {
    let v = c as u32;
    ||| 0x01 <= v <= 0x08
    ||| 0x0B <= v <= 0x0C
    ||| 0x0E <= v <= 0x1F
    ||| 0x21 <= v <= 0x2D
    ||| 0x2F <= v <= 0x3F
    ||| 0x41 <= v <= 0x5B
    ||| 0x5D <= v <= 0x7A
    ||| 0x7E <= v <= 0x2FFF
    ||| 0x3001 <= v <= 0xD7FF
    ||| 0xE000 <= v <= 0x10FFFF
}

/// Whitespace of the syntax: space, tab, carriage return, line feed and
/// ideographic space.
pub open spec fn space_char(c: char) -> bool {
    c == ' ' || c == '\t' || c == '\r' || c == '\n' || c == '\u{3000}'
}

/// Bidirectional marks and isolates that may stand where spaces are optional.
pub open spec fn bidi_char(c: char) -> bool {
    let v = c as u32;
    v == 0x061C || v == 0x200E || v == 0x200F || (0x2066 <= v <= 0x2069)
}

/// `name-start`: a character that may begin a name.
pub open spec fn name_start_char(c: char) -> bool {
    let v = c as u32;
    ||| 0x61 <= v <= 0x7A
    ||| 0x41 <= v <= 0x5A
    ||| v == 0x5F
    ||| 0xC0 <= v <= 0xD6
    ||| 0xD8 <= v <= 0xF6
    ||| 0xF8 <= v <= 0x2FF
    ||| 0x370 <= v <= 0x37D
    ||| 0x37F <= v <= 0x61B
    ||| 0x61D <= v <= 0x1FFF
    ||| 0x200C <= v <= 0x200D
    ||| 0x2070 <= v <= 0x218F
    ||| 0x2C00 <= v <= 0x2FEF
    ||| 0x3001 <= v <= 0xD7FF
    ||| 0xF900 <= v <= 0xFDCF
    ||| 0xFDF0 <= v <= 0xFFFC
    ||| 0x10000 <= v <= 0xEFFFF
}

/// `name-char`: a character that may continue a name.
pub open spec fn name_char(c: char) -> bool {
    let v = c as u32;
    ||| name_start_char(c)
    ||| 0x30 <= v <= 0x39
    ||| v == 0x2D
    ||| v == 0x2E
    ||| v == 0xB7
    ||| 0x300 <= v <= 0x36F
    ||| 0x203F <= v <= 0x2040
}

/// A character that may stand unescaped inside a quoted literal.
pub open spec fn quoted_char(c: char) -> bool {
    content_char(c) || space_char(c) || c == '.' || c == '@' || c == '{' || c == '}'
}

pub fn is_content_char(c: char) -> (r: bool)
    ensures
        r == content_char(c),
{
    let v = c as u32;
    (0x01 <= v && v <= 0x08) || (0x0B <= v && v <= 0x0C) || (0x0E <= v && v <= 0x1F) || (0x21
        <= v && v <= 0x2D) || (0x2F <= v && v <= 0x3F) || (0x41 <= v && v <= 0x5B) || (0x5D <= v
        && v <= 0x7A) || (0x7E <= v && v <= 0x2FFF) || (0x3001 <= v && v <= 0xD7FF) || (0xE000
        <= v && v <= 0x10FFFF)
}

pub fn is_space(c: char) -> (r: bool)
    ensures
        r == space_char(c),
{
    c == ' ' || c == '\t' || c == '\r' || c == '\n' || c == '\u{3000}'
}

pub fn is_bidi(c: char) -> (r: bool)
    ensures
        r == bidi_char(c),
{
    let v = c as u32;
    v == 0x061C || v == 0x200E || v == 0x200F || (0x2066 <= v && v <= 0x2069)
}

pub fn is_name_start(c: char) -> (r: bool)
    ensures
        r == name_start_char(c),
{
    let v = c as u32;
    (0x61 <= v && v <= 0x7A) || (0x41 <= v && v <= 0x5A) || v == 0x5F || (0xC0 <= v && v
        <= 0xD6) || (0xD8 <= v && v <= 0xF6) || (0xF8 <= v && v <= 0x2FF) || (0x370 <= v && v
        <= 0x37D) || (0x37F <= v && v <= 0x61B) || (0x61D <= v && v <= 0x1FFF) || (0x200C <= v
        && v <= 0x200D) || (0x2070 <= v && v <= 0x218F) || (0x2C00 <= v && v <= 0x2FEF) || (
    0x3001 <= v && v <= 0xD7FF) || (0xF900 <= v && v <= 0xFDCF) || (0xFDF0 <= v && v <= 0xFFFC)
        || (0x10000 <= v && v <= 0xEFFFF)
}

pub fn is_name_char(c: char) -> (r: bool)
    ensures
        r == name_char(c),
{
    let v = c as u32;
    is_name_start(c) || (0x30 <= v && v <= 0x39) || v == 0x2D || v == 0x2E || v == 0xB7 || (0x300
        <= v && v <= 0x36F) || (0x203F <= v && v <= 0x2040)
}

pub fn is_quoted_char(c: char) -> (r: bool)
    ensures
        r == quoted_char(c),
{
    is_content_char(c) || is_space(c) || c == '.' || c == '@' || c == '{' || c == '}'
}

/// A valid name: a name-start character followed by name characters.
pub open spec fn valid_name(s: Seq<char>) -> bool {
    &&& s.len() >= 1
    &&& name_start_char(s[0])
    &&& forall|i: int| 1 <= i < s.len() ==> name_char(#[trigger] s[i])
}

/// Whether `name` is a valid MessageFormat 2 name.
pub fn is_valid_name(name: &str) -> (r: bool)
    ensures
        r == valid_name(name@),
{
    let chars = crate::strings::chars_of(name);
    if chars.len() == 0 || !is_name_start(chars[0]) {
        return false;
    }
    let mut i: usize = 1;
    while i < chars.len()
        invariant
            chars@ == name@,
            1 <= i <= chars.len(),
            forall|j: int| 1 <= j < i ==> name_char(#[trigger] chars@[j]),
        decreases chars.len() - i,
    {
        if !is_name_char(chars[i]) {
            return false;
        }
        i = i + 1;
    }
    true
}

/// A decimal digit.
pub open spec fn digit_char(c: char) -> bool {
    0x30 <= (c as u32) <= 0x39
}

pub fn is_digit(c: char) -> (r: bool)
    ensures
        r == digit_char(c),
{
    let v = c as u32;
    0x30 <= v && v <= 0x39
}

} // verus!
