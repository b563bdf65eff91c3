//! Character classification and small string-building helpers shared by the
//! tokenizer, the parser, and the value module.

use vstd::prelude::*;

verus! {

/// Horizontal whitespace: separates words within one command.
pub open spec fn line_white(c: char) -> bool {
    c == ' ' || c == '\t'
}

/// Block whitespace: also separates commands (newline included).
pub open spec fn block_white(c: char) -> bool {
    c == ' ' || c == '\t' || c == '\n'
}

pub open spec fn octal_digit(c: char) -> bool {
    48 <= c as u32 && c as u32 <= 55
}

pub open spec fn decimal_digit(c: char) -> bool {
    48 <= c as u32 && c as u32 <= 57
}

pub open spec fn binary_digit(c: char) -> bool {
    c == '0' || c == '1'
}

pub open spec fn hex_digit(c: char) -> bool {
    decimal_digit(c) || (97 <= c as u32 && c as u32 <= 102) || (65 <= c as u32 && c as u32 <= 70)
}

/// Numeric value of a digit in any radix up to 16.
pub open spec fn digit_val(c: char) -> int {
    if decimal_digit(c) {
        c as u32 - 48
    } else if 97 <= c as u32 && c as u32 <= 102 {
        c as u32 - 87
    } else if 65 <= c as u32 && c as u32 <= 70 {
        c as u32 - 55
    } else {
        0
    }
}

pub fn is_line_white(c: char) -> (r: bool)
    ensures
        r == line_white(c),
{
    c == ' ' || c == '\t'
}

pub fn is_block_white(c: char) -> (r: bool)
    ensures
        r == block_white(c),
{
    c == ' ' || c == '\t' || c == '\n'
}

pub fn is_octal_digit(c: char) -> (r: bool)
    ensures
        r == octal_digit(c),
{
    let u: u32 = c as u32;
    48 <= u && u <= 55
}

pub fn is_decimal_digit(c: char) -> (r: bool)
    ensures
        r == decimal_digit(c),
{
    let u: u32 = c as u32;
    48 <= u && u <= 57
}

pub fn is_binary_digit(c: char) -> (r: bool)
    ensures
        r == binary_digit(c),
{
    c == '0' || c == '1'
}

pub fn is_hex_digit(c: char) -> (r: bool)
    ensures
        r == hex_digit(c),
{
    let u: u32 = c as u32;
    (48 <= u && u <= 57) || (97 <= u && u <= 102) || (65 <= u && u <= 70)
}

/// Numeric value of a digit character; meaningful only for digits.
pub fn digit_value(c: char) -> (r: u32)
    requires
        hex_digit(c),
    ensures
        r == digit_val(c),
        r < 16,
{
    let u: u32 = c as u32;
    if 48 <= u && u <= 57 {
        u - 48
    } else if 97 <= u && u <= 102 {
        u - 87
    } else {
        u - 55
    }
}

/// Whether the character is alphabetic in the Unicode sense; the class is
/// fixed by the Unicode tables, so it is named rather than written out.
pub uninterp spec fn alphabetic_char(c: char) -> bool;

/// Whether the character is alphanumeric in the Unicode sense.
pub uninterp spec fn alphanumeric_char(c: char) -> bool;

/// A character that may appear in an undelimited variable name:
/// letters, digits, and the underscore.
pub open spec fn varname_char(c: char) -> bool {
    alphanumeric_char(c) || c == '_'
}

/// Relies on char::is_alphabetic: true exactly for Unicode letters,
/// a function of the character alone.
#[verifier::external_body]
pub fn is_alphabetic(c: char) -> (r: bool)
    ensures
        r == alphabetic_char(c),
{
    c.is_alphabetic()
}

/// Relies on char::is_alphanumeric: true exactly for Unicode letters and
/// numeric characters, a function of the character alone.
#[verifier::external_body]
fn is_alphanumeric(c: char) -> (r: bool)
    ensures
        r == alphanumeric_char(c),
{
    c.is_alphanumeric()
}

pub fn is_varname_char(c: char) -> (r: bool)
    ensures
        r == varname_char(c),
{
    is_alphanumeric(c) || c == '_'
}

/// Relies on String::push: appends the given character to the string.
#[verifier::external_body]
pub(crate) fn string_push(s: &mut String, c: char)
    ensures
        final(s)@ == old(s)@.push(c),
{
    s.push(c)
}

/// Relies on char::from_u32: returns the character with the given scalar
/// value, and None exactly for surrogates and values past the last codepoint.
#[verifier::external_body]
pub(crate) fn char_from_u32(v: u32) -> (r: Option<char>)
    ensures
        r is Some <==> (v < 0xD800 || (0xE000 <= v && v <= 0x10FFFF)),
        r matches Some(c) ==> c as u32 == v,
{
    char::from_u32(v)
}

/// Collects the characters of a string slice into a vector.
pub fn str_chars(s: &str) -> (v: Vec<char>)
    ensures
        v@ == s@,
        s@.len() <= usize::MAX,
{
    let n: usize = s.unicode_len();
    let mut v: Vec<char> = Vec::new();
    let mut i: usize = 0;
    while i < n
        invariant
            n == s@.len(),
            i <= n,
            v@ == s@.subrange(0, i as int),
        decreases n - i,
    {
        v.push(s.get_char(i));
        i = i + 1;
        proof {
            assert(v@ =~= s@.subrange(0, i as int));
        }
    }
    proof {
        assert(v@ =~= s@);
    }
    v
}

/// Compares two string slices character by character.
pub fn str_eq(a: &str, b: &str) -> (r: bool)
    ensures
        r == (a@ == b@),
{
    let na: usize = a.unicode_len();
    let nb: usize = b.unicode_len();
    if na != nb {
        return false;
    }
    let mut i: usize = 0;
    while i < na
        invariant
            na == a@.len(),
            na == b@.len(),
            i <= na,
            forall|j: int| 0 <= j < i ==> a@[j] == b@[j],
        decreases na - i,
    {
        if a.get_char(i) != b.get_char(i) {
            return false;
        }
        i = i + 1;
    }
    proof {
        assert(a@ =~= b@);
    }
    true
}

/// Compares a character slice with a string slice.
pub fn chars_eq_str(v: &[char], s: &str) -> (r: bool)
    ensures
        r == (v@ == s@),
{
    let nv: usize = v.len();
    let ns: usize = s.unicode_len();
    if nv != ns {
        return false;
    }
    let mut i: usize = 0;
    while i < nv
        invariant
            nv == v@.len(),
            nv == s@.len(),
            i <= nv,
            forall|j: int| 0 <= j < i ==> v@[j] == s@[j],
        decreases nv - i,
    {
        if v[i] != s.get_char(i) {
            return false;
        }
        i = i + 1;
    }
    proof {
        assert(v@ =~= s@);
    }
    true
}

/// Builds a string from a slice of characters.
pub fn chars_to_string(v: &[char]) -> (s: String)
    ensures
        s@ == v@,
{
    let n: usize = v.len();
    let mut s: String = String::new();
    let mut i: usize = 0;
    while i < n
        invariant
            n == v@.len(),
            i <= n,
            s@ == v@.subrange(0, i as int),
        decreases n - i,
    {
        string_push(&mut s, v[i]);
        i = i + 1;
        proof {
            assert(s@ =~= v@.subrange(0, i as int));
        }
    }
    proof {
        assert(s@ =~= v@);
    }
    s
}

} // verus!
