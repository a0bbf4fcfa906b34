//! Character properties and string building blocks taken from `std`.
//!
//! The Unicode properties and case mappings of characters are tables of the
//! standard library; each is given a name here and is reached through one
//! small wrapper.

use vstd::prelude::*;
use vstd::string::StringSliceAdditionalSpecFns;
use vstd::utf8::valid_utf8;

verus! {

/// Whether `c` has the Unicode `Lowercase` property (`char::is_lowercase`).
pub uninterp spec fn is_lower_char(c: char) -> bool;

/// Whether `c` has the Unicode `Uppercase` property (`char::is_uppercase`).
pub uninterp spec fn is_upper_char(c: char) -> bool;

/// Whether `c` is alphabetic or numeric (`char::is_alphanumeric`).
pub uninterp spec fn is_alnum_char(c: char) -> bool;

/// The characters that `char::to_uppercase` yields for `c`.
pub uninterp spec fn upper_mapping(c: char) -> Seq<char>;

/// The characters that `char::to_lowercase` yields for `c`.
pub uninterp spec fn lower_mapping(c: char) -> Seq<char>;

/// The string that `str::to_lowercase` returns for the characters `s`.
pub uninterp spec fn lowercase_of_str(s: Seq<char>) -> Seq<char>;

/// Whether `c` is an ASCII character.
pub open spec fn is_ascii_char(c: char) -> bool {
    (c as u32) < 0x80
}

/// `c` with an ASCII uppercase letter mapped to its lowercase letter.
pub open spec fn ascii_lower_char(c: char) -> char {
    if 'A' <= c && c <= 'Z' {
        ((c as u32) + 32) as char
    } else {
        c
    }
}

/// `c` with an ASCII lowercase letter mapped to its uppercase letter.
pub open spec fn ascii_upper_char(c: char) -> char {
    if 'a' <= c && c <= 'z' {
        ((c as u32) - 32) as char
    } else {
        c
    }
}

/// Whether `c` is lowercase: among ASCII characters the letters 'a' to 'z'.
pub open spec fn lower_prop(c: char) -> bool {
    if is_ascii_char(c) {
        'a' <= c && c <= 'z'
    } else {
        is_lower_char(c)
    }
}

/// Whether `c` is uppercase: among ASCII characters the letters 'A' to 'Z'.
pub open spec fn upper_prop(c: char) -> bool {
    if is_ascii_char(c) {
        'A' <= c && c <= 'Z'
    } else {
        is_upper_char(c)
    }
}

/// Whether `c` is alphanumeric: among ASCII characters the letters and the digits.
pub open spec fn alnum_prop(c: char) -> bool {
    if is_ascii_char(c) {
        ('a' <= c && c <= 'z') || ('A' <= c && c <= 'Z') || ('0' <= c && c <= '9')
    } else {
        is_alnum_char(c)
    }
}

/// The lowercase of `c`: an ASCII character maps to its ASCII lowercase.
pub open spec fn lower_map(c: char) -> Seq<char> {
    if is_ascii_char(c) {
        seq![ascii_lower_char(c)]
    } else {
        lower_mapping(c)
    }
}

/// The uppercase of `c`: an ASCII character maps to its ASCII uppercase.
pub open spec fn upper_map(c: char) -> Seq<char> {
    if is_ascii_char(c) {
        seq![ascii_upper_char(c)]
    } else {
        upper_mapping(c)
    }
}

/// Whether `c` is one of the ASCII digits `'0'..='9'` (`char::is_ascii_digit`).
pub open spec fn is_ascii_digit_char(c: char) -> bool {
    '0' <= c && c <= '9'
}

/// Calls `char::is_lowercase`, whether `c` has the Unicode `Lowercase`
/// property: among ASCII characters the letters 'a' to 'z'; otherwise the
/// result is named by [is_lower_char].
#[verifier::external_body]
pub(crate) fn char_is_lowercase(c: char) -> (b: bool)
    ensures
        is_ascii_char(c) ==> b == ('a' <= c && c <= 'z'),
        !is_ascii_char(c) ==> b == is_lower_char(c),
{
    c.is_lowercase()
}

/// Calls `char::is_uppercase`, whether `c` has the Unicode `Uppercase`
/// property: among ASCII characters the letters 'A' to 'Z'; otherwise the
/// result is named by [is_upper_char].
#[verifier::external_body]
pub(crate) fn char_is_uppercase(c: char) -> (b: bool)
    ensures
        is_ascii_char(c) ==> b == ('A' <= c && c <= 'Z'),
        !is_ascii_char(c) ==> b == is_upper_char(c),
{
    c.is_uppercase()
}

/// Calls `char::is_alphanumeric`, whether `c` is alphabetic or numeric:
/// among ASCII characters the letters and the digits; otherwise the result
/// is named by [is_alnum_char].
#[verifier::external_body]
pub(crate) fn char_is_alphanumeric(c: char) -> (b: bool)
    ensures
        is_ascii_char(c) ==> b == (('a' <= c && c <= 'z') || ('A' <= c && c <= 'Z') || ('0' <= c && c <= '9')),
        !is_ascii_char(c) ==> b == is_alnum_char(c),
{
    c.is_alphanumeric()
}

/// Collects `char::to_uppercase` into a string: an ASCII character gives its
/// ASCII uppercase; otherwise the result is named by [upper_mapping].
#[verifier::external_body]
pub(crate) fn char_to_uppercase(c: char) -> (s: String)
    ensures
        is_ascii_char(c) ==> s@ == seq![ascii_upper_char(c)],
        !is_ascii_char(c) ==> s@ == upper_mapping(c),
{
    c.to_uppercase().collect()
}

/// Collects `char::to_lowercase` into a string: an ASCII character gives its
/// ASCII lowercase; otherwise the result is named by [lower_mapping].
#[verifier::external_body]
pub(crate) fn char_to_lowercase(c: char) -> (s: String)
    ensures
        is_ascii_char(c) ==> s@ == seq![ascii_lower_char(c)],
        !is_ascii_char(c) ==> s@ == lower_mapping(c),
{
    c.to_lowercase().collect()
}

/// Calls `str::to_lowercase`; the result is named by [lowercase_of_str].
#[verifier::external_body]
pub(crate) fn str_to_lowercase(s: &str) -> (r: String)
    ensures
        r@ == lowercase_of_str(s@),
{
    s.to_lowercase()
}

/// Calls `String::push`, which appends `c` at the end of `s`.
#[verifier::external_body]
pub(crate) fn push_char(s: &mut String, c: char)
    ensures
        final(s)@ == old(s)@.push(c),
{
    s.push(c)
}

/// The characters of `s`, in order.
pub fn chars_of(s: &str) -> (v: Vec<char>)
    ensures
        v@ == s@,
{
    broadcast use vstd::string::group_string_axioms;
    let mut v: Vec<char> = Vec::new();
    for c in it: s.chars()
        invariant
            v@ == it.seq().take(it.index() as int),
    {
        v.push(c);
    }
    v
}

/// `b` with an ASCII uppercase letter mapped to its lowercase letter.
pub open spec fn ascii_lower_byte(b: u8) -> u8 {
    if 0x41 <= b && b <= 0x5a {
        (b + 32) as u8
    } else {
        b
    }
}

/// The bytes of `s` with each ASCII uppercase letter mapped to its
/// lowercase letter, as `<[u8]>::to_ascii_lowercase` gives them.
pub fn bytes_to_ascii_lowercase(s: &[u8]) -> (r: Vec<u8>)
    ensures
        r@ == s@.map_values(|b: u8| ascii_lower_byte(b)),
{
    let mut r: Vec<u8> = Vec::new();
    let mut i: usize = 0;
    while i < s.len()
        invariant
            i <= s@.len(),
            r@ == s@.take(i as int).map_values(|b: u8| ascii_lower_byte(b)),
        decreases s.len() - i,
    {
        let b = s[i];
        let lower = if 0x41 <= b && b <= 0x5a {
            b + 32
        } else {
            b
        };
        r.push(lower);
        proof {
            assert(s@.take(i + 1) =~= s@.take(i as int).push(b));
        }
        i = i + 1;
        proof {
            assert(r@ =~= s@.take(i as int).map_values(|b: u8| ascii_lower_byte(b)));
        }
    }
    assert(s@.take(s@.len() as int) =~= s@);
    r
}

/// Calls `std::str::from_utf8`, which gives the string that the bytes `v`
/// encode when they are valid UTF-8, and an error otherwise.
#[verifier::external_body]
pub(crate) fn str_from_utf8(v: &[u8]) -> (r: Option<&str>)
    ensures
        r is Some <==> valid_utf8(v@),
        r matches Some(s) ==> s.spec_bytes() == v@,
{
    std::str::from_utf8(v).ok()
}

} // verus!
