//! Character-level helpers: ASCII case folding and conversions between
//! strings and character vectors.
use vstd::prelude::*;
use vstd::string::StringExecFns;

verus! {

/// ASCII lower case of one character; other characters are kept.
pub open spec fn lower_char(c: char) -> char {
    if 'A' <= c && c <= 'Z' {
        ((c as u32) + 32) as char
    } else {
        c
    }
}

/// ASCII upper case of one character; other characters are kept.
pub open spec fn upper_char(c: char) -> char {
    if 'a' <= c && c <= 'z' {
        ((c as u32) - 32) as char
    } else {
        c
    }
}

/// ASCII lower case of a string.
pub open spec fn ascii_lower(s: Seq<char>) -> Seq<char> {
    s.map_values(|c: char| lower_char(c))
}

/// ASCII upper case of a string.
pub open spec fn ascii_upper(s: Seq<char>) -> Seq<char> {
    s.map_values(|c: char| upper_char(c))
}

/// Relies on `str::to_ascii_lowercase`: maps `A`..`Z` to `a`..`z` and keeps
/// every other character.
#[verifier::external_body]
pub(crate) fn to_ascii_lowercase(s: &str) -> (r: String)
    ensures
        r@ == ascii_lower(s@),
{
    s.to_ascii_lowercase()
}

/// Relies on `str::to_ascii_uppercase`: maps `a`..`z` to `A`..`Z` and keeps
/// every other character.
#[verifier::external_body]
pub(crate) fn to_ascii_uppercase(s: &str) -> (r: String)
    ensures
        r@ == ascii_upper(s@),
{
    s.to_ascii_uppercase()
}

/// Relies on `str::chars`: the characters of the string, in order.
#[verifier::external_body]
pub(crate) fn chars_of(s: &str) -> (r: Vec<char>)
    ensures
        r@ == s@,
{
    s.chars().collect()
}

/// Relies on `String: FromIterator<char>`: the string of these characters.
#[verifier::external_body]
pub(crate) fn string_of_chars(cs: &[char]) -> (r: String)
    ensures
        r@ == cs@,
{
    cs.iter().collect()
}

/// Whether `s` holds exactly the characters of `w`.
pub fn str_is(s: &str, w: &str) -> (r: bool)
    ensures
        r == (s@ == w@),
{
    let a = String::from_str(s);
    let b = String::from_str(w);
    a == b
}

/// Whether two strings are equal up to ASCII case.
pub fn eq_ignore_ascii_case(a: &str, b: &str) -> (r: bool)
    ensures
        r == (ascii_lower(a@) == ascii_lower(b@)),
{
    let la = to_ascii_lowercase(a);
    let lb = to_ascii_lowercase(b);
    la == lb
}

} // verus!
