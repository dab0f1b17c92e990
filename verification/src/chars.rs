//! Character classification and lowercasing.
//!
//! The engines decide boundaries from the Unicode character classes that the
//! standard library computes (`is_numeric`, `is_uppercase`, `is_lowercase`,
//! `is_whitespace`, `to_lowercase`). Those tables are named here as
//! uninterpreted functions; the trusted wrappers tie each call to its name
//! and state the ASCII part of each table, which is where the rule semantics
//! live.

use vstd::prelude::*;

verus! {

use vstd::string::StrSliceExecFns;

/// Whether `char::is_numeric` holds of `c`.
pub uninterp spec fn is_numeric_char(c: char) -> bool;

/// Whether `char::is_uppercase` holds of `c`.
pub uninterp spec fn is_uppercase_char(c: char) -> bool;

/// Whether `char::is_lowercase` holds of `c`.
pub uninterp spec fn is_lowercase_char(c: char) -> bool;

/// Whether `char::is_whitespace` holds of `c`.
pub uninterp spec fn is_whitespace_char(c: char) -> bool;

/// What `str::to_lowercase` returns for a string with the characters `s`.
pub uninterp spec fn lower_of(s: Seq<char>) -> Seq<char>;

pub open spec fn ascii_digit(c: char) -> bool {
    '0' as u32 <= c as u32 && c as u32 <= '9' as u32
}

pub open spec fn ascii_upper(c: char) -> bool {
    'A' as u32 <= c as u32 && c as u32 <= 'Z' as u32
}

pub open spec fn ascii_lower(c: char) -> bool {
    'a' as u32 <= c as u32 && c as u32 <= 'z' as u32
}

pub open spec fn char_is_ascii(c: char) -> bool {
    (c as u32) < 128
}

pub open spec fn seq_is_ascii(s: Seq<char>) -> bool {
    forall|i: int| 0 <= i < s.len() ==> char_is_ascii(#[trigger] s[i])
}

/// The ASCII lowercase mapping: `A`-`Z` to `a`-`z`, all else unchanged.
pub open spec fn ascii_lower_char(c: char) -> char {
    if ascii_upper(c) {
        ((c as u32) + 32) as char
    } else {
        c
    }
}

pub open spec fn ascii_lower_seq(s: Seq<char>) -> Seq<char> {
    s.map_values(|c: char| ascii_lower_char(c))
}

/// Relies on `char::is_numeric`: true exactly for characters in the Unicode
/// number categories; among ASCII characters those are the digits `0`-`9`.
#[verifier::external_body]
pub fn char_is_numeric(c: char) -> (r: bool)
    ensures
        r == is_numeric_char(c),
        char_is_ascii(c) ==> r == ascii_digit(c),
{
    c.is_numeric()
}

/// Relies on `char::is_uppercase`: true exactly for characters with the
/// Unicode uppercase property; among ASCII characters those are `A`-`Z`.
#[verifier::external_body]
pub fn char_is_uppercase(c: char) -> (r: bool)
    ensures
        r == is_uppercase_char(c),
        char_is_ascii(c) ==> r == ascii_upper(c),
{
    c.is_uppercase()
}

/// Relies on `char::is_lowercase`: true exactly for characters with the
/// Unicode lowercase property; among ASCII characters those are `a`-`z`.
#[verifier::external_body]
pub fn char_is_lowercase(c: char) -> (r: bool)
    ensures
        r == is_lowercase_char(c),
        char_is_ascii(c) ==> r == ascii_lower(c),
{
    c.is_lowercase()
}

/// Relies on `char::is_whitespace`: true exactly for characters with the
/// Unicode whitespace property; the ASCII ones are space, tab, line feed,
/// vertical tab, form feed and carriage return.
#[verifier::external_body]
pub fn char_is_whitespace(c: char) -> (r: bool)
    ensures
        r == is_whitespace_char(c),
        char_is_ascii(c) ==> r == (c == ' ' || c == '\t' || c == '\n' || c == '\r' || c == '\u{b}'
            || c == '\u{c}'),
{
    c.is_whitespace()
}

/// Relies on `str::to_lowercase`: returns the lowercase equivalent of the
/// string, mapping each character to its Unicode lowercase form. The result
/// is empty exactly for empty input, holds no ASCII capital, is itself
/// unchanged by lowercasing (the mapping is idempotent), and on ASCII input
/// is the per-character ASCII mapping.
#[verifier::external_body]
pub fn lowercase(s: &str) -> (r: String)
    ensures
        r@ == lower_of(s@),
        (r@.len() == 0) == (s@.len() == 0),
        forall|i: int| 0 <= i < r@.len() ==> !ascii_upper(#[trigger] r@[i]),
        lower_of(r@) == r@,
        seq_is_ascii(s@) ==> r@ == ascii_lower_seq(s@),
{
    s.to_lowercase()
}

/// Relies on `String::push`: appends the character to the end of the string.
#[verifier::external_body]
pub fn push_char(s: &mut String, c: char)
    ensures
        final (s)@ == old(s)@.push(c),
{
    s.push(c)
}

/// The characters of `s`, as a vector.
pub fn str_to_chars(s: &str) -> (v: Vec<char>)
    ensures
        v@ == s@,
{
    let n = s.unicode_len();
    let mut v: Vec<char> = Vec::new();
    let mut i: usize = 0;
    while i < n
        invariant
            n == s@.len(),
            0 <= i <= n,
            v@ == s@.take(i as int),
        decreases n - i,
    {
        v.push(s.get_char(i));
        proof {
            assert(s@.take(i + 1) =~= s@.take(i as int).push(s@[i as int]));
        }
        i += 1;
    }
    proof {
        assert(s@.take(n as int) =~= s@);
    }
    v
}

/// A string with exactly the characters of `v`.
pub fn chars_to_string(v: &Vec<char>) -> (s: String)
    ensures
        s@ == v@,
{
    let mut s = String::new();
    let mut i: usize = 0;
    while i < v.len()
        invariant
            0 <= i <= v@.len(),
            s@ == v@.take(i as int),
        decreases v@.len() - i,
    {
        push_char(&mut s, v[i]);
        proof {
            assert(v@.take(i + 1) =~= v@.take(i as int).push(v@[i as int]));
        }
        i += 1;
    }
    proof {
        assert(v@.take(v@.len() as int) =~= v@);
    }
    s
}

/// Whether `c` occurs in `s`.
pub fn str_contains_char(s: &str, c: char) -> (r: bool)
    ensures
        r == s@.contains(c),
{
    let n = s.unicode_len();
    let mut i: usize = 0;
    while i < n
        invariant
            n == s@.len(),
            0 <= i <= n,
            forall|k: int| 0 <= k < i ==> s@[k] != c,
        decreases n - i,
    {
        if s.get_char(i) == c {
            return true;
        }
        i += 1;
    }
    false
}

/// Whether `c` occurs in `v`.
pub fn vec_contains_char(v: &Vec<char>, c: char) -> (r: bool)
    ensures
        r == v@.contains(c),
{
    let mut i: usize = 0;
    while i < v.len()
        invariant
            0 <= i <= v@.len(),
            forall|k: int| 0 <= k < i ==> v@[k] != c,
        decreases v@.len() - i,
    {
        if v[i] == c {
            return true;
        }
        i += 1;
    }
    false
}

} // verus!
