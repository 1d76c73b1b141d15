//! Character classes and string building that the scanner relies on.

use vstd::prelude::*;

verus! {

/// Whether a character outside ASCII has the Unicode `Alphabetic` property.
pub uninterp spec fn alphabetic_beyond_ascii(c: char) -> bool;

/// Whether a character outside ASCII is alphabetic or has a Unicode
/// numeric category.
pub uninterp spec fn alphanumeric_beyond_ascii(c: char) -> bool;

pub open spec fn is_ascii(c: char) -> bool {
    (c as u32) < 128
}

/// An ASCII letter.
pub open spec fn is_ascii_letter(c: char) -> bool {
    ('a' <= c && c <= 'z') || ('A' <= c && c <= 'Z')
}

/// An ASCII decimal digit.
pub open spec fn is_ascii_digit(c: char) -> bool {
    '0' <= c && c <= '9'
}

/// Whether a character has the Unicode `Alphabetic` property: within ASCII
/// exactly the letters.
#[verifier::opaque]
pub open spec fn alphabetic(c: char) -> bool {
    if is_ascii(c) {
        is_ascii_letter(c)
    } else {
        alphabetic_beyond_ascii(c)
    }
}

/// Whether a character is alphabetic or numeric: within ASCII exactly the
/// letters and digits.
#[verifier::opaque]
pub open spec fn alphanumeric(c: char) -> bool {
    if is_ascii(c) {
        is_ascii_letter(c) || is_ascii_digit(c)
    } else {
        alphanumeric_beyond_ascii(c)
    }
}

/// Whether a character has the Unicode `White_Space` property.
#[verifier::opaque]
pub open spec fn white_space(c: char) -> bool {
    let u = c as u32;
    ||| 0x09 <= u <= 0x0d
    ||| u == 0x20
    ||| u == 0x85
    ||| u == 0xa0
    ||| u == 0x1680
    ||| 0x2000 <= u <= 0x200a
    ||| u == 0x2028
    ||| u == 0x2029
    ||| u == 0x202f
    ||| u == 0x205f
    ||| u == 0x3000
}

/// Relies on `char::is_alphabetic`: the `Alphabetic` property, which within
/// ASCII holds of the letters alone.
#[verifier::external_body]
pub(crate) fn is_alphabetic(c: char) -> (r: bool)
    ensures
        r == alphabetic(c),
        !is_ascii(c) ==> r == alphabetic_beyond_ascii(c),
{
    c.is_alphabetic()
}

/// Relies on `char::is_alphanumeric`: alphabetic or numeric, which within
/// ASCII holds of the letters and digits alone.
#[verifier::external_body]
pub(crate) fn is_alphanumeric(c: char) -> (r: bool)
    ensures
        r == alphanumeric(c),
        !is_ascii(c) ==> r == alphanumeric_beyond_ascii(c),
{
    c.is_alphanumeric()
}

/// Relies on `char::is_whitespace`: the `White_Space` property.
#[verifier::external_body]
pub(crate) fn is_whitespace(c: char) -> (r: bool)
    ensures
        r == white_space(c),
{
    c.is_whitespace()
}

/// Relies on `String::push`: appends one character at the end.
#[verifier::external_body]
pub(crate) fn push_char(s: &mut String, c: char)
    ensures
        final(s)@ == old(s)@.push(c),
{
    s.push(c)
}

/// The characters `code[start..end]` as a string.
pub(crate) fn collect_chars(code: &Vec<char>, start: usize, end: usize) -> (r: String)
    requires
        start <= end <= code@.len(),
    ensures
        r@ == code@.subrange(start as int, end as int),
{
    let mut s = String::new();
    let mut k: usize = start;
    while k < end
        invariant
            start <= k <= end <= code@.len(),
            s@ == code@.subrange(start as int, k as int),
        decreases end - k,
    {
        push_char(&mut s, code[k]);
        assert(code@.subrange(start as int, k + 1) == code@.subrange(start as int, k as int).push(
            code@[k as int],
        ));
        k = k + 1;
    }
    s
}

/// Whether `code[start..end]` spells `word`.
pub(crate) fn spells(code: &Vec<char>, start: usize, end: usize, word: &str) -> (r: bool)
    requires
        start <= end <= code@.len(),
    ensures
        r == (code@.subrange(start as int, end as int) == word@),
{
    let n = word.unicode_len();
    if end - start != n {
        return false;
    }
    let mut k: usize = 0;
    while k < n
        invariant
            n == word@.len(),
            end - start == n,
            start <= end <= code@.len(),
            k <= n,
            forall|j: int| 0 <= j < k ==> code@[start + j] == word@[j],
        decreases n - k,
    {
        if code[start + k] != word.get_char(k) {
            assert(code@.subrange(start as int, end as int)[k as int] != word@[k as int]);
            return false;
        }
        k = k + 1;
    }
    assert(code@.subrange(start as int, end as int) =~= word@);
    true
}

} // verus!
