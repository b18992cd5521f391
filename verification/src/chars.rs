//! Character classes and character-level helpers.
//!
//! The casing rules of this generator follow Unicode: whether a character is
//! uppercase or lowercase, and what its uppercase mapping is, come from the
//! standard library. For ASCII those answers are fixed and stated outright;
//! beyond ASCII they are only named, so every contract built on them is exact
//! relative to the Unicode tables without restating those tables.

use vstd::prelude::*;
use vstd::string::StrSliceExecFns;

verus! {

/// Unicode `Uppercase` property of a non-ASCII character, as decided by
/// `char::is_uppercase`.
pub uninterp spec fn unicode_is_uppercase(c: char) -> bool;

/// Unicode `Lowercase` property of a non-ASCII character, as decided by
/// `char::is_lowercase`.
pub uninterp spec fn unicode_is_lowercase(c: char) -> bool;

/// Unicode `White_Space` property of a non-ASCII character, as decided by
/// `char::is_whitespace`.
pub uninterp spec fn unicode_is_whitespace(c: char) -> bool;

/// Unicode uppercase mapping of a non-ASCII character, as yielded by
/// `char::to_uppercase`.
pub uninterp spec fn unicode_uppercase_chars(c: char) -> Seq<char>;

pub open spec fn is_ascii_char(c: char) -> bool {
    (c as u32) < 128
}

/// Whether `c` has the Unicode `Uppercase` property. On ASCII that is exactly
/// `'A'..='Z'`.
pub open spec fn is_upper_char(c: char) -> bool {
    if is_ascii_char(c) {
        65 <= c as u32 && c as u32 <= 90
    } else {
        unicode_is_uppercase(c)
    }
}

/// Whether `c` has the Unicode `Lowercase` property. On ASCII that is exactly
/// `'a'..='z'`.
pub open spec fn is_lower_char(c: char) -> bool {
    if is_ascii_char(c) {
        97 <= c as u32 && c as u32 <= 122
    } else {
        unicode_is_lowercase(c)
    }
}

/// Whether `c` has the Unicode `White_Space` property. On ASCII that is space
/// and the five control characters `\t`, `\n`, vertical tab, form feed, `\r`.
pub open spec fn is_space_char(c: char) -> bool {
    if is_ascii_char(c) {
        c as u32 == 32 || (9 <= c as u32 && c as u32 <= 13)
    } else {
        unicode_is_whitespace(c)
    }
}

/// The Unicode uppercase mapping of `c`, one or more characters. On ASCII it
/// maps `'a'..='z'` to `'A'..='Z'` and leaves every other character alone.
pub open spec fn upper_chars_of(c: char) -> Seq<char> {
    if is_ascii_char(c) {
        if is_lower_char(c) {
            seq![(((c as u32) - 32) as u8) as char]
        } else {
            seq![c]
        }
    } else {
        unicode_uppercase_chars(c)
    }
}

/// Relies on `char::is_uppercase` (the Unicode `Uppercase` property): on
/// ASCII it holds exactly for `'A'..='Z'`; elsewhere its verdict is named by
/// `unicode_is_uppercase`.
#[verifier::external_body]
pub(crate) fn char_is_uppercase(c: char) -> (r: bool)
    ensures
        r == is_upper_char(c),
        !is_ascii_char(c) ==> r == unicode_is_uppercase(c),
{
    c.is_uppercase()
}

/// Relies on `char::is_lowercase` (the Unicode `Lowercase` property): on
/// ASCII it holds exactly for `'a'..='z'`; elsewhere its verdict is named by
/// `unicode_is_lowercase`.
#[verifier::external_body]
pub(crate) fn char_is_lowercase(c: char) -> (r: bool)
    ensures
        r == is_lower_char(c),
        !is_ascii_char(c) ==> r == unicode_is_lowercase(c),
{
    c.is_lowercase()
}

/// Relies on `char::is_whitespace` (the Unicode `White_Space` property): on
/// ASCII it holds exactly for space, `\t`, `\n`, vertical tab, form feed and
/// `\r`; elsewhere its verdict is named by `unicode_is_whitespace`.
#[verifier::external_body]
pub(crate) fn char_is_whitespace(c: char) -> (r: bool)
    ensures
        r == is_space_char(c),
        !is_ascii_char(c) ==> r == unicode_is_whitespace(c),
{
    c.is_whitespace()
}

/// Relies on `char::to_uppercase`: yields the Unicode uppercase mapping of
/// `c` (one or more characters; a character without a mapping yields itself).
/// On ASCII that is the ASCII uppercase mapping; elsewhere the yielded
/// characters are named by `unicode_uppercase_chars`.
#[verifier::external_body]
pub(crate) fn char_to_uppercase(c: char) -> (r: Vec<char>)
    ensures
        r@ == upper_chars_of(c),
        !is_ascii_char(c) ==> r@ == unicode_uppercase_chars(c),
{
    c.to_uppercase().collect()
}

/// Relies on `String`'s `FromIterator<char>`: collects exactly the given
/// characters, in order.
#[verifier::external_body]
pub(crate) fn chars_to_string(v: &Vec<char>) -> (r: String)
    ensures
        r@ == v@,
{
    v.iter().collect()
}

/// The characters of `s`, in order, as a vector.
pub(crate) fn str_to_chars(s: &str) -> (r: Vec<char>)
    ensures
        r@ == s@,
{
    let n = s.unicode_len();
    let mut v: Vec<char> = Vec::new();
    let mut i: usize = 0;
    while i < n
        invariant
            i <= n,
            n == s@.len(),
            v@ == s@.take(i as int),
        decreases n - i,
    {
        v.push(s.get_char(i));
        proof {
            assert(s@.take(i + 1) =~= s@.take(i as int).push(s@[i as int]));
        }
        i = i + 1;
    }
    proof {
        assert(s@.take(n as int) =~= s@);
    }
    v
}

} // verus!
