//! Character classification and conversions between `String` and `Vec<char>`.
//!
//! The Unicode classes (alphabetic, uppercase, whitespace) and the case
//! mappings are taken from the standard library through trusted declarations;
//! the ASCII decimal-digit test is the library's own.

use vstd::prelude::*;

verus! {

/// A decimal digit in the ASCII range.  `char::is_digit(10)` accepts exactly
/// these ten characters.
pub open spec fn is_digit_char(c: char) -> bool {
    '0' <= c && c <= '9'
}

/// Executable test for [`is_digit_char`].
pub fn digit_char(c: char) -> (r: bool)
    ensures
        r == is_digit_char(c),
{
    '0' <= c && c <= '9'
}

/// The Unicode `Alphabetic` property of a character, as decided by
/// `char::is_alphabetic`.
pub uninterp spec fn alphabetic(c: char) -> bool;

/// The Unicode uppercase property of a character, as decided by
/// `char::is_uppercase`.
pub uninterp spec fn uppercase(c: char) -> bool;

/// The Unicode `White_Space` property of a character, as decided by
/// `char::is_whitespace`.
pub uninterp spec fn whitespace(c: char) -> bool;

/// Relies on `char::is_alphabetic`: the Unicode `Alphabetic` property,
/// a function of the character alone.
pub assume_specification[ char::is_alphabetic ](c: char) -> (r: bool)
    ensures
        r == alphabetic(c),
;

/// Relies on `char::is_uppercase`: the Unicode `Uppercase` property,
/// a function of the character alone.
pub assume_specification[ char::is_uppercase ](c: char) -> (r: bool)
    ensures
        r == uppercase(c),
;

/// Relies on `char::is_whitespace`: the Unicode `White_Space` property,
/// a function of the character alone.
pub assume_specification[ char::is_whitespace ](c: char) -> (r: bool)
    ensures
        r == whitespace(c),
;

/// The Unicode lowercasing of a character sequence, as computed by
/// `str::to_lowercase`: a function of the characters alone.
pub uninterp spec fn lower_of(s: Seq<char>) -> Seq<char>;

/// The Unicode uppercasing of a character sequence, as computed by
/// `str::to_uppercase`: a function of the characters alone.
pub uninterp spec fn upper_of(s: Seq<char>) -> Seq<char>;

/// Relies on `str::to_lowercase`: the result depends on the characters alone;
/// an empty string stays empty.
pub assume_specification[ str::to_lowercase ](s: &str) -> (r: String)
    ensures
        r@ == lower_of(s@),
        s@.len() == 0 ==> r@.len() == 0,
;

/// Relies on `str::to_uppercase`: the result depends on the characters alone;
/// an empty string stays empty.
pub assume_specification[ str::to_uppercase ](s: &str) -> (r: String)
    ensures
        r@ == upper_of(s@),
        s@.len() == 0 ==> r@.len() == 0,
;

/// The characters of a string, as a vector.
pub fn chars_of(s: &str) -> (r: Vec<char>)
    ensures
        r@ == s@,
{
    let n = s.unicode_len();
    let mut v: Vec<char> = Vec::new();
    let mut i: usize = 0;
    while i < n
        invariant
            i <= n,
            n == s@.len(),
            v@ == s@.take(i as int),
        decreases n - i,
    {
        v.push(s.get_char(i));
        i = i + 1;
        proof {
            assert(v@ =~= s@.take(i as int));
        }
    }
    proof {
        assert(v@ =~= s@);
    }
    v
}

/// Relies on `String: FromIterator<char>`: collecting characters yields the
/// string of exactly those characters, in order.
#[verifier::external_body]
pub fn string_from_chars(v: &Vec<char>) -> (r: String)
    ensures
        r@ == v@,
{
    v.iter().collect()
}

/// Whether two strings hold the same characters.
pub fn string_eq(a: &String, b: &String) -> (r: bool)
    ensures
        r == (a@ == b@),
{
    a.eq(b)
}

} // verus!
