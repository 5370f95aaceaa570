//! Letters and their case. For the ASCII characters the answers are spelled out;
//! for all others they are those of the standard library's Unicode tables.
use crate::text;
use vstd::prelude::*;

verus! {

/// Whether `c` is an ASCII character.
pub open spec fn is_ascii_char(c: char) -> bool {
    (c as u32) < 128
}

/// Whether `s` holds nothing but ASCII characters.
pub open spec fn all_ascii(s: Seq<char>) -> bool {
    forall|i: int| 0 <= i < s.len() ==> is_ascii_char(#[trigger] s[i])
}

/// Whether `c` is an ASCII capital letter.
pub open spec fn ascii_upper(c: char) -> bool {
    'A' <= c <= 'Z'
}

/// Whether `c` is an ASCII small letter.
pub open spec fn ascii_lower(c: char) -> bool {
    'a' <= c <= 'z'
}

/// `c` as a small letter, where it is an ASCII capital.
pub open spec fn ascii_to_lower(c: char) -> char {
    if ascii_upper(c) {
        (c as u32 + 32) as char
    } else {
        c
    }
}

/// `c` as a capital, where it is an ASCII small letter.
pub open spec fn ascii_to_upper(c: char) -> char {
    if ascii_lower(c) {
        (c as u32 - 32) as char
    } else {
        c
    }
}

/// What `char::is_alphabetic` answers for `c`.
pub uninterp spec fn unicode_alphabetic(c: char) -> bool;

/// What `char::is_alphanumeric` answers for `c`.
pub uninterp spec fn unicode_alphanumeric(c: char) -> bool;

/// What `char::is_uppercase` answers for `c`.
pub uninterp spec fn unicode_uppercase(c: char) -> bool;

/// What `char::to_lowercase` makes of `c`.
pub uninterp spec fn unicode_char_lower(c: char) -> Seq<char>;

/// What `char::to_uppercase` makes of `c`.
pub uninterp spec fn unicode_char_upper(c: char) -> Seq<char>;

/// What `str::to_lowercase` makes of `s`.
pub uninterp spec fn unicode_lower(s: Seq<char>) -> Seq<char>;

/// Whether `c` is a letter.
pub open spec fn alphabetic(c: char) -> bool {
    if is_ascii_char(c) {
        ascii_upper(c) || ascii_lower(c)
    } else {
        unicode_alphabetic(c)
    }
}

/// Whether `c` is a letter or a digit.
pub open spec fn alphanumeric(c: char) -> bool {
    if is_ascii_char(c) {
        ascii_upper(c) || ascii_lower(c) || '0' <= c <= '9'
    } else {
        unicode_alphanumeric(c)
    }
}

/// Whether `c` is a capital letter.
pub open spec fn uppercase(c: char) -> bool {
    if is_ascii_char(c) {
        ascii_upper(c)
    } else {
        unicode_uppercase(c)
    }
}

/// `c` in lower case.
pub open spec fn char_lower(c: char) -> Seq<char> {
    if is_ascii_char(c) {
        seq![ascii_to_lower(c)]
    } else {
        unicode_char_lower(c)
    }
}

/// `c` in upper case.
pub open spec fn char_upper(c: char) -> Seq<char> {
    if is_ascii_char(c) {
        seq![ascii_to_upper(c)]
    } else {
        unicode_char_upper(c)
    }
}

/// `s` in lower case.
pub open spec fn lower(s: Seq<char>) -> Seq<char> {
    if all_ascii(s) {
        s.map_values(|c: char| ascii_to_lower(c))
    } else {
        unicode_lower(s)
    }
}

/// `char::is_alphabetic`: of the ASCII characters exactly the letters are
/// alphabetic; of the others the result is a function of the character.
#[verifier::external_body]
pub(crate) fn is_alphabetic(c: char) -> (r: bool)
    ensures
        is_ascii_char(c) ==> r == (ascii_upper(c) || ascii_lower(c)),
        !is_ascii_char(c) ==> r == unicode_alphabetic(c),
{
    c.is_alphabetic()
}

/// `char::is_alphanumeric`: of the ASCII characters exactly the letters and digits
/// are alphanumeric; of the others the result is a function of the character.
#[verifier::external_body]
pub(crate) fn is_alphanumeric(c: char) -> (r: bool)
    ensures
        is_ascii_char(c) ==> r == (ascii_upper(c) || ascii_lower(c) || '0' <= c <= '9'),
        !is_ascii_char(c) ==> r == unicode_alphanumeric(c),
{
    c.is_alphanumeric()
}

/// `char::is_uppercase`: of the ASCII characters exactly `A` to `Z` are upper case;
/// of the others the result is a function of the character.
#[verifier::external_body]
pub(crate) fn is_uppercase(c: char) -> (r: bool)
    ensures
        is_ascii_char(c) ==> r == ascii_upper(c),
        !is_ascii_char(c) ==> r == unicode_uppercase(c),
{
    c.is_uppercase()
}

/// `char::to_lowercase`: an ASCII character becomes its one small letter or stays;
/// of the others the result is a function of the character.
#[verifier::external_body]
pub(crate) fn to_lower(c: char) -> (r: Vec<char>)
    ensures
        is_ascii_char(c) ==> r@ == seq![ascii_to_lower(c)],
        !is_ascii_char(c) ==> r@ == unicode_char_lower(c),
{
    c.to_lowercase().collect()
}

/// `char::to_uppercase`: an ASCII character becomes its one capital or stays; of
/// the others the result is a function of the character.
#[verifier::external_body]
pub(crate) fn to_upper(c: char) -> (r: Vec<char>)
    ensures
        is_ascii_char(c) ==> r@ == seq![ascii_to_upper(c)],
        !is_ascii_char(c) ==> r@ == unicode_char_upper(c),
{
    c.to_uppercase().collect()
}

/// `str::to_lowercase`: a text of ASCII characters is changed character by
/// character; of the others the result is a function of the text.
#[verifier::external_body]
fn str_to_lower(s: &str) -> (r: String)
    ensures
        all_ascii(s@) ==> r@ == s@.map_values(|c: char| ascii_to_lower(c)),
        !all_ascii(s@) ==> r@ == unicode_lower(s@),
{
    s.to_lowercase()
}

/// `v` in lower case.
pub fn lower_chars(v: &Vec<char>) -> (r: Vec<char>)
    ensures
        r@ == lower(v@),
{
    let s = text::string_of(v);
    let l = str_to_lower(s.as_str());
    text::chars_of(l.as_str())
}

} // verus!
