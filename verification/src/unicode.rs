//! Trusted primitives over Unicode data: character classification predicates,
//! case mappings, grapheme-cluster segmentation, and the conversions between
//! `Vec<char>` and `String` that the rest of the crate builds on.
//!
//! Everything the tokenizer and the title pipeline prove rests on the names
//! declared here; each wrapper states only what the wrapped function's
//! documentation promises.

use vstd::prelude::*;
use vstd::string::StrSliceExecFns;
use unicode_categories::UnicodeCategories;
use unicode_segmentation::UnicodeSegmentation;

verus! {

/// Whether `char::is_whitespace` holds of `c` (the Unicode `White_Space` property).
pub uninterp spec fn unicode_ws(c: char) -> bool;

/// Relies on char::is_whitespace: the Unicode `White_Space` property.
#[verifier::external_body]
pub fn is_ws_char(c: char) -> (r: bool)
    ensures
        r == unicode_ws(c),
{
    c.is_whitespace()
}

/// Whether `char::is_uppercase` holds of `c` (general category `Lu`).
pub uninterp spec fn unicode_upper(c: char) -> bool;

/// Relies on char::is_uppercase: the `Uppercase` property from Unicode.
#[verifier::external_body]
pub fn is_upper_char(c: char) -> (r: bool)
    ensures
        r == unicode_upper(c),
{
    c.is_uppercase()
}

/// Whether `char::is_lowercase` holds of `c` (general category `Ll`).
pub uninterp spec fn unicode_lower(c: char) -> bool;

/// Relies on char::is_lowercase: the `Lowercase` property from Unicode.
#[verifier::external_body]
pub fn is_lower_char(c: char) -> (r: bool)
    ensures
        r == unicode_lower(c),
{
    c.is_lowercase()
}

/// Whether `char::is_numeric` holds of `c` (general categories `Nd`, `Nl`, `No`).
pub uninterp spec fn unicode_numeric(c: char) -> bool;

/// Relies on char::is_numeric: the `N` general categories from Unicode.
#[verifier::external_body]
pub fn is_numeric_char(c: char) -> (r: bool)
    ensures
        r == unicode_numeric(c),
{
    c.is_numeric()
}

/// Whether `char::is_alphabetic` holds of `c` (the `Alphabetic` property).
pub uninterp spec fn unicode_alpha(c: char) -> bool;

/// Relies on char::is_alphabetic: the `Alphabetic` property from Unicode.
#[verifier::external_body]
pub fn is_alpha_char(c: char) -> (r: bool)
    ensures
        r == unicode_alpha(c),
{
    c.is_alphabetic()
}

/// Whether `c` is in Unicode general category `Ps` (open punctuation).
pub uninterp spec fn unicode_open_punct(c: char) -> bool;

/// Relies on unicode_categories::UnicodeCategories::is_punctuation_open:
/// membership in the `PUNCTUATION_OPEN` (`Ps`) table.
#[verifier::external_body]
pub fn is_open_punct_char(c: char) -> (r: bool)
    ensures
        r == unicode_open_punct(c),
{
    c.is_punctuation_open()
}

/// Whether `c` is in Unicode general category `Pe` (close punctuation).
pub uninterp spec fn unicode_close_punct(c: char) -> bool;

/// Relies on unicode_categories::UnicodeCategories::is_punctuation_close:
/// membership in the `PUNCTUATION_CLOSE` (`Pe`) table.
#[verifier::external_body]
pub fn is_close_punct_char(c: char) -> (r: bool)
    ensures
        r == unicode_close_punct(c),
{
    c.is_punctuation_close()
}

/// Whether `c` is in Unicode general category `Lt` (titlecase letter).
pub uninterp spec fn unicode_titlecase(c: char) -> bool;

/// Relies on unicode_categories::UnicodeCategories::is_letter_titlecase:
/// membership in the `LETTER_TITLECASE` (`Lt`) table.
#[verifier::external_body]
pub fn is_titlecase_char(c: char) -> (r: bool)
    ensures
        r == unicode_titlecase(c),
{
    c.is_letter_titlecase()
}

/// The Unicode uppercase mapping of `c`, as `char::to_uppercase` yields it.
pub uninterp spec fn char_upper(c: char) -> Seq<char>;

/// Relies on char::to_uppercase: yields the full Unicode uppercase mapping of
/// `c` as one or more characters.
#[verifier::external_body]
pub fn to_upper_chars(c: char) -> (r: Vec<char>)
    ensures
        r@ == char_upper(c),
        r@.len() >= 1,
{
    c.to_uppercase().collect()
}

/// The Unicode lowercase mapping of a string, as `str::to_lowercase` yields it.
pub uninterp spec fn lower_of(s: Seq<char>) -> Seq<char>;

/// Relies on str::to_lowercase: the full Unicode lowercase mapping, a function
/// of the input characters alone.
#[verifier::external_body]
pub fn to_lower_str(s: &str) -> (r: String)
    ensures
        r@ == lower_of(s@),
{
    s.to_lowercase()
}

/// The Unicode uppercase mapping of a string, as `str::to_uppercase` yields it.
pub uninterp spec fn upper_str_of(s: Seq<char>) -> Seq<char>;

/// Relies on str::to_uppercase: the full Unicode uppercase mapping, a function
/// of the input characters alone.
#[verifier::external_body]
pub fn to_upper_str(s: &str) -> (r: String)
    ensures
        r@ == upper_str_of(s@),
{
    s.to_uppercase()
}

/// The extended grapheme clusters of a character sequence, in order.
pub uninterp spec fn grapheme_split(s: Seq<char>) -> Seq<Seq<char>>;

/// Relies on unicode_segmentation::UnicodeSegmentation::graphemes (extended
/// clusters, UAX #29): the clusters are non-empty consecutive substrings that
/// concatenate back to the input.
#[verifier::external_body]
pub fn graphemes_of(s: &str) -> (r: Vec<String>)
    ensures
        r@.map_values(|g: String| g@) == grapheme_split(s@),
        r@.map_values(|g: String| g@).flatten() == s@,
        forall|i: int| 0 <= i < r@.len() ==> r@[i]@.len() > 0,
{
    s.graphemes(true).map(|g| g.to_string()).collect()
}

/// Relies on String's FromIterator<char> impl: collecting chars concatenates
/// exactly those chars into a string.
#[verifier::external_body]
pub fn string_from_chars(v: &Vec<char>) -> (s: String)
    ensures
        s@ == v@,
{
    v.iter().collect()
}

/// The characters of a string, as a vector.
pub fn chars_vec(s: &str) -> (v: Vec<char>)
    ensures
        v@ == s@,
{
    let n: usize = s.unicode_len();
    let mut v: Vec<char> = Vec::new();
    let mut i: usize = 0;
    while i < n
        invariant
            0 <= i <= n,
            n == s@.len(),
            v@ == s@.take(i as int),
        decreases n - i,
    {
        let c = s.get_char(i);
        v.push(c);
        i = i + 1;
        proof {
            assert(v@ =~= s@.take(i as int));
        }
    }
    proof {
        assert(v@ =~= s@);
    }
    v
}

} // verus!
