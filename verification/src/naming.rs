//! Text utilities for the title heuristic pipeline: whitespace collapsing,
//! character counting, up-only titlecasing, and digit spacing.

use vstd::prelude::*;
use crate::camelcase::{words_of, join_spaces, camelcase_to_spaces};
use crate::filename::{component_of, strip_exts, filename_extensionless};
use crate::overrides::{subtitle_pass, overrides_applied, mark_subtitle, apply_camelcase_fixups};
use crate::unicode::{
    unicode_ws, unicode_alpha, char_upper, upper_str_of, grapheme_split, is_ws_char,
    is_alpha_char, to_upper_chars, to_upper_str, graphemes_of, chars_vec, string_from_chars,
};

verus! {

/// How many of the first `i` characters of `s` equal `c`.
pub open spec fn count_eq(s: Seq<char>, c: char, i: int) -> int
    decreases i,
{
    if i <= 0 {
        0
    } else {
        count_eq(s, c, i - 1) + if s[i - 1] == c { 1int } else { 0int }
    }
}

/// Count the number of occurrences of `needle` in the text.
pub fn count_char(v: &Vec<char>, needle: char) -> (n: usize)
    ensures
        n == count_eq(v@, needle, v@.len() as int),
        n <= v@.len(),
{
    let mut n: usize = 0;
    let mut i: usize = 0;
    while i < v.len()
        invariant
            0 <= i <= v@.len(),
            n == count_eq(v@, needle, i as int),
            n <= i,
        decreases v@.len() - i,
    {
        if v[i] == needle {
            n = n + 1;
        }
        i = i + 1;
    }
    n
}

/// Whether `c` is a separator for word-break normalization: whitespace or an
/// underscore, and, when `with_dash` is set, a dash too.
pub open spec fn sep_char(c: char, with_dash: bool) -> bool {
    unicode_ws(c) || c == '_' || (with_dash && c == '-')
}

/// The first `i` characters with every separator run replaced by one space,
/// paired with whether position `i` sits inside a separator run.
pub open spec fn collapse_pair(s: Seq<char>, i: int, with_dash: bool) -> (Seq<char>, bool)
    decreases i,
{
    if i <= 0 {
        (Seq::empty(), false)
    } else {
        let (t, run) = collapse_pair(s, i - 1, with_dash);
        let c = s[i - 1];
        if sep_char(c, with_dash) {
            if run {
                (t, true)
            } else {
                (t + seq![' '], true)
            }
        } else {
            (t + seq![c], false)
        }
    }
}

/// Every separator run replaced by a single space, as the word-break
/// normalizer's rewrite does it.
pub open spec fn collapse_seps(s: Seq<char>, with_dash: bool) -> Seq<char> {
    collapse_pair(s, s.len() as int, with_dash).0
}

/// Replace each run of separators with a single space.
pub fn collapse_seps_vec(v: &Vec<char>, with_dash: bool) -> (out: Vec<char>)
    ensures
        out@ == collapse_seps(v@, with_dash),
{
    let mut out: Vec<char> = Vec::new();
    let mut run: bool = false;
    let mut i: usize = 0;
    while i < v.len()
        invariant
            0 <= i <= v@.len(),
            out@ == collapse_pair(v@, i as int, with_dash).0,
            run == collapse_pair(v@, i as int, with_dash).1,
        decreases v@.len() - i,
    {
        let c = v[i];
        let is_sep = is_ws_char(c) || c == '_' || (with_dash && c == '-');
        if is_sep {
            if !run {
                out.push(' ');
            }
            run = true;
        } else {
            out.push(c);
            run = false;
        }
        i = i + 1;
    }
    out
}

/// The first `i` characters split on whitespace runs and rejoined with single
/// spaces (no leading or trailing space), paired with whether position `i`
/// follows a whitespace run or the start of the string.
pub open spec fn squeeze_pair(s: Seq<char>, i: int) -> (Seq<char>, bool)
    decreases i,
{
    if i <= 0 {
        (Seq::empty(), true)
    } else {
        let (t, run) = squeeze_pair(s, i - 1);
        let c = s[i - 1];
        if unicode_ws(c) {
            (t, true)
        } else if run && t.len() > 0 {
            (t + seq![' ', c], false)
        } else {
            (t + seq![c], false)
        }
    }
}

/// The text split on whitespace runs and rejoined with single spaces, which
/// also trims leading and trailing whitespace.
pub open spec fn squeeze_ws(s: Seq<char>) -> Seq<char> {
    squeeze_pair(s, s.len() as int).0
}

/// Collapse whitespace runs to single spaces and trim both ends.
pub fn squeeze_ws_vec(v: &Vec<char>) -> (out: Vec<char>)
    ensures
        out@ == squeeze_ws(v@),
{
    let mut out: Vec<char> = Vec::new();
    let mut run: bool = true;
    let mut i: usize = 0;
    while i < v.len()
        invariant
            0 <= i <= v@.len(),
            out@ == squeeze_pair(v@, i as int).0,
            run == squeeze_pair(v@, i as int).1,
        decreases v@.len() - i,
    {
        let c = v[i];
        if is_ws_char(c) {
            run = true;
        } else {
            if run && out.len() > 0 {
                out.push(' ');
            }
            out.push(c);
            run = false;
        }
        i = i + 1;
    }
    out
}

/// The characters that begin a new word for up-only titlecasing.
pub open spec fn is_word_boundary(c: char) -> bool {
    c == ' ' || c == '.' || c == '_' || c == '-'
}

/// The titlecased suffix of `s` from position `i`, where `boundary` says
/// whether the previous character was a word boundary: each character that
/// follows a boundary is replaced by its uppercase mapping, every other
/// character is kept as it is.
pub open spec fn title_from(s: Seq<char>, i: int, boundary: bool) -> Seq<char>
    decreases s.len() - i,
{
    if i < 0 || i >= s.len() {
        Seq::empty()
    } else {
        (if boundary {
            char_upper(s[i])
        } else {
            seq![s[i]]
        }) + title_from(s, i + 1, is_word_boundary(s[i]))
    }
}

/// The up-only titlecased form of a text: uppercase after every word
/// boundary (the start of the string counts as one), never lowercase.
pub open spec fn title_up(s: Seq<char>) -> Seq<char> {
    title_from(s, 0, true)
}

/// Return a titlecased copy of the input with two changes to the usual
/// algorithm: never convert upper to lower (so acronyms survive), and treat
/// any of space, period, underscore, and dash as preceding a new word.
pub fn titlecase_up(s: &str) -> (r: String)
    ensures
        r@ == title_up(s@),
{
    let v = chars_vec(s);
    let mut out: Vec<char> = Vec::new();
    let mut boundary: bool = true;
    let mut i: usize = 0;
    while i < v.len()
        invariant
            0 <= i <= v@.len(),
            v@ == s@,
            out@ + title_from(v@, i as int, boundary) == title_up(v@),
        decreases v@.len() - i,
    {
        let c = v[i];
        let ghost out_old = out@;
        if boundary {
            let u = to_upper_chars(c);
            let mut j: usize = 0;
            while j < u.len()
                invariant
                    0 <= j <= u@.len(),
                    out@ == out_old + u@.take(j as int),
                decreases u@.len() - j,
            {
                out.push(u[j]);
                proof {
                    assert(out@ =~= out_old + u@.take(j as int + 1));
                }
                j = j + 1;
            }
            proof {
                assert(u@.take(u@.len() as int) =~= u@);
            }
        } else {
            out.push(c);
            proof {
                assert(out@ =~= out_old + seq![c]);
            }
        }
        boundary = c == ' ' || c == '.' || c == '_' || c == '-';
        proof {
            assert(out@ + title_from(v@, i as int + 1, boundary) =~= title_up(v@));
        }
        i = i + 1;
    }
    string_from_chars(&out)
}

/// A character whose uppercase mapping is a single character, which maps to
/// itself under a second uppercasing and lies on a word boundary exactly when
/// the original does.  This holds of ASCII and of virtually every script;
/// only exotic mappings (such as expanding ligatures) fall outside it.
pub open spec fn upper_stable(c: char) -> bool {
    &&& char_upper(c).len() == 1
    &&& char_upper(char_upper(c)[0]) == char_upper(c)
    &&& is_word_boundary(char_upper(c)[0]) == is_word_boundary(c)
}

proof fn lemma_title_shift(s: Seq<char>, i: int, b: bool)
    requires
        0 <= i,
        s.len() >= 1,
    ensures
        title_from(s, i + 1, b) == title_from(s.drop_first(), i, b),
    decreases s.len() - i,
{
    if i + 1 >= s.len() {
    } else {
        assert(s.drop_first()[i] == s[i + 1]);
        lemma_title_shift(s, i + 1, is_word_boundary(s[i + 1]));
    }
}

proof fn lemma_title_idem_rec(s: Seq<char>, b: bool)
    requires
        forall|j: int| 0 <= j < s.len() ==> upper_stable(#[trigger] s[j]),
    ensures
        title_from(title_from(s, 0, b), 0, b) == title_from(s, 0, b),
    decreases s.len(),
{
    if s.len() == 0 {
    } else {
        let c = s[0];
        let rest = s.drop_first();
        let bd = is_word_boundary(c);
        assert(forall|j: int| 0 <= j < rest.len() ==> upper_stable(#[trigger] rest[j]))
            by {
            assert(forall|j: int| 0 <= j < rest.len() ==> rest[j] == s[j + 1]);
        }
        lemma_title_shift(s, 0, bd);
        lemma_title_idem_rec(rest, bd);
        let tr = title_from(rest, 0, bd);
        if b {
            let d = char_upper(c)[0];
            assert(char_upper(c) =~= seq![d]);
            let u = seq![d] + tr;
            assert(title_from(s, 0, b) == u);
            assert(u.len() > 0 && u[0] == d);
            assert(title_from(u, 0, b) == char_upper(d) + title_from(u, 1, is_word_boundary(d)));
            lemma_title_shift(u, 0, is_word_boundary(d));
            assert(u.drop_first() =~= tr);
            assert(is_word_boundary(d) == bd);
            assert(char_upper(d) == seq![d]);
            assert(title_from(u, 0, b) == seq![d] + title_from(tr, 0, bd));
            assert(title_from(tr, 0, bd) == tr);
        } else {
            let u = seq![c] + tr;
            assert(title_from(s, 0, b) == u);
            assert(u.len() > 0 && u[0] == c);
            lemma_title_shift(u, 0, is_word_boundary(c));
            assert(u.drop_first() =~= tr);
            assert(title_from(u, 0, b) == seq![c] + title_from(tr, 0, bd));
            assert(title_from(tr, 0, bd) == tr);
        }
    }
}

/// Up-only titlecasing is idempotent: applying it to its own output changes
/// nothing, for every input whose characters have stable single-character
/// uppercase mappings.
pub proof fn lemma_titlecase_up_idempotent(s: Seq<char>)
    requires
        forall|j: int| 0 <= j < s.len() ==> upper_stable(#[trigger] s[j]),
    ensures
        title_up(title_up(s)) == title_up(s),
{
    lemma_title_idem_rec(s, true);
}

/// Whether `c` is an ASCII decimal digit.
pub open spec fn ascii_digit(c: char) -> bool {
    48 <= c as u32 <= 57
}

/// The first `i` characters with a space inserted between an alphabetic
/// character and an immediately following ASCII digit, paired with whether
/// the last of those characters is alphabetic.
pub open spec fn digit_pair(s: Seq<char>, i: int) -> (Seq<char>, bool)
    decreases i,
{
    if i <= 0 {
        (Seq::empty(), false)
    } else {
        let (t, la) = digit_pair(s, i - 1);
        let c = s[i - 1];
        let t2 = if la && ascii_digit(c) {
            t + seq![' ', c]
        } else {
            t + seq![c]
        };
        (t2, unicode_alpha(c))
    }
}

/// The text with a space inserted before every ASCII digit that directly
/// follows an alphabetic character.
pub open spec fn digit_spaced(s: Seq<char>) -> Seq<char> {
    digit_pair(s, s.len() as int).0
}

/// Insert a space between an alphabetic character and a digit that follows it.
pub fn digit_space_vec(v: &Vec<char>) -> (out: Vec<char>)
    ensures
        out@ == digit_spaced(v@),
{
    let mut out: Vec<char> = Vec::new();
    let mut last_alpha: bool = false;
    let mut i: usize = 0;
    while i < v.len()
        invariant
            0 <= i <= v@.len(),
            out@ == digit_pair(v@, i as int).0,
            last_alpha == digit_pair(v@, i as int).1,
        decreases v@.len() - i,
    {
        let c = v[i];
        let u = c as u32;
        if last_alpha && 48 <= u && u <= 57 {
            out.push(' ');
            out.push(c);
        } else {
            out.push(c);
        }
        last_alpha = is_alpha_char(c);
        i = i + 1;
    }
    out
}

/// How many of the first `i` characters are nameable: neither whitespace nor
/// the Unicode replacement character.
pub open spec fn nameable_count(s: Seq<char>, i: int) -> int
    decreases i,
{
    if i <= 0 {
        0
    } else {
        nameable_count(s, i - 1) + if unicode_ws(s[i - 1]) || s[i - 1] == '\u{FFFD}' {
            0int
        } else {
            1int
        }
    }
}

/// Count the characters that could contribute to a title: everything but
/// whitespace and the replacement character.
pub fn count_nameable(v: &Vec<char>) -> (n: usize)
    ensures
        n == nameable_count(v@, v@.len() as int),
        n <= v@.len(),
{
    let mut n: usize = 0;
    let mut i: usize = 0;
    while i < v.len()
        invariant
            0 <= i <= v@.len(),
            n == nameable_count(v@, i as int),
            n <= i,
        decreases v@.len() - i,
    {
        let c = v[i];
        if !(is_ws_char(c) || c == '\u{FFFD}') {
            n = n + 1;
        }
        i = i + 1;
    }
    n
}

/// The normalized form of a file name's word breaks: when underscores or
/// dashes are present, the majority delimiter's runs (together with
/// whitespace) become single spaces — ties favor converting dashes, and the
/// minority delimiter is left alone; with neither present, the camelcase
/// words are rejoined with single spaces.
pub open spec fn norm_ws(s: Seq<char>) -> Seq<char> {
    let u = count_eq(s, '_', s.len() as int);
    let d = count_eq(s, '-', s.len() as int);
    if u > 0 || d > 0 {
        if u > d {
            collapse_seps(s, false)
        } else {
            collapse_seps(s, true)
        }
    } else {
        join_spaces(words_of(grapheme_split(s)))
    }
}

/// Heuristically normalize word breaks in a file name that may be using
/// non-whitespace characters such as underscores, dashes, or camelcasing.
pub fn normalize_whitespace(in_str: &str) -> (r: String)
    ensures
        r@ == norm_ws(in_str@),
{
    let v = chars_vec(in_str);
    let underscore_count = count_char(&v, '_');
    let dash_count = count_char(&v, '-');
    if underscore_count > 0 || dash_count > 0 {
        let out = if underscore_count > dash_count {
            // Keep things like "X-Com Collection" from losing their dashes.
            collapse_seps_vec(&v, false)
        } else {
            collapse_seps_vec(&v, true)
        };
        string_from_chars(&out)
    } else {
        camelcase_to_spaces(in_str)
    }
}

/// The title candidate for a path, before the override pass: the final
/// component with recognized extensions stripped, whitespace pre-collapsed,
/// word breaks normalized, subtitle colons inserted, titlecased upward,
/// digits spaced, short names (under three grapheme clusters) uppercased
/// whole, and whitespace cleaned up.
pub open spec fn name_candidate(p: Seq<char>) -> Seq<char> {
    let f1 = strip_exts(component_of(p));
    let f2 = squeeze_ws(f1);
    let f3 = norm_ws(f2);
    let f4 = subtitle_pass(f3);
    let f5 = title_up(f4);
    let f6 = digit_spaced(f5);
    let f7 = if grapheme_split(f6).len() < 3 {
        upper_str_of(f6)
    } else {
        f6
    };
    squeeze_ws(f7)
}

/// Heuristically transform a path or file/directory name into a guess at the
/// title its final component is meant to carry.
///
/// Returns nothing — rather than an empty string — when the candidate holds
/// no characters besides whitespace and the Unicode replacement character;
/// otherwise the candidate with the override table applied.  Short names are
/// measured in grapheme clusters, not bytes.
pub fn filename_to_name(path: &str) -> (r: Option<String>)
    ensures
        r is Some <==> nameable_count(name_candidate(path@), name_candidate(path@).len() as int)
            > 0,
        r is Some ==> r->0@ == overrides_applied(name_candidate(path@)),
{
    let f1 = filename_extensionless(path);
    let f1v = chars_vec(f1.as_str());
    let f2v = squeeze_ws_vec(&f1v);
    let f2 = string_from_chars(&f2v);
    let f3 = normalize_whitespace(f2.as_str());
    let f4 = mark_subtitle(f3.as_str());
    let f5 = titlecase_up(f4.as_str());
    let f5v = chars_vec(f5.as_str());
    let f6v = digit_space_vec(&f5v);
    let f6 = string_from_chars(&f6v);
    let g = graphemes_of(f6.as_str());
    let f7 = if g.len() < 3 {
        to_upper_str(f6.as_str())
    } else {
        f6
    };
    let f7v = chars_vec(f7.as_str());
    let f8v = squeeze_ws_vec(&f7v);
    let n = count_nameable(&f8v);
    if n == 0 {
        None
    } else {
        let f8 = string_from_chars(&f8v);
        Some(apply_camelcase_fixups(f8.as_str()))
    }
}

} // verus!
