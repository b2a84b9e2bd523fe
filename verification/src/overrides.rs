//! The override engine: an ordered table of regex rewrite rules that corrects
//! known systematic mistakes of the upstream heuristics, applied rule by rule
//! to the whole string.

use vstd::prelude::*;
use vstd::string::{StrSliceExecFns, StringExecFns};

verus! {

/// Whether the regex crate accepts `p` as a pattern.
pub uninterp spec fn pattern_ok(p: Seq<char>) -> bool;

/// The result of replacing every non-overlapping match of pattern `p` in `s`
/// with replacement `r` (capture-group references expanded), as the regex
/// crate computes it.
pub uninterp spec fn rewritten(p: Seq<char>, r: Seq<char>, s: Seq<char>) -> Seq<char>;

/// Relies on regex::Regex::new (it accepts a pattern or reports an error, by
/// the pattern alone) and regex::Regex::replace_all (it replaces every
/// non-overlapping match, a function of pattern, replacement, and input).
#[verifier::external_body]
fn rewrite_all(pattern: &str, replacement: &str, input: &str) -> (r: Option<String>)
    ensures
        r is Some <==> pattern_ok(pattern@),
        r is Some ==> r->0@ == rewritten(pattern@, replacement@, input@),
{
    match regex::Regex::new(pattern) {
        Ok(re) => Some(re.replace_all(input, replacement).into_owned()),
        Err(_) => None,
    }
}

/// The ordered table of (pattern, replacement) override rules.
pub open spec fn override_table() -> Seq<(Seq<char>, Seq<char>)> {
    seq![
        ((" - ")@, (": ")@),
        (("Add Ons")@, ("Add-ons")@),
        ((r"\b3 D\b")@, ("3D")@),
        ((r": Bit\b")@, ("-Bit")@),
        ((r"\bDon T")@, ("Don't")@),
        ((r"\bGot Y\b")@, ("GotY")@),
        (("Inc($|[ ])")@, ("Inc.$1")@),
        ((r"([^:]) Issue\b")@, (r"$1: Issue")@),
        ((r": Km\b")@, ("km")@),
        (("Mc ")@, ("Mc")@),
        (("Mac ")@, ("Mac")@),
        (("rys ")@, ("ry's ")@),
        ((r"RO Ms\b")@, ("ROMs")@),
        ((" S ")@, ("'s ")@),
        ((r"The (\d+):")@, ("The $1")@),
        ((r": Games")@, (" Games")@),
        ((r"Vs\.?")@, ("vs.")@),
        ((r"\bMP 3\b")@, ("MP3")@),
        ((r"\bX (\d)\b")@, ("X$1")@),
        ((r": St\b")@, ("st")@),
        ((r": Nd\b")@, ("nd")@),
        ((r": Rd\b")@, ("rd")@),
        ((r": Th\b")@, ("th")@),
        ((r"\b([LD]) ([AaÀàÂâEeÈèÉéÊêËëIiÎîÏïOoÔôUuÙùÛûÜü])")@, ("${1}'${2}")@),
        (("DOS Box")@, ("DOSBox")@),
        (("Mupen 64: Plus")@, ("Mupen64Plus")@),
        (("Scumm VM")@, ("ScummVM")@),
        (("Sid Meiers ")@, ("Sid Meier's ")@),
        (("^Sim ")@, ("Sim")@),
        (("Star Wars ")@, ("Star Wars: ")@),
        (("Wh 40 K ")@, ("WarHammer 40,000: ")@),
        ((r"Xcom\b")@, ("X-COM:")@),
        ((r": The\b")@, (": The")@),
        ((r" ([A-Z])edit\b")@, ("${1}edit")@),
        (("^Open ")@, ("Open")@),
        ((" V M")@, ("VM")@),
        (("xwb")@, ("XWB")@),
    ]
}

/// The override rules, in table order.
fn override_rules() -> (t: Vec<(&'static str, &'static str)>)
    ensures
        t@.map_values(|p: (&'static str, &'static str)| (p.0@, p.1@)) == override_table(),
{
    let t: Vec<(&'static str, &'static str)> = vec![
        (" - ", ": "),
        ("Add Ons", "Add-ons"),
        (r"\b3 D\b", "3D"),
        (r": Bit\b", "-Bit"),
        (r"\bDon T", "Don't"),
        (r"\bGot Y\b", "GotY"),
        ("Inc($|[ ])", "Inc.$1"),
        (r"([^:]) Issue\b", r"$1: Issue"),
        (r": Km\b", "km"),
        ("Mc ", "Mc"),
        ("Mac ", "Mac"),
        ("rys ", "ry's "),
        (r"RO Ms\b", "ROMs"),
        (" S ", "'s "),
        (r"The (\d+):", "The $1"),
        (r": Games", " Games"),
        (r"Vs\.?", "vs."),
        (r"\bMP 3\b", "MP3"),
        (r"\bX (\d)\b", "X$1"),
        (r": St\b", "st"),
        (r": Nd\b", "nd"),
        (r": Rd\b", "rd"),
        (r": Th\b", "th"),
        (r"\b([LD]) ([AaÀàÂâEeÈèÉéÊêËëIiÎîÏïOoÔôUuÙùÛûÜü])", "${1}'${2}"),
        ("DOS Box", "DOSBox"),
        ("Mupen 64: Plus", "Mupen64Plus"),
        ("Scumm VM", "ScummVM"),
        ("Sid Meiers ", "Sid Meier's "),
        ("^Sim ", "Sim"),
        ("Star Wars ", "Star Wars: "),
        ("Wh 40 K ", "WarHammer 40,000: "),
        (r"Xcom\b", "X-COM:"),
        (r": The\b", ": The"),
        (r" ([A-Z])edit\b", "${1}edit"),
        ("^Open ", "Open"),
        (" V M", "VM"),
        ("xwb", "XWB"),
    ];
    proof {
        assert(t@.map_values(|p: (&'static str, &'static str)| (p.0@, p.1@))
            =~= override_table());
    }
    t
}

/// The text after the first `k` override rules have been applied in order; a
/// rule whose pattern the regex crate rejects leaves the text unchanged.
pub open spec fn apply_rules(rules: Seq<(Seq<char>, Seq<char>)>, k: int, s: Seq<char>) -> Seq<char>
    decreases k,
{
    if k <= 0 {
        s
    } else {
        let prev = apply_rules(rules, k - 1, s);
        if pattern_ok(rules[k - 1].0) {
            rewritten(rules[k - 1].0, rules[k - 1].1, prev)
        } else {
            prev
        }
    }
}

/// The text after the whole override table has been applied in order.
pub open spec fn overrides_applied(s: Seq<char>) -> Seq<char> {
    apply_rules(override_table(), override_table().len() as int, s)
}

/// Apply the override table to the text, every rule in table order.
pub fn apply_camelcase_fixups(in_str: &str) -> (r: String)
    ensures
        r@ == overrides_applied(in_str@),
{
    let rules = override_rules();
    let mut cur: String = String::from_str(in_str);
    let mut k: usize = 0;
    while k < rules.len()
        invariant
            0 <= k <= rules@.len(),
            rules@.map_values(|p: (&'static str, &'static str)| (p.0@, p.1@))
                == override_table(),
            cur@ == apply_rules(override_table(), k as int, in_str@),
        decreases rules@.len() - k,
    {
        let (pat, rep) = rules[k];
        proof {
            assert(override_table()[k as int] == (pat@, rep@));
        }
        match rewrite_all(pat, rep, cur.as_str()) {
            Some(next) => {
                cur = next;
            },
            None => {},
        }
        k = k + 1;
    }
    cur
}

/// The subtitle-marking pattern: a digit, whitespace, then a word character.
pub open spec fn subtitle_pattern() -> Seq<char> {
    (r"(\d)\s+(\w)")@
}

/// The text with `<digit>: <word>` substituted wherever a digit is followed
/// by whitespace and a word character: the assumed start of a subtitle.
pub open spec fn subtitle_pass(s: Seq<char>) -> Seq<char> {
    if pattern_ok(subtitle_pattern()) {
        rewritten(subtitle_pattern(), ("${1}: ${2}")@, s)
    } else {
        s
    }
}

/// Insert a colon after a digit that whitespace and further text follow,
/// taking it for the start of a subtitle.
pub fn mark_subtitle(s: &str) -> (r: String)
    ensures
        r@ == subtitle_pass(s@),
{
    match rewrite_all(r"(\d)\s+(\w)", "${1}: ${2}", s) {
        Some(next) => next,
        None => String::from_str(s),
    }
}

} // verus!
