use game_naming::{
    camelcase_words, camelcase_offsets, normalize_whitespace, filename_to_name,
    apply_camelcase_fixups, classify_char, transition_to_action, CharType, CCaseAction,
};

#[test]
fn classify_char_precedence() {
    // whitespace wins over everything
    assert_eq!(classify_char(' '), CharType::Whitespace);
    assert_eq!(classify_char('\u{00A0}'), CharType::Whitespace);
    // the fixed code point sets
    assert_eq!(classify_char('&'), CharType::Ampersand);
    assert_eq!(classify_char('\u{FF06}'), CharType::Ampersand);
    assert_eq!(classify_char('\''), CharType::Apostrophe);
    assert_eq!(classify_char('\u{2019}'), CharType::Apostrophe);
    assert_eq!(classify_char('.'), CharType::NumSep);
    assert_eq!(classify_char(','), CharType::NumSep);
    assert_eq!(classify_char('-'), CharType::NumSep);
    assert_eq!(classify_char('+'), CharType::NumSep);
    assert_eq!(classify_char('#'), CharType::StartPunct);
    assert_eq!(classify_char('$'), CharType::StartPunct);
    assert_eq!(classify_char('<'), CharType::StartPunct);
    assert_eq!(classify_char('%'), CharType::EndPunct);
    assert_eq!(classify_char('!'), CharType::EndPunct);
    assert_eq!(classify_char('?'), CharType::EndPunct);
    // general categories
    assert_eq!(classify_char('('), CharType::StartPunct);
    assert_eq!(classify_char(')'), CharType::EndPunct);
    assert_eq!(classify_char('5'), CharType::Numeric);
    assert_eq!(classify_char('Ⅵ'), CharType::Numeric);
    assert_eq!(classify_char('A'), CharType::Uppercase);
    assert_eq!(classify_char('a'), CharType::Lowercase);
    assert_eq!(classify_char('é'), CharType::Lowercase);
    assert_eq!(classify_char('ǅ'), CharType::Titlecase);
    assert_eq!(classify_char('\u{0301}'), CharType::Other);
}

use CharType::{
    Start, Uppercase, Lowercase, Titlecase, Ampersand, Apostrophe, Numeric, NumSep,
    StartPunct, EndPunct, Whitespace, Other,
};
use CCaseAction::{Literal, StartWord, AlreadyStartedWord, Suppress, Skip};

#[test]
fn transition_to_action_precedence() {
    // into whitespace always skips, even out of opening punctuation
    assert_eq!(transition_to_action(StartPunct, Whitespace), Skip);
    assert_eq!(transition_to_action(Lowercase, Whitespace), Skip);
    // out of opening punctuation suppresses
    assert_eq!(transition_to_action(StartPunct, Uppercase), Suppress);
    assert_eq!(transition_to_action(StartPunct, NumSep), Suppress);
    // word starts
    assert_eq!(transition_to_action(Whitespace, Lowercase), StartWord);
    assert_eq!(transition_to_action(Lowercase, Titlecase), StartWord);
    assert_eq!(transition_to_action(Ampersand, Numeric), StartWord);
    assert_eq!(transition_to_action(Numeric, Ampersand), StartWord);
    // number separators, apostrophes, and closing punctuation never break
    assert_eq!(transition_to_action(NumSep, Numeric), Literal);
    assert_eq!(transition_to_action(Numeric, NumSep), Literal);
    assert_eq!(transition_to_action(Lowercase, Apostrophe), Literal);
    assert_eq!(transition_to_action(Apostrophe, Lowercase), Literal);
    assert_eq!(transition_to_action(Numeric, EndPunct), Literal);
    // the retroactive digraph split
    assert_eq!(transition_to_action(Uppercase, Lowercase), AlreadyStartedWord);
    assert_eq!(transition_to_action(Titlecase, Lowercase), AlreadyStartedWord);
    // differing classes split, equal ones extend
    assert_eq!(transition_to_action(Lowercase, Uppercase), StartWord);
    assert_eq!(transition_to_action(Lowercase, Lowercase), Literal);
    assert_eq!(transition_to_action(Other, Other), Literal);
}

#[test]
fn digraph_retroactive_split() {
    assert_eq!(camelcase_words("ABc"), &["A", "Bc"]);
}

#[test]
fn start_punctuation_suppresses_split() {
    assert_eq!(camelcase_words("(Hello)"), &["(Hello)"]);
}

#[test]
fn ampersand_isolation() {
    assert_eq!(camelcase_words("A&b"), &["A", "&", "b"]);
}

#[test]
fn number_separators_do_not_split() {
    assert_eq!(camelcase_words("Version1.1"), &["Version", "1.1"]);
}

#[test]
fn camelcase_offsets_character_spans() {
    assert_eq!(camelcase_offsets("fooBar"), &[(0, 3), (3, 6)]);
    assert_eq!(camelcase_offsets("A&b"), &[(0, 1), (1, 2), (2, 3)]);
    assert_eq!(camelcase_offsets(" a b "), &[(1, 2), (3, 4)]);
    assert!(camelcase_offsets("").is_empty());
}

#[test]
fn normalize_whitespace_majority_delimiter() {
    // dashes win ties, underscores are left alone when they lose
    assert_eq!(normalize_whitespace("foo_bar-baz"), "foo bar baz");
    assert_eq!(normalize_whitespace("a_b_c-d"), "a b c-d");
    assert_eq!(normalize_whitespace("X-Com_Collection_linux"), "X-Com Collection linux");
    // with neither present, camelcase cues decide
    assert_eq!(normalize_whitespace("FooBar"), "Foo Bar");
}

#[test]
fn filename_to_name_scenarios() {
    assert_eq!(filename_to_name("FooBar.zip"), Some("Foo Bar".to_string()));
    assert_eq!(filename_to_name("the12chairs.tar.gz"), Some("The 12 Chairs".to_string()));
    // The underscore-vs-dash majority rule cannot tell a token like "x86_64"
    // from delimiter use; this documents the known (imperfect) behavior.
    assert_eq!(filename_to_name("x86_64-readme.txt"),
               Some("X 86: 64: Readme".to_string()));
}

#[test]
fn filename_to_name_short_names_uppercase() {
    assert_eq!(filename_to_name("ys.zip"), Some("YS".to_string()));
}

#[test]
fn filename_to_name_rejects_nameless_input() {
    assert_eq!(filename_to_name(""), None);
    assert_eq!(filename_to_name("   "), None);
    assert_eq!(filename_to_name("\u{FFFD}\u{FFFD}"), None);
}

#[test]
fn filename_extensionless_lowercases_extensions() {
    assert_eq!(game_naming::filename_extensionless("demo.ZIP"), "demo");
    assert_eq!(game_naming::filename_extensionless("games/demo.Tar.GZ"), "demo");
}

#[test]
fn overrides_untouched_text_passes_through() {
    assert_eq!(apply_camelcase_fixups("Plain Title"), "Plain Title");
}

#[test]
fn spans_nonempty_ordered_and_cover() {
    // "A&b c": words "A", "&", "b", "c"; the space at offset 3 is skipped
    let spans = camelcase_offsets("A&b c");
    assert_eq!(spans, &[(0, 1), (1, 2), (2, 3), (4, 5)]);
    for w in spans.windows(2) {
        assert!(w[0].1 <= w[1].0);
    }
    for &(a, b) in &spans {
        assert!(a < b);
    }
}

#[test]
fn digit_spacing_after_underscore_split() {
    // the underscore path leaves "ver1" intact, so the digit-spacing phase
    // has to separate the trailing digit itself
    assert_eq!(filename_to_name("ver1_x_y"), Some("Ver 1: X Y".to_string()));
}
