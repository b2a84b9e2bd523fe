//! Character classification and transition rules for the CamelCase tokenizer.
//!
//! Each character is mapped (by its base code point) to a semantic class, and
//! each ordered pair of classes to an edit action; both functions are total,
//! pure, and specified exactly.

use vstd::prelude::*;
use crate::unicode::{
    unicode_ws, unicode_upper, unicode_lower, unicode_numeric, unicode_open_punct,
    unicode_close_punct, unicode_titlecase, is_ws_char, is_upper_char, is_lower_char,
    is_numeric_char, is_open_punct_char, is_close_punct_char, is_titlecase_char,
};

verus! {

/// The semantic role a character plays for word-boundary inference.
#[derive(Clone, Copy, Debug, PartialEq, Eq, Structural)]
pub enum CharType {
    /// No character has been processed yet; never the class of a real character.
    Start,
    /// An uppercase letter.
    Uppercase,
    /// A lowercase letter.
    Lowercase,
    /// A titlecase letter: a digraph glyph combining upper- and lowercase forms.
    Titlecase,
    /// One of the ampersand-like code points.
    Ampersand,
    /// One of the apostrophe-like code points.
    Apostrophe,
    /// A numeric character, as defined by Unicode.
    Numeric,
    /// A decimal separator, thousands separator, or other number separator.
    NumSep,
    /// Punctuation that should break before itself, such as `(` or `#`.
    StartPunct,
    /// Punctuation that should break after itself, such as `)` or `%`.
    EndPunct,
    /// A whitespace character.
    Whitespace,
    /// Anything that falls into none of the other classes.
    Other,
}

/// The edit the tokenizer applies at a transition between two classes.
#[derive(Clone, Copy, Debug, PartialEq, Eq, Structural)]
pub enum CCaseAction {
    /// Extend the current word with this character.
    Literal,
    /// Emit the accumulated word (if non-empty) and begin a new one here.
    StartWord,
    /// Emit the accumulated word ending one character earlier: an
    /// upper-to-lower digraph marks the true start one character back.
    AlreadyStartedWord,
    /// Like `Literal`, but block the next `AlreadyStartedWord` at this spot.
    Suppress,
    /// Emit the accumulated word (if non-empty) and discard this character.
    Skip,
}

/// The fixed set of ampersand-like code points.
pub open spec fn is_ampersand(c: char) -> bool {
    c == '\u{26}' || c == '\u{FE60}' || c == '\u{FF06}' || c == '\u{1F674}'
}

/// The fixed set of apostrophe-like code points.
pub open spec fn is_apostrophe(c: char) -> bool {
    c == '\u{27}' || c == '\u{2019}' || c == '\u{FF07}'
}

/// The fixed set of number-separator code points: common and European number
/// separators, which must never force a word break.
pub open spec fn is_num_sep(c: char) -> bool {
    ||| c == '\u{2c}' || c == '\u{2e}' || c == '\u{2f}' || c == '\u{3a}' || c == '\u{60c}'
    ||| c == '\u{2044}' || c == '\u{FE50}' || c == '\u{FE52}' || c == '\u{FE55}'
    ||| c == '\u{FF0C}' || c == '\u{FF0E}' || c == '\u{FF0F}' || c == '\u{FF1A}'
    ||| c == '\u{2b}' || c == '\u{2d}' || c == '\u{207A}' || c == '\u{207B}'
    ||| c == '\u{208A}' || c == '\u{208B}' || c == '\u{2212}' || c == '\u{FB29}'
    ||| c == '\u{FE62}' || c == '\u{FE63}' || c == '\u{FF0B}' || c == '\u{FF0D}'
}

/// The fixed set of symbols that break before themselves: currency signs and
/// other openers.
pub open spec fn is_start_sym(c: char) -> bool {
    ||| c == '\u{23}' || c == '\u{24}' || c == '\u{a3}' || c == '\u{a4}' || c == '\u{a5}'
    ||| c == '\u{ab}' || c == '\u{b1}' || c == '\u{20a0}' || c == '\u{20ac}'
    ||| c == '\u{FE5F}' || c == '\u{FE69}' || c == '\u{FF03}' || c == '\u{FF04}'
    ||| c == '\u{ffe1}'
    ||| c == '\u{3c}' || c == '\u{A1}' || c == '\u{bf}' || c == '\u{2E18}'
    ||| c == '\u{fe64}' || c == '\u{ff1c}'
}

/// The fixed set of symbols that break after themselves: percent signs,
/// terminal punctuation, and other closers.
pub open spec fn is_end_sym(c: char) -> bool {
    ||| c == '\u{25}' || c == '\u{a2}' || c == '\u{b0}' || c == '\u{bb}' || c == '\u{2030}'
    ||| c == '\u{2031}' || c == '\u{2032}' || c == '\u{2033}' || c == '\u{2034}'
    ||| c == '\u{FE6A}' || c == '\u{ff05}' || c == '\u{ffe0}'
    ||| c == '\u{21}' || c == '\u{3b}' || c == '\u{3e}' || c == '\u{3f}' || c == '\u{37e}'
    ||| c == '\u{2026}' || c == '\u{203c}' || c == '\u{203d}' || c == '\u{2047}'
    ||| c == '\u{2048}' || c == '\u{2049}' || c == '\u{2762}' || c == '\u{FE54}'
    ||| c == '\u{FE56}' || c == '\u{FE57}' || c == '\u{fe65}' || c == '\u{FF01}'
    ||| c == '\u{ff02}' || c == '\u{FF1B}' || c == '\u{FF1E}' || c == '\u{FF1F}'
    ||| c == '\u{1F679}'
}

/// The class of a character, with the rules applied in strict precedence
/// order: whitespace first, then the fixed code-point sets, then the Unicode
/// general categories.
pub open spec fn char_class(c: char) -> CharType {
    if unicode_ws(c) {
        CharType::Whitespace
    } else if is_ampersand(c) {
        CharType::Ampersand
    } else if is_apostrophe(c) {
        CharType::Apostrophe
    } else if is_num_sep(c) {
        CharType::NumSep
    } else if is_start_sym(c) {
        CharType::StartPunct
    } else if is_end_sym(c) {
        CharType::EndPunct
    } else if unicode_open_punct(c) {
        CharType::StartPunct
    } else if unicode_close_punct(c) {
        CharType::EndPunct
    } else if unicode_numeric(c) {
        CharType::Numeric
    } else if unicode_upper(c) {
        CharType::Uppercase
    } else if unicode_lower(c) {
        CharType::Lowercase
    } else if unicode_titlecase(c) {
        CharType::Titlecase
    } else {
        CharType::Other
    }
}

/// Identify what role a given character plays in the string.
pub fn classify_char(c: char) -> (t: CharType)
    ensures
        t == char_class(c),
{
    if is_ws_char(c) {
        CharType::Whitespace
    } else if c == '\u{26}' || c == '\u{FE60}' || c == '\u{FF06}' || c == '\u{1F674}' {
        CharType::Ampersand
    } else if c == '\u{27}' || c == '\u{2019}' || c == '\u{FF07}' {
        CharType::Apostrophe
    } else if c == '\u{2c}' || c == '\u{2e}' || c == '\u{2f}' || c == '\u{3a}' || c == '\u{60c}'
        || c == '\u{2044}' || c == '\u{FE50}' || c == '\u{FE52}' || c == '\u{FE55}'
        || c == '\u{FF0C}' || c == '\u{FF0E}' || c == '\u{FF0F}' || c == '\u{FF1A}'
        || c == '\u{2b}' || c == '\u{2d}' || c == '\u{207A}' || c == '\u{207B}'
        || c == '\u{208A}' || c == '\u{208B}' || c == '\u{2212}' || c == '\u{FB29}'
        || c == '\u{FE62}' || c == '\u{FE63}' || c == '\u{FF0B}' || c == '\u{FF0D}' {
        CharType::NumSep
    } else if c == '\u{23}' || c == '\u{24}' || c == '\u{a3}' || c == '\u{a4}' || c == '\u{a5}'
        || c == '\u{ab}' || c == '\u{b1}' || c == '\u{20a0}' || c == '\u{20ac}'
        || c == '\u{FE5F}' || c == '\u{FE69}' || c == '\u{FF03}' || c == '\u{FF04}'
        || c == '\u{ffe1}'
        || c == '\u{3c}' || c == '\u{A1}' || c == '\u{bf}' || c == '\u{2E18}'
        || c == '\u{fe64}' || c == '\u{ff1c}' {
        CharType::StartPunct
    } else if c == '\u{25}' || c == '\u{a2}' || c == '\u{b0}' || c == '\u{bb}' || c == '\u{2030}'
        || c == '\u{2031}' || c == '\u{2032}' || c == '\u{2033}' || c == '\u{2034}'
        || c == '\u{FE6A}' || c == '\u{ff05}' || c == '\u{ffe0}'
        || c == '\u{21}' || c == '\u{3b}' || c == '\u{3e}' || c == '\u{3f}' || c == '\u{37e}'
        || c == '\u{2026}' || c == '\u{203c}' || c == '\u{203d}' || c == '\u{2047}'
        || c == '\u{2048}' || c == '\u{2049}' || c == '\u{2762}' || c == '\u{FE54}'
        || c == '\u{FE56}' || c == '\u{FE57}' || c == '\u{fe65}' || c == '\u{FF01}'
        || c == '\u{ff02}' || c == '\u{FF1B}' || c == '\u{FF1E}' || c == '\u{FF1F}'
        || c == '\u{1F679}' {
        CharType::EndPunct
    } else if is_open_punct_char(c) {
        CharType::StartPunct
    } else if is_close_punct_char(c) {
        CharType::EndPunct
    } else if is_numeric_char(c) {
        CharType::Numeric
    } else if is_upper_char(c) {
        CharType::Uppercase
    } else if is_lower_char(c) {
        CharType::Lowercase
    } else if is_titlecase_char(c) {
        CharType::Titlecase
    } else {
        CharType::Other
    }
}

/// The action to take for a given transition between character roles, in
/// strict precedence order: skip into whitespace; suppress out of opening
/// punctuation; start a word out of whitespace, into titlecase, or around
/// ampersands; pass number separators, apostrophes, and closing punctuation
/// through; place the break retroactively before an upper-to-lower digraph;
/// start a word wherever the classes differ; otherwise extend the word.
pub open spec fn action_for(old_type: CharType, new_type: CharType) -> CCaseAction {
    if new_type == CharType::Whitespace {
        CCaseAction::Skip
    } else if old_type == CharType::StartPunct {
        CCaseAction::Suppress
    } else if old_type == CharType::Whitespace || new_type == CharType::Titlecase
        || old_type == CharType::Ampersand || new_type == CharType::Ampersand {
        CCaseAction::StartWord
    } else if old_type == CharType::NumSep || new_type == CharType::NumSep
        || old_type == CharType::Apostrophe || new_type == CharType::Apostrophe
        || new_type == CharType::EndPunct {
        CCaseAction::Literal
    } else if (old_type == CharType::Titlecase || old_type == CharType::Uppercase)
        && new_type == CharType::Lowercase {
        CCaseAction::AlreadyStartedWord
    } else if old_type != new_type {
        CCaseAction::StartWord
    } else {
        CCaseAction::Literal
    }
}

/// Identify the action to take for a given transition between character roles.
pub fn transition_to_action(old_type: CharType, new_type: CharType) -> (a: CCaseAction)
    ensures
        a == action_for(old_type, new_type),
{
    if new_type == CharType::Whitespace {
        CCaseAction::Skip
    } else if old_type == CharType::StartPunct {
        CCaseAction::Suppress
    } else if old_type == CharType::Whitespace || new_type == CharType::Titlecase
        || old_type == CharType::Ampersand || new_type == CharType::Ampersand {
        CCaseAction::StartWord
    } else if old_type == CharType::NumSep || new_type == CharType::NumSep
        || old_type == CharType::Apostrophe || new_type == CharType::Apostrophe
        || new_type == CharType::EndPunct {
        CCaseAction::Literal
    } else if (old_type == CharType::Titlecase || old_type == CharType::Uppercase)
        && new_type == CharType::Lowercase {
        CCaseAction::AlreadyStartedWord
    } else if old_type != new_type {
        CCaseAction::StartWord
    } else {
        CCaseAction::Literal
    }
}

} // verus!
