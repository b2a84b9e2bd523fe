//! Heuristic inference of human-readable game titles from file and directory
//! names: a CamelCase-aware word-boundary tokenizer and a filename-to-title
//! pipeline built on it, with a final table of corrective rewrites.

pub mod camelcase;
pub mod camelcase_laws;
pub mod camelcase_stability;
pub mod classes;
pub mod filename;
pub mod naming;
pub mod overrides;
pub mod unicode;

pub use camelcase::{camelcase_offsets, camelcase_words, camelcase_word_count, camelcase_to_spaces};
pub use classes::{CharType, CCaseAction, classify_char, transition_to_action};
pub use filename::filename_extensionless;
pub use naming::{normalize_whitespace, titlecase_up, filename_to_name};
pub use overrides::apply_camelcase_fixups;
pub use unicode::chars_vec;
