//! Compare a vocabulary list exported from Duolingo with the words already
//! present in an Anki collection.
//!
//! The export is UTF-8 text with one record per line:
//!
//! ```text
//! <word> TAB <part of speech> TAB <last practiced> TAB
//! ```
//!
//! Anki stores the fields of a note in one string, separated by the unit
//! separator (0x1F). Every field of every note counts as a known word; a
//! record of the export whose word is not among them is reported.
//!
//! The contracts speak of the characters of a text. The code works on its
//! UTF-8 bytes: the separators are ASCII, and splitting the bytes at an
//! ASCII byte is splitting the characters at that character.

pub mod fields;
pub mod record;
pub mod report;
pub mod split;
pub mod text;

pub use fields::{build_word_map, get_words_from_fields, known_words, to_fields};
pub use record::{get_words, parse_line, DuolingoWord, MalformedRecord};
pub use report::{decimal_text, report, unknown_words};
pub use split::find_byte;
