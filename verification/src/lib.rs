//! A streaming profanity detector and censor for Unicode text.
//!
//! Text is canonicalized (Unicode decomposition, diacritic stripping,
//! banned-character removal, recomposition), matched case-insensitively
//! against a trie of flagged and safe phrases while tolerating inserted
//! separators and homoglyph substitutions, and re-emitted with detected
//! phrases replaced by a configurable censor character.  Alongside the
//! censored text, an analysis bitmask reports the category and severity
//! of whatever was found.

pub mod canon;
pub mod censor;
pub mod mtch;
pub mod trie;
pub mod typ;

pub use censor::add_replacement;
pub use censor::add_word;
pub use censor::ban_character;
pub use censor::Censor;
pub use censor::CensorIter;
pub use censor::CensorStr;
pub use trie::Trie;
pub use typ::Type;
