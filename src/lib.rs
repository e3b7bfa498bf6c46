//! XKCD-style passphrase generation with exact entropy accounting.
//!
//! A passphrase is a uniform draw of distinct words from a wordlist; the number
//! of words is the least that reaches a target entropy in bits.

pub mod entropy;
pub mod generate;
pub mod keys;
pub mod wordlist;
pub mod wordset;

pub use generate::generate;
pub use generate::GenerateError;
pub use generate::PassphraseInfo;
pub use wordlist::is_valid_word;
pub use wordlist::load_bundled;
pub use wordlist::load_wordlists;
pub use wordlist::words_from_text;
pub use wordset::WordSet;
