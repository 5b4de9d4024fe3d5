//! Passphrase generation: random words drawn from word lists and joined by an
//! optional delimiter.
//!
//! The random draw is the only part taken from outside (a ChaCha20 generator
//! of `nanorand`); the placement of words and delimiters is proved exact.
pub mod laws;
pub mod model;
pub mod passphrase;
pub mod select;

pub use passphrase::{compose, generate};
pub use select::{random_word, PassphraseError};
