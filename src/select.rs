//! Uniform random choice of a word.
use crate::model::words_of;
use nanorand::Rng;
use vstd::prelude::*;

verus! {

/// Why a passphrase could not be produced.
#[derive(Debug, Clone, Copy, PartialEq, Eq, Structural)]
pub enum PassphraseError {
    /// A word was to be drawn from a dictionary that holds no word.
    InvalidDictionary,
}

/// Relies on nanorand's `ChaCha20::new`, a generator seeded from system
/// entropy, and on `Rng::generate_range`, whose draw from `0..len` lies in
/// `[0, len)` when `len > 0`.
#[verifier::external_body]
pub(crate) fn random_index(len: usize) -> (r: usize)
    requires
        len > 0,
    ensures
        r < len,
{
    nanorand::ChaCha20::new().generate_range(0..len)
}

/// Draws one word of `dictionary`, uniformly at random; fails on an empty
/// dictionary.
pub fn random_word(dictionary: &'static [&'static str]) -> (r: Result<&'static str, PassphraseError>)
    ensures
        r is Err <==> dictionary@.len() == 0,
        r matches Ok(w) ==> words_of(dictionary).contains(w@),
{
    if dictionary.len() == 0 {
        return Err(PassphraseError::InvalidDictionary);
    }
    let i = random_index(dictionary.len());
    let w = dictionary[i];
    assert(words_of(dictionary)[i as int] == w@);
    Ok(w)
}

} // verus!
