//! Statistical cryptanalysis of classical ciphers by hill-climbing local
//! search: a quantized quadgram fitness model scores candidate decryptions,
//! and per-cipher crackers (monoalphabetic substitution, Vigenere, and a
//! three-rotor Enigma-like machine) search their key spaces for the key whose
//! decryption looks most like natural language.

use vstd::prelude::*;

pub mod caesar;
pub mod english;
pub mod fitness;
pub mod enigma;
pub mod rng;
pub mod substitution;
pub mod vigenere;

verus! {

/// The ways an operation of this library can fail.
#[derive(Clone, Copy, Debug, PartialEq, Eq, Structural)]
pub enum CipherError {
    /// A key parameter lies outside its valid domain.
    InvalidKey,
    /// An input symbol or byte outside the supported alphabet; carries the
    /// offending value.
    InvalidCharacter(u8),
    /// A corpus too short to hold a single quadgram.
    InsufficientCorpus,
    /// Quantized fitness data of the wrong shape.
    MalformedFitnessData,
    /// Ciphertext below the cipher's minimum search length.
    CiphertextTooShort,
    /// Ciphertext above the cipher's maximum search length.
    CiphertextTooLong,
    /// Fewer than three repeating bigrams: Kasiski inference has nothing to
    /// intersect.
    InsufficientKasiskiEvidence,
}

} // verus!
