//! Classical cryptanalysis of Caesar and Vigenere ciphers from ciphertext
//! alone: letter-frequency statistics, index of coincidence, Kasiski
//! examination, mutual index of coincidence, and trigram-likelihood scoring.
//!
//! Every score in this crate is an exact fixed-point integer, so that the
//! statistics and the rankings built on them can be stated and proved
//! precisely. Frequencies and the index of coincidence are scaled by
//! `1_000_000` (parts per million); chi-squared scores are in the same
//! micro units; trigram log-probabilities are in ten-thousandths of a
//! decimal order of magnitude.

pub mod analysis;
pub mod caesar;
pub mod cipher_utils;
pub mod config;
pub mod decoder;
pub mod fmt_util;
pub mod identifier;
pub mod laws;
pub mod letter_stats;
pub mod text_stats;
pub mod trigrams;
pub mod vigenere;

pub use caesar::{CaesarDecoder, CaesarIdentifier};
pub use config::Config;
pub use decoder::{Decoder, DecryptionAttempt};
pub use identifier::{Identifier, IdentificationResult};
pub use vigenere::{VigenereDecoder, VigenereIdentifier};
