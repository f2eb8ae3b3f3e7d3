//! Engine configuration: the minimum alphabetic lengths below which
//! Vigenere identification and decryption are not attempted.

use vstd::prelude::*;

verus! {

/// Caller-supplied thresholds for the Vigenere analyses. Caesar
/// analysis has no configurable minimum.
pub struct Config {
    /// Fewest letters before Vigenere identification is attempted.
    pub vigenere_min_id_len: usize,
    /// Fewest letters before Vigenere decryption is attempted.
    pub vigenere_min_dec_len: usize,
}

impl Default for Config {
    /// The default thresholds: 30 letters to identify, 20 to decrypt.
    fn default() -> (r: Self)
        ensures
            r.vigenere_min_id_len == 30,
            r.vigenere_min_dec_len == 20,
    {
        Config { vigenere_min_id_len: 30, vigenere_min_dec_len: 20 }
    }
}

} // verus!
