//! The decryption side of the engine's public interface: one ranked
//! hypothesis, and the trait the presentation layer drives.

use vstd::prelude::*;

verus! {

/// One decryption hypothesis: which cipher produced it, the key
/// material as text, the candidate plaintext, and its score. Scoring
/// direction differs by cipher family: chi-squared scores (Caesar)
/// rank ascending, trigram log-probability scores (Vigenere) rank
/// descending.
#[derive(Debug, Clone, PartialEq)]
pub struct DecryptionAttempt {
    pub cipher_name: String,
    pub key: String,
    pub plaintext: String,
    /// Fixed-point score: micro chi-squared units for Caesar (lower is
    /// better; `i64::MAX` is the saturated worst case), e4 log10 units
    /// for Vigenere (higher is better).
    pub score: i64,
}

/// A cipher-specific decoder. Inputs beyond the engine's machine
/// limits are reported as "no result", never as a fault. Each
/// implementation says through [`Decoder::attempt_ok`] what every row
/// it reports means, through [`Decoder::ranked_ok`] in which direction
/// its rows are ranked, and through [`Decoder::spec_min_len`] the
/// alphabetic length below which it reports nothing.
pub trait Decoder {
    /// What any reported row guarantees for this cipher family.
    spec fn attempt_ok(&self, ciphertext: Seq<char>, att: DecryptionAttempt) -> bool;

    /// The family's ranking direction over a reported list.
    spec fn ranked_ok(&self, rows: Seq<DecryptionAttempt>) -> bool;

    /// The configured minimum alphabetic length.
    spec fn spec_min_len(&self) -> int;

    /// The family name.
    spec fn spec_name(&self) -> Seq<char>;

    fn decrypt(&self, ciphertext: &str) -> (r: Vec<DecryptionAttempt>)
        ensures
            forall|k: int| 0 <= k < r@.len() ==> self.attempt_ok(ciphertext@, #[trigger] r@[k]),
            self.ranked_ok(r@),
            crate::analysis::spec_alpha(ciphertext@).len() < self.spec_min_len() ==> r@.len() == 0,
    ;

    fn name(&self) -> (r: &'static str)
        ensures
            r@ == self.spec_name(),
    ;
}

} // verus!
