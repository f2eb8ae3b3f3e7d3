//! The identification side of the engine's public interface.

use vstd::prelude::*;

verus! {

/// A cipher-family identification: the family name, a confidence
/// value, and a human-readable parameter summary. The confidence is a
/// fixed-point value whose direction depends on the family: for
/// Caesar it is a micro chi-squared score (lower is better), for
/// Vigenere a parts-per-million confidence (higher is better).
#[derive(Debug, Clone, PartialEq)]
pub struct IdentificationResult {
    pub cipher_name: String,
    pub confidence_score: u64,
    pub parameters: Option<String>,
}

/// A cipher-specific identifier. Inputs beyond the engine's machine
/// limits are reported as inconclusive, never as a fault. Each
/// implementation says through [`Identifier::id_ok`] what a positive
/// identification guarantees.
pub trait Identifier {
    /// What a reported identification guarantees for this family.
    spec fn id_ok(&self, ciphertext: Seq<char>, res: IdentificationResult) -> bool;

    fn identify(&self, ciphertext: &str) -> (r: Option<IdentificationResult>)
        ensures
            r is Some ==> self.id_ok(ciphertext@, r->Some_0),
    ;
}

} // verus!
