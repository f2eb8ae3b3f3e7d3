//! The Caesar brute forcer and identifier: try all 26 shifts, score
//! each decryption by chi-squared distance from English letter
//! frequencies, and rank ascending (lower is better).

use crate::analysis::{
    lemma_english_likelihood_bounds, rank_shifts, score_english_likelihood, shift_appears,
    shift_pair_before, spec_alpha, spec_alpha_bytes, spec_english_likelihood,
};
use crate::cipher_utils::{shift_char_string, spec_shift_string};
use crate::config::Config;
use crate::decoder::{Decoder, DecryptionAttempt};
use crate::fmt_util::{spec_u64_digits, u64_to_string};
use crate::identifier::{Identifier, IdentificationResult};
use crate::laws::{lemma_alpha_shift_commute, lemma_shift_string_zero};
use vstd::prelude::*;
use vstd::string::{StrSliceExecFns, StringExecFns};

verus! {

/// Micro chi-squared score of decrypting `s` with `shift`.
pub open spec fn spec_caesar_score(s: Seq<char>, shift: int) -> int {
    spec_english_likelihood(spec_alpha_bytes(spec_shift_string(s, -shift)))
}

/// The attempt row the brute forcer produces for one shift.
pub open spec fn spec_caesar_row_ok(s: Seq<char>, att: DecryptionAttempt, shift: int) -> bool {
    &&& att.cipher_name@ == "Caesar"@
    &&& att.key@ == spec_u64_digits(shift)
    &&& att.plaintext@ == spec_shift_string(s, -shift)
    &&& att.score == spec_caesar_score(s, shift)
}

/// Some row of `r` is the attempt for shift `sh`.
pub open spec fn caesar_has_row(s: Seq<char>, r: Seq<DecryptionAttempt>, sh: int) -> bool {
    exists|k: int| 0 <= k < r.len() && spec_caesar_row_ok(s, #[trigger] r[k], sh)
}

/// `att` is the attempt row of some shift.
pub open spec fn caesar_row_some(s: Seq<char>, att: DecryptionAttempt) -> bool {
    exists|sh: int| 0 <= sh < 26 && #[trigger] spec_caesar_row_ok(s, att, sh)
}

/// Decrypt under every one of the 26 shifts and rank the attempts by
/// chi-squared score, best (lowest) first; ties keep the smaller
/// shift first. A text with no letters at all — the empty text
/// included — yields a single maximal-score identity row, so callers
/// always get at least one row.
pub fn run_caesar_decryption(ciphertext: &str) -> (r: Vec<DecryptionAttempt>)
    requires
        ciphertext@.len() < 0x1_0000_0000,
    ensures
        ({
            let s = ciphertext@;
            &&& (spec_alpha(s).len() == 0 ==> r@.len() == 1 && r@[0].cipher_name@ =~= "Caesar"@
                && r@[0].key@ =~= spec_u64_digits(0) && r@[0].plaintext@ =~= s && r@[0].score
                == i64::MAX)
            &&& (spec_alpha(s).len() > 0 ==> {
                &&& r@.len() == 26
                &&& (forall|sh: int| 0 <= sh < 26 ==> #[trigger] caesar_has_row(s, r@, sh))
                &&& (forall|k: int| 0 <= k < 26 ==> #[trigger] caesar_row_some(s, r@[k]))
                &&& (forall|k1: int, k2: int|
                    0 <= k1 < k2 < 26 ==> (#[trigger] r@[k1]).score <= (#[trigger] r@[k2]).score)
            })
        }),
{
    let ghost s = ciphertext@;
    let alen = {
        let a = crate::analysis::get_alphabetic_chars(ciphertext);
        a.as_str().unicode_len()
    };
    if alen == 0 {
        let mut r: Vec<DecryptionAttempt> = Vec::new();
        let plaintext = shift_char_string(ciphertext, 0);
        proof {
            lemma_shift_string_zero(s);
        }
        let att = DecryptionAttempt {
            cipher_name: String::from_str("Caesar"),
            key: u64_to_string(0),
            plaintext,
            score: i64::MAX,
        };
        r.push(att);
        return r;
    }
    // Score all 26 shifts; rank by complemented score so that the
    // shared ranking routine (descending) yields ascending chi-squared.
    let mut comps: Vec<u64> = Vec::new();
    let mut shift: usize = 0;
    while shift < 26
        invariant
            s == ciphertext@,
            s.len() < 0x1_0000_0000,
            spec_alpha(s).len() > 0,
            shift <= 26,
            comps@.len() == shift,
            forall|g: int|
                0 <= g < shift ==> #[trigger] comps@[g] == 30_000_000_000_000 - spec_caesar_score(
                    s,
                    g,
                ),
        decreases 26 - shift,
    {
        let plain = shift_char_string(ciphertext, -(shift as i8));
        proof {
            assert(plain@.len() == s.len());
            lemma_alpha_shift_commute(s, -(shift as int));
            assert(spec_alpha(plain@).len() == spec_alpha(s).len());
            lemma_english_likelihood_bounds(spec_alpha_bytes(plain@));
        }
        let sc_opt = score_english_likelihood(plain.as_str());
        let sc = match sc_opt {
            Option::Some(v) => v,
            Option::None => {
                proof {
                    assert(false);
                }
                0
            },
        };
        comps.push(30_000_000_000_000 - sc);
        shift += 1;
    }
    let ranked = rank_shifts(&comps, 26);
    let mut out: Vec<DecryptionAttempt> = Vec::new();
    let mut k: usize = 0;
    while k < 26
        invariant
            s == ciphertext@,
            s.len() < 0x1_0000_0000,
            spec_alpha(s).len() > 0,
            k <= 26,
            out@.len() == k,
            ranked@.len() == 26,
            forall|j: int| 0 <= j < 26 ==> 0 <= (#[trigger] ranked@[j]).0 < 26,
            forall|j: int| 0 <= j < 26 ==> (#[trigger] ranked@[j]).1 == comps@[ranked@[j].0 as int],
            forall|j1: int, j2: int|
                0 <= j1 < j2 < 26 ==> shift_pair_before(#[trigger] ranked@[j1], #[trigger] ranked@[j2]),
            comps@.len() == 26,
            forall|g: int|
                0 <= g < 26 ==> #[trigger] comps@[g] == 30_000_000_000_000 - spec_caesar_score(
                    s,
                    g,
                ),
            forall|j: int|
                0 <= j < k ==> spec_caesar_row_ok(s, #[trigger] out@[j], ranked@[j].0 as int),
        decreases 26 - k,
    {
        let (sh, comp) = ranked[k];
        let plain = shift_char_string(ciphertext, -(sh as i8));
        proof {
            lemma_alpha_shift_commute(s, -(sh as int));
            lemma_english_likelihood_bounds(spec_alpha_bytes(plain@));
            assert(comp == 30_000_000_000_000 - spec_caesar_score(s, sh as int));
        }
        let att = DecryptionAttempt {
            cipher_name: String::from_str("Caesar"),
            key: u64_to_string(sh as u64),
            plaintext: plain,
            score: (30_000_000_000_000 - comp) as i64,
        };
        out.push(att);
        k += 1;
    }
    proof {
        // Every shift appears in the full ranking of all 26.
        assert forall|sh: int| 0 <= sh < 26 implies #[trigger] caesar_has_row(s, out@, sh) by {
            assert(shift_appears(ranked@, sh));
            let j = choose|j: int| 0 <= j < ranked@.len() && (#[trigger] ranked@[j]).0 == sh;
            assert(spec_caesar_row_ok(s, out@[j], sh));
        }
        assert forall|k2: int| 0 <= k2 < 26 implies #[trigger] caesar_row_some(s, out@[k2]) by {
            assert(spec_caesar_row_ok(s, out@[k2], ranked@[k2].0 as int));
        }
        assert forall|k1: int, k2: int|
            0 <= k1 < k2 < 26 implies (#[trigger] out@[k1]).score <= (#[trigger] out@[k2]).score
            by {
            assert(shift_pair_before(ranked@[k1], ranked@[k2]));
            assert(spec_caesar_row_ok(s, out@[k1], ranked@[k1].0 as int));
            assert(spec_caesar_row_ok(s, out@[k2], ranked@[k2].0 as int));
        }
    }
    out
}

/// What a positive Caesar identification reports: the smallest shift
/// whose decryption minimises the chi-squared score, that score as
/// the confidence, and the `Potential Shift` parameter text.
pub open spec fn spec_caesar_identification_ok(s: Seq<char>, res: IdentificationResult) -> bool {
    exists|sh: int|
        {
            &&& 0 <= sh < 26
            &&& res.confidence_score == #[trigger] spec_caesar_score(s, sh)
            &&& res.cipher_name@ =~= "Caesar"@
            &&& res.parameters is Some
            &&& res.parameters->Some_0@ =~= "Potential Shift: "@ + spec_u64_digits(sh)
            &&& (forall|g: int|
                0 <= g < 26 ==> spec_caesar_score(s, sh) <= #[trigger] spec_caesar_score(s, g))
            &&& (forall|g: int|
                0 <= g < 26 && #[trigger] spec_caesar_score(s, g) == spec_caesar_score(s, sh)
                    ==> sh <= g)
        }
}

/// Identify a Caesar cipher: the best shift by chi-squared score, as
/// a confidence value (lower is better) and a `Potential Shift`
/// parameter string. `None` when the text has no letters.
pub fn run_caesar_identification(ciphertext: &str) -> (r: Option<IdentificationResult>)
    requires
        ciphertext@.len() < 0x1_0000_0000,
    ensures
        ({
            let s = ciphertext@;
            &&& (r is None <==> spec_alpha(s).len() == 0)
            &&& (r is Some ==> spec_caesar_identification_ok(s, r->Some_0))
        }),
{
    let ghost s = ciphertext@;
    let alen = {
        let a = crate::analysis::get_alphabetic_chars(ciphertext);
        a.as_str().unicode_len()
    };
    if alen == 0 {
        return Option::None;
    }
    let mut comps: Vec<u64> = Vec::new();
    let mut shift: usize = 0;
    while shift < 26
        invariant
            s == ciphertext@,
            s.len() < 0x1_0000_0000,
            spec_alpha(s).len() > 0,
            shift <= 26,
            comps@.len() == shift,
            forall|g: int|
                0 <= g < shift ==> #[trigger] comps@[g] == 30_000_000_000_000 - spec_caesar_score(
                    s,
                    g,
                ),
        decreases 26 - shift,
    {
        let plain = shift_char_string(ciphertext, -(shift as i8));
        proof {
            lemma_alpha_shift_commute(s, -(shift as int));
            lemma_english_likelihood_bounds(spec_alpha_bytes(plain@));
        }
        let sc_opt = score_english_likelihood(plain.as_str());
        let sc = match sc_opt {
            Option::Some(v) => v,
            Option::None => {
                proof {
                    assert(false);
                }
                0
            },
        };
        comps.push(30_000_000_000_000 - sc);
        shift += 1;
    }
    let ranked = rank_shifts(&comps, 26);
    let (best_shift, best_comp) = ranked[0];
    proof {
        assert(best_comp == comps@[best_shift as int]);
        assert forall|g: int|
            0 <= g < 26 implies spec_caesar_score(s, best_shift as int)
            <= #[trigger] spec_caesar_score(s, g) by {
            if g != best_shift as int {
                assert(shift_appears(ranked@, g));
                let j = choose|j: int| 0 <= j < ranked@.len() && (#[trigger] ranked@[j]).0 == g;
                if j > 0 {
                    assert(shift_pair_before(ranked@[0], ranked@[j]));
                }
            }
        }
        // On a tie the ranking keeps the smaller shift first, so the
        // reported shift is the least minimiser.
        assert forall|g: int|
            0 <= g < 26 && #[trigger] spec_caesar_score(s, g) == spec_caesar_score(
                s,
                best_shift as int,
            ) implies best_shift as int <= g by {
            if g != best_shift as int {
                assert(shift_appears(ranked@, g));
                let j = choose|j: int| 0 <= j < ranked@.len() && (#[trigger] ranked@[j]).0 == g;
                assert(j != 0);
                assert(shift_pair_before(ranked@[0], ranked@[j]));
            }
        }
    }
    proof {
        lemma_alpha_shift_commute(s, -(best_shift as int));
        lemma_english_likelihood_bounds(
            spec_alpha_bytes(spec_shift_string(s, -(best_shift as int))),
        );
        assert(spec_caesar_score(s, best_shift as int) >= 0);
        assert(best_comp <= 30_000_000_000_000);
    }
    let mut params = String::from_str("Potential Shift: ");
    let digits = u64_to_string(best_shift as u64);
    params.append(digits.as_str());
    let conf = 30_000_000_000_000u64 - best_comp;
    proof {
        assert(conf == spec_caesar_score(s, best_shift as int));
    }
    let res = IdentificationResult {
        cipher_name: String::from_str("Caesar"),
        confidence_score: conf,
        parameters: Option::Some(params),
    };
    proof {
        assert(spec_caesar_identification_ok(s, res)) by {
            assert(res.confidence_score == spec_caesar_score(s, best_shift as int));
        }
    }
    Option::Some(res)
}

/// Recognises Caesar ciphertext.
pub struct CaesarIdentifier;

/// Brute-forces Caesar ciphertext.
pub struct CaesarDecoder;

impl CaesarIdentifier {
    pub fn new(_config: &Config) -> (r: Self) {
        CaesarIdentifier {  }
    }
}

impl CaesarDecoder {
    pub fn new(_config: &Config) -> (r: Self) {
        CaesarDecoder {  }
    }
}

impl Identifier for CaesarIdentifier {
    open spec fn id_ok(&self, ciphertext: Seq<char>, res: IdentificationResult) -> bool {
        spec_caesar_identification_ok(ciphertext, res)
    }

    fn identify(&self, ciphertext: &str) -> (r: Option<IdentificationResult>) {
        if ciphertext.unicode_len() as u64 >= 0x1_0000_0000u64 {
            return Option::None;
        }
        run_caesar_identification(ciphertext)
    }
}

impl Decoder for CaesarDecoder {
    open spec fn attempt_ok(&self, ciphertext: Seq<char>, att: DecryptionAttempt) -> bool {
        caesar_row_some(ciphertext, att) || (att.cipher_name@ =~= "Caesar"@ && att.key@
            =~= spec_u64_digits(0) && att.plaintext@ =~= ciphertext && att.score == i64::MAX)
    }

    open spec fn ranked_ok(&self, rows: Seq<DecryptionAttempt>) -> bool {
        // Chi-squared: lower is better, so ranked ascending.
        forall|k1: int, k2: int|
            0 <= k1 < k2 < rows.len() ==> (#[trigger] rows[k1]).score <= (#[trigger] rows[k2]).score
    }

    open spec fn spec_min_len(&self) -> int {
        0
    }

    open spec fn spec_name(&self) -> Seq<char> {
        "Caesar"@
    }

    fn decrypt(&self, ciphertext: &str) -> (r: Vec<DecryptionAttempt>) {
        if ciphertext.unicode_len() as u64 >= 0x1_0000_0000u64 {
            return Vec::new();
        }
        run_caesar_decryption(ciphertext)
    }

    fn name(&self) -> (r: &'static str) {
        "Caesar"
    }
}

} // verus!
