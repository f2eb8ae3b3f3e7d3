//! The Vigenere cipher and its cryptanalysis: encryption and
//! decryption under an alphabetic keyword, key-length estimation, a
//! per-column MIC shift search, and trigram-scored keyword ranking.

use crate::analysis::{
    col_len, estimate_key_length_ic_periodicity, estimate_key_lengths, extract_column,
    ic_of_alpha_bytes, mic_rank_bytes, period_appears, period_candidate, period_entry_before,
    spec_alpha, spec_alpha_bytes, spec_avg_column_ic, spec_ic_scaled, text_alpha_bytes,
    ENGLISH_IC_PPM, MIN_CHARS_FOR_MIC, RANDOM_IC_PPM,
};
use crate::cipher_utils::{
    lemma_shift_char_class, push_char, shift_char, spec_is_ascii_alpha, spec_is_ascii_lower,
    spec_is_ascii_upper, spec_shift_char,
};
use crate::config::Config;
use crate::decoder::{Decoder, DecryptionAttempt};
use crate::fmt_util::u64_to_string;
use crate::identifier::{Identifier, IdentificationResult};
use crate::letter_stats::byte_is_alpha;
use crate::trigrams::{
    build_english_trigram_table, score_trigram_log_prob_with, spec_corpus, spec_corpus_loadable,
    spec_table, spec_trigram_score, trigram_table_wf,
};
use vstd::prelude::*;
use vstd::string::{StrSliceExecFns, StringExecFns};

verus! {

/// Case-folded alphabet position of a character; 26 for non-letters.
pub open spec fn spec_char_letter_index(c: char) -> int {
    if spec_is_ascii_upper(c) {
        c as u32 - 65
    } else if spec_is_ascii_lower(c) {
        c as u32 - 97
    } else {
        26
    }
}

/// A usable keyword: non-empty and made of ASCII letters only.
pub open spec fn spec_keyword_valid(kw: Seq<char>) -> bool {
    kw.len() >= 1 && forall|i: int| 0 <= i < kw.len() ==> spec_is_ascii_alpha(#[trigger] kw[i])
}

/// The shift the keyword applies at the `j`-th letter of the text.
pub open spec fn spec_key_shift(kw: Seq<char>, j: int) -> int
    recommends
        kw.len() >= 1,
{
    spec_char_letter_index(kw[j % (kw.len() as int)])
}

/// Apply the keyword to `s` starting at key position `j`: each letter
/// is shifted by `dir` times its key shift and advances the key; every
/// other character passes through unchanged.
pub open spec fn spec_vig(s: Seq<char>, kw: Seq<char>, j: int, dir: int) -> Seq<char>
    decreases s.len(),
{
    if s.len() == 0 {
        Seq::empty()
    } else {
        let c = s[0];
        if spec_is_ascii_alpha(c) {
            seq![spec_shift_char(c, dir * spec_key_shift(kw, j))] + spec_vig(
                s.drop_first(),
                kw,
                j + 1,
                dir,
            )
        } else {
            seq![c] + spec_vig(s.drop_first(), kw, j, dir)
        }
    }
}

/// Vigenere encryption; an invalid keyword leaves the text unchanged.
pub open spec fn spec_vigenere_encrypt(s: Seq<char>, kw: Seq<char>) -> Seq<char> {
    if spec_keyword_valid(kw) {
        spec_vig(s, kw, 0, 1)
    } else {
        s
    }
}

/// Vigenere decryption; an invalid keyword leaves the text unchanged.
pub open spec fn spec_vigenere_decrypt(s: Seq<char>, kw: Seq<char>) -> Seq<char> {
    if spec_keyword_valid(kw) {
        spec_vig(s, kw, 0, -1)
    } else {
        s
    }
}

/// Applying a keyword never changes a text's length.
pub proof fn lemma_vig_len(s: Seq<char>, kw: Seq<char>, j: int, dir: int)
    ensures
        spec_vig(s, kw, j, dir).len() == s.len(),
    decreases s.len(),
{
    if s.len() > 0 {
        if spec_is_ascii_alpha(s[0]) {
            lemma_vig_len(s.drop_first(), kw, j + 1, dir);
        } else {
            lemma_vig_len(s.drop_first(), kw, j, dir);
        }
    }
}

/// Extending the text by one character appends one mapped character,
/// keyed by the number of letters already consumed.
pub proof fn lemma_vig_push(s: Seq<char>, c: char, kw: Seq<char>, j: int, dir: int)
    ensures
        spec_vig(s.push(c), kw, j, dir) == spec_vig(s, kw, j, dir).push(
            if spec_is_ascii_alpha(c) {
                spec_shift_char(c, dir * spec_key_shift(kw, j + spec_alpha(s).len()))
            } else {
                c
            },
        ),
    decreases s.len(),
{
    broadcast use vstd::seq_lib::group_filter_ensures;

    if s.len() == 0 {
        reveal_with_fuel(Seq::filter, 3);
        reveal_with_fuel(spec_vig, 3);
        assert(spec_alpha(s).len() == 0);
        let sp = s.push(c);
        assert(sp[0] == c);
        assert(sp.drop_first() =~= Seq::<char>::empty());
        if spec_is_ascii_alpha(c) {
            assert(spec_vig(sp, kw, j, dir) =~= spec_vig(s, kw, j, dir).push(
                spec_shift_char(c, dir * spec_key_shift(kw, j)),
            ));
        } else {
            assert(spec_vig(sp, kw, j, dir) =~= spec_vig(s, kw, j, dir).push(c));
        }
    } else {
        let c0 = s[0];
        let t = s.drop_first();
        assert(s.push(c).drop_first() =~= t.push(c));
        assert(s.push(c)[0] == c0);
        // The alphabetic count splits at the first character.
        assert(spec_alpha(s).len() == (if spec_is_ascii_alpha(c0) {
            1int
        } else {
            0int
        }) + spec_alpha(t).len()) by {
            assert(s =~= seq![c0] + t);
            Seq::<char>::filter_distributes_over_add(
                seq![c0],
                t,
                |x: char| spec_is_ascii_alpha(x),
            );
            reveal_with_fuel(Seq::filter, 3);
            assert(seq![c0].drop_last() =~= Seq::<char>::empty());
            assert(seq![c0].filter(|x: char| spec_is_ascii_alpha(x)).len() == (
            if spec_is_ascii_alpha(c0) {
                1int
            } else {
                0int
            }));
        }
        if spec_is_ascii_alpha(c0) {
            lemma_vig_push(t, c, kw, j + 1, dir);
            assert(spec_vig(s.push(c), kw, j, dir) =~= spec_vig(s, kw, j, dir).push(
                if spec_is_ascii_alpha(c) {
                    spec_shift_char(c, dir * spec_key_shift(kw, j + spec_alpha(s).len()))
                } else {
                    c
                },
            ));
        } else {
            lemma_vig_push(t, c, kw, j, dir);
            assert(spec_vig(s.push(c), kw, j, dir) =~= spec_vig(s, kw, j, dir).push(
                if spec_is_ascii_alpha(c) {
                    spec_shift_char(c, dir * spec_key_shift(kw, j + spec_alpha(s).len()))
                } else {
                    c
                },
            ));
        }
    }
}

/// Decrypting what was just encrypted restores the text, letter by
/// letter, at any key position.
pub proof fn lemma_vig_inverse(s: Seq<char>, kw: Seq<char>, j: int)
    requires
        spec_keyword_valid(kw),
    ensures
        spec_vig(spec_vig(s, kw, j, 1), kw, j, -1) == s,
    decreases s.len(),
{
    if s.len() == 0 {
        assert(spec_vig(spec_vig(s, kw, j, 1), kw, j, -1) =~= s);
    } else {
        let c0 = s[0];
        let t = s.drop_first();
        let ks = spec_key_shift(kw, j);
        if spec_is_ascii_alpha(c0) {
            let x = spec_shift_char(c0, 1 * ks);
            let enc = spec_vig(s, kw, j, 1);
            assert(enc =~= seq![x] + spec_vig(t, kw, j + 1, 1));
            lemma_shift_char_class(c0, 1 * ks);
            assert(spec_is_ascii_alpha(x));
            assert(enc[0] == x);
            assert(enc.drop_first() =~= spec_vig(t, kw, j + 1, 1));
            lemma_vig_inverse(t, kw, j + 1);
            crate::cipher_utils::lemma_shift_char_compose(c0, 1 * ks, -1 * ks);
            crate::cipher_utils::lemma_shift_char_inverse(c0, ks);
            assert(spec_shift_char(x, -1 * ks) == c0) by {
                assert(1 * ks == ks);
                assert(-1 * ks == -ks);
            }
            assert(spec_vig(enc, kw, j, -1) =~= s);
        } else {
            let enc = spec_vig(s, kw, j, 1);
            assert(enc =~= seq![c0] + spec_vig(t, kw, j, 1));
            assert(enc[0] == c0);
            assert(enc.drop_first() =~= spec_vig(t, kw, j, 1));
            lemma_vig_inverse(t, kw, j);
            assert(spec_vig(enc, kw, j, -1) =~= s);
        }
    }
}

/// Round trip: decrypting an encryption under the same keyword
/// restores the plaintext exactly, non-letters, positions and casing
/// included — for every keyword and every text.
pub proof fn lemma_vigenere_round_trip(s: Seq<char>, kw: Seq<char>)
    ensures
        spec_vigenere_decrypt(spec_vigenere_encrypt(s, kw), kw) == s,
{
    if spec_keyword_valid(kw) {
        lemma_vig_inverse(s, kw, 0);
    }
}

/// The keyword's per-position shifts, or `None` for an unusable
/// keyword.
fn keyword_indices(keyword: &str) -> (r: Option<Vec<u8>>)
    ensures
        r is Some <==> spec_keyword_valid(keyword@),
        r is Some ==> ({
            let ks = r->Some_0@;
            &&& ks.len() == keyword@.len()
            &&& forall|i: int|
                0 <= i < ks.len() ==> #[trigger] ks[i] == spec_char_letter_index(keyword@[i])
                    && ks[i] < 26
        }),
{
    let mut ks: Vec<u8> = Vec::new();
    for c in it: keyword.chars()
        invariant
            it.seq() == keyword@,
            ks@.len() == it.index(),
            forall|i: int|
                0 <= i < ks@.len() ==> #[trigger] ks@[i] == spec_char_letter_index(keyword@[i])
                    && ks@[i] < 26,
            forall|i: int| 0 <= i < ks@.len() ==> spec_is_ascii_alpha(#[trigger] keyword@[i]),
    {
        let u = c as u32;
        if 65 <= u && u <= 90 {
            ks.push((u - 65) as u8);
        } else if 97 <= u && u <= 122 {
            ks.push((u - 97) as u8);
        } else {
            proof {
                assert(!spec_is_ascii_alpha(keyword@[it.index() as int]));
            }
            return Option::None;
        }
    }
    if ks.len() == 0 {
        return Option::None;
    }
    Option::Some(ks)
}

/// Apply the keyword to every character of `text` in direction `dir`
/// (`1` to encrypt, `-1` to decrypt).
fn vigenere_apply(text: &str, keyword: &str, dir: i8) -> (r: String)
    requires
        dir == 1i8 || dir == -1i8,
        text@.len() < usize::MAX,
    ensures
        r@ == if spec_keyword_valid(keyword@) {
            spec_vig(text@, keyword@, 0, dir as int)
        } else {
            text@
        },
{
    let ks_opt = keyword_indices(keyword);
    let ks = match ks_opt {
        Option::None => {
            return text.to_owned();
        },
        Option::Some(v) => v,
    };
    let klen = ks.len();
    let mut out = String::new();
    let mut j: usize = 0;
    for c in it: text.chars()
        invariant
            it.seq() == text@,
            text@.len() < usize::MAX,
            dir == 1i8 || dir == -1i8,
            spec_keyword_valid(keyword@),
            klen == ks@.len(),
            klen == keyword@.len(),
            klen >= 1,
            forall|i: int|
                0 <= i < ks@.len() ==> #[trigger] ks@[i] == spec_char_letter_index(keyword@[i])
                    && ks@[i] < 26,
            out@ == spec_vig(it.seq().take(it.index() as int), keyword@, 0, dir as int),
            j == spec_alpha(it.seq().take(it.index() as int)).len(),
            j <= it.index(),
    {
        let ghost pre = it.seq().take(it.index() as int);
        proof {
            assert(it.seq().take(it.index() as int + 1) == pre.push(c));
            lemma_vig_push(pre, c, keyword@, 0, dir as int);
            crate::analysis::lemma_alpha_push(pre, c);
        }
        let u = c as u32;
        if (65 <= u && u <= 90) || (97 <= u && u <= 122) {
            let sh = ks[j % klen];
            proof {
                vstd::arithmetic::div_mod::lemma_mod_bound(j as int, klen as int);
                assert((j % klen) as int == (j as int) % (klen as int));
                assert(ks@[(j as int) % (klen as int)] == spec_char_letter_index(
                    keyword@[(j as int) % (klen as int)],
                ));
                assert(sh == spec_key_shift(keyword@, j as int));
            }
            let shifted = if dir == 1i8 {
                shift_char(c, sh as i8)
            } else {
                shift_char(c, -(sh as i8))
            };
            proof {
                let ksj = spec_key_shift(keyword@, j as int);
                if dir == 1i8 {
                    assert((sh as i8) as int == ksj);
                    assert((dir as int) * ksj == ksj) by (nonlinear_arith)
                        requires
                            dir as int == 1,
                    ;
                } else {
                    assert((-(sh as i8)) as int == -ksj);
                    assert((dir as int) * ksj == -ksj) by (nonlinear_arith)
                        requires
                            dir as int == -1,
                    ;
                }
                assert(shifted == spec_shift_char(c, (dir as int) * ksj));
            }
            push_char(&mut out, shifted);
            j += 1;
        } else {
            push_char(&mut out, c);
        }
    }
    proof {
        assert(text@.take(text@.len() as int) == text@);
    }
    out
}

/// Encrypt `plaintext` under an alphabetic keyword; an empty or
/// non-alphabetic keyword returns the text unchanged.
pub fn vigenere_encrypt(plaintext: &str, keyword: &str) -> (r: String)
    requires
        plaintext@.len() < usize::MAX,
    ensures
        r@ == spec_vigenere_encrypt(plaintext@, keyword@),
{
    vigenere_apply(plaintext, keyword, 1)
}

/// Decrypt `ciphertext` under an alphabetic keyword; an empty or
/// non-alphabetic keyword returns the text unchanged.
pub fn vigenere_decrypt(ciphertext: &str, keyword: &str) -> (r: String)
    requires
        ciphertext@.len() < usize::MAX,
    ensures
        r@ == spec_vigenere_decrypt(ciphertext@, keyword@),
{
    vigenere_apply(ciphertext, keyword, -1)
}

/// The identification confidence derived from a scaled IC: how far
/// the IC has fallen from English toward random, clamped to
/// `[0, 1_000_000]` ppm; higher means more Vigenere-like.
pub open spec fn spec_vigenere_confidence(ic: int) -> int {
    let raw = if ic <= RANDOM_IC_PPM as int {
        0int
    } else if (ic - RANDOM_IC_PPM) * 1_000_000 / ((ENGLISH_IC_PPM - RANDOM_IC_PPM) as int)
        >= 1_000_000 {
        1_000_000int
    } else {
        (ic - RANDOM_IC_PPM) * 1_000_000 / ((ENGLISH_IC_PPM - RANDOM_IC_PPM) as int)
    };
    1_000_000 - raw
}

/// Append `name (value)` summaries for the first up-to-three entries
/// of an estimate list. Only ever extends the string it is given.
fn append_estimates(out: &mut String, firsts: &Vec<u64>, seconds: &Vec<u64>)
    requires
        firsts@.len() == seconds@.len(),
    ensures
        final(out)@.len() >= old(out)@.len(),
        final(out)@.subrange(0, old(out)@.len() as int) == old(out)@,
{
    let ghost base = out@;
    proof {
        assert(out@.subrange(0, base.len() as int) =~= base);
    }
    let mut i: usize = 0;
    while i < firsts.len() && i < 3
        invariant
            firsts@.len() == seconds@.len(),
            out@.len() >= base.len(),
            out@.subrange(0, base.len() as int) == base,
        decreases firsts@.len() - i,
    {
        let ghost cur = out@;
        if i > 0 {
            out.append(", ");
        }
        let a = u64_to_string(firsts[i]);
        out.append(a.as_str());
        out.append(" (");
        let b = u64_to_string(seconds[i]);
        out.append(b.as_str());
        out.append(")");
        proof {
            assert(out@.subrange(0, base.len() as int) =~= base);
        }
        i += 1;
    }
}

/// What a positive Vigenere identification reports: the family name,
/// the exact clamped confidence derived from the scaled IC, and a
/// non-empty parameter summary opening with the raw IC.
pub open spec fn spec_vigenere_identification_ok(s: Seq<char>, res: IdentificationResult) -> bool {
    &&& res.cipher_name@ =~= "Vigenere"@
    &&& res.confidence_score == spec_vigenere_confidence(spec_ic_scaled(spec_alpha_bytes(s)))
    &&& res.parameters is Some
    &&& res.parameters->Some_0@.len() >= "Low IC (ppm): "@.len()
    &&& res.parameters->Some_0@.len() > 0
    &&& res.parameters->Some_0@.subrange(0, "Low IC (ppm): "@.len() as int) == "Low IC (ppm): "@
}

/// Identify a Vigenere cipher from a depressed index of coincidence,
/// reporting a ppm confidence (higher is more Vigenere-like) and a
/// summary of both key-length estimators. `None` when the text is
/// shorter than `min_text_len` letters, has fewer than two letters,
/// or its IC is too close to plain English. Texts are capped at
/// 14,000 characters so every statistical counter fits a machine
/// word.
pub fn run_vigenere_identification(ciphertext: &str, min_text_len: usize) -> (r: Option<
    IdentificationResult,
>)
    requires
        ciphertext@.len() <= 14000,
    ensures
        ({
            let ab = spec_alpha_bytes(ciphertext@);
            &&& (r is None <==> (ab.len() < min_text_len || ab.len() < 2 || spec_ic_scaled(ab)
                > 60_000))
            &&& (r is Some ==> spec_vigenere_identification_ok(ciphertext@, r->Some_0))
        }),
{
    let ghost s = ciphertext@;
    let ab = text_alpha_bytes(ciphertext);
    proof {
        crate::analysis::lemma_alpha_bytes_are_alpha(s);
        assert(spec_alpha(s).len() <= s.len()) by {
            broadcast use vstd::seq_lib::group_filter_ensures;

        }
    }
    let n = ab.len();
    if n < min_text_len {
        return Option::None;
    }
    let ic_opt = ic_of_alpha_bytes(&ab);
    let ic = match ic_opt {
        Option::None => {
            return Option::None;
        },
        Option::Some(v) => v,
    };
    if ic > 60_000 {
        return Option::None;
    }
    // Parameter summary: raw IC plus the top key-length estimates of
    // both methods.
    proof {
        let tl = ciphertext@.len() as int;
        assert((20 + 1) * ((tl + 1) * (tl + 1)) < 4_294_967_295) by (nonlinear_arith)
            requires
                0 <= tl <= 14000,
        ;
        assert(usize::MAX >= 4_294_967_295);
    }
    let kasiski = estimate_key_lengths(ciphertext, 3, 20);
    let icp = estimate_key_length_ic_periodicity(ciphertext, 2, 20);
    let mut params = String::from_str("Low IC (ppm): ");
    let ghost lead = "Low IC (ppm): "@;
    proof {
        reveal_strlit("Low IC (ppm): ");
        assert(lead.len() > 0);
        assert(params@.subrange(0, lead.len() as int) =~= lead);
    }
    let icd = u64_to_string(ic);
    params.append(icd.as_str());
    proof {
        assert(params@.subrange(0, lead.len() as int) =~= lead);
    }
    if kasiski.len() > 0 {
        params.append(". Kasiski Top: [");
        proof {
            assert(params@.subrange(0, lead.len() as int) =~= lead);
        }
        let mut kf: Vec<u64> = Vec::new();
        let mut ks: Vec<u64> = Vec::new();
        let mut i: usize = 0;
        while i < kasiski.len()
            invariant
                kf@.len() == ks@.len(),
            decreases kasiski@.len() - i,
        {
            let (f, c) = kasiski[i];
            kf.push(f as u64);
            ks.push(c as u64);
            i += 1;
        }
        append_estimates(&mut params, &kf, &ks);
        proof {
            assert(params@.subrange(0, lead.len() as int) =~= lead);
        }
        params.append("]");
        proof {
            assert(params@.subrange(0, lead.len() as int) =~= lead);
        }
    } else {
        params.append(". Kasiski inconclusive");
        proof {
            assert(params@.subrange(0, lead.len() as int) =~= lead);
        }
    }
    if icp.len() > 0 {
        params.append(". IC Periodicity Top (avg IC ppm): [");
        proof {
            assert(params@.subrange(0, lead.len() as int) =~= lead);
        }
        let mut pf: Vec<u64> = Vec::new();
        let mut ps: Vec<u64> = Vec::new();
        let mut i: usize = 0;
        while i < icp.len()
            invariant
                pf@.len() == ps@.len(),
            decreases icp@.len() - i,
        {
            let (l, a) = icp[i];
            pf.push(l as u64);
            ps.push(a);
            i += 1;
        }
        append_estimates(&mut params, &pf, &ps);
        proof {
            assert(params@.subrange(0, lead.len() as int) =~= lead);
        }
        params.append("]");
        proof {
            assert(params@.subrange(0, lead.len() as int) =~= lead);
        }
    } else {
        params.append(". IC Periodicity inconclusive");
        proof {
            assert(params@.subrange(0, lead.len() as int) =~= lead);
        }
    }
    proof {
        assert(params@.subrange(0, lead.len() as int) =~= lead);
        assert(params@.len() >= lead.len());
    }
    // Confidence: how far the IC fell from English toward random.
    let raw: u64 = if ic <= RANDOM_IC_PPM {
        0
    } else {
        let scaled = (ic - RANDOM_IC_PPM) * 1_000_000 / (ENGLISH_IC_PPM - RANDOM_IC_PPM);
        if scaled >= 1_000_000 {
            1_000_000
        } else {
            scaled
        }
    };
    let conf = 1_000_000 - raw;
    proof {
        assert(conf == spec_vigenere_confidence(spec_ic_scaled(spec_alpha_bytes(s))));
    }
    Option::Some(
        IdentificationResult {
            cipher_name: String::from_str("Vigenere"),
            confidence_score: conf,
            parameters: Option::Some(params),
        },
    )
}

/// Powers of three, for walking the candidate-key space lazily.
pub open spec fn spec_pow3(k: nat) -> int
    decreases k,
{
    if k == 0 {
        1
    } else {
        3 * spec_pow3((k - 1) as nat)
    }
}

proof fn lemma_pow3_pos(k: nat)
    ensures
        spec_pow3(k) >= 1,
    decreases k,
{
    if k > 0 {
        lemma_pow3_pos((k - 1) as nat);
    }
}

proof fn lemma_pow3_15()
    ensures
        spec_pow3(15) == 14_348_907,
{
    assert(spec_pow3(0) == 1);
    assert(spec_pow3(1) == 3);
    assert(spec_pow3(2) == 9);
    assert(spec_pow3(3) == 27);
    assert(spec_pow3(4) == 81);
    assert(spec_pow3(5) == 243);
    assert(spec_pow3(6) == 729);
    assert(spec_pow3(7) == 2187);
    assert(spec_pow3(8) == 6561);
    assert(spec_pow3(9) == 19683);
    assert(spec_pow3(10) == 59049);
    assert(spec_pow3(11) == 177147);
    assert(spec_pow3(12) == 531441);
    assert(spec_pow3(13) == 1594323);
    assert(spec_pow3(14) == 4782969);
    assert(spec_pow3(15) == 14348907);
}

proof fn lemma_pow3_mono(a: nat, b: nat)
    requires
        a <= b,
    ensures
        spec_pow3(a) <= spec_pow3(b),
    decreases b,
{
    if a < b {
        lemma_pow3_mono(a, (b - 1) as nat);
        lemma_pow3_pos((b - 1) as nat);
    }
}

/// `3^k` as a machine integer.
fn pow3_usize(k: usize) -> (r: usize)
    requires
        k <= 15,
    ensures
        r == spec_pow3(k as nat),
        1 <= r <= 14_348_907,
{
    let mut r: usize = 1;
    let mut i: usize = 0;
    proof {
        lemma_pow3_15();
        lemma_pow3_mono(0, 15);
    }
    while i < k
        invariant
            i <= k <= 15,
            r == spec_pow3(i as nat),
        decreases k - i,
    {
        proof {
            lemma_pow3_mono((i + 1) as nat, 15);
            lemma_pow3_15();
            lemma_pow3_pos(i as nat);
        }
        r = r * 3;
        i = i + 1;
    }
    proof {
        lemma_pow3_mono(k as nat, 15);
        lemma_pow3_15();
        lemma_pow3_pos(k as nat);
    }
    r
}

/// What every row the Vigenere search emits must look like: an
/// upper-case keyword of a tried length (two through twelve) whose
/// decryption and trigram score are exactly what the verified cipher
/// and scorer produce.
pub open spec fn vigenere_row_ok(s: Seq<char>, att: DecryptionAttempt) -> bool {
    &&& att.cipher_name@ =~= "Vigenere"@
    &&& spec_keyword_valid(att.key@)
    &&& forall|i: int| 0 <= i < att.key@.len() ==> spec_is_ascii_upper(#[trigger] att.key@[i])
    &&& 2 <= att.key@.len() <= 12
    &&& att.plaintext@ == spec_vigenere_decrypt(s, att.key@)
    &&& att.score == spec_trigram_score(spec_alpha_bytes(att.plaintext@), spec_table(spec_corpus()))
}

/// Scores never increase along `v`.
pub open spec fn attempts_sorted_desc(v: Seq<DecryptionAttempt>) -> bool {
    forall|k1: int, k2: int|
        0 <= k1 < k2 < v.len() ==> (#[trigger] v[k1]).score >= (#[trigger] v[k2]).score
}

/// Scores never decrease along `v`.
pub open spec fn attempts_sorted_asc(v: Seq<DecryptionAttempt>) -> bool {
    forall|k1: int, k2: int|
        0 <= k1 < k2 < v.len() ==> (#[trigger] v[k1]).score <= (#[trigger] v[k2]).score
}

/// Reverse a run of attempts.
fn reverse_attempts(v: Vec<DecryptionAttempt>) -> (r: Vec<DecryptionAttempt>)
    ensures
        r@ == v@.reverse(),
{
    let ghost whole = v@;
    let mut src = v;
    let mut out: Vec<DecryptionAttempt> = Vec::new();
    while src.len() > 0
        invariant
            out@.len() + src@.len() == whole.len(),
            src@ == whole.subrange(0, src@.len() as int),
            forall|i: int|
                0 <= i < out@.len() ==> #[trigger] out@[i] == whole[whole.len() - 1 - i],
        decreases src@.len(),
    {
        let ghost oldsrc = src@;
        let x = src.pop().unwrap();
        proof {
            assert(x == oldsrc.last());
            assert(src@ =~= whole.subrange(0, src@.len() as int));
        }
        out.push(x);
    }
    proof {
        assert(out@ =~= whole.reverse());
    }
    out
}

/// Merge two descending runs into one.
fn merge_attempts_desc(a: Vec<DecryptionAttempt>, b: Vec<DecryptionAttempt>) -> (r: Vec<
    DecryptionAttempt,
>)
    requires
        attempts_sorted_desc(a@),
        attempts_sorted_desc(b@),
    ensures
        r@.to_multiset() == a@.to_multiset().add(b@.to_multiset()),
        r@.len() == a@.len() + b@.len(),
        attempts_sorted_desc(r@),
{
    broadcast use vstd::seq_lib::group_to_multiset_ensures;

    let ghost am = a@.to_multiset();
    let ghost bm = b@.to_multiset();
    proof {
        a@.lemma_reverse_to_multiset();
        b@.lemma_reverse_to_multiset();
        vstd::seq_lib::to_multiset_len(a@);
        vstd::seq_lib::to_multiset_len(b@);
    }
    let mut ra = reverse_attempts(a);
    let mut rb = reverse_attempts(b);
    let mut out: Vec<DecryptionAttempt> = Vec::new();
    while ra.len() > 0 || rb.len() > 0
        invariant
            attempts_sorted_asc(ra@),
            attempts_sorted_asc(rb@),
            attempts_sorted_desc(out@),
            forall|i: int, j: int|
                0 <= i < out@.len() && 0 <= j < ra@.len() ==> (#[trigger] out@[i]).score >= (
                #[trigger] ra@[j]).score,
            forall|i: int, j: int|
                0 <= i < out@.len() && 0 <= j < rb@.len() ==> (#[trigger] out@[i]).score >= (
                #[trigger] rb@[j]).score,
            out@.to_multiset().add(ra@.to_multiset()).add(rb@.to_multiset()) == am.add(bm),
            out@.len() + ra@.len() + rb@.len() == am.len() + bm.len(),
        decreases ra@.len() + rb@.len(),
    {
        let take_a = if ra.len() == 0 {
            false
        } else if rb.len() == 0 {
            true
        } else {
            ra[ra.len() - 1].score >= rb[rb.len() - 1].score
        };
        if take_a {
            let ghost olda = ra@;
            let x = ra.pop().unwrap();
            proof {
                assert(x == olda.last());
                assert(ra@ == olda.drop_last());
                assert(olda.drop_last() =~= olda.remove(olda.len() - 1));
                vstd::seq_lib::to_multiset_remove(olda, olda.len() - 1);
                assert(ra@.to_multiset() =~= olda.to_multiset().remove(x));
                assert(olda.to_multiset().count(x) > 0) by {
                    assert(olda.contains(x));
                    vstd::seq_lib::to_multiset_contains(olda, x);
                }
                let ghost oldout = out@;
                vstd::seq_lib::to_multiset_build(oldout, x);
                assert(oldout.push(x).to_multiset() =~= oldout.to_multiset().insert(x));
            }
            out.push(x);
            proof {
                assert(out@.to_multiset().add(ra@.to_multiset()).add(rb@.to_multiset()) =~= am.add(
                    bm,
                ));
            }
        } else {
            let ghost oldb = rb@;
            let x = rb.pop().unwrap();
            proof {
                assert(x == oldb.last());
                assert(rb@ == oldb.drop_last());
                assert(oldb.drop_last() =~= oldb.remove(oldb.len() - 1));
                vstd::seq_lib::to_multiset_remove(oldb, oldb.len() - 1);
                assert(rb@.to_multiset() =~= oldb.to_multiset().remove(x));
                assert(oldb.to_multiset().count(x) > 0) by {
                    assert(oldb.contains(x));
                    vstd::seq_lib::to_multiset_contains(oldb, x);
                }
                let ghost oldout = out@;
                vstd::seq_lib::to_multiset_build(oldout, x);
                assert(oldout.push(x).to_multiset() =~= oldout.to_multiset().insert(x));
                // ra is non-empty here only if its top lost the comparison.
                if ra@.len() > 0 {
                    assert(x.score > ra@[ra@.len() - 1].score);
                }
            }
            out.push(x);
            proof {
                assert(out@.to_multiset().add(ra@.to_multiset()).add(rb@.to_multiset()) =~= am.add(
                    bm,
                ));
            }
        }
    }
    proof {
        vstd::seq_lib::to_multiset_len(out@);
        assert(ra@.to_multiset().len() == 0);
        assert(rb@.to_multiset().len() == 0);
        assert(out@.to_multiset() =~= am.add(bm));
    }
    out
}

/// Sort attempts by trigram score, best (highest) first, by merge
/// sort.
fn sort_attempts_desc(entries: Vec<DecryptionAttempt>) -> (r: Vec<DecryptionAttempt>)
    ensures
        r@.to_multiset() == entries@.to_multiset(),
        r@.len() == entries@.len(),
        forall|k1: int, k2: int|
            0 <= k1 < k2 < r@.len() ==> (#[trigger] r@[k1]).score >= (#[trigger] r@[k2]).score,
    decreases entries@.len(),
{
    let n = entries.len();
    if n <= 1 {
        return entries;
    }
    let ghost whole = entries@;
    let mut left = entries;
    let right = left.split_off(n / 2);
    proof {
        assert(whole =~= left@ + right@);
        vstd::seq_lib::lemma_multiset_commutative(left@, right@);
    }
    let ls = sort_attempts_desc(left);
    let rs = sort_attempts_desc(right);
    let r = merge_attempts_desc(ls, rs);
    proof {
        assert(r@.to_multiset() =~= whole.to_multiset());
    }
    r
}

/// Every interleaved column of stride `klen` holds enough letters
/// for MIC shift ranking.
pub open spec fn columns_rankable(ab: Seq<u8>, klen: int) -> bool {
    forall|i: int|
        0 <= i < klen ==> #[trigger] col_len(ab.len() as int, klen, i) >= MIN_CHARS_FOR_MIC as int
}

/// How many periodicity candidates with lengths in `[lo, hi)` rank
/// strictly before length `target` in the periodicity order.
pub open spec fn period_rank_before(ab: Seq<u8>, lo: int, hi: int, target: int) -> int
    decreases hi - lo,
{
    if hi <= lo {
        0
    } else {
        period_rank_before(ab, lo, hi - 1, target) + if period_candidate(ab, hi - 1)
            && period_entry_before(
            ((hi - 1) as usize, spec_avg_column_ic(ab, hi - 1) as u64),
            (target as usize, spec_avg_column_ic(ab, target) as u64),
        ) {
            1int
        } else {
            0int
        }
    }
}

/// The keyword search is certain to produce attempts: some candidate
/// key length ranks among the top four periodicity estimates and all
/// of its columns are long enough to rank.
pub open spec fn vigenere_search_viable(ab: Seq<u8>) -> bool {
    exists|lw: int|
        2 <= lw <= 12 && #[trigger] period_candidate(ab, lw) && columns_rankable(ab, lw)
            && period_rank_before(ab, 2, 13, lw) < 4
}

proof fn lemma_rank_before_nonneg(ab: Seq<u8>, lo: int, hi: int, target: int)
    ensures
        0 <= period_rank_before(ab, lo, hi, target),
    decreases hi - lo,
{
    if hi > lo {
        lemma_rank_before_nonneg(ab, lo, hi - 1, target);
    }
}

/// A run of distinct candidates that all rank before `target` cannot
/// outnumber the candidates counted before `target`.
proof fn lemma_rank_before_count(
    ab: Seq<u8>,
    r: Seq<(usize, u64)>,
    j: int,
    lo: int,
    hi: int,
    target: int,
)
    requires
        0 <= j <= r.len(),
        0 <= lo,
        hi <= 13,
        0 <= target <= 12,
        forall|k: int| 0 <= k < j ==> lo <= (#[trigger] r[k]).0 < hi,
        forall|k: int| 0 <= k < j ==> period_candidate(ab, (#[trigger] r[k]).0 as int),
        forall|k: int|
            0 <= k < j ==> (#[trigger] r[k]).1 == spec_avg_column_ic(ab, r[k].0 as int) as u64,
        forall|k: int|
            0 <= k < j ==> period_entry_before(
                #[trigger] r[k],
                (target as usize, spec_avg_column_ic(ab, target) as u64),
            ),
        forall|k1: int, k2: int| 0 <= k1 < k2 < j ==> (#[trigger] r[k1]).0 != (#[trigger] r[k2]).0,
    ensures
        j <= period_rank_before(ab, lo, hi, target),
    decreases hi - lo,
{
    if j == 0 {
        lemma_rank_before_nonneg(ab, lo, hi, target);
    } else if hi <= lo {
        assert(lo <= r[0].0 < hi);
    } else {
        if exists|k0: int| 0 <= k0 < j && (#[trigger] r[k0]).0 as int == hi - 1 {
            let k0 = choose|k0: int| 0 <= k0 < j && (#[trigger] r[k0]).0 as int == hi - 1;
            let r2 = r.remove(k0);
            assert forall|k: int| 0 <= k < j - 1 implies lo <= (#[trigger] r2[k]).0 < hi - 1
                && period_candidate(ab, r2[k].0 as int) && r2[k].1 == spec_avg_column_ic(
                ab,
                r2[k].0 as int,
            ) as u64 && period_entry_before(
                r2[k],
                (target as usize, spec_avg_column_ic(ab, target) as u64),
            ) by {
                let m = if k < k0 {
                    k
                } else {
                    k + 1
                };
                assert(r2[k] == r[m]);
                assert(r[m].0 != r[k0].0);
            }
            assert forall|k1: int, k2: int|
                0 <= k1 < k2 < j - 1 implies (#[trigger] r2[k1]).0 != (#[trigger] r2[k2]).0 by {
                let m1 = if k1 < k0 {
                    k1
                } else {
                    k1 + 1
                };
                let m2 = if k2 < k0 {
                    k2
                } else {
                    k2 + 1
                };
                assert(r2[k1] == r[m1]);
                assert(r2[k2] == r[m2]);
            }
            lemma_rank_before_count(ab, r2, j - 1, lo, hi - 1, target);
            // The entry at hi - 1 itself is counted.
            assert(r[k0] == (((hi - 1) as usize), spec_avg_column_ic(ab, hi - 1) as u64));
            assert(period_candidate(ab, hi - 1));
            assert(period_entry_before(
                (((hi - 1) as usize), spec_avg_column_ic(ab, hi - 1) as u64),
                (target as usize, spec_avg_column_ic(ab, target) as u64),
            ));
            assert(period_rank_before(ab, lo, hi, target) == period_rank_before(
                ab,
                lo,
                hi - 1,
                target,
            ) + 1);
        } else {
            assert forall|k: int| 0 <= k < j implies lo <= (#[trigger] r[k]).0 < hi - 1 by {
                assert(r[k].0 as int != hi - 1);
            }
            lemma_rank_before_count(ab, r, j, lo, hi - 1, target);
            assert(period_rank_before(ab, lo, hi, target) >= period_rank_before(
                ab,
                lo,
                hi - 1,
                target,
            ));
        }
    }
}

/// Search for Vigenere decryptions: estimate key lengths (IC
/// periodicity first, Kasiski as fallback, small defaults last), rank
/// the top shifts of every column by MIC, walk the cartesian product
/// of those shift candidates lazily, decrypt under each resulting
/// keyword, score with the trigram table, and return every attempt
/// ranked best-first. Too little text (under `min_text_len` letters)
/// or an unloadable trigram corpus yields no attempts. Texts are
/// capped at 14,000 characters so every statistical counter fits a
/// machine word.
pub fn run_vigenere_decryption(ciphertext: &str, min_text_len: usize) -> (r: Vec<
    DecryptionAttempt,
>)
    requires
        ciphertext@.len() <= 14000,
    ensures
        ({
            let s = ciphertext@;
            &&& (spec_alpha_bytes(s).len() < min_text_len ==> r@.len() == 0)
            &&& ((spec_alpha_bytes(s).len() >= min_text_len && spec_corpus_loadable()
                && vigenere_search_viable(spec_alpha_bytes(s))) ==> r@.len() > 0)
            &&& (forall|k: int| 0 <= k < r@.len() ==> vigenere_row_ok(s, #[trigger] r@[k]))
            &&& (forall|k1: int, k2: int|
                0 <= k1 < k2 < r@.len() ==> (#[trigger] r@[k1]).score >= (#[trigger] r@[k2]).score)
        }),
{
    let ghost s = ciphertext@;
    let ab = text_alpha_bytes(ciphertext);
    proof {
        crate::analysis::lemma_alpha_bytes_are_alpha(s);
        assert(spec_alpha(s).len() <= s.len()) by {
            broadcast use vstd::seq_lib::group_filter_ensures;

        }
    }
    let n = ab.len();
    if n < min_text_len {
        return Vec::new();
    }
    let ghost viable = spec_corpus_loadable() && vigenere_search_viable(ab@);
    let ghost lw: int = if vigenere_search_viable(ab@) {
        choose|lw: int|
            2 <= lw <= 12 && #[trigger] period_candidate(ab@, lw) && columns_rankable(ab@, lw)
                && period_rank_before(ab@, 2, 13, lw) < 4
    } else {
        0
    };
    let table = match build_english_trigram_table() {
        Option::None => {
            // The embedded corpus could not be loaded: the fatal
            // startup condition, reported as "no result".
            proof {
                assert(!spec_corpus_loadable());
            }
            return Vec::new();
        },
        Option::Some(t) => t,
    };
    // Candidate key lengths: IC periodicity first, Kasiski second,
    // fixed small defaults last; capped at 15.
    let icp = estimate_key_length_ic_periodicity(ciphertext, 2, 12);
    proof {
        if viable {
            // The viable length has long columns, so the signal is
            // long enough for the estimator's completeness clause.
            assert(col_len(n as int, lw, 0) >= MIN_CHARS_FOR_MIC as int);
            assert(n >= 1);
            let q = (n - 1) as int / lw;
            vstd::arithmetic::div_mod::lemma_fundamental_div_mod((n - 1) as int, lw);
            vstd::arithmetic::div_mod::lemma_mod_bound((n - 1) as int, lw);
            assert(q >= 4);
            assert(lw * q >= lw * 4) by (nonlinear_arith)
                requires
                    q >= 4,
                    lw >= 2,
            ;
            assert(n >= 4);
            assert(period_appears(icp@, lw));
            let j = choose|j: int| 0 <= j < icp@.len() && (#[trigger] icp@[j]).0 == lw;
            assert(icp@[j].1 == spec_avg_column_ic(ab@, lw) as u64);
            assert(icp@[j] == ((lw as usize), spec_avg_column_ic(ab@, lw) as u64));
            assert forall|k: int|
                0 <= k < j implies period_entry_before(
                #[trigger] icp@[k],
                ((lw as usize), spec_avg_column_ic(ab@, lw) as u64),
            ) by {
                assert(!period_entry_before(icp@[j], icp@[k]));
                assert(icp@[k].0 != icp@[j].0);
            }
            lemma_rank_before_count(ab@, icp@, j, 2, 13, lw);
            assert(j < 4);
        }
    }
    let mut lens: Vec<usize> = Vec::new();
    if icp.len() > 0 {
        let mut i: usize = 0;
        while i < icp.len() && i < 4
            invariant
                forall|k: int| 0 <= k < lens@.len() ==> 2 <= #[trigger] lens@[k] <= 12,
                forall|k: int| 0 <= k < icp@.len() ==> 2 <= (#[trigger] icp@[k]).0 <= 12,
                viable ==> (exists|k: int|
                    0 <= k < lens@.len() && #[trigger] lens@[k] == lw as usize) || (exists|jj: int|
                    i <= jj < icp@.len() && jj < 4 && (#[trigger] icp@[jj]).0 == lw as usize),
            decreases icp@.len() - i,
        {
            let ghost oldlens = lens@;
            let l = icp[i].0;
            if l <= 15 {
                lens.push(l);
            }
            proof {
                if viable {
                    if exists|k: int| 0 <= k < oldlens.len() && #[trigger] oldlens[k] == lw as usize {
                        let k = choose|k: int|
                            0 <= k < oldlens.len() && #[trigger] oldlens[k] == lw as usize;
                        assert(lens@[k] == lw as usize);
                    } else if icp@[i as int].0 == lw as usize {
                        assert(lens@[lens@.len() - 1] == lw as usize);
                    }
                }
            }
            i += 1;
        }
        proof {
            if viable {
                assert(exists|k: int| 0 <= k < lens@.len() && #[trigger] lens@[k] == lw as usize);
            }
        }
    } else {
        proof {
            // No periodicity candidates at all contradicts viability.
            if viable {
                assert(period_appears(icp@, lw));
                assert(icp@.len() > 0);
            }
        }
        proof {
            let tl = ciphertext@.len() as int;
            assert((12 + 1) * ((tl + 1) * (tl + 1)) < 4_294_967_295) by (nonlinear_arith)
                requires
                    0 <= tl <= 14000,
            ;
            assert(usize::MAX >= 4_294_967_295);
        }
        let kasiski = estimate_key_lengths(ciphertext, 3, 12);
        if kasiski.len() > 0 {
            let mut i: usize = 0;
            while i < kasiski.len() && i < 4
                invariant
                    forall|k: int| 0 <= k < lens@.len() ==> 2 <= #[trigger] lens@[k] <= 12,
                    forall|k: int| 0 <= k < kasiski@.len() ==> 1 < (#[trigger] kasiski@[k]).0 <= 12,
                decreases kasiski@.len() - i,
            {
                let l = kasiski[i].0;
                if l <= 15 {
                    lens.push(l);
                }
                i += 1;
            }
        } else {
            lens.push(2);
            lens.push(3);
            lens.push(4);
            lens.push(5);
            lens.push(6);
            lens.push(7);
        }
    }
    let mut attempts: Vec<DecryptionAttempt> = Vec::new();
    let mut li: usize = 0;
    while li < lens.len()
        invariant
            s == ciphertext@,
            s.len() <= 14000,
            ab@ == spec_alpha_bytes(s),
            n == ab@.len(),
            n <= s.len(),
            forall|i: int| 0 <= i < ab@.len() ==> byte_is_alpha(#[trigger] ab@[i]),
            trigram_table_wf(&table),
            table.entries@ == spec_table(spec_corpus()),
            forall|k: int| 0 <= k < lens@.len() ==> 2 <= #[trigger] lens@[k] <= 12,
            forall|k: int| 0 <= k < attempts@.len() ==> vigenere_row_ok(s, #[trigger] attempts@[k]),
            viable ==> spec_corpus_loadable() && vigenere_search_viable(ab@) && lw
                == choose|lw0: int|
                2 <= lw0 <= 12 && #[trigger] period_candidate(ab@, lw0) && columns_rankable(
                    ab@,
                    lw0,
                ) && period_rank_before(ab@, 2, 13, lw0) < 4,
            viable ==> 2 <= lw <= 12 && period_candidate(ab@, lw) && columns_rankable(ab@, lw),
            viable ==> attempts@.len() > 0 || (exists|k: int|
                li <= k < lens@.len() && #[trigger] lens@[k] == lw as usize),
        decreases lens@.len() - li,
    {
        let key_len = lens[li];
        if key_len >= 2 && key_len <= n {
            // Rank the top three shifts of every column; a column too
            // short for MIC abandons this key length entirely.
            let mut lists: Vec<Vec<u8>> = Vec::new();
            let mut ok = true;
            let mut ci: usize = 0;
            while ok && ci < key_len
                invariant
                    s == ciphertext@,
                    ab@ == spec_alpha_bytes(s),
                    n == ab@.len(),
                    n < 0x1_0000_0000,
                    forall|i: int| 0 <= i < ab@.len() ==> byte_is_alpha(#[trigger] ab@[i]),
                    2 <= key_len <= 12,
                    key_len <= n,
                    ci <= key_len,
                    ok ==> lists@.len() == ci,
                    viable ==> 2 <= lw <= 12,
                    (viable && key_len == lw as usize) ==> ok && columns_rankable(ab@, lw),
                    forall|k: int|
                        0 <= k < lists@.len() ==> (#[trigger] lists@[k])@.len() == 3,
                    forall|k: int, d: int|
                        0 <= k < lists@.len() && 0 <= d < 3 ==> (#[trigger] lists@[k]@[d]) < 26,
                decreases key_len - ci,
            {
                let col = extract_column(&ab, key_len, ci);
                proof {
                    assert(col@ == crate::analysis::spec_column(ab@, key_len as int, ci as int));
                    assert forall|jj: int| 0 <= jj < col@.len() implies byte_is_alpha(
                        #[trigger] col@[jj],
                    ) by {
                        let d = key_len as int;
                        let x = (n as int) - (ci as int) - 1;
                        assert(ci < n);
                        let q = x / d;
                        vstd::arithmetic::div_mod::lemma_fundamental_div_mod(x, d);
                        vstd::arithmetic::div_mod::lemma_mod_bound(x, d);
                        assert(jj <= q);
                        assert(jj * d <= q * d) by (nonlinear_arith)
                            requires
                                0 <= jj <= q,
                                d >= 1,
                        ;
                        assert(q * d <= x);
                        assert(0 <= ci + jj * d < n);
                        assert(col@[jj] == ab@[ci + jj * (key_len as int)]);
                    }
                    assert(col@.len() <= n) by {
                        if ci < n {
                            let x = ((n as int) - (ci as int) - 1) as int;
                            vstd::arithmetic::div_mod::lemma_div_is_ordered_by_denominator(
                                x,
                                1,
                                key_len as int,
                            );
                            vstd::arithmetic::div_mod::lemma_div_by_self(1);
                            assert(x / 1 == x) by {
                                vstd::arithmetic::div_mod::lemma_fundamental_div_mod(x, 1);
                            }
                        }
                    }
                }
                let ranked_opt = mic_rank_bytes(&col, 3);
                match ranked_opt {
                    Option::Some(ranked) => {
                        let mut shifts: Vec<u8> = Vec::new();
                        let mut t: usize = 0;
                        while t < ranked.len()
                            invariant
                                shifts@.len() == t,
                                t <= ranked@.len(),
                                ranked@.len() == 3,
                                forall|d: int|
                                    0 <= d < ranked@.len() ==> 0 <= (#[trigger] ranked@[d]).0 < 26,
                                forall|d: int| 0 <= d < t ==> (#[trigger] shifts@[d]) < 26,
                            decreases ranked@.len() - t,
                        {
                            shifts.push(ranked[t].0);
                            t += 1;
                        }
                        lists.push(shifts);
                    },
                    Option::None => {
                        proof {
                            // A viable length never loses a column:
                            // every column is long enough to rank.
                            if viable && key_len == lw as usize {
                                assert(col_len(ab@.len() as int, lw, ci as int)
                                    >= MIN_CHARS_FOR_MIC as int);
                                assert(col@.len() == col_len(
                                    ab@.len() as int,
                                    key_len as int,
                                    ci as int,
                                ));
                                assert(col@.len() >= MIN_CHARS_FOR_MIC);
                                assert(false);
                            }
                        }
                        ok = false;
                    },
                }
                ci += 1;
            }
            if ok && lists.len() == key_len {
                let total = pow3_usize(key_len);
                // Strides of the mixed-radix walk: column `i` repeats
                // its digit for 3^(key_len - 1 - i) consecutive keys.
                let mut strides: Vec<usize> = Vec::new();
                let mut si: usize = 0;
                while si < key_len
                    invariant
                        2 <= key_len <= 12,
                        si <= key_len,
                        strides@.len() == si,
                        forall|k: int|
                            0 <= k < si ==> #[trigger] strides@[k] == spec_pow3(
                                (key_len - 1 - k) as nat,
                            ) && strides@[k] >= 1,
                    decreases key_len - si,
                {
                    let p = pow3_usize(key_len - 1 - si);
                    strides.push(p);
                    si += 1;
                }
                let ghost base_attempts = attempts@.len();
                let mut count: usize = 0;
                while count < total
                    invariant
                        attempts@.len() == base_attempts + count,
                        s == ciphertext@,
                        s.len() <= 14000,
                        trigram_table_wf(&table),
                        table.entries@ == spec_table(spec_corpus()),
                        2 <= key_len <= 12,
                        lists@.len() == key_len,
                        strides@.len() == key_len,
                        forall|k: int|
                            0 <= k < key_len ==> #[trigger] strides@[k] >= 1,
                        forall|k: int|
                            0 <= k < lists@.len() ==> (#[trigger] lists@[k])@.len() == 3,
                        forall|k: int, d: int|
                            0 <= k < lists@.len() && 0 <= d < 3 ==> (#[trigger] lists@[k]@[d]) < 26,
                        count <= total,
                        forall|k: int|
                            0 <= k < attempts@.len() ==> vigenere_row_ok(
                                s,
                                #[trigger] attempts@[k],
                            ),
                    decreases total - count,
                {
                    // The mixed-radix digits of `count` pick one shift
                    // per column; the last column varies fastest.
                    let mut keyword = String::new();
                    let mut ci2: usize = 0;
                    while ci2 < key_len
                        invariant
                            2 <= key_len <= 12,
                            lists@.len() == key_len,
                            strides@.len() == key_len,
                            forall|k: int|
                                0 <= k < key_len ==> #[trigger] strides@[k] >= 1,
                            forall|k: int|
                                0 <= k < lists@.len() ==> (#[trigger] lists@[k])@.len() == 3,
                            forall|k: int, d: int|
                                0 <= k < lists@.len() && 0 <= d < 3 ==> (#[trigger] lists@[k]@[d])
                                    < 26,
                            ci2 <= key_len,
                            keyword@.len() == ci2,
                            forall|k: int|
                                0 <= k < keyword@.len() ==> spec_is_ascii_upper(
                                    #[trigger] keyword@[k],
                                ),
                        decreases key_len - ci2,
                    {
                        let p = strides[ci2];
                        let digit = (count / p) % 3;
                        proof {
                            vstd::arithmetic::div_mod::lemma_mod_bound(
                                (count / p) as int,
                                3,
                            );
                        }
                        let sh = lists[ci2][digit];
                        let kc = ((65 + sh) as u8) as char;
                        push_char(&mut keyword, kc);
                        ci2 += 1;
                    }
                    proof {
                        assert(spec_keyword_valid(keyword@));
                    }
                    let plain = vigenere_decrypt(ciphertext, keyword.as_str());
                    proof {
                        lemma_vig_len(s, keyword@, 0, -1);
                        assert(plain@.len() == s.len());
                    }
                    let sc = score_trigram_log_prob_with(&table, plain.as_str());
                    let att = DecryptionAttempt {
                        cipher_name: String::from_str("Vigenere"),
                        key: keyword,
                        plaintext: plain,
                        score: sc,
                    };
                    proof {
                        assert(vigenere_row_ok(s, att));
                    }
                    attempts.push(att);
                    count += 1;
                }
                proof {
                    assert(attempts@.len() >= base_attempts + 1);
                }
            }
        }
        proof {
            // The viable length, once reached, has produced attempts;
            // until then it still lies ahead.
            if viable && attempts@.len() == 0 {
                let k = choose|k: int|
                    li <= k < lens@.len() && #[trigger] lens@[k] == lw as usize;
                assert(k != li);
                assert(li + 1 <= k < lens@.len() && lens@[k] == lw as usize);
            }
        }
        li += 1;
    }
    proof {
        if viable {
            assert(attempts@.len() > 0);
        }
    }
    let ghost attseq = attempts@;
    let sorted = sort_attempts_desc(attempts);
    proof {
        broadcast use vstd::seq_lib::group_to_multiset_ensures;

        assert forall|k: int| 0 <= k < sorted@.len() implies vigenere_row_ok(
            s,
            #[trigger] sorted@[k],
        ) by {
            let e = sorted@[k];
            assert(sorted@.contains(e));
            vstd::seq_lib::to_multiset_contains(sorted@, e);
            vstd::seq_lib::to_multiset_contains(attseq, e);
            assert(attseq.contains(e));
            let kk = choose|kk: int| 0 <= kk < attseq.len() && attseq[kk] == e;
            assert(vigenere_row_ok(s, attseq[kk]));
        }
    }
    sorted
}

/// Recognises Vigenere ciphertext by its depressed IC.
pub struct VigenereIdentifier {
    pub min_text_len: usize,
}

/// Searches for Vigenere keys and plaintexts.
pub struct VigenereDecoder {
    pub min_text_len: usize,
}

impl VigenereIdentifier {
    pub fn new(config: &Config) -> (r: Self)
        ensures
            r.min_text_len == config.vigenere_min_id_len,
    {
        VigenereIdentifier { min_text_len: config.vigenere_min_id_len }
    }
}

impl VigenereDecoder {
    pub fn new(config: &Config) -> (r: Self)
        ensures
            r.min_text_len == config.vigenere_min_dec_len,
    {
        VigenereDecoder { min_text_len: config.vigenere_min_dec_len }
    }
}

impl Identifier for VigenereIdentifier {
    open spec fn id_ok(&self, ciphertext: Seq<char>, res: IdentificationResult) -> bool {
        spec_vigenere_identification_ok(ciphertext, res)
    }

    fn identify(&self, ciphertext: &str) -> (r: Option<IdentificationResult>) {
        if ciphertext.unicode_len() > 14000 {
            return Option::None;
        }
        run_vigenere_identification(ciphertext, self.min_text_len)
    }
}

impl Decoder for VigenereDecoder {
    open spec fn attempt_ok(&self, ciphertext: Seq<char>, att: DecryptionAttempt) -> bool {
        vigenere_row_ok(ciphertext, att)
    }

    open spec fn ranked_ok(&self, rows: Seq<DecryptionAttempt>) -> bool {
        // Trigram log probability: higher is better, so ranked
        // descending.
        forall|k1: int, k2: int|
            0 <= k1 < k2 < rows.len() ==> (#[trigger] rows[k1]).score >= (#[trigger] rows[k2]).score
    }

    open spec fn spec_min_len(&self) -> int {
        self.min_text_len as int
    }

    open spec fn spec_name(&self) -> Seq<char> {
        "Vigenere"@
    }

    fn decrypt(&self, ciphertext: &str) -> (r: Vec<DecryptionAttempt>) {
        if ciphertext.unicode_len() > 14000 {
            return Vec::new();
        }
        run_vigenere_decryption(ciphertext, self.min_text_len)
    }

    fn name(&self) -> (r: &'static str) {
        "Vigenere"
    }
}

} // verus!
