//! The statistical engine: frequency profiles, chi-squared distance to
//! the reference English profile, index of coincidence, Kasiski
//! examination, IC periodicity, and mutual-index-of-coincidence shift
//! ranking.
//!
//! Frequencies are exact fixed-point values in parts per million (ppm);
//! chi-squared scores are in micro units (a chi-squared of `0.5` is
//! `500_000`); the index of coincidence is likewise scaled by
//! `1_000_000`.

use crate::cipher_utils::{char_is_ascii_alpha, spec_is_ascii_alpha};
use crate::letter_stats::{
    byte_is_alpha, byte_letter_index, count_letter, lemma_count_letter_le_len,
    lemma_count_letter_push, lemma_sum_counts_total, range_sum, sum_counts_upto,
};
use vstd::arithmetic::div_mod::{
    lemma_div_is_ordered, lemma_div_is_ordered_by_denominator, lemma_div_multiples_vanish,
    lemma_mod_bound,
};
use vstd::arithmetic::mul::lemma_mul_inequality;
use vstd::prelude::*;

verus! {

/// The scale of every frequency and IC value: parts per million.
pub const FREQ_SCALE: u64 = 1_000_000;

/// Index of coincidence of typical English text, scaled by 1e6.
pub const ENGLISH_IC_PPM: u64 = 66_700;

/// Index of coincidence of uniformly random letters (1/26), scaled by 1e6.
pub const RANDOM_IC_PPM: u64 = 38_461;

/// The letters of `s`, in order, with everything else dropped.
pub open spec fn spec_alpha(s: Seq<char>) -> Seq<char> {
    s.filter(|c: char| spec_is_ascii_alpha(c))
}

/// The letters of `s` as their ASCII byte codes (case preserved).
pub open spec fn spec_alpha_bytes(s: Seq<char>) -> Seq<u8> {
    spec_alpha(s).map_values(|c: char| (c as u32) as u8)
}

pub proof fn lemma_alpha_push(s: Seq<char>, c: char)
    ensures
        spec_alpha(s.push(c)) == if spec_is_ascii_alpha(c) {
            spec_alpha(s).push(c)
        } else {
            spec_alpha(s)
        },
{
    reveal(Seq::filter);
    assert(s.push(c).drop_last() == s);
}

pub proof fn lemma_alpha_bytes_push(s: Seq<char>, c: char)
    ensures
        spec_alpha_bytes(s.push(c)) == if spec_is_ascii_alpha(c) {
            spec_alpha_bytes(s).push((c as u32) as u8)
        } else {
            spec_alpha_bytes(s)
        },
{
    lemma_alpha_push(s, c);
    if spec_is_ascii_alpha(c) {
        assert(spec_alpha(s).push(c).map_values(|x: char| (x as u32) as u8)
            =~= spec_alpha(s).map_values(|x: char| (x as u32) as u8).push((c as u32) as u8));
    }
}

/// Every byte of the alphabetic signal is a letter byte.
pub proof fn lemma_alpha_bytes_are_alpha(s: Seq<char>)
    ensures
        forall|i: int|
            0 <= i < spec_alpha_bytes(s).len() ==> byte_is_alpha(#[trigger] spec_alpha_bytes(s)[i]),
{
    broadcast use vstd::seq_lib::group_filter_ensures;

    let a = spec_alpha(s);
    let pred = |c: char| spec_is_ascii_alpha(c);
    assert forall|i: int| 0 <= i < spec_alpha_bytes(s).len() implies byte_is_alpha(
        #[trigger] spec_alpha_bytes(s)[i],
    ) by {
        assert(a == s.filter(pred));
        assert(spec_alpha_bytes(s).len() == a.len());
        s.lemma_filter_pred(pred, i);
        assert(pred(s.filter(pred)[i]));
        assert(spec_is_ascii_alpha(a[i]));
        assert(spec_alpha_bytes(s)[i] == (a[i] as u32) as u8);
        assert(65 <= a[i] as u32 <= 122);
        assert((a[i] as u32) as u8 == a[i] as u32);
    }
}

/// Keep only the ASCII letters of `text`, case preserved.
pub fn get_alphabetic_chars(text: &str) -> (r: String)
    ensures
        r@ == spec_alpha(text@),
{
    let mut out = String::new();
    for c in it: text.chars()
        invariant
            out@ == spec_alpha(it.seq().take(it.index() as int)),
            it.seq() == text@,
    {
        proof {
            assert(it.seq().take(it.index() as int + 1) == it.seq().take(
                it.index() as int,
            ).push(c));
            lemma_alpha_push(it.seq().take(it.index() as int), c);
        }
        if char_is_ascii_alpha(c) {
            crate::cipher_utils::push_char(&mut out, c);
        }
    }
    proof {
        assert(text@.take(text@.len() as int) == text@);
    }
    out
}

/// The ASCII letter bytes of `text`, in order.
pub fn text_alpha_bytes(text: &str) -> (r: Vec<u8>)
    ensures
        r@ == spec_alpha_bytes(text@),
{
    let mut out: Vec<u8> = Vec::new();
    for c in it: text.chars()
        invariant
            out@ == spec_alpha_bytes(it.seq().take(it.index() as int)),
            it.seq() == text@,
    {
        proof {
            assert(it.seq().take(it.index() as int + 1) == it.seq().take(
                it.index() as int,
            ).push(c));
            lemma_alpha_bytes_push(it.seq().take(it.index() as int), c);
        }
        if char_is_ascii_alpha(c) {
            let u = c as u32;
            out.push(u as u8);
        }
    }
    proof {
        assert(text@.take(text@.len() as int) == text@);
    }
    out
}

/// Case-folded letter counts of `v`: element `l` of the result is the
/// number of bytes whose letter index is `l`.
pub fn letter_counts(v: &Vec<u8>) -> (counts: Vec<u64>)
    ensures
        counts@.len() == 26,
        forall|l: int| 0 <= l < 26 ==> counts@[l] == count_letter(v@, l),
        forall|l: int| 0 <= l < 26 ==> counts@[l] <= v@.len(),
{
    let mut counts: Vec<u64> = Vec::new();
    let mut k: usize = 0;
    while k < 26
        invariant
            counts@.len() == k,
            k <= 26,
            forall|l: int| 0 <= l < k ==> counts@[l] == 0,
        decreases 26 - k,
    {
        counts.push(0);
        k += 1;
    }
    proof {
        assert forall|l: int| 0 <= l < 26 implies counts@[l] == count_letter(
            v@.take(0),
            l,
        ) by {
            assert(v@.take(0).len() == 0);
        }
    }
    let n = v.len();
    let mut i: usize = 0;
    while i < n
        invariant
            n == v@.len(),
            i <= n,
            counts@.len() == 26,
            forall|l: int| 0 <= l < 26 ==> counts@[l] == count_letter(v@.take(i as int), l),
            forall|l: int| 0 <= l < 26 ==> counts@[l] <= i,
        decreases n - i,
    {
        let b = v[i];
        proof {
            assert(v@.take(i as int + 1) == v@.take(i as int).push(b));
            assert forall|l: int| 0 <= l < 26 implies count_letter(v@.take(i as int + 1), l)
                == count_letter(v@.take(i as int), l) + if byte_letter_index(b) == l {
                1nat
            } else {
                0nat
            } by {
                lemma_count_letter_push(v@.take(i as int), b, l);
            }
        }
        if 65 <= b && b <= 90 {
            let idx = (b - 65) as usize;
            let c = counts[idx];
            counts.set(idx, c + 1);
        } else if 97 <= b && b <= 122 {
            let idx = (b - 97) as usize;
            let c = counts[idx];
            counts.set(idx, c + 1);
        }
        i += 1;
    }
    proof {
        assert(v@.take(n as int) == v@);
        assert forall|l: int| 0 <= l < 26 implies counts@[l] <= v@.len() by {
            lemma_count_letter_le_len(v@, l);
        }
    }
    counts
}

/// The reference letter-frequency profile of English, in ppm: entry 0
/// is the frequency of `A`, entry 25 that of `Z`.
pub open spec fn english_freq_ppm(l: int) -> u64 {
    if l == 0 {
        81670
    } else if l == 1 {
        14920
    } else if l == 2 {
        27820
    } else if l == 3 {
        42530
    } else if l == 4 {
        127020
    } else if l == 5 {
        22280
    } else if l == 6 {
        20150
    } else if l == 7 {
        60940
    } else if l == 8 {
        69660
    } else if l == 9 {
        1530
    } else if l == 10 {
        7720
    } else if l == 11 {
        40250
    } else if l == 12 {
        24060
    } else if l == 13 {
        67490
    } else if l == 14 {
        75070
    } else if l == 15 {
        19290
    } else if l == 16 {
        950
    } else if l == 17 {
        59870
    } else if l == 18 {
        63270
    } else if l == 19 {
        90560
    } else if l == 20 {
        27580
    } else if l == 21 {
        9780
    } else if l == 22 {
        23600
    } else if l == 23 {
        1500
    } else if l == 24 {
        19740
    } else {
        740
    }
}

/// The English letter-frequency profile as a vector of 26 ppm values.
pub fn english_frequencies() -> (v: Vec<u64>)
    ensures
        v@.len() == 26,
        forall|l: int| 0 <= l < 26 ==> v@[l] == english_freq_ppm(l),
        forall|l: int| 0 <= l < 26 ==> 0 < #[trigger] v@[l] <= FREQ_SCALE,
{
    let mut v: Vec<u64> = Vec::new();
    v.push(81670);
    v.push(14920);
    v.push(27820);
    v.push(42530);
    v.push(127020);
    v.push(22280);
    v.push(20150);
    v.push(60940);
    v.push(69660);
    v.push(1530);
    v.push(7720);
    v.push(40250);
    v.push(24060);
    v.push(67490);
    v.push(75070);
    v.push(19290);
    v.push(950);
    v.push(59870);
    v.push(63270);
    v.push(90560);
    v.push(27580);
    v.push(9780);
    v.push(23600);
    v.push(1500);
    v.push(19740);
    v.push(740);
    v
}

/// Frequency of letter `l` in the alphabetic signal `ab`, in ppm,
/// truncated toward zero.
pub open spec fn spec_freq_ppm(ab: Seq<u8>, l: int) -> int {
    count_letter(ab, l) * (FREQ_SCALE as int) / (ab.len() as int)
}

/// The 26 ppm letter frequencies of `text` together with its alphabetic
/// length, or `None` when `text` holds no letter at all.
pub fn calculate_frequencies(text: &str) -> (r: Option<(Vec<u64>, usize)>)
    requires
        text@.len() < 0x1_0000_0000,
    ensures
        r is None <==> spec_alpha(text@).len() == 0,
        r is Some ==> ({
            let (f, n) = r->Some_0;
            &&& n == spec_alpha_bytes(text@).len()
            &&& f@.len() == 26
            &&& forall|l: int| 0 <= l < 26 ==> f@[l] == spec_freq_ppm(spec_alpha_bytes(text@), l)
            &&& forall|l: int| 0 <= l < 26 ==> f@[l] <= FREQ_SCALE
        }),
{
    let ab = text_alpha_bytes(text);
    let n = ab.len();
    if n == 0 {
        proof {
            assert(spec_alpha(text@).len() == spec_alpha_bytes(text@).len());
        }
        return None;
    }
    let counts = letter_counts(&ab);
    let mut freqs: Vec<u64> = Vec::new();
    let mut l: usize = 0;
    proof {
        assert(spec_alpha(text@).len() == spec_alpha_bytes(text@).len());
        assert(ab@.len() < 0x1_0000_0000) by {
            assert(spec_alpha(text@).len() <= text@.len()) by {
                broadcast use vstd::seq_lib::group_filter_ensures;

            }
        }
    }
    while l < 26
        invariant
            freqs@.len() == l,
            l <= 26,
            counts@.len() == 26,
            n == ab@.len(),
            0 < n < 0x1_0000_0000,
            forall|k: int| 0 <= k < 26 ==> counts@[k] == count_letter(ab@, k),
            forall|k: int| 0 <= k < 26 ==> counts@[k] <= n,
            forall|k: int| 0 <= k < l ==> freqs@[k] == spec_freq_ppm(ab@, k),
            forall|k: int| 0 <= k < l ==> freqs@[k] <= FREQ_SCALE,
        decreases 26 - l,
    {
        let c = counts[l];
        let f = c * FREQ_SCALE / (n as u64);
        proof {
            lemma_mul_inequality(c as int, n as int, FREQ_SCALE as int);
            lemma_div_is_ordered(c as int * FREQ_SCALE as int, n as int * FREQ_SCALE as int, n as int);
            lemma_div_multiples_vanish(FREQ_SCALE as int, n as int);
        }
        freqs.push(f);
        l += 1;
    }
    Some((freqs, n))
}

/// A profile has a zero-frequency bucket where the observation does
/// not: the observation is impossible under the model.
pub open spec fn chi2_violation(o: Seq<u64>, e: Seq<u64>) -> bool {
    exists|l: int| 0 <= l < 26 && e[l] == 0 && o[l] != 0
}

/// Partial chi-squared sum over the first `k` letters, in micro units.
/// Zero-expected buckets contribute nothing here; they are handled by
/// the saturation case of [`spec_chi_squared`].
pub open spec fn chi2_sum_upto(o: Seq<u64>, e: Seq<u64>, k: int) -> int
    decreases k,
{
    if k <= 0 {
        0
    } else {
        chi2_sum_upto(o, e, k - 1) + if e[k - 1] == 0 {
            0
        } else {
            (o[k - 1] - e[k - 1]) * (o[k - 1] - e[k - 1]) / (e[k - 1] as int)
        }
    }
}

/// Chi-squared distance between an observed and an expected ppm
/// profile, in micro units; saturated to `u64::MAX` when the expected
/// profile rules the observation out entirely.
pub open spec fn spec_chi_squared(o: Seq<u64>, e: Seq<u64>) -> int {
    if chi2_violation(o, e) {
        u64::MAX as int
    } else {
        chi2_sum_upto(o, e, 26)
    }
}

/// A profile compared against itself has chi-squared distance zero.
pub proof fn lemma_chi_squared_self(p: Seq<u64>)
    requires
        p.len() == 26,
    ensures
        spec_chi_squared(p, p) == 0,
{
    assert forall|k: int| 0 <= k <= 26 implies chi2_sum_upto(p, p, k) == 0 by {
        lemma_chi2_sum_upto_self(p, k);
    }
}

proof fn lemma_chi2_sum_upto_self(p: Seq<u64>, k: int)
    ensures
        chi2_sum_upto(p, p, k) == 0,
    decreases k,
{
    if k > 0 {
        lemma_chi2_sum_upto_self(p, k - 1);
    }
}

/// Partial chi-squared sums are bounded: each term is at most one
/// full squared scale.
pub proof fn lemma_chi2_sum_bound(o: Seq<u64>, e: Seq<u64>, k: int)
    requires
        o.len() == 26,
        e.len() == 26,
        k <= 26,
        forall|l: int| 0 <= l < 26 ==> #[trigger] o[l] <= FREQ_SCALE,
        forall|l: int| 0 <= l < 26 ==> #[trigger] e[l] <= FREQ_SCALE,
    ensures
        0 <= chi2_sum_upto(o, e, k) <= if k >= 0 {
            k * 1_000_000_000_000
        } else {
            0
        },
    decreases k,
{
    if k > 0 {
        lemma_chi2_sum_bound(o, e, k - 1);
        if e[k - 1] != 0 {
            let d = o[k - 1] - e[k - 1];
            assert(0 <= d * d <= 1_000_000_000_000) by (nonlinear_arith)
                requires
                    -1_000_000 <= d <= 1_000_000,
            ;
            lemma_div_is_ordered(0, d * d, e[k - 1] as int);
            lemma_div_is_ordered_by_denominator(d * d, 1, e[k - 1] as int);
            assert(d * d / 1 == d * d) by {
                vstd::arithmetic::div_mod::lemma_fundamental_div_mod(d * d, 1);
            }
        }
    }
}

/// The English reference profile has no empty bucket, so a likelihood
/// score against it is a true bounded sum, never the saturated value.
pub proof fn lemma_english_likelihood_bounds(ab: Seq<u8>)
    requires
        ab.len() >= 1,
    ensures
        0 <= spec_english_likelihood(ab) <= 26_000_000_000_000,
{
    let o = spec_observed_profile(ab);
    let e = spec_english_profile();
    assert(forall|l: int| 0 <= l < 26 ==> #[trigger] e[l] == english_freq_ppm(l));
    assert(forall|l: int| 0 <= l < 26 ==> #[trigger] e[l] > 0);
    assert(!chi2_violation(o, e));
    assert forall|l: int| 0 <= l < 26 implies #[trigger] o[l] <= FREQ_SCALE by {
        lemma_count_letter_le_len(ab, l);
        lemma_mul_inequality(count_letter(ab, l) as int, ab.len() as int, FREQ_SCALE as int);
        lemma_div_is_ordered(
            count_letter(ab, l) * (FREQ_SCALE as int),
            ab.len() * (FREQ_SCALE as int),
            ab.len() as int,
        );
        lemma_div_multiples_vanish(FREQ_SCALE as int, ab.len() as int);
        vstd::arithmetic::div_mod::lemma_div_pos_is_pos(
            count_letter(ab, l) * (FREQ_SCALE as int),
            ab.len() as int,
        );
        assert(o[l] == spec_freq_ppm(ab, l) as u64);
    }
    assert(forall|l: int| 0 <= l < 26 ==> #[trigger] e[l] <= FREQ_SCALE);
    lemma_chi2_sum_bound(o, e, 26);
}

/// Chi-squared distance between two 26-entry ppm profiles.
pub fn chi_squared_score(observed: &Vec<u64>, expected: &Vec<u64>) -> (r: u64)
    requires
        observed@.len() == 26,
        expected@.len() == 26,
        forall|l: int| 0 <= l < 26 ==> observed@[l] <= FREQ_SCALE,
        forall|l: int| 0 <= l < 26 ==> expected@[l] <= FREQ_SCALE,
    ensures
        r == spec_chi_squared(observed@, expected@),
{
    let mut acc: u64 = 0;
    let mut l: usize = 0;
    while l < 26
        invariant
            observed@.len() == 26,
            expected@.len() == 26,
            forall|k: int| 0 <= k < 26 ==> observed@[k] <= FREQ_SCALE,
            forall|k: int| 0 <= k < 26 ==> expected@[k] <= FREQ_SCALE,
            l <= 26,
            acc == chi2_sum_upto(observed@, expected@, l as int),
            acc <= l * 1_000_000_000_000,
            forall|k: int| 0 <= k < l ==> !(expected@[k] == 0 && observed@[k] != 0),
        decreases 26 - l,
    {
        let o = observed[l];
        let e = expected[l];
        if e == 0 {
            if o != 0 {
                return u64::MAX;
            }
        } else {
            let diff = if o >= e {
                o - e
            } else {
                e - o
            };
            assert(diff * diff == (o - e) * (o - e) && diff * diff <= 1_000_000_000_000) by (nonlinear_arith)
                requires
                    diff <= 1_000_000,
                    diff == o - e || diff == e - o,
            ;
            let term = diff * diff / e;
            proof {
                lemma_div_is_ordered(0, (diff * diff) as int, e as int);
                lemma_div_is_ordered((diff * diff) as int, 1_000_000_000_000, 1);
                lemma_div_is_ordered_by_denominator((diff * diff) as int, 1, e as int);
            }
            acc = acc + term;
        }
        l += 1;
    }
    proof {
        assert(!chi2_violation(observed@, expected@));
    }
    acc
}

/// The English reference profile as a mathematical sequence.
pub open spec fn spec_english_profile() -> Seq<u64> {
    Seq::new(26, |l: int| english_freq_ppm(l))
}

/// The observed ppm profile of the alphabetic signal `ab`.
pub open spec fn spec_observed_profile(ab: Seq<u8>) -> Seq<u64> {
    Seq::new(26, |l: int| spec_freq_ppm(ab, l) as u64)
}

/// Chi-squared distance of a text's letter frequencies from the
/// English reference profile, in micro units.
pub open spec fn spec_english_likelihood(ab: Seq<u8>) -> int {
    spec_chi_squared(spec_observed_profile(ab), spec_english_profile())
}

/// How English-like the letter frequencies of `text` are: chi-squared
/// against the reference profile, lower is better. `None` when `text`
/// has no letters.
pub fn score_english_likelihood(text: &str) -> (r: Option<u64>)
    requires
        text@.len() < 0x1_0000_0000,
    ensures
        r is None <==> spec_alpha(text@).len() == 0,
        r is Some ==> r->Some_0 == spec_english_likelihood(spec_alpha_bytes(text@)),
{
    let freqs_opt = calculate_frequencies(text);
    match freqs_opt {
        Option::None => Option::None,
        Option::Some((freqs, _n)) => {
            let eng = english_frequencies();
            proof {
                let ab = spec_alpha_bytes(text@);
                assert forall|l: int| 0 <= l < 26 implies freqs@[l] == spec_observed_profile(ab)[l]
                    by {
                        assert(freqs@[l] == spec_freq_ppm(ab, l));
                        assert(spec_freq_ppm(ab, l) >= 0);
                    }
                assert(freqs@ =~= spec_observed_profile(ab));
                assert(eng@ =~= spec_english_profile());
            }
            let score = chi_squared_score(&freqs, &eng);
            Option::Some(score)
        },
    }
}

/// Sum over the first `k` letters of `c_l * (c_l - 1)` where `c_l` is
/// the letter count: the numerator of the index of coincidence.
pub open spec fn ic_num_upto(s: Seq<u8>, k: int) -> int
    decreases k,
{
    if k <= 0 {
        0
    } else {
        ic_num_upto(s, k - 1) + count_letter(s, k - 1) * (count_letter(s, k - 1) - 1)
    }
}

/// The index of coincidence of the alphabetic signal `s`, scaled by
/// 1e6 and truncated: `sum_l c_l (c_l - 1) / (n (n - 1))`. Only
/// meaningful for `s.len() >= 2`.
pub open spec fn spec_ic_scaled(s: Seq<u8>) -> int {
    ic_num_upto(s, 26) * (FREQ_SCALE as int) / ((s.len() * (s.len() - 1)) as int)
}

proof fn lemma_ic_num_bounds(s: Seq<u8>, k: int)
    ensures
        0 <= ic_num_upto(s, k),
        ic_num_upto(s, k) <= sum_counts_upto(s, k) * (sum_counts_upto(s, k) - 1),
    decreases k,
{
    if k > 0 {
        lemma_ic_num_bounds(s, k - 1);
        let a = sum_counts_upto(s, k - 1) as int;
        let c = count_letter(s, k - 1) as int;
        assert(ic_num_upto(s, k) == ic_num_upto(s, k - 1) + c * (c - 1));
        assert(sum_counts_upto(s, k) == a + c);
        assert(a * (a - 1) + c * (c - 1) <= (a + c) * ((a + c) - 1)) by (nonlinear_arith)
            requires
                a >= 0,
                c >= 0,
        ;
        assert(c * (c - 1) >= 0) by (nonlinear_arith)
            requires
                c >= 0,
        ;
        assert(ic_num_upto(s, k) <= (a + c) * ((a + c) - 1));
        assert(sum_counts_upto(s, k) * (sum_counts_upto(s, k) - 1) == (a + c) * ((a + c) - 1))
            by (nonlinear_arith)
            requires
                sum_counts_upto(s, k) == a + c,
        ;
    } else {
        assert(sum_counts_upto(s, k) == 0);
        assert(sum_counts_upto(s, k) * (sum_counts_upto(s, k) - 1) == 0) by (nonlinear_arith)
            requires
                sum_counts_upto(s, k) == 0,
        ;
    }
}

proof fn lemma_sum_counts_mono(s: Seq<u8>, k1: int, k2: int)
    requires
        k1 <= k2,
    ensures
        sum_counts_upto(s, k1) <= sum_counts_upto(s, k2),
    decreases k2 - k1,
{
    if k1 < k2 {
        lemma_sum_counts_mono(s, k1, k2 - 1);
    }
}

/// Index of coincidence of an all-letter byte signal, scaled by 1e6.
/// `None` when fewer than two letters are present.
pub fn ic_of_alpha_bytes(ab: &Vec<u8>) -> (r: Option<u64>)
    requires
        ab@.len() < 0x1_0000_0000,
        forall|i: int| 0 <= i < ab@.len() ==> byte_is_alpha(#[trigger] ab@[i]),
    ensures
        r is None <==> ab@.len() < 2,
        r is Some ==> r->Some_0 == spec_ic_scaled(ab@) && r->Some_0 <= FREQ_SCALE,
{
    let n = ab.len();
    proof {
        lemma_sum_counts_total(ab@);
    }
    if n < 2 {
        return Option::None;
    }
    let counts = letter_counts(ab);
    let mut num: u64 = 0;
    let mut l: usize = 0;
    while l < 26
        invariant
            counts@.len() == 26,
            forall|k: int| 0 <= k < 26 ==> counts@[k] == count_letter(ab@, k),
            forall|k: int| 0 <= k < 26 ==> counts@[k] <= n,
            l <= 26,
            2 <= n == ab@.len() < 0x1_0000_0000,
            sum_counts_upto(ab@, 26) == n,
            num == ic_num_upto(ab@, l as int),
            num <= sum_counts_upto(ab@, l as int) * (sum_counts_upto(ab@, l as int) - 1),
            sum_counts_upto(ab@, l as int) <= n,
        decreases 26 - l,
    {
        let c = counts[l];
        let term: u64 = if c >= 1 {
            proof {
                let cc = c as int;
                assert(cc * (cc - 1) < 0x1_0000_0000u64 * 0x1_0000_0000u64) by (nonlinear_arith)
                    requires
                        1 <= cc < 0x1_0000_0000,
                ;
            }
            c * (c - 1)
        } else {
            0
        };
        proof {
            let a = sum_counts_upto(ab@, l as int) as int;
            let cc = c as int;
            let a2 = sum_counts_upto(ab@, l as int + 1) as int;
            assert(a2 == a + cc);
            lemma_ic_num_bounds(ab@, l as int);
            assert(a * (a - 1) + cc * (cc - 1) <= a2 * (a2 - 1)) by (nonlinear_arith)
                requires
                    a >= 0,
                    cc >= 0,
                    a2 == a + cc,
            ;
            assert(cc * (cc - 1) >= 0) by (nonlinear_arith)
                requires
                    cc >= 0,
            ;
            lemma_sum_counts_mono(ab@, l as int + 1, 26);
            assert(a2 * (a2 - 1) <= n * n) by (nonlinear_arith)
                requires
                    0 <= a2 <= n,
            ;
            assert(n * n < 0x1_0000_0000_0000_0000) by (nonlinear_arith)
                requires
                    0 <= n < 0x1_0000_0000,
            ;
        }
        num = num + term;
        l += 1;
    }
    proof {
        let nn = n as int;
        assert(2 <= nn * (nn - 1) < 0x1_0000_0000_0000_0000) by (nonlinear_arith)
            requires
                2 <= nn < 0x1_0000_0000,
        ;
        lemma_ic_num_bounds(ab@, 26);
    }
    let den: u64 = (n as u64) * ((n - 1) as u64);
    proof {
        assert(num <= den);
    }
    let ic128: u128 = (num as u128) * (FREQ_SCALE as u128) / (den as u128);
    proof {
        lemma_mul_inequality(num as int, den as int, FREQ_SCALE as int);
        lemma_div_is_ordered(
            num as int * FREQ_SCALE as int,
            den as int * FREQ_SCALE as int,
            den as int,
        );
        lemma_div_multiples_vanish(FREQ_SCALE as int, den as int);
        assert(ic128 <= FREQ_SCALE);
    }
    Option::Some(ic128 as u64)
}

/// Index of coincidence of `text`'s letters, scaled by 1e6: the
/// probability that two distinct positions hold the same (case-folded)
/// letter. `None` when fewer than two letters are present.
pub fn calculate_ic(text: &str) -> (r: Option<u64>)
    requires
        text@.len() < 0x1_0000_0000,
    ensures
        r is None <==> spec_alpha(text@).len() < 2,
        r is Some ==> r->Some_0 == spec_ic_scaled(spec_alpha_bytes(text@)) && r->Some_0
            <= FREQ_SCALE,
{
    let ab = text_alpha_bytes(text);
    proof {
        assert(spec_alpha(text@).len() == spec_alpha_bytes(text@).len());
        assert(ab@.len() < 0x1_0000_0000) by {
            assert(spec_alpha(text@).len() <= text@.len()) by {
                broadcast use vstd::seq_lib::group_filter_ensures;

            }
        }
        lemma_alpha_bytes_are_alpha(text@);
    }
    ic_of_alpha_bytes(&ab)
}

/// The mutual index of coincidence of the signal `ab` against the
/// English profile under trial shift `g`: the correlation
/// `sum_i english(i) * observed((i + g) mod 26)` in ppm-squared units.
/// Higher means the shift lines the column up with English better.
pub open spec fn spec_mic_score(ab: Seq<u8>, g: int) -> int {
    range_sum(|i: int| english_freq_ppm(i) * (spec_freq_ppm(ab, (i + g) % 26) as u64), 0, 26)
}

/// `a` sorts strictly before `b` in a MIC ranking: higher score first,
/// ties broken by the smaller shift.
pub open spec fn shift_pair_before(a: (u8, u64), b: (u8, u64)) -> bool {
    a.1 > b.1 || (a.1 == b.1 && a.0 < b.0)
}

/// Some entry of `out` carries shift `g`.
pub open spec fn shift_appears(out: Seq<(u8, u64)>, g: int) -> bool {
    exists|j: int| 0 <= j < out.len() && (#[trigger] out[j]).0 == g
}

/// Number of `true` entries among the first `k` of `t`.
pub open spec fn count_taken(t: Seq<bool>, k: int) -> int
    decreases k,
{
    if k <= 0 {
        0
    } else if t[k - 1] {
        1 + count_taken(t, k - 1)
    } else {
        count_taken(t, k - 1)
    }
}

proof fn lemma_count_taken_none(t: Seq<bool>, k: int)
    requires
        forall|g: int| 0 <= g < t.len() ==> !(#[trigger] t[g]),
        k <= t.len(),
    ensures
        count_taken(t, k) == 0,
    decreases k,
{
    if k > 0 {
        lemma_count_taken_none(t, k - 1);
    }
}

proof fn lemma_count_taken_update(t: Seq<bool>, i: int, k: int)
    requires
        0 <= i < t.len(),
        k <= t.len(),
        !t[i],
    ensures
        count_taken(t.update(i, true), k) == count_taken(t, k) + if i < k {
            1int
        } else {
            0int
        },
    decreases k,
{
    if k > 0 {
        lemma_count_taken_update(t, i, k - 1);
        if 0 <= k - 1 < t.len() {
            assert(t.update(i, true)[k - 1] == if k - 1 == i {
                true
            } else {
                t[k - 1]
            });
        }
    }
}

proof fn lemma_count_taken_le(t: Seq<bool>, k: int)
    requires
        k >= 0,
    ensures
        count_taken(t, k) <= k,
    decreases k,
{
    if k > 0 {
        lemma_count_taken_le(t, k - 1);
    }
}

proof fn lemma_count_taken_full(t: Seq<bool>, k: int)
    requires
        k >= 0,
        count_taken(t, k) == k,
        k <= t.len(),
    ensures
        forall|g: int| 0 <= g < k ==> t[g],
    decreases k,
{
    if k > 0 {
        lemma_count_taken_le(t, k - 1);
        assert(t[k - 1]);
        lemma_count_taken_full(t, k - 1);
    }
}

/// Rank the 26 shifts by score, best first, and keep the first `m`.
pub(crate) fn rank_shifts(scores: &Vec<u64>, m: usize) -> (r: Vec<(u8, u64)>)
    requires
        scores@.len() == 26,
        m <= 26,
    ensures
        r@.len() == m,
        forall|j: int| 0 <= j < m ==> 0 <= (#[trigger] r@[j]).0 < 26,
        forall|j: int| 0 <= j < m ==> (#[trigger] r@[j]).1 == scores@[r@[j].0 as int],
        forall|j1: int, j2: int|
            0 <= j1 < j2 < m ==> shift_pair_before(#[trigger] r@[j1], #[trigger] r@[j2]),
        forall|g: int, j: int|
            #![trigger r@[j], scores@[g]]
            0 <= g < 26 && 0 <= j < m && !shift_appears(r@, g) ==> shift_pair_before(
                r@[j],
                (g as u8, scores@[g]),
            ),
        m == 26 ==> forall|g: int| 0 <= g < 26 ==> shift_appears(r@, g),
{
    let mut taken: Vec<bool> = Vec::new();
    let mut k: usize = 0;
    while k < 26
        invariant
            taken@.len() == k,
            k <= 26,
            forall|g: int| 0 <= g < k ==> !(#[trigger] taken@[g]),
        decreases 26 - k,
    {
        taken.push(false);
        k += 1;
    }
    proof {
        lemma_count_taken_none(taken@, 26);
    }
    let mut out: Vec<(u8, u64)> = Vec::new();
    let mut step: usize = 0;
    while step < m
        invariant
            scores@.len() == 26,
            taken@.len() == 26,
            m <= 26,
            out@.len() == step,
            step <= m,
            forall|j: int| 0 <= j < step ==> 0 <= (#[trigger] out@[j]).0 < 26,
            forall|j: int| 0 <= j < step ==> (#[trigger] out@[j]).1 == scores@[out@[j].0 as int],
            forall|g: int| 0 <= g < 26 ==> (#[trigger] taken@[g] <==> shift_appears(out@, g)),
            count_taken(taken@, 26) == step,
            forall|j1: int, j2: int|
                0 <= j1 < j2 < step ==> shift_pair_before(#[trigger] out@[j1], #[trigger] out@[j2]),
            forall|j: int, g: int|
                #![trigger out@[j], taken@[g]]
                0 <= j < step && 0 <= g < 26 && !taken@[g] ==> shift_pair_before(
                    out@[j],
                    (g as u8, scores@[g]),
                ),
        decreases m - step,
    {
        // There are at most 26 picks, so an untaken shift remains.
        let mut best: usize = 0;
        let mut found = false;
        let mut g: usize = 0;
        while g < 26
            invariant
                scores@.len() == 26,
                taken@.len() == 26,
                g <= 26,
                found ==> best < 26 && !taken@[best as int],
                found ==> forall|g2: int|
                    0 <= g2 < g && !taken@[g2] && g2 != best ==> shift_pair_before(
                        (best as u8, scores@[best as int]),
                        (g2 as u8, #[trigger] scores@[g2]),
                    ),
                !found ==> forall|g2: int| 0 <= g2 < g ==> #[trigger] taken@[g2],
                found ==> best < g,
            decreases 26 - g,
        {
            if !taken[g] {
                if !found {
                    best = g;
                    found = true;
                } else {
                    let bs = scores[best];
                    let gs = scores[g];
                    if gs > bs || (gs == bs && g < best) {
                        // g < best cannot happen while scanning upward,
                        // but the comparison mirrors the ranking order.
                        best = g;
                    }
                }
            }
            g += 1;
        }
        proof {
            // Fewer picks than shifts: some shift is still untaken, so
            // the scan found one. Otherwise all 26 shifts would name
            // distinct positions of `out`, which has under 26.
            if !found {
                assert forall|g2: int| 0 <= g2 < 26 implies shift_appears(out@, g2) by {
                    assert(taken@[g2]);
                }
                lemma_pigeon(out@, step as int, 0, 26);
            }
            assert(found);
        }
        let bs = scores[best];
        let ghost oldout = out@;
        let ghost oldtaken = taken@;
        out.push((best as u8, bs));
        taken.set(best, true);
        proof {
            let newout = out@;
            let bp = (best as u8, bs);
            assert(newout == oldout.push(bp));
            assert(newout.len() == step + 1);
            assert(newout[step as int] == bp);
            assert(forall|j: int| 0 <= j < step ==> #[trigger] newout[j] == oldout[j]);
            assert(taken@ == oldtaken.update(best as int, true));
            lemma_count_taken_update(oldtaken, best as int, 26);
            assert(count_taken(taken@, 26) == step + 1);
            // The pick stays linked to its score and range.
            assert(bp.0 as int == best as int);
            assert(bp.1 == scores@[best as int]);
            // Membership bookkeeping.
            assert forall|gg: int|
                0 <= gg < 26 implies (#[trigger] taken@[gg] <==> shift_appears(newout, gg)) by {
                if gg == best as int {
                    assert(newout[step as int].0 == gg);
                    assert(shift_appears(newout, gg));
                } else {
                    assert(taken@[gg] == oldtaken[gg]);
                    if shift_appears(oldout, gg) {
                        let j = choose|j: int|
                            0 <= j < oldout.len() && (#[trigger] oldout[j]).0 == gg;
                        assert(newout[j].0 == gg);
                        assert(shift_appears(newout, gg));
                    }
                    if shift_appears(newout, gg) {
                        let j = choose|j: int|
                            0 <= j < newout.len() && (#[trigger] newout[j]).0 == gg;
                        assert(j != step);
                        assert(oldout[j].0 == gg);
                        assert(shift_appears(oldout, gg));
                    }
                }
            }
            // The new element sorts after everything already picked,
            // and still before everything not yet picked.
            assert forall|j1: int, j2: int|
                0 <= j1 < j2 < step + 1 implies shift_pair_before(
                    #[trigger] newout[j1],
                    #[trigger] newout[j2],
                ) by {
                if j2 == step {
                    assert(newout[j1] == oldout[j1]);
                    assert(!oldtaken[best as int]);
                    assert(shift_pair_before(oldout[j1], (best as u8, scores@[best as int])));
                }
            }
            assert forall|j: int, g: int|
                #![trigger newout[j], taken@[g]]
                0 <= j < step + 1 && 0 <= g < 26 && !taken@[g] implies shift_pair_before(
                    newout[j],
                    (g as u8, scores@[g]),
                ) by {
                assert(g != best as int);
                assert(!oldtaken[g]);
                if j < step {
                    assert(newout[j] == oldout[j]);
                    assert(shift_pair_before(oldout[j], (g as u8, scores@[g])));
                } else {
                    assert(shift_pair_before(
                        (best as u8, scores@[best as int]),
                        (g as u8, scores@[g]),
                    ));
                }
            }
        }
        step += 1;
    }
    proof {
        assert forall|g: int, j: int|
            0 <= g < 26 && 0 <= j < m && !shift_appears(out@, g) implies shift_pair_before(
                out@[j],
                (g as u8, scores@[g]),
            ) by {
            assert(!taken@[g]);
            assert(0 <= j < out@.len());
        }
        if m == 26 {
            lemma_count_taken_full(taken@, 26);
            assert forall|g: int| 0 <= g < 26 implies shift_appears(out@, g) by {
                assert(taken@[g]);
            }
        }
    }
    out
}

/// The fewest letters a column may hold before MIC ranking is trusted.
pub const MIN_CHARS_FOR_MIC: usize = 5;

/// What a MIC ranking of the signal `ab`, truncated to `m` entries,
/// must look like: every entry carries its true correlation score, the
/// entries come best first (ties broken by the smaller shift), and
/// every shift left out would rank after every entry kept.
pub open spec fn mic_ranking_ok(ab: Seq<u8>, m: int, v: Seq<(u8, u64)>) -> bool {
    &&& v.len() == m
    &&& forall|j: int| 0 <= j < m ==> 0 <= (#[trigger] v[j]).0 < 26
    &&& forall|j: int| 0 <= j < m ==> (#[trigger] v[j]).1 == spec_mic_score(ab, v[j].0 as int)
    &&& forall|j1: int, j2: int|
        0 <= j1 < j2 < m ==> shift_pair_before(#[trigger] v[j1], #[trigger] v[j2])
    &&& forall|g: int, j: int|
        #![trigger v[j], spec_mic_score(ab, g)]
        0 <= g < 26 && 0 <= j < m && !shift_appears(v, g) ==> shift_pair_before(
            v[j],
            (g as u8, spec_mic_score(ab, g) as u64),
        )
}

/// MIC shift ranking over an all-letter byte signal.
pub(crate) fn mic_rank_bytes(bytes: &Vec<u8>, n_top: usize) -> (r: Option<Vec<(u8, u64)>>)
    requires
        bytes@.len() < 0x1_0000_0000,
        forall|i: int| 0 <= i < bytes@.len() ==> byte_is_alpha(#[trigger] bytes@[i]),
    ensures
        (r is None <==> (bytes@.len() < MIN_CHARS_FOR_MIC || n_top == 0)),
        r is Some ==> mic_ranking_ok(
            bytes@,
            if n_top <= 26 {
                n_top as int
            } else {
                26
            },
            r->Some_0@,
        ),
{
    let n = bytes.len();
    if n < MIN_CHARS_FOR_MIC || n_top == 0 {
        return Option::None;
    }
    let ghost ab = bytes@;
    let counts = letter_counts(bytes);
    let mut freqs: Vec<u64> = Vec::new();
    let mut l: usize = 0;
    while l < 26
        invariant
            freqs@.len() == l,
            l <= 26,
            counts@.len() == 26,
            n == ab.len(),
            0 < n < 0x1_0000_0000,
            forall|k: int| 0 <= k < 26 ==> counts@[k] == count_letter(ab, k),
            forall|k: int| 0 <= k < 26 ==> counts@[k] <= n,
            forall|k: int| 0 <= k < l ==> freqs@[k] == spec_freq_ppm(ab, k),
            forall|k: int| 0 <= k < l ==> freqs@[k] <= FREQ_SCALE,
        decreases 26 - l,
    {
        let c = counts[l];
        let f = c * FREQ_SCALE / (n as u64);
        proof {
            lemma_mul_inequality(c as int, n as int, FREQ_SCALE as int);
            lemma_div_is_ordered(c as int * FREQ_SCALE as int, n as int * FREQ_SCALE as int, n as int);
            lemma_div_multiples_vanish(FREQ_SCALE as int, n as int);
        }
        freqs.push(f);
        l += 1;
    }
    let eng = english_frequencies();
    let mut scores: Vec<u64> = Vec::new();
    let mut g: usize = 0;
    while g < 26
        invariant
            freqs@.len() == 26,
            eng@.len() == 26,
            forall|l: int| 0 <= l < 26 ==> #[trigger] freqs@[l] == spec_freq_ppm(ab, l),
            forall|l: int| 0 <= l < 26 ==> #[trigger] freqs@[l] <= FREQ_SCALE,
            forall|l: int| 0 <= l < 26 ==> #[trigger] eng@[l] == english_freq_ppm(l),
            forall|l: int| 0 <= l < 26 ==> #[trigger] eng@[l] <= FREQ_SCALE,
            g <= 26,
            scores@.len() == g,
            forall|g2: int| 0 <= g2 < g ==> #[trigger] scores@[g2] == spec_mic_score(ab, g2),
        decreases 26 - g,
    {
        let ghost h = |i: int| english_freq_ppm(i) * (spec_freq_ppm(ab, (i + g as int) % 26) as u64);
        let mut acc: u64 = 0;
        let mut i: usize = 0;
        while i < 26
            invariant
                freqs@.len() == 26,
                eng@.len() == 26,
                forall|l: int| 0 <= l < 26 ==> #[trigger] freqs@[l] == spec_freq_ppm(ab, l),
                forall|l: int| 0 <= l < 26 ==> #[trigger] freqs@[l] <= FREQ_SCALE,
                forall|l: int| 0 <= l < 26 ==> #[trigger] eng@[l] == english_freq_ppm(l),
                forall|l: int| 0 <= l < 26 ==> #[trigger] eng@[l] <= FREQ_SCALE,
                g < 26,
                i <= 26,
                h == |ii: int|
                    english_freq_ppm(ii) * (spec_freq_ppm(ab, (ii + g as int) % 26) as u64),
                acc == range_sum(h, 0, i as int),
                acc <= i * 1_000_000_000_000,
            decreases 26 - i,
        {
            let idx = (i + g) % 26;
            proof {
                lemma_mod_bound((i + g) as int, 26);
            }
            let e = eng[i];
            let o = freqs[idx];
            proof {
                assert(e * o <= 1_000_000_000_000) by (nonlinear_arith)
                    requires
                        e <= 1_000_000,
                        o <= 1_000_000,
                ;
                assert(h(i as int) == english_freq_ppm(i as int) * (spec_freq_ppm(
                    ab,
                    (i as int + g as int) % 26,
                ) as u64));
                assert(o == spec_freq_ppm(ab, idx as int));
                assert(spec_freq_ppm(ab, idx as int) >= 0);
                assert(h(i as int) == e * o);
                assert(range_sum(h, 0, i as int + 1) == range_sum(h, 0, i as int) + h(i as int));
            }
            acc = acc + e * o;
            i += 1;
        }
        scores.push(acc);
        proof {
            assert(spec_mic_score(ab, g as int) == range_sum(h, 0, 26));
        }
        g += 1;
    }
    let m = if n_top <= 26 {
        n_top
    } else {
        26
    };
    let ranked = rank_shifts(&scores, m);
    proof {
        assert forall|j: int| 0 <= j < m implies (#[trigger] ranked@[j]).1 == spec_mic_score(
            ab,
            ranked@[j].0 as int,
        ) by {
            assert(scores@[ranked@[j].0 as int] == spec_mic_score(ab, ranked@[j].0 as int));
        }
        assert forall|g2: int, j: int|
            #![trigger ranked@[j], spec_mic_score(ab, g2)]
            0 <= g2 < 26 && 0 <= j < m && !shift_appears(ranked@, g2) implies shift_pair_before(
            ranked@[j],
            (g2 as u8, spec_mic_score(ab, g2) as u64),
        ) by {
            assert(scores@[g2] == spec_mic_score(ab, g2));
            assert(shift_pair_before(ranked@[j], (g2 as u8, scores@[g2])));
        }
    }
    Option::Some(ranked)
}

/// Rank all 26 candidate Caesar shifts of a single Vigenere column by
/// mutual index of coincidence against English, best first, and return
/// the top `n_top`. `None` when the column holds fewer than
/// [`MIN_CHARS_FOR_MIC`] letters or `n_top` is zero.
pub fn find_top_n_caesar_shifts_mic(column_text: &str, n_top: usize) -> (r: Option<
    Vec<(u8, u64)>,
>)
    requires
        column_text@.len() < 0x1_0000_0000,
    ensures
        ({
            let ab = spec_alpha_bytes(column_text@);
            &&& (r is None <==> (ab.len() < MIN_CHARS_FOR_MIC || n_top == 0))
            &&& (r is Some ==> mic_ranking_ok(
                ab,
                if n_top <= 26 {
                    n_top as int
                } else {
                    26
                },
                r->Some_0@,
            ))
        }),
{
    let ab = text_alpha_bytes(column_text);
    proof {
        lemma_alpha_bytes_are_alpha(column_text@);
        assert(spec_alpha(column_text@).len() <= column_text@.len()) by {
            broadcast use vstd::seq_lib::group_filter_ensures;

        }
    }
    mic_rank_bytes(&ab, n_top)
}

/// `f` divides `number` (and both are positive).
pub open spec fn is_divisor(number: int, f: int) -> bool {
    1 <= f <= number && number % f == 0
}

/// Whether `x` occurs in `v`.
fn vec_contains_usize(v: &Vec<usize>, x: usize) -> (b: bool)
    ensures
        b == v@.contains(x),
{
    let mut i: usize = 0;
    while i < v.len()
        invariant
            i <= v@.len(),
            forall|k: int| 0 <= k < i ==> v@[k] != x,
        decreases v@.len() - i,
    {
        if v[i] == x {
            return true;
        }
        i += 1;
    }
    proof {
        assert(!v@.contains(x));
    }
    false
}

/// Append `x` unless it is already present, keeping entries distinct.
fn push_if_absent(r: &mut Vec<usize>, x: usize)
    requires
        forall|k1: int, k2: int| 0 <= k1 < k2 < old(r)@.len() ==> old(r)@[k1] != old(r)@[k2],
    ensures
        forall|f: usize| #[trigger] final(r)@.contains(f) <==> (old(r)@.contains(f) || f == x),
        forall|k1: int, k2: int| 0 <= k1 < k2 < final(r)@.len() ==> final(r)@[k1] != final(r)@[k2],
{
    let present = vec_contains_usize(r, x);
    if !present {
        let ghost oldr = r@;
        r.push(x);
        proof {
            assert(r@ == oldr.push(x));
            assert forall|f: usize| #[trigger] r@.contains(f) implies (oldr.contains(f) || f
                == x) by {
                let k = choose|k: int| 0 <= k < r@.len() && r@[k] == f;
                if k < oldr.len() {
                    assert(oldr[k] == f);
                }
            }
            assert forall|f: usize| (oldr.contains(f) || f == x) implies #[trigger] r@.contains(
                f,
            ) by {
                if oldr.contains(f) {
                    let k = choose|k: int| 0 <= k < oldr.len() && oldr[k] == f;
                    assert(r@[k] == f);
                } else {
                    assert(r@[oldr.len() as int] == x);
                }
            }
            assert forall|k1: int, k2: int| 0 <= k1 < k2 < r@.len() implies r@[k1] != r@[k2] by {
                if k2 == oldr.len() as int {
                    if r@[k1] == x {
                        assert(oldr[k1] == x);
                        assert(oldr.contains(x));
                    }
                }
            }
        }
    }
}

/// All divisors of `number`, each exactly once. Divisor pairs are found
/// up to the square root; the list is empty for `number == 0`.
pub fn find_factors(number: usize) -> (r: Vec<usize>)
    ensures
        forall|k: int| 0 <= k < r@.len() ==> is_divisor(number as int, (#[trigger] r@[k]) as int),
        forall|k1: int, k2: int| 0 <= k1 < k2 < r@.len() ==> r@[k1] != r@[k2],
        forall|f: usize| is_divisor(number as int, f as int) ==> #[trigger] r@.contains(f),
{
    let mut r: Vec<usize> = Vec::new();
    let mut i: usize = 1;
    proof {
        // Any divisor has a complement of at least 1, so nothing is
        // covered before the first iteration.
        assert forall|f: usize|
            is_divisor(number as int, f as int) implies number as int / (f as int) >= 1 by {
            lemma_div_is_ordered(f as int, number as int, f as int);
            vstd::arithmetic::div_mod::lemma_div_by_self(f as int);
        }
    }
    while i <= number / i
        invariant
            1 <= i <= number + 1,
            forall|k: int| 0 <= k < r@.len() ==> is_divisor(number as int, (#[trigger] r@[k]) as int),
            forall|k1: int, k2: int| 0 <= k1 < k2 < r@.len() ==> r@[k1] != r@[k2],
            forall|f: usize|
                is_divisor(number as int, f as int) && ((f as int) < i || number as int / (f as int)
                    < i) ==> #[trigger] r@.contains(f),
        decreases number + 1 - i,
    {
        if number % i == 0 {
            let c = number / i;
            proof {
                vstd::arithmetic::div_mod::lemma_fundamental_div_mod(number as int, i as int);
                assert(number as int == i as int * (number as int / i as int));
                assert(c as int * i as int == number as int) by (nonlinear_arith)
                    requires
                        c as int == number as int / i as int,
                        number as int == i as int * (number as int / i as int),
                ;
                vstd::arithmetic::div_mod::lemma_mod_multiples_basic(i as int, c as int);
                assert((c as int * i as int) % (c as int) == 0) by {
                    vstd::arithmetic::div_mod::lemma_mod_multiples_basic(i as int, c as int);
                }
                assert(number as int % (c as int) == 0);
                assert(1 <= c);
                assert(c <= number);
                assert(is_divisor(number as int, c as int));
                lemma_div_multiples_vanish(i as int, c as int);
                assert(number as int / (c as int) == i as int);
            }
            let ghost r0 = r@;
            push_if_absent(&mut r, i);
            let ghost r1 = r@;
            push_if_absent(&mut r, c);
            proof {
                assert(r@.contains(i) && r@.contains(c));
                // Every element either was there before or is i or c,
                // so every element still divides `number`.
                assert forall|k: int|
                    0 <= k < r@.len() implies is_divisor(number as int, (#[trigger] r@[k]) as int)
                    by {
                    let f = r@[k];
                    assert(r@.contains(f));
                    if r0.contains(f) {
                        let k0 = choose|k0: int| 0 <= k0 < r0.len() && r0[k0] == f;
                        assert(is_divisor(number as int, r0[k0] as int));
                    }
                }
                assert forall|f: usize|
                    r0.contains(f) implies #[trigger] r@.contains(f) by {
                    assert(r1.contains(f));
                }
                // A divisor newly covered at this step is `i` itself or
                // the complement of `i`.
                assert forall|f: usize|
                    is_divisor(number as int, f as int) && ((f as int) < i + 1 || number as int / (
                    f as int) < i + 1) implies #[trigger] r@.contains(f) by {
                    if (f as int) < i || number as int / (f as int) < i {
                    } else if f as int == i as int {
                    } else {
                        // number / f == i, so f is the complement of i.
                        assert(number as int / (f as int) == i as int);
                        vstd::arithmetic::div_mod::lemma_fundamental_div_mod(
                            number as int,
                            f as int,
                        );
                        assert(number as int == f as int * (i as int));
                        assert(number as int == (i as int) * (f as int)) by (nonlinear_arith)
                            requires
                                number as int == f as int * (i as int),
                        ;
                        lemma_div_multiples_vanish(f as int, i as int);
                        assert((i as int) * (f as int) / (i as int) == f as int);
                        assert(number as int / (i as int) == f as int);
                        assert(f == c);
                    }
                }
            }
        } else {
            proof {
                // No divisor is newly covered: a divisor equal to `i`
                // or with complement `i` would make `i` divide
                // `number`.
                assert forall|f: usize|
                    is_divisor(number as int, f as int) && ((f as int) < i + 1 || number as int / (
                    f as int) < i + 1) implies #[trigger] r@.contains(f) by {
                    if (f as int) < i || number as int / (f as int) < i {
                    } else if f as int == i as int {
                        assert(number as int % (i as int) == 0);
                    } else {
                        assert(number as int / (f as int) == i as int);
                        vstd::arithmetic::div_mod::lemma_fundamental_div_mod(
                            number as int,
                            f as int,
                        );
                        assert(number as int == f as int * (i as int));
                        vstd::arithmetic::div_mod::lemma_mod_multiples_basic(f as int, i as int);
                        assert(number as int % (i as int) == 0);
                    }
                }
            }
        }
        proof {
            // The loop condition keeps i at most the square root, so
            // the increment cannot overflow.
            if i >= 2 {
                lemma_div_is_ordered_by_denominator(number as int, 2, i as int);
                assert(i as int <= number as int / 2);
            }
        }
        i += 1;
    }
    proof {
        // Every divisor is covered once i * i exceeds number: a large
        // divisor's complement is small.
        assert forall|f: usize| is_divisor(number as int, f as int) implies #[trigger] r@.contains(
            f,
        ) by {
            vstd::arithmetic::div_mod::lemma_remainder_lower(number as int, i as int);
            if (f as int) < i {
            } else {
                assert(number as int / (f as int) < i) by {
                    vstd::arithmetic::div_mod::lemma_fundamental_div_mod(number as int, f as int);
                    let q = number as int / (f as int);
                    assert(number as int == f as int * q);
                    assert(q * (f as int) == number as int);
                    assert(i as int * i as int > number as int) by {
                        if i <= number / i {
                            assert(false);
                        }
                        vstd::arithmetic::div_mod::lemma_fundamental_div_mod(
                            number as int,
                            i as int,
                        );
                        assert(number as int / (i as int) < i as int);
                        assert(i as int * (number as int / (i as int)) <= number as int - (
                        number as int % (i as int)));
                        assert(number as int % (i as int) < i as int) by {
                            lemma_mod_bound(number as int, i as int);
                        }
                        assert(i as int * (number as int / (i as int) + 1) >= i as int * (
                        number as int / (i as int)) + i as int) by (nonlinear_arith);
                        assert(i as int * i as int >= i as int * (number as int / (i as int)
                            + 1)) by (nonlinear_arith)
                            requires
                                number as int / (i as int) + 1 <= i as int,
                                i as int >= 1,
                        ;
                        assert(i as int * (number as int / (i as int)) + (number as int % (
                        i as int)) == number as int);
                    }
                    assert(q < i as int) by (nonlinear_arith)
                        requires
                            q * (f as int) == number as int,
                            f as int >= i as int,
                            i as int * i as int > number as int,
                            i as int >= 1,
                            q >= 0,
                    ;
                }
            }
        }
    }
    r
}

/// The windows of `len` bytes starting at `i` and at `j` hold the same
/// bytes.
pub open spec fn windows_equal(ab: Seq<u8>, i: int, j: int, len: int) -> bool {
    ab.subrange(i, i + len) == ab.subrange(j, j + len)
}

/// One Kasiski vote: positions `i < j` carry equal windows of length
/// `len`, and `f` (larger than 1) divides their distance.
pub open spec fn vote_pair(ab: Seq<u8>, len: int, i: int, j: int, f: int) -> nat {
    if windows_equal(ab, i, j, len) && is_divisor(j - i, f) && 1 < f {
        1
    } else {
        0
    }
}

/// Votes from pairs `(i, j)` with `i < j < jhi`.
pub open spec fn votes_over_j(ab: Seq<u8>, len: int, i: int, jhi: int, f: int) -> nat
    decreases jhi - i,
{
    if jhi <= i + 1 {
        0
    } else {
        votes_over_j(ab, len, i, jhi - 1, f) + vote_pair(ab, len, i, jhi - 1, f)
    }
}

/// Votes from all pairs whose first position is below `ihi`.
pub open spec fn votes_over_i(ab: Seq<u8>, len: int, ihi: int, f: int) -> nat
    decreases ihi,
{
    if ihi <= 0 {
        0
    } else {
        votes_over_i(ab, len, ihi - 1, f) + votes_over_j(
            ab,
            len,
            ihi - 1,
            ab.len() - len + 1,
            f,
        )
    }
}

/// Votes summed over window lengths `lenlo <= len < lenhi`.
pub open spec fn votes_over_len(ab: Seq<u8>, lenlo: int, lenhi: int, f: int) -> nat
    decreases lenhi - lenlo,
{
    if lenhi <= lenlo {
        0
    } else {
        votes_over_len(ab, lenlo, lenhi - 1, f) + votes_over_i(
            ab,
            lenhi - 1,
            ab.len() - (lenhi - 1) + 1,
            f,
        )
    }
}

/// How many Kasiski votes factor `f` collects over the signal `ab`:
/// one per repeated-window pair whose distance `f` divides, over every
/// window length from `min_len` up to `max_len` capped at half the
/// signal.
pub open spec fn spec_kasiski_votes(ab: Seq<u8>, min_len: int, max_len: int, f: int) -> nat {
    let cap = if max_len <= ab.len() as int / 2 {
        max_len
    } else {
        ab.len() as int / 2
    };
    votes_over_len(ab, min_len, cap + 1, f)
}

proof fn lemma_votes_j_bound(ab: Seq<u8>, len: int, i: int, jhi: int, f: int)
    ensures
        votes_over_j(ab, len, i, jhi, f) <= if jhi - i - 1 >= 0 {
            jhi - i - 1
        } else {
            0
        },
    decreases jhi - i,
{
    if jhi > i + 1 {
        lemma_votes_j_bound(ab, len, i, jhi - 1, f);
    }
}

proof fn lemma_votes_i_bound(ab: Seq<u8>, len: int, ihi: int, f: int)
    requires
        len >= 0,
    ensures
        votes_over_i(ab, len, ihi, f) <= if ihi >= 0 {
            ihi * (ab.len() + 1)
        } else {
            0
        },
    decreases ihi,
{
    if ihi > 0 {
        lemma_votes_i_bound(ab, len, ihi - 1, f);
        lemma_votes_j_bound(ab, len, ihi - 1, ab.len() - len + 1, f);
        assert((ihi - 1) * (ab.len() + 1) + (ab.len() + 1) == ihi * (ab.len() + 1))
            by (nonlinear_arith);
    }
}

proof fn lemma_votes_len_bound(ab: Seq<u8>, lenlo: int, lenhi: int, f: int)
    requires
        lenlo >= 0,
    ensures
        votes_over_len(ab, lenlo, lenhi, f) <= if lenhi - lenlo >= 0 {
            (lenhi - lenlo) * ((ab.len() + 1) * (ab.len() + 1))
        } else {
            0
        },
    decreases lenhi - lenlo,
{
    let n = ab.len() as int;
    if lenhi > lenlo {
        lemma_votes_len_bound(ab, lenlo, lenhi - 1, f);
        assert(lenhi - 1 >= 0);
        lemma_votes_i_bound(ab, lenhi - 1, n - (lenhi - 1) + 1, f);
        if n - (lenhi - 1) + 1 >= 0 {
            assert((n - (lenhi - 1) + 1) * (n + 1) <= (n + 1) * (n + 1)) by (nonlinear_arith)
                requires
                    0 <= n - (lenhi - 1) + 1 <= n + 1,
            ;
        }
        assert((lenhi - 1 - lenlo) * ((n + 1) * (n + 1)) + (n + 1) * (n + 1) == (lenhi - lenlo) * ((
        n + 1) * (n + 1))) by (nonlinear_arith);
    }
}

/// A factor larger than the whole signal collects no votes: it cannot
/// divide any pair distance.
proof fn lemma_votes_j_zero(ab: Seq<u8>, len: int, i: int, jhi: int, f: int)
    requires
        f > ab.len(),
        jhi <= ab.len() - len + 1,
        len >= 0,
        i >= 0,
    ensures
        votes_over_j(ab, len, i, jhi, f) == 0,
    decreases jhi - i,
{
    if jhi > i + 1 {
        lemma_votes_j_zero(ab, len, i, jhi - 1, f);
        let d = jhi - 1 - i;
        assert(d <= ab.len());
        if is_divisor(d, f) {
            assert(f <= d);
            assert(false);
        }
    }
}

proof fn lemma_votes_i_zero(ab: Seq<u8>, len: int, ihi: int, f: int)
    requires
        f > ab.len(),
        len >= 0,
    ensures
        votes_over_i(ab, len, ihi, f) == 0,
    decreases ihi,
{
    if ihi > 0 {
        lemma_votes_i_zero(ab, len, ihi - 1, f);
        lemma_votes_j_zero(ab, len, ihi - 1, ab.len() - len + 1, f);
    }
}

proof fn lemma_votes_len_zero(ab: Seq<u8>, lenlo: int, lenhi: int, f: int)
    requires
        f > ab.len(),
        lenlo >= 0,
    ensures
        votes_over_len(ab, lenlo, lenhi, f) == 0,
    decreases lenhi - lenlo,
{
    if lenhi > lenlo {
        lemma_votes_len_zero(ab, lenlo, lenhi - 1, f);
        if lenhi - 1 >= 0 {
            lemma_votes_i_zero(ab, lenhi - 1, lenhi - 1 + 0, f);
            lemma_votes_i_zero(ab, lenhi - 1, ab.len() - (lenhi - 1) + 1, f);
        }
    }
}

/// Whether the windows of length `len` at `i` and `j` match.
fn window_eq(ab: &Vec<u8>, i: usize, j: usize, len: usize) -> (b: bool)
    requires
        i + len <= ab@.len(),
        j + len <= ab@.len(),
    ensures
        b == windows_equal(ab@, i as int, j as int, len as int),
{
    let n = ab.len();
    let mut t: usize = 0;
    while t < len
        invariant
            n == ab@.len(),
            i + len <= n,
            j + len <= n,
            t <= len,
            forall|u: int| 0 <= u < t ==> #[trigger] ab@[i + u] == ab@[j + u],
        decreases len - t,
    {
        if ab[i + t] != ab[j + t] {
            proof {
                let wi = ab@.subrange(i as int, i + len);
                let wj = ab@.subrange(j as int, j + len);
                assert(wi[t as int] == ab@[i + t]);
                assert(wj[t as int] == ab@[j + t]);
                assert(wi != wj);
            }
            return false;
        }
        t += 1;
    }
    proof {
        let wi = ab@.subrange(i as int, i + len);
        let wj = ab@.subrange(j as int, j + len);
        assert forall|u: int| 0 <= u < len implies wi[u] == wj[u] by {
            assert(ab@[i + u] == ab@[j + u]);
        }
        assert(wi =~= wj);
    }
    true
}

/// `a` sorts strictly before `b` among Kasiski results: more votes
/// first, ties broken by the smaller factor.
pub open spec fn factor_entry_before(a: (usize, usize), b: (usize, usize)) -> bool {
    a.1 > b.1 || (a.1 == b.1 && a.0 < b.0)
}

/// Sort Kasiski entries by votes descending, factor ascending.
fn sort_factor_entries(entries: Vec<(usize, usize)>) -> (r: Vec<(usize, usize)>)
    ensures
        r@.to_multiset() == entries@.to_multiset(),
        r@.len() == entries@.len(),
        forall|k1: int, k2: int|
            0 <= k1 < k2 < r@.len() ==> !factor_entry_before(#[trigger] r@[k2], #[trigger] r@[k1]),
{
    broadcast use vstd::seq_lib::group_to_multiset_ensures;

    let mut rest = entries;
    let mut out: Vec<(usize, usize)> = Vec::new();
    let ghost all = rest@.to_multiset();
    while rest.len() > 0
        invariant
            out@.to_multiset().add(rest@.to_multiset()) == all,
            forall|k1: int, k2: int|
                0 <= k1 < k2 < out@.len() ==> !factor_entry_before(
                    #[trigger] out@[k2],
                    #[trigger] out@[k1],
                ),
            forall|k: int, j: int|
                0 <= k < out@.len() && 0 <= j < rest@.len() ==> !factor_entry_before(
                    #[trigger] rest@[j],
                    #[trigger] out@[k],
                ),
        decreases rest@.len(),
    {
        // Pick the first minimal entry of `rest`.
        let mut best: usize = 0;
        let mut j: usize = 1;
        while j < rest.len()
            invariant
                rest@.len() > 0,
                best < j <= rest@.len(),
                forall|k: int|
                    0 <= k < j ==> !factor_entry_before(#[trigger] rest@[k], rest@[best as int]),
            decreases rest@.len() - j,
        {
            let (bf, bc) = rest[best];
            let (jf, jc) = rest[j];
            if jc > bc || (jc == bc && jf < bf) {
                best = j;
            }
            j += 1;
        }
        let ghost oldrest = rest@;
        let ghost oldout = out@;
        let picked = rest.remove(best);
        out.push(picked);
        proof {
            assert(oldrest[best as int] == picked);
            assert(rest@ == oldrest.remove(best as int));
            assert(out@ == oldout.push(picked));
            vstd::seq_lib::to_multiset_build(oldout, picked);
            assert(out@.to_multiset() =~= oldout.to_multiset().insert(picked));
            vstd::seq_lib::to_multiset_remove(oldrest, best as int);
            assert(rest@.to_multiset() =~= oldrest.to_multiset().remove(picked));
            vstd::seq_lib::to_multiset_contains(oldrest, picked);
            assert(oldrest.to_multiset().count(picked) > 0) by {
                assert(oldrest.contains(picked));
                vstd::seq_lib::to_multiset_contains(oldrest, picked);
            }
            assert(out@.to_multiset().add(rest@.to_multiset()) =~= all);
            // Every remaining entry sits at its old index or one later.
            assert forall|jj: int|
                0 <= jj < rest@.len() implies !factor_entry_before(#[trigger] rest@[jj], picked) by {
                if jj < best as int {
                    assert(rest@[jj] == oldrest[jj]);
                } else {
                    assert(rest@[jj] == oldrest[jj + 1]);
                }
            }
            assert forall|k: int, jj: int|
                0 <= k < out@.len() && 0 <= jj < rest@.len() implies !factor_entry_before(
                #[trigger] rest@[jj],
                #[trigger] out@[k],
            ) by {
                if k < oldout.len() {
                    if jj < best as int {
                        assert(rest@[jj] == oldrest[jj]);
                        assert(!factor_entry_before(oldrest[jj], oldout[k]));
                    } else {
                        assert(rest@[jj] == oldrest[jj + 1]);
                        assert(!factor_entry_before(oldrest[jj + 1], oldout[k]));
                    }
                } else {
                    assert(out@[k] == picked);
                }
            }
            assert forall|k1: int, k2: int|
                0 <= k1 < k2 < out@.len() implies !factor_entry_before(
                #[trigger] out@[k2],
                #[trigger] out@[k1],
            ) by {
                if k2 == oldout.len() as int {
                    assert(out@[k1] == oldout[k1]);
                    assert(!factor_entry_before(oldrest[best as int], oldout[k1]));
                }
            }
        }
    }
    proof {
        broadcast use vstd::seq_lib::group_to_multiset_ensures;

        assert(rest@.len() == 0);
        assert(rest@.to_multiset().len() == 0);
        assert(out@.to_multiset().add(rest@.to_multiset()) =~= out@.to_multiset());
        assert(out@.to_multiset() =~= all);
        assert(out@.to_multiset().len() == all.len());
        assert(entries@.to_multiset().len() == entries@.len());
    }
    out
}

/// Some entry of `r` names factor `f`.
pub open spec fn factor_appears(r: Seq<(usize, usize)>, f: int) -> bool {
    exists|k: int| 0 <= k < r.len() && (#[trigger] r[k]).0 == f
}

/// Estimate likely Vigenere key lengths by Kasiski examination: every
/// repeated window of letters votes for each factor of the distance
/// between its occurrences, and factors are ranked by vote count
/// (descending), ties broken by the smaller factor. An alphabetic
/// signal shorter than twice `min_len` yields no estimate.
pub fn estimate_key_lengths(text: &str, min_len: usize, max_len: usize) -> (r: Vec<(usize, usize)>)
    requires
        text@.len() < 0x1_0000_0000,
        (max_len + 1) * ((text@.len() + 1) * (text@.len() + 1)) < usize::MAX,
    ensures
        ({
            let ab = spec_alpha_bytes(text@);
            &&& (ab.len() < 2 * min_len ==> r@.len() == 0)
            &&& (forall|k: int|
                0 <= k < r@.len() ==> 1 < (#[trigger] r@[k]).0 <= max_len && r@[k].1
                    == spec_kasiski_votes(ab, min_len as int, max_len as int, r@[k].0 as int)
                    && r@[k].1 >= 1)
            &&& (ab.len() >= 2 * min_len ==> (forall|f: usize|
                1 < f <= max_len && spec_kasiski_votes(ab, min_len as int, max_len as int, f as int)
                    >= 1 ==> #[trigger] factor_appears(r@, f as int)))
            &&& (forall|k1: int, k2: int|
                0 <= k1 < k2 < r@.len() ==> (#[trigger] r@[k1]).0 != (#[trigger] r@[k2]).0)
            &&& (forall|k1: int, k2: int|
                0 <= k1 < k2 < r@.len() ==> !factor_entry_before(
                    #[trigger] r@[k2],
                    #[trigger] r@[k1],
                ))
        }),
{
    let ab = text_alpha_bytes(text);
    let n = ab.len();
    proof {
        assert(spec_alpha(text@).len() <= text@.len()) by {
            broadcast use vstd::seq_lib::group_filter_ensures;

        }
        assert(n <= text@.len());
        vstd::arithmetic::div_mod::lemma_fundamental_div_mod(n as int, 2);
        lemma_mod_bound(n as int, 2);
    }
    if n / 2 < min_len {
        proof {
            assert(n < 2 * min_len);
        }
        return Vec::new();
    }
    proof {
        assert(n >= 2 * min_len);
    }
    proof {
        let nn = n as int;
        let tl = text@.len() as int;
        assert(((max_len as int) + 1) * ((nn + 1) * (nn + 1)) <= ((max_len as int) + 1) * ((tl + 1)
            * (tl + 1))) by (nonlinear_arith)
            requires
                0 <= nn <= tl,
                max_len as int >= 0,
        ;
        assert((max_len as int) + 1 < usize::MAX) by (nonlinear_arith)
            requires
                ((max_len as int) + 1) * ((nn + 1) * (nn + 1)) < (usize::MAX as int),
                nn >= 0,
                max_len as int >= 0,
        ;
    }
    // One vote counter per candidate factor; no factor can exceed the
    // signal length or the requested maximum.
    let cap: usize = if max_len <= n / 2 {
        max_len
    } else {
        n / 2
    };
    let vb: usize = if max_len <= n {
        max_len + 1
    } else {
        n + 1
    };
    let mut votes: Vec<usize> = Vec::new();
    let mut z: usize = 0;
    while z < vb
        invariant
            votes@.len() == z,
            z <= vb,
            forall|f: int| 0 <= f < z ==> #[trigger] votes@[f] == 0,
        decreases vb - z,
    {
        votes.push(0);
        z += 1;
    }
    proof {
        let nn = n as int;
        assert(nn + 1 < usize::MAX) by (nonlinear_arith)
            requires
                ((max_len as int) + 1) * ((nn + 1) * (nn + 1)) < (usize::MAX as int),
                nn >= 0,
                max_len as int >= 0,
        ;
    }
    let ghost abs = ab@;
    let mut len: usize = min_len;
    proof {
        assert(forall|f: int|
            2 <= f < vb ==> #[trigger] votes@[f] == votes_over_len(
                abs,
                min_len as int,
                min_len as int,
                f,
            ));
    }
    while len <= cap
        invariant
            abs == ab@,
            n == ab@.len(),
            n < 0x1_0000_0000,
            n + 1 < usize::MAX,
            (max_len + 1) * ((n + 1) * (n + 1)) < usize::MAX,
            cap <= max_len,
            cap <= n / 2,
            min_len <= len,
            len <= cap + 1 || len == min_len,
            votes@.len() == vb,
            vb == if max_len <= n {
                max_len + 1
            } else {
                n + 1
            },
            forall|f: int|
                2 <= f < vb ==> #[trigger] votes@[f] == votes_over_len(
                    abs,
                    min_len as int,
                    len as int,
                    f,
                ),
        decreases cap + 1 - len,
    {
        let w = n - len;
        let mut i: usize = 0;
        proof {
            assert(forall|f: int|
                2 <= f < vb ==> #[trigger] votes_over_i(abs, len as int, 0, f) == 0);
        }
        while i <= w
            invariant
                abs == ab@,
                n == ab@.len(),
                n < 0x1_0000_0000,
                n + 1 < usize::MAX,
                (max_len + 1) * ((n + 1) * (n + 1)) < usize::MAX,
                cap <= max_len,
                min_len <= len <= cap,
                cap <= n / 2,
                w == n - len,
                i <= w + 1,
                votes@.len() == vb,
                vb == if max_len <= n {
                    max_len + 1
                } else {
                    n + 1
                },
                forall|f: int|
                    2 <= f < vb ==> #[trigger] votes@[f] == votes_over_len(
                        abs,
                        min_len as int,
                        len as int,
                        f,
                    ) + votes_over_i(abs, len as int, i as int, f),
            decreases w + 1 - i,
        {
            let mut j = i + 1;
            proof {
                assert(forall|f: int|
                    2 <= f < vb ==> #[trigger] votes_over_j(
                        abs,
                        len as int,
                        i as int,
                        i as int + 1,
                        f,
                    ) == 0);
            }
            while j <= w
                invariant
                    abs == ab@,
                    n == ab@.len(),
                    n < 0x1_0000_0000,
                    n + 1 < usize::MAX,
                    (max_len + 1) * ((n + 1) * (n + 1)) < usize::MAX,
                    cap <= max_len,
                    min_len <= len <= cap,
                    cap <= n / 2,
                    w == n - len,
                    i <= w,
                    i < j <= w + 1,
                    votes@.len() == vb,
                    vb == if max_len <= n {
                        max_len + 1
                    } else {
                        n + 1
                    },
                    forall|f: int|
                        2 <= f < vb ==> #[trigger] votes@[f] == votes_over_len(
                            abs,
                            min_len as int,
                            len as int,
                            f,
                        ) + votes_over_i(abs, len as int, i as int, f) + votes_over_j(
                            abs,
                            len as int,
                            i as int,
                            j as int,
                            f,
                        ),
                decreases w + 1 - j,
            {
                let ghost base = votes@;
                if window_eq(&ab, i, j, len) {
                    let dist = j - i;
                    let factors = find_factors(dist);
                    let mut k: usize = 0;
                    while k < factors.len()
                        invariant
                            abs == ab@,
                            n == ab@.len(),
                            n < 0x1_0000_0000,
                            n + 1 < usize::MAX,
                            (max_len + 1) * ((n + 1) * (n + 1)) < usize::MAX,
                            cap <= max_len,
                            min_len <= len <= cap,
                            cap <= n / 2,
                            w == n - len,
                            i <= w,
                            i < j <= w + 1,
                            votes@.len() == vb,
                            k <= factors@.len(),
                            dist == j - i,
                            1 <= dist <= n,
                            vb == if max_len <= n {
                                max_len + 1
                            } else {
                                n + 1
                            },
                            forall|kk: int|
                                0 <= kk < factors@.len() ==> is_divisor(
                                    dist as int,
                                    (#[trigger] factors@[kk]) as int,
                                ),
                            forall|k1: int, k2: int|
                                0 <= k1 < k2 < factors@.len() ==> factors@[k1] != factors@[k2],
                            forall|f: int|
                                2 <= f < vb ==> #[trigger] votes@[f] == base[f] + (
                                if factors@.take(k as int).contains(f as usize) && f
                                    <= max_len {
                                    1int
                                } else {
                                    0int
                                }),
                            forall|f: int|
                                2 <= f < vb ==> #[trigger] base[f] == votes_over_len(
                                    abs,
                                    min_len as int,
                                    len as int,
                                    f,
                                ) + votes_over_i(abs, len as int, i as int, f) + votes_over_j(
                                    abs,
                                    len as int,
                                    i as int,
                                    j as int,
                                    f,
                                ),
                        decreases factors@.len() - k,
                    {
                        let fv = factors[k];
                        proof {
                            assert(is_divisor(dist as int, fv as int));
                            assert(factors@.take(k as int + 1) == factors@.take(
                                k as int,
                            ).push(fv));
                            // fv is new: factors are pairwise distinct.
                            if factors@.take(k as int).contains(fv) {
                                let kk = choose|kk: int|
                                    0 <= kk < k && factors@.take(k as int)[kk] == fv;
                                assert(factors@[kk] == fv);
                            }
                            assert(!factors@.take(k as int).contains(fv));
                            assert forall|f: int|
                                2 <= f < vb implies (#[trigger] factors@.take(
                                k as int + 1,
                            ).contains(f as usize) <==> (factors@.take(k as int).contains(
                                f as usize,
                            ) || f == fv as int)) by {
                                let tk = factors@.take(k as int);
                                let tk1 = factors@.take(k as int + 1);
                                if tk1.contains(f as usize) {
                                    let kk = choose|kk: int|
                                        0 <= kk < tk1.len() && tk1[kk] == f as usize;
                                    if kk < k {
                                        assert(tk[kk] == f as usize);
                                    }
                                } else {
                                }
                                if tk.contains(f as usize) {
                                    let kk = choose|kk: int|
                                        0 <= kk < tk.len() && tk[kk] == f as usize;
                                    assert(tk1[kk] == f as usize);
                                }
                                if f == fv as int {
                                    assert(tk1[k as int] == f as usize);
                                }
                            }
                        }
                        if fv > 1 && fv <= max_len {
                            proof {
                                assert(fv <= dist);
                                assert(fv < vb);
                                // The counter stays below the overall
                                // triple bound, so it cannot overflow.
                                lemma_votes_len_bound(abs, min_len as int, len as int, fv as int);
                                lemma_votes_i_bound(abs, len as int, i as int, fv as int);
                                lemma_votes_j_bound(
                                    abs,
                                    len as int,
                                    i as int,
                                    j as int,
                                    fv as int,
                                );
                                let nn = n as int;
                                let ll = len as int;
                                let ml = min_len as int;
                                assert((ll - ml) * ((nn + 1) * (nn + 1)) + (i as int) * (nn + 1) + (
                                j as int - i as int - 1) + 1 < usize::MAX) by (nonlinear_arith)
                                    requires
                                        0 <= ml <= ll,
                                        ll <= max_len as int,
                                        0 <= (i as int),
                                        (i as int) <= nn,
                                        (i as int) < (j as int),
                                        (j as int) <= nn + 1,
                                        ((max_len as int) + 1) * ((nn + 1) * (nn + 1)) < (
                                        usize::MAX as int),
                                        nn >= 0,
                                ;
                            }
                            let cur = votes[fv];
                            votes.set(fv, cur + 1);
                        }
                        k += 1;
                    }
                    proof {
                        // All of dist's factors are recorded, so the
                        // counters moved by exactly one Kasiski vote.
                        assert(factors@.take(factors@.len() as int) == factors@);
                        assert(windows_equal(abs, i as int, j as int, len as int));
                        assert forall|f: int|
                            2 <= f < vb implies #[trigger] votes@[f] == base[f] + vote_pair(
                            abs,
                            len as int,
                            i as int,
                            j as int,
                            f,
                        ) by {
                            assert(f <= max_len);
                            if is_divisor(j as int - i as int, f) {
                                assert(factors@.contains(f as usize));
                            }
                            if factors@.contains(f as usize) {
                                let kk = choose|kk: int|
                                    0 <= kk < factors@.len() && factors@[kk] == f as usize;
                                assert(is_divisor(dist as int, factors@[kk] as int));
                            }
                        }
                    }
                } else {
                    proof {
                        assert forall|f: int|
                            2 <= f < vb implies #[trigger] votes@[f] == base[f] + vote_pair(
                            abs,
                            len as int,
                            i as int,
                            j as int,
                            f,
                        ) by {
                            assert(!windows_equal(abs, i as int, j as int, len as int));
                        }
                    }
                }
                j += 1;
                proof {
                    assert(forall|f: int|
                        2 <= f < vb ==> #[trigger] votes_over_j(
                            abs,
                            len as int,
                            i as int,
                            j as int,
                            f,
                        ) == votes_over_j(abs, len as int, i as int, j as int - 1, f)
                            + vote_pair(abs, len as int, i as int, j as int - 1, f));
                }
            }
            i += 1;
            proof {
                assert(j == w + 1);
                assert(forall|f: int|
                    2 <= f < vb ==> #[trigger] votes_over_i(abs, len as int, i as int, f)
                        == votes_over_i(abs, len as int, i as int - 1, f) + votes_over_j(
                        abs,
                        len as int,
                        i as int - 1,
                        n as int - len as int + 1,
                        f,
                    ));
            }
        }
        len += 1;
        proof {
            assert(i == w + 1);
            assert(forall|f: int|
                2 <= f < vb ==> #[trigger] votes_over_len(abs, min_len as int, len as int, f)
                    == votes_over_len(abs, min_len as int, len as int - 1, f) + votes_over_i(
                    abs,
                    len as int - 1,
                    n as int - (len as int - 1) + 1,
                    f,
                ));
        }
    }
    proof {
        // At exit the counters hold the full Kasiski votes.
        let speccap = if max_len as int <= n as int / 2 {
            max_len as int
        } else {
            n as int / 2
        };
        assert(speccap == cap as int);
        if len == min_len {
            assert(cap < min_len);
            assert(forall|f: int|
                2 <= f < vb ==> #[trigger] votes_over_len(abs, min_len as int, speccap + 1, f)
                    == 0);
        }
        assert(forall|f: int|
            2 <= f < vb ==> #[trigger] votes@[f] == spec_kasiski_votes(
                abs,
                min_len as int,
                max_len as int,
                f,
            ));
    }
    // Collect the factors that received votes, then rank them.
    let mut entries: Vec<(usize, usize)> = Vec::new();
    let mut f: usize = 2;
    while f < vb
        invariant
            votes@.len() == vb,
            2 <= f <= vb || (f == 2 && vb < 2),
            forall|k: int|
                0 <= k < entries@.len() ==> 2 <= (#[trigger] entries@[k]).0 < f && entries@[k].1
                    == votes@[entries@[k].0 as int] && entries@[k].1 >= 1,
            forall|k1: int, k2: int|
                0 <= k1 < k2 < entries@.len() ==> (#[trigger] entries@[k1]).0 < (
                #[trigger] entries@[k2]).0,
            forall|f2: int|
                2 <= f2 < f && votes@[f2] >= 1 ==> #[trigger] entries@.contains(
                    (f2 as usize, votes@[f2]),
                ),
        decreases vb - f,
    {
        let v = votes[f];
        if v >= 1 {
            let ghost olde = entries@;
            entries.push((f, v));
            proof {
                assert(entries@ == olde.push((f, v)));
                assert forall|f2: int|
                    2 <= f2 < f + 1 && votes@[f2] >= 1 implies #[trigger] entries@.contains(
                    (f2 as usize, votes@[f2]),
                ) by {
                    if f2 < f {
                        assert(olde.contains((f2 as usize, votes@[f2])));
                        let kk = choose|kk: int|
                            0 <= kk < olde.len() && olde[kk] == (f2 as usize, votes@[f2]);
                        assert(entries@[kk] == (f2 as usize, votes@[f2]));
                    } else {
                        assert(entries@[olde.len() as int] == (f as usize, votes@[f as int]));
                    }
                }
            }
        } else {
            proof {
                assert forall|f2: int|
                    2 <= f2 < f + 1 && votes@[f2] >= 1 implies #[trigger] entries@.contains(
                    (f2 as usize, votes@[f2]),
                ) by {
                    assert(f2 < f);
                }
            }
        }
        f += 1;
    }
    let ghost entseq = entries@;
    let sorted = sort_factor_entries(entries);
    proof {
        broadcast use vstd::seq_lib::group_to_multiset_ensures;

        let ghost abg = spec_alpha_bytes(text@);
        assert(abg == abs);
        // Sorted output holds the same entries.
        assert forall|k: int|
            0 <= k < sorted@.len() implies 1 < (#[trigger] sorted@[k]).0 <= max_len && sorted@[k].1
                == spec_kasiski_votes(abs, min_len as int, max_len as int, sorted@[k].0 as int)
                && sorted@[k].1 >= 1 by {
            let e = sorted@[k];
            assert(sorted@.contains(e));
            vstd::seq_lib::to_multiset_contains(sorted@, e);
            vstd::seq_lib::to_multiset_contains(entseq, e);
            assert(sorted@.to_multiset().count(e) > 0);
            assert(entseq.to_multiset().count(e) > 0);
            assert(entseq.contains(e));
            let kk = choose|kk: int| 0 <= kk < entseq.len() && entseq[kk] == e;
            assert(2 <= entseq[kk].0 < vb);
        }
        // Distinct factors: the collected entries are strictly
        // ascending, and sorting preserves the multiset.
        assert(entseq.no_duplicates());
        entseq.lemma_multiset_has_no_duplicates();
        sorted@.lemma_multiset_has_no_duplicates_conv();
        assert forall|k1: int, k2: int|
            0 <= k1 < k2 < sorted@.len() implies (#[trigger] sorted@[k1]).0 != (
        #[trigger] sorted@[k2]).0 by {
            if sorted@[k1].0 == sorted@[k2].0 {
                assert(sorted@[k1].1 == sorted@[k2].1);
                assert(sorted@[k1] == sorted@[k2]);
            }
        }
        assert forall|f2: usize|
            1 < f2 <= max_len && spec_kasiski_votes(abs, min_len as int, max_len as int, f2 as int)
                >= 1 implies #[trigger] factor_appears(sorted@, f2 as int) by {
            if f2 < vb {
                assert(votes@[f2 as int] >= 1);
                let e = (f2, votes@[f2 as int]);
                assert(entseq.contains((((f2 as int) as usize), votes@[f2 as int])));
                assert(((f2 as int) as usize) == f2);
                assert(entseq.contains(e));
                vstd::seq_lib::to_multiset_contains(sorted@, e);
                vstd::seq_lib::to_multiset_contains(entseq, e);
                assert(entseq.to_multiset().count(e) > 0);
                assert(sorted@.to_multiset().count(e) > 0);
                assert(sorted@.contains(e));
                let kk = choose|kk: int| 0 <= kk < sorted@.len() && sorted@[kk] == e;
                assert(sorted@[kk].0 == f2);
            } else {
                assert(f2 > n);
                lemma_votes_len_zero(
                    abs,
                    min_len as int,
                    if max_len as int <= n as int / 2 {
                        max_len as int
                    } else {
                        n as int / 2
                    } + 1,
                    f2 as int,
                );
                assert(false);
            }
        }
    }
    sorted
}

/// How many positions of a signal of length `n` fall in the column
/// starting at `start` with stride `klen`.
pub open spec fn col_len(n: int, klen: int, start: int) -> int {
    if start >= n {
        0
    } else {
        (n - start - 1) / klen + 1
    }
}

/// The interleaved column of `ab` holding positions `start`,
/// `start + klen`, `start + 2 klen`, ...
pub open spec fn spec_column(ab: Seq<u8>, klen: int, start: int) -> Seq<u8> {
    Seq::new(col_len(ab.len() as int, klen, start) as nat, |j: int| ab[start + j * klen])
}

/// Extract one interleaved column of `ab`.
pub(crate) fn extract_column(ab: &Vec<u8>, klen: usize, start: usize) -> (r: Vec<u8>)
    requires
        1 <= klen <= ab@.len(),
        start < klen,
        ab@.len() < 0x1_0000_0000,
    ensures
        r@ == spec_column(ab@, klen as int, start as int),
{
    let n = ab.len();
    let mut out: Vec<u8> = Vec::new();
    let mut idx: usize = start;
    let ghost mut j: int = 0;
    while idx < n
        invariant
            n == ab@.len(),
            n < 0x1_0000_0000,
            1 <= klen <= n,
            start < klen,
            out@.len() == j,
            forall|jj: int| 0 <= jj < j ==> #[trigger] out@[jj] == ab@[start + jj * (klen as int)],
            forall|jj: int| 0 <= jj < j ==> start + #[trigger] (jj * (klen as int)) < n,
            idx == start + j * (klen as int) || (idx == n && start + j * (klen as int) >= n),
            idx <= n,
            j >= 0,
        decreases n - idx,
    {
        out.push(ab[idx]);
        proof {
            assert(idx == start + j * (klen as int));
            assert((j + 1) * (klen as int) == j * (klen as int) + klen) by (nonlinear_arith);
        }
        if klen < n - idx {
            idx += klen;
        } else {
            proof {
                assert(start + (j + 1) * (klen as int) >= n);
            }
            idx = n;
        }
        proof {
            j = j + 1;
        }
    }
    proof {
        // j is exactly the column length: division uniqueness.
        if start >= n {
            assert(j == 0) by {
                if j > 0 {
                    assert(out@[0] == ab@[start + 0 * (klen as int)]);
                    assert(start + 0 * (klen as int) >= n);
                }
            }
        } else {
            assert(j >= 1) by {
                if j == 0 {
                    assert(idx == start + 0 * (klen as int));
                }
            }
            assert(start + (j - 1) * (klen as int) < n);
            let q = j - 1;
            let d = klen as int;
            let x = n - start - 1;
            assert(q * d <= x < q * d + d) by (nonlinear_arith)
                requires
                    start + q * d < n,
                    start + (q + 1) * d >= n,
                    x == n - start - 1,
                    d >= 1,
            ;
            vstd::arithmetic::div_mod::lemma_fundamental_div_mod_converse(x, d, q, x - q * d);
            assert(x / d == q);
            assert(col_len(n as int, klen as int, start as int) == j);
        }
        assert(out@ =~= spec_column(ab@, klen as int, start as int));
    }
    out
}

/// Sum of the scaled ICs of the valid columns (those with at least two
/// letters) among the first `ihi` columns of stride `klen`.
pub open spec fn col_ic_sum(ab: Seq<u8>, klen: int, ihi: int) -> int
    decreases ihi,
{
    if ihi <= 0 {
        0
    } else {
        col_ic_sum(ab, klen, ihi - 1) + if col_len(ab.len() as int, klen, ihi - 1) >= 2 {
            spec_ic_scaled(spec_column(ab, klen, ihi - 1))
        } else {
            0
        }
    }
}

/// How many of the first `ihi` columns hold at least two letters.
pub open spec fn valid_cols(ab: Seq<u8>, klen: int, ihi: int) -> int
    decreases ihi,
{
    if ihi <= 0 {
        0
    } else {
        valid_cols(ab, klen, ihi - 1) + if col_len(ab.len() as int, klen, ihi - 1) >= 2 {
            1int
        } else {
            0int
        }
    }
}

/// The average scaled IC over the valid columns of stride `klen`
/// (truncated); meaningful only when some column is valid.
pub open spec fn spec_avg_column_ic(ab: Seq<u8>, klen: int) -> int {
    col_ic_sum(ab, klen, klen) / valid_cols(ab, klen, klen)
}

/// Key length `klen` is tried by the periodicity test: it is positive
/// and no longer than the signal, and some column has two letters.
pub open spec fn period_candidate(ab: Seq<u8>, klen: int) -> bool {
    1 <= klen <= ab.len() && valid_cols(ab, klen, klen) >= 1
}

/// Distance of an average IC from the English reference IC.
pub open spec fn ic_distance(avg: u64) -> int {
    if avg >= ENGLISH_IC_PPM {
        avg - ENGLISH_IC_PPM
    } else {
        ENGLISH_IC_PPM - avg
    }
}

/// `a` ranks strictly before `b` in the periodicity test: its average
/// IC sits closer to English, ties broken by the smaller key length.
pub open spec fn period_entry_before(a: (usize, u64), b: (usize, u64)) -> bool {
    ic_distance(a.1) < ic_distance(b.1) || (ic_distance(a.1) == ic_distance(b.1) && a.0 < b.0)
}

/// Some entry of `r` names key length `klen`.
pub open spec fn period_appears(r: Seq<(usize, u64)>, klen: int) -> bool {
    exists|k: int| 0 <= k < r.len() && (#[trigger] r[k]).0 == klen
}

/// Sort periodicity entries by closeness to the English IC.
fn sort_period_entries(entries: Vec<(usize, u64)>) -> (r: Vec<(usize, u64)>)
    ensures
        r@.to_multiset() == entries@.to_multiset(),
        r@.len() == entries@.len(),
        forall|k1: int, k2: int|
            0 <= k1 < k2 < r@.len() ==> !period_entry_before(#[trigger] r@[k2], #[trigger] r@[k1]),
{
    broadcast use vstd::seq_lib::group_to_multiset_ensures;

    let mut rest = entries;
    let mut out: Vec<(usize, u64)> = Vec::new();
    let ghost all = rest@.to_multiset();
    while rest.len() > 0
        invariant
            out@.to_multiset().add(rest@.to_multiset()) == all,
            forall|k1: int, k2: int|
                0 <= k1 < k2 < out@.len() ==> !period_entry_before(
                    #[trigger] out@[k2],
                    #[trigger] out@[k1],
                ),
            forall|k: int, j: int|
                0 <= k < out@.len() && 0 <= j < rest@.len() ==> !period_entry_before(
                    #[trigger] rest@[j],
                    #[trigger] out@[k],
                ),
        decreases rest@.len(),
    {
        let mut best: usize = 0;
        let mut j: usize = 1;
        while j < rest.len()
            invariant
                rest@.len() > 0,
                best < j <= rest@.len(),
                forall|k: int|
                    0 <= k < j ==> !period_entry_before(#[trigger] rest@[k], rest@[best as int]),
            decreases rest@.len() - j,
        {
            let (bl, ba) = rest[best];
            let (jl, ja) = rest[j];
            let bd = if ba >= ENGLISH_IC_PPM {
                ba - ENGLISH_IC_PPM
            } else {
                ENGLISH_IC_PPM - ba
            };
            let jd = if ja >= ENGLISH_IC_PPM {
                ja - ENGLISH_IC_PPM
            } else {
                ENGLISH_IC_PPM - ja
            };
            if jd < bd || (jd == bd && jl < bl) {
                best = j;
            }
            j += 1;
        }
        let ghost oldrest = rest@;
        let ghost oldout = out@;
        let picked = rest.remove(best);
        out.push(picked);
        proof {
            assert(oldrest[best as int] == picked);
            assert(rest@ == oldrest.remove(best as int));
            assert(out@ == oldout.push(picked));
            vstd::seq_lib::to_multiset_build(oldout, picked);
            assert(out@.to_multiset() =~= oldout.to_multiset().insert(picked));
            vstd::seq_lib::to_multiset_remove(oldrest, best as int);
            assert(rest@.to_multiset() =~= oldrest.to_multiset().remove(picked));
            vstd::seq_lib::to_multiset_contains(oldrest, picked);
            assert(oldrest.to_multiset().count(picked) > 0) by {
                assert(oldrest.contains(picked));
                vstd::seq_lib::to_multiset_contains(oldrest, picked);
            }
            assert(out@.to_multiset().add(rest@.to_multiset()) =~= all);
            assert forall|jj: int|
                0 <= jj < rest@.len() implies !period_entry_before(#[trigger] rest@[jj], picked) by {
                if jj < best as int {
                    assert(rest@[jj] == oldrest[jj]);
                } else {
                    assert(rest@[jj] == oldrest[jj + 1]);
                }
            }
            assert forall|k: int, jj: int|
                0 <= k < out@.len() && 0 <= jj < rest@.len() implies !period_entry_before(
                #[trigger] rest@[jj],
                #[trigger] out@[k],
            ) by {
                if k < oldout.len() {
                    if jj < best as int {
                        assert(rest@[jj] == oldrest[jj]);
                        assert(!period_entry_before(oldrest[jj], oldout[k]));
                    } else {
                        assert(rest@[jj] == oldrest[jj + 1]);
                        assert(!period_entry_before(oldrest[jj + 1], oldout[k]));
                    }
                } else {
                    assert(out@[k] == picked);
                }
            }
            assert forall|k1: int, k2: int|
                0 <= k1 < k2 < out@.len() implies !period_entry_before(
                #[trigger] out@[k2],
                #[trigger] out@[k1],
            ) by {
                if k2 == oldout.len() as int {
                    assert(out@[k1] == oldout[k1]);
                    assert(!period_entry_before(oldrest[best as int], oldout[k1]));
                }
            }
        }
    }
    proof {
        broadcast use vstd::seq_lib::group_to_multiset_ensures;

        assert(rest@.len() == 0);
        assert(rest@.to_multiset().len() == 0);
        assert(out@.to_multiset().add(rest@.to_multiset()) =~= out@.to_multiset());
        assert(out@.to_multiset() =~= all);
        assert(out@.to_multiset().len() == all.len());
        assert(entries@.to_multiset().len() == entries@.len());
    }
    out
}

/// Estimate likely Vigenere key lengths by IC periodicity: for each
/// candidate length the signal is split into that many interleaved
/// columns, the valid columns' scaled ICs are averaged, and candidates
/// are ranked by closeness of that average to the English IC
/// (ascending distance, ties to the shorter length). An alphabetic
/// signal shorter than twice `min_len` yields no estimate.
pub fn estimate_key_length_ic_periodicity(text: &str, min_len: usize, max_len: usize) -> (r: Vec<
    (usize, u64),
>)
    requires
        text@.len() < 0x1_0000_0000,
        max_len < usize::MAX,
    ensures
        ({
            let ab = spec_alpha_bytes(text@);
            &&& (ab.len() < 2 * min_len ==> r@.len() == 0)
            &&& (forall|k: int|
                0 <= k < r@.len() ==> min_len <= (#[trigger] r@[k]).0 <= max_len
                    && period_candidate(ab, r@[k].0 as int) && r@[k].1 == spec_avg_column_ic(
                    ab,
                    r@[k].0 as int,
                ))
            &&& (ab.len() >= 2 * min_len ==> (forall|klen: usize|
                min_len <= klen <= max_len && period_candidate(ab, klen as int)
                    ==> #[trigger] period_appears(r@, klen as int)))
            &&& (forall|k1: int, k2: int|
                0 <= k1 < k2 < r@.len() ==> (#[trigger] r@[k1]).0 != (#[trigger] r@[k2]).0)
            &&& (forall|k1: int, k2: int|
                0 <= k1 < k2 < r@.len() ==> !period_entry_before(
                    #[trigger] r@[k2],
                    #[trigger] r@[k1],
                ))
        }),
{
    let ab = text_alpha_bytes(text);
    let n = ab.len();
    proof {
        assert(spec_alpha(text@).len() <= text@.len()) by {
            broadcast use vstd::seq_lib::group_filter_ensures;

        }
        lemma_alpha_bytes_are_alpha(text@);
        vstd::arithmetic::div_mod::lemma_fundamental_div_mod(n as int, 2);
        lemma_mod_bound(n as int, 2);
    }
    if n / 2 < min_len {
        proof {
            assert(n < 2 * min_len);
        }
        return Vec::new();
    }
    let ghost abs = ab@;
    let mut entries: Vec<(usize, u64)> = Vec::new();
    let mut klen = min_len;
    while klen <= max_len
        invariant
            abs == ab@,
            n == ab@.len(),
            n < 0x1_0000_0000,
            max_len < usize::MAX,
            min_len <= klen,
            klen <= max_len + 1 || klen == min_len,
            forall|i: int| 0 <= i < ab@.len() ==> byte_is_alpha(#[trigger] ab@[i]),
            forall|k: int|
                0 <= k < entries@.len() ==> min_len <= (#[trigger] entries@[k]).0 < klen
                    && entries@[k].0 <= max_len && period_candidate(abs, entries@[k].0 as int)
                    && entries@[k].1 == spec_avg_column_ic(abs, entries@[k].0 as int),
            forall|k1: int, k2: int|
                0 <= k1 < k2 < entries@.len() ==> (#[trigger] entries@[k1]).0 < (
                #[trigger] entries@[k2]).0,
            forall|k2: usize|
                min_len <= k2 < klen && k2 <= max_len && period_candidate(abs, k2 as int)
                    ==> #[trigger] entries@.contains((k2, spec_avg_column_ic(abs, k2 as int) as u64)),
        decreases max_len + 1 - klen,
    {
        if klen >= 1 && klen <= n {
            let mut total: u64 = 0;
            let mut valid: u64 = 0;
            let mut i: usize = 0;
            while i < klen
                invariant
                    abs == ab@,
                    n == ab@.len(),
                    n < 0x1_0000_0000,
                    1 <= klen <= n,
                    i <= klen,
                    forall|ii: int| 0 <= ii < ab@.len() ==> byte_is_alpha(#[trigger] ab@[ii]),
                    total == col_ic_sum(abs, klen as int, i as int),
                    valid == valid_cols(abs, klen as int, i as int),
                    total <= i * (FREQ_SCALE as int),
                    valid <= i,
                decreases klen - i,
            {
                let col = extract_column(&ab, klen, i);
                proof {
                    assert(col@ == spec_column(abs, klen as int, i as int));
                    assert(col@.len() == col_len(n as int, klen as int, i as int));
                    assert(col@.len() <= n) by {
                        if i < n {
                            let x = (n - i - 1) as int;
                            lemma_div_is_ordered_by_denominator(x, 1, klen as int);
                            vstd::arithmetic::div_mod::lemma_div_by_self(1);
                            assert(x / (klen as int) <= x / 1);
                            assert(x / 1 == x) by {
                                vstd::arithmetic::div_mod::lemma_fundamental_div_mod(x, 1);
                            }
                        }
                    }
                    assert forall|jj: int| 0 <= jj < col@.len() implies byte_is_alpha(
                        #[trigger] col@[jj],
                    ) by {
                        let d = klen as int;
                        let x = (n as int) - (i as int) - 1;
                        assert(i < n);
                        let q = x / d;
                        vstd::arithmetic::div_mod::lemma_fundamental_div_mod(x, d);
                        lemma_mod_bound(x, d);
                        assert(jj <= q);
                        assert(jj * d <= q * d) by (nonlinear_arith)
                            requires
                                0 <= jj <= q,
                                d >= 1,
                        ;
                        assert(q * d <= x);
                        assert(0 <= i + jj * d < n);
                        assert(col@[jj] == abs[i + jj * (klen as int)]);
                    }
                }
                let ic_opt = ic_of_alpha_bytes(&col);
                match ic_opt {
                    Option::Some(ic) => {
                        total = total + ic;
                        valid = valid + 1;
                    },
                    Option::None => {},
                }
                i += 1;
            }
            if valid >= 1 {
                let avg = total / valid;
                proof {
                    assert(avg == spec_avg_column_ic(abs, klen as int));
                    assert(period_candidate(abs, klen as int));
                }
                let ghost olde = entries@;
                entries.push((klen, avg));
                proof {
                    assert(entries@ == olde.push((klen, avg)));
                    assert forall|k2: usize|
                        min_len <= k2 < klen + 1 && k2 <= max_len && period_candidate(
                            abs,
                            k2 as int,
                        ) implies #[trigger] entries@.contains(
                        (k2, spec_avg_column_ic(abs, k2 as int) as u64),
                    ) by {
                        if k2 < klen {
                            assert(olde.contains((k2, spec_avg_column_ic(abs, k2 as int) as u64)));
                            let kk = choose|kk: int|
                                0 <= kk < olde.len() && olde[kk] == (
                                k2,
                                spec_avg_column_ic(abs, k2 as int) as u64,
                                );
                            assert(entries@[kk] == (k2, spec_avg_column_ic(abs, k2 as int) as u64));
                        } else {
                            assert(entries@[olde.len() as int] == (klen, avg));
                            assert(spec_avg_column_ic(abs, klen as int) as u64 == avg);
                        }
                    }
                }
            } else {
                proof {
                    assert forall|k2: usize|
                        min_len <= k2 < klen + 1 && k2 <= max_len && period_candidate(
                            abs,
                            k2 as int,
                        ) implies #[trigger] entries@.contains(
                        (k2, spec_avg_column_ic(abs, k2 as int) as u64),
                    ) by {
                        if k2 == klen {
                            assert(valid_cols(abs, klen as int, klen as int) == valid);
                        }
                    }
                }
            }
        } else {
            proof {
                assert forall|k2: usize|
                    min_len <= k2 < klen + 1 && k2 <= max_len && period_candidate(abs, k2 as int)
                        implies #[trigger] entries@.contains(
                    (k2, spec_avg_column_ic(abs, k2 as int) as u64),
                ) by {
                    if k2 == klen {
                        assert(!(1 <= klen as int <= abs.len()));
                    }
                }
            }
        }
        klen += 1;
    }
    let ghost entseq = entries@;
    let sorted = sort_period_entries(entries);
    proof {
        broadcast use vstd::seq_lib::group_to_multiset_ensures;

        assert forall|k: int|
            0 <= k < sorted@.len() implies min_len <= (#[trigger] sorted@[k]).0 <= max_len
                && period_candidate(abs, sorted@[k].0 as int) && sorted@[k].1 == spec_avg_column_ic(
                abs,
                sorted@[k].0 as int,
            ) by {
            let e = sorted@[k];
            assert(sorted@.contains(e));
            vstd::seq_lib::to_multiset_contains(sorted@, e);
            vstd::seq_lib::to_multiset_contains(entseq, e);
            assert(entseq.contains(e));
            let kk = choose|kk: int| 0 <= kk < entseq.len() && entseq[kk] == e;
            assert(min_len <= entseq[kk].0);
        }
        // Distinct lengths: the collected entries are strictly
        // ascending, and sorting preserves the multiset.
        assert(entseq.no_duplicates());
        entseq.lemma_multiset_has_no_duplicates();
        sorted@.lemma_multiset_has_no_duplicates_conv();
        assert forall|k1: int, k2: int|
            0 <= k1 < k2 < sorted@.len() implies (#[trigger] sorted@[k1]).0 != (
        #[trigger] sorted@[k2]).0 by {
            if sorted@[k1].0 == sorted@[k2].0 {
                assert(sorted@[k1].1 == sorted@[k2].1);
                assert(sorted@[k1] == sorted@[k2]);
            }
        }
        assert forall|klen2: usize|
            min_len <= klen2 <= max_len && period_candidate(abs, klen2 as int)
                implies #[trigger] period_appears(sorted@, klen2 as int) by {
            let e = (klen2, spec_avg_column_ic(abs, klen2 as int) as u64);
            assert(entseq.contains(e));
            vstd::seq_lib::to_multiset_contains(sorted@, e);
            vstd::seq_lib::to_multiset_contains(entseq, e);
            assert(sorted@.contains(e));
            let kk = choose|kk: int| 0 <= kk < sorted@.len() && sorted@[kk] == e;
            assert(sorted@[kk].0 == klen2);
        }
    }
    sorted
}

/// Among shifts `lo <= g < hi` each present in `out`, at most
/// `out.len()` distinct shifts can appear.
proof fn lemma_pigeon(out: Seq<(u8, u64)>, step: int, lo: int, hi: int)
    requires
        out.len() == step,
        0 <= lo <= hi <= 26,
        forall|g: int| lo <= g < hi ==> shift_appears(out, g),
    ensures
        hi - lo <= step,
    decreases hi - lo,
{
    if lo < hi {
        let g = hi - 1;
        assert(shift_appears(out, g));
        let j = choose|j: int| 0 <= j < out.len() && (#[trigger] out[j]).0 == g;
        let rest = out.remove(j);
        assert forall|g2: int| lo <= g2 < hi - 1 implies shift_appears(rest, g2) by {
            assert(shift_appears(out, g2));
            let j2 = choose|j2: int| 0 <= j2 < out.len() && (#[trigger] out[j2]).0 == g2;
            assert(j2 != j);
            if j2 < j {
                assert(rest[j2].0 == g2);
            } else {
                assert(rest[j2 - 1].0 == g2);
            }
            assert(shift_appears(rest, g2));
        }
        lemma_pigeon(rest, step - 1, lo, hi - 1);
    }
}

} // verus!
