//! Trigram-likelihood scoring: a dense table of fixed-point log10
//! probabilities for all 17,576 letter trigrams, built from an embedded
//! corpus of `TRIGRAM COUNT` lines, and a scorer that sums the table
//! over every three-letter window of a text.
//!
//! Scores are integers in units of one ten-thousandth of a decimal
//! order of magnitude: a true log10 probability of `-1.5934` appears
//! as `-15934`. Unseen trigrams are floored to the log probability of
//! a count of one hundredth, never to an infinite penalty.

use crate::analysis::{
    lemma_alpha_bytes_are_alpha, spec_alpha, spec_alpha_bytes, text_alpha_bytes,
};
use crate::letter_stats::{byte_is_alpha, byte_letter_index};
use vstd::arithmetic::div_mod::{
    lemma_div_is_ordered, lemma_div_multiples_vanish, lemma_fundamental_div_mod,
    lemma_mod_bound, lemma_multiply_divide_lt,
};
use vstd::arithmetic::power2::{lemma_pow2_pos, lemma_pow2_strictly_increases, lemma2_to64, pow2};
use vstd::prelude::*;
use vstd::string::StringSliceAdditionalSpecFns;

verus! {

/// Floor of the base-2 logarithm of `x`, for `x >= 1`.
pub open spec fn spec_ilog2(x: int) -> int
    decreases x,
{
    if x < 2 {
        0
    } else {
        1 + spec_ilog2(x / 2)
    }
}

proof fn lemma_ilog2_bounds(x: int)
    requires
        x >= 1,
    ensures
        0 <= spec_ilog2(x),
        pow2(spec_ilog2(x) as nat) <= x,
        x < pow2((spec_ilog2(x) + 1) as nat),
    decreases x,
{
    if x < 2 {
        assert(pow2(0) == 1) by {
            lemma2_to64();
        }
        assert(pow2(1) == 2) by {
            lemma2_to64();
        }
    } else {
        lemma_ilog2_bounds(x / 2);
        let k = spec_ilog2(x / 2);
        vstd::arithmetic::power2::lemma_pow2_unfold((k + 1) as nat);
        vstd::arithmetic::power2::lemma_pow2_unfold((k + 2) as nat);
        assert(pow2((k + 1) as nat) == 2 * pow2(k as nat));
        assert(pow2((k + 2) as nat) == 2 * pow2((k + 1) as nat));
        lemma_fundamental_div_mod(x, 2);
        lemma_mod_bound(x, 2);
    }
}

/// Floor of the base-2 logarithm.
fn ilog2_u64(x: u64) -> (r: u64)
    requires
        x >= 1,
    ensures
        r == spec_ilog2(x as int),
        r <= 63,
{
    let mut y = x;
    let mut r: u64 = 0;
    proof {
        lemma_ilog2_bounds(x as int);
        assert(pow2(0) == 1) by {
            lemma2_to64();
        }
    }
    while y >= 2
        invariant
            y >= 1,
            spec_ilog2(x as int) == r + spec_ilog2(y as int),
            (y as int) * pow2(r as nat) <= x as int,
            pow2(r as nat) >= 1,
        decreases y,
    {
        proof {
            lemma_fundamental_div_mod(y as int, 2);
            lemma_mod_bound(y as int, 2);
            vstd::arithmetic::power2::lemma_pow2_unfold((r + 1) as nat);
            assert(pow2((r + 1) as nat) == 2 * pow2(r as nat));
            assert(((y as int) / 2) * (2 * pow2(r as nat)) <= (y as int) * pow2(r as nat))
                by (nonlinear_arith)
                requires
                    y as int >= 2,
                    pow2(r as nat) >= 1,
                    2 * ((y as int) / 2) <= y as int,
            ;
            lemma_pow2_pos((r + 1) as nat);
            lemma2_to64();
            vstd::arithmetic::power2::lemma2_to64_rest();
            if r >= 63 {
                if r > 63 {
                    lemma_pow2_strictly_increases(63, r as nat);
                }
                assert(pow2(r as nat) >= 0x8000_0000_0000_0000);
                assert((y as int) * pow2(r as nat) >= 2 * 0x8000_0000_0000_0000)
                    by (nonlinear_arith)
                    requires
                        y as int >= 2,
                        pow2(r as nat) >= 0x8000_0000_0000_0000,
                ;
                assert(false);
            }
        }
        y = y / 2;
        r = r + 1;
    }
    proof {
        // pow2(r) <= y * pow2(r) <= x < 2^64, so r <= 63.
        assert(pow2(r as nat) <= x as int) by (nonlinear_arith)
            requires
                (y as int) * pow2(r as nat) <= x as int,
                y as int >= 1,
                pow2(r as nat) >= 1,
        ;
        if r > 63 {
            lemma2_to64();
            if r > 64 {
                lemma_pow2_strictly_increases(64, r as nat);
            }
            assert(pow2(r as nat) >= 0x1_0000_0000_0000_0000);
            assert(false);
        }
    }
    r
}

/// `2^k` as a machine integer.
fn pow2_u64(k: u64) -> (r: u64)
    requires
        k <= 63,
    ensures
        r == pow2(k as nat),
        r >= 1,
{
    let mut r: u64 = 1;
    let mut i: u64 = 0;
    proof {
        lemma2_to64();
    }
    while i < k
        invariant
            i <= k <= 63,
            r == pow2(i as nat),
        decreases k - i,
    {
        proof {
            vstd::arithmetic::power2::lemma_pow2_unfold((i + 1) as nat);
            assert(pow2((i + 1) as nat) == 2 * pow2(i as nat));
            lemma2_to64();
            vstd::arithmetic::power2::lemma2_to64_rest();
            if (i as nat) < 63 {
                lemma_pow2_strictly_increases(i as nat, 63);
            }
            assert(r <= 0x4000_0000_0000_0000u64);
        }
        r = r * 2;
        i = i + 1;
    }
    proof {
        lemma_pow2_pos(k as nat);
    }
    r
}

/// One bit of the fractional part: the normalised mantissa squared,
/// renormalised into `[2^32, 2^33)`.
pub open spec fn frac_step_z(z: int) -> int {
    let zz = z * z / 0x1_0000_0000;
    if zz >= 0x2_0000_0000 {
        zz / 2
    } else {
        zz
    }
}

pub open spec fn frac_step_b(z: int) -> int {
    let zz = z * z / 0x1_0000_0000;
    if zz >= 0x2_0000_0000 {
        1
    } else {
        0
    }
}

/// `n` bits of the binary fraction of `log2(z / 2^32)`, most
/// significant first.
pub open spec fn spec_frac(z: int, n: nat) -> int
    decreases n,
{
    if n == 0 {
        0
    } else {
        frac_step_b(z) * pow2((n - 1) as nat) + spec_frac(frac_step_z(z), (n - 1) as nat)
    }
}

/// `log2(x)` in Q16 fixed point (16 fractional bits), for `x >= 1`.
pub open spec fn spec_log2_fix(x: int) -> int {
    let k = spec_ilog2(x);
    k * 65536 + spec_frac(x * 0x1_0000_0000 / (pow2(k as nat) as int), 16)
}

proof fn lemma_frac_bounds(z: int, n: nat)
    ensures
        0 <= spec_frac(z, n) < pow2(n),
    decreases n,
{
    lemma_pow2_pos(n);
    if n == 0 {
        assert(pow2(0) == 1) by {
            lemma2_to64();
        }
    } else {
        lemma_frac_bounds(frac_step_z(z), (n - 1) as nat);
        lemma_pow2_pos((n - 1) as nat);
        vstd::arithmetic::power2::lemma_pow2_unfold(n);
        assert(pow2(n) == 2 * pow2((n - 1) as nat));
    }
}

/// `log2(x)` in Q16 fixed point.
fn log2_fix(x: u64) -> (r: u64)
    requires
        x >= 1,
    ensures
        r == spec_log2_fix(x as int),
        r <= 64 * 65536,
{
    let k = ilog2_u64(x);
    let p = pow2_u64(k);
    proof {
        lemma_ilog2_bounds(x as int);
        assert(p <= x);
        vstd::arithmetic::power2::lemma_pow2_unfold((k + 1) as nat);
        assert((x as int) < 2 * (p as int));
        // The normalised mantissa lies in [2^32, 2^33).
        vstd::arithmetic::mul::lemma_mul_inequality(
            p as int,
            x as int,
            0x1_0000_0000,
        );
        lemma_div_is_ordered(
            (p as int) * 0x1_0000_0000,
            (x as int) * 0x1_0000_0000,
            p as int,
        );
        assert((p as int) * 0x1_0000_0000 == 0x1_0000_0000 * (p as int));
        lemma_div_multiples_vanish(0x1_0000_0000, p as int);
        assert((x as int) * 0x1_0000_0000 < (p as int) * 0x2_0000_0000) by (nonlinear_arith)
            requires
                (x as int) < 2 * (p as int),
                p as int >= 1,
        ;
        lemma_multiply_divide_lt((x as int) * 0x1_0000_0000, p as int, 0x2_0000_0000);
    }
    let z0: u128 = (x as u128) * 0x1_0000_0000 / (p as u128);
    let ghost zint = (x as int) * 0x1_0000_0000 / (p as int);
    proof {
        assert(z0 == zint);
        assert(0x1_0000_0000 <= z0 < 0x2_0000_0000);
    }
    let mut z = z0;
    let mut acc: u64 = 0;
    let mut it: u64 = 0;
    proof {
        lemma_frac_bounds(zint, 16);
        lemma2_to64();
        assert(pow2(16) == 65536);
        assert(pow2(0) == 1);
    }
    while it < 16
        invariant
            it <= 16,
            0x1_0000_0000 <= z < 0x2_0000_0000,
            acc < pow2(it as nat),
            acc * pow2((16 - it) as nat) + spec_frac(z as int, (16 - it) as nat) == spec_frac(
                zint,
                16,
            ),
        decreases 16 - it,
    {
        let ghost oldz = z as int;
        proof {
            let zi = z as int;
            assert(zi * zi < 0x4_0000_0000_0000_0000) by (nonlinear_arith)
                requires
                    0 <= zi < 0x2_0000_0000,
            ;
        }
        let zz: u128 = z * z / 0x1_0000_0000;
        proof {
            let zi = oldz;
            assert(zi * zi >= 0x1_0000_0000 * 0x1_0000_0000) by (nonlinear_arith)
                requires
                    zi >= 0x1_0000_0000,
            ;
            lemma_div_is_ordered(0x1_0000_0000int * 0x1_0000_0000, zi * zi, 0x1_0000_0000);
            lemma_div_multiples_vanish(0x1_0000_0000, 0x1_0000_0000);
            lemma_multiply_divide_lt(zi * zi, 0x1_0000_0000, 0x4_0000_0000);
            assert(0x1_0000_0000 <= (zz as int) < 0x4_0000_0000);
        }
        let b: u64;
        if zz >= 0x2_0000_0000 {
            z = zz / 2;
            b = 1;
        } else {
            z = zz;
            b = 0;
        }
        proof {
            let n = (16 - it) as nat;
            let n1 = (16 - it - 1) as nat;
            assert(zz as int == oldz * oldz / 0x1_0000_0000);
            assert(z as int == frac_step_z(oldz));
            assert(b as int == frac_step_b(oldz));
            assert(spec_frac(oldz, n) == frac_step_b(oldz) * pow2(n1) + spec_frac(
                frac_step_z(oldz),
                n1,
            ));
            vstd::arithmetic::power2::lemma_pow2_unfold(n);
            assert(pow2(n) == 2 * pow2(n1));
            lemma_pow2_pos(n1);
            assert((2 * (acc as int) + (b as int)) * pow2(n1) == (acc as int) * pow2(n) + (
            b as int) * pow2(n1)) by (nonlinear_arith)
                requires
                    pow2(n) == 2 * pow2(n1),
            ;
            lemma2_to64();
            if (it as nat) < 15 {
                lemma_pow2_strictly_increases(it as nat, 15);
            }
            assert(acc < 0x8000);
            vstd::arithmetic::power2::lemma_pow2_unfold((it + 1) as nat);
        }
        acc = acc * 2 + b;
        it = it + 1;
    }
    proof {
        assert(it == 16);
        assert(spec_frac(z as int, (16 - 16) as nat) == 0);
        lemma2_to64();
        assert(pow2((16 - 16) as nat) == 1);
        assert(acc * pow2((16 - it) as nat) + spec_frac(z as int, (16 - it) as nat) == spec_frac(
            zint,
            16,
        ));
        assert(acc * 1 == acc) by (nonlinear_arith);
        assert(acc == spec_frac(zint, 16));
    }
    k * 65536 + acc
}

/// `log10(x)` scaled by 10^4, for `x >= 1`: the Q16 base-2 logarithm
/// converted with `log10(2) ~ 0.30103`.
pub open spec fn spec_log10_e4(x: int) -> int {
    spec_log2_fix(x) * 30103 / 655360
}

/// `log10(x)` scaled by 10^4.
fn log10_e4(x: u64) -> (r: u64)
    requires
        x >= 1,
    ensures
        r == spec_log10_e4(x as int),
        r <= 200_000,
{
    let l2 = log2_fix(x);
    let r = l2 * 30103 / 655360;
    proof {
        vstd::arithmetic::mul::lemma_mul_inequality(l2 as int, 64int * 65536, 30103);
        lemma_div_is_ordered((l2 as int) * 30103, 64int * 65536 * 30103, 655360);
    }
    r
}

/// Space or tab or carriage return: the separators inside a corpus line.
pub open spec fn is_space_byte(b: u8) -> bool {
    b == 32 || b == 9 || b == 13
}

pub open spec fn is_digit_byte(b: u8) -> bool {
    48 <= b && b <= 57
}

/// First position in `[i, hi)` holding a non-separator, or `hi`.
pub open spec fn skip_to(s: Seq<u8>, i: int, hi: int) -> int
    decreases hi - i,
{
    if i >= hi || i < 0 {
        i
    } else if is_space_byte(s[i]) {
        skip_to(s, i + 1, hi)
    } else {
        i
    }
}

/// First position in `[i, hi)` holding a separator, or `hi`.
pub open spec fn token_end_to(s: Seq<u8>, i: int, hi: int) -> int
    decreases hi - i,
{
    if i >= hi || i < 0 {
        i
    } else if is_space_byte(s[i]) {
        i
    } else {
        token_end_to(s, i + 1, hi)
    }
}

/// First newline at or after `pos`, or the end of the text.
pub open spec fn line_end(s: Seq<u8>, pos: int) -> int
    decreases s.len() - pos,
{
    if pos >= s.len() || pos < 0 {
        s.len() as int
    } else if s[pos] == 10 {
        pos
    } else {
        line_end(s, pos + 1)
    }
}

pub open spec fn all_digits(s: Seq<u8>, a: int, b: int) -> bool {
    forall|k: int| a <= k < b ==> is_digit_byte(#[trigger] s[k])
}

/// The decimal value of the digits `s[a..b)`.
pub open spec fn dec_value(s: Seq<u8>, a: int, b: int) -> int
    decreases b - a,
{
    if b <= a {
        0
    } else {
        dec_value(s, a, b - 1) * 10 + (s[b - 1] - 48)
    }
}

pub open spec fn spec_pow10(n: nat) -> int
    decreases n,
{
    if n == 0 {
        1
    } else {
        10 * spec_pow10((n - 1) as nat)
    }
}

proof fn lemma_dec_value_bound(s: Seq<u8>, a: int, b: int)
    requires
        all_digits(s, a, b),
    ensures
        0 <= dec_value(s, a, b),
        b > a ==> dec_value(s, a, b) < spec_pow10((b - a) as nat),
    decreases b - a,
{
    if b > a {
        lemma_dec_value_bound(s, a, b - 1);
        if b - 1 > a {
            assert(dec_value(s, a, b - 1) <= spec_pow10((b - 1 - a) as nat) - 1);
        }
        assert(is_digit_byte(s[b - 1]));
    }
}

/// The dense index of the trigram formed by three letter bytes,
/// case-folded: `0` for `AAA` up to `17575` for `ZZZ`.
pub open spec fn tri_index(a: u8, b: u8, c: u8) -> int {
    byte_letter_index(a) * 676 + byte_letter_index(b) * 26 + byte_letter_index(c)
}

/// What one corpus line contributes: `Some((index, count))` when the
/// line is exactly a three-letter trigram, a separator, and a count of
/// one through twelve digits with a positive value; `None` otherwise.
pub open spec fn spec_line_entry(s: Seq<u8>, lo: int, hi: int) -> Option<(int, int)> {
    let a = skip_to(s, lo, hi);
    let b = token_end_to(s, a, hi);
    let c = skip_to(s, b, hi);
    let d = token_end_to(s, c, hi);
    let e = skip_to(s, d, hi);
    if b - a == 3 && byte_is_alpha(s[a]) && byte_is_alpha(s[a + 1]) && byte_is_alpha(s[a + 2]) && d
        > c && d - c <= 12 && all_digits(s, c, d) && e == hi && dec_value(s, c, d) >= 1 {
        Option::Some((tri_index(s[a], s[a + 1], s[a + 2]), dec_value(s, c, d)))
    } else {
        Option::None
    }
}

pub open spec fn line_contrib(s: Seq<u8>, lo: int, hi: int, idx: int) -> int {
    match spec_line_entry(s, lo, hi) {
        Option::Some(p) => if p.0 == idx {
            p.1
        } else {
            0
        },
        Option::None => 0,
    }
}

pub open spec fn line_total(s: Seq<u8>, lo: int, hi: int) -> int {
    match spec_line_entry(s, lo, hi) {
        Option::Some(p) => p.1,
        Option::None => 0,
    }
}

proof fn lemma_line_end_range(s: Seq<u8>, pos: int)
    requires
        0 <= pos <= s.len(),
    ensures
        pos <= line_end(s, pos) <= s.len(),
    decreases s.len() - pos,
{
    if pos < s.len() && s[pos] != 10 {
        lemma_line_end_range(s, pos + 1);
    }
}

#[via_fn]
proof fn spec_tally_from_dec(s: Seq<u8>, pos: int, idx: int) {
    if 0 <= pos < s.len() {
        lemma_line_end_range(s, pos);
    }
}

#[via_fn]
proof fn spec_total_from_dec(s: Seq<u8>, pos: int) {
    if 0 <= pos < s.len() {
        lemma_line_end_range(s, pos);
    }
}

/// The corpus count of trigram `idx` summed over the lines from
/// position `pos` on.
pub open spec fn spec_tally_from(s: Seq<u8>, pos: int, idx: int) -> int
    decreases s.len() - pos,
    via spec_tally_from_dec
{
    if pos >= s.len() || pos < 0 {
        0
    } else {
        let e = line_end(s, pos);
        line_contrib(s, pos, e, idx) + if e + 1 <= s.len() {
            spec_tally_from(s, e + 1, idx)
        } else {
            0
        }
    }
}

pub open spec fn spec_total_from(s: Seq<u8>, pos: int) -> int
    decreases s.len() - pos,
    via spec_total_from_dec
{
    if pos >= s.len() || pos < 0 {
        0
    } else {
        let e = line_end(s, pos);
        line_total(s, pos, e) + if e + 1 <= s.len() {
            spec_total_from(s, e + 1)
        } else {
            0
        }
    }
}

/// The corpus count of trigram `idx`.
pub open spec fn spec_tally(s: Seq<u8>, idx: int) -> int {
    spec_tally_from(s, 0, idx)
}

/// The total of all corpus counts.
pub open spec fn spec_corpus_total(s: Seq<u8>) -> int {
    spec_total_from(s, 0)
}

proof fn lemma_line_contrib_bound(s: Seq<u8>, lo: int, hi: int, idx: int)
    ensures
        0 <= line_contrib(s, lo, hi, idx) < 1_000_000_000_000,
        0 <= line_total(s, lo, hi) < 1_000_000_000_000,
        line_contrib(s, lo, hi, idx) <= line_total(s, lo, hi),
{
    match spec_line_entry(s, lo, hi) {
        Option::Some(p) => {
            let c = skip_to(s, token_end_to(s, skip_to(s, lo, hi), hi), hi);
            let d = token_end_to(s, c, hi);
            lemma_dec_value_bound(s, c, d);
            lemma_pow10_le_12((d - c) as nat);
        },
        Option::None => {},
    }
}

proof fn lemma_pow10_12()
    ensures
        spec_pow10(12) == 1_000_000_000_000,
{
    assert(spec_pow10(0) == 1);
    assert(spec_pow10(1) == 10);
    assert(spec_pow10(2) == 100);
    assert(spec_pow10(3) == 1000);
    assert(spec_pow10(4) == 10000);
    assert(spec_pow10(5) == 100000);
    assert(spec_pow10(6) == 1000000);
    assert(spec_pow10(7) == 10000000);
    assert(spec_pow10(8) == 100000000);
    assert(spec_pow10(9) == 1000000000);
    assert(spec_pow10(10) == 10000000000);
    assert(spec_pow10(11) == 100000000000);
    assert(spec_pow10(12) == 1000000000000);
}

proof fn lemma_pow10_le_12(n: nat)
    requires
        n <= 12,
    ensures
        spec_pow10(n) <= 1_000_000_000_000,
{
    lemma_pow10_mono(n, 12);
    lemma_pow10_12();
}

proof fn lemma_pow10_pos(n: nat)
    ensures
        spec_pow10(n) >= 1,
    decreases n,
{
    if n > 0 {
        lemma_pow10_pos((n - 1) as nat);
    }
}

proof fn lemma_pow10_mono(n: nat, m: nat)
    requires
        n <= m,
    ensures
        spec_pow10(n) <= spec_pow10(m),
    decreases m,
{
    if n < m {
        lemma_pow10_mono(n, (m - 1) as nat);
        lemma_pow10_pos((m - 1) as nat);
    }
}

proof fn lemma_tally_bounds(s: Seq<u8>, pos: int, idx: int)
    ensures
        0 <= spec_tally_from(s, pos, idx) <= spec_total_from(s, pos),
        spec_total_from(s, pos) <= (s.len() - pos + 1) * 1_000_000_000_000 || pos > s.len()
            || pos < 0,
    decreases s.len() - pos,
{
    if 0 <= pos < s.len() {
        let e = line_end(s, pos);
        lemma_line_end_range(s, pos);
        lemma_line_contrib_bound(s, pos, e, idx);
        if e + 1 <= s.len() {
            lemma_tally_bounds(s, e + 1, idx);
            assert((s.len() - (e + 1) + 1) * 1_000_000_000_000 + 1_000_000_000_000 <= (s.len()
                - pos + 1) * 1_000_000_000_000) by (nonlinear_arith)
                requires
                    pos <= e,
            ;
        }
    } else if pos == s.len() {
    }
}

/// Position of the end of the current line (the next newline, or the
/// end of the text).
fn scan_line_end(s: &[u8], pos: usize) -> (e: usize)
    requires
        pos <= s@.len(),
    ensures
        e == line_end(s@, pos as int),
        pos <= e <= s@.len(),
{
    let n = s.len();
    let mut le = pos;
    while le < n && s[le] != 10
        invariant
            pos <= le <= n,
            n == s@.len(),
            line_end(s@, pos as int) == line_end(s@, le as int),
        decreases n - le,
    {
        le += 1;
    }
    le
}

/// First non-separator position in `[i, hi)`, or `hi`.
fn scan_skip_spaces(s: &[u8], i: usize, hi: usize) -> (r: usize)
    requires
        i <= hi <= s@.len(),
    ensures
        r == skip_to(s@, i as int, hi as int),
        i <= r <= hi,
{
    let mut k = i;
    while k < hi && (s[k] == 32 || s[k] == 9 || s[k] == 13)
        invariant
            i <= k <= hi,
            hi <= s@.len(),
            skip_to(s@, i as int, hi as int) == skip_to(s@, k as int, hi as int),
        decreases hi - k,
    {
        k += 1;
    }
    k
}

/// First separator position in `[i, hi)`, or `hi`.
fn scan_token_end(s: &[u8], i: usize, hi: usize) -> (r: usize)
    requires
        i <= hi <= s@.len(),
    ensures
        r == token_end_to(s@, i as int, hi as int),
        i <= r <= hi,
{
    let mut k = i;
    while k < hi && !(s[k] == 32 || s[k] == 9 || s[k] == 13)
        invariant
            i <= k <= hi,
            hi <= s@.len(),
            token_end_to(s@, i as int, hi as int) == token_end_to(s@, k as int, hi as int),
        decreases hi - k,
    {
        k += 1;
    }
    k
}

/// The embedded English trigram corpus: whitespace-separated
/// `TRIGRAM COUNT` lines derived from a reference passage of ordinary
/// English prose.
pub const ENGLISH_TRIGRAM_COUNTS: &'static str = "THE 163\nAND 61\nING 45\nTHA 42\nTER 40\nETT 38\nSTH 35\nTTE 35\nHAT 34\nLET 32\n\
EST 29\nTTH 28\nENT 26\nERS 26\nETH 25\nNTH 24\nUNT 24\nDTH 23\nOUN 23\nREA 23\nVER 23\n\
COU 22\nDIN 22\nEVE 22\nHER 21\nHES 21\nIDE 21\nITH 21\nARE 20\nOFT 20\nECO 19\nESA 19\n\
NDT 19\nNGT 19\nONE 19\nORT 19\nWIT 19\nALL 18\nERE 18\nERY 18\nESS 18\nFTH 18\nINT 18\n\
LES 18\nNCE 18\nRTH 18\nAGE 17\nEAC 17\nELE 17\nGTH 17\nORD 17\nACH 16\nPEA 16\nEAD 15\n\
ENG 15\nERT 15\nHAN 15\nHEC 15\nHEN 15\nRAN 15\nSAN 15\nWOR 15\nATE 14\nEAR 14\nEOF 14\n\
ERA 14\nEXT 14\nHEL 14\nSHO 14\nSLI 14\nEAN 13\nEME 13\nHEM 13\nLID 13\nNDE 13\nNTS 13\n\
SHA 13\nDER 12\nEAT 12\nESE 12\nFOR 12\nKEY 12\nLEA 12\nOTH 12\nRST 12\nSET 12\nTAN 12\n\
AIN 11\nATI 11\nEIS 11\nILE 11\nINA 11\nIST 11\nITS 11\nLAN 11\nNES 11\nNGE 11\nRIT 11\n\
SSA 11\nTEX 11\nVES 11\nANG 10\nBLE 10\nENC 10\nESL 10\nEWH 10\nHEA 10\nHET 10\nHIS 10\n\
IKE 10\nLIK 10\nNGL 10\nNOT 10\nONG 10\nORE 10\nPRO 10\nREP 10\nSAG 10\nSIN 10\nSTA 10\n\
STT 10\nSUR 10\nTHO 10\nTIN 10\nTIS 10\nTRE 10\nAME 9\nEAS 9\nHEW 9\nHOR 9\nHTH 9\n\
ISE 9\nISH 9\nLIS 9\nMES 9\nNDI 9\nNTO 9\nOLE 9\nPIL 9\nRES 9\nTHI 9\nTLE 9\nWHO 9\n\
ADI 8\nAKE 8\nATS 8\nDEN 8\nEEP 8\nFAL 8\nGLI 8\nHAR 8\nHOW 8\nITI 8\nLON 8\nMEA 8\n\
NGU 8\nREE 8\nRET 8\nSTO 8\nSWI 8\nTED 8\nTOF 8\nABL 7\nANY 7\nASU 7\nATT 7\nBET 7\n\
CES 7\nCOM 7\nDIS 7\nEAK 7\nEAL 7\nEDS 7\nEEN 7\nEKE 7\nEPE 7\nETE 7\nEWI 7\nHAB 7\n\
HEE 7\nHEF 7\nIMP 7\nKEE 7\nLEN 7\nMPL 7\nNAR 7\nNDW 7\nNGS 7\nNTI 7\nPLA 7\nPLE 7\n\
RDI 7\nREM 7\nSAM 7\nSEL 7\nSIM 7\nSOF 7\nSPR 7\nTAL 7\nYAN 7\nYON 7\nYOU 7\nABI 6\n\
ANA 6\nANT 6\nARY 6\nBIT 6\nCAN 6\nCAR 6\nDEA 6\nECA 6\nECR 6\nEEL 6\nEMA 6\nERI 6\n\
ESC 6\nETW 6\nFTE 6\nGIN 6\nGUA 6\nHID 6\nHOL 6\nHOU 6\nHRE 6\nICE 6\nILL 6\nINS 6\n\
ION 6\nKEL 6\nMAK 6\nMEN 6\nMOR 6\nNAN 6\nNYO 6\nOUT 6\nOVE 6\nPAR 6\nPAT 6\nRDS 6\n\
RIN 6\nRTO 6\nSEA 6\nSEN 6\nSPE 6\nTEN 6\nTHR 6\nTHT 6\nTIE 6\nTOO 6\nTOT 6\nTSE 6\n\
TST 6\nTWE 6\nUAG 6\nUND 6\nURE 6\nWHE 6\nWHI 6\nWIL 6\nACE 5\nACT 5\nAGA 5\nALO 5\n\
ALS 5\nAMI 5\nAPP 5\nARI 5\nARS 5\nART 5\nATA 5\nATM 5\nBER 5\nCHI 5\nCHP 5\nDAT 5\n\
DES 5\nEDB 5\nEHA 5\nELI 5\nELY 5\nEPA 5\nEPI 5\nEQU 5\nETA 5\nEYO 5\nFIN 5\nGAI 5\n\
GUI 5\nHEH 5\nHEK 5\nHON 5\nIES 5\nINE 5\nIRS 5\nISA 5\nISG 5\nISS 5\nLEC 5\nLLS 5\n\
LLY 5\nLTH 5\nLYA 5\nMET 5\nMON 5\nNDA 5\nNDO 5\nNGI 5\nNIN 5\nNLY 5\nOFA 5\nONL 5\n\
OSE 5\nOTA 5\nPPE 5\nPRI 5\nPTH 5\nREF 5\nREI 5\nROF 5\nSAS 5\nSBE 5\nSCO 5\nSEC 5\n\
SER 5\nSGU 5\nSMA 5\nSON 5\nSTR 5\nTES 5\nTIC 5\nTIO 5\nTON 5\nTRA 5\nTTL 5\nUES 5\n\
UIS 5\nUSE 5\nYTH 5\nAGR 4\nANC 4\nARA 4\nASI 4\nAST 4\nATC 4\nATH 4\nATR 4\nAVE 4\n\
AYS 4\nBES 4\nCEI 4\nCET 4\nCHA 4\nCLE 4\nCON 4\nCRE 4\nDBY 4\nDSH 4\nEEV 4\nEFA 4\n\
EFI 4\nELS 4\nEMI 4\nEMS 4\nENW 4\nEPT 4\nERO 4\nESI 4\nESP 4\nESU 4\nETR 4\nEXP 4\n\
FAM 4\nFIR 4\nFLA 4\nFUL 4\nGEO 4\nGER 4\nGES 4\nGRE 4\nGRO 4\nHCA 4\nHED 4\nHIN 4\n\
HIT 4\nHOD 4\nIAL 4\nIAR 4\nIEN 4\nIFT 4\nILI 4\nISO 4\nISP 4\nISW 4\nITO 4\nIVE 4\n\
IVI 4\nLEM 4\nLIA 4\nLIN 4\nLLE 4\nLLI 4\nLLO 4\nLOF 4\nLOO 4\nMAL 4\nMBE 4\nMIL 4\n\
MMO 4\nMOS 4\nNON 4\nNTR 4\nNTT 4\nNUM 4\nNWO 4\nOFC 4\nOFL 4\nOIN 4\nOMM 4\nONA 4\n\
ONC 4\nOOK 4\nORA 4\nOST 4\nOWN 4\nOWS 4\nQUI 4\nRAG 4\nREC 4\nREO 4\nREV 4\nRIA 4\n\
ROB 4\nRPR 4\nRYE 4\nRYL 4\nRYO 4\nSCL 4\nSDI 4\nSED 4\nSID 4\nSIT 4\nSOR 4\nSSI 4\n\
SSP 4\nSSU 4\nSUP 4\nSWE 4\nSWH 4\nSWO 4\nTAB 4\nTCH 4\nTMA 4\nTOR 4\nTRI 4\nTRU 4\n\
TSH 4\nTTO 4\nUCH 4\nWAT 4\nWEE 4\nWER 4\nWHA 4\nWIN 4\nWRI 4\nXTT 4\nYST 4\nAFT 3\n\
AMO 3\nANO 3\nAPE 3\nARR 3\nATO 3\nAUS 3\nBAB 3\nBEC 3\nBLY 3\nBRE 3\nBYA 3\nCAU 3\n\
CEA 3\nCEW 3\nCHE 3\nCHL 3\nCHO 3\nCHT 3\nCRA 3\nCTE 3\nCTI 3\nDDE 3\nDID 3\nDIV 3\n\
DOF 3\nDSO 3\nDWA 3\nDWH 3\nDWI 3\nEBE 3\nECH 3\nECT 3\nEDI 3\nEEA 3\nEEX 3\nEFE 3\n\
EFU 3\nEGR 3\nEIT 3\nELF 3\nELV 3\nEMB 3\nENA 3\nENO 3\nENU 3\nERC 3\nERF 3\nERN 3\n\
ERP 3\nERV 3\nESH 3\nESO 3\nETS 3\nEWO 3\nEYI 3\nEYS 3\nFAI 3\nFER 3\nGAP 3\nGEA 3\n\
GEI 3\nGET 3\nGHT 3\nGKE 3\nGRA 3\nGUE 3\nHAP 3\nHAS 3\nHEG 3\nHEO 3\nHEP 3\nHEQ 3\n\
HIC 3\nHLE 3\nHOF 3\nHPI 3\nHWH 3\nIBL 3\nICH 3\nIDA 3\nIDD 3\nINC 3\nIND 3\nINH 3\n\
INI 3\nINO 3\nISD 3\nITA 3\nITT 3\nKES 3\nKIN 3\nKLI 3\nKNO 3\nLAC 3\nLEW 3\nLIT 3\n\
LLT 3\nLVE 3\nLYM 3\nLYS 3\nLYT 3\nMAN 3\nMIS 3\nMPA 3\nMSE 3\nNAM 3\nNAT 3\nNDC 3\n\
NDM 3\nNDS 3\nNEA 3\nNEO 3\nNGA 3\nNGK 3\nNGO 3\nNMO 3\nNOW 3\nNSI 3\nNST 3\nNTA 3\n\
NTY 3\nOAD 3\nOBA 3\nOFE 3\nOFS 3\nOKL 3\nOMP 3\nONI 3\nOOL 3\nORK 3\nOSS 3\nOUP 3\n\
OWI 3\nPEC 3\nPIN 3\nPLY 3\nPOR 3\nPRA 3\nPRE 3\nPSO 3\nPUZ 3\nRAC 3\nRAF 3\nRAP 3\n\
RDT 3\nRKS 3\nROA 3\nROS 3\nROW 3\nRSA 3\nRSE 3\nRSH 3\nRSI 3\nRSO 3\nRSS 3\nRTA 3\n\
RTE 3\nRVE 3\nRVI 3\nRYP 3\nRYR 3\nSAR 3\nSAT 3\nSCR 3\nSEE 3\nSHI 3\nSHW 3\nSIB 3\n\
SLE 3\nSLO 3\nSNO 3\nSOT 3\nSOV 3\nSPI 3\nSRE 3\nSSE 3\nSSO 3\nSTI 3\nSTL 3\nSTP 3\n\
STU 3\nSUC 3\nTAG 3\nTBE 3\nTDE 3\nTHL 3\nTHP 3\nTKE 3\nTOA 3\nTRY 3\nTSB 3\nTSI 3\n\
TSS 3\nTSU 3\nTUR 3\nTWO 3\nUAL 3\nULA 3\nUMB 3\nURN 3\nURV 3\nUZZ 3\nVEN 3\nVIS 3\n\
VIV 3\nWAY 3\nWEL 3\nWHY 3\nYIS 3\nYLE 3\nYLI 3\nYOT 3\nYRE 3\nYWH 3\nZLE 3\nZZL 3\n\
ABO 2\nADD 2\nADE 2\nADW 2\nAFI 2\nAIL 2\nAIR 2\nALM 2\nALT 2\nALW 2\nANK 2\nANS 2\n\
AOR 2\nAPH 2\nAPI 2\nAPS 2\nARK 2\nARN 2\nASA 2\nASH 2\nASW 2\nASY 2\nATB 2\nATD 2\n\
ATF 2\nATK 2\nAWI 2\nBEG 2\nBUT 2\nBYS 2\nCEB 2\nCED 2\nCEE 2\nCEO 2\nCER 2\nCHC 2\n\
CID 2\nCIP 2\nCLO 2\nCOI 2\nCRO 2\nCRY 2\nDAN 2\nDAW 2\nDBE 2\nDEC 2\nDEF 2\nDEI 2\n\
DEV 2\nDEW 2\nDFA 2\nDGA 2\nDGE 2\nDLE 2\nDMA 2\nDME 2\nDOE 2\nDSB 2\nDST 2\nDSW 2\n\
DUC 2\nDWE 2\nEAG 2\nEAM 2\nEAP 2\nEAV 2\nEBY 2\nECE 2\nEDA 2\nEDG 2\nEDO 2\nEDW 2\n\
EED 2\nEGA 2\nEGI 2\nEGU 2\nEHI 2\nEHO 2\nEIN 2\nEIR 2\nELA 2\nELL 2\nENE 2\nENM 2\n\
ENR 2\nEON 2\nEOP 2\nEPR 2\nERH 2\nERM 2\nERW 2\nESK 2\nESM 2\nESW 2\nEUN 2\nEWA 2\n\
EYA 2\nEYL 2\nFCO 2\nFEA 2\nFEV 2\nFFS 2\nFIF 2\nFLE 2\nFSE 2\nGAT 2\nGBE 2\nGEE 2\n\
GEN 2\nGLE 2\nGOF 2\nGSI 2\nGUL 2\nGWI 2\nHEI 2\nHEY 2\nHIL 2\nHLO 2\nHNO 2\nHPR 2\n\
HTA 2\nHUN 2\nIDI 2\nIDS 2\nIET 2\nIFO 2\nIGH 2\nINW 2\nIPH 2\nIRE 2\nISC 2\nISI 2\n\
ISK 2\nISN 2\nITE 2\nITR 2\nJUD 2\nKER 2\nKET 2\nKSA 2\nLAI 2\nLAR 2\nLED 2\nLEI 2\n\
LEO 2\nLLU 2\nLMO 2\nLOS 2\nLOW 2\nLSA 2\nLSE 2\nLSH 2\nLSM 2\nLST 2\nLYN 2\nLYW 2\n\
MAI 2\nMAR 2\nMAT 2\nMEM 2\nMEP 2\nMER 2\nMIN 2\nMOM 2\nNAL 2\nNAS 2\nNCI 2\nNDR 2\n\
NEE 2\nNEL 2\nNEN 2\nNEV 2\nNEW 2\nNFI 2\nNGB 2\nNGR 2\nNGW 2\nNHA 2\nNIS 2\nNKS 2\n\
NOU 2\nNPL 2\nNRE 2\nNSW 2\nNTE 2\nNTF 2\nNTL 2\nNWA 2\nNWI 2\nOAN 2\nOCO 2\nODU 2\n\
OES 2\nOFF 2\nOFO 2\nOFP 2\nOLD 2\nOME 2\nOND 2\nONF 2\nONS 2\nONT 2\nOOD 2\nOPE 2\n\
ORO 2\nORS 2\nOTD 2\nOTE 2\nOUG 2\nOUL 2\nOUW 2\nOWE 2\nOWL 2\nPEN 2\nPEO 2\nPER 2\n\
PHE 2\nPOS 2\nPPO 2\nPTT 2\nQUE 2\nRAO 2\nRAR 2\nRAS 2\nRAT 2\nRAY 2\nRCO 2\nRED 2\n\
REG 2\nREN 2\nREQ 2\nRFO 2\nRIE 2\nRIS 2\nRKE 2\nRNS 2\nROD 2\nROM 2\nRON 2\nROU 2\n\
RRI 2\nRSP 2\nRSR 2\nRSW 2\nRTR 2\nRTS 2\nRTW 2\nRUN 2\nRUS 2\nRYA 2\nRYS 2\nRYT 2\n\
SDO 2\nSEM 2\nSEW 2\nSFA 2\nSFI 2\nSHT 2\nSIX 2\nSKE 2\nSKI 2\nSME 2\nSMO 2\nSPA 2\n\
SSH 2\nSST 2\nSSW 2\nSUA 2\nSUS 2\nTAP 2\nTAT 2\nTDI 2\nTEA 2\nTEV 2\nTFA 2\nTFO 2\n\
THC 2\nTHN 2\nTHS 2\nTIT 2\nTLY 2\nTME 2\nTNO 2\nTOC 2\nTOH 2\nTOI 2\nTOL 2\nTPR 2\n\
TRO 2\nTSC 2\nTSD 2\nTSO 2\nTSW 2\nTUD 2\nTWH 2\nTWI 2\nTYO 2\nTYS 2\nUCE 2\nUDE 2\n\
UDG 2\nUGH 2\nUIE 2\nUIR 2\nULD 2\nULL 2\nUPP 2\nUST 2\nUSU 2\nUTR 2\nUTT 2\nVEA 2\n\
WEA 2\nWEN 2\nWNT 2\nWRO 2\nXPE 2\nXPL 2\nXTI 2\nXTR 2\nYEA 2\nYEN 2\nYMA 2\nYNO 2\n\
YOF 2\nYPT 2\nYSE 2\nYSF 2\nYSH 2\nYSI 2\nYSL 2\nABE 1\nABR 1\nACA 1\nACC 1\nACI 1\n\
ACO 1\nADA 1\nADM 1\nADO 1\nADS 1\nADT 1\nAFA 1\nAGI 1\nAGM 1\nAGO 1\nAGU 1\nAHI 1\n\
AHU 1\nAID 1\nAKC 1\nAKD 1\nAKF 1\nAKI 1\nAKS 1\nAKW 1\nALC 1\nALE 1\nALI 1\nALP 1\n\
ALR 1\nALV 1\nALY 1\nAMU 1\nANB 1\nANE 1\nANI 1\nANL 1\nANM 1\nANN 1\nANU 1\nANW 1\n\
AOI 1\nAPA 1\nAPB 1\nAPL 1\nARB 1\nARD 1\nARL 1\nARM 1\nARP 1\nASL 1\nASM 1\nASS 1\n\
ATL 1\nATW 1\nATY 1\nAUN 1\nAVO 1\nAWE 1\nAWR 1\nAYA 1\nAYC 1\nAYE 1\nAYM 1\nAYO 1\n\
BEF 1\nBEI 1\nBEY 1\nBLO 1\nBOT 1\nBOU 1\nBOV 1\nBRA 1\nBSE 1\nBUI 1\nBYL 1\nBYT 1\n\
CAL 1\nCAP 1\nCCE 1\nCCO 1\nCEC 1\nCEF 1\nCEH 1\nCEM 1\nCEX 1\nCHF 1\nCHG 1\nCHM 1\n\
CHN 1\nCHS 1\nCKA 1\nCKO 1\nCRI 1\nCSP 1\nCTA 1\nCTO 1\nCTU 1\nCUL 1\nDAG 1\nDAS 1\n\
DAY 1\nDBR 1\nDBU 1\nDCA 1\nDCH 1\nDCR 1\nDDI 1\nDDS 1\nDDU 1\nDEB 1\nDEE 1\nDEM 1\n\
DEP 1\nDET 1\nDEU 1\nDEX 1\nDFR 1\nDGL 1\nDIC 1\nDIE 1\nDIF 1\nDIL 1\nDJU 1\nDKE 1\n\
DNO 1\nDNU 1\nDOA 1\nDOM 1\nDON 1\nDOO 1\nDOR 1\nDOU 1\nDOV 1\nDOW 1\nDPL 1\nDPR 1\n\
DPU 1\nDRE 1\nDRO 1\nDRT 1\nDSA 1\nDSC 1\nDSE 1\nDSF 1\nDSI 1\nDSL 1\nDSU 1\nDSV 1\n\
DTO 1\nDTR 1\nDUP 1\nDYO 1\nEAF 1\nEAW 1\nEBL 1\nEBR 1\nEBU 1\nECI 1\nECK 1\nECL 1\n\
EDE 1\nEDF 1\nEDL 1\nEDN 1\nEDP 1\nEDR 1\nEDT 1\nEEB 1\nEEC 1\nEEM 1\nEEO 1\nEET 1\n\
EEY 1\nEFF 1\nEFO 1\nEFR 1\nEHU 1\nEIM 1\nEIV 1\nEJU 1\nELO 1\nEMO 1\nEMY 1\nEND 1\n\
ENF 1\nENP 1\nENS 1\nENY 1\nEOB 1\nEOL 1\nEOR 1\nEPO 1\nEPS 1\nEPU 1\nERK 1\nERQ 1\n\
ERU 1\nESD 1\nESF 1\nESN 1\nESQ 1\nETF 1\nETI 1\nETO 1\nEUS 1\nEWE 1\nEWR 1\nEXA 1\n\
EYE 1\nEYH 1\nEYT 1\nEYW 1\nFAC 1\nFAG 1\nFAP 1\nFAR 1\nFCA 1\nFCR 1\nFDI 1\nFEE 1\n\
FEW 1\nFFE 1\nFFO 1\nFHA 1\nFHI 1\nFID 1\nFIX 1\nFLO 1\nFME 1\nFOL 1\nFON 1\nFPA 1\n\
FPL 1\nFRA 1\nFRE 1\nFRO 1\nFSH 1\nFSI 1\nFSM 1\nFSO 1\nFTI 1\nFTO 1\nFTT 1\nFUN 1\n\
FWO 1\nGAH 1\nGAN 1\nGAS 1\nGEB 1\nGEF 1\nGEL 1\nGEU 1\nGEW 1\nGEY 1\nGFE 1\nGHI 1\n\
GHO 1\nGIF 1\nGIO 1\nGLA 1\nGME 1\nGNE 1\nGON 1\nGOO 1\nGPA 1\nGSD 1\nGSH 1\nGSO 1\n\
GSP 1\nGSW 1\nGTE 1\nGTO 1\nGUP 1\nHAI 1\nHAM 1\nHAV 1\nHAW 1\nHBY 1\nHEB 1\nHEJ 1\n\
HEV 1\nHFL 1\nHGU 1\nHIF 1\nHKE 1\nHLI 1\nHME 1\nHMO 1\nHNI 1\nHOC 1\nHOI 1\nHOO 1\n\
HOS 1\nHPA 1\nHPL 1\nHPU 1\nHSH 1\nHSI 1\nHST 1\nHTE 1\nHTL 1\nHTR 1\nHUR 1\nHUT 1\n\
HVE 1\nHWR 1\nHYE 1\nHYP 1\nHYT 1\nIBE 1\nICA 1\nICS 1\nICT 1\nIDO 1\nIEC 1\nIED 1\n\
IFF 1\nIHO 1\nILH 1\nILS 1\nILT 1\nILU 1\nIMA 1\nINF 1\nINP 1\nIPL 1\nIPS 1\nIQU 1\n\
IRD 1\nIRI 1\nIRM 1\nIRO 1\nISR 1\nISV 1\nITY 1\nIXE 1\nIXL 1\nIXP 1\nKAB 1\nKCL 1\n\
KDI 1\nKEA 1\nKED 1\nKEH 1\nKEI 1\nKEN 1\nKEV 1\nKFL 1\nKFO 1\nKIP 1\nKOF 1\nKSI 1\n\
KSL 1\nKST 1\nKSW 1\nKTU 1\nKWI 1\nLAT 1\nLCH 1\nLDB 1\nLDE 1\nLDF 1\nLDY 1\nLEB 1\n\
LEE 1\nLEG 1\nLEP 1\nLEV 1\nLFA 1\nLFH 1\nLFS 1\nLHO 1\nLIE 1\nLIH 1\nLLL 1\nLLM 1\n\
LLW 1\nLME 1\nLOC 1\nLOP 1\nLOR 1\nLPH 1\nLPR 1\nLRE 1\nLSG 1\nLSL 1\nLSO 1\nLSS 1\n\
LSU 1\nLSW 1\nLTI 1\nLTO 1\nLTT 1\nLUN 1\nLUS 1\nLUT 1\nLVI 1\nLWA 1\nLWH 1\nLWI 1\n\
LWR 1\nLYC 1\nLYD 1\nLYE 1\nLYG 1\nLYK 1\nLYP 1\nLYR 1\nMAC 1\nMAG 1\nMAY 1\nMBL 1\n\
MBR 1\nMEC 1\nMEH 1\nMEK 1\nMFO 1\nMIF 1\nMLE 1\nMOV 1\nMSP 1\nMSR 1\nMTO 1\nMUC 1\n\
MUL 1\nMUT 1\nMYS 1\nNAB 1\nNAP 1\nNBE 1\nNCO 1\nNCR 1\nNDB 1\nNDD 1\nNDK 1\nNDL 1\n\
NDP 1\nNED 1\nNEP 1\nNET 1\nNEX 1\nNFA 1\nNFO 1\nNFU 1\nNGF 1\nNGH 1\nNGN 1\nNGP 1\n\
NHE 1\nNHO 1\nNIF 1\nNIQ 1\nNIT 1\nNKN 1\nNLO 1\nNMA 1\nNME 1\nNNO 1\nNOE 1\nNOF 1\n\
NOI 1\nNOL 1\nNOR 1\nNPI 1\nNSC 1\nNSE 1\nNSH 1\nNSL 1\nNSO 1\nNTB 1\nNTD 1\nNTK 1\n\
NTU 1\nNTW 1\nNUI 1\nNUS 1\nNYP 1\nNYS 1\nOAH 1\nOAL 1\nOAS 1\nOBL 1\nOBS 1\nOCA 1\n\
OCE 1\nOCK 1\nODF 1\nODG 1\nODJ 1\nODN 1\nODS 1\nODT 1\nOEX 1\nOFD 1\nOFH 1\nOFI 1\n\
OFM 1\nOFR 1\nOFU 1\nOFW 1\nOHA 1\nOHI 1\nOIC 1\nOID 1\nOIS 1\nOIT 1\nOKF 1\nOLL 1\n\
OLO 1\nOLS 1\nOLT 1\nOMI 1\nOML 1\nOMT 1\nONH 1\nONK 1\nONP 1\nONW 1\nOOF 1\nOON 1\n\
OOR 1\nOOS 1\nOPL 1\nORF 1\nORI 1\nORM 1\nORY 1\nOSH 1\nOTC 1\nOTI 1\nOTV 1\nOUB 1\n\
OUC 1\nOUD 1\nOUK 1\nOUR 1\nOUS 1\nOWA 1\nOWO 1\nOWT 1\nOWW 1\nOYE 1\nPAC 1\nPAG 1\n\
PAI 1\nPAS 1\nPBE 1\nPEE 1\nPES 1\nPHA 1\nPHB 1\nPHO 1\nPHU 1\nPIE 1\nPIR 1\nPIS 1\n\
PIT 1\nPOF 1\nPSS 1\nPST 1\nQAL 1\nQUA 1\nRAI 1\nRAL 1\nRAV 1\nRBE 1\nRCA 1\nRDB 1\n\
RDE 1\nRDP 1\nREB 1\nREL 1\nRFA 1\nRFI 1\nRHI 1\nRHO 1\nRIB 1\nRIC 1\nRIG 1\nRIV 1\n\
RKT 1\nRLY 1\nRMA 1\nRME 1\nRMO 1\nRMS 1\nRMU 1\nRNA 1\nRND 1\nRNE 1\nRNF 1\nRNI 1\n\
RNM 1\nROC 1\nROT 1\nROY 1\nRPE 1\nRQA 1\nRRA 1\nRRY 1\nRSC 1\nRSM 1\nRSN 1\nRTB 1\n\
RTI 1\nRTL 1\nRTM 1\nRUE 1\nRUT 1\nRWE 1\nRWH 1\nRYD 1\nRYF 1\nRYG 1\nRYH 1\nRYI 1\n\
RYK 1\nRYW 1\nSAB 1\nSAF 1\nSAL 1\nSAP 1\nSAY 1\nSCA 1\nSDE 1\nSEH 1\nSEK 1\nSEV 1\n\
SFO 1\nSGR 1\nSHU 1\nSIG 1\nSIS 1\nSKN 1\nSNU 1\nSOA 1\nSOL 1\nSOU 1\nSQU 1\nSRA 1\n\
SSL 1\nSSM 1\nSTD 1\nSTE 1\nSTN 1\nSTS 1\nSTW 1\nSUM 1\nSUN 1\nSVE 1\nSVO 1\nSWR 1\n\
SYO 1\nSYT 1\nTAC 1\nTAI 1\nTAK 1\nTAO 1\nTAU 1\nTAV 1\nTAY 1\nTBO 1\nTBU 1\nTCE 1\n\
TCO 1\nTDO 1\nTEC 1\nTEL 1\nTET 1\nTEW 1\nTEY 1\nTFE 1\nTFL 1\nTGR 1\nTHK 1\nTHM 1\n\
THV 1\nTHW 1\nTIP 1\nTLA 1\nTLI 1\nTLO 1\nTNE 1\nTOU 1\nTOW 1\nTPE 1\nTSA 1\nTSF 1\n\
TSK 1\nTSL 1\nTUA 1\nTUE 1\nTVA 1\nTYA 1\nUAR 1\nUBL 1\nUCC 1\nUDI 1\nUEM 1\nUEV 1\n\
UIL 1\nUIN 1\nUKN 1\nULP 1\nULT 1\nULW 1\nUME 1\nUMF 1\nUNC 1\nUNI 1\nUNO 1\nUPA 1\n\
UPH 1\nUPI 1\nUPO 1\nUPR 1\nUPS 1\nUPT 1\nURP 1\nURR 1\nURS 1\nUSA 1\nUSP 1\nUTB 1\n\
UTE 1\nUTH 1\nUTL 1\nUTN 1\nUTS 1\nUTU 1\nUWE 1\nUWR 1\nVAN 1\nVED 1\nVEG 1\nVEL 1\n\
VET 1\nVEY 1\nVID 1\nVIN 1\nVOI 1\nVOW 1\nWAC 1\nWAR 1\nWEH 1\nWES 1\nWET 1\nWIC 1\n\
WIS 1\nWLI 1\nWLO 1\nWNE 1\nWNM 1\nWOU 1\nWRA 1\nWSI 1\nWSL 1\nWSS 1\nWST 1\nWTH 1\n\
WWH 1\nXAC 1\nXED 1\nXLE 1\nXPO 1\nXTC 1\nXTF 1\nXTG 1\nXTN 1\nXTS 1\nXTW 1\nYAC 1\n\
YAD 1\nYAF 1\nYAG 1\nYAL 1\nYAM 1\nYAS 1\nYCH 1\nYCU 1\nYDA 1\nYDO 1\nYED 1\nYES 1\n\
YEU 1\nYEV 1\nYEX 1\nYFI 1\nYGA 1\nYGE 1\nYHA 1\nYHO 1\nYIN 1\nYKE 1\nYKI 1\nYLA 1\n\
YMO 1\nYMU 1\nYOR 1\nYPA 1\nYPI 1\nYPO 1\nYPR 1\nYRU 1\nYSA 1\nYSM 1\nYSS 1\nYSU 1\n\
YTE 1\nYTO 1\nYTR 1\nYTW 1\nYWR 1\n";

/// The corpus resource as raw bytes.
pub open spec fn spec_corpus() -> Seq<u8> {
    ENGLISH_TRIGRAM_COUNTS.spec_bytes()
}

/// Letter index of a letter byte, for executable code.
fn byte_letter_idx(b: u8) -> (r: usize)
    requires
        byte_is_alpha(b),
    ensures
        r == byte_letter_index(b),
        r < 26,
{
    if b <= 90 {
        (b - 65) as usize
    } else {
        (b - 97) as usize
    }
}

/// Parse the decimal count token `s[c..d)`.
fn parse_count(s: &[u8], c: usize, d: usize) -> (r: Option<u64>)
    requires
        c <= d <= s@.len(),
    ensures
        r is Some <==> (d > c && d - c <= 12 && all_digits(s@, c as int, d as int)),
        r is Some ==> r->Some_0 == dec_value(s@, c as int, d as int),
{
    if d <= c || d - c > 12 {
        return Option::None;
    }
    let mut val: u64 = 0;
    let mut k = c;
    while k < d
        invariant
            c <= k <= d <= s@.len(),
            d - c <= 12,
            forall|kk: int| c <= kk < k ==> is_digit_byte(#[trigger] s@[kk]),
            val == dec_value(s@, c as int, k as int),
            val < spec_pow10((k - c) as nat),
        decreases d - k,
    {
        let b = s[k];
        if b < 48 || b > 57 {
            proof {
                assert(!is_digit_byte(s@[k as int]));
                assert(!all_digits(s@, c as int, d as int));
            }
            return Option::None;
        }
        proof {
            lemma_pow10_mono(((k - c) + 1) as nat, 12);
            lemma_pow10_12();
            assert(spec_pow10(((k - c) + 1) as nat) == 10 * spec_pow10((k - c) as nat));
            assert(dec_value(s@, c as int, k as int + 1) == dec_value(s@, c as int, k as int) * 10
                + (s@[k as int] - 48));
        }
        val = val * 10 + ((b - 48) as u64);
        k += 1;
    }
    Option::Some(val)
}

/// Parse the whole corpus: the per-trigram counts (dense, 17,576
/// entries) and the total of all counts.
fn parse_trigram_counts(s: &[u8]) -> (r: (Vec<u64>, u64))
    requires
        s@.len() <= 0x10_0000,
    ensures
        r.0@.len() == 17576,
        forall|idx: int| 0 <= idx < 17576 ==> #[trigger] r.0@[idx] == spec_tally(s@, idx),
        r.1 == spec_corpus_total(s@),
{
    let n = s.len();
    let mut counts: Vec<u64> = Vec::new();
    let mut z: usize = 0;
    while z < 17576
        invariant
            counts@.len() == z,
            z <= 17576,
            forall|idx: int| 0 <= idx < z ==> #[trigger] counts@[idx] == 0,
        decreases 17576 - z,
    {
        counts.push(0);
        z += 1;
    }
    let mut total: u64 = 0;
    let mut pos: usize = 0;
    while pos < n
        invariant
            n == s@.len(),
            n <= 0x10_0000,
            pos <= n,
            counts@.len() == 17576,
            forall|idx: int|
                0 <= idx < 17576 ==> #[trigger] counts@[idx] + spec_tally_from(
                    s@,
                    pos as int,
                    idx,
                ) == spec_tally(s@, idx),
            total + spec_total_from(s@, pos as int) == spec_corpus_total(s@),
        decreases n - pos,
    {
        let le = scan_line_end(s, pos);
        let ghost lei = le as int;
        let a = scan_skip_spaces(s, pos, le);
        let b = scan_token_end(s, a, le);
        let c = scan_skip_spaces(s, b, le);
        let d = scan_token_end(s, c, le);
        let e2 = scan_skip_spaces(s, d, le);
        let mut contrib_idx: usize = 17576;
        let mut contrib_val: u64 = 0;
        if b - a == 3 && e2 == le {
            let b0 = s[a];
            let b1 = s[a + 1];
            let b2 = s[a + 2];
            let alpha_ok = (65 <= b0 && b0 <= 90 || 97 <= b0 && b0 <= 122) && (65 <= b1 && b1 <= 90
                || 97 <= b1 && b1 <= 122) && (65 <= b2 && b2 <= 90 || 97 <= b2 && b2 <= 122);
            if alpha_ok {
                let cnt = parse_count(s, c, d);
                match cnt {
                    Option::Some(v) => {
                        if v >= 1 {
                            let i0 = byte_letter_idx(b0);
                            let i1 = byte_letter_idx(b1);
                            let i2 = byte_letter_idx(b2);
                            contrib_idx = i0 * 676 + i1 * 26 + i2;
                            contrib_val = v;
                            proof {
                                assert(spec_line_entry(s@, pos as int, lei) == Option::Some(
                                    (contrib_idx as int, contrib_val as int),
                                ));
                            }
                        } else {
                            proof {
                                assert(spec_line_entry(s@, pos as int, lei) is None);
                            }
                        }
                    },
                    Option::None => {
                        proof {
                            assert(spec_line_entry(s@, pos as int, lei) is None);
                        }
                    },
                }
            } else {
                proof {
                    assert(spec_line_entry(s@, pos as int, lei) is None);
                }
            }
        } else {
            proof {
                assert(spec_line_entry(s@, pos as int, lei) is None);
            }
        }
        if contrib_idx < 17576 {
            proof {
                lemma_tally_bounds(s@, 0, contrib_idx as int);
                lemma_tally_bounds(s@, pos as int, contrib_idx as int);
                lemma_tally_bounds(s@, lei + 1, contrib_idx as int);
                assert(spec_tally_from(s@, pos as int, contrib_idx as int) == contrib_val
                    + if lei + 1 <= s@.len() {
                    spec_tally_from(s@, lei + 1, contrib_idx as int)
                } else {
                    0
                });
                assert(spec_tally(s@, contrib_idx as int) <= spec_corpus_total(s@));
                assert(spec_corpus_total(s@) <= (s@.len() + 1) * 1_000_000_000_000);
                lemma_tally_bounds(s@, 0, 0);
            }
            let cur = counts[contrib_idx];
            counts.set(contrib_idx, cur + contrib_val);
            total = total + contrib_val;
        } else {
            proof {
                assert(line_contrib(s@, pos as int, lei, 0) >= 0);
            }
        }
        proof {
            // Step the remaining-work invariant past this line.
            assert forall|idx: int|
                0 <= idx < 17576 implies #[trigger] counts@[idx] + spec_tally_from(
                s@,
                lei + 1,
                idx,
            ) == spec_tally(s@, idx) || lei + 1 > s@.len() && counts@[idx] == spec_tally(
                s@,
                idx,
            ) by {
                assert(spec_tally_from(s@, pos as int, idx) == line_contrib(s@, pos as int, lei, idx)
                    + if lei + 1 <= s@.len() {
                    spec_tally_from(s@, lei + 1, idx)
                } else {
                    0
                });
            }
            assert(spec_total_from(s@, pos as int) == line_total(s@, pos as int, lei) + if lei + 1
                <= s@.len() {
                spec_total_from(s@, lei + 1)
            } else {
                0
            });
        }
        if le < n {
            pos = le + 1;
        } else {
            pos = n;
            proof {
                assert(spec_tally_from(s@, n as int, 0) == 0);
            }
        }
    }
    proof {
        assert(forall|idx: int|
            0 <= idx < 17576 ==> spec_tally_from(s@, pos as int, idx) == 0);
        assert(spec_total_from(s@, pos as int) == 0);
    }
    (counts, total)
}

/// `t * 100`, saturating at the largest machine count.
pub open spec fn spec_sat_mul100(t: int) -> int {
    if t * 100 > u64::MAX {
        u64::MAX as int
    } else {
        t * 100
    }
}

/// The table entry for a trigram with corpus count `c` out of `total`:
/// `log10(c / total)` in e4 units for observed trigrams, and the floor
/// `log10(0.01 / total)` for unseen ones, never above zero.
pub open spec fn spec_entry(c: int, total: int) -> int {
    if total <= 0 {
        0
    } else if c >= 1 {
        let a = spec_log10_e4(c);
        let b = spec_log10_e4(total);
        if a >= b {
            0
        } else {
            -(b - a)
        }
    } else {
        -spec_log10_e4(spec_sat_mul100(total))
    }
}

/// The full dense table derived from corpus bytes `s`.
pub open spec fn spec_table(s: Seq<u8>) -> Seq<i64> {
    Seq::new(17576, |idx: int| spec_entry(spec_tally(s, idx), spec_corpus_total(s)) as i64)
}

/// The dense table of trigram log probabilities, in e4 units: entry
/// `i0 * 676 + i1 * 26 + i2` scores the trigram with letter indices
/// `(i0, i1, i2)`.
pub struct TrigramTable {
    pub entries: Vec<i64>,
}

/// A well-formed table has one bounded, non-positive entry per trigram.
pub open spec fn trigram_table_wf(t: &TrigramTable) -> bool {
    &&& t.entries@.len() == 17576
    &&& forall|i: int| 0 <= i < 17576 ==> -200_000 <= #[trigger] t.entries@[i] <= 0
}

/// The embedded corpus is usable: within the size bound and holding
/// at least one valid count line.
pub open spec fn spec_corpus_loadable() -> bool {
    spec_corpus().len() <= 0x10_0000 && spec_corpus_total(spec_corpus()) != 0
}

/// Build the trigram table from the embedded corpus. `None` is the
/// fatal-startup signal: the resource is oversized or yields no valid
/// counts at all.
pub fn build_english_trigram_table() -> (r: Option<TrigramTable>)
    ensures
        r is None <==> !spec_corpus_loadable(),
        r is Some ==> trigram_table_wf(&r->Some_0) && r->Some_0.entries@ == spec_table(
            spec_corpus(),
        ),
{
    let bytes: &[u8] = ENGLISH_TRIGRAM_COUNTS.as_bytes();
    if bytes.len() > 0x10_0000 {
        return Option::None;
    }
    let (counts, total) = parse_trigram_counts(bytes);
    proof {
        lemma_tally_bounds(spec_corpus(), 0, 0);
    }
    if total == 0 {
        return Option::None;
    }
    // The floor for unseen trigrams: a count of one hundredth.
    let t100: u64 = if total > u64::MAX / 100 {
        u64::MAX
    } else {
        total * 100
    };
    proof {
        lemma_fundamental_div_mod(u64::MAX as int, 100);
        lemma_mod_bound(u64::MAX as int, 100);
        assert(t100 == spec_sat_mul100(total as int)) by (nonlinear_arith)
            requires
                t100 == if total > u64::MAX / 100 {
                    u64::MAX
                } else {
                    (total * 100) as u64
                },
                total >= 1,
                u64::MAX as int == 100 * (u64::MAX as int / 100) + (u64::MAX as int % 100),
                0 <= u64::MAX as int % 100 < 100,
                spec_sat_mul100(total as int) == if (total as int) * 100 > u64::MAX as int {
                    u64::MAX as int
                } else {
                    (total as int) * 100
                },
        ;
    }
    let floor_mag = log10_e4(t100);
    let total_mag = log10_e4(total);
    let mut entries: Vec<i64> = Vec::new();
    let mut idx: usize = 0;
    while idx < 17576
        invariant
            counts@.len() == 17576,
            total >= 1,
            forall|i: int| 0 <= i < 17576 ==> #[trigger] counts@[i] == spec_tally(spec_corpus(), i),
            total == spec_corpus_total(spec_corpus()),
            t100 == spec_sat_mul100(total as int),
            t100 >= 1,
            floor_mag == spec_log10_e4(t100 as int),
            floor_mag <= 200_000,
            total_mag == spec_log10_e4(total as int),
            total_mag <= 200_000,
            entries@.len() == idx,
            idx <= 17576,
            forall|i: int|
                0 <= i < idx ==> #[trigger] entries@[i] == spec_entry(
                    spec_tally(spec_corpus(), i),
                    spec_corpus_total(spec_corpus()),
                ),
            forall|i: int| 0 <= i < idx ==> -200_000 <= #[trigger] entries@[i] <= 0,
        decreases 17576 - idx,
    {
        let c = counts[idx];
        let e: i64 = if c >= 1 {
            let a = log10_e4(c);
            if a >= total_mag {
                0
            } else {
                -((total_mag - a) as i64)
            }
        } else {
            -(floor_mag as i64)
        };
        entries.push(e);
        idx += 1;
    }
    proof {
        let t = spec_table(spec_corpus());
        assert(entries@ =~= t);
    }
    Option::Some(TrigramTable { entries })
}

/// The table index of the three-letter window of `ab` starting at `i`.
pub open spec fn spec_win_index(ab: Seq<u8>, i: int) -> int {
    tri_index(ab[i], ab[i + 1], ab[i + 2])
}

/// Sum of the table entries over the first `k` windows of `ab`.
pub open spec fn spec_trigram_sum(ab: Seq<u8>, entries: Seq<i64>, k: int) -> int
    decreases k,
{
    if k <= 0 {
        0
    } else {
        spec_trigram_sum(ab, entries, k - 1) + entries[spec_win_index(ab, k - 1)]
    }
}

/// The trigram score of a text against a table: the sum of the log
/// probabilities of every three-letter window of its alphabetic
/// signal, or the `i64::MIN` sentinel when fewer than three letters
/// are present (the fixed-point stand-in for minus infinity).
pub open spec fn spec_trigram_score(ab: Seq<u8>, entries: Seq<i64>) -> int {
    if ab.len() < 3 {
        i64::MIN as int
    } else {
        spec_trigram_sum(ab, entries, ab.len() - 2)
    }
}

/// Score `text` against an already-built table.
pub fn score_trigram_log_prob_with(table: &TrigramTable, text: &str) -> (r: i64)
    requires
        trigram_table_wf(table),
        text@.len() <= 0x100_0000_0000,
    ensures
        r == spec_trigram_score(spec_alpha_bytes(text@), table.entries@),
{
    let ab = text_alpha_bytes(text);
    let n = ab.len();
    proof {
        lemma_alpha_bytes_are_alpha(text@);
        assert(spec_alpha(text@).len() <= text@.len()) by {
            broadcast use vstd::seq_lib::group_filter_ensures;

        }
    }
    if n < 3 {
        return i64::MIN;
    }
    let mut acc: i64 = 0;
    let mut i: usize = 0;
    while i < n - 2
        invariant
            n == ab@.len(),
            3 <= n <= 0x100_0000_0000,
            i <= n - 2,
            trigram_table_wf(table),
            forall|k: int| 0 <= k < ab@.len() ==> byte_is_alpha(#[trigger] ab@[k]),
            acc == spec_trigram_sum(ab@, table.entries@, i as int),
            -(i * 200_000) <= acc <= 0,
        decreases n - i,
    {
        let b0 = ab[i];
        let b1 = ab[i + 1];
        let b2 = ab[i + 2];
        let i0 = byte_letter_idx(b0);
        let i1 = byte_letter_idx(b1);
        let i2 = byte_letter_idx(b2);
        let widx = i0 * 676 + i1 * 26 + i2;
        proof {
            assert(widx == spec_win_index(ab@, i as int));
            assert(-200_000 <= table.entries@[widx as int] <= 0);
        }
        acc = acc + table.entries[widx];
        i += 1;
    }
    acc
}

/// Score `text` by English trigram likelihood, in e4 log10 units:
/// higher (closer to zero) is more English-like. Returns the
/// `i64::MIN` sentinel when the text holds fewer than three letters,
/// or when the embedded corpus cannot be loaded.
pub fn score_trigram_log_prob(text: &str) -> (r: i64)
    requires
        text@.len() <= 0x100_0000_0000,
    ensures
        (spec_corpus().len() > 0x10_0000 || spec_corpus_total(spec_corpus()) == 0) ==> r
            == i64::MIN,
        !(spec_corpus().len() > 0x10_0000 || spec_corpus_total(spec_corpus()) == 0) ==> r
            == spec_trigram_score(spec_alpha_bytes(text@), spec_table(spec_corpus())),
{
    let table_opt = build_english_trigram_table();
    match table_opt {
        Option::None => i64::MIN,
        Option::Some(table) => score_trigram_log_prob_with(&table, text),
    }
}


} // verus!
