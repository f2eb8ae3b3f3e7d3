//! The byte-level letter model that every statistic in the crate is
//! stated over: case-folded letter indices, per-letter counts of an
//! ASCII text, and sums over the 26-letter alphabet.

use vstd::arithmetic::div_mod::lemma_small_mod;
use vstd::prelude::*;

verus! {

/// `b` is the ASCII code of an upper-case letter.
pub open spec fn byte_is_upper(b: u8) -> bool {
    65 <= b && b <= 90
}

/// `b` is the ASCII code of a lower-case letter.
pub open spec fn byte_is_lower(b: u8) -> bool {
    97 <= b && b <= 122
}

/// `b` is the ASCII code of a letter.
pub open spec fn byte_is_alpha(b: u8) -> bool {
    byte_is_upper(b) || byte_is_lower(b)
}

/// Case-folded alphabet position of `b`: 0 for `A`/`a` through 25 for
/// `Z`/`z`, and 26 for every non-letter byte.
pub open spec fn byte_letter_index(b: u8) -> int {
    if byte_is_upper(b) {
        b - 65
    } else if byte_is_lower(b) {
        b - 97
    } else {
        26
    }
}

/// How many bytes of `s` have case-folded letter index `l`.
pub open spec fn count_letter(s: Seq<u8>, l: int) -> nat
    decreases s.len(),
{
    if s.len() == 0 {
        0
    } else {
        count_letter(s.drop_last(), l) + if byte_letter_index(s.last()) == l {
            1nat
        } else {
            0nat
        }
    }
}

pub proof fn lemma_count_letter_push(s: Seq<u8>, b: u8, l: int)
    ensures
        count_letter(s.push(b), l) == count_letter(s, l) + if byte_letter_index(b) == l {
            1nat
        } else {
            0nat
        },
{
    assert(s.push(b).drop_last() == s);
}

pub proof fn lemma_count_letter_le_len(s: Seq<u8>, l: int)
    ensures
        count_letter(s, l) <= s.len(),
    decreases s.len(),
{
    if s.len() > 0 {
        lemma_count_letter_le_len(s.drop_last(), l);
    }
}

/// Sum of the counts of the first `k` letters of the alphabet.
pub open spec fn sum_counts_upto(s: Seq<u8>, k: int) -> nat
    decreases k,
{
    if k <= 0 {
        0
    } else {
        sum_counts_upto(s, k - 1) + count_letter(s, k - 1)
    }
}

pub proof fn lemma_sum_counts_push(s: Seq<u8>, b: u8, k: int)
    ensures
        sum_counts_upto(s.push(b), k) == sum_counts_upto(s, k) + if 0 <= byte_letter_index(b)
            < k {
            1nat
        } else {
            0nat
        },
    decreases k,
{
    if k > 0 {
        lemma_sum_counts_push(s, b, k - 1);
        lemma_count_letter_push(s, b, k - 1);
    }
}

/// For an all-letter text the 26 per-letter counts sum to its length.
pub proof fn lemma_sum_counts_total(s: Seq<u8>)
    requires
        forall|i: int| 0 <= i < s.len() ==> byte_is_alpha(s[i]),
    ensures
        sum_counts_upto(s, 26) == s.len(),
    decreases s.len(),
{
    if s.len() == 0 {
        assert(sum_counts_upto(s, 26) == 0) by {
            lemma_sum_counts_empty(s, 26);
        }
    } else {
        let pre = s.drop_last();
        lemma_sum_counts_total(pre);
        assert(pre.push(s.last()) == s);
        lemma_sum_counts_push(pre, s.last(), 26);
    }
}

pub proof fn lemma_sum_counts_empty(s: Seq<u8>, k: int)
    requires
        s.len() == 0,
    ensures
        sum_counts_upto(s, k) == 0,
    decreases k,
{
    if k > 0 {
        lemma_sum_counts_empty(s, k - 1);
    }
}

/// Sum of `h(l)` over `a <= l < b`.
pub open spec fn range_sum(h: spec_fn(int) -> int, a: int, b: int) -> int
    decreases b - a,
{
    if b <= a {
        0
    } else {
        range_sum(h, a, b - 1) + h(b - 1)
    }
}

pub proof fn lemma_range_sum_split(h: spec_fn(int) -> int, a: int, m: int, b: int)
    requires
        a <= m <= b,
    ensures
        range_sum(h, a, b) == range_sum(h, a, m) + range_sum(h, m, b),
    decreases b - m,
{
    if m < b {
        lemma_range_sum_split(h, a, m, b - 1);
    }
}

/// Shifting the summation window by `d` is the same as shifting the
/// summand's argument.
pub proof fn lemma_range_sum_shift(h: spec_fn(int) -> int, a: int, b: int, d: int)
    ensures
        range_sum(h, a + d, b + d) == range_sum(|l: int| h(l + d), a, b),
    decreases b - a,
{
    if a < b {
        lemma_range_sum_shift(h, a, b - 1, d);
    }
}

pub proof fn lemma_range_sum_equal(h1: spec_fn(int) -> int, h2: spec_fn(int) -> int, a: int, b: int)
    requires
        forall|l: int| a <= l < b ==> #[trigger] h1(l) == h2(l),
    ensures
        range_sum(h1, a, b) == range_sum(h2, a, b),
    decreases b - a,
{
    if a < b {
        lemma_range_sum_equal(h1, h2, a, b - 1);
    }
}

/// Summing `h((l + r) % 26)` over one whole alphabet visits every
/// letter exactly once, whatever the rotation `r`.
pub proof fn lemma_range_sum_rotation(h: spec_fn(int) -> int, r: int)
    requires
        0 <= r < 26,
    ensures
        range_sum(|l: int| h((l + r) % 26), 0, 26) == range_sum(h, 0, 26),
{
    let hr = |l: int| h((l + r) % 26);
    lemma_range_sum_split(hr, 0, 26 - r, 26);
    // Low window: l + r stays below 26.
    assert(forall|l: int| 0 <= l < 26 - r ==> #[trigger] hr(l) == h(l + r)) by {
        assert forall|l: int| 0 <= l < 26 - r implies #[trigger] hr(l) == h(l + r) by {
            lemma_small_mod((l + r) as nat, 26);
        }
    }
    lemma_range_sum_equal(hr, |l: int| h(l + r), 0, 26 - r);
    lemma_range_sum_shift(h, 0, 26 - r, r);
    assert(range_sum(|l: int| h(l + r), 0, 26 - r) == range_sum(h, r, 26)) by {
        lemma_range_sum_equal(|l: int| h(l + r), |l: int| h(l + r), 0, 26 - r);
    }
    // High window: l + r wraps once.
    assert(forall|l: int| 26 - r <= l < 26 ==> #[trigger] hr(l) == h(l + r - 26)) by {
        assert forall|l: int| 26 - r <= l < 26 implies #[trigger] hr(l) == h(l + r - 26) by {
            lemma_small_mod((l + r - 26) as nat, 26);
            assert((l + r) % 26 == (l + r - 26) % 26) by {
                vstd::arithmetic::div_mod::lemma_mod_sub_multiples_vanish((l + r) as int, 26);
            }
        }
    }
    let hw = |l: int| h(l + (r - 26));
    lemma_range_sum_equal(hr, hw, 26 - r, 26);
    assert(range_sum(hw, 26 - r, 26) == range_sum(h, 0, r)) by {
        lemma_range_sum_shift(h, 26 - r, 26, r - 26);
        assert(26 - r + (r - 26) == 0);
        assert(26 + (r - 26) == r);
    }
    lemma_range_sum_split(h, 0, r, 26);
}

} // verus!
