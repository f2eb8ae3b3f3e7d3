//! Crate-level laws: how Caesar shifting interacts with the
//! alphabetic signal and the index of coincidence. The centrepiece is
//! [`lemma_ic_caesar_invariant`]: a Caesar shift never changes a
//! text's index of coincidence.

use crate::analysis::{ic_num_upto, spec_alpha, spec_alpha_bytes, spec_ic_scaled};
use crate::cipher_utils::{
    lemma_shift_char_class, spec_is_ascii_alpha, spec_is_ascii_lower, spec_is_ascii_upper,
    spec_shift_char, spec_shift_string,
};
use crate::letter_stats::{
    byte_is_alpha, byte_is_lower, byte_is_upper, byte_letter_index, count_letter,
    lemma_count_letter_push, lemma_range_sum_equal, lemma_range_sum_rotation, range_sum,
};
use vstd::arithmetic::div_mod::{
    lemma_add_mod_noop, lemma_mod_add_multiples_vanish, lemma_mod_bound, lemma_mod_twice,
    lemma_small_mod, lemma_sub_mod_noop,
};
use vstd::prelude::*;

verus! {

/// The byte-level mirror of [`spec_shift_char`].
pub open spec fn spec_shift_byte(b: u8, shift: int) -> u8 {
    if byte_is_upper(b) {
        (65 + ((b - 65 + shift) % 26)) as u8
    } else if byte_is_lower(b) {
        (97 + ((b - 97 + shift) % 26)) as u8
    } else {
        b
    }
}

/// Shifting commutes with taking a letter's byte code.
pub proof fn lemma_shift_char_byte(c: char, shift: int)
    requires
        spec_is_ascii_alpha(c),
    ensures
        (spec_shift_char(c, shift) as u32) as u8 == spec_shift_byte((c as u32) as u8, shift),
{
    lemma_shift_char_class(c, shift);
    if spec_is_ascii_upper(c) {
        lemma_mod_bound(c as u32 - 65 + shift, 26);
    } else {
        lemma_mod_bound(c as u32 - 97 + shift, 26);
    }
}

/// Shifting by zero leaves every character alone.
pub proof fn lemma_shift_string_zero(s: Seq<char>)
    ensures
        spec_shift_string(s, 0) == s,
{
    assert forall|i: int| 0 <= i < s.len() implies spec_shift_string(s, 0)[i] == s[i] by {
        let c = s[i];
        vstd::utf8::char_u32_cast(c, c as u32);
        if spec_is_ascii_upper(c) {
            lemma_small_mod((c as u32 - 65) as nat, 26);
            assert((c as u32 - 65 + 0) % 26 == c as u32 - 65);
            assert(65 + (c as u32 - 65) == c as u32);
            assert(spec_shift_char(c, 0) == ((c as u32) as u32) as char);
        } else if spec_is_ascii_lower(c) {
            lemma_small_mod((c as u32 - 97) as nat, 26);
            assert((c as u32 - 97 + 0) % 26 == c as u32 - 97);
            assert(97 + (c as u32 - 97) == c as u32);
            assert(spec_shift_char(c, 0) == ((c as u32) as u32) as char);
        }
    }
    assert(spec_shift_string(s, 0) =~= s);
}

/// Filtering to letters commutes with shifting: a shift maps letters
/// to letters and leaves everything else in place.
pub proof fn lemma_alpha_shift_commute(s: Seq<char>, shift: int)
    ensures
        spec_alpha(spec_shift_string(s, shift)) == spec_shift_string(spec_alpha(s), shift),
    decreases s.len(),
{
    if s.len() == 0 {
        assert(spec_alpha(spec_shift_string(s, shift)) =~= spec_shift_string(
            spec_alpha(s),
            shift,
        )) by {
            reveal(Seq::filter);
            assert(spec_shift_string(s, shift).len() == 0);
        }
    } else {
        let t = s.drop_last();
        let c = s.last();
        lemma_alpha_shift_commute(t, shift);
        lemma_shift_char_class(c, shift);
        assert(s == t.push(c));
        assert(spec_shift_string(t.push(c), shift) =~= spec_shift_string(t, shift).push(
            spec_shift_char(c, shift),
        ));
        crate::analysis::lemma_alpha_push(t, c);
        crate::analysis::lemma_alpha_push(spec_shift_string(t, shift), spec_shift_char(c, shift));
        if spec_is_ascii_alpha(c) {
            assert(spec_shift_string(spec_alpha(t).push(c), shift) =~= spec_shift_string(
                spec_alpha(t),
                shift,
            ).push(spec_shift_char(c, shift)));
        }
    }
}

/// The alphabetic byte signal of a shifted text is the byte-shifted
/// signal of the original.
pub proof fn lemma_alpha_bytes_shift(s: Seq<char>, shift: int)
    ensures
        spec_alpha_bytes(spec_shift_string(s, shift)) == spec_alpha_bytes(s).map_values(
            |b: u8| spec_shift_byte(b, shift),
        ),
{
    lemma_alpha_shift_commute(s, shift);
    let a = spec_alpha(s);
    crate::analysis::lemma_alpha_bytes_are_alpha(s);
    assert forall|i: int|
        0 <= i < a.len() implies spec_alpha_bytes(spec_shift_string(s, shift))[i]
        == spec_alpha_bytes(s).map_values(|b: u8| spec_shift_byte(b, shift))[i] by {
        broadcast use vstd::seq_lib::group_filter_ensures;

        let pred = |c: char| spec_is_ascii_alpha(c);
        assert(a == s.filter(pred));
        s.lemma_filter_pred(pred, i);
        assert(spec_is_ascii_alpha(a[i]));
        lemma_shift_char_byte(a[i], shift);
        assert(spec_alpha_bytes(spec_shift_string(s, shift))[i] == (spec_shift_char(
            a[i],
            shift,
        ) as u32) as u8);
        assert(spec_alpha_bytes(s)[i] == (a[i] as u32) as u8);
    }
    assert(spec_alpha_bytes(spec_shift_string(s, shift)) =~= spec_alpha_bytes(s).map_values(
        |b: u8| spec_shift_byte(b, shift),
    ));
}

/// Letter indices rotate under a byte shift.
pub proof fn lemma_shift_byte_index(b: u8, shift: int)
    requires
        byte_is_alpha(b),
    ensures
        byte_letter_index(spec_shift_byte(b, shift)) == (byte_letter_index(b) + shift) % 26,
{
    if byte_is_upper(b) {
        lemma_mod_bound(b - 65 + shift, 26);
    } else {
        lemma_mod_bound(b - 97 + shift, 26);
    }
}

/// Letter counts rotate under a byte shift: the shifted text has as
/// many of letter `l` as the original has of the letter `shift`
/// places earlier.
pub proof fn lemma_count_shift(ab: Seq<u8>, shift: int, l: int)
    requires
        forall|i: int| 0 <= i < ab.len() ==> byte_is_alpha(#[trigger] ab[i]),
        0 <= l < 26,
    ensures
        count_letter(ab.map_values(|b: u8| spec_shift_byte(b, shift)), l) == count_letter(
            ab,
            (l - shift) % 26,
        ),
    decreases ab.len(),
{
    let f = |b: u8| spec_shift_byte(b, shift);
    if ab.len() == 0 {
        assert(ab.map_values(f).len() == 0);
    } else {
        let t = ab.drop_last();
        let b = ab.last();
        assert(forall|i: int| 0 <= i < t.len() ==> byte_is_alpha(#[trigger] t[i])) by {
            assert(forall|i: int| 0 <= i < t.len() ==> t[i] == ab[i]);
        }
        lemma_count_shift(t, shift, l);
        assert(ab == t.push(b));
        assert(ab.map_values(f) =~= t.map_values(f).push(f(b)));
        lemma_count_letter_push(t.map_values(f), f(b), l);
        lemma_count_letter_push(t, b, (l - shift) % 26);
        assert(byte_is_alpha(ab[ab.len() - 1]));
        lemma_shift_byte_index(b, shift);
        // index(f(b)) == l  <==>  index(b) == (l - shift) % 26
        let x = byte_letter_index(b);
        lemma_mod_bound(l - shift, 26);
        if (x + shift) % 26 == l {
            assert(x == (l - shift) % 26) by {
                lemma_sub_mod_noop(x + shift, shift, 26);
                lemma_mod_twice(x + shift, 26);
                lemma_small_mod(x as nat, 26);
                assert(((x + shift) % 26 - shift) % 26 == x % 26);
            }
        }
        if x == (l - shift) % 26 {
            assert((x + shift) % 26 == l) by {
                lemma_add_mod_noop(l - shift, shift, 26);
                lemma_mod_twice(l - shift, 26);
                lemma_small_mod(l as nat, 26);
                assert(((l - shift) % 26 + shift) % 26 == l % 26);
            }
        }
    }
}

/// The index-of-coincidence numerator written as an alphabet sum.
pub proof fn lemma_ic_num_as_range_sum(ab: Seq<u8>, k: int)
    ensures
        ic_num_upto(ab, k) == range_sum(
            |l: int| count_letter(ab, l) * (count_letter(ab, l) - 1),
            0,
            k,
        ),
    decreases k,
{
    if k > 0 {
        lemma_ic_num_as_range_sum(ab, k - 1);
    }
}

/// Shift invariance of the index of coincidence: Caesar-shifting a
/// text by any amount leaves its scaled IC exactly unchanged.
pub proof fn lemma_ic_caesar_invariant(s: Seq<char>, shift: int)
    ensures
        spec_ic_scaled(spec_alpha_bytes(spec_shift_string(s, shift))) == spec_ic_scaled(
            spec_alpha_bytes(s),
        ),
{
    let ab = spec_alpha_bytes(s);
    let abs = spec_alpha_bytes(spec_shift_string(s, shift));
    lemma_alpha_bytes_shift(s, shift);
    let f = |b: u8| spec_shift_byte(b, shift);
    assert(abs == ab.map_values(f));
    assert(abs.len() == ab.len());
    crate::analysis::lemma_alpha_bytes_are_alpha(s);
    let r = shift % 26;
    lemma_mod_bound(shift, 26);
    let h = |l: int| count_letter(ab, l) * (count_letter(ab, l) - 1);
    let hs = |l: int| count_letter(abs, l) * (count_letter(abs, l) - 1);
    // Counts of the shifted text are the original counts rotated.
    assert forall|l: int| 0 <= l < 26 implies #[trigger] hs(l) == h((l + (26 - r)) % 26) by {
        lemma_count_shift(ab, shift, l);
        assert(count_letter(abs, l) == count_letter(ab, (l - shift) % 26));
        assert((l - shift) % 26 == (l + (26 - r)) % 26) by {
            lemma_sub_mod_noop(l, shift, 26);
            lemma_mod_twice(l, 26);
            lemma_small_mod(l as nat, 26);
            assert((l - shift) % 26 == (l % 26 - shift % 26) % 26) by {
                lemma_sub_mod_noop(l, shift, 26);
            }
            assert((l % 26 - shift % 26) % 26 == (l - r) % 26) by {
                lemma_small_mod(l as nat, 26);
            }
            assert((l - r) % 26 == (l - r + 26) % 26) by {
                lemma_mod_add_multiples_vanish(l - r, 26);
            }
            assert(l - r + 26 == l + (26 - r));
        }
    }
    lemma_ic_num_as_range_sum(ab, 26);
    lemma_ic_num_as_range_sum(abs, 26);
    if r == 0 {
        assert forall|l: int| 0 <= l < 26 implies #[trigger] hs(l) == h(l) by {
            lemma_small_mod(l as nat, 26);
            assert((l + 26) % 26 == l % 26) by {
                lemma_mod_add_multiples_vanish(l, 26);
            }
            assert(hs(l) == h((l + 26) % 26));
        }
        lemma_range_sum_equal(hs, h, 0, 26);
    } else {
        let rot = (26 - r) as int;
        assert(0 <= rot < 26);
        lemma_range_sum_equal(hs, |l: int| h((l + rot) % 26), 0, 26);
        lemma_range_sum_rotation(h, rot);
    }
    assert(ic_num_upto(abs, 26) == ic_num_upto(ab, 26));
}

} // verus!
