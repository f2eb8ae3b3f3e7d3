//! Caesar-style character shifting, shared by every cipher in the crate.
//!
//! A shift moves an ASCII letter forward through its own alphabet (upper
//! or lower case) modulo 26 and leaves every other character untouched.

use vstd::arithmetic::div_mod::{
    lemma_add_mod_noop, lemma_mod_add_multiples_vanish, lemma_mod_bound, lemma_mod_twice,
    lemma_small_mod,
};
use vstd::prelude::*;

verus! {

/// `c` is an ASCII upper-case letter `'A'..='Z'`.
pub open spec fn spec_is_ascii_upper(c: char) -> bool {
    65 <= c as u32 && c as u32 <= 90
}

/// `c` is an ASCII lower-case letter `'a'..='z'`.
pub open spec fn spec_is_ascii_lower(c: char) -> bool {
    97 <= c as u32 && c as u32 <= 122
}

/// `c` is an ASCII letter.
pub open spec fn spec_is_ascii_alpha(c: char) -> bool {
    spec_is_ascii_upper(c) || spec_is_ascii_lower(c)
}

/// `c` shifted forward by `shift` alphabet positions, wrapping modulo 26
/// within its own case; non-letters are unchanged. `%` here is the
/// Euclidean remainder, so negative shifts wrap backwards.
pub open spec fn spec_shift_char(c: char, shift: int) -> char {
    if spec_is_ascii_upper(c) {
        ((65 + ((c as u32 - 65 + shift) % 26)) as u32) as char
    } else if spec_is_ascii_lower(c) {
        ((97 + ((c as u32 - 97 + shift) % 26)) as u32) as char
    } else {
        c
    }
}

/// Every character of `s` shifted by `shift`.
pub open spec fn spec_shift_string(s: Seq<char>, shift: int) -> Seq<char> {
    s.map_values(|c: char| spec_shift_char(c, shift))
}

/// A shifted letter is still a letter of the same case; a shifted
/// non-letter is itself.
pub proof fn lemma_shift_char_class(c: char, shift: int)
    ensures
        spec_is_ascii_upper(spec_shift_char(c, shift)) == spec_is_ascii_upper(c),
        spec_is_ascii_lower(spec_shift_char(c, shift)) == spec_is_ascii_lower(c),
        spec_is_ascii_alpha(spec_shift_char(c, shift)) == spec_is_ascii_alpha(c),
{
    if spec_is_ascii_upper(c) {
        lemma_mod_bound(c as u32 - 65 + shift, 26);
    } else if spec_is_ascii_lower(c) {
        lemma_mod_bound(c as u32 - 97 + shift, 26);
    }
}

/// Two shifts in a row amount to one shift by the sum.
pub proof fn lemma_shift_char_compose(c: char, a: int, b: int)
    ensures
        spec_shift_char(spec_shift_char(c, a), b) == spec_shift_char(c, a + b),
{
    lemma_shift_char_class(c, a);
    if spec_is_ascii_upper(c) {
        let x = c as u32 - 65;
        lemma_mod_bound(x + a, 26);
        assert(spec_shift_char(c, a) as u32 == 65 + ((x + a) % 26));
        lemma_add_mod_noop(x + a, b, 26);
        lemma_mod_twice(x + a, 26);
        lemma_small_mod(((b % 26) + 26) as nat % 26, 26);
        assert(((x + a) % 26 + b) % 26 == (x + a + b) % 26) by {
            lemma_add_mod_noop((x + a) % 26, b, 26);
            lemma_mod_twice(x + a, 26);
            lemma_add_mod_noop(x + a, b, 26);
        }
    } else if spec_is_ascii_lower(c) {
        let x = c as u32 - 97;
        lemma_mod_bound(x + a, 26);
        assert(spec_shift_char(c, a) as u32 == 97 + ((x + a) % 26));
        assert(((x + a) % 26 + b) % 26 == (x + a + b) % 26) by {
            lemma_add_mod_noop((x + a) % 26, b, 26);
            lemma_mod_twice(x + a, 26);
            lemma_add_mod_noop(x + a, b, 26);
        }
    }
}

/// Shifting by `shift` and then by `-shift` restores the character.
pub proof fn lemma_shift_char_inverse(c: char, shift: int)
    ensures
        spec_shift_char(spec_shift_char(c, shift), -shift) == c,
{
    lemma_shift_char_compose(c, shift, -shift);
    if spec_is_ascii_upper(c) {
        lemma_small_mod((c as u32 - 65) as nat, 26);
    } else if spec_is_ascii_lower(c) {
        lemma_small_mod((c as u32 - 97) as nat, 26);
    }
}

/// Whether `c` is an ASCII letter.
pub fn char_is_ascii_alpha(c: char) -> (b: bool)
    ensures
        b == spec_is_ascii_alpha(c),
{
    let u = c as u32;
    (65 <= u && u <= 90) || (97 <= u && u <= 122)
}

/// Shift a single character by `shift` alphabet positions (negative
/// shifts move backwards); non-letters come back unchanged.
pub fn shift_char(c: char, shift: i8) -> (r: char)
    ensures
        r == spec_shift_char(c, shift as int),
{
    let u = c as u32;
    // i8 ranges over [-128, 127], so shift + 130 is positive and keeps
    // the same residue modulo 26.
    let sn: u32 = ((shift as i32 + 130) % 26) as u32;
    proof {
        lemma_mod_add_multiples_vanish(shift as int, 26);
        lemma_mod_add_multiples_vanish(shift as int + 26, 26);
        lemma_mod_add_multiples_vanish(shift as int + 52, 26);
        lemma_mod_add_multiples_vanish(shift as int + 78, 26);
        lemma_mod_add_multiples_vanish(shift as int + 104, 26);
        assert(sn == (shift as int) % 26);
        lemma_mod_bound(shift as int, 26);
    }
    if 65 <= u && u <= 90 {
        let off = (u - 65 + sn) % 26;
        proof {
            lemma_add_mod_noop((u - 65) as int, shift as int, 26);
            lemma_small_mod((u - 65) as nat, 26);
            lemma_add_mod_noop((u - 65) as int, (shift as int) % 26, 26);
            lemma_mod_twice(shift as int, 26);
        }
        ((65 + off) as u8) as char
    } else if 97 <= u && u <= 122 {
        let off = (u - 97 + sn) % 26;
        proof {
            lemma_add_mod_noop((u - 97) as int, shift as int, 26);
            lemma_small_mod((u - 97) as nat, 26);
            lemma_add_mod_noop((u - 97) as int, (shift as int) % 26, 26);
            lemma_mod_twice(shift as int, 26);
        }
        ((97 + off) as u8) as char
    } else {
        c
    }
}

/// Relies on std's `String::push`: appends exactly one character.
#[verifier::external_body]
pub(crate) fn push_char(s: &mut String, c: char)
    ensures
        final(s)@ == old(s)@.push(c),
{
    s.push(c)
}

/// Shift every character of `s` by `shift`, preserving non-letters and
/// the original casing.
pub fn shift_char_string(s: &str, shift: i8) -> (r: String)
    ensures
        r@ == spec_shift_string(s@, shift as int),
{
    let mut out = String::new();
    for c in it: s.chars()
        invariant
            out@ == spec_shift_string(it.seq().take(it.index() as int), shift as int),
            it.seq() == s@,
    {
        let sc = shift_char(c, shift);
        push_char(&mut out, sc);
        proof {
            assert(it.seq().take(it.index() as int + 1)
                == it.seq().take(it.index() as int).push(c));
        }
    }
    proof {
        assert(s@.take(s@.len() as int) == s@);
    }
    out
}

} // verus!
