//! Decimal rendering of machine integers for key text and parameter
//! summaries.

use crate::cipher_utils::push_char;
use vstd::prelude::*;

verus! {

/// The digit character for `d` in `0..=9`.
pub open spec fn spec_digit_char(d: int) -> char {
    ((48 + d) as u32) as char
}

/// The decimal digits of `n`, most significant first.
pub open spec fn spec_u64_digits(n: int) -> Seq<char>
    decreases n,
{
    if n < 10 {
        seq![spec_digit_char(n)]
    } else {
        spec_u64_digits(n / 10).push(spec_digit_char(n % 10))
    }
}

/// Render `n` in decimal.
pub fn u64_to_string(n: u64) -> (r: String)
    ensures
        r@ == spec_u64_digits(n as int),
    decreases n,
{
    if n < 10 {
        let mut s = String::new();
        let d = ((48 + n) as u8) as char;
        push_char(&mut s, d);
        proof {
            assert(s@ =~= spec_u64_digits(n as int));
        }
        s
    } else {
        let mut s = u64_to_string(n / 10);
        proof {
            vstd::arithmetic::div_mod::lemma_mod_bound(n as int, 10);
        }
        let d = ((48 + (n % 10)) as u8) as char;
        push_char(&mut s, d);
        s
    }
}

} // verus!
