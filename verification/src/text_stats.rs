//! Basic descriptive statistics of a text: character class counts and
//! word-length figures, computed in one pass.

use crate::cipher_utils::{spec_is_ascii_alpha, spec_is_ascii_lower, spec_is_ascii_upper};
use vstd::prelude::*;

verus! {

/// How many of the first `i` characters of `s` satisfy `p`.
pub open spec fn count_pred(s: Seq<char>, i: int, p: spec_fn(char) -> bool) -> int
    decreases i,
{
    if i <= 0 {
        0
    } else if p(s[i - 1]) {
        1 + count_pred(s, i - 1, p)
    } else {
        count_pred(s, i - 1, p)
    }
}

pub open spec fn spec_is_ascii_digit(c: char) -> bool {
    48 <= c as u32 <= 57
}

pub open spec fn spec_is_ascii_whitespace(c: char) -> bool {
    c as u32 == 32 || c as u32 == 9 || c as u32 == 10 || c as u32 == 12 || c as u32 == 13
}

pub open spec fn spec_is_ascii_punctuation(c: char) -> bool {
    (33 <= c as u32 <= 47) || (58 <= c as u32 <= 64) || (91 <= c as u32 <= 96) || (123 <= c as u32
        <= 126)
}

/// The white space that separates words: the Unicode `White_Space`
/// code points.
pub open spec fn spec_is_word_space(c: char) -> bool {
    let u = c as u32;
    (9 <= u <= 13) || u == 32 || u == 0x85 || u == 0xA0 || u == 0x1680 || (0x2000 <= u <= 0x200A)
        || u == 0x2028 || u == 0x2029 || u == 0x202F || u == 0x205F || u == 0x3000
}

/// Length of the unbroken word ending at position `i` (exclusive).
pub open spec fn trailing_run(s: Seq<char>, i: int) -> int
    decreases i,
{
    if i <= 0 || spec_is_word_space(s[i - 1]) {
        0
    } else {
        1 + trailing_run(s, i - 1)
    }
}

/// How many words end strictly before position `i`.
pub open spec fn words_done(s: Seq<char>, i: int) -> int
    decreases i,
{
    if i <= 0 {
        0
    } else if spec_is_word_space(s[i - 1]) && trailing_run(s, i - 1) > 0 {
        1 + words_done(s, i - 1)
    } else {
        words_done(s, i - 1)
    }
}

/// Smallest length among the words ending strictly before `i`;
/// `usize::MAX` when none has ended yet.
pub open spec fn min_word_done(s: Seq<char>, i: int) -> int
    decreases i,
{
    if i <= 0 {
        usize::MAX as int
    } else if spec_is_word_space(s[i - 1]) && trailing_run(s, i - 1) > 0 && trailing_run(s, i - 1)
        < min_word_done(s, i - 1) {
        trailing_run(s, i - 1)
    } else {
        min_word_done(s, i - 1)
    }
}

/// Largest length among the words ending strictly before `i`.
pub open spec fn max_word_done(s: Seq<char>, i: int) -> int
    decreases i,
{
    if i <= 0 {
        0
    } else if spec_is_word_space(s[i - 1]) && trailing_run(s, i - 1) > max_word_done(s, i - 1) {
        trailing_run(s, i - 1)
    } else {
        max_word_done(s, i - 1)
    }
}

/// Total words of `s`, counting a trailing unterminated word.
pub open spec fn spec_word_count(s: Seq<char>) -> int {
    words_done(s, s.len() as int) + if trailing_run(s, s.len() as int) > 0 {
        1int
    } else {
        0int
    }
}

/// Smallest word length of `s`, or 0 when `s` has no word.
pub open spec fn spec_min_word_len(s: Seq<char>) -> int {
    let t = trailing_run(s, s.len() as int);
    let m = min_word_done(s, s.len() as int);
    let m2 = if 0 < t < m {
        t
    } else {
        m
    };
    if spec_word_count(s) == 0 {
        0
    } else {
        m2
    }
}

/// Largest word length of `s`.
pub open spec fn spec_max_word_len(s: Seq<char>) -> int {
    let t = trailing_run(s, s.len() as int);
    let m = max_word_done(s, s.len() as int);
    if t > m {
        t
    } else {
        m
    }
}

/// Sum of the word lengths of `s`: its non-whitespace characters.
pub open spec fn spec_word_len_sum(s: Seq<char>) -> int {
    count_pred(s, s.len() as int, |c: char| !spec_is_word_space(c))
}

/// One-pass descriptive statistics of a text. All values are exact
/// counts; the average word length is `word_length_sum / word_count`
/// and the case percentages follow from `char_count_upper`,
/// `char_count_lower` and `char_count_alpha`.
#[derive(Debug, PartialEq)]
pub struct BasicStats {
    pub char_count_total: usize,
    pub char_count_alpha: usize,
    pub char_count_upper: usize,
    pub char_count_lower: usize,
    pub char_count_numeric: usize,
    pub char_count_whitespace: usize,
    pub char_count_punctuation: usize,
    pub char_count_other: usize,
    pub word_count: usize,
    pub min_word_length: usize,
    pub max_word_length: usize,
    pub word_length_sum: usize,
}

/// Compute the statistics of `text`; `None` for the empty text.
pub fn calculate_basic_stats(text: &str) -> (r: Option<BasicStats>)
    requires
        text@.len() < usize::MAX,
    ensures
        r is None <==> text@.len() == 0,
        r is Some ==> ({
            let s = text@;
            let st = r->Some_0;
            &&& st.char_count_total == s.len()
            &&& st.char_count_alpha == count_pred(s, s.len() as int, |c: char| spec_is_ascii_alpha(c))
            &&& st.char_count_upper == count_pred(s, s.len() as int, |c: char| spec_is_ascii_upper(c))
            &&& st.char_count_lower == count_pred(s, s.len() as int, |c: char| spec_is_ascii_lower(c))
            &&& st.char_count_numeric == count_pred(
                s,
                s.len() as int,
                |c: char| !spec_is_ascii_alpha(c) && spec_is_ascii_digit(c),
            )
            &&& st.char_count_whitespace == count_pred(
                s,
                s.len() as int,
                |c: char|
                    !spec_is_ascii_alpha(c) && !spec_is_ascii_digit(c) && spec_is_ascii_whitespace(
                        c,
                    ),
            )
            &&& st.char_count_punctuation == count_pred(
                s,
                s.len() as int,
                |c: char|
                    !spec_is_ascii_alpha(c) && !spec_is_ascii_digit(c)
                        && !spec_is_ascii_whitespace(c) && spec_is_ascii_punctuation(c),
            )
            &&& st.char_count_other == count_pred(
                s,
                s.len() as int,
                |c: char|
                    !spec_is_ascii_alpha(c) && !spec_is_ascii_digit(c)
                        && !spec_is_ascii_whitespace(c) && !spec_is_ascii_punctuation(c),
            )
            &&& st.word_count == spec_word_count(s)
            &&& st.min_word_length == spec_min_word_len(s)
            &&& st.max_word_length == spec_max_word_len(s)
            &&& st.word_length_sum == spec_word_len_sum(s)
        }),
{
    let total = text.unicode_len();
    if total == 0 {
        return Option::None;
    }
    let ghost s = text@;
    let ghost p_alpha = |c: char| spec_is_ascii_alpha(c);
    let ghost p_upper = |c: char| spec_is_ascii_upper(c);
    let ghost p_lower = |c: char| spec_is_ascii_lower(c);
    let ghost p_num = |c: char| !spec_is_ascii_alpha(c) && spec_is_ascii_digit(c);
    let ghost p_ws = |c: char|
        !spec_is_ascii_alpha(c) && !spec_is_ascii_digit(c) && spec_is_ascii_whitespace(c);
    let ghost p_punct = |c: char|
        !spec_is_ascii_alpha(c) && !spec_is_ascii_digit(c) && !spec_is_ascii_whitespace(c)
            && spec_is_ascii_punctuation(c);
    let ghost p_other = |c: char|
        !spec_is_ascii_alpha(c) && !spec_is_ascii_digit(c) && !spec_is_ascii_whitespace(c)
            && !spec_is_ascii_punctuation(c);
    let ghost p_nonspace = |c: char| !spec_is_word_space(c);
    let mut alpha: usize = 0;
    let mut upper: usize = 0;
    let mut lower: usize = 0;
    let mut numeric: usize = 0;
    let mut whitespace: usize = 0;
    let mut punct: usize = 0;
    let mut other: usize = 0;
    let mut wcount: usize = 0;
    let mut wmin: usize = usize::MAX;
    let mut wmax: usize = 0;
    let mut wsum: usize = 0;
    let mut cur: usize = 0;
    for c in it: text.chars()
        invariant
            it.seq() == s,
            s.len() < usize::MAX,
            p_alpha == |c: char| spec_is_ascii_alpha(c),
            p_upper == |c: char| spec_is_ascii_upper(c),
            p_lower == |c: char| spec_is_ascii_lower(c),
            p_num == |c: char| !spec_is_ascii_alpha(c) && spec_is_ascii_digit(c),
            p_ws == |c: char|
                !spec_is_ascii_alpha(c) && !spec_is_ascii_digit(c) && spec_is_ascii_whitespace(c),
            p_punct == |c: char|
                !spec_is_ascii_alpha(c) && !spec_is_ascii_digit(c) && !spec_is_ascii_whitespace(c)
                    && spec_is_ascii_punctuation(c),
            p_other == |c: char|
                !spec_is_ascii_alpha(c) && !spec_is_ascii_digit(c) && !spec_is_ascii_whitespace(c)
                    && !spec_is_ascii_punctuation(c),
            p_nonspace == |c: char| !spec_is_word_space(c),
            alpha == count_pred(s, it.index() as int, p_alpha),
            upper == count_pred(s, it.index() as int, p_upper),
            lower == count_pred(s, it.index() as int, p_lower),
            numeric == count_pred(s, it.index() as int, p_num),
            whitespace == count_pred(s, it.index() as int, p_ws),
            punct == count_pred(s, it.index() as int, p_punct),
            other == count_pred(s, it.index() as int, p_other),
            wsum == count_pred(s, it.index() as int, p_nonspace),
            cur == trailing_run(s, it.index() as int),
            wcount == words_done(s, it.index() as int),
            wmin == min_word_done(s, it.index() as int),
            wmax == max_word_done(s, it.index() as int),
            alpha <= it.index() && upper <= it.index() && lower <= it.index() && numeric
                <= it.index() && whitespace <= it.index() && punct <= it.index() && other
                <= it.index() && wsum <= it.index() && cur <= it.index() && wcount <= it.index()
                && wmax <= it.index(),
        decreases s.len() - it.index(),
    {
        proof {
            assert(s[it.index() as int] == c);
        }
        let u = c as u32;
        if (65 <= u && u <= 90) || (97 <= u && u <= 122) {
            alpha += 1;
            if u <= 90 {
                upper += 1;
            } else {
                lower += 1;
            }
        } else if 48 <= u && u <= 57 {
            numeric += 1;
        } else if u == 32 || u == 9 || u == 10 || u == 12 || u == 13 {
            whitespace += 1;
        } else if (33 <= u && u <= 47) || (58 <= u && u <= 64) || (91 <= u && u <= 96) || (123 <= u
            && u <= 126) {
            punct += 1;
        } else {
            other += 1;
        }
        let word_space = (9 <= u && u <= 13) || u == 32 || u == 0x85 || u == 0xA0 || u == 0x1680
            || (0x2000 <= u && u <= 0x200A) || u == 0x2028 || u == 0x2029 || u == 0x202F || u
            == 0x205F || u == 0x3000;
        if word_space {
            if cur > 0 {
                wcount += 1;
                if cur < wmin {
                    wmin = cur;
                }
                if cur > wmax {
                    wmax = cur;
                }
            }
            cur = 0;
        } else {
            cur += 1;
            wsum += 1;
        }
    }
    // Close the final word, if the text ended inside one.
    let mut word_count = wcount;
    let mut min_word = wmin;
    let mut max_word = wmax;
    if cur > 0 {
        word_count += 1;
        if cur < min_word {
            min_word = cur;
        }
        if cur > max_word {
            max_word = cur;
        }
    }
    if word_count == 0 {
        min_word = 0;
    }
    proof {
        assert(word_count == spec_word_count(s));
        assert(min_word == spec_min_word_len(s));
        assert(max_word == spec_max_word_len(s));
    }
    Option::Some(
        BasicStats {
            char_count_total: total,
            char_count_alpha: alpha,
            char_count_upper: upper,
            char_count_lower: lower,
            char_count_numeric: numeric,
            char_count_whitespace: whitespace,
            char_count_punctuation: punct,
            char_count_other: other,
            word_count,
            min_word_length: min_word,
            max_word_length: max_word,
            word_length_sum: wsum,
        },
    )
}

} // verus!
