//! The natural-language task parser: an ordered pipeline of extraction
//! rules over the input line. The context rule captures an "@word" tag;
//! three date rules ("tomorrow", "in N days", "next <weekday>") resolve
//! a scheduled instant at 09:00:00 UTC. Each rule removes what it
//! matched from the title; a date rule applied later overwrites the
//! timestamp of an earlier one (last match wins).
//!
//! Tokens and word boundaries go by the ASCII word-character class of
//! `crate::text`: a non-ASCII letter separates words rather than
//! joining them, where a Unicode-aware matcher would treat it as part
//! of the word.

use vstd::prelude::*;
use crate::text::is_word_char;
use crate::text::is_space_char;
use crate::text::is_digit_char;
use crate::text::eq_ci;
use crate::text::digit_val;
use crate::text::word_char;
use crate::text::digit_char;
use crate::text::char_eq_ci;
use crate::text::remove_span;
use crate::text::remove_char_span;
use crate::text::trim_spec;
use crate::text::is_trimmed;
use crate::text::trim;
use crate::text::to_chars;
use crate::dates::sched_ok;
use crate::dates::sched_val;
use crate::dates::resolve_sched;
use crate::dates::epoch_day_of;
use crate::dates::epoch_day;
use crate::dates::next_weekday_offset;
use crate::dates::weekday_of;
use crate::dates::weekday_of_day;
use crate::dates::lemma_next_weekday_offset;
use crate::sys::current_unix_time;

verus! {

// ---------------------------------------------------------------------
// Context rule: the first "@word" token.
// ---------------------------------------------------------------------

/// An "@word" token starts at `i`: an '@' immediately followed by at
/// least one word character.
pub open spec fn ctx_at(s: Seq<char>, i: int) -> bool {
    0 <= i && i + 1 < s.len() && s[i] == '@' && is_word_char(s[i + 1])
}

/// The first position at or after `i` where an "@word" token starts,
/// or the length if there is none.
pub open spec fn first_ctx_from(s: Seq<char>, i: int) -> int
    decreases s.len() - i when 0 <= i <= s.len()
{
    if i >= s.len() {
        i
    } else if ctx_at(s, i) {
        i
    } else {
        first_ctx_from(s, i + 1)
    }
}

/// The end (exclusive) of the run of word characters starting at `j`.
pub open spec fn word_end(s: Seq<char>, j: int) -> int
    decreases s.len() - j when 0 <= j <= s.len()
{
    if j < s.len() && is_word_char(s[j]) {
        word_end(s, j + 1)
    } else {
        j
    }
}

pub open spec fn has_ctx(s: Seq<char>) -> bool {
    first_ctx_from(s, 0) < s.len()
}

pub open spec fn ctx_start(s: Seq<char>) -> int {
    first_ctx_from(s, 0)
}

pub open spec fn ctx_end(s: Seq<char>) -> int {
    word_end(s, ctx_start(s) + 1)
}

/// The captured context word, verbatim.
pub open spec fn ctx_word(s: Seq<char>) -> Seq<char> {
    s.subrange(ctx_start(s) + 1, ctx_end(s))
}

proof fn lemma_first_ctx_from(s: Seq<char>, i: int)
    requires
        0 <= i <= s.len(),
    ensures
        i <= first_ctx_from(s, i) <= s.len(),
        first_ctx_from(s, i) < s.len() ==> ctx_at(s, first_ctx_from(s, i)),
        forall|k: int| i <= k < first_ctx_from(s, i) ==> !#[trigger] ctx_at(s, k),
    decreases s.len() - i,
{
    if i < s.len() && !ctx_at(s, i) {
        lemma_first_ctx_from(s, i + 1);
    }
}

proof fn lemma_word_end(s: Seq<char>, j: int)
    requires
        0 <= j <= s.len(),
    ensures
        j <= word_end(s, j) <= s.len(),
    decreases s.len() - j,
{
    if j < s.len() && is_word_char(s[j]) {
        lemma_word_end(s, j + 1);
    }
}

proof fn lemma_word_end_chars(s: Seq<char>, j: int)
    requires
        0 <= j <= s.len(),
    ensures
        j <= word_end(s, j) <= s.len(),
        forall|k: int| j <= k < word_end(s, j) ==> is_word_char(#[trigger] s[k]),
        word_end(s, j) < s.len() ==> !is_word_char(s[word_end(s, j)]),
    decreases s.len() - j,
{
    if j < s.len() && is_word_char(s[j]) {
        lemma_word_end_chars(s, j + 1);
    }
}

/// Find the first "@word" token: its '@' position and its end.
fn find_context(cs: &Vec<char>) -> (r: Option<(usize, usize)>)
    ensures
        match r {
            Some(p) => has_ctx(cs@) && p.0 == ctx_start(cs@) && p.1 == ctx_end(cs@),
            None => !has_ctx(cs@),
        },
{
    let n = cs.len();
    let mut i: usize = 0;
    while i < n
        invariant
            n == cs@.len(),
            0 <= i <= n,
            first_ctx_from(cs@, 0) == first_ctx_from(cs@, i as int),
        decreases n - i,
    {
        if cs[i] == '@' && i + 1 < n && word_char(cs[i + 1]) {
            proof {
                assert(ctx_at(cs@, i as int));
                assert(first_ctx_from(cs@, i as int) == i);
            }
            let mut j: usize = i + 1;
            while j < n && word_char(cs[j])
                invariant
                    n == cs@.len(),
                    i + 1 <= j <= n,
                    word_end(cs@, i + 1) == word_end(cs@, j as int),
                decreases n - j,
            {
                j += 1;
            }
            proof {
                assert(word_end(cs@, j as int) == j);
            }
            return Some((i, j));
        }
        proof {
            assert(!ctx_at(cs@, i as int));
        }
        i += 1;
    }
    None
}

// ---------------------------------------------------------------------
// Whole-word patterns, matched case-insensitively at word boundaries.
// ---------------------------------------------------------------------

/// Pattern `p` (written in lowercase) matches at `i`, delimited by word
/// boundaries on both sides.
pub open spec fn pat_at(s: Seq<char>, p: Seq<char>, i: int) -> bool {
    &&& 0 <= i
    &&& i + p.len() <= s.len()
    &&& (forall|k: int| 0 <= k < p.len() ==> eq_ci(#[trigger] s[i + k], p[k]))
    &&& (i == 0 || !is_word_char(s[i - 1]))
    &&& (i + p.len() == s.len() || !is_word_char(s[i + p.len()]))
}

/// The first position at or after `i` where `p` matches, or the length.
pub open spec fn first_pat_from(s: Seq<char>, p: Seq<char>, i: int) -> int
    decreases s.len() - i when 0 <= i <= s.len()
{
    if i >= s.len() {
        i
    } else if pat_at(s, p, i) {
        i
    } else {
        first_pat_from(s, p, i + 1)
    }
}

pub open spec fn has_pat(s: Seq<char>, p: Seq<char>) -> bool {
    first_pat_from(s, p, 0) < s.len()
}

proof fn lemma_first_pat_from(s: Seq<char>, p: Seq<char>, i: int)
    requires
        0 <= i <= s.len(),
    ensures
        i <= first_pat_from(s, p, i) <= s.len(),
        first_pat_from(s, p, i) < s.len() ==> pat_at(s, p, first_pat_from(s, p, i)),
    decreases s.len() - i,
{
    if i < s.len() && !pat_at(s, p, i) {
        lemma_first_pat_from(s, p, i + 1);
    }
}

/// Check whether `p` matches at position `i`.
fn match_pat_at(cs: &Vec<char>, p: &Vec<char>, i: usize) -> (r: bool)
    requires
        i <= cs@.len(),
    ensures
        r == pat_at(cs@, p@, i as int),
{
    let n = cs.len();
    let m = p.len();
    if m > n - i {
        return false;
    }
    if i > 0 && word_char(cs[i - 1]) {
        return false;
    }
    if i + m < n && word_char(cs[i + m]) {
        return false;
    }
    let mut k: usize = 0;
    while k < m
        invariant
            n == cs@.len(),
            m == p@.len(),
            i + m <= n,
            0 <= k <= m,
            forall|x: int| 0 <= x < k ==> eq_ci(#[trigger] cs@[i + x], p@[x]),
        decreases m - k,
    {
        if !char_eq_ci(cs[i + k], p[k]) {
            return false;
        }
        k += 1;
    }
    true
}

// ---------------------------------------------------------------------
// The "in N days" phrase.
// ---------------------------------------------------------------------

/// The end (exclusive) of the run of digits starting at `j`.
pub open spec fn digit_end(s: Seq<char>, j: int) -> int
    decreases s.len() - j when 0 <= j <= s.len()
{
    if j < s.len() && is_digit_char(s[j]) {
        digit_end(s, j + 1)
    } else {
        j
    }
}

/// After "in <digits> day", the phrase ends cleanly: an optional final
/// 's' (either case), then a word boundary.
pub open spec fn indays_tail_ok(s: Seq<char>, p: int) -> bool {
    if p < s.len() && (s[p] == 's' || s[p] == 'S') {
        p + 1 == s.len() || !is_word_char(s[p + 1])
    } else {
        p == s.len() || !is_word_char(s[p])
    }
}

/// The phrase "in <digits> day(s)" starts at `i`, delimited by word
/// boundaries, with single spaces around the digit run.
pub open spec fn indays_at(s: Seq<char>, i: int) -> bool {
    let n = s.len() as int;
    &&& 0 <= i
    &&& i + 3 < n
    &&& (i == 0 || !is_word_char(s[i - 1]))
    &&& eq_ci(s[i], 'i')
    &&& eq_ci(s[i + 1], 'n')
    &&& s[i + 2] == ' '
    &&& is_digit_char(s[i + 3])
    &&& digit_end(s, i + 3) + 3 < n
    &&& s[digit_end(s, i + 3)] == ' '
    &&& eq_ci(s[digit_end(s, i + 3) + 1], 'd')
    &&& eq_ci(s[digit_end(s, i + 3) + 2], 'a')
    &&& eq_ci(s[digit_end(s, i + 3) + 3], 'y')
    &&& indays_tail_ok(s, digit_end(s, i + 3) + 4)
}

/// The end (exclusive) of the phrase starting at `i`.
pub open spec fn indays_end(s: Seq<char>, i: int) -> int {
    let p = digit_end(s, i + 3) + 4;
    if p < s.len() && (s[p] == 's' || s[p] == 'S') {
        p + 1
    } else {
        p
    }
}

/// The captured digit run of the phrase starting at `i`.
pub open spec fn indays_digits(s: Seq<char>, i: int) -> Seq<char> {
    s.subrange(i + 3, digit_end(s, i + 3))
}

/// The first position at or after `i` where the phrase matches, or the
/// length if there is none.
pub open spec fn first_indays_from(s: Seq<char>, i: int) -> int
    decreases s.len() - i when 0 <= i <= s.len()
{
    if i >= s.len() {
        i
    } else if indays_at(s, i) {
        i
    } else {
        first_indays_from(s, i + 1)
    }
}

pub open spec fn has_indays(s: Seq<char>) -> bool {
    first_indays_from(s, 0) < s.len()
}

/// The decimal value of a digit run.
pub open spec fn digits_val(ds: Seq<char>) -> int
    decreases ds.len(),
{
    if ds.len() == 0 {
        0
    } else {
        digits_val(ds.drop_last()) * 10 + digit_val(ds.last())
    }
}

proof fn lemma_digit_end(s: Seq<char>, j: int)
    requires
        0 <= j <= s.len(),
    ensures
        j <= digit_end(s, j) <= s.len(),
    decreases s.len() - j,
{
    if j < s.len() && is_digit_char(s[j]) {
        lemma_digit_end(s, j + 1);
    }
}

proof fn lemma_digit_end_digits(s: Seq<char>, j: int)
    requires
        0 <= j <= s.len(),
    ensures
        forall|k: int| j <= k < digit_end(s, j) ==> is_digit_char(#[trigger] s[k]),
    decreases s.len() - j,
{
    lemma_digit_end(s, j);
    if j < s.len() && is_digit_char(s[j]) {
        lemma_digit_end_digits(s, j + 1);
    }
}

proof fn lemma_first_indays_from(s: Seq<char>, i: int)
    requires
        0 <= i <= s.len(),
    ensures
        i <= first_indays_from(s, i) <= s.len(),
        first_indays_from(s, i) < s.len() ==> indays_at(s, first_indays_from(s, i)),
    decreases s.len() - i,
{
    if i < s.len() && !indays_at(s, i) {
        lemma_first_indays_from(s, i + 1);
    }
}

proof fn lemma_digits_val_nonneg(ds: Seq<char>)
    ensures
        (forall|k: int| 0 <= k < ds.len() ==> is_digit_char(#[trigger] ds[k])) ==> digits_val(ds)
            >= 0,
    decreases ds.len(),
{
    if ds.len() > 0 {
        lemma_digits_val_nonneg(ds.drop_last());
    }
}

proof fn lemma_digits_val_prefix_le(s: Seq<char>, a: int, k: int, b: int)
    requires
        0 <= a <= k <= b <= s.len(),
        forall|x: int| a <= x < b ==> is_digit_char(#[trigger] s[x]),
    ensures
        digits_val(s.subrange(a, b)) >= digits_val(s.subrange(a, k)),
    decreases b - k,
{
    lemma_digits_val_nonneg(s.subrange(a, k));
    if k < b {
        assert(s.subrange(a, k + 1).drop_last() =~= s.subrange(a, k));
        assert(digits_val(s.subrange(a, k + 1)) == digits_val(s.subrange(a, k)) * 10 + digit_val(
            s[k],
        ));
        lemma_digits_val_prefix_le(s, a, k + 1, b);
    }
}

/// Scan the digit run starting at `j`.
fn scan_digits(cs: &Vec<char>, j: usize) -> (r: usize)
    requires
        j <= cs@.len(),
    ensures
        r == digit_end(cs@, j as int),
{
    let n = cs.len();
    let mut k: usize = j;
    while k < n && digit_char(cs[k])
        invariant
            n == cs@.len(),
            j <= k <= n,
            digit_end(cs@, j as int) == digit_end(cs@, k as int),
        decreases n - k,
    {
        k += 1;
    }
    k
}

/// Parse the digit run `cs[a..b]` as a nonnegative `i64`; `None` when
/// its value exceeds `i64::MAX`.
fn parse_digits(cs: &Vec<char>, a: usize, b: usize) -> (r: Option<i64>)
    requires
        a <= b <= cs@.len(),
        forall|x: int| a <= x < b ==> is_digit_char(#[trigger] cs@[x]),
    ensures
        match r {
            Some(v) => 0 <= v && v as int == digits_val(cs@.subrange(a as int, b as int)),
            None => digits_val(cs@.subrange(a as int, b as int)) > i64::MAX,
        },
{
    let mut acc: u64 = 0;
    let mut k: usize = a;
    while k < b
        invariant
            a <= k <= b <= cs@.len(),
            forall|x: int| a <= x < b ==> is_digit_char(#[trigger] cs@[x]),
            acc <= 9223372036854775807u64,
            acc as int == digits_val(cs@.subrange(a as int, k as int)),
        decreases b - k,
    {
        let c = cs[k];
        let d: u64 = (c as u32 - 48) as u64;
        proof {
            assert(is_digit_char(cs@[k as int]));
            assert(d <= 9);
            assert(cs@.subrange(a as int, k + 1).drop_last() =~= cs@.subrange(a as int, k as int));
        }
        if acc > (9223372036854775807u64 - d) / 10 {
            proof {
                assert(acc * 10 + d > 9223372036854775807) by {
                    let m: int = 9223372036854775807;
                    let q = (m - d) / 10int;
                    vstd::arithmetic::div_mod::lemma_fundamental_div_mod(m - d, 10);
                    assert(m - d == 10 * q + (m - d) % 10int);
                    vstd::arithmetic::div_mod::lemma_mod_bound(m - d, 10);
                    assert(acc >= q + 1);
                }
                assert(digits_val(cs@.subrange(a as int, k + 1)) > i64::MAX);
                lemma_digits_val_prefix_le(cs@, a as int, k + 1, b as int);
            }
            return None;
        }
        proof {
            assert(acc * 10 + d <= 9223372036854775807) by {
                let m: int = 9223372036854775807;
                let q = (m - d) / 10int;
                vstd::arithmetic::div_mod::lemma_fundamental_div_mod(m - d, 10);
                vstd::arithmetic::div_mod::lemma_mod_bound(m - d, 10);
                assert(acc <= q);
            }
        }
        acc = acc * 10 + d;
        k += 1;
    }
    Some(acc as i64)
}

/// Find the first boundary-delimited match of `p`.
fn find_pat(cs: &Vec<char>, p: &Vec<char>) -> (r: Option<usize>)
    ensures
        match r {
            Some(i) => has_pat(cs@, p@) && i == first_pat_from(cs@, p@, 0),
            None => !has_pat(cs@, p@),
        },
{
    let n = cs.len();
    let mut i: usize = 0;
    while i < n
        invariant
            n == cs@.len(),
            0 <= i <= n,
            first_pat_from(cs@, p@, 0) == first_pat_from(cs@, p@, i as int),
        decreases n - i,
    {
        if match_pat_at(cs, p, i) {
            proof {
                assert(first_pat_from(cs@, p@, i as int) == i);
            }
            return Some(i);
        }
        i += 1;
    }
    None
}

/// Check whether the "in N days" phrase starts at `i`.
fn indays_check_at(cs: &Vec<char>, i: usize) -> (r: bool)
    requires
        i <= cs@.len(),
    ensures
        r == indays_at(cs@, i as int),
{
    let n = cs.len();
    if n < 4 || i >= n - 3 {
        return false;
    }
    if i > 0 && word_char(cs[i - 1]) {
        return false;
    }
    if !char_eq_ci(cs[i], 'i') || !char_eq_ci(cs[i + 1], 'n') || cs[i + 2] != ' ' {
        return false;
    }
    if !digit_char(cs[i + 3]) {
        return false;
    }
    let de = scan_digits(cs, i + 3);
    proof {
        lemma_digit_end(cs@, i + 3);
    }
    if n - de < 4 {
        return false;
    }
    if cs[de] != ' ' {
        return false;
    }
    if !char_eq_ci(cs[de + 1], 'd') || !char_eq_ci(cs[de + 2], 'a') || !char_eq_ci(
        cs[de + 3],
        'y',
    ) {
        return false;
    }
    let p = de + 4;
    if p < n && (cs[p] == 's' || cs[p] == 'S') {
        !(p + 1 < n && word_char(cs[p + 1]))
    } else {
        !(p < n && word_char(cs[p]))
    }
}

/// Find the first match of the "in N days" phrase.
fn find_indays(cs: &Vec<char>) -> (r: Option<usize>)
    ensures
        match r {
            Some(i) => has_indays(cs@) && i == first_indays_from(cs@, 0),
            None => !has_indays(cs@),
        },
{
    let n = cs.len();
    let mut i: usize = 0;
    while i < n
        invariant
            n == cs@.len(),
            0 <= i <= n,
            first_indays_from(cs@, 0) == first_indays_from(cs@, i as int),
        decreases n - i,
    {
        if indays_check_at(cs, i) {
            proof {
                assert(first_indays_from(cs@, i as int) == i);
            }
            return Some(i);
        }
        i += 1;
    }
    None
}

// ---------------------------------------------------------------------
// The four pipeline stages, as value and residual-title functions.
// ---------------------------------------------------------------------

/// Context value: the word of the first "@word" token, if any.
pub open spec fn ctx_stage_val(s: Seq<char>) -> Option<Seq<char>> {
    if has_ctx(s) {
        Some(ctx_word(s))
    } else {
        None
    }
}

/// Title after the context rule: the first "@word" token removed.
pub open spec fn ctx_stage_res(s: Seq<char>) -> Seq<char> {
    if has_ctx(s) {
        remove_span(s, ctx_start(s), ctx_end(s))
    } else {
        s
    }
}

pub open spec fn tomorrow_pat() -> Seq<char> {
    seq!['t', 'o', 'm', 'o', 'r', 'r', 'o', 'w']
}

/// The "tomorrow" rule fires: the word occurs and one day ahead of `t`
/// resolves to a representable instant.
pub open spec fn tomorrow_fires(s: Seq<char>, t: int) -> bool {
    has_pat(s, tomorrow_pat()) && sched_ok(t, 1)
}

pub open spec fn tomorrow_stage_val(s: Seq<char>, t: int) -> Option<int> {
    if tomorrow_fires(s, t) {
        Some(sched_val(t, 1))
    } else {
        None
    }
}

pub open spec fn tomorrow_stage_res(s: Seq<char>, t: int) -> Seq<char> {
    if tomorrow_fires(s, t) {
        remove_span(s, first_pat_from(s, tomorrow_pat(), 0), first_pat_from(s, tomorrow_pat(), 0) + 8)
    } else {
        s
    }
}

/// The day count captured by the first "in N days" phrase.
pub open spec fn indays_n(s: Seq<char>) -> int {
    digits_val(indays_digits(s, first_indays_from(s, 0)))
}

/// The "in N days" rule fires: the phrase occurs, its count parses as an
/// `i64`, and `N` days ahead of `t` resolves.
pub open spec fn indays_fires(s: Seq<char>, t: int) -> bool {
    has_indays(s) && indays_n(s) <= i64::MAX && sched_ok(t, indays_n(s))
}

pub open spec fn indays_stage_val(s: Seq<char>, t: int) -> Option<int> {
    if indays_fires(s, t) {
        Some(sched_val(t, indays_n(s)))
    } else {
        None
    }
}

pub open spec fn indays_stage_res(s: Seq<char>, t: int) -> Seq<char> {
    if indays_fires(s, t) {
        remove_span(s, first_indays_from(s, 0), indays_end(s, first_indays_from(s, 0)))
    } else {
        s
    }
}

/// The name of weekday `w` (Monday = 0 through Sunday = 6).
pub open spec fn weekday_name(w: int) -> Seq<char> {
    if w == 0 {
        seq!['m', 'o', 'n', 'd', 'a', 'y']
    } else if w == 1 {
        seq!['t', 'u', 'e', 's', 'd', 'a', 'y']
    } else if w == 2 {
        seq!['w', 'e', 'd', 'n', 'e', 's', 'd', 'a', 'y']
    } else if w == 3 {
        seq!['t', 'h', 'u', 'r', 's', 'd', 'a', 'y']
    } else if w == 4 {
        seq!['f', 'r', 'i', 'd', 'a', 'y']
    } else if w == 5 {
        seq!['s', 'a', 't', 'u', 'r', 'd', 'a', 'y']
    } else {
        seq!['s', 'u', 'n', 'd', 'a', 'y']
    }
}

/// The phrase "next <weekday name>".
pub open spec fn next_pat(w: int) -> Seq<char> {
    seq!['n', 'e', 'x', 't', ' '] + weekday_name(w)
}

/// The first weekday, in enumeration order Monday through Sunday at or
/// after `w`, whose "next <weekday>" phrase occurs in `s`; 7 if none.
pub open spec fn wd_from(s: Seq<char>, w: int) -> int
    decreases 7 - w when 0 <= w <= 7
{
    if w >= 7 {
        7
    } else if has_pat(s, next_pat(w)) {
        w
    } else {
        wd_from(s, w + 1)
    }
}

pub open spec fn weekday_found(s: Seq<char>) -> bool {
    wd_from(s, 0) < 7
}

proof fn lemma_wd_from(s: Seq<char>, w: int)
    requires
        0 <= w <= 7,
    ensures
        w <= wd_from(s, w) <= 7,
        wd_from(s, w) < 7 ==> has_pat(s, next_pat(wd_from(s, w))),
    decreases 7 - w,
{
    if w < 7 && !has_pat(s, next_pat(w)) {
        lemma_wd_from(s, w + 1);
    }
}

pub open spec fn weekday_w(s: Seq<char>) -> int {
    wd_from(s, 0)
}

/// Days ahead of `t` that "next <the found weekday>" resolves to.
pub open spec fn weekday_off(s: Seq<char>, t: int) -> int {
    next_weekday_offset(epoch_day_of(t), weekday_w(s))
}

/// The next-weekday rule fires: some "next <weekday>" phrase occurs,
/// `t` is at or after the epoch, and the scanned day resolves.
pub open spec fn weekday_fires(s: Seq<char>, t: int) -> bool {
    weekday_found(s) && 0 <= t && sched_ok(t, weekday_off(s, t))
}

pub open spec fn weekday_stage_val(s: Seq<char>, t: int) -> Option<int> {
    if weekday_fires(s, t) {
        Some(sched_val(t, weekday_off(s, t)))
    } else {
        None
    }
}

pub open spec fn weekday_stage_res(s: Seq<char>, t: int) -> Seq<char> {
    if weekday_fires(s, t) {
        remove_span(
            s,
            first_pat_from(s, next_pat(weekday_w(s)), 0),
            first_pat_from(s, next_pat(weekday_w(s)), 0) + next_pat(weekday_w(s)).len(),
        )
    } else {
        s
    }
}

// ---------------------------------------------------------------------
// The composed pipeline.
// ---------------------------------------------------------------------

pub open spec fn title_after_ctx(s: Seq<char>) -> Seq<char> {
    ctx_stage_res(trim_spec(s))
}

pub open spec fn title_after_tomorrow(s: Seq<char>, t: int) -> Seq<char> {
    tomorrow_stage_res(title_after_ctx(s), t)
}

pub open spec fn title_after_indays(s: Seq<char>, t: int) -> Seq<char> {
    indays_stage_res(title_after_tomorrow(s, t), t)
}

/// The final title: the trimmed input with every applied rule's span
/// removed, whitespace collapsed at each cut.
pub open spec fn parse_title(s: Seq<char>, t: int) -> Seq<char> {
    weekday_stage_res(title_after_indays(s, t), t)
}

/// The extracted context, from the trimmed input.
pub open spec fn parse_context(s: Seq<char>) -> Option<Seq<char>> {
    ctx_stage_val(trim_spec(s))
}

/// The extracted schedule: of the date rules that fire (each on the
/// residual title its predecessors left), the one applied last wins.
pub open spec fn parse_sched(s: Seq<char>, t: int) -> Option<int> {
    if weekday_fires(title_after_indays(s, t), t) {
        weekday_stage_val(title_after_indays(s, t), t)
    } else if indays_fires(title_after_tomorrow(s, t), t) {
        indays_stage_val(title_after_tomorrow(s, t), t)
    } else if tomorrow_fires(title_after_ctx(s), t) {
        tomorrow_stage_val(title_after_ctx(s), t)
    } else {
        None
    }
}

/// What one capture line parses to: the cleaned title, an optional
/// schedule, and an optional context tag.
pub struct ParsedTask {
    pub title: String,
    pub scheduled_for: Option<i64>,
    pub context: Option<String>,
}

// ---------------------------------------------------------------------
// Executable rules.
// ---------------------------------------------------------------------

/// Apply the context rule: capture and remove the first "@word" token.
fn context_rule(s: &str) -> (r: (Option<String>, String))
    ensures
        match r.0 {
            Some(w) => ctx_stage_val(s@) == Some(w@),
            None => ctx_stage_val(s@) is None,
        },
        r.1@ == ctx_stage_res(s@),
{
    let cs = to_chars(s);
    match find_context(&cs) {
        Some((i, j)) => {
            proof {
                lemma_first_ctx_from(s@, 0);
                lemma_word_end(s@, i + 1);
            }
            let word = String::from_str(s.substring_char(i + 1, j));
            let rest = remove_char_span(s, i, j);
            (Some(word), rest)
        },
        None => (None, s.to_owned()),
    }
}

/// Apply the "tomorrow" rule to the residual title.
fn tomorrow_rule(s: &str, t: i64) -> (r: (Option<i64>, String))
    ensures
        match r.0 {
            Some(v) => tomorrow_stage_val(s@, t as int) == Some(v as int),
            None => tomorrow_stage_val(s@, t as int) is None,
        },
        r.1@ == tomorrow_stage_res(s@, t as int),
{
    let cs = to_chars(s);
    let pv: Vec<char> = vec!['t', 'o', 'm', 'o', 'r', 'r', 'o', 'w'];
    proof {
        assert(pv@ =~= tomorrow_pat());
    }
    match find_pat(&cs, &pv) {
        Some(i) => {
            proof {
                lemma_first_pat_from(s@, tomorrow_pat(), 0);
            }
            match resolve_sched(t, 1) {
                Some(v) => {
                    let rest = remove_char_span(s, i, i + 8);
                    (Some(v), rest)
                },
                None => (None, s.to_owned()),
            }
        },
        None => (None, s.to_owned()),
    }
}

/// Apply the "in N days" rule to the residual title.
fn indays_rule(s: &str, t: i64) -> (r: (Option<i64>, String))
    ensures
        match r.0 {
            Some(v) => indays_stage_val(s@, t as int) == Some(v as int),
            None => indays_stage_val(s@, t as int) is None,
        },
        r.1@ == indays_stage_res(s@, t as int),
{
    let cs = to_chars(s);
    match find_indays(&cs) {
        Some(i) => {
            proof {
                lemma_first_indays_from(s@, 0);
                lemma_digit_end(s@, i + 3);
                lemma_digit_end_digits(s@, i + 3);
            }
            let de = scan_digits(&cs, i + 3);
            proof {
                assert(indays_at(cs@, i as int));
                assert(de + 3 < cs@.len());
            }
            match parse_digits(&cs, i + 3, de) {
                Some(n_days) => {
                    match resolve_sched(t, n_days) {
                        Some(v) => {
                            let e = if de + 4 < cs.len() && (cs[de + 4] == 's' || cs[de + 4]
                                == 'S') {
                                de + 5
                            } else {
                                de + 4
                            };
                            proof {
                                assert(e == indays_end(s@, i as int));
                            }
                            let rest = remove_char_span(s, i, e);
                            (Some(v), rest)
                        },
                        None => (None, s.to_owned()),
                    }
                },
                None => (None, s.to_owned()),
            }
        },
        None => (None, s.to_owned()),
    }
}

/// The characters of "next <weekday name>" for weekday `w`.
fn next_pat_vec(w: u8) -> (r: Vec<char>)
    requires
        w < 7,
    ensures
        r@ == next_pat(w as int),
{
    let r: Vec<char> = if w == 0 {
        vec!['n', 'e', 'x', 't', ' ', 'm', 'o', 'n', 'd', 'a', 'y']
    } else if w == 1 {
        vec!['n', 'e', 'x', 't', ' ', 't', 'u', 'e', 's', 'd', 'a', 'y']
    } else if w == 2 {
        vec!['n', 'e', 'x', 't', ' ', 'w', 'e', 'd', 'n', 'e', 's', 'd', 'a', 'y']
    } else if w == 3 {
        vec!['n', 'e', 'x', 't', ' ', 't', 'h', 'u', 'r', 's', 'd', 'a', 'y']
    } else if w == 4 {
        vec!['n', 'e', 'x', 't', ' ', 'f', 'r', 'i', 'd', 'a', 'y']
    } else if w == 5 {
        vec!['n', 'e', 'x', 't', ' ', 's', 'a', 't', 'u', 'r', 'd', 'a', 'y']
    } else {
        vec!['n', 'e', 'x', 't', ' ', 's', 'u', 'n', 'd', 'a', 'y']
    };
    proof {
        assert(r@ =~= next_pat(w as int));
    }
    r
}

/// Find the first weekday (in Monday-through-Sunday order) whose
/// "next <weekday>" phrase occurs; its match position and span end.
fn find_weekday(cs: &Vec<char>) -> (r: Option<(u8, usize, usize)>)
    ensures
        match r {
            Some(f) => {
                &&& weekday_found(cs@)
                &&& f.0 == weekday_w(cs@)
                &&& f.1 == first_pat_from(cs@, next_pat(f.0 as int), 0)
                &&& f.2 == f.1 + next_pat(f.0 as int).len()
            },
            None => !weekday_found(cs@),
        },
{
    let n = cs.len();
    let mut w: u8 = 0;
    while w < 7
        invariant
            n == cs@.len(),
            0 <= w <= 7,
            wd_from(cs@, 0) == wd_from(cs@, w as int),
        decreases 7 - w,
    {
        let pv = next_pat_vec(w);
        match find_pat(cs, &pv) {
            Some(i) => {
                proof {
                    assert(wd_from(cs@, w as int) == w);
                    lemma_first_pat_from(cs@, pv@, 0);
                    assert(i + pv@.len() <= cs@.len());
                }
                return Some((w, i, i + pv.len()));
            },
            None => {
            },
        }
        w += 1;
    }
    None
}

/// Apply the next-weekday rule to the residual title.
fn weekday_rule(s: &str, t: i64) -> (r: (Option<i64>, String))
    ensures
        match r.0 {
            Some(v) => weekday_stage_val(s@, t as int) == Some(v as int),
            None => weekday_stage_val(s@, t as int) is None,
        },
        r.1@ == weekday_stage_res(s@, t as int),
{
    let cs = to_chars(s);
    match find_weekday(&cs) {
        Some((w, i, e)) => {
            proof {
                lemma_wd_from(s@, 0);
                lemma_first_pat_from(s@, next_pat(w as int), 0);
                assert(pat_at(s@, next_pat(w as int), i as int));
                assert(e <= s@.len());
            }
            if t < 0 {
                return (None, s.to_owned());
            }
            let day = epoch_day(t);
            proof {
                lemma_next_weekday_offset(day as int, w as int);
            }
            let ghost off = next_weekday_offset(day as int, w as int);
            let mut k: i64 = 1;
            while weekday_of(day + k) != w
                invariant
                    0 <= day == epoch_day_of(t as int),
                    0 <= w < 7,
                    off == next_weekday_offset(day as int, w as int),
                    1 <= off <= 7,
                    weekday_of_day(day + off) == w,
                    forall|j: int| 1 <= j < off ==> #[trigger] weekday_of_day(day + j) != w,
                    1 <= k <= off,
                decreases off - k,
            {
                k += 1;
            }
            proof {
                assert(k == off);
            }
            match resolve_sched(t, k) {
                Some(v) => {
                    let rest = remove_char_span(s, i, e);
                    (Some(v), rest)
                },
                None => (None, s.to_owned()),
            }
        },
        None => (None, s.to_owned()),
    }
}

/// Parse one capture line against reference time `t` (seconds since the
/// epoch): apply the context rule and the three date rules in order,
/// each to the residual title the previous rule left.
pub fn parse_task_input_at(input: &str, t: i64) -> (r: ParsedTask)
    ensures
        r.title@ == parse_title(input@, t as int),
        match r.context {
            Some(c) => parse_context(input@) == Some(c@),
            None => parse_context(input@) is None,
        },
        match r.scheduled_for {
            Some(v) => parse_sched(input@, t as int) == Some(v as int),
            None => parse_sched(input@, t as int) is None,
        },
{
    let t0 = trim(input);
    let (context, t1) = context_rule(t0.as_str());
    let (v2, t2) = tomorrow_rule(t1.as_str(), t);
    let (v3, t3) = indays_rule(t2.as_str(), t);
    let (v4, t4) = weekday_rule(t3.as_str(), t);
    let scheduled_for = if v4.is_some() {
        v4
    } else if v3.is_some() {
        v3
    } else {
        v2
    };
    ParsedTask { title: t4, scheduled_for, context }
}

// ---------------------------------------------------------------------
// Laws of the pipeline.
// ---------------------------------------------------------------------

/// Law: an input whose trimmed form holds exactly one "@word" token
/// parses to that token's word as the context, verbatim, and the
/// residual title is the trimmed input with the token's span removed
/// and the whitespace around the cut collapsed.
pub proof fn lemma_single_context_extracted(s: Seq<char>, i: int)
    requires
        ctx_at(trim_spec(s), i),
        forall|j: int| #[trigger] ctx_at(trim_spec(s), j) ==> j == i,
    ensures
        parse_context(s) == Some(trim_spec(s).subrange(i + 1, word_end(trim_spec(s), i + 1))),
        title_after_ctx(s) == remove_span(trim_spec(s), i, word_end(trim_spec(s), i + 1)),
{
    let s0 = trim_spec(s);
    lemma_first_ctx_from(s0, 0);
    assert(first_ctx_from(s0, 0) == i);
}

/// Law (the context rule is idempotent on its own residual): removing
/// the only "@word" token leaves a title in which the rule matches
/// nothing, and a trimmed title stays trimmed.
pub proof fn lemma_context_removal_leaves_no_token(s: Seq<char>, i: int)
    requires
        ctx_at(s, i),
        forall|j: int| #[trigger] ctx_at(s, j) ==> j == i,
    ensures
        !has_ctx(remove_span(s, i, word_end(s, i + 1))),
        is_trimmed(s) ==> is_trimmed(remove_span(s, i, word_end(s, i + 1))),
{
    let n = s.len() as int;
    let j = word_end(s, i + 1);
    lemma_word_end_chars(s, i + 1);
    let r = remove_span(s, i, j);
    let b = s.subrange(0, i);
    let a = s.subrange(j, n);
    let seam = (b.len() > 0 && is_space_char(b[b.len() - 1])) || (a.len() > 0 && is_space_char(
        a[0],
    ));
    assert forall|p: int| 0 <= p < r.len() implies !ctx_at(r, p) by {
        if ctx_at(r, p) {
            if !seam {
                assert(r == b + a);
                if p <= i - 2 {
                    assert(r[p] == s[p] && r[p + 1] == s[p + 1]);
                    assert(ctx_at(s, p));
                } else if p == i - 1 {
                    assert(r[p + 1] == a[0]);
                    assert(a[0] == s[j]);
                    assert(!is_word_char(s[j]));
                } else {
                    let q = p - i + j;
                    assert(r[p] == a[p - i]);
                    assert(a[p - i] == s[q]);
                    assert(r[p + 1] == a[p + 1 - i]);
                    assert(a[p + 1 - i] == s[q + 1]);
                    assert(ctx_at(s, q));
                }
            } else {
                let bt_end = crate::text::last_non_space_end(b, i);
                let at_off = crate::text::first_non_space(a, 0);
                crate::text::lemma_last_non_space_end(b, i);
                crate::text::lemma_first_non_space(a, 0);
                let bt = b.subrange(0, bt_end);
                let at = a.subrange(at_off, a.len() as int);
                if bt.len() == 0 {
                    assert(r == at);
                    let q = j + at_off + p;
                    assert(r[p] == s[q] && r[p + 1] == s[q + 1]);
                    assert(ctx_at(s, q));
                } else if at.len() == 0 {
                    assert(r == bt);
                    assert(p + 1 <= bt_end - 1);
                    assert(r[p] == s[p] && r[p + 1] == s[p + 1]);
                    assert(ctx_at(s, p));
                } else {
                    assert(r == bt + seq![' '] + at);
                    if p <= bt_end - 2 {
                        assert(r[p] == s[p] && r[p + 1] == s[p + 1]);
                        assert(ctx_at(s, p));
                    } else if p == bt_end - 1 {
                        assert(r[p + 1] == ' ');
                    } else if p == bt_end {
                        assert(r[p] == ' ');
                    } else {
                        let q = j + at_off + (p - bt_end - 1);
                        assert(r[p] == at[p - bt_end - 1]);
                        assert(at[p - bt_end - 1] == s[q]);
                        assert(r[p + 1] == at[p - bt_end]);
                        assert(at[p - bt_end] == s[q + 1]);
                        assert(ctx_at(s, q));
                    }
                }
            }
            assert(false);
        }
    }
    lemma_first_ctx_from(r, 0);
    if has_ctx(r) {
        assert(ctx_at(r, first_ctx_from(r, 0)));
    }
    if is_trimmed(s) && r.len() > 0 {
        if !seam {
            assert(r == b + a);
            if i > 0 {
                assert(r[0] == s[0]);
            } else {
                assert(r[0] == a[0]);
            }
            if a.len() > 0 {
                assert(r[r.len() - 1] == s[n - 1]);
            } else {
                assert(r[r.len() - 1] == b[b.len() - 1]);
            }
        } else {
            let bt_end = crate::text::last_non_space_end(b, i);
            let at_off = crate::text::first_non_space(a, 0);
            crate::text::lemma_last_non_space_end(b, i);
            crate::text::lemma_first_non_space(a, 0);
            let bt = b.subrange(0, bt_end);
            let at = a.subrange(at_off, a.len() as int);
            if bt.len() > 0 {
                assert(r[0] == s[0]);
            } else {
                assert(r[0] == a[at_off]);
            }
            if at.len() > 0 {
                assert(r[r.len() - 1] == s[n - 1]);
            } else {
                assert(r[r.len() - 1] == b[bt_end - 1]);
            }
        }
    }
}

/// A lowercase ASCII letter, the only kind of character the fixed word
/// patterns are written in.
pub open spec fn is_lower_letter(c: char) -> bool {
    97 <= c as u32 && c as u32 <= 122
}

/// Law (idempotence for a word rule): removing the only boundary-
/// delimited occurrence of a letters-only pattern leaves a title in
/// which the pattern no longer occurs. (The "tomorrow" rule's word is
/// such a pattern; the span's removal cannot splice a new occurrence
/// together, as a collapsed cut contributes a space and an uncollapsed
/// cut borders a non-word character. No such law holds for the
/// phrases that contain a space — "in N days" and "next <weekday>" —
/// since a collapsed cut between their halves can splice a fresh
/// occurrence: removing "next monday" from "in 3 next monday days"
/// leaves "in 3 days".)
pub proof fn lemma_word_removal_leaves_no_match(s: Seq<char>, p: Seq<char>, f: int)
    requires
        pat_at(s, p, f),
        forall|g: int| #[trigger] pat_at(s, p, g) ==> g == f,
        1 <= p.len(),
        forall|k: int| 0 <= k < p.len() ==> is_lower_letter(#[trigger] p[k]),
    ensures
        !has_pat(remove_span(s, f, f + p.len()), p),
{
    let n = s.len() as int;
    let m = p.len() as int;
    let j = f + m;
    let r = remove_span(s, f, j);
    let b = s.subrange(0, f);
    let a = s.subrange(j, n);
    let seam = (b.len() > 0 && is_space_char(b[b.len() - 1])) || (a.len() > 0 && is_space_char(
        a[0],
    ));
    assert forall|q: int| 0 <= q < r.len() implies !pat_at(r, p, q) by {
        if pat_at(r, p, q) {
            assert forall|x: int| q <= x < q + m implies is_word_char(#[trigger] r[x]) by {
                let k = x - q;
                assert(eq_ci(r[q + k], p[k]));
                assert(is_lower_letter(p[k]));
            }
            assert(is_word_char(r[q]));
            assert(is_word_char(r[q + m - 1]));
            if !seam {
                assert(r == b + a);
                if q + m <= f {
                    assert forall|k: int| 0 <= k < m implies eq_ci(#[trigger] s[q + k], p[k]) by {
                        assert(r[q + k] == s[q + k]);
                    }
                    if q + m == f {
                        assert(!is_word_char(s[f - 1]));
                        assert(r[q + m - 1] == s[f - 1]);
                    } else {
                        assert(r[q + m] == s[q + m]);
                        assert(q > 0 ==> r[q - 1] == s[q - 1]);
                        assert(pat_at(s, p, q));
                    }
                } else if q >= f {
                    if q == f {
                        assert(r[q] == a[0]);
                        assert(a[0] == s[j]);
                        assert(!is_word_char(s[j]));
                    } else {
                        let q2 = q - f + j;
                        assert forall|k: int| 0 <= k < m implies eq_ci(
                            #[trigger] s[q2 + k],
                            p[k],
                        ) by {
                            assert(r[q + k] == a[q + k - f]);
                            assert(a[q + k - f] == s[q2 + k]);
                        }
                        assert(r[q - 1] == a[q - 1 - f]);
                        assert(a[q - 1 - f] == s[q2 - 1]);
                        assert(q + m < r.len() ==> r[q + m] == s[q2 + m]);
                        assert(q + m == r.len() ==> q2 + m == n);
                        assert(pat_at(s, p, q2));
                    }
                } else {
                    assert(q < f < q + m);
                    assert(r[f] == a[0]);
                    assert(a[0] == s[j]);
                    assert(!is_word_char(s[j]));
                }
            } else {
                let bt_end = crate::text::last_non_space_end(b, f);
                let at_off = crate::text::first_non_space(a, 0);
                crate::text::lemma_last_non_space_end(b, f);
                crate::text::lemma_first_non_space(a, 0);
                let bt = b.subrange(0, bt_end);
                let at = a.subrange(at_off, a.len() as int);
                let at_start = j + at_off;
                if bt.len() == 0 {
                    assert(r == at);
                    let q2 = at_start + q;
                    if q == 0 && at_off == 0 {
                        assert(r[0] == s[j]);
                        assert(!is_word_char(s[j]));
                    } else {
                        assert forall|k: int| 0 <= k < m implies eq_ci(
                            #[trigger] s[q2 + k],
                            p[k],
                        ) by {
                            assert(r[q + k] == s[q2 + k]);
                        }
                        if q == 0 {
                            assert(is_space_char(a[at_off - 1]));
                            assert(s[q2 - 1] == a[at_off - 1]);
                        } else {
                            assert(r[q - 1] == s[q2 - 1]);
                        }
                        assert(q + m < r.len() ==> r[q + m] == s[q2 + m]);
                        assert(q + m == r.len() ==> q2 + m == n);
                        assert(pat_at(s, p, q2));
                        assert(q2 >= j > f);
                    }
                } else if at.len() == 0 {
                    assert(r == bt);
                    assert(q + m <= bt_end);
                    assert forall|k: int| 0 <= k < m implies eq_ci(#[trigger] s[q + k], p[k]) by {
                        assert(r[q + k] == s[q + k]);
                    }
                    if q + m == bt_end && bt_end == f {
                        assert(!is_word_char(s[f - 1]));
                        assert(r[q + m - 1] == s[f - 1]);
                    } else {
                        if q + m == bt_end {
                            assert(is_space_char(b[bt_end]));
                            assert(b[bt_end] == s[bt_end]);
                        } else {
                            assert(r[q + m] == s[q + m]);
                        }
                        assert(q > 0 ==> r[q - 1] == s[q - 1]);
                        assert(pat_at(s, p, q));
                    }
                } else {
                    assert(r == bt + seq![' '] + at);
                    if q + m <= bt_end {
                        assert forall|k: int| 0 <= k < m implies eq_ci(
                            #[trigger] s[q + k],
                            p[k],
                        ) by {
                            assert(r[q + k] == s[q + k]);
                        }
                        if q + m == bt_end && bt_end == f {
                            assert(!is_word_char(s[f - 1]));
                            assert(r[q + m - 1] == s[f - 1]);
                        } else {
                            if q + m == bt_end {
                                assert(is_space_char(b[bt_end]));
                                assert(b[bt_end] == s[bt_end]);
                            } else {
                                assert(r[q + m] == s[q + m]);
                            }
                            assert(q > 0 ==> r[q - 1] == s[q - 1]);
                            assert(pat_at(s, p, q));
                        }
                    } else if q <= bt_end {
                        assert(q <= bt_end < q + m);
                        assert(r[bt_end] == ' ');
                        assert(is_word_char(r[bt_end]));
                    } else {
                        let q2 = at_start + (q - bt_end - 1);
                        if q == bt_end + 1 && at_off == 0 {
                            assert(r[q] == at[0]);
                            assert(at[0] == s[j]);
                            assert(!is_word_char(s[j]));
                        } else {
                            assert forall|k: int| 0 <= k < m implies eq_ci(
                                #[trigger] s[q2 + k],
                                p[k],
                            ) by {
                                assert(r[q + k] == at[q + k - bt_end - 1]);
                                assert(at[q + k - bt_end - 1] == s[q2 + k]);
                            }
                            if q == bt_end + 1 {
                                assert(is_space_char(a[at_off - 1]));
                                assert(s[q2 - 1] == a[at_off - 1]);
                            } else {
                                assert(r[q - 1] == at[q - 1 - bt_end - 1]);
                                assert(at[q - 1 - bt_end - 1] == s[q2 - 1]);
                            }
                            if q + m < r.len() {
                                assert(r[q + m] == at[q + m - bt_end - 1]);
                                assert(at[q + m - bt_end - 1] == s[q2 + m]);
                            } else {
                                assert(q2 + m == n);
                            }
                            assert(pat_at(s, p, q2));
                            assert(q2 >= j > f);
                        }
                    }
                }
            }
            assert(false);
        }
    }
    lemma_first_pat_from(r, p, 0);
    if has_pat(r, p) {
        assert(pat_at(r, p, first_pat_from(r, p, 0)));
    }
}

/// Law (idempotence, the "tomorrow" half): when the title reaching the
/// tomorrow rule holds exactly one occurrence of its word, the
/// residual title the rule leaves holds none, so re-parsing it cannot
/// derive a schedule from this rule again.
pub proof fn lemma_tomorrow_removal_idempotent(s1: Seq<char>, t: int)
    requires
        tomorrow_fires(s1, t),
        forall|g: int| #[trigger] pat_at(s1, tomorrow_pat(), g) ==> g == first_pat_from(
            s1,
            tomorrow_pat(),
            0,
        ),
    ensures
        !has_pat(tomorrow_stage_res(s1, t), tomorrow_pat()),
{
    let p = tomorrow_pat();
    let f = first_pat_from(s1, p, 0);
    lemma_first_pat_from(s1, p, 0);
    assert forall|k: int| 0 <= k < p.len() implies is_lower_letter(#[trigger] p[k]) by {
        assert(is_lower_letter(p[0]));
        assert(is_lower_letter(p[1]));
        assert(is_lower_letter(p[2]));
        assert(is_lower_letter(p[3]));
        assert(is_lower_letter(p[4]));
        assert(is_lower_letter(p[5]));
        assert(is_lower_letter(p[6]));
        assert(is_lower_letter(p[7]));
    }
    lemma_word_removal_leaves_no_match(s1, p, f);
}

/// Law (idempotence, the context half): when the trimmed input holds
/// exactly one "@word" token, re-parsing the residual title the
/// context rule leaves extracts no context.
pub proof fn lemma_context_extraction_idempotent(s: Seq<char>, i: int)
    requires
        ctx_at(trim_spec(s), i),
        forall|j: int| #[trigger] ctx_at(trim_spec(s), j) ==> j == i,
    ensures
        parse_context(title_after_ctx(s)) is None,
{
    let s0 = trim_spec(s);
    crate::text::lemma_trim_spec_trimmed(s);
    lemma_single_context_extracted(s, i);
    lemma_context_removal_leaves_no_token(s0, i);
    let r = remove_span(s0, i, word_end(s0, i + 1));
    crate::text::lemma_trim_spec_trimmed(r);
    assert(trim_spec(r) == r);
}

/// Law, carried to the final title: with exactly one "@word" token and
/// no date phrase firing afterwards, the parsed title is precisely the
/// trimmed input with the token's span removed.
pub proof fn lemma_single_context_title(s: Seq<char>, t: int, i: int)
    requires
        ctx_at(trim_spec(s), i),
        forall|j: int| #[trigger] ctx_at(trim_spec(s), j) ==> j == i,
        !tomorrow_fires(title_after_ctx(s), t),
        !indays_fires(title_after_tomorrow(s, t), t),
        !weekday_fires(title_after_indays(s, t), t),
    ensures
        parse_title(s, t) == remove_span(trim_spec(s), i, word_end(trim_spec(s), i + 1)),
        parse_context(s) == Some(trim_spec(s).subrange(i + 1, word_end(trim_spec(s), i + 1))),
        parse_sched(s, t) is None,
{
    lemma_single_context_extracted(s, i);
}

/// Law: whatever the earlier date rules derived, a firing next-weekday
/// rule — applied last in pipeline order — decides the schedule.
pub proof fn lemma_weekday_rule_wins(s: Seq<char>, t: int)
    requires
        weekday_fires(title_after_indays(s, t), t),
    ensures
        parse_sched(s, t) == weekday_stage_val(title_after_indays(s, t), t),
        parse_sched(s, t) == Some(
            sched_val(t, weekday_off(title_after_indays(s, t), t)),
        ),
{
}

/// Law: when several date phrases match, the rule applied last in
/// pipeline order decides the schedule. Here both "tomorrow" and, on
/// the residual it leaves, "in N days" fire, and no "next <weekday>"
/// phrase follows: the schedule is the "in N days" value, not the
/// "tomorrow" one.
pub proof fn lemma_last_date_rule_wins(s: Seq<char>, t: int)
    requires
        tomorrow_fires(title_after_ctx(s), t),
        indays_fires(title_after_tomorrow(s, t), t),
        !weekday_fires(title_after_indays(s, t), t),
    ensures
        parse_sched(s, t) == Some(sched_val(t, indays_n(title_after_tomorrow(s, t)))),
        parse_sched(s, t) == indays_stage_val(title_after_tomorrow(s, t), t),
{
}

/// Law (one direction of idempotence): a trimmed title in which no
/// rule finds anything — no "@word" token and no date phrase — parses
/// to itself, with no context and no schedule extracted.
pub proof fn lemma_clean_input_parses_to_itself(s: Seq<char>, t: int)
    requires
        is_trimmed(s),
        !has_ctx(s),
        !has_pat(s, tomorrow_pat()),
        !has_indays(s),
        forall|w: int| 0 <= w < 7 ==> !has_pat(s, #[trigger] next_pat(w)),
    ensures
        parse_title(s, t) == s,
        parse_context(s) is None,
        parse_sched(s, t) is None,
{
    crate::text::lemma_trim_spec_trimmed(s);
    lemma_wd_from(s, 0);
    assert(wd_from(s, 0) == 7);
}

/// Parse one capture line against the current time. The result is what
/// `parse_task_input_at` yields for the instant the clock returned,
/// which is never before the epoch.
pub fn parse_task_input(input: &str) -> (r: ParsedTask)
    ensures
        exists|t: int|
            {
                &&& 0 <= t
                &&& #[trigger] parse_title(input@, t) == r.title@
                &&& match r.context {
                    Some(c) => parse_context(input@) == Some(c@),
                    None => parse_context(input@) is None,
                }
                &&& match r.scheduled_for {
                    Some(v) => parse_sched(input@, t) == Some(v as int),
                    None => parse_sched(input@, t) is None,
                }
            },
{
    let t = current_unix_time();
    let r = parse_task_input_at(input, t);
    proof {
        assert(parse_title(input@, t as int) == r.title@);
    }
    r
}

} // verus!
