//! Character classes and the text surgery shared by all extraction rules:
//! trimming, and removing a matched span while collapsing the whitespace
//! the removal leaves behind.

use vstd::prelude::*;

verus! {

/// Whitespace, as the trimming and collapsing rules understand it.
pub open spec fn is_space_char(c: char) -> bool {
    c == ' ' || c == '\t' || c == '\n' || c == '\r'
}

/// Executable test for `is_space_char`.
pub fn space_char(c: char) -> (r: bool)
    ensures
        r == is_space_char(c),
{
    c == ' ' || c == '\t' || c == '\n' || c == '\r'
}

/// A word character: ASCII letter, digit, or underscore. Tokens and the
/// word boundaries of the phrase rules are delimited by these; a
/// non-ASCII letter counts as a separator here, where a Unicode-aware
/// word class would count it as part of the word.
pub open spec fn is_word_char(c: char) -> bool {
    let u = c as u32;
    (97 <= u && u <= 122) || (65 <= u && u <= 90) || (48 <= u && u <= 57) || u == 95
}

/// Executable test for `is_word_char`.
pub fn word_char(c: char) -> (r: bool)
    ensures
        r == is_word_char(c),
{
    let u = c as u32;
    (97 <= u && u <= 122) || (65 <= u && u <= 90) || (48 <= u && u <= 57) || u == 95
}

/// An ASCII decimal digit.
pub open spec fn is_digit_char(c: char) -> bool {
    48 <= c as u32 && c as u32 <= 57
}

/// Executable test for `is_digit_char`.
pub fn digit_char(c: char) -> (r: bool)
    ensures
        r == is_digit_char(c),
{
    let u = c as u32;
    48 <= u && u <= 57
}

/// The numeric value of a digit character.
pub open spec fn digit_val(c: char) -> int {
    c as u32 - 48
}

/// Case-insensitive match of a text character `c` against a pattern
/// character `p`; patterns are written in lowercase, and an uppercase `c`
/// matches its lowercase counterpart.
pub open spec fn eq_ci(c: char, p: char) -> bool {
    c as u32 == p as u32 || (97 <= p as u32 && p as u32 <= 122 && c as u32 + 32 == p as u32)
}

/// Executable test for `eq_ci`.
pub fn char_eq_ci(c: char, p: char) -> (r: bool)
    ensures
        r == eq_ci(c, p),
{
    let cu = c as u32;
    let pu = p as u32;
    cu == pu || (97 <= pu && pu <= 122 && cu <= u32::MAX - 32 && cu + 32 == pu)
}

/// The first index at or after `i` holding a non-whitespace character,
/// or the length if there is none.
pub open spec fn first_non_space(s: Seq<char>, i: int) -> int
    decreases s.len() - i when 0 <= i <= s.len()
{
    if i >= s.len() {
        i
    } else if !is_space_char(s[i]) {
        i
    } else {
        first_non_space(s, i + 1)
    }
}

/// The end (exclusive) of the trailing run of whitespace below `i`: the
/// least `e <= i` with only whitespace in `s[e..i]` and, if `e > 0`, a
/// non-whitespace character at `e - 1`.
pub open spec fn last_non_space_end(s: Seq<char>, i: int) -> int
    decreases i when 0 <= i <= s.len()
{
    if i <= 0 {
        0
    } else if !is_space_char(s[i - 1]) {
        i
    } else {
        last_non_space_end(s, i - 1)
    }
}

pub proof fn lemma_first_non_space(s: Seq<char>, i: int)
    requires
        0 <= i <= s.len(),
    ensures
        i <= first_non_space(s, i) <= s.len(),
        forall|k: int| i <= k < first_non_space(s, i) ==> is_space_char(s[k]),
        first_non_space(s, i) < s.len() ==> !is_space_char(s[first_non_space(s, i)]),
    decreases s.len() - i,
{
    if i < s.len() && is_space_char(s[i]) {
        lemma_first_non_space(s, i + 1);
    }
}

pub proof fn lemma_last_non_space_end(s: Seq<char>, i: int)
    requires
        0 <= i <= s.len(),
    ensures
        0 <= last_non_space_end(s, i) <= i,
        forall|k: int| last_non_space_end(s, i) <= k < i ==> is_space_char(s[k]),
        last_non_space_end(s, i) > 0 ==> !is_space_char(s[last_non_space_end(s, i) - 1]),
    decreases i,
{
    if i > 0 && is_space_char(s[i - 1]) {
        lemma_last_non_space_end(s, i - 1);
    }
}

/// `s` with leading and trailing whitespace removed.
pub open spec fn trim_spec(s: Seq<char>) -> Seq<char> {
    let a = first_non_space(s, 0);
    let b = last_non_space_end(s, s.len() as int);
    if a <= b {
        s.subrange(a, b)
    } else {
        Seq::empty()
    }
}

/// Whether `s` carries no leading or trailing whitespace.
pub open spec fn is_trimmed(s: Seq<char>) -> bool {
    s.len() == 0 || (!is_space_char(s[0]) && !is_space_char(s[s.len() - 1]))
}

pub proof fn lemma_trim_spec_trimmed(s: Seq<char>)
    ensures
        is_trimmed(trim_spec(s)),
        is_trimmed(s) ==> trim_spec(s) == s,
{
    lemma_first_non_space(s, 0);
    lemma_last_non_space_end(s, s.len() as int);
    let a = first_non_space(s, 0);
    let b = last_non_space_end(s, s.len() as int);
    if a <= b {
        if a < b {
            assert(!is_space_char(s[a]));
            assert(!is_space_char(s[b - 1]));
        }
    }
    if is_trimmed(s) {
        if s.len() == 0 {
            assert(trim_spec(s) =~= s);
        } else {
            assert(a == 0);
            assert(b == s.len());
            assert(trim_spec(s) =~= s);
        }
    }
}

/// Trim `s`, returning the residue as a fresh string.
pub fn trim(s: &str) -> (r: String)
    ensures
        r@ == trim_spec(s@),
{
    let n = s.unicode_len();
    let ghost sq = s@;
    let mut a: usize = 0;
    while a < n && space_char(s.get_char(a))
        invariant
            n == sq.len(),
            s@ == sq,
            0 <= a <= n,
            first_non_space(sq, 0) == first_non_space(sq, a as int),
        decreases n - a,
    {
        a += 1;
    }
    proof {
        assert(first_non_space(sq, a as int) == a);
    }
    let mut b: usize = n;
    while b > 0 && space_char(s.get_char(b - 1))
        invariant
            n == sq.len(),
            s@ == sq,
            0 <= b <= n,
            last_non_space_end(sq, n as int) == last_non_space_end(sq, b as int),
        decreases b,
    {
        b -= 1;
    }
    proof {
        assert(last_non_space_end(sq, b as int) == b);
    }
    if a <= b {
        String::from_str(s.substring_char(a, b))
    } else {
        let r = String::new();
        proof {
            assert(r@ =~= trim_spec(sq));
        }
        r
    }
}

/// `s` with the span `[i, j)` removed. If the removal leaves whitespace
/// on either side of the cut, that whitespace collapses to a single
/// space (or to nothing at either end), so the result carries no doubled
/// spaces around the cut and no leading or trailing whitespace; text away
/// from the cut is untouched.
pub open spec fn remove_span(s: Seq<char>, i: int, j: int) -> Seq<char> {
    let b = s.subrange(0, i);
    let a = s.subrange(j, s.len() as int);
    if (b.len() > 0 && is_space_char(b[b.len() - 1])) || (a.len() > 0 && is_space_char(a[0])) {
        let bt = b.subrange(0, last_non_space_end(b, b.len() as int));
        let at = a.subrange(first_non_space(a, 0), a.len() as int);
        if bt.len() == 0 {
            at
        } else if at.len() == 0 {
            bt
        } else {
            bt + seq![' '] + at
        }
    } else {
        b + a
    }
}

/// Remove the character span `[i, j)` from `s`, collapsing whitespace at
/// the cut as `remove_span` describes.
pub fn remove_char_span(s: &str, i: usize, j: usize) -> (r: String)
    requires
        i <= j <= s@.len(),
    ensures
        r@ == remove_span(s@, i as int, j as int),
{
    let n = s.unicode_len();
    let ghost sq = s@;
    let ghost bseq = sq.subrange(0, i as int);
    let ghost aseq = sq.subrange(j as int, sq.len() as int);
    let seam_ws = (i > 0 && space_char(s.get_char(i - 1))) || (j < n && space_char(s.get_char(j)));
    proof {
        assert(bseq.len() == i);
        assert(aseq.len() == n - j);
        assert(i > 0 ==> bseq[i - 1] == sq[i - 1]);
        assert(j < n ==> aseq[0] == sq[j as int]);
    }
    if !seam_ws {
        let r = String::from_str(s.substring_char(0, i)).concat(s.substring_char(j, n));
        proof {
            assert(r@ =~= remove_span(sq, i as int, j as int));
        }
        return r;
    }
    // End of the prefix once its trailing whitespace is dropped.
    let mut bt: usize = i;
    while bt > 0 && space_char(s.get_char(bt - 1))
        invariant
            sq.len() == n,
            s@ == sq,
            bseq == sq.subrange(0, i as int),
            i <= j <= n,
            0 <= bt <= i,
            forall|k: int| 0 <= k < i ==> bseq[k] == sq[k],
            last_non_space_end(bseq, i as int) == last_non_space_end(bseq, bt as int),
        decreases bt,
    {
        bt -= 1;
    }
    proof {
        assert(last_non_space_end(bseq, bt as int) == bt);
    }
    // Start of the suffix once its leading whitespace is dropped.
    let mut at: usize = j;
    while at < n && space_char(s.get_char(at))
        invariant
            sq.len() == n,
            s@ == sq,
            aseq == sq.subrange(j as int, n as int),
            i <= j <= n,
            j <= at <= n,
            forall|k: int| j <= k < n ==> aseq[k - j] == sq[k],
            first_non_space(aseq, 0) == first_non_space(aseq, at - j),
        decreases n - at,
    {
        at += 1;
    }
    proof {
        assert(first_non_space(aseq, at - j) == at - j);
    }
    let r = if bt == 0 {
        String::from_str(s.substring_char(at, n))
    } else if at == n {
        String::from_str(s.substring_char(0, bt))
    } else {
        String::from_str(s.substring_char(0, bt)).concat(" ").concat(s.substring_char(at, n))
    };
    proof {
        reveal_strlit(" ");
        assert(" "@ =~= seq![' ']);
        let bts = bseq.subrange(0, last_non_space_end(bseq, bseq.len() as int));
        let ats = aseq.subrange(first_non_space(aseq, 0), aseq.len() as int);
        assert(bts =~= sq.subrange(0, bt as int));
        assert(ats =~= sq.subrange(at as int, n as int));
        assert(r@ =~= remove_span(sq, i as int, j as int));
    }
    r
}

/// Copy the characters of `s` into a vector.
pub fn to_chars(s: &str) -> (r: Vec<char>)
    ensures
        r@ == s@,
{
    let n = s.unicode_len();
    let mut r: Vec<char> = Vec::new();
    let mut k: usize = 0;
    while k < n
        invariant
            n == s@.len(),
            0 <= k <= n,
            r@ =~= s@.subrange(0, k as int),
        decreases n - k,
    {
        r.push(s.get_char(k));
        k += 1;
    }
    proof {
        assert(r@ =~= s@);
    }
    r
}

} // verus!
