//! Calendar arithmetic over Unix timestamps (seconds since the epoch,
//! UTC): epoch-day numbering, the fixed 09:00:00 UTC resolution every
//! recognized phrase normalizes to, and weekday scanning.
//!
//! Dates resolve only for timestamps at or after the epoch and for epoch
//! days up to `MAX_EPOCH_DAY` (the largest day whose 09:00 instant still
//! fits in an `i64`); outside that window a rule derives no value.

use vstd::prelude::*;
use vstd::arithmetic::div_mod::lemma_fundamental_div_mod;
use vstd::arithmetic::div_mod::lemma_mod_bound;
use vstd::arithmetic::div_mod::lemma_small_mod;
use vstd::arithmetic::div_mod::lemma_mod_multiples_vanish;

verus! {

/// The largest epoch day `d` for which `d * 86400 + 32400` fits in `i64`.
pub const MAX_EPOCH_DAY: i64 = 106751991167300;

/// The day number (days since the epoch) holding timestamp `t`.
pub open spec fn epoch_day_of(t: int) -> int {
    t / 86400
}

/// 09:00:00 UTC on epoch day `d`.
pub open spec fn nine_am_on(d: int) -> int {
    d * 86400 + 32400
}

/// Whether a phrase resolving to `k` days after the day of `t` yields a
/// timestamp: `t` at or after the epoch and the resolved day in range.
pub open spec fn sched_ok(t: int, k: int) -> bool {
    0 <= t && 0 <= k && epoch_day_of(t) + k <= MAX_EPOCH_DAY
}

/// The timestamp such a phrase resolves to: 09:00:00 UTC on the day `k`
/// days after the day holding `t`.
pub open spec fn sched_val(t: int, k: int) -> int {
    nine_am_on(epoch_day_of(t) + k)
}

/// The timestamp a date phrase resolves to, or `None` when `t` lies
/// before the epoch or the resolved day is out of range.
pub open spec fn sched_for(t: int, k: int) -> Option<int> {
    if sched_ok(t, k) {
        Some(sched_val(t, k))
    } else {
        None
    }
}

/// The day number of a timestamp at or after the epoch.
pub fn epoch_day(t: i64) -> (r: i64)
    requires
        0 <= t,
    ensures
        r == epoch_day_of(t as int),
        0 <= r <= MAX_EPOCH_DAY,
{
    let d64: u64 = (t as u64) / 86400;
    proof {
        assert(d64 <= 9223372036854775807u64 / 86400) by {
            assert(t as u64 <= 9223372036854775807u64);
        }
    }
    d64 as i64
}

/// Resolve `sched_for(t, k)` executably.
pub fn resolve_sched(t: i64, k: i64) -> (r: Option<i64>)
    ensures
        match r {
            Some(v) => sched_for(t as int, k as int) == Some(v as int),
            None => sched_for(t as int, k as int) is None,
        },
{
    if t < 0 || k < 0 {
        return None;
    }
    let d: i64 = epoch_day(t);
    if k > MAX_EPOCH_DAY - d {
        return None;
    }
    let day: i64 = d + k;
    Some(day * 86400 + 32400)
}

/// The weekday of epoch day `d`, numbered Monday = 0 through Sunday = 6
/// (the epoch itself, day 0, was a Thursday: weekday 3).
pub open spec fn weekday_of_day(d: int) -> int {
    (d + 3) % 7
}

/// Compute the weekday of a nonnegative epoch day.
pub fn weekday_of(d: i64) -> (r: u8)
    requires
        0 <= d,
    ensures
        r as int == weekday_of_day(d as int),
{
    proof {
        lemma_weekday_shift(d as int);
    }
    (((d as u64) % 7 + 3) % 7) as u8
}

proof fn lemma_weekday_shift(d: int)
    requires
        0 <= d,
    ensures
        (d % 7 + 3) % 7 == (d + 3) % 7,
{
    lemma_fundamental_div_mod(d, 7);
    lemma_mod_multiples_vanish(d / 7, d % 7 + 3, 7);
}

/// Scan forward from day `d`, starting at offset `k`, for the first
/// offset whose weekday is `w`; gives up at the safety bound of 14 days
/// (which `lemma_next_weekday_offset` shows is never reached when
/// `w` names a weekday).
pub open spec fn wd_scan(d: int, w: int, k: int) -> int
    decreases 15 - k when k <= 15
{
    if k >= 15 {
        15
    } else if weekday_of_day(d + k) == w {
        k
    } else {
        wd_scan(d, w, k + 1)
    }
}

/// The offset, in days after day `d`, of the next day whose weekday is
/// `w`, scanning forward one day at a time and excluding day `d` itself.
pub open spec fn next_weekday_offset(d: int, w: int) -> int {
    wd_scan(d, w, 1)
}

proof fn lemma_wd_scan_finds(d: int, w: int, k: int, k0: int)
    requires
        1 <= k <= k0 <= 14,
        weekday_of_day(d + k0) == w,
    ensures
        k <= wd_scan(d, w, k) <= k0,
        weekday_of_day(d + wd_scan(d, w, k)) == w,
        forall|j: int| k <= j < wd_scan(d, w, k) ==> #[trigger] weekday_of_day(d + j) != w,
    decreases k0 - k,
{
    if weekday_of_day(d + k) == w {
    } else {
        lemma_wd_scan_finds(d, w, k + 1, k0);
    }
}

/// The weekday scan, started one day after `d`, finds a day of weekday
/// `w` within seven days: the offset is between 1 and 7, its weekday is
/// `w`, and no smaller positive offset has weekday `w`.
pub proof fn lemma_next_weekday_offset(d: int, w: int)
    requires
        0 <= w < 7,
    ensures
        1 <= next_weekday_offset(d, w) <= 7,
        weekday_of_day(d + next_weekday_offset(d, w)) == w,
        forall|j: int| 1 <= j < next_weekday_offset(d, w) ==> #[trigger] weekday_of_day(d + j) != w,
{
    let c = weekday_of_day(d);
    lemma_mod_bound(d + 3, 7);
    let k0 = if w <= c {
        w - c + 7
    } else {
        w - c
    };
    assert(1 <= k0 <= 7);
    lemma_fundamental_div_mod(d + 3, 7);
    let m = (d + 3) / 7;
    assert(d + 3 == 7 * m + c);
    assert(d + k0 + 3 == 7 * (m + (if w <= c { 1int } else { 0int })) + w);
    lemma_mod_multiples_vanish(m + (if w <= c { 1int } else { 0int }), w, 7);
    lemma_small_mod(w as nat, 7nat);
    assert(weekday_of_day(d + k0) == w);
    lemma_wd_scan_finds(d, w, 1, k0);
}

} // verus!
