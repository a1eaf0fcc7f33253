//! The two calls whose results no contract can pin down: the clock and
//! fresh identifiers. Verified callers state what holds of every value
//! these may return.

use vstd::prelude::*;

verus! {

/// Relies on chrono's `Utc::now` and `DateTime::timestamp`: the current
/// time as whole seconds since the Unix epoch. `Utc::now` refuses (by
/// panicking) a system clock set before the epoch, so a returned value
/// is never negative; nothing more is assumed of it.
#[verifier::external_body]
pub(crate) fn current_unix_time() -> (r: i64)
    ensures
        0 <= r,
{
    chrono::Utc::now().timestamp()
}

/// Relies on uuid's `Uuid::new_v4` and its `Display` rendering: a fresh
/// random (version 4) UUID in hyphenated form. Nothing is assumed of
/// the value, uniqueness included: callers must check for collisions.
#[verifier::external_body]
pub(crate) fn new_task_id() -> String {
    uuid::Uuid::new_v4().to_string()
}

} // verus!
