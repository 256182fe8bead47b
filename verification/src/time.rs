//! Clock arithmetic for TTL handling. The engine never reads a clock itself:
//! the caller samples the current time (unix epoch seconds) once per command
//! and passes it in, so every function here is deterministic.
use vstd::prelude::*;

verus! {

/// True when the moment `expires_at` (unix epoch seconds) is at or before `now`.
pub fn has_passed(expires_at: u64, now: u64) -> (passed: bool)
    ensures
        passed == (now >= expires_at),
{
    now >= expires_at
}

/// Seconds left until `expires_at`. The caller must know the moment has not
/// yet passed; on an expired entry there is no remaining time to report.
pub fn time_remaining(expires_at: u64, now: u64) -> (remaining: u64)
    requires
        now <= expires_at,
    ensures
        remaining == expires_at - now,
{
    expires_at - now
}

} // verus!
