//! Points in time, as nanoseconds since some fixed start, and spans between them.

use vstd::prelude::*;

verus! {

/// Nanoseconds in a second.
pub const SECOND: u64 = 1_000_000_000;

/// How long after `since` the time `now` is. A clock that seems to have gone back
/// counts as standing still.
pub open spec fn span(now: u64, since: u64) -> nat {
    if now > since {
        (now - since) as nat
    } else {
        0
    }
}

/// The whole seconds from `since` to `now`.
pub open spec fn span_secs(now: u64, since: u64) -> nat {
    span(now, since) / (SECOND as nat)
}

/// How long after `since` the time `now` is.
pub fn elapsed(now: u64, since: u64) -> (r: u64)
    ensures
        r == span(now, since),
{
    if now > since {
        now - since
    } else {
        0
    }
}

/// The whole seconds from `since` to `now`.
pub fn elapsed_secs(now: u64, since: u64) -> (r: u64)
    ensures
        r == span_secs(now, since),
{
    elapsed(now, since) / SECOND
}

} // verus!
