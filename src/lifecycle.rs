//! The lifecycle state machine of a connection: active, idle after a
//! silence, disconnected after a second timeout.

use vstd::prelude::*;
use crate::model::{next_liveness, silence, Liveness};

verus! {

/// Time passed from `since` to `now`; zero where the clock stands before
/// `since`.
pub fn silence_since(now: u64, since: u64) -> (r: u64)
    ensures
        r as int == silence(now, since),
{
    if now >= since {
        now - since
    } else {
        0
    }
}

/// The lifecycle step at a sweep: an active connection silent for
/// `idle_after` goes idle; an idle one silent for `disconnect_after` more is
/// disconnected.
pub fn step(l: Liveness, silent: u64, idle_after: u64, disconnect_after: u64) -> (r: Liveness)
    ensures
        r == next_liveness(l, silent as int, idle_after as int, disconnect_after as int),
{
    match l {
        Liveness::Active => if silent >= idle_after {
            Liveness::Idle
        } else {
            Liveness::Active
        },
        Liveness::Idle => if silent >= idle_after && silent - idle_after >= disconnect_after {
            Liveness::Disconnected
        } else {
            Liveness::Idle
        },
        Liveness::Disconnected => Liveness::Disconnected,
    }
}

} // verus!
