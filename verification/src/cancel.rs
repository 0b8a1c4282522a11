//! Cooperative cancellation: a monotonic flag that is latched once and
//! observed by every loop of a run.

use vstd::prelude::*;

verus! {

/// A latch that starts unset and can only go from unset to set.
pub struct CancelFlag {
    flagged: bool,
}

impl CancelFlag {
    /// A fresh, unset flag for one run.
    pub fn new() -> (f: CancelFlag)
        ensures
            !f.set(),
    {
        CancelFlag { flagged: false }
    }

    /// Whether the flag has been latched.
    pub closed spec fn set(&self) -> bool {
        self.flagged
    }
}

/// Latch the flag; it never goes back.
pub fn cancel(flag: &mut CancelFlag)
    ensures
        final(flag).set(),
{
    flag.flagged = true;
}

/// Observe the flag.
pub fn is_canceled(flag: &CancelFlag) -> (r: bool)
    ensures
        r == flag.set(),
{
    flag.flagged
}

} // verus!
