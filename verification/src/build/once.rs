//! Work that is done once.

use vstd::prelude::*;

verus! {

/// Whether the work has been done.
pub struct Once {
    done: bool,
}

impl Once {
    /// The work has been done.
    pub closed spec fn is_done(&self) -> bool {
        self.done
    }

    /// The work has not been done yet.
    pub fn new() -> (r: Once)
        ensures
            !r.is_done(),
    {
        Once { done: false }
    }
}

/// Does the work, unless it has been done; returns whether it was done now.
///
/// Once the work has been done, `f` is left alone: it need not even be fit to be called.
pub fn initialize<F>(once: &mut Once, f: F) -> (r: bool) where F: FnOnce()
    requires
        !old(once).is_done() ==> call_requires(f, ()),
    ensures
        final(once).is_done(),
        r == !old(once).is_done(),
        r ==> call_ensures(f, (), ()),
{
    if once.done {
        false
    } else {
        f();
        once.done = true;
        true
    }
}

/// Returns whether the work has been done.
pub fn initialized(once: &Once) -> (r: bool)
    ensures
        r == once.is_done(),
{
    once.done
}

} // verus!
