//! Per-handler shutdown state. The broadcast that delivers the signal is
//! the caller's; once the caller observes it, it records the fact here,
//! and the handler's loop consults `is_shutdown` before each read. Nothing
//! ever clears the flag: a handler that saw the signal stays stopping.

use vstd::prelude::*;

verus! {

/// Whether this handler has seen the shutdown signal.
pub struct Shutdown {
    shutdown: bool,
}

impl View for Shutdown {
    type V = bool;

    closed spec fn view(&self) -> bool {
        self.shutdown
    }
}

impl Shutdown {
    /// A handler that has not seen the signal yet.
    pub fn new() -> (s: Shutdown)
        ensures
            !s@,
    {
        Shutdown { shutdown: false }
    }

    /// True once the signal has been seen.
    pub fn is_shutdown(&self) -> (b: bool)
        ensures
            b == self@,
    {
        self.shutdown
    }

    /// Records that the shutdown broadcast fired. There is no way back:
    /// the flag only ever moves from unset to set.
    pub fn note_shutdown(&mut self)
        ensures
            final(self)@,
    {
        self.shutdown = true;
    }
}

} // verus!
