//! A one-way cancellation signal for archive writes.

use vstd::prelude::*;

verus! {

/// Whether a write is to stop. Cancellation is cooperative: it is looked at
/// between chunks and during resource waits.
///
/// A signal has one owner and is not copied, so no copy can miss that it was set.
/// A flag that several threads share stands outside; what it reads is handed in
/// as a signal, or through a progress receiver that is asked as the write goes on.
#[derive(Debug, PartialEq, Eq, Structural)]
pub struct WriteCancellation {
    cancelled: bool,
}

impl WriteCancellation {
    pub closed spec fn is_set(self) -> bool {
        self.cancelled
    }

    pub fn new() -> (signal: WriteCancellation)
        ensures
            !signal.is_set(),
    {
        WriteCancellation { cancelled: false }
    }

    /// Sets the signal. Nothing clears it again.
    pub fn cancel(&mut self)
        ensures
            final(self).is_set(),
    {
        self.cancelled = true;
    }

    pub fn is_cancelled(&self) -> (answer: bool)
        ensures
            answer == self.is_set(),
    {
        self.cancelled
    }
}

impl Default for WriteCancellation {
    fn default() -> (signal: WriteCancellation)
        ensures
            !signal.is_set(),
    {
        WriteCancellation::new()
    }
}

} // verus!
