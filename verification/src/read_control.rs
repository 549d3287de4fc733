//! Cooperative cancellation of reads, with observation local to an operation.

use vstd::prelude::*;

use crate::error::{Error, ErrorKind, Result};
#[allow(unused_imports)]
use crate::error::kind_of;

verus! {

/// How much is read or written between two looks at the signal.
pub const CONTROLLED_CHUNK: usize = 0x1_0000;

/// How many steps without output pass between two looks at the signal.
pub const POLL_STEPS: usize = 4096;

/// A one-way cancellation signal for archive readers. It cannot be reset.
///
/// Once observed, cancellation returns [`Error::Cancelled`]. An unrelated error
/// is not replaced merely because the signal was set meanwhile.
///
/// A signal has one owner and is not copied, so no copy can miss that it was set.
/// A flag that several threads share stands outside, and is read into a signal
/// for every look at it.
#[derive(Debug, PartialEq, Eq, Structural)]
pub struct ReadCancellation {
    cancelled: bool,
}

impl ReadCancellation {
    pub closed spec fn is_set(self) -> bool {
        self.cancelled
    }

    /// A signal that is not set.
    pub fn new() -> (signal: ReadCancellation)
        ensures
            !signal.is_set(),
    {
        ReadCancellation { cancelled: false }
    }

    /// Sets the signal. Setting it again is harmless.
    pub fn cancel(&mut self)
        ensures
            final(self).is_set(),
    {
        self.cancelled = true;
    }

    pub fn is_cancelled(&self) -> (answer: bool)
        ensures
            answer == self.is_set(),
    {
        self.cancelled
    }
}

impl Default for ReadCancellation {
    fn default() -> (signal: ReadCancellation)
        ensures
            !signal.is_set(),
    {
        ReadCancellation::new()
    }
}

/// One operation's view of a signal: whether it has one, and whether it has
/// seen it set.
#[derive(Debug, Clone, Copy, PartialEq, Eq, Structural)]
pub struct ReadControl {
    enabled: bool,
    observed: bool,
}

impl ReadControl {
    pub closed spec fn has_signal(self) -> bool {
        self.enabled
    }

    pub closed spec fn has_observed(self) -> bool {
        self.observed
    }

    pub fn new(token: Option<&ReadCancellation>) -> (control: ReadControl)
        ensures
            control.has_signal() == token is Some,
            !control.has_observed(),
    {
        ReadControl { enabled: token.is_some(), observed: false }
    }

    pub fn is_enabled(&self) -> (answer: bool)
        ensures
            answer == self.has_signal(),
    {
        self.enabled
    }

    /// Looks at the signal.
    pub fn check(&mut self, token: &ReadCancellation) -> (r: Result<()>)
        ensures
            final(self).has_signal() == old(self).has_signal(),
            if old(self).has_signal() && token.is_set() {
                r == Err::<(), Error>(Error::Cancelled) && final(self).has_observed()
            } else {
                r is Ok && final(self).has_observed() == old(self).has_observed()
            },
    {
        if self.enabled && token.is_cancelled() {
            self.observed = true;
            return Err(Error::Cancelled);
        }
        Ok(())
    }

    /// The outcome of the operation. Only cancellation that this operation
    /// observed replaces an outcome.
    pub fn finish<T>(&self, result: Result<T>) -> (r: Result<T>)
        ensures
            if !self.has_observed() {
                r == result
            } else {
                r is Err && match result {
                    Err(error) => if kind_of(error) == ErrorKind::Cancelled {
                        r == result
                    } else {
                        r == Err::<T, Error>(Error::Cancelled)
                    },
                    Ok(_) => r == Err::<T, Error>(Error::Cancelled),
                }
            },
    {
        if self.observed {
            match result {
                Err(error) => if error.kind() == ErrorKind::Cancelled {
                    Err(error)
                } else {
                    Err(Error::Cancelled)
                },
                Ok(_) => Err(Error::Cancelled),
            }
        } else {
            result
        }
    }

    /// How much of a transfer goes through before the signal is looked at
    /// again.
    pub fn chunk_len(&self, len: usize) -> (count: usize)
        ensures
            count == (if self.has_signal() && len > CONTROLLED_CHUNK {
                CONTROLLED_CHUNK
            } else {
                len
            }),
    {
        if self.enabled && len > CONTROLLED_CHUNK {
            CONTROLLED_CHUNK
        } else {
            len
        }
    }

    pub fn poller(&self) -> (poller: Poller)
        ensures
            poller.steps_left() == 0,
            poller.next_look() == 0,
    {
        Poller { steps: 0, next_position: 0 }
    }
}

impl Default for ReadControl {
    fn default() -> (control: ReadControl)
        ensures
            !control.has_signal(),
            !control.has_observed(),
    {
        ReadControl { enabled: false, observed: false }
    }
}

/// Spaces out looks at the signal in a decoder's inner loop, bounding both work
/// without output and runs that expand large matches.
#[derive(Debug, Clone, Copy, PartialEq, Eq, Structural)]
pub struct Poller {
    steps: usize,
    next_position: usize,
}

impl Poller {
    /// Steps until the signal is looked at.
    pub closed spec fn steps_left(self) -> usize {
        self.steps
    }

    /// The output position at which the signal is looked at.
    pub closed spec fn next_look(self) -> usize {
        self.next_position
    }

    /// Whether a step at this output position looks at the signal.
    pub open spec fn is_due(self, position: usize) -> bool {
        self.steps_left() == 0 || position >= self.next_look()
    }

    /// Takes one step.
    pub fn check(
        &mut self,
        position: usize,
        control: &mut ReadControl,
        token: &ReadCancellation,
    ) -> (r: Result<()>)
        ensures
            final(control).has_signal() == old(control).has_signal(),
            if !old(control).has_signal() {
                &&& r is Ok
                &&& *final(self) == *old(self)
                &&& *final(control) == *old(control)
            } else if !old(self).is_due(position) {
                &&& r is Ok
                &&& final(self).steps_left() == old(self).steps_left() - 1
                &&& final(self).next_look() == old(self).next_look()
                &&& *final(control) == *old(control)
            } else if token.is_set() {
                &&& r == Err::<(), Error>(Error::Cancelled)
                &&& *final(self) == *old(self)
                &&& final(control).has_observed()
            } else {
                &&& r is Ok
                &&& final(self).steps_left() == POLL_STEPS - 1
                &&& final(self).next_look() == (if position + CONTROLLED_CHUNK > usize::MAX {
                    usize::MAX as int
                } else {
                    position + CONTROLLED_CHUNK
                })
                &&& final(control).has_observed() == old(control).has_observed()
            },
    {
        if !control.is_enabled() {
            return Ok(());
        }
        if self.steps == 0 || position >= self.next_position {
            match control.check(token) {
                Ok(()) => {},
                Err(error) => {
                    return Err(error);
                },
            }
            self.steps = POLL_STEPS;
            self.next_position = match position.checked_add(CONTROLLED_CHUNK) {
                Some(next) => next,
                None => usize::MAX,
            };
        }
        self.steps = self.steps - 1;
        Ok(())
    }
}

} // verus!
