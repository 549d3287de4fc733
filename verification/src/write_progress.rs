//! Progress of archive writes.

use vstd::prelude::*;

use crate::error::{Error, Result};

verus! {

/// A high-level archive-writing operation.
#[derive(Debug, Clone, Copy, PartialEq, Eq, Structural)]
pub enum WriteOperation {
    /// Compressing or otherwise preparing member payloads.
    Compression,
    /// Building a recovery record.
    Recovery,
    /// Writing finished archive bytes to the output.
    Emission,
    /// Decoding payloads of an archive that is being rewritten.
    Staging,
}

/// Progress reported by archive writers. `Advanced` is an absolute counter;
/// entry events must not be added to it. A failed operation does not report
/// `OperationFinished`.
#[allow(inconsistent_fields)]
#[derive(Debug, Clone, Copy, PartialEq, Eq)]
pub enum WriteProgressEvent<'a> {
    OperationStarted {
        operation: WriteOperation,
        total_bytes: Option<u64>,
        total_entries: Option<usize>,
        pass: usize,
    },
    EntryStarted {
        operation: WriteOperation,
        index: usize,
        total_entries: usize,
        name: &'a [u8],
        input_bytes: u64,
    },
    EntryFinished {
        operation: WriteOperation,
        index: usize,
        total_entries: usize,
        name: &'a [u8],
        input_bytes: u64,
    },
    Advanced { operation: WriteOperation, completed_bytes: u64, total_bytes: u64, pass: usize },
    VolumeFinished { volume_number: usize, total_volumes: Option<usize>, bytes: u64 },
    OperationFinished {
        operation: WriteOperation,
        total_bytes: Option<u64>,
        total_entries: Option<usize>,
        pass: usize,
    },
}

/// Receives progress events.
pub trait WriteProgress {
    /// Whether it may be told of an event; of any, unless it says otherwise.
    open spec fn takes(&self, event: WriteProgressEvent<'_>) -> bool {
        true
    }

    fn report(&self, event: WriteProgressEvent<'_>)
        requires
            self.takes(event),
    ;

    /// Whether the caller wants the write to stop.
    fn is_cancelled(&self) -> (cancelled: bool)
        default_ensures
            !cancelled,
    {
        false
    }
}

/// A closure is told of every event, and never asks to stop.
impl<F: Fn(WriteProgressEvent<'_>)> WriteProgress for F {
    open spec fn takes(&self, event: WriteProgressEvent<'_>) -> bool {
        call_requires(*self, (event,))
    }

    fn report(&self, event: WriteProgressEvent<'_>) {
        self(event)
    }
}

/// Whether a receiver may answer this when it is asked whether to stop. One that
/// has asked to stop for good only ever answers that.
pub open spec fn may_answer<P: WriteProgress>(receiver: &P, cancelled: bool) -> bool {
    call_ensures(P::is_cancelled, (receiver,), cancelled)
}

/// Receives nothing, and never asks to stop.
#[derive(Debug, Clone, Copy, PartialEq, Eq, Structural)]
pub struct Unobserved;

impl WriteProgress for Unobserved {
    fn report(&self, _event: WriteProgressEvent<'_>) {
    }

    fn is_cancelled(&self) -> (cancelled: bool)
        ensures
            !cancelled,
    {
        false
    }
}

/// Whether a receiver, where there is one, gets an event: a report of it was made
/// and has come back.
pub open spec fn is_told<P: WriteProgress>(
    progress: Option<&P>,
    event: WriteProgressEvent<'_>,
) -> bool {
    progress matches Some(receiver) ==> call_ensures(P::report, (receiver, event), ())
}

/// Whether a receiver, where there is one, may be told of an event.
pub open spec fn may_tell<P: WriteProgress>(
    progress: Option<&P>,
    event: WriteProgressEvent<'_>,
) -> bool {
    progress matches Some(receiver) ==> receiver.takes(event)
}

/// Whether a receiver, where there is one, may be told of everything but that an
/// operation is done: that takes an operation that has succeeded.
pub open spec fn takes_course<P: WriteProgress>(progress: Option<&P>) -> bool {
    forall|event: WriteProgressEvent<'_>|
        event !is OperationFinished ==> #[trigger] may_tell(progress, event)
}

/// Whether a receiver may ask to stop.
pub open spec fn may_stop<P: WriteProgress>(progress: Option<&P>) -> bool {
    progress matches Some(receiver) && may_answer(receiver, true)
}

/// Whether a receiver asks to stop whenever it is asked.
pub open spec fn has_stopped<P: WriteProgress>(progress: Option<&P>) -> bool {
    progress matches Some(receiver) && !may_answer(receiver, false)
}

/// Whether this is the result of a write that its receiver has stopped.
pub open spec fn is_stopped_by<T, P: WriteProgress>(
    progress: Option<&P>,
    r: Result<T>,
) -> bool {
    may_stop(progress) && r == Err::<T, Error>(Error::Cancelled)
}

/// Whether a write heeds its receiver. A request that is refused for its own sake is
/// refused whatever the receiver says; of any other nothing comes but that it was
/// stopped, where the receiver has stopped it.
pub open spec fn heeds<T, P: WriteProgress>(
    progress: Option<&P>,
    refusal: Option<Error>,
    r: Result<T>,
) -> bool {
    match refusal {
        Some(error) => r == Err::<T, Error>(error),
        None => has_stopped(progress) ==> r == Err::<T, Error>(Error::Cancelled),
    }
}

/// Asks a receiver, where there is one, whether to go on.
pub fn ask<P: WriteProgress>(progress: Option<&P>) -> (r: Result<()>)
    ensures
        r is Err ==> is_stopped_by(progress, r),
        has_stopped(progress) ==> r is Err,
{
    match progress {
        Some(receiver) => check_cancelled(receiver.is_cancelled()),
        None => Ok(()),
    }
}

/// Tells a receiver, where there is one, of an event.
pub fn tell<P: WriteProgress>(progress: Option<&P>, event: WriteProgressEvent<'_>)
    requires
        may_tell(progress, event),
    ensures
        is_told(progress, event),
{
    if let Some(receiver) = progress {
        receiver.report(event);
    }
}

/// Counts the work of one operation.
#[derive(Debug, Clone, Copy, PartialEq, Eq, Structural)]
pub struct WorkTracker {
    operation: WriteOperation,
    total: u64,
    completed: u64,
}

impl WorkTracker {
    pub closed spec fn operation(self) -> WriteOperation {
        self.operation
    }

    pub closed spec fn total(self) -> u64 {
        self.total
    }

    pub closed spec fn completed(self) -> u64 {
        self.completed
    }

    pub fn new(operation: WriteOperation, total: u64) -> (tracker: WorkTracker)
        ensures
            tracker.operation() == operation,
            tracker.total() == total,
            tracker.completed() == 0,
    {
        WorkTracker { operation, total, completed: 0 }
    }

    /// What there is to do in all.
    pub fn total_bytes(&self) -> (total: u64)
        ensures
            total == self.total(),
    {
        self.total
    }

    /// What is left to do.
    pub fn left(&self) -> (left: u64)
        ensures
            left == (if self.total() > self.completed() {
                self.total() - self.completed()
            } else {
                0
            }),
    {
        if self.total > self.completed {
            self.total - self.completed
        } else {
            0
        }
    }

    /// The event that tells the counter.
    pub open spec fn advance_event(self) -> WriteProgressEvent<'static> {
        WriteProgressEvent::Advanced {
            operation: self.operation(),
            completed_bytes: self.completed(),
            total_bytes: self.total(),
            pass: 1,
        }
    }

    /// The counter after more work: it stops at the total.
    pub open spec fn completed_after(self, amount: u64) -> u64 {
        if self.completed() + amount < self.total() {
            (self.completed() + amount) as u64
        } else {
            self.total()
        }
    }

    /// Counts work, and gives the event to report.
    pub fn advance(&mut self, amount: u64) -> (event: WriteProgressEvent<'static>)
        ensures
            final(self).operation() == old(self).operation(),
            final(self).total() == old(self).total(),
            final(self).completed() == old(self).completed_after(amount),
            final(self).completed() <= old(self).total(),
            event == final(self).advance_event(),
    {
        let sum: u64 = match self.completed.checked_add(amount) {
            Some(sum) => sum,
            None => u64::MAX,
        };
        self.completed = if sum < self.total {
            sum
        } else {
            self.total
        };
        WriteProgressEvent::Advanced {
            operation: self.operation,
            completed_bytes: self.completed,
            total_bytes: self.total,
            pass: 1,
        }
    }

    /// Counts what is left.
    pub fn finish(&mut self) -> (event: WriteProgressEvent<'static>)
        ensures
            final(self).operation() == old(self).operation(),
            final(self).total() == old(self).total(),
            final(self).completed() == old(self).total(),
            event == final(self).advance_event(),
    {
        let left: u64 = self.left();
        self.advance(left)
    }

    /// Counts work, reports it, and says whether to go on. Without anyone to
    /// report to nothing is counted.
    pub fn report_advance<P: WriteProgress>(&mut self, progress: Option<&P>, amount: u64) -> (
        go_on: bool)
        requires
            takes_course(progress),
        ensures
            final(self).operation() == old(self).operation(),
            final(self).total() == old(self).total(),
            match progress {
                None => go_on && *final(self) == *old(self),
                Some(receiver) => {
                    &&& final(self).completed() == old(self).completed_after(amount)
                    &&& may_answer(receiver, !go_on)
                    &&& is_told(progress, final(self).advance_event())
                },
            },
    {
        match progress {
            None => true,
            Some(progress) => {
                let event = self.advance(amount);
                assert(may_tell(Some(progress), event));
                progress.report(event);
                !progress.is_cancelled()
            },
        }
    }

    pub fn entry_started<'a>(
        &self,
        index: usize,
        total_entries: usize,
        name: &'a [u8],
        input_bytes: u64,
    ) -> (event: WriteProgressEvent<'a>)
        ensures
            event == (WriteProgressEvent::EntryStarted {
                operation: self.operation(),
                index,
                total_entries,
                name,
                input_bytes,
            }),
    {
        WriteProgressEvent::EntryStarted {
            operation: self.operation,
            index,
            total_entries,
            name,
            input_bytes,
        }
    }

    pub fn entry_finished<'a>(
        &self,
        index: usize,
        total_entries: usize,
        name: &'a [u8],
        input_bytes: u64,
    ) -> (event: WriteProgressEvent<'a>)
        ensures
            event == (WriteProgressEvent::EntryFinished {
                operation: self.operation(),
                index,
                total_entries,
                name,
                input_bytes,
            }),
    {
        WriteProgressEvent::EntryFinished {
            operation: self.operation,
            index,
            total_entries,
            name,
            input_bytes,
        }
    }
}

/// The counter never goes back and never passes the total.
pub proof fn law_progress_is_monotone(tracker: WorkTracker, amount: u64)
    requires
        tracker.completed() <= tracker.total(),
    ensures
        tracker.completed() <= tracker.completed_after(amount) <= tracker.total(),
{
}

/// Combines the policy's signal with that of a progress receiver for one write.
/// A request that was seen stays in force.
#[derive(Debug, Clone, Copy, PartialEq, Eq, Structural)]
pub struct CancelLatch {
    seen: bool,
}

impl CancelLatch {
    pub closed spec fn is_set(self) -> bool {
        self.seen
    }

    pub fn new() -> (latch: CancelLatch)
        ensures
            !latch.is_set(),
    {
        CancelLatch { seen: false }
    }

    pub fn observe(&mut self, by_policy: bool, by_receiver: bool) -> (cancelled: bool)
        ensures
            cancelled == (old(self).is_set() || by_policy || by_receiver),
            final(self).is_set() == cancelled,
    {
        if self.seen || by_policy || by_receiver {
            self.seen = true;
            true
        } else {
            false
        }
    }
}

/// Fails a write that is to stop.
pub fn check_cancelled(cancelled: bool) -> (r: Result<()>)
    ensures
        r == (if cancelled {
            Err::<(), Error>(Error::Cancelled)
        } else {
            Ok(())
        }),
{
    if cancelled {
        Err(Error::Cancelled)
    } else {
        Ok(())
    }
}

/// How much of a transfer goes through before cancellation is looked at again.
pub fn cancellable_chunk(len: usize, observed: bool) -> (count: usize)
    ensures
        count == (if observed && len > 0x1_0000 {
            0x1_0000
        } else {
            len
        }),
{
    if observed && len > 0x1_0000 {
        0x1_0000
    } else {
        len
    }
}

/// The event that frames emission.
pub open spec fn emission_event(started: bool) -> WriteProgressEvent<'static> {
    if started {
        WriteProgressEvent::OperationStarted {
            operation: WriteOperation::Emission,
            total_bytes: None,
            total_entries: None,
            pass: 1,
        }
    } else {
        WriteProgressEvent::OperationFinished {
            operation: WriteOperation::Emission,
            total_bytes: None,
            total_entries: None,
            pass: 1,
        }
    }
}

/// The event to report when emission starts or is done.
pub fn report_emission(started: bool) -> (event: WriteProgressEvent<'static>)
    ensures
        event == emission_event(started),
{
    if started {
        WriteProgressEvent::OperationStarted {
            operation: WriteOperation::Emission,
            total_bytes: None,
            total_entries: None,
            pass: 1,
        }
    } else {
        WriteProgressEvent::OperationFinished {
            operation: WriteOperation::Emission,
            total_bytes: None,
            total_entries: None,
            pass: 1,
        }
    }
}

} // verus!
