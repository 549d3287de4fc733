//! How far the members of an archive have come, told to whoever listens.

use vstd::prelude::*;

use crate::error::{Error, Result};
use crate::rar50::compress::MemberSource;
use crate::rar50::entry::ArchiveEntry;
use crate::rar50::share::{EncodeProgress, MemberShare};
use crate::write_progress::{
    tell, CancelLatch, WorkTracker, WriteOperation, WriteProgress, WriteProgressEvent,
};
#[allow(unused_imports)]
use crate::write_progress::{
    emission_event, has_stopped, is_told, may_stop, may_tell, takes_course,
};

verus! {

/// The bytes that sources announce, put together; no more than a counter holds.
pub open spec fn input_total(sources: Seq<MemberSource>) -> u64
    decreases sources.len(),
{
    if sources.len() == 0 {
        0
    } else {
        let before = input_total(sources.drop_last());
        if before + sources.last().input_size <= u64::MAX {
            (before + sources.last().input_size) as u64
        } else {
            u64::MAX
        }
    }
}

fn total_input(sources: &[MemberSource]) -> (total: u64)
    ensures
        total == input_total(sources@),
{
    let mut total: u64 = 0;
    let mut at: usize = 0;
    assert(sources@.take(0) =~= Seq::empty());
    while at < sources.len()
        invariant
            at <= sources@.len(),
            total == input_total(sources@.take(at as int)),
        decreases sources@.len() - at,
    {
        assert(sources@.take(at + 1).drop_last() =~= sources@.take(at as int));
        total = match total.checked_add(sources[at].input_size) {
            Some(sum) => sum,
            None => u64::MAX,
        };
        at = at + 1;
    }
    assert(sources@.take(sources@.len() as int) =~= sources@);
    total
}

/// The event that frames the work on members.
pub open spec fn members_event(
    started: bool,
    total: u64,
    count: usize,
) -> WriteProgressEvent<'static> {
    if started {
        WriteProgressEvent::OperationStarted {
            operation: WriteOperation::Compression,
            total_bytes: Some(total),
            total_entries: Some(count),
            pass: 1,
        }
    } else {
        WriteProgressEvent::OperationFinished {
            operation: WriteOperation::Compression,
            total_bytes: Some(total),
            total_entries: Some(count),
            pass: 1,
        }
    }
}

/// The event that all input is packed.
pub open spec fn members_done_event(total: u64) -> WriteProgressEvent<'static> {
    WriteProgressEvent::Advanced {
        operation: WriteOperation::Compression,
        completed_bytes: total,
        total_bytes: total,
        pass: 1,
    }
}

/// Whether a receiver gets the course of a write: that the members are taken up and
/// done, one by one and as a whole, that all input is packed, and that the archive is
/// emitted and written.
pub open spec fn hears_of_write<P: WriteProgress>(
    progress: Option<&P>,
    entries: Seq<ArchiveEntry>,
    sources: Seq<MemberSource>,
) -> bool {
    let total = input_total(sources);
    let count = sources.len() as usize;
    let audience = Audience { receiver: progress, entries, sources };
    &&& is_told(progress, members_event(true, total, count))
    &&& audience.hears_of(0, sources.len())
    &&& is_told(progress, members_done_event(total))
    &&& is_told(progress, members_event(false, total, count))
    &&& is_told(progress, emission_event(true))
    &&& is_told(progress, emission_event(false))
}

/// Whether a receiver may be told that the members are done, once it got so of each
/// and that all input is packed.
pub open spec fn takes_members_done<P: WriteProgress>(
    progress: Option<&P>,
    entries: Seq<ArchiveEntry>,
    sources: Seq<MemberSource>,
) -> bool {
    let total = input_total(sources);
    let audience = Audience { receiver: progress, entries, sources };
    audience.hears_of(0, sources.len()) && is_told(progress, members_done_event(total))
        ==> may_tell(progress, members_event(false, total, sources.len() as usize))
}

/// The event that frames the work on one member.
pub open spec fn member_event<'a>(
    started: bool,
    name: &'a [u8],
    index: usize,
    total_entries: usize,
    input_bytes: u64,
) -> WriteProgressEvent<'a> {
    if started {
        WriteProgressEvent::EntryStarted {
            operation: WriteOperation::Compression,
            index,
            total_entries,
            name,
            input_bytes,
        }
    } else {
        WriteProgressEvent::EntryFinished {
            operation: WriteOperation::Compression,
            index,
            total_entries,
            name,
            input_bytes,
        }
    }
}

/// Who is told of the members of an archive, and of which members.
pub struct Audience<'a, P: WriteProgress> {
    pub receiver: Option<&'a P>,
    pub entries: Seq<ArchiveEntry>,
    pub sources: Seq<MemberSource>,
}

impl<'a, P: WriteProgress> Audience<'a, P> {
    /// Whether the receiver gets that a member is taken up, or that it is packed.
    #[verifier::opaque]
    pub open spec fn hears(self, started: bool, index: int) -> bool {
        exists|name: &[u8]|
            name@ == self.entries[index].name@ && is_told(
                self.receiver,
                #[trigger] member_event(
                    started,
                    name,
                    index as usize,
                    self.entries.len() as usize,
                    self.sources[index].input_size,
                ),
            )
    }

    /// Whether the receiver gets of some members that each is taken up and packed.
    pub open spec fn hears_of(self, first: int, count: nat) -> bool {
        forall|i: int|
            first <= i < first + count ==> #[trigger] self.hears(true, i) && self.hears(false, i)
    }

    /// Whether some members, from `first` on, are as long as these.
    pub open spec fn expects(self, first: int, sources: Seq<MemberSource>) -> bool {
        forall|m: int|
            0 <= m < sources.len() ==> self.sources[first + m].input_size == (
            #[trigger] sources[m]).input_size
    }
}

pub proof fn lemma_hears_of_one_more<P: WriteProgress>(
    audience: Audience<'_, P>,
    first: int,
    count: nat,
)
    requires
        audience.hears_of(first, count),
        audience.hears(true, first + count),
        audience.hears(false, first + count),
    ensures
        audience.hears_of(first, count + 1),
{
    assert forall|i: int| first <= i < first + count + 1 implies #[trigger] audience.hears(
        true,
        i,
    ) && audience.hears(false, i) by {
        if i < first + count {
            assert(audience.hears(true, i));
        }
    }
}

/// Watches members on their way into an archive.
pub struct MemberProgress<'a, P: WriteProgress> {
    entries: &'a [ArchiveEntry],
    sources: &'a [MemberSource],
    work: WorkTracker,
    latch: CancelLatch,
    progress: Option<&'a P>,
}

impl<'a, P: WriteProgress> MemberProgress<'a, P> {
    /// Who listens, if anyone does.
    pub closed spec fn receiver(self) -> Option<&'a P> {
        self.progress
    }

    /// How many members there are.
    pub closed spec fn count(self) -> nat {
        self.sources@.len()
    }

    /// Whether a request to stop was seen.
    pub closed spec fn is_stopping(self) -> bool {
        self.latch.is_set()
    }

    /// The counter of the input that is done with.
    pub closed spec fn work(self) -> WorkTracker {
        self.work
    }

    pub closed spec fn is_valid(self) -> bool {
        &&& self.entries@.len() == self.sources@.len()
        &&& self.work.operation() == WriteOperation::Compression
        &&& self.work.completed() <= self.work.total()
        &&& self.latch.is_set() ==> may_stop(self.progress)
        &&& takes_course(self.progress)
    }

    /// Who is told, and of what.
    pub closed spec fn audience(self) -> Audience<'a, P> {
        Audience { receiver: self.progress, entries: self.entries@, sources: self.sources@ }
    }

    /// Whether this watches the same members for the same listener. A request to
    /// stop stays in force, and the counter does not go back.
    pub open spec fn continues(self, before: MemberProgress<'a, P>) -> bool {
        &&& self.is_valid()
        &&& self.receiver() == before.receiver()
        &&& self.audience() == before.audience()
        &&& self.count() == before.count()
        &&& before.is_stopping() ==> self.is_stopping()
        &&& self.work().total() == before.work().total()
        &&& before.work().completed() <= self.work().completed()
    }

    /// Whether members from `first` on are among those that are watched.
    pub open spec fn covers(self, first: int, members: nat) -> bool {
        0 <= first && first + members <= self.count() && first + members <= usize::MAX
    }

    /// Whether this is the error of a write that was asked to stop.
    pub open spec fn is_stop(self, error: Error) -> bool {
        may_stop(self.receiver()) && error == Error::Cancelled
    }

    /// Starts to watch.
    pub fn new(
        entries: &'a [ArchiveEntry],
        sources: &'a [MemberSource],
        progress: Option<&'a P>,
    ) -> (watch: MemberProgress<'a, P>)
        requires
            entries@.len() == sources@.len(),
            takes_course(progress),
        ensures
            watch.is_valid(),
            watch.receiver() == progress,
            watch.audience() == (Audience {
                receiver: progress,
                entries: entries@,
                sources: sources@,
            }),
            watch.count() == sources@.len(),
            !watch.is_stopping(),
            watch.work().total() == input_total(sources@),
            watch.work().completed() == 0,
    {
        MemberProgress {
            entries,
            sources,
            work: WorkTracker::new(WriteOperation::Compression, total_input(sources)),
            latch: CancelLatch::new(),
            progress,
        }
    }

    /// Whether the listener has asked to stop. A request that was seen stays in
    /// force.
    pub fn is_cancelled(&mut self) -> (cancelled: bool)
        requires
            old(self).is_valid(),
        ensures
            final(self).continues(*old(self)),
            final(self).work() == old(self).work(),
            cancelled == final(self).is_stopping(),
            cancelled ==> may_stop(old(self).receiver()),
            has_stopped(old(self).receiver()) ==> cancelled,
    {
        match self.progress {
            None => false,
            Some(progress) => self.latch.observe(false, progress.is_cancelled()),
        }
    }

    /// Fails a write that is to stop.
    pub fn check(&mut self) -> (r: Result<()>)
        requires
            old(self).is_valid(),
        ensures
            final(self).continues(*old(self)),
            final(self).work() == old(self).work(),
            r is Err <==> final(self).is_stopping(),
            has_stopped(old(self).receiver()) ==> r is Err,
            r matches Err(error) ==> old(self).is_stop(error),
    {
        if self.is_cancelled() {
            Err(Error::Cancelled)
        } else {
            Ok(())
        }
    }

    /// Tells that the members are taken up.
    pub fn operation_started(&self)
        requires
            self.is_valid(),
        ensures
            is_told(
                self.receiver(),
                members_event(true, self.work().total(), self.count() as usize),
            ),
    {
        let event = WriteProgressEvent::OperationStarted {
            operation: WriteOperation::Compression,
            total_bytes: Some(self.work.total_bytes()),
            total_entries: Some(self.entries.len()),
            pass: 1,
        };
        tell(self.progress, event);
    }

    /// Tells that the members are done.
    pub fn operation_finished(&self)
        requires
            self.is_valid(),
            may_tell(
                self.receiver(),
                members_event(false, self.work().total(), self.count() as usize),
            ),
        ensures
            is_told(
                self.receiver(),
                members_event(false, self.work().total(), self.count() as usize),
            ),
    {
        let event = WriteProgressEvent::OperationFinished {
            operation: WriteOperation::Compression,
            total_bytes: Some(self.work.total_bytes()),
            total_entries: Some(self.entries.len()),
            pass: 1,
        };
        tell(self.progress, event);
    }

    /// Tells that a member is taken up, before anything of it is read.
    pub fn started(&self, index: usize)
        requires
            self.is_valid(),
            index < self.count(),
        ensures
            self.audience().hears(true, index as int),
    {
        let name: &[u8] = self.entries[index].name.as_slice();
        let event = self.work.entry_started(
            index,
            self.entries.len(),
            name,
            self.sources[index].input_size,
        );
        reveal(Audience::hears);
        assert(event == member_event(
            true,
            name,
            index,
            self.entries@.len() as usize,
            self.sources@[index as int].input_size,
        ));
        tell(self.progress, event);
    }

    /// Whether a member announces nothing.
    pub fn is_empty(&self, index: usize) -> (answer: bool)
        requires
            self.is_valid(),
            index < self.count(),
        ensures
            answer == (self.audience().sources[index as int].input_size == 0),
    {
        self.sources[index].input_size == 0
    }

    /// Tells that a member is packed.
    pub fn finished(&self, index: usize)
        requires
            self.is_valid(),
            index < self.count(),
        ensures
            self.audience().hears(false, index as int),
    {
        let name: &[u8] = self.entries[index].name.as_slice();
        let event = self.work.entry_finished(
            index,
            self.entries.len(),
            name,
            self.sources[index].input_size,
        );
        reveal(Audience::hears);
        assert(event == member_event(
            false,
            name,
            index,
            self.entries@.len() as usize,
            self.sources@[index as int].input_size,
        ));
        tell(self.progress, event);
    }

    /// Counts input that is packed.
    pub fn advance(&mut self, bytes: u64) -> (r: Result<()>)
        requires
            old(self).is_valid(),
        ensures
            final(self).continues(*old(self)),
            old(self).receiver() is Some ==> final(self).work().completed()
                == old(self).work().completed_after(bytes),
            is_told(old(self).receiver(), final(self).work().advance_event()),
            has_stopped(old(self).receiver()) ==> r is Err,
            r is Err <==> final(self).is_stopping(),
            r matches Err(error) ==> old(self).is_stop(error),
    {
        let go_on: bool = self.work.report_advance(self.progress, bytes);
        if self.latch.observe(false, !go_on) {
            Err(Error::Cancelled)
        } else {
            Ok(())
        }
    }

    /// Takes in what the encoder tells of a member that it may walk several
    /// times.
    pub fn walked(&mut self, share: &mut MemberShare, event: EncodeProgress) -> (r: Result<()>)
        requires
            old(self).is_valid(),
        ensures
            final(self).continues(*old(self)),
            final(share).input_size() == old(share).input_size(),
            final(share).walk() == old(share).walk(),
            final(share).walked() == old(share).walked_after(event),
            final(share).position() == event.position(),
            old(self).receiver() is Some && event !is PassStarted ==> final(self).work().completed()
                == old(self).work().completed_after(
                (final(share).total() - old(share).total()) as u64,
            ),
            event !is PassStarted ==> is_told(
                old(self).receiver(),
                final(self).work().advance_event(),
            ),
            r is Err <==> final(self).is_stopping(),
            r matches Err(error) ==> old(self).is_stop(error),
    {
        let advanced: u64 = share.report(event);
        match event {
            EncodeProgress::PassStarted => self.check(),
            EncodeProgress::Advanced(_) => self.advance(advanced),
        }
    }

    /// Counts what is left.
    pub fn finish(&mut self) -> (r: Result<()>)
        requires
            old(self).is_valid(),
        ensures
            final(self).continues(*old(self)),
            old(self).receiver() is Some ==> final(self).work().completed() == final(self).work().total(),
            is_told(old(self).receiver(), members_done_event(final(self).work().total())),
            r is Err <==> final(self).is_stopping(),
            r matches Err(error) ==> old(self).is_stop(error),
    {
        let left: u64 = self.work.left();
        self.advance(left)
    }
}

/// What a receiver is told of the input that is packed never falls and never passes
/// the total, which stays as it was announced.
pub proof fn law_told_counters_never_fall<P: WriteProgress>(
    before: MemberProgress<'_, P>,
    after: MemberProgress<'_, P>,
)
    requires
        before.is_valid(),
        after.continues(before),
    ensures
        before.work().completed() <= after.work().completed() <= after.work().total(),
        after.work().total() == before.work().total(),
{
}

/// Whether this is the result of a write that was asked to stop.
pub open spec fn is_stopped<T, P: WriteProgress>(
    watch: MemberProgress<'_, P>,
    r: Result<T>,
) -> bool {
    r matches Err(error) && watch.is_stop(error)
}

} // verus!
