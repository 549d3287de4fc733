//! Handing rewrite payloads over one by one: a decoder publishes them in archive
//! order, no further than they have been asked for, and a writer opens and
//! releases them.

use vstd::prelude::*;

use crate::archive_model::ArchiveMemberMeta;
use crate::error::{Error, Result};
use crate::rewrite_staging::StagedBytes;
#[allow(unused_imports)]
use crate::rewrite_staging::{is_last, is_selected};

verus! {

/// A payload that is kept: while it can still be opened, or is being read.
#[derive(Debug, Clone, Copy, PartialEq, Eq, Structural)]
pub struct Lease {
    pub index: usize,
    pub size: u64,
    pub readers: usize,
    pub listed: bool,
}

/// The bytes that leases keep.
pub open spec fn leased(leases: Seq<Lease>) -> nat
    decreases leases.len(),
{
    if leases.len() == 0 {
        0
    } else {
        leased(leases.drop_last()) + leases.last().size as nat
    }
}

/// Whether there is one lease for each member at most.
pub open spec fn are_distinct(leases: Seq<Lease>) -> bool {
    forall|i: int, j: int|
        0 <= i < j < leases.len() ==> (#[trigger] leases[i]).index != (#[trigger] leases[j]).index
}

/// Where the lease of a member stands.
pub open spec fn holds_at(leases: Seq<Lease>, at: int, index: usize) -> bool {
    0 <= at < leases.len() && leases[at].index == index
}

/// Whether a member's payload can be opened.
pub open spec fn is_ready(leases: Seq<Lease>, index: usize) -> bool {
    exists|at: int| #[trigger] holds_at(leases, at, index) && leases[at].listed
}

/// Leases without the one at a place give back its bytes.
proof fn lemma_leased_without(leases: Seq<Lease>, at: int)
    requires
        0 <= at < leases.len(),
    ensures
        leased(leases.remove(at)) + leases[at].size == leased(leases),
    decreases leases.len(),
{
    let rest = leases.remove(at);
    if at == leases.len() - 1 {
        assert(rest =~= leases.drop_last());
    } else {
        lemma_leased_without(leases.drop_last(), at);
        assert(rest.drop_last() =~= leases.drop_last().remove(at));
        assert(rest.last() == leases.last());
    }
}

/// A lease that is changed in anything but its size keeps as much.
proof fn lemma_leased_same(leases: Seq<Lease>, at: int, lease: Lease)
    requires
        0 <= at < leases.len(),
        lease.size == leases[at].size,
    ensures
        leased(leases.update(at, lease)) == leased(leases),
    decreases leases.len(),
{
    let changed = leases.update(at, lease);
    if at == leases.len() - 1 {
        assert(changed.drop_last() =~= leases.drop_last());
    } else {
        lemma_leased_same(leases.drop_last(), at, lease);
        assert(changed.drop_last() =~= leases.drop_last().update(at, lease));
    }
}

/// What became of an attempt to open a payload.
#[derive(Debug, Clone, Copy, PartialEq, Eq)]
pub enum Opening {
    /// The payload is there, and counted as being read.
    Opened,
    /// The payload is still to come.
    Wait,
    Failed(Error),
}

/// Whether the decoder may go on to a member.
#[derive(Debug, Clone, Copy, PartialEq, Eq, Structural)]
pub enum Demand {
    Requested,
    Wait,
    Cancelled,
}

/// What a decoder and a writer share.
#[derive(Debug)]
pub struct Delivery {
    /// The furthest member asked for.
    pub requested: Option<usize>,
    pub leases: Vec<Lease>,
    /// The members whose payloads have been handed over.
    pub published: Vec<usize>,
    pub error: Option<Error>,
    pub done: bool,
    pub cancelled: bool,
    pub staged: StagedBytes,
}

pub open spec fn further(requested: Option<usize>, index: usize) -> usize {
    match requested {
        Some(earlier) => if earlier > index {
            earlier
        } else {
            index
        },
        None => index,
    }
}

impl Delivery {
    /// Leases are of published members, one each, and their bytes are counted.
    pub open spec fn wf(self) -> bool {
        &&& are_distinct(self.leases@)
        &&& forall|i: int|
            0 <= i < self.leases@.len() ==> self.published@.contains(
                (#[trigger] self.leases@[i]).index,
            )
        &&& leased(self.leases@) <= self.staged.used <= self.staged.limit
    }

    pub fn new(limit: u64) -> (delivery: Delivery)
        ensures
            delivery.wf(),
            delivery.requested is None,
            delivery.leases@.len() == 0,
            delivery.published@.len() == 0,
            delivery.error is None,
            !delivery.done,
            !delivery.cancelled,
            delivery.staged == (StagedBytes { used: 0, limit }),
    {
        Delivery {
            requested: None,
            leases: Vec::new(),
            published: Vec::new(),
            error: None,
            done: false,
            cancelled: false,
            staged: StagedBytes::new(limit),
        }
    }

    /// Asks for a member's payload. Those before it are then due too.
    pub fn request(&mut self, index: usize)
        requires
            old(self).wf(),
        ensures
            final(self).wf(),
            *final(self) == (Delivery {
                requested: Some(further(old(self).requested, index)),
                ..*old(self)
            }),
    {
        let furthest: usize = match self.requested {
            Some(earlier) => if earlier > index {
                earlier
            } else {
                index
            },
            None => index,
        };
        self.requested = Some(furthest);
    }

    /// The place of a member's lease.
    fn find(&self, index: usize) -> (at: Option<usize>)
        requires
            self.wf(),
        ensures
            match at {
                Some(at) => holds_at(self.leases@, at as int, index),
                None => forall|i: int| !#[trigger] holds_at(self.leases@, i, index),
            },
    {
        let mut i: usize = 0;
        while i < self.leases.len()
            invariant
                i <= self.leases@.len(),
                forall|j: int| 0 <= j < i ==> (#[trigger] self.leases@[j]).index != index,
            decreases self.leases@.len() - i,
        {
            if self.leases[i].index == index {
                return Some(i);
            }
            i = i + 1;
        }
        None
    }

    fn has_published(&self, index: usize) -> (answer: bool)
        ensures
            answer == self.published@.contains(index),
    {
        let mut i: usize = 0;
        while i < self.published.len()
            invariant
                i <= self.published@.len(),
                forall|j: int| 0 <= j < i ==> #[trigger] self.published@[j] != index,
            decreases self.published@.len() - i,
        {
            if self.published[i] == index {
                return true;
            }
            i = i + 1;
        }
        false
    }

    /// What opening a member's payload comes to in this state.
    pub open spec fn opening(self, index: usize) -> Opening {
        match self.error {
            Some(error) => Opening::Failed(error),
            None => if self.cancelled {
                Opening::Failed(Error::Cancelled)
            } else if is_ready(self.leases@, index) {
                Opening::Opened
            } else if self.published@.contains(index) {
                Opening::Failed(Error::WriterFailure("rewrite source already consumed"))
            } else if self.done {
                Opening::Failed(Error::Cancelled)
            } else {
                Opening::Wait
            },
        }
    }

    /// Opens a member's payload for one more reader.
    pub fn open(&mut self, index: usize) -> (opening: Opening)
        requires
            old(self).wf(),
            forall|i: int|
                0 <= i < old(self).leases@.len() ==> (#[trigger] old(self).leases@[i]).readers
                    < usize::MAX,
        ensures
            final(self).wf(),
            opening == old(self).opening(index),
            if opening is Opened {
                exists|at: int|
                    {
                        &&& #[trigger] holds_at(old(self).leases@, at, index)
                        &&& final(self).leases@ == old(self).leases@.update(
                            at,
                            Lease {
                                readers: (old(self).leases@[at].readers + 1) as usize,
                                ..old(self).leases@[at]
                            },
                        )
                        &&& *final(self) == (Delivery { leases: final(self).leases, ..*old(self) })
                    }
            } else {
                *final(self) == *old(self)
            },
    {
        match self.error {
            Some(error) => {
                return Opening::Failed(error);
            },
            None => {},
        }
        if self.cancelled {
            return Opening::Failed(Error::Cancelled);
        }
        match self.find(index) {
            Some(at) => {
                let lease = self.leases[at];
                if lease.listed {
                    let opened = Lease { readers: lease.readers + 1, ..lease };
                    proof {
                        assert(holds_at(self.leases@, at as int, index));
                        lemma_leased_same(self.leases@, at as int, opened);
                    }
                    self.leases.set(at, opened);
                    return Opening::Opened;
                }
                proof {
                    assert forall|i: int| #[trigger]
                        holds_at(self.leases@, i, index) implies !self.leases@[i].listed by {
                        if i < at {
                            assert(self.leases@[i].index != self.leases@[at as int].index);
                        } else if i > at {
                            assert(self.leases@[at as int].index != self.leases@[i].index);
                        }
                    }
                }
            },
            None => {},
        }
        if self.has_published(index) {
            return Opening::Failed(Error::WriterFailure("rewrite source already consumed"));
        }
        if self.done {
            return Opening::Failed(Error::Cancelled);
        }
        Opening::Wait
    }

    /// Whether the decoder may go on to a member.
    pub fn wait_for(&self, index: usize) -> (demand: Demand)
        ensures
            demand == (if self.cancelled {
                Demand::Cancelled
            } else if self.requested is Some && self.requested->0 >= index {
                Demand::Requested
            } else {
                Demand::Wait
            }),
    {
        if self.cancelled {
            return Demand::Cancelled;
        }
        match self.requested {
            Some(requested) => if requested >= index {
                Demand::Requested
            } else {
                Demand::Wait
            },
            None => Demand::Wait,
        }
    }

    /// Counts bytes of a payload before they are staged.
    pub fn reserve(&mut self, count: u64) -> (r: Result<()>)
        requires
            old(self).wf(),
        ensures
            final(self).wf(),
            *final(self) == (Delivery { staged: final(self).staged, ..*old(self) }),
            if old(self).staged.admits(count) {
                r is Ok && final(self).staged == (StagedBytes {
                    used: (old(self).staged.used + count) as u64,
                    ..old(self).staged
                })
            } else {
                r == Err::<(), Error>(old(self).staged.refusal(count)) && final(self).staged
                    == old(self).staged
            },
    {
        self.staged.reserve(count)
    }

    /// Hands over a payload whose bytes have been counted as they were staged.
    pub fn publish(&mut self, index: usize, size: u64) -> (r: Result<()>)
        requires
            old(self).wf(),
            !old(self).published@.contains(index),
            leased(old(self).leases@) + size <= old(self).staged.used,
        ensures
            final(self).wf(),
            if old(self).cancelled {
                r == Err::<(), Error>(Error::Cancelled) && *final(self) == *old(self)
            } else {
                &&& r is Ok
                &&& final(self).leases@ == old(self).leases@.push(
                    Lease { index, size, readers: 0, listed: true },
                )
                &&& final(self).published@ == old(self).published@.push(index)
                &&& *final(self) == (Delivery {
                    leases: final(self).leases,
                    published: final(self).published,
                    ..*old(self)
                })
            },
    {
        if self.cancelled {
            return Err(Error::Cancelled);
        }
        let ghost before = self.leases@;
        let ghost handed = self.published@;
        let lease = Lease { index, size, readers: 0, listed: true };
        self.published.push(index);
        self.leases.push(lease);
        proof {
            let after = self.leases@;
            assert(after.drop_last() =~= before);
            assert forall|i: int| 0 <= i < after.len() implies self.published@.contains(
                (#[trigger] after[i]).index,
            ) by {
                if i < before.len() {
                    let at = choose|at: int|
                        0 <= at < handed.len() && handed[at] == before[i].index;
                    assert(self.published@[at] == before[i].index);
                } else {
                    assert(self.published@[handed.len() as int] == index);
                }
            }
            assert forall|i: int, j: int| 0 <= i < j < after.len() implies (
            #[trigger] after[i]).index != (#[trigger] after[j]).index by {
                if j == before.len() {
                    assert(handed.contains(before[i].index));
                }
            }
        }
        Ok(())
    }

    /// Drops the lease at a place, and its bytes with it.
    fn drop_lease(&mut self, at: usize)
        requires
            old(self).wf(),
            at < old(self).leases@.len(),
        ensures
            final(self).wf(),
            final(self).leases@ == old(self).leases@.remove(at as int),
            final(self).staged.used == old(self).staged.used - old(self).leases@[at as int].size,
            final(self).staged.limit == old(self).staged.limit,
            *final(self) == (Delivery {
                leases: final(self).leases,
                staged: final(self).staged,
                ..*old(self)
            }),
    {
        let ghost before = self.leases@;
        proof {
            lemma_leased_without(before, at as int);
        }
        let lease = self.leases.remove(at);
        self.staged.give_back(lease.size);
        proof {
            let after = self.leases@;
            assert forall|i: int| 0 <= i < after.len() implies self.published@.contains(
                (#[trigger] after[i]).index,
            ) by {
                if i < at {
                    assert(after[i] == before[i]);
                } else {
                    assert(after[i] == before[i + 1]);
                }
            }
        }
    }

    /// What is left of leases when the one at a place is changed: a lease that
    /// can no longer be opened and has no reader is gone.
    pub open spec fn settled(leases: Seq<Lease>, at: int, lease: Lease) -> Seq<Lease> {
        if !lease.listed && lease.readers == 0 {
            leases.remove(at)
        } else {
            leases.update(at, lease)
        }
    }

    /// The bytes that go when the lease is changed.
    pub open spec fn freed(lease: Lease) -> u64 {
        if !lease.listed && lease.readers == 0 {
            lease.size
        } else {
            0
        }
    }

    fn settle(&mut self, at: usize, lease: Lease)
        requires
            old(self).wf(),
            at < old(self).leases@.len(),
            lease.index == old(self).leases@[at as int].index,
            lease.size == old(self).leases@[at as int].size,
        ensures
            final(self).wf(),
            final(self).leases@ == Self::settled(old(self).leases@, at as int, lease),
            final(self).staged.used == old(self).staged.used - Self::freed(lease),
            final(self).staged.limit == old(self).staged.limit,
            *final(self) == (Delivery {
                leases: final(self).leases,
                staged: final(self).staged,
                ..*old(self)
            }),
    {
        if !lease.listed && lease.readers == 0 {
            self.drop_lease(at);
        } else {
            proof {
                lemma_leased_same(self.leases@, at as int, lease);
            }
            self.leases.set(at, lease);
        }
    }

    /// Gives up a payload: it cannot be opened again. Its bytes stay counted
    /// while it is being read.
    pub fn release(&mut self, index: usize)
        requires
            old(self).wf(),
        ensures
            final(self).wf(),
            !is_ready(final(self).leases@, index),
            if exists|at: int| #[trigger] holds_at(old(self).leases@, at, index) {
                exists|at: int|
                    {
                        let lease = Lease { listed: false, ..old(self).leases@[at] };
                        &&& #[trigger] holds_at(old(self).leases@, at, index)
                        &&& final(self).leases@ == Self::settled(old(self).leases@, at, lease)
                        &&& final(self).staged.used == old(self).staged.used - Self::freed(lease)
                        &&& final(self).staged.limit == old(self).staged.limit
                        &&& *final(self) == (Delivery {
                            leases: final(self).leases,
                            staged: final(self).staged,
                            ..*old(self)
                        })
                    }
            } else {
                *final(self) == *old(self)
            },
    {
        match self.find(index) {
            Some(at) => {
                let ghost before = self.leases@;
                let lease = Lease { listed: false, ..self.leases[at] };
                self.settle(at, lease);
                proof {
                    assert(holds_at(before, at as int, index));
                    assert forall|i: int| #[trigger]
                        holds_at(self.leases@, i, index) implies !self.leases@[i].listed by {
                        lemma_only_holder(before, at as int, lease, i);
                    }
                }
            },
            None => {},
        }
    }

    /// Ends one reading of a payload.
    pub fn close(&mut self, index: usize)
        requires
            old(self).wf(),
            exists|at: int| #[trigger]
                holds_at(old(self).leases@, at, index) && old(self).leases@[at].readers > 0,
        ensures
            final(self).wf(),
            exists|at: int|
                {
                    let lease = Lease {
                        readers: (old(self).leases@[at].readers - 1) as usize,
                        ..old(self).leases@[at]
                    };
                    &&& #[trigger] holds_at(old(self).leases@, at, index)
                    &&& final(self).leases@ == Self::settled(old(self).leases@, at, lease)
                    &&& final(self).staged.used == old(self).staged.used - Self::freed(lease)
                    &&& final(self).staged.limit == old(self).staged.limit
                    &&& *final(self) == (Delivery {
                        leases: final(self).leases,
                        staged: final(self).staged,
                        ..*old(self)
                    })
                },
    {
        match self.find(index) {
            Some(at) => {
                proof {
                    let other = choose|other: int| #[trigger]
                        holds_at(self.leases@, other, index) && self.leases@[other].readers > 0;
                    if other < at {
                        assert(self.leases@[other].index != self.leases@[at as int].index);
                    } else if other > at {
                        assert(self.leases@[at as int].index != self.leases@[other].index);
                    }
                }
                let held = self.leases[at];
                let lease = Lease { readers: held.readers - 1, ..held };
                let ghost before = self.leases@;
                self.settle(at, lease);
                assert(holds_at(before, at as int, index));
            },
            None => {},
        }
    }

    /// Records how decoding ended.
    pub fn finish(&mut self, outcome: Result<()>)
        requires
            old(self).wf(),
        ensures
            final(self).wf(),
            *final(self) == (Delivery {
                error: match outcome {
                    Ok(()) => None,
                    Err(error) => Some(error),
                },
                done: true,
                ..*old(self)
            }),
    {
        self.error = match outcome {
            Ok(()) => None,
            Err(error) => Some(error),
        };
        self.done = true;
    }

    pub fn cancel(&mut self)
        requires
            old(self).wf(),
        ensures
            final(self).wf(),
            *final(self) == (Delivery { cancelled: true, ..*old(self) }),
    {
        self.cancelled = true;
    }
}

/// Where a member's lease is changed or dropped, whatever is still there for the
/// member is the changed lease.
proof fn lemma_only_holder(leases: Seq<Lease>, at: int, lease: Lease, i: int)
    requires
        are_distinct(leases),
        0 <= at < leases.len(),
        lease.index == leases[at].index,
        holds_at(Delivery::settled(leases, at, lease), i, lease.index),
    ensures
        Delivery::settled(leases, at, lease)[i] == lease,
{
    let after = Delivery::settled(leases, at, lease);
    if !lease.listed && lease.readers == 0 {
        if i < at {
            assert(after[i] == leases[i]);
            assert(leases[i].index != leases[at].index);
        } else {
            assert(after[i] == leases[i + 1]);
            assert(leases[at].index != leases[i + 1].index);
        }
    } else if i < at {
        assert(leases[i].index != leases[at].index);
    } else if i > at {
        assert(leases[at].index != leases[i].index);
    }
}

/// The leases that outlive the end of a delivery: those being read.
pub open spec fn kept(leases: Seq<Lease>) -> Seq<Lease>
    decreases leases.len(),
{
    if leases.len() == 0 {
        Seq::empty()
    } else if leases.last().readers > 0 {
        kept(leases.drop_last()).push(Lease { listed: false, ..leases.last() })
    } else {
        kept(leases.drop_last())
    }
}

proof fn lemma_kept(leases: Seq<Lease>)
    requires
        are_distinct(leases),
    ensures
        are_distinct(kept(leases)),
        leased(kept(leases)) <= leased(leases),
        forall|i: int|
            0 <= i < kept(leases).len() ==> exists|j: int|
                0 <= j < leases.len() && (#[trigger] leases[j]).index == (
                #[trigger] kept(leases)[i]).index,
        forall|i: int| 0 <= i < kept(leases).len() ==> !(#[trigger] kept(leases)[i]).listed,
    decreases leases.len(),
{
    if leases.len() > 0 {
        let earlier = leases.drop_last();
        lemma_kept(earlier);
        let rest = kept(earlier);
        assert forall|i: int| 0 <= i < rest.len() implies exists|j: int|
            0 <= j < leases.len() && (#[trigger] leases[j]).index == (#[trigger] rest[i]).index by {
            let j = choose|j: int|
                0 <= j < earlier.len() && (#[trigger] earlier[j]).index == rest[i].index;
            assert(leases[j] == earlier[j]);
        }
        if leases.last().readers > 0 {
            let all = kept(leases);
            let top = leases.len() - 1;
            assert(all.drop_last() =~= rest);
            assert(leases[top].index == all.last().index);
            assert forall|i: int, j: int| 0 <= i < j < all.len() implies (
            #[trigger] all[i]).index != (#[trigger] all[j]).index by {
                if j == rest.len() {
                    let k = choose|k: int|
                        0 <= k < earlier.len() && (#[trigger] earlier[k]).index == rest[i].index;
                    assert(leases[k] == earlier[k]);
                    assert(leases[k].index != leases[top].index);
                }
            }
            assert forall|i: int| 0 <= i < all.len() implies exists|j: int|
                0 <= j < leases.len() && (#[trigger] leases[j]).index == (
                #[trigger] all[i]).index by {
                if i < rest.len() {
                    assert(all[i] == rest[i]);
                } else {
                    assert(leases[top].index == all[i].index);
                }
            }
        }
    }
}

impl Delivery {
    /// Ends the delivery: nothing can be opened any more, and what is not being
    /// read is dropped.
    pub fn stop(&mut self)
        requires
            old(self).wf(),
        ensures
            final(self).wf(),
            final(self).cancelled,
            final(self).leases@ == kept(old(self).leases@),
            final(self).staged.limit == old(self).staged.limit,
            final(self).staged.used == old(self).staged.used - (leased(old(self).leases@) - leased(
                kept(old(self).leases@),
            )),
            *final(self) == (Delivery {
                leases: final(self).leases,
                staged: final(self).staged,
                cancelled: true,
                ..*old(self)
            }),
    {
        let ghost before = *self;
        let ghost given = self.leases@;
        let mut left: Vec<Lease> = Vec::new();
        let mut i: usize = 0;
        while i < self.leases.len()
            invariant
                i <= self.leases@.len(),
                self.leases@ == given,
                before.wf(),
                before.leases@ == given,
                *self == (Delivery { staged: self.staged, ..before }),
                self.staged.limit == before.staged.limit,
                left@ == kept(given.take(i as int)),
                self.staged.used == before.staged.used - (leased(given.take(i as int)) - leased(
                    left@,
                )),
                leased(given) <= before.staged.used,
                leased(left@) <= leased(given.take(i as int)),
            decreases given.len() - i,
        {
            let lease = self.leases[i];
            proof {
                let next = given.take(i + 1);
                assert(next.drop_last() =~= given.take(i as int));
                assert(next.last() == lease);
                lemma_leased_prefix(given, i + 1);
            }
            if lease.readers > 0 {
                let unlisted = Lease { listed: false, ..lease };
                let ghost earlier = left@;
                left.push(unlisted);
                assert(left@.drop_last() =~= earlier);
            } else {
                self.staged.give_back(lease.size);
            }
            i = i + 1;
        }
        proof {
            assert(given.take(i as int) =~= given);
            lemma_kept(given);
        }
        self.leases = left;
        self.cancelled = true;
        proof {
            assert forall|k: int| 0 <= k < self.leases@.len() implies self.published@.contains(
                (#[trigger] self.leases@[k]).index,
            ) by {
                assert(self.leases@[k] == kept(given)[k]);
                let j = choose|j: int|
                    0 <= j < given.len() && (#[trigger] given[j]).index == kept(given)[k].index;
                assert(before.published@.contains(given[j].index));
            }
        }
    }
}

proof fn lemma_leased_prefix(leases: Seq<Lease>, upto: int)
    requires
        0 <= upto <= leases.len(),
    ensures
        leased(leases.take(upto)) <= leased(leases),
    decreases leases.len(),
{
    if upto == leases.len() {
        assert(leases.take(upto) =~= leases);
    } else {
        lemma_leased_prefix(leases.drop_last(), upto);
        assert(leases.drop_last().take(upto) =~= leases.take(upto));
    }
}

/// The next selected member a decoder works towards.
pub fn next_selected(indices: &[usize], current: usize, last: usize) -> (next: usize)
    requires
        is_last(indices@, last),
        current <= last,
    ensures
        current <= next <= last,
        is_selected(indices@, next as int),
        forall|i: int| current <= i < next ==> !#[trigger] is_selected(indices@, i),
{
    let mut next: usize = last;
    let mut k: usize = 0;
    while k < indices.len()
        invariant
            k <= indices@.len(),
            current <= next <= last,
            is_last(indices@, last),
            is_selected(indices@, next as int),
            forall|j: int|
                0 <= j < k && current <= #[trigger] indices@[j] ==> next <= indices@[j],
        decreases indices@.len() - k,
    {
        let index: usize = indices[k];
        if current <= index && index < next {
            next = index;
            assert(indices@[k as int] == next);
        }
        k = k + 1;
    }
    next
}

/// A source of a delivery: the member, and how large it is declared to be.
#[derive(Debug, Clone, Copy, PartialEq, Eq, Structural)]
pub struct DeliverySource {
    pub index: usize,
    pub size: u64,
}

/// The sources of a selection, in the order asked for.
pub fn delivery_sources(members: &[ArchiveMemberMeta], indices: &[usize]) -> (r: Result<
    Vec<DeliverySource>,
>)
    ensures
        match r {
            Ok(sources) => sources@ == Seq::new(
                indices@.len(),
                |k: int|
                    DeliverySource {
                        index: indices@[k],
                        size: members@[indices@[k] as int].unpacked_size,
                    },
            ),
            Err(error) => error == Error::EntryNotFound,
        },
        r is Ok <==> forall|k: int|
            0 <= k < indices@.len() ==> #[trigger] indices@[k] < members@.len(),
{
    let mut sources: Vec<DeliverySource> = Vec::new();
    let mut k: usize = 0;
    while k < indices.len()
        invariant
            k <= indices@.len(),
            sources@ == Seq::new(
                k as nat,
                |j: int|
                    DeliverySource {
                        index: indices@[j],
                        size: members@[indices@[j] as int].unpacked_size,
                    },
            ),
            forall|j: int| 0 <= j < k ==> #[trigger] indices@[j] < members@.len(),
        decreases indices@.len() - k,
    {
        let index: usize = indices[k];
        if index >= members.len() {
            return Err(Error::EntryNotFound);
        }
        sources.push(DeliverySource { index, size: members[index].unpacked_size });
        k = k + 1;
    }
    Ok(sources)
}

/// Whether a writer asked for everything that was selected.
pub open spec fn is_all_requested(indices: Seq<usize>, requested: Option<usize>) -> bool {
    match requested {
        Some(index) => is_last(indices, index),
        None => indices.len() == 0,
    }
}

fn all_requested(indices: &[usize], requested: Option<usize>) -> (answer: bool)
    ensures
        answer == is_all_requested(indices@, requested),
{
    let mut furthest: Option<usize> = None;
    let mut k: usize = 0;
    while k < indices.len()
        invariant
            k <= indices@.len(),
            match furthest {
                Some(index) => is_last(indices@.take(k as int), index),
                None => k == 0,
            },
        decreases indices@.len() - k,
    {
        let index: usize = indices[k];
        proof {
            let next = indices@.take(k + 1);
            assert(next[k as int] == index);
            assert forall|j: int| 0 <= j < k implies next[j] == indices@.take(k as int)[j] by {}
        }
        furthest = match furthest {
            Some(earlier) => if earlier > index {
                Some(earlier)
            } else {
                Some(index)
            },
            None => Some(index),
        };
        k = k + 1;
    }
    proof {
        assert(indices@.take(k as int) =~= indices@);
    }
    match (furthest, requested) {
        (Some(a), Some(b)) => a == b,
        (None, None) => true,
        _ => false,
    }
}

/// Whether decoding is stopped once the writer is done: it failed, or left
/// something unread.
pub fn ends_early(indices: &[usize], requested: Option<usize>, failed: bool) -> (answer: bool)
    ensures
        answer == (failed || !is_all_requested(indices@, requested)),
{
    failed || !all_requested(indices, requested)
}

/// The outcome of a rewrite. The writer's failure comes before the decoder's, and
/// a decoder that was stopped because nothing more was wanted has not failed.
pub fn resolve<T>(
    indices: &[usize],
    requested: Option<usize>,
    written: Result<T>,
    decoded: Result<()>,
) -> (r: Result<T>)
    ensures
        r == (match (written, decoded) {
            (Err(error), _) => Err(error),
            (Ok(value), Ok(())) => Ok(value),
            (Ok(value), Err(error)) => if error == Error::Cancelled && !is_all_requested(
                indices@,
                requested,
            ) {
                Ok(value)
            } else {
                Err(error)
            },
        }),
{
    let value = match written {
        Ok(value) => value,
        Err(error) => {
            return Err(error);
        },
    };
    match decoded {
        Ok(()) => Ok(value),
        Err(error) => match error {
            Error::Cancelled => {
                if all_requested(indices, requested) {
                    Err(error)
                } else {
                    Ok(value)
                }
            },
            _ => Err(error),
        },
    }
}

/// A payload that was given up or had no reader left cannot be opened again: as
/// long as nothing failed, opening it says that it was consumed.
pub proof fn law_consumed_sources_stay_consumed(delivery: Delivery, index: usize)
    requires
        delivery.wf(),
        delivery.published@.contains(index),
        !is_ready(delivery.leases@, index),
        delivery.error is None,
        !delivery.cancelled,
    ensures
        delivery.opening(index) == Opening::Failed(
            Error::WriterFailure("rewrite source already consumed"),
        ),
{
}

/// What has not been handed over is waited for only while decoding goes on.
pub proof fn law_waiting_ends_with_decoding(delivery: Delivery, index: usize)
    requires
        delivery.wf(),
    ensures
        delivery.done || delivery.cancelled || delivery.error is Some ==> !(delivery.opening(
            index,
        ) is Wait),
        delivery.opening(index) is Opened ==> delivery.published@.contains(index),
{
    if is_ready(delivery.leases@, index) {
        let at = choose|at: int| #[trigger]
            holds_at(delivery.leases@, at, index) && delivery.leases@[at].listed;
        assert(delivery.published@.contains(delivery.leases@[at].index));
    }
}

/// Payloads that are kept never exceed the limit together.
pub proof fn law_leases_stay_within_the_limit(delivery: Delivery)
    requires
        delivery.wf(),
    ensures
        leased(delivery.leases@) <= delivery.staged.limit,
{
}

/// A member that is asked for is due from then on, with everything that was due before.
pub proof fn law_requests_only_grow(requested: Option<usize>, index: usize)
    ensures
        index <= further(requested, index),
        requested matches Some(earlier) ==> earlier <= further(requested, index),
        further(requested, index) == index || requested == Some(further(requested, index)),
{
}

/// A payload stays as long as it can still be opened or is being read, and no longer. Its
/// bytes are given back when it goes, no sooner and no more than they were. No other
/// payload is touched.
pub proof fn law_a_payload_stays_while_it_is_wanted(leases: Seq<Lease>, at: int, lease: Lease)
    requires
        are_distinct(leases),
        0 <= at < leases.len(),
        lease.index == leases[at].index,
        lease.size == leases[at].size,
    ensures
        ({
            let after = Delivery::settled(leases, at, lease);
            &&& after.contains(lease) <==> lease.listed || lease.readers > 0
            &&& after.len() == leases.len() || after.len() == leases.len() - 1
            &&& Delivery::freed(lease) + leased(after) == leased(leases)
            &&& forall|i: int|
                0 <= i < leases.len() && i != at ==> after.contains(#[trigger] leases[i])
            &&& is_ready(after, lease.index) <==> lease.listed
        }),
{
    let after = Delivery::settled(leases, at, lease);
    let gone = !lease.listed && lease.readers == 0;
    if gone {
        lemma_leased_without(leases, at);
        if after.contains(lease) {
            let i = choose|i: int| 0 <= i < after.len() && after[i] == lease;
            let place = if i < at { i } else { i + 1 };
            assert(after[i] == leases[place]);
            assert(leases[place].index == leases[at].index);
        }
    } else {
        lemma_leased_same(leases, at, lease);
        assert(after[at] == lease);
        assert(holds_at(after, at, lease.index));
    }
    assert forall|i: int| 0 <= i < leases.len() && i != at implies after.contains(
        #[trigger] leases[i],
    ) by {
        let place = if gone && i > at { i - 1 } else { i };
        assert(after[place] == leases[i]);
    }
    if is_ready(after, lease.index) {
        let i = choose|i: int| #[trigger] holds_at(after, i, lease.index) && after[i].listed;
        lemma_only_holder(leases, at, lease, i);
    }
}

/// A delivery that stops keeps just what is being read, and nobody opens that again.
pub proof fn law_stopping_keeps_what_is_being_read(leases: Seq<Lease>)
    ensures
        forall|i: int|
            0 <= i < leases.len() && (#[trigger] leases[i]).readers > 0 ==> kept(leases).contains(
                Lease { listed: false, ..leases[i] },
            ),
        forall|k: int|
            0 <= k < kept(leases).len() ==> {
                &&& (#[trigger] kept(leases)[k]).readers > 0
                &&& !kept(leases)[k].listed
            },
        kept(leases).len() <= leases.len(),
    decreases leases.len(),
{
    if leases.len() > 0 {
        let fewer = leases.drop_last();
        let last = Lease { listed: false, ..leases.last() };
        law_stopping_keeps_what_is_being_read(fewer);
        assert forall|i: int|
            0 <= i < leases.len() && (#[trigger] leases[i]).readers > 0 implies kept(
            leases,
        ).contains(Lease { listed: false, ..leases[i] }) by {
            let own = Lease { listed: false, ..leases[i] };
            if i < fewer.len() {
                assert(fewer[i] == leases[i]);
                let k = choose|k: int| 0 <= k < kept(fewer).len() && kept(fewer)[k] == own;
                assert(kept(leases)[k] == own);
            } else {
                assert(kept(leases)[kept(fewer).len() as int] == last);
            }
        }
    }
}

/// Everything has been asked for when nothing that was selected lies behind the furthest
/// member asked for.
pub proof fn law_all_is_requested_up_to_the_last(indices: Seq<usize>, requested: Option<usize>)
    requires
        requested matches Some(index) ==> indices.contains(index),
    ensures
        is_all_requested(indices, requested) <==> forall|k: int|
            0 <= k < indices.len() ==> requested is Some && #[trigger] indices[k] <= requested->0,
{
    match requested {
        Some(index) => {
            let k = choose|k: int| 0 <= k < indices.len() && indices[k] == index;
            assert(indices[k] == index);
            assert(is_selected(indices, index as int));
        },
        None => {
            if indices.len() > 0 {
                let first = indices[0];
                assert(!(requested is Some && first <= requested->0));
            }
        },
    }
}

} // verus!
