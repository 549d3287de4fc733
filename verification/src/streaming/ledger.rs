//! Quotas. A ledger holds what is in use against a limit; a charge is one
//! owner's share of it. Growth is admitted before anything is allocated, and
//! fails at once rather than waiting: no owner could make progress by waiting
//! for storage it must itself retain.

use vstd::prelude::*;

use crate::error::{Error, Result};
#[allow(unused_imports)]
use crate::error::{kind_of, ErrorKind};

verus! {

/// What a ledger counts.
#[derive(Debug, Clone, Copy, PartialEq, Eq, Structural)]
pub enum StorageResource {
    /// Logical lengths of spools.
    LogicalBytes,
    /// Blocks and indexes of spools held in memory.
    PayloadMemory,
    /// Header images that wait to be emitted.
    PreparedHeaders,
    /// Header scratch, images and descriptor arrays.
    Preparation,
    /// All managed capacity.
    Execution,
}

/// What is in use against a limit.
#[verifier::ext_equal]
pub struct LedgerView {
    pub resource: StorageResource,
    pub limit: u64,
    pub used: u64,
}

/// A quota and what is in use of it.
#[derive(Debug)]
pub struct StorageBudget {
    resource: StorageResource,
    limit: u64,
    used: u64,
}

impl StorageBudget {
    /// What is in use never passes the limit.
    #[verifier::type_invariant]
    spec fn well_formed(self) -> bool {
        self.used <= self.limit
    }
}

impl View for StorageBudget {
    type V = LedgerView;

    closed spec fn view(&self) -> LedgerView {
        LedgerView { resource: self.resource, limit: self.limit, used: self.used }
    }
}

/// The refusal of growth to `required` bytes in all.
pub open spec fn refusal(ledger: LedgerView, required: u64) -> Error {
    let limit = ledger.limit;
    let used = ledger.used;
    match ledger.resource {
        StorageResource::LogicalBytes => Error::WriterSpoolLimitExceeded { limit, required, used },
        StorageResource::PayloadMemory => Error::WriterSpoolMemoryLimitExceeded {
            limit,
            required,
            used,
        },
        StorageResource::PreparedHeaders => Error::WriterPreparedHeaderLimitExceeded {
            limit,
            required,
            used,
        },
        StorageResource::Preparation => Error::WriterPreparationLimitExceeded {
            limit,
            required,
            used,
        },
        StorageResource::Execution => Error::MemoryLimitExceeded {
            limit,
            required,
            dictionary_size: 0,
        },
    }
}

/// What growth would bring the total to, or the largest number where it does
/// not fit one.
pub open spec fn total_after(ledger: LedgerView, growth: u64) -> u64 {
    if ledger.used + growth > u64::MAX {
        u64::MAX
    } else {
        (ledger.used + growth) as u64
    }
}

/// Whether the limit leaves room for this growth. No growth always fits.
pub open spec fn admits(ledger: LedgerView, growth: u64) -> bool {
    growth == 0 || ledger.used + growth <= ledger.limit
}

/// The ledger after growth that was admitted.
pub open spec fn grown(ledger: LedgerView, growth: u64) -> LedgerView {
    LedgerView { used: (ledger.used + growth) as u64, ..ledger }
}

/// The ledger after a release.
pub open spec fn released(ledger: LedgerView, amount: u64) -> LedgerView {
    LedgerView {
        used: if ledger.used >= amount {
            (ledger.used - amount) as u64
        } else {
            0
        },
        ..ledger
    }
}

impl StorageBudget {
    pub fn new(resource: StorageResource, limit: u64) -> (budget: StorageBudget)
        ensures
            budget@ == (LedgerView { resource, limit, used: 0 }),
    {
        StorageBudget { resource, limit, used: 0 }
    }

    pub fn limit(&self) -> (limit: u64)
        ensures
            limit == self@.limit,
    {
        self.limit
    }

    pub fn used(&self) -> (used: u64)
        ensures
            used == self@.used,
            used <= self@.limit,
    {
        proof {
            use_type_invariant(self);
        }
        self.used
    }

    /// Takes in growth, or refuses it and leaves the ledger as it was.
    pub fn reserve(&mut self, growth: u64) -> (r: Result<()>)
        ensures
            if admits(old(self)@, growth) {
                r is Ok && final(self)@ == grown(old(self)@, growth)
            } else {
                r == Err::<(), Error>(refusal(old(self)@, total_after(old(self)@, growth)))
                    && final(self)@ == old(self)@
            },
            final(self)@.used <= final(self)@.limit,
    {
        proof {
            use_type_invariant(&*self);
        }
        if growth == 0 {
            assert(grown(self@, 0) == self@);
            return Ok(());
        }
        let limit: u64 = self.limit;
        let used: u64 = self.used;
        let required: u64 = match used.checked_add(growth) {
            Some(required) => {
                if required <= limit {
                    self.used = required;
                    return Ok(());
                }
                required
            },
            None => u64::MAX,
        };
        Err(
            match self.resource {
                StorageResource::LogicalBytes => Error::WriterSpoolLimitExceeded {
                    limit,
                    required,
                    used,
                },
                StorageResource::PayloadMemory => Error::WriterSpoolMemoryLimitExceeded {
                    limit,
                    required,
                    used,
                },
                StorageResource::PreparedHeaders => Error::WriterPreparedHeaderLimitExceeded {
                    limit,
                    required,
                    used,
                },
                StorageResource::Preparation => Error::WriterPreparationLimitExceeded {
                    limit,
                    required,
                    used,
                },
                StorageResource::Execution => Error::MemoryLimitExceeded {
                    limit,
                    required,
                    dictionary_size: 0,
                },
            },
        )
    }

    /// Gives back what an owner no longer holds.
    pub fn release(&mut self, amount: u64)
        ensures
            final(self)@ == released(old(self)@, amount),
            final(self)@.used <= final(self)@.limit,
    {
        proof {
            use_type_invariant(&*self);
        }
        self.used = if self.used >= amount {
            self.used - amount
        } else {
            0
        };
    }
}

/// Admission keeps what is in use within the limit.
pub proof fn law_use_stays_within_the_limit(ledger: LedgerView, growth: u64)
    requires
        ledger.used <= ledger.limit,
        admits(ledger, growth),
    ensures
        grown(ledger, growth).used <= ledger.limit,
{
}

/// Giving back what was admitted leaves the ledger as it was.
pub proof fn law_release_undoes_admission(ledger: LedgerView, growth: u64)
    requires
        ledger.used <= ledger.limit,
        admits(ledger, growth),
    ensures
        released(grown(ledger, growth), growth) == ledger,
{
    assert(released(grown(ledger, growth), growth) =~= ledger);
}

/// A refused growth would have passed the limit, and the refusal says by what
/// the total would have come to; every refusal is one of a resource limit.
pub proof fn law_refusals_are_resource_limits(ledger: LedgerView, growth: u64)
    requires
        !admits(ledger, growth),
    ensures
        total_after(ledger, growth) > ledger.limit || ledger.used + growth > u64::MAX,
        kind_of(refusal(ledger, total_after(ledger, growth))) == ErrorKind::ResourceLimit,
{
}

/// One owner's share of a ledger.
#[derive(Debug)]
pub struct StorageCharge {
    pub bytes: u64,
}

pub open spec fn growth_to(held: u64, wanted: u64) -> u64 {
    if wanted > held {
        (wanted - held) as u64
    } else {
        0
    }
}

impl StorageCharge {
    pub fn new() -> (charge: StorageCharge)
        ensures
            charge.bytes == 0,
    {
        StorageCharge { bytes: 0 }
    }

    /// Grows this share to `bytes`. A refusal leaves share and ledger as they
    /// were; a smaller amount than is held changes nothing.
    pub fn grow_to(&mut self, bytes: u64, budget: &mut StorageBudget) -> (r: Result<()>)
        ensures
            ({
                let growth = growth_to(old(self).bytes, bytes);
                if admits(old(budget)@, growth) {
                    &&& r is Ok
                    &&& final(budget)@ == grown(old(budget)@, growth)
                    &&& final(self).bytes == old(self).bytes + growth
                } else {
                    &&& r == Err::<(), Error>(
                        refusal(old(budget)@, total_after(old(budget)@, growth)),
                    )
                    &&& final(budget)@ == old(budget)@
                    &&& final(self).bytes == old(self).bytes
                }
            }),
    {
        if bytes <= self.bytes {
            assert(grown(budget@, 0) == budget@);
            return Ok(());
        }
        match budget.reserve(bytes - self.bytes) {
            Ok(()) => {
                self.bytes = bytes;
                Ok(())
            },
            Err(error) => Err(error),
        }
    }

    /// Shrinks this share to `bytes`.
    pub fn shrink_to(&mut self, bytes: u64, budget: &mut StorageBudget)
        requires
            bytes <= old(self).bytes,
        ensures
            final(self).bytes == bytes,
            final(budget)@ == released(old(budget)@, (old(self).bytes - bytes) as u64),
    {
        budget.release(self.bytes - bytes);
        self.bytes = bytes;
    }
}

impl Default for StorageCharge {
    fn default() -> (charge: StorageCharge)
        ensures
            charge.bytes == 0,
    {
        StorageCharge::new()
    }
}

/// The budget that compression workspaces are admitted against. Unlike a
/// quota, a job waits for it.
#[derive(Debug)]
pub struct MemoryBudget {
    limit: u64,
    used: u64,
}

/// What comes of asking for workspace.
#[derive(Debug, Clone, Copy, PartialEq, Eq)]
pub enum Admission {
    /// The workspace is held until it is released.
    Granted(u64),
    /// Others hold too much; ask again when one has released.
    Wait,
    /// Asking again will not help.
    Refused(Error),
}

impl MemoryBudget {
    pub closed spec fn total(&self) -> u64 {
        self.limit
    }

    pub closed spec fn in_use(&self) -> u64 {
        self.used
    }

    pub fn new(limit: u64) -> (budget: MemoryBudget)
        ensures
            budget.total() == limit,
            budget.in_use() == 0,
    {
        MemoryBudget { limit, used: 0 }
    }

    pub fn limit(&self) -> (limit: u64)
        ensures
            limit == self.total(),
    {
        self.limit
    }

    pub fn used(&self) -> (used: u64)
        ensures
            used == self.in_use(),
    {
        self.used
    }

    /// Takes `bytes` where the limit leaves room for them.
    pub fn try_take(&mut self, bytes: u64) -> (taken: bool)
        ensures
            final(self).total() == old(self).total(),
            taken == (old(self).total() >= old(self).in_use() && old(self).total() - old(self).in_use() >= bytes || bytes == 0),
            final(self).in_use() == (if taken {
                old(self).in_use() + bytes
            } else {
                old(self).in_use() as int
            }),
    {
        let room: u64 = if self.limit >= self.used {
            self.limit - self.used
        } else {
            0
        };
        if room >= bytes {
            self.used = self.used + bytes;
            true
        } else {
            false
        }
    }

    /// Gives workspace back.
    pub fn give_back(&mut self, bytes: u64)
        ensures
            final(self).total() == old(self).total(),
            final(self).in_use() == (if old(self).in_use() >= bytes {
                old(self).in_use() - bytes
            } else {
                0
            }),
    {
        self.used = if self.used >= bytes {
            self.used - bytes
        } else {
            0
        };
    }
}

} // verus!
