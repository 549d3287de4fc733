//! The policy of a streaming writer: workspace limit, quotas, temporary files
//! and cancellation.

use vstd::prelude::*;

use crate::error::{Error, Result};
use crate::streaming::cancellation::WriteCancellation;
use crate::streaming::ledger::{Admission, MemoryBudget, StorageBudget, StorageResource};
#[allow(unused_imports)]
use crate::streaming::ledger::{
    admits, grown, growth_to, refusal, released, total_after, LedgerView,
};

verus! {

/// Default compression workspace limit, 256 MiB.
pub const DEFAULT_WRITER_MEMORY_LIMIT: u64 = 0x1000_0000;

#[verifier::ext_equal]
pub struct ResourcesView {
    pub memory_limit: u64,
    pub workspace_used: u64,
    pub temp_dir: Option<Seq<char>>,
    pub spool: Option<LedgerView>,
    pub spool_memory: Option<LedgerView>,
    pub prepared_headers: Option<LedgerView>,
    pub preparation: Option<LedgerView>,
    pub execution: Option<LedgerView>,
    pub cancelled: Option<bool>,
}

impl ResourcesView {
    /// Whether writes under this policy are to stop.
    pub open spec fn is_stopped(self) -> bool {
        self.cancelled == Some(true)
    }
}

/// Compression-workspace and temporary-file policy of a writer.
///
/// The workspace limit is not a total process-RAM or temporary-disk quota; each
/// quota is set on its own. Configure before work is dispatched.
#[derive(Debug)]
pub struct WriterResources {
    budget: MemoryBudget,
    temp_dir: Option<String>,
    spool_budget: Option<StorageBudget>,
    spool_memory_budget: Option<StorageBudget>,
    prepared_header_budget: Option<StorageBudget>,
    preparation_budget: Option<StorageBudget>,
    execution: Option<StorageBudget>,
    cancellation: Option<WriteCancellation>,
}

pub open spec fn ledger_of(budget: Option<StorageBudget>) -> Option<LedgerView> {
    match budget {
        Some(budget) => Some(budget@),
        None => None,
    }
}

pub open spec fn limit_of(ledger: Option<LedgerView>) -> Option<u64> {
    match ledger {
        Some(ledger) => Some(ledger.limit),
        None => None,
    }
}

pub open spec fn fresh(resource: StorageResource, limit: u64) -> Option<LedgerView> {
    Some(LedgerView { resource, limit, used: 0 })
}

impl View for WriterResources {
    type V = ResourcesView;

    closed spec fn view(&self) -> ResourcesView {
        ResourcesView {
            memory_limit: self.budget.total(),
            workspace_used: self.budget.in_use(),
            temp_dir: match self.temp_dir {
                Some(path) => Some(path@),
                None => None,
            },
            spool: ledger_of(self.spool_budget),
            spool_memory: ledger_of(self.spool_memory_budget),
            prepared_headers: ledger_of(self.prepared_header_budget),
            preparation: ledger_of(self.preparation_budget),
            execution: ledger_of(self.execution),
            cancelled: match self.cancellation {
                Some(signal) => Some(signal.is_set()),
                None => None,
            },
        }
    }
}

impl Default for WriterResources {
    fn default() -> (resources: WriterResources)
        ensures
            resources@ == unlimited(DEFAULT_WRITER_MEMORY_LIMIT),
    {
        WriterResources::new(DEFAULT_WRITER_MEMORY_LIMIT)
    }
}

/// A policy with a workspace limit and nothing else.
pub open spec fn unlimited(memory_limit: u64) -> ResourcesView {
    ResourcesView {
        memory_limit,
        workspace_used: 0,
        temp_dir: None,
        spool: None,
        spool_memory: None,
        prepared_headers: None,
        preparation: None,
        execution: None,
        cancelled: None,
    }
}

fn budget_limit(budget: &Option<StorageBudget>) -> (limit: Option<u64>)
    ensures
        limit == limit_of(ledger_of(*budget)),
{
    match budget {
        Some(budget) => Some(budget.limit()),
        None => None,
    }
}

impl WriterResources {
    pub fn new(memory_limit: u64) -> (resources: WriterResources)
        ensures
            resources@ == unlimited(memory_limit),
    {
        WriterResources {
            budget: MemoryBudget::new(memory_limit),
            temp_dir: None,
            spool_budget: None,
            spool_memory_budget: None,
            prepared_header_budget: None,
            preparation_budget: None,
            execution: None,
            cancellation: None,
        }
    }

    /// Sets a hard ceiling on managed capacity: active work, retained spools
    /// and headers, conversions and owned output.
    pub fn with_max_memory_bytes(self, limit: u64) -> (resources: WriterResources)
        ensures
            resources@ == (ResourcesView {
                execution: fresh(StorageResource::Execution, limit),
                ..self@
            }),
    {
        WriterResources {
            execution: Some(StorageBudget::new(StorageResource::Execution, limit)),
            ..self
        }
    }

    pub fn max_memory_bytes(&self) -> (limit: Option<u64>)
        ensures
            limit == limit_of(self@.execution),
    {
        budget_limit(&self.execution)
    }

    /// Managed capacity in use.
    pub fn managed_memory_in_use(&self) -> (used: u64)
        ensures
            used == (match self@.execution {
                Some(ledger) => ledger.used,
                None => 0,
            }),
            self@.execution matches Some(ledger) ==> used <= ledger.limit,
    {
        match &self.execution {
            Some(budget) => budget.used(),
            None => 0,
        }
    }

    /// Caps the sum of live logical spool lengths, reserved growth included.
    /// Zero allows empty spools only.
    pub fn with_max_spool_bytes(self, limit: u64) -> (resources: WriterResources)
        ensures
            resources@ == (ResourcesView {
                spool: fresh(StorageResource::LogicalBytes, limit),
                ..self@
            }),
    {
        WriterResources {
            spool_budget: Some(StorageBudget::new(StorageResource::LogicalBytes, limit)),
            ..self
        }
    }

    pub fn max_spool_bytes(&self) -> (limit: Option<u64>)
        ensures
            limit == limit_of(self@.spool),
    {
        budget_limit(&self.spool_budget)
    }

    /// Caps payload and index capacity of spools held in memory.
    pub fn with_max_spool_memory_bytes(self, limit: u64) -> (resources: WriterResources)
        ensures
            resources@ == (ResourcesView {
                spool_memory: fresh(StorageResource::PayloadMemory, limit),
                ..self@
            }),
    {
        WriterResources {
            spool_memory_budget: Some(StorageBudget::new(StorageResource::PayloadMemory, limit)),
            ..self
        }
    }

    pub fn max_spool_memory_bytes(&self) -> (limit: Option<u64>)
        ensures
            limit == limit_of(self@.spool_memory),
    {
        budget_limit(&self.spool_memory_budget)
    }

    /// Caps the header images that wait to be emitted, IVs and padding included.
    pub fn with_max_prepared_header_bytes(self, limit: u64) -> (resources: WriterResources)
        ensures
            resources@ == (ResourcesView {
                prepared_headers: fresh(StorageResource::PreparedHeaders, limit),
                ..self@
            }),
    {
        WriterResources {
            prepared_header_budget: Some(
                StorageBudget::new(StorageResource::PreparedHeaders, limit),
            ),
            ..self
        }
    }

    pub fn max_prepared_header_bytes(&self) -> (limit: Option<u64>)
        ensures
            limit == limit_of(self@.prepared_headers),
    {
        budget_limit(&self.prepared_header_budget)
    }

    /// Caps header scratch, images and descriptor arrays, old and replacement
    /// together on growth.
    pub fn with_max_preparation_bytes(self, limit: u64) -> (resources: WriterResources)
        ensures
            resources@ == (ResourcesView {
                preparation: fresh(StorageResource::Preparation, limit),
                ..self@
            }),
    {
        WriterResources {
            preparation_budget: Some(StorageBudget::new(StorageResource::Preparation, limit)),
            ..self
        }
    }

    pub fn max_preparation_bytes(&self) -> (limit: Option<u64>)
        ensures
            limit == limit_of(self@.preparation),
    {
        budget_limit(&self.preparation_budget)
    }

    /// Places temporary spools in this existing directory.
    pub fn with_temp_dir(self, path: String) -> (resources: WriterResources)
        ensures
            resources@ == (ResourcesView { temp_dir: Some(path@), ..self@ }),
    {
        WriterResources { temp_dir: Some(path), ..self }
    }

    pub fn temp_dir(&self) -> (path: Option<&String>)
        ensures
            match path {
                Some(path) => self@.temp_dir == Some(path@),
                None => self@.temp_dir is None,
            },
    {
        match &self.temp_dir {
            Some(path) => Some(path),
            None => None,
        }
    }

    /// Attaches a cancellation signal to the writes that use this policy.
    pub fn with_cancellation(self, cancellation: WriteCancellation) -> (resources: WriterResources)
        ensures
            resources@ == (ResourcesView { cancelled: Some(cancellation.is_set()), ..self@ }),
    {
        WriterResources { cancellation: Some(cancellation), ..self }
    }

    pub fn has_cancellation(&self) -> (answer: bool)
        ensures
            answer == self@.cancelled is Some,
    {
        self.cancellation.is_some()
    }

    pub fn is_cancelled(&self) -> (answer: bool)
        ensures
            answer == (self@.cancelled == Some(true)),
    {
        match &self.cancellation {
            Some(signal) => signal.is_cancelled(),
            None => false,
        }
    }

    pub fn memory_limit(&self) -> (limit: u64)
        ensures
            limit == self@.memory_limit,
    {
        self.budget.limit()
    }

    /// Compression workspace that is held.
    pub fn workspace_in_use(&self) -> (used: u64)
        ensures
            used == self@.workspace_used,
    {
        self.budget.used()
    }

    /// Preparation capacity that is held.
    pub fn preparation_in_use(&self) -> (used: u64)
        ensures
            used == (match self@.preparation {
                Some(ledger) => ledger.used,
                None => 0,
            }),
    {
        match &self.preparation_budget {
            Some(budget) => budget.used(),
            None => 0,
        }
    }

    /// Logical spool bytes that are held.
    pub fn spool_in_use(&self) -> (used: u64)
        ensures
            used == (match self@.spool {
                Some(ledger) => ledger.used,
                None => 0,
            }),
    {
        match &self.spool_budget {
            Some(budget) => budget.used(),
            None => 0,
        }
    }

    /// Prepared-header bytes that are held.
    pub fn prepared_headers_in_use(&self) -> (used: u64)
        ensures
            used == (match self@.prepared_headers {
                Some(ledger) => ledger.used,
                None => 0,
            }),
    {
        match &self.prepared_header_budget {
            Some(budget) => budget.used(),
            None => 0,
        }
    }

    /// Memory-spool capacity that is held.
    pub fn spool_memory_in_use(&self) -> (used: u64)
        ensures
            used == (match self@.spool_memory {
                Some(ledger) => ledger.used,
                None => 0,
            }),
    {
        match &self.spool_memory_budget {
            Some(budget) => budget.used(),
            None => 0,
        }
    }

    /// Asks for workspace. One that no wait can make room for is refused
    /// before waiting.
    pub fn acquire(
        &mut self,
        required: u64,
        dictionary_size: u64,
        cancelled: bool,
    ) -> (admission: Admission)
        ensures
            ({
                let before = old(self)@;
                let room = before.workspace_used <= before.memory_limit && before.memory_limit
                    - before.workspace_used >= required || required == 0;
                if cancelled || before.cancelled == Some(true) {
                    &&& admission == Admission::Refused(Error::Cancelled)
                    &&& final(self)@ == before
                } else if required > before.memory_limit {
                    &&& admission == Admission::Refused(
                        Error::MemoryLimitExceeded {
                            limit: before.memory_limit,
                            required,
                            dictionary_size,
                        },
                    )
                    &&& final(self)@ == before
                } else if room {
                    &&& admission == Admission::Granted(required)
                    &&& final(self)@ == (ResourcesView {
                        workspace_used: (before.workspace_used + required) as u64,
                        ..before
                    })
                } else {
                    &&& admission == Admission::Wait
                    &&& final(self)@ == before
                }
            }),
    {
        if cancelled || self.is_cancelled() {
            return Admission::Refused(Error::Cancelled);
        }
        let limit: u64 = self.budget.limit();
        if required > limit {
            return Admission::Refused(
                Error::MemoryLimitExceeded { limit, required, dictionary_size },
            );
        }
        if self.budget.try_take(required) {
            Admission::Granted(required)
        } else {
            Admission::Wait
        }
    }

    /// Asks for what a member needs, or for the whole budget where one member
    /// needs more than that: it then runs alone.
    pub fn acquire_serialising(&mut self, required: u64, cancelled: bool) -> (admission: Admission)
        ensures
            ({
                let before = old(self)@;
                let asked = if required > before.memory_limit {
                    before.memory_limit
                } else {
                    required
                };
                let room = before.workspace_used <= before.memory_limit && before.memory_limit
                    - before.workspace_used >= asked || asked == 0;
                if cancelled || before.cancelled == Some(true) {
                    &&& admission == Admission::Refused(Error::Cancelled)
                    &&& final(self)@ == before
                } else if room {
                    &&& admission == Admission::Granted(asked)
                    &&& final(self)@ == (ResourcesView {
                        workspace_used: (before.workspace_used + asked) as u64,
                        ..before
                    })
                } else {
                    &&& admission == Admission::Wait
                    &&& final(self)@ == before
                }
            }),
    {
        if cancelled || self.is_cancelled() {
            return Admission::Refused(Error::Cancelled);
        }
        let limit: u64 = self.budget.limit();
        let asked: u64 = if required > limit {
            limit
        } else {
            required
        };
        if self.budget.try_take(asked) {
            Admission::Granted(asked)
        } else {
            Admission::Wait
        }
    }

    /// Gives workspace back.
    pub fn release_workspace(&mut self, bytes: u64)
        ensures
            final(self)@ == (ResourcesView {
                workspace_used: if old(self)@.workspace_used >= bytes {
                    (old(self)@.workspace_used - bytes) as u64
                } else {
                    0
                },
                ..old(self)@
            }),
    {
        self.budget.give_back(bytes);
    }
}

/// Why a ledger refuses this growth, where it does.
pub open spec fn ledger_refusal(ledger: Option<LedgerView>, growth: u64) -> Option<Error> {
    match ledger {
        Some(ledger) => if admits(ledger, growth) {
            None
        } else {
            Some(refusal(ledger, total_after(ledger, growth)))
        },
        None => None,
    }
}

/// What capacity is held for.
#[derive(Debug, Clone, Copy, PartialEq, Eq, Structural)]
pub enum CapacityClass {
    /// Counted as managed capacity alone.
    Managed,
    Preparation,
    SpoolMemory,
    Spool,
    PreparedHeaders,
}

impl ResourcesView {
    /// The quota of a class.
    pub open spec fn class_ledger(self, class: CapacityClass) -> Option<LedgerView> {
        match class {
            CapacityClass::Managed => None,
            CapacityClass::Preparation => self.preparation,
            CapacityClass::SpoolMemory => self.spool_memory,
            CapacityClass::Spool => self.spool,
            CapacityClass::PreparedHeaders => self.prepared_headers,
        }
    }

    /// The ceiling on managed capacity, where the class counts towards it:
    /// logical spool lengths do not, nor do header images, whose bytes count as
    /// preparation.
    pub open spec fn managed_ledger(self, class: CapacityClass) -> Option<LedgerView> {
        match class {
            CapacityClass::Spool | CapacityClass::PreparedHeaders => None,
            _ => self.execution,
        }
    }

    pub open spec fn with_class_ledger(self, class: CapacityClass, ledger: LedgerView) -> Self {
        match class {
            CapacityClass::Managed => self,
            CapacityClass::Preparation => ResourcesView { preparation: Some(ledger), ..self },
            CapacityClass::SpoolMemory => ResourcesView { spool_memory: Some(ledger), ..self },
            CapacityClass::Spool => ResourcesView { spool: Some(ledger), ..self },
            CapacityClass::PreparedHeaders => ResourcesView {
                prepared_headers: Some(ledger),
                ..self
            },
        }
    }

    /// Why this growth is refused, where it is: the ceiling on managed capacity
    /// speaks first.
    pub open spec fn capacity_refusal(self, class: CapacityClass, growth: u64) -> Option<Error> {
        match ledger_refusal(self.managed_ledger(class), growth) {
            Some(error) => Some(error),
            None => ledger_refusal(self.class_ledger(class), growth),
        }
    }

    /// The ledgers after growth that both admit.
    pub open spec fn after_growth(self, class: CapacityClass, growth: u64) -> Self {
        let managed = match self.managed_ledger(class) {
            Some(ledger) => ResourcesView { execution: Some(grown(ledger, growth)), ..self },
            None => self,
        };
        match self.class_ledger(class) {
            Some(ledger) => managed.with_class_ledger(class, grown(ledger, growth)),
            None => managed,
        }
    }

    /// The ledgers after a release.
    pub open spec fn after_release(self, class: CapacityClass, amount: u64) -> Self {
        let managed = match self.managed_ledger(class) {
            Some(ledger) => ResourcesView { execution: Some(released(ledger, amount)), ..self },
            None => self,
        };
        match self.class_ledger(class) {
            Some(ledger) => managed.with_class_ledger(class, released(ledger, amount)),
            None => managed,
        }
    }
}

fn reserve_in(budget: &mut Option<StorageBudget>, growth: u64) -> (r: Result<()>)
    ensures
        match ledger_of(*old(budget)) {
            None => r is Ok && *final(budget) == *old(budget),
            Some(ledger) => if admits(ledger, growth) {
                r is Ok && ledger_of(*final(budget)) == Some(grown(ledger, growth))
            } else {
                r == Err::<(), Error>(refusal(ledger, total_after(ledger, growth))) && ledger_of(
                    *final(budget),
                ) == Some(ledger)
            },
        },
{
    match budget {
        Some(budget) => budget.reserve(growth),
        None => Ok(()),
    }
}

fn release_in(budget: &mut Option<StorageBudget>, amount: u64)
    ensures
        match ledger_of(*old(budget)) {
            None => *final(budget) == *old(budget),
            Some(ledger) => ledger_of(*final(budget)) == Some(released(ledger, amount)),
        },
{
    match budget {
        Some(budget) => budget.release(amount),
        None => {},
    }
}

impl WriterResources {
    /// Reserves capacity in every ledger that counts it, or in none.
    pub fn reserve_capacity(&mut self, class: CapacityClass, growth: u64) -> (r: Result<()>)
        ensures
            match old(self)@.capacity_refusal(class, growth) {
                Some(error) => r == Err::<(), Error>(error) && final(self)@ == old(self)@,
                None => r is Ok && final(self)@ == old(self)@.after_growth(class, growth),
            },
    {
        let managed: bool = !matches!(
            class,
            CapacityClass::Spool | CapacityClass::PreparedHeaders
        );
        if managed {
            match reserve_in(&mut self.execution, growth) {
                Ok(()) => {},
                Err(error) => {
                    assert(self@ =~= old(self)@);
                    return Err(error);
                },
            }
        }
        let r = match class {
            CapacityClass::Managed => Ok(()),
            CapacityClass::Preparation => reserve_in(&mut self.preparation_budget, growth),
            CapacityClass::SpoolMemory => reserve_in(&mut self.spool_memory_budget, growth),
            CapacityClass::Spool => reserve_in(&mut self.spool_budget, growth),
            CapacityClass::PreparedHeaders => reserve_in(&mut self.prepared_header_budget, growth),
        };
        if r.is_err() && managed {
            // Both ledgers admit it, or both stay as they were.
            release_in(&mut self.execution, growth);
            proof {
                if let Some(ledger) = old(self)@.execution {
                    assert(released(grown(ledger, growth), growth) =~= ledger);
                }
            }
        }
        proof {
            if r.is_err() {
                assert(self@ =~= old(self)@);
            } else {
                assert(self@ =~= old(self)@.after_growth(class, growth));
            }
        }
        r
    }

    /// Gives capacity back to every ledger that counts it.
    pub fn release_capacity(&mut self, class: CapacityClass, amount: u64)
        ensures
            final(self)@ == old(self)@.after_release(class, amount),
    {
        match class {
            CapacityClass::Managed => {},
            CapacityClass::Preparation => release_in(&mut self.preparation_budget, amount),
            CapacityClass::SpoolMemory => release_in(&mut self.spool_memory_budget, amount),
            CapacityClass::Spool => release_in(&mut self.spool_budget, amount),
            CapacityClass::PreparedHeaders => release_in(&mut self.prepared_header_budget, amount),
        }
        if !matches!(class, CapacityClass::Spool | CapacityClass::PreparedHeaders) {
            release_in(&mut self.execution, amount);
        }
        assert(self@ =~= old(self)@.after_release(class, amount));
    }
}

/// One owner's capacity, in a class quota and under the managed ceiling
/// together.
#[derive(Debug)]
pub struct CapacityCharge {
    pub class: CapacityClass,
    pub bytes: u64,
}

impl CapacityCharge {
    pub fn new(class: CapacityClass) -> (charge: CapacityCharge)
        ensures
            charge == (CapacityCharge { class, bytes: 0 }),
    {
        CapacityCharge { class, bytes: 0 }
    }

    /// Grows the capacity to `bytes`, in all ledgers or in none.
    pub fn grow_to(&mut self, bytes: u64, resources: &mut WriterResources) -> (r: Result<()>)
        ensures
            final(self).class == old(self).class,
            ({
                let growth = growth_to(old(self).bytes, bytes);
                if growth == 0 {
                    &&& r is Ok
                    &&& *final(self) == *old(self)
                    &&& final(resources)@ == old(resources)@
                } else {
                    match old(resources)@.capacity_refusal(old(self).class, growth) {
                        Some(error) => {
                            &&& r == Err::<(), Error>(error)
                            &&& *final(self) == *old(self)
                            &&& final(resources)@ == old(resources)@
                        },
                        None => {
                            &&& r is Ok
                            &&& final(self).bytes == bytes
                            &&& final(resources)@ == old(resources)@.after_growth(
                                old(self).class,
                                growth,
                            )
                        },
                    }
                }
            }),
    {
        if bytes <= self.bytes {
            return Ok(());
        }
        match resources.reserve_capacity(self.class, bytes - self.bytes) {
            Ok(()) => {
                self.bytes = bytes;
                Ok(())
            },
            Err(error) => Err(error),
        }
    }

    /// Shrinks the capacity to `bytes`.
    pub fn shrink_to(&mut self, bytes: u64, resources: &mut WriterResources)
        requires
            bytes <= old(self).bytes,
        ensures
            *final(self) == (CapacityCharge { bytes, ..*old(self) }),
            final(resources)@ == old(resources)@.after_release(
                old(self).class,
                (old(self).bytes - bytes) as u64,
            ),
    {
        resources.release_capacity(self.class, self.bytes - bytes);
        self.bytes = bytes;
    }
}

/// Capacity that was admitted and given back leaves every ledger as it was.
pub proof fn law_capacity_round_trip(resources: ResourcesView, class: CapacityClass, growth: u64)
    requires
        resources.capacity_refusal(class, growth) is None,
    ensures
        resources.after_growth(class, growth).after_release(class, growth) == resources,
{
    if let Some(ledger) = resources.managed_ledger(class) {
        assert(released(grown(ledger, growth), growth) =~= ledger);
    }
    if let Some(ledger) = resources.class_ledger(class) {
        assert(released(grown(ledger, growth), growth) =~= ledger);
    }
    assert(resources.after_growth(class, growth).after_release(class, growth) =~= resources);
}

/// The bytes that count against a limit.
pub open spec fn spent(ledger: Option<LedgerView>) -> int {
    match ledger {
        Some(ledger) => ledger.used as int,
        None => 0,
    }
}

/// Whether a limit, where there is one, leaves room for more bytes.
pub open spec fn has_room(ledger: Option<LedgerView>, growth: u64) -> bool {
    match ledger {
        Some(ledger) => ledger.used + growth <= ledger.limit,
        None => true,
    }
}

/// Capacity counts once against the limit of its own class. What is held in memory counts
/// against the limit of all managed capacity too, and what goes to spools or headers does
/// not. No other limit and no other use changes.
pub proof fn law_growth_is_counted(resources: ResourcesView, class: CapacityClass, growth: u64)
    requires
        resources.capacity_refusal(class, growth) is None,
    ensures
        ({
            let after = resources.after_growth(class, growth);
            let managed = class is Managed || class is Preparation || class is SpoolMemory;
            let execution = if managed && resources.execution is Some { growth as int } else { 0 };
            let preparation = if class is Preparation && resources.preparation is Some {
                growth as int
            } else {
                0
            };
            let memory = if class is SpoolMemory && resources.spool_memory is Some {
                growth as int
            } else {
                0
            };
            let spool = if class is Spool && resources.spool is Some { growth as int } else { 0 };
            let headers = if class is PreparedHeaders && resources.prepared_headers is Some {
                growth as int
            } else {
                0
            };
            &&& spent(after.execution) == spent(resources.execution) + execution
            &&& spent(after.preparation) == spent(resources.preparation) + preparation
            &&& spent(after.spool_memory) == spent(resources.spool_memory) + memory
            &&& spent(after.spool) == spent(resources.spool) + spool
            &&& spent(after.prepared_headers) == spent(resources.prepared_headers) + headers
            &&& limit_of(after.execution) == limit_of(resources.execution)
            &&& limit_of(after.preparation) == limit_of(resources.preparation)
            &&& limit_of(after.spool_memory) == limit_of(resources.spool_memory)
            &&& limit_of(after.spool) == limit_of(resources.spool)
            &&& limit_of(after.prepared_headers) == limit_of(resources.prepared_headers)
            &&& after.memory_limit == resources.memory_limit
            &&& after.workspace_used == resources.workspace_used
            &&& after.cancelled == resources.cancelled
        }),
{
}

/// Capacity is refused just where a limit that it counts against would be passed.
pub proof fn law_capacity_is_refused_over_a_limit(
    resources: ResourcesView,
    class: CapacityClass,
    growth: u64,
)
    requires
        growth > 0,
    ensures
        resources.capacity_refusal(class, growth) is None <==> {
            &&& class is Managed || class is Preparation || class is SpoolMemory ==> has_room(
                resources.execution,
                growth,
            )
            &&& class is Preparation ==> has_room(resources.preparation, growth)
            &&& class is SpoolMemory ==> has_room(resources.spool_memory, growth)
            &&& class is Spool ==> has_room(resources.spool, growth)
            &&& class is PreparedHeaders ==> has_room(resources.prepared_headers, growth)
        },
{
}

} // verus!
