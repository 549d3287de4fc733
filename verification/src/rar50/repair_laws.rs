//! What written archives are worth when they are damaged.

use vstd::prelude::*;

#[allow(unused_imports)]
use crate::rar50::container::{ContainerView, Emission};
#[allow(unused_imports)]
use crate::rar50::layout::LayoutView;
#[allow(unused_imports)]
use crate::rar50::recovery_service::{recovery_block_of, recovery_payload};
#[allow(unused_imports)]
use crate::recovery::rar5::archive::{is_archive_repair, RecoveryRepairReport};
#[allow(unused_imports)]
use crate::recovery::rar5::error::Error;
#[allow(unused_imports)]
use crate::recovery::rar5::plan::{inline_recovery_plan, plan_fits};
#[allow(unused_imports)]
use crate::recovery::rar5::restore::{
    holds_only_record, is_repairable, law_intact_record_restores, protected_archive,
};

verus! {

/// An archive or a volume that was written with a recovery record is restored
/// byte for byte from damage to as many shards as the record has chunks, whatever
/// its headers were emitted as.
///
/// The damage lies before the record, changes the checksum states of the shards
/// it hits, and nothing outside the record reads as a part of one.
pub proof fn law_written_archive_is_repaired(
    container: ContainerView<'_>,
    emits: spec_fn(Seq<u8>, Seq<u8>) -> bool,
    layout: LayoutView,
    emission: Emission,
    percent: u64,
    damaged_prefix: Seq<u8>,
    end_record: Option<Seq<u8>>,
    outcome: core::result::Result<(Seq<u8>, RecoveryRepairReport), Error>,
)
    requires
        container.recovery_percent == Some(percent),
        1 <= percent <= 100,
        container.is_emission(emits, layout, emission),
        emission.end.len() > 0,
        container.assembled(emission).len() <= usize::MAX,
        ({
            let prefix = container.prefix(emission.main);
            let plan = inline_recovery_plan(prefix.len() as int, percent as int);
            let damaged = damaged_prefix + container.recovery_bytes(emission) + emission.end;
            &&& plan_fits(plan)
            &&& is_repairable(prefix, damaged_prefix, plan, plan.recovery_shards as nat)
            &&& holds_only_record(
                damaged,
                prefix,
                plan,
                (prefix.len() + emission.recovery_header.len()) as int,
            )
            &&& is_archive_repair(damaged, end_record, outcome)
        }),
    ensures
        outcome is Ok,
        outcome->Ok_0.0 == container.assembled(emission),
        outcome->Ok_0.1.data_repaired == (container.prefix(emission.main) != damaged_prefix),
        !outcome->Ok_0.1.recovery_record_rebuilt,
{
    let prefix = container.prefix(emission.main);
    let plan = inline_recovery_plan(prefix.len() as int, percent as int);
    let gap = emission.recovery_header;
    let record = recovery_payload(prefix, percent);
    assert(recovery_block_of(prefix, percent, container.memory_limit) is Ok);
    assert(damaged_prefix + container.recovery_bytes(emission) + emission.end =~= damaged_prefix
        + gap + record + emission.end);
    assert(protected_archive(prefix, gap, plan, emission.end) =~= container.assembled(emission));
    law_intact_record_restores(
        prefix,
        gap,
        percent as int,
        emission.end,
        damaged_prefix,
        end_record,
        outcome,
    );
}

} // verus!
