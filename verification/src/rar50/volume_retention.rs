//! What the write of a volume set holds while it goes on.

use vstd::prelude::*;

use crate::rar50::archive::head_crypt;
#[allow(unused_imports)]
use crate::rar50::archive::head_crypt_of;
use crate::rar50::blocks::PreparedBlock;
#[allow(unused_imports)]
use crate::rar50::blocks::BlockView;
use crate::rar50::encryption::ENCRYPT_CHUNK;
use crate::rar50::engine::{EnginePlan, HeaderKeys, MemberWork};
#[allow(unused_imports)]
use crate::rar50::engine::headers_fit;
use crate::rar50::format::{MHFL_RECOVERY, MHFL_SOLID, MHFL_VOLUME, MHFL_VOLUME_NUMBER};
use crate::rar50::layout::{resolve_layout, LayoutInputs};
#[allow(unused_imports)]
use crate::rar50::layout::layout_of;
#[allow(unused_imports)]
use crate::rar50::quick_open::blocks_view;
use crate::rar50::retention::{blocks_bytes, SpoolMeter};
#[allow(unused_imports)]
use crate::rar50::retention::{blocks_size, counted, SpoolUse};
#[allow(unused_imports)]
use crate::rar50::volumes::{sets_fit, volumes_view};

verus! {

/// The archive flags of a volume.
pub open spec fn volume_flags(solid: bool, recovery: bool) -> u64 {
    (MHFL_VOLUME + MHFL_VOLUME_NUMBER + (if solid { MHFL_SOLID as int } else { 0 }) + (
    if recovery {
        MHFL_RECOVERY as int
    } else {
        0
    })) as u64
}

pub fn main_volume_flags(solid: bool, recovery: bool) -> (flags: u64)
    ensures
        flags == volume_flags(solid, recovery),
{
    let mut flags: u64 = MHFL_VOLUME + MHFL_VOLUME_NUMBER;
    if solid {
        flags = flags + MHFL_SOLID;
    }
    if recovery {
        flags = flags + MHFL_RECOVERY;
    }
    flags
}

/// What the layout of a volume is worked out from.
pub open spec fn volume_inputs<'a>(
    plan: EnginePlan<'a>,
    keys: Option<HeaderKeys>,
    volume_number: u64,
    body_len: u64,
) -> LayoutInputs<'a> {
    LayoutInputs {
        header_encrypted: plan.header_encrypted,
        head_crypt_len: head_crypt_of(keys).len() as u64,
        main_flags: volume_flags(plan.compress.solid, plan.recovery_percent is Some),
        volume_number: Some(volume_number),
        archive_metadata: None,
        metadata_record: None,
        body_len,
        quick_open_payload_len: None,
        recovery_percent: plan.recovery_percent,
    }
}

/// What a volume holds once it is full: a copy of everything before the recovery
/// record, and the record. Without a record, nothing.
pub open spec fn while_protected(
    before: SpoolUse,
    plan: EnginePlan<'_>,
    keys: Option<HeaderKeys>,
    memory_limit: u64,
    volume_number: u64,
    body_len: nat,
) -> SpoolUse {
    match (plan.recovery_percent, counted(body_len)) {
        (Some(percent), Some(body_len)) => match layout_of(
            volume_inputs(plan, keys, volume_number, body_len),
        ) {
            Some(Ok(layout)) => match layout.recovery_prefix_len {
                Some(prefix_len) => SpoolUse {
                    held: before.held,
                    peak: before.taking(prefix_len as nat).with_record(
                        prefix_len,
                        percent,
                        memory_limit,
                    ).peak,
                },
                None => before,
            },
            _ => before,
        },
        _ => before,
    }
}

/// A volume: its fragments are gathered, it is protected, and it goes out.
pub open spec fn through_volume(
    before: SpoolUse,
    plan: EnginePlan<'_>,
    keys: Option<HeaderKeys>,
    memory_limit: u64,
    volume_number: u64,
    blocks: Seq<BlockView>,
) -> SpoolUse {
    while_protected(
        before.copying_all(blocks, plan.header_encrypted),
        plan,
        keys,
        memory_limit,
        volume_number,
        blocks_size(blocks, plan.header_encrypted),
    ).without_copies(blocks, plan.header_encrypted)
}

/// The volumes of a set, one after the other.
pub open spec fn through_volumes(
    before: SpoolUse,
    plan: EnginePlan<'_>,
    keys: Option<HeaderKeys>,
    memory_limit: u64,
    volumes: Seq<Seq<BlockView>>,
) -> SpoolUse
    decreases volumes.len(),
{
    if volumes.len() == 0 {
        before
    } else {
        through_volume(
            through_volumes(before, plan, keys, memory_limit, volumes.drop_last()),
            plan,
            keys,
            memory_limit,
            (volumes.len() - 1) as u64,
            volumes.last(),
        )
    }
}

/// The packed members of a set.
pub open spec fn packed_members(works: Seq<MemberWork>) -> SpoolUse
    decreases works.len(),
{
    if works.len() == 0 {
        SpoolUse::none()
    } else {
        packed_members(works.drop_last()).taking(works.last().member.spool_len() as nat)
    }
}

/// Members of a set are encrypted as a whole before they are cut: a ciphertext
/// takes the place of the packed bytes once it is complete.
pub open spec fn sealed_members(before: SpoolUse, works: Seq<MemberWork>) -> SpoolUse
    decreases works.len(),
{
    if works.len() == 0 {
        before
    } else {
        let others = sealed_members(before, works.drop_last());
        match works.last().sealed {
            Some(sealed) => others.taking(sealed.data@.len()).dropping(
                works.last().member.spool_len() as nat,
            ),
            None => others,
        }
    }
}

/// What a volume set holds in spools.
pub open spec fn set_spools(
    plan: EnginePlan<'_>,
    keys: Option<HeaderKeys>,
    memory_limit: u64,
    works: Seq<MemberWork>,
    volumes: Seq<Seq<BlockView>>,
) -> SpoolUse {
    through_volumes(
        sealed_members(packed_members(works), works),
        plan,
        keys,
        memory_limit,
        volumes,
    )
}

/// Whether a member goes through a buffer: to be encrypted, or to be copied from
/// its source.
pub open spec fn is_buffered(work: MemberWork) -> bool {
    work.sealed is Some || work.member.store
}

/// The buffer of a volume set.
pub open spec fn set_buffer(works: Seq<MemberWork>) -> u64 {
    if exists|i: int| 0 <= i < works.len() && is_buffered(#[trigger] works[i]) {
        ENCRYPT_CHUNK as u64
    } else {
        0
    }
}

/// Measures what members of a set hold before they are cut, and their buffer.
pub fn member_spools(works: &Vec<MemberWork>) -> (r: (SpoolMeter, u64))
    ensures
        r.0.count() == sealed_members(packed_members(works@), works@),
        r.1 == set_buffer(works@),
{
    let mut meter = SpoolMeter::new();
    let mut buffer: u64 = 0;
    let mut at: usize = 0;
    assert(works@.take(0) =~= Seq::empty());
    while at < works.len()
        invariant
            at <= works@.len(),
            meter.count() == packed_members(works@.take(at as int)),
            buffer == (if exists|i: int| 0 <= i < at && is_buffered(#[trigger] works@[i]) {
                ENCRYPT_CHUNK as u64
            } else {
                0
            }),
        decreases works@.len() - at,
    {
        proof {
            assert(works@.take(at + 1).drop_last() =~= works@.take(at as int));
            assert(works@.take(at + 1).last() == works@[at as int]);
        }
        if works[at].sealed.is_some() || works[at].member.store {
            assert(is_buffered(works@[at as int]));
            buffer = ENCRYPT_CHUNK as u64;
        }
        meter = meter.take(
            if works[at].member.store {
                0
            } else {
                works[at].member.packed.len() as u64
            },
        );
        at = at + 1;
    }
    assert(works@.take(works@.len() as int) =~= works@);
    let ghost packed = meter.count();
    at = 0;
    while at < works.len()
        invariant
            at <= works@.len(),
            meter.count() == sealed_members(packed, works@.take(at as int)),
        decreases works@.len() - at,
    {
        proof {
            assert(works@.take(at + 1).drop_last() =~= works@.take(at as int));
            assert(works@.take(at + 1).last() == works@[at as int]);
        }
        meter = match &works[at].sealed {
            Some(sealed) => meter.take(sealed.data.len() as u64).give_up(
                if works[at].member.store {
                    0
                } else {
                    works[at].member.packed.len() as u64
                },
            ),
            None => meter,
        };
        at = at + 1;
    }
    (meter, buffer)
}

fn protect(
    before: SpoolMeter,
    plan: &EnginePlan<'_>,
    keys: Option<HeaderKeys>,
    memory_limit: u64,
    volume_number: u64,
    body: Option<u64>,
    Ghost(body_len): Ghost<nat>,
) -> (meter: SpoolMeter)
    requires
        body == counted(body_len),
    ensures
        meter.count() == while_protected(
            before.count(),
            *plan,
            keys,
            memory_limit,
            volume_number,
            body_len,
        ),
{
    let percent: u64 = match plan.recovery_percent {
        Some(percent) => percent,
        None => {
            return before;
        },
    };
    let body: u64 = match body {
        Some(body) => body,
        None => {
            return before;
        },
    };
    let main_flags: u64 = main_volume_flags(plan.compress.solid, true);
    let crypt = head_crypt(keys);
    let inputs = LayoutInputs {
        header_encrypted: plan.header_encrypted,
        head_crypt_len: crypt.len() as u64,
        main_flags,
        volume_number: Some(volume_number),
        archive_metadata: None,
        metadata_record: None,
        body_len: body,
        quick_open_payload_len: None,
        recovery_percent: plan.recovery_percent,
    };
    assert(inputs == volume_inputs(*plan, keys, volume_number, body));
    match resolve_layout(&inputs) {
        Ok(layout) => match layout.recovery_prefix_len {
            Some(prefix_len) => before.beside_record(prefix_len, percent, memory_limit),
            None => before,
        },
        Err(_) => before,
    }
}

/// Measures what a set holds in spools at most, with what its members hold
/// before they are cut.
pub fn set_spool_bytes(
    members: SpoolMeter,
    plan: &EnginePlan<'_>,
    keys: Option<HeaderKeys>,
    memory_limit: u64,
    volumes: &Vec<Vec<PreparedBlock>>,
) -> (peak: Option<u64>)
    requires
        sets_fit(volumes@),
    ensures
        peak == counted(
            through_volumes(
                members.count(),
                *plan,
                keys,
                memory_limit,
                volumes_view(volumes@),
            ).peak,
        ),
{
    let ghost start = members.count();
    let ghost view = volumes_view(volumes@);
    let mut meter = members;
    let mut at: usize = 0;
    assert(view.take(0) =~= Seq::empty());
    while at < volumes.len()
        invariant
            at <= volumes@.len(),
            view == volumes_view(volumes@),
            sets_fit(volumes@),
            meter.count() == through_volumes(
                start,
                *plan,
                keys,
                memory_limit,
                view.take(at as int),
            ),
        decreases volumes@.len() - at,
    {
        proof {
            assert(view.take(at + 1).drop_last() =~= view.take(at as int));
            assert(view.take(at + 1).last() == blocks_view(volumes@[at as int]@));
            assert(headers_fit(volumes@[at as int]@));
        }
        let blocks = &volumes[at];
        let body: Option<u64> = blocks_bytes(blocks, plan.header_encrypted);
        meter = protect(
            meter.copy_all(blocks, plan.header_encrypted),
            plan,
            keys,
            memory_limit,
            at as u64,
            body,
            Ghost(blocks_size(blocks_view(blocks@), plan.header_encrypted)),
        ).drop_copies(blocks, plan.header_encrypted);
        at = at + 1;
    }
    assert(view.take(view.len() as int) =~= view);
    meter.peak()
}

} // verus!
