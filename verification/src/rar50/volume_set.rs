//! Writing a volume set.

use vstd::prelude::*;

use crate::error::{Error, Result};
use crate::rar50::archive::{emit_blocks, head_crypt, write_body};
#[allow(unused_imports)]
use crate::rar50::archive::{are_emitted_blocks, body_of, head_crypt_of};
use crate::rar50::blocks::PreparedBlock;
#[allow(unused_imports)]
use crate::rar50::blocks::BlockView;
use crate::rar50::container::{write_container, Container};
#[allow(unused_imports)]
use crate::rar50::container::{emission_by, is_sealing, seal_fails, ContainerView};
use crate::rar50::engine::{
    archive_header_password, no_work, EnginePlan, HeaderKeys, MemberWork,
};
#[allow(unused_imports)]
use crate::rar50::engine::{are_sealed_as_asked, header_password_error, headers_fit};
use crate::rar50::entry::{validate_entries, ArchiveEntry};
#[allow(unused_imports)]
use crate::rar50::entry::entries_error;
use crate::rar50::format::EFL_NEXT_VOLUME;
#[allow(unused_imports)]
use crate::rar50::fragments::{fragment_lens, next_room, room_before};
#[allow(unused_imports)]
use crate::rar50::members::payload_of;
use crate::rar50::plan::CompressPlan;
#[allow(unused_imports)]
use crate::rar50::quick_open::blocks_view;
use crate::rar50::retention::{give_back, recovery_workspace, retain, SpoolMeter};
#[allow(unused_imports)]
use crate::rar50::retention::{recovery_limit, retained};
use crate::rar50::volume_retention::{main_volume_flags, member_spools, set_spool_bytes};
#[allow(unused_imports)]
use crate::rar50::volume_retention::{set_buffer, set_spools, volume_flags};
use crate::rar50::volumes::{prepare_volume_member, VolumeMember, VolumeWriter};
#[allow(unused_imports)]
use crate::rar50::volumes::{
    cut_from, fragment_block_of, sets_fit, volume_member_of, volumes_view, VolumeMemberView,
    VolumeSet,
};
#[allow(unused_imports)]
use crate::recovery::rar5::record::takes_recovery;
use crate::streaming::resources::WriterResources;
#[allow(unused_imports)]
use crate::streaming::resources::ResourcesView;
use crate::write_progress::{ask, check_cancelled, report_emission, tell, WriteProgress};
#[allow(unused_imports)]
use crate::write_progress::{emission_event, heeds, is_stopped_by, is_told};

verus! {

pub open spec fn members_view(members: Seq<VolumeMember<'_>>) -> Seq<VolumeMemberView> {
    Seq::new(members.len(), |i: int| members[i]@)
}

pub open spec fn payload_lens(members: Seq<VolumeMemberView>) -> Seq<u64> {
    Seq::new(members.len(), |i: int| members[i].payload.len() as u64)
}

/// Whether there is a hash for every fragment that is not the last of its
/// member.
pub open spec fn is_hashed(lens: Seq<u64>, max: nat, hashes: Seq<Vec<[u8; 32]>>) -> bool {
    &&& hashes.len() == lens.len()
    &&& forall|m: int|
        0 <= m < lens.len() ==> (#[trigger] hashes[m])@.len() + 1 >= fragment_lens(
            room_before(lens, max, m as nat),
            max,
            lens[m] as nat,
        ).len()
}

/// Members cut across a set, one behind another.
pub open spec fn cut_all(
    members: Seq<VolumeMemberView>,
    max: nat,
    hashes: Seq<Vec<[u8; 32]>>,
) -> std::result::Result<VolumeSet, Error>
    decreases members.len(),
{
    if members.len() == 0 {
        Ok(VolumeSet::empty())
    } else {
        match cut_all(members.drop_last(), max, hashes.drop_last()) {
            Err(error) => Err(error),
            Ok(set) => cut_from(set, max, members.last(), 0, hashes.last()@),
        }
    }
}

proof fn lemma_failed_cut_stays_failed(
    members: Seq<VolumeMemberView>,
    max: nat,
    hashes: Seq<Vec<[u8; 32]>>,
    at: int,
)
    requires
        members.len() == hashes.len(),
        0 <= at <= members.len(),
        cut_all(members.take(at), max, hashes.take(at)) is Err,
    ensures
        cut_all(members, max, hashes) == cut_all(members.take(at), max, hashes.take(at)),
    decreases members.len() - at,
{
    if at == members.len() {
        assert(members.take(at) =~= members);
        assert(hashes.take(at) =~= hashes);
    } else {
        assert(members.take(at + 1).drop_last() =~= members.take(at));
        assert(hashes.take(at + 1).drop_last() =~= hashes.take(at));
        lemma_failed_cut_stays_failed(members, max, hashes, at + 1);
    }
}

/// The room behind a member depends on lengths alone.
pub proof fn lemma_cut_room(
    set: VolumeSet,
    max: nat,
    member: VolumeMemberView,
    start: nat,
    hashes: Seq<[u8; 32]>,
)
    requires
        max > 0,
        set.is_valid(max),
        start <= member.payload.len(),
    ensures
        cut_from(set, max, member, start, hashes) matches Ok(after) ==> after.is_valid(max)
            && after.room(max) == next_room(
            set.room(max),
            max,
            (member.payload.len() - start) as nat,
        ),
    decreases member.payload.len() - start,
{
    let room = set.room(max);
    let rest = member.payload.len() - start;
    let len = (if rest <= room {
        rest
    } else {
        room as int
    }) as nat;
    if let Ok(block) = fragment_block_of(member, start, len, hashes[0]) {
        let next = set.opened(max).with_block(block);
        assert(block.payload.len() == len);
        assert(next.volumes.len() > 0);
        if rest > room {
            lemma_cut_room(next, max, member, start + len, hashes.skip(1));
            assert(next.room(max) == max);
        }
    }
}

/// Cuts every member.
pub fn cut_volumes(
    members: &Vec<VolumeMember<'_>>,
    hashes: &Vec<Vec<[u8; 32]>>,
    max_payload_per_volume: u64,
) -> (r: Result<Vec<Vec<PreparedBlock>>>)
    requires
        max_payload_per_volume > 0,
        is_hashed(payload_lens(members_view(members@)), max_payload_per_volume as nat, hashes@),
    ensures
        match cut_all(members_view(members@), max_payload_per_volume as nat, hashes@) {
            Ok(set) => r is Ok && volumes_view(r->Ok_0@) == set.volumes && sets_fit(r->Ok_0@),
            Err(error) => r == Err::<Vec<Vec<PreparedBlock>>, Error>(error),
        },
{
    let ghost view = members_view(members@);
    let ghost lens = payload_lens(view);
    let ghost max = max_payload_per_volume as nat;
    let mut writer = match VolumeWriter::new(max_payload_per_volume) {
        Ok(writer) => writer,
        Err(error) => {
            return Err(error);
        },
    };
    let mut at: usize = 0;
    assert(view.take(0) =~= Seq::empty());
    while at < members.len()
        invariant
            max == max_payload_per_volume,
            max > 0,
            at <= members@.len(),
            view == members_view(members@),
            lens == payload_lens(view),
            is_hashed(lens, max, hashes@),
            writer.is_valid(),
            writer@.max == max,
            writer@.set.is_valid(max),
            cut_all(view.take(at as int), max, hashes@.take(at as int)) == Ok::<VolumeSet, Error>(
                writer@.set,
            ),
            writer@.set.room(max) == room_before(lens, max, at as nat),
        decreases members@.len() - at,
    {
        let payload_len: usize = members[at].payload.len();
        proof {
            assert(view[at as int] == members@[at as int]@);
            assert(lens[at as int] == payload_len);
            assert(hashes@[at as int]@.len() + 1 >= fragment_lens(
                room_before(lens, max, at as nat),
                max,
                lens[at as int] as nat,
            ).len());
            assert(view.take(at + 1).drop_last() =~= view.take(at as int));
            assert(hashes@.take(at + 1).drop_last() =~= hashes@.take(at as int));
            assert(view.take(at + 1).last() == view[at as int]);
            assert(hashes@.take(at + 1).last() == hashes@[at as int]);
            lemma_cut_room(writer@.set, max, view[at as int], 0, hashes@[at as int]@);
        }
        match writer.write_member(&members[at], hashes[at].as_slice()) {
            Ok(()) => {},
            Err(error) => {
                proof {
                    lemma_failed_cut_stays_failed(view, max, hashes@, at + 1);
                }
                return Err(error);
            },
        }
        at = at + 1;
    }
    assert(view.take(members@.len() as int) =~= view);
    assert(hashes@.take(members@.len() as int) =~= hashes@);
    Ok(writer.finish())
}

/// The container of a volume.
pub open spec fn volume_container<'a>(
    plan: EnginePlan<'a>,
    keys: Option<HeaderKeys>,
    memory_limit: u64,
    volume_number: u64,
    blocks: Seq<BlockView>,
    more_volumes_follow: bool,
) -> ContainerView<'a> {
    ContainerView {
        header_encrypted: plan.header_encrypted,
        head_crypt: head_crypt_of(keys),
        main_flags: volume_flags(plan.compress.solid, plan.recovery_percent is Some),
        volume_number: Some(volume_number),
        archive_metadata: None,
        metadata_record: None,
        body: body_of(blocks),
        quick_open: None,
        recovery_percent: plan.recovery_percent,
        memory_limit,
        end_flags: if more_volumes_follow {
            EFL_NEXT_VOLUME
        } else {
            0
        },
    }
}

/// Whether `out` is the volume of these fragments.
pub open spec fn is_volume(
    emits: spec_fn(Seq<u8>, Seq<u8>) -> bool,
    plan: EnginePlan<'_>,
    keys: Option<HeaderKeys>,
    memory_limit: u64,
    volume_number: u64,
    plain: Seq<BlockView>,
    more_volumes_follow: bool,
    out: Seq<u8>,
) -> bool {
    exists|blocks: Seq<BlockView>| #[trigger]
        are_emitted_blocks(emits, plain, blocks) && ({
            let container = volume_container(
                plan,
                keys,
                memory_limit,
                volume_number,
                blocks,
                more_volumes_follow,
            );
            container.error() is None && container.is_written_as(emits, out)
        })
}

/// Whether a volume of these fragments fails with this error, whatever its
/// headers are emitted as.
pub open spec fn is_volume_error(
    emits: spec_fn(Seq<u8>, Seq<u8>) -> bool,
    plan: EnginePlan<'_>,
    keys: Option<HeaderKeys>,
    memory_limit: u64,
    volume_number: u64,
    plain: Seq<BlockView>,
    more_volumes_follow: bool,
    error: Error,
) -> bool {
    exists|blocks: Seq<BlockView>| #[trigger]
        are_emitted_blocks(emits, plain, blocks) && volume_container(
            plan,
            keys,
            memory_limit,
            volume_number,
            blocks,
            more_volumes_follow,
        ).error() == Some(error)
}

/// Writes one volume of a set.
pub fn finish_volume<S: Fn(Vec<u8>) -> Result<Vec<u8>>, P: WriteProgress>(
    plan: &EnginePlan<'_>,
    keys: Option<HeaderKeys>,
    memory_limit: u64,
    volume_number: u64,
    plain: Vec<PreparedBlock>,
    more_volumes_follow: bool,
    seal: &S,
    progress: Option<&P>,
) -> (r: Result<Vec<u8>>)
    requires
        is_sealing(*seal, plan.header_encrypted),
        headers_fit(plain@),
        takes_recovery(progress),
    ensures
        match r {
            Ok(out) => is_volume(
                emission_by(*seal),
                *plan,
                keys,
                memory_limit,
                volume_number,
                blocks_view(plain@),
                more_volumes_follow,
                out@,
            ),
            Err(error) => is_stopped_by(progress, r) || seal_fails(*seal, error) || is_volume_error(
                emission_by(*seal),
                *plan,
                keys,
                memory_limit,
                volume_number,
                blocks_view(plain@),
                more_volumes_follow,
                error,
            ),
        },
{
    let ghost given = blocks_view(plain@);
    let blocks = match emit_blocks(plain, seal, plan.header_encrypted) {
        Ok(blocks) => blocks,
        Err(error) => {
            return Err(error);
        },
    };
    let ghost view = blocks_view(blocks@);
    let main_flags: u64 = main_volume_flags(
        plan.compress.solid,
        plan.recovery_percent.is_some(),
    );
    let crypt = head_crypt(keys);
    let body = write_body(&blocks);
    let container = Container {
        header_encrypted: plan.header_encrypted,
        head_crypt: &crypt,
        main_flags,
        volume_number: Some(volume_number),
        archive_metadata: None,
        metadata_record: None,
        body: &body,
        quick_open: None,
        recovery_percent: plan.recovery_percent,
        memory_limit,
        end_flags: if more_volumes_follow {
            EFL_NEXT_VOLUME
        } else {
            0
        },
    };
    proof {
        assert(container@ == volume_container(
            *plan,
            keys,
            memory_limit,
            volume_number,
            view,
            more_volumes_follow,
        ));
        assert(are_emitted_blocks(emission_by(*seal), given, view));
    }
    write_container(&container, seal, None, progress)
}

/// The first refusal among members, or all of them prepared.
pub open spec fn prepared_members_of(
    entries: Seq<ArchiveEntry>,
    works: Seq<MemberWork>,
    plan: CompressPlan,
) -> std::result::Result<Seq<VolumeMemberView>, Error>
    decreases entries.len(),
{
    if entries.len() == 0 {
        Ok(Seq::empty())
    } else {
        match prepared_members_of(entries.drop_last(), works.drop_last(), plan) {
            Err(error) => Err(error),
            Ok(before) => match volume_member_of(
                entries.last(),
                works.last().member,
                works.last().sealed,
                plan,
            ) {
                Err(error) => Err(error),
                Ok(member) => Ok(before.push(member)),
            },
        }
    }
}

proof fn lemma_failed_members_stay_failed(
    entries: Seq<ArchiveEntry>,
    works: Seq<MemberWork>,
    plan: CompressPlan,
    at: int,
)
    requires
        entries.len() == works.len(),
        0 <= at <= entries.len(),
        prepared_members_of(entries.take(at), works.take(at), plan) is Err,
    ensures
        prepared_members_of(entries, works, plan) == prepared_members_of(
            entries.take(at),
            works.take(at),
            plan,
        ),
    decreases entries.len() - at,
{
    if at == entries.len() {
        assert(entries.take(at) =~= entries);
        assert(works.take(at) =~= works);
    } else {
        assert(entries.take(at + 1).drop_last() =~= entries.take(at));
        assert(works.take(at + 1).drop_last() =~= works.take(at));
        lemma_failed_members_stay_failed(entries, works, plan, at + 1);
    }
}

/// Prepares every member for cutting.
pub fn prepare_members<'a>(
    entries: &'a [ArchiveEntry],
    works: Vec<MemberWork>,
    plan: &CompressPlan,
) -> (r: Result<Vec<VolumeMember<'a>>>)
    requires
        works@.len() == entries@.len(),
    ensures
        match prepared_members_of(entries@, works@, *plan) {
            Ok(views) => r is Ok && members_view(r->Ok_0@) == views,
            Err(error) => r == Err::<Vec<VolumeMember<'a>>, Error>(error),
        },
{
    let ghost given = works@;
    let mut left = works;
    let mut members: Vec<VolumeMember<'a>> = Vec::new();
    let mut at: usize = 0;
    assert(entries@.take(0) =~= Seq::empty());
    assert(members_view(members@) =~= Seq::empty());
    while at < entries.len()
        invariant
            at <= entries@.len(),
            given == works@,
            given.len() == entries@.len(),
            left@.len() == given.len(),
            forall|i: int| at <= i < given.len() ==> #[trigger] left@[i] == given[i],
            prepared_members_of(entries@.take(at as int), given.take(at as int), *plan) == Ok::<
                Seq<VolumeMemberView>,
                Error,
            >(members_view(members@)),
        decreases entries@.len() - at,
    {
        let ghost before = members_view(members@);
        proof {
            assert(entries@.take(at + 1).drop_last() =~= entries@.take(at as int));
            assert(given.take(at + 1).drop_last() =~= given.take(at as int));
            assert(entries@.take(at + 1).last() == entries@[at as int]);
            assert(given.take(at + 1).last() == given[at as int]);
        }
        let mut taken = no_work();
        std::mem::swap(&mut left[at], &mut taken);
        assert(taken == given[at as int]);
        let MemberWork { member, sealed, .. } = taken;
        match prepare_volume_member(&entries[at], member, sealed, plan) {
            Ok(member) => {
                members.push(member);
                assert(members_view(members@) =~= before.push(member@));
            },
            Err(error) => {
                proof {
                    lemma_failed_members_stay_failed(entries@, given, *plan, at + 1);
                }
                return Err(error);
            },
        }
        at = at + 1;
    }
    assert(entries@.take(entries@.len() as int) =~= entries@);
    assert(given.take(entries@.len() as int) =~= given);
    Ok(members)
}

pub open spec fn outputs_view(outputs: Seq<Vec<u8>>) -> Seq<Seq<u8>> {
    Seq::new(outputs.len(), |i: int| outputs[i]@)
}

/// Whether the outputs are the volumes of a set, numbered from zero, each but
/// the last saying that another follows.
pub open spec fn are_volumes(
    emits: spec_fn(Seq<u8>, Seq<u8>) -> bool,
    plan: EnginePlan<'_>,
    keys: Option<HeaderKeys>,
    memory_limit: u64,
    volumes: Seq<Seq<BlockView>>,
    outputs: Seq<Seq<u8>>,
) -> bool {
    &&& outputs.len() == volumes.len()
    &&& forall|i: int|
        0 <= i < volumes.len() ==> is_volume(
            emits,
            plan,
            keys,
            memory_limit,
            i as u64,
            volumes[i],
            i + 1 < volumes.len(),
            #[trigger] outputs[i],
        )
}

/// Whether one of the volumes of a set fails with this error.
pub open spec fn is_set_error(
    emits: spec_fn(Seq<u8>, Seq<u8>) -> bool,
    plan: EnginePlan<'_>,
    keys: Option<HeaderKeys>,
    memory_limit: u64,
    volumes: Seq<Seq<BlockView>>,
    error: Error,
) -> bool {
    exists|i: int|
        0 <= i < volumes.len() && is_volume_error(
            emits,
            plan,
            keys,
            memory_limit,
            i as u64,
            #[trigger] volumes[i],
            i + 1 < volumes.len(),
            error,
        )
}

/// Frames every volume of a set.
pub fn finish_volumes<S: Fn(Vec<u8>) -> Result<Vec<u8>>, P: WriteProgress>(
    plan: &EnginePlan<'_>,
    keys: Option<HeaderKeys>,
    memory_limit: u64,
    volumes: Vec<Vec<PreparedBlock>>,
    seal: &S,
    progress: Option<&P>,
) -> (r: Result<Vec<Vec<u8>>>)
    requires
        is_sealing(*seal, plan.header_encrypted),
        sets_fit(volumes@),
        takes_recovery(progress),
    ensures
        match r {
            Ok(outputs) => are_volumes(
                emission_by(*seal),
                *plan,
                keys,
                memory_limit,
                volumes_view(volumes@),
                outputs_view(outputs@),
            ),
            Err(error) => is_stopped_by(progress, r) || seal_fails(*seal, error) || is_set_error(
                emission_by(*seal),
                *plan,
                keys,
                memory_limit,
                volumes_view(volumes@),
                error,
            ),
        },
{
    let ghost given = volumes@;
    let ghost view = volumes_view(volumes@);
    let ghost emits = emission_by(*seal);
    let count: usize = volumes.len();
    let mut left = volumes;
    let mut outputs: Vec<Vec<u8>> = Vec::new();
    let mut at: usize = 0;
    while at < count
        invariant
            at <= count,
            count == given.len(),
            given == volumes@,
            view == volumes_view(given),
            emits == emission_by(*seal),
            is_sealing(*seal, plan.header_encrypted),
            takes_recovery(progress),
            sets_fit(given),
            left@.len() == given.len(),
            forall|i: int| at <= i < count ==> #[trigger] left@[i] == given[i],
            outputs@.len() == at,
            forall|i: int|
                0 <= i < at ==> is_volume(
                    emits,
                    *plan,
                    keys,
                    memory_limit,
                    i as u64,
                    view[i],
                    i + 1 < count,
                    #[trigger] outputs@[i]@,
                ),
        decreases count - at,
    {
        let mut taken: Vec<PreparedBlock> = Vec::new();
        std::mem::swap(&mut left[at], &mut taken);
        assert(taken == given[at as int]);
        assert(blocks_view(taken@) == view[at as int]);
        match finish_volume(
            plan,
            keys,
            memory_limit,
            at as u64,
            taken,
            at + 1 < count,
            seal,
            progress,
        ) {
            Ok(output) => {
                outputs.push(output);
            },
            Err(error) => {
                return Err(error);
            },
        }
        at = at + 1;
    }
    assert forall|i: int| 0 <= i < view.len() implies is_volume(
        emits,
        *plan,
        keys,
        memory_limit,
        i as u64,
        view[i],
        i + 1 < view.len(),
        #[trigger] outputs_view(outputs@)[i],
    ) by {
        assert(outputs_view(outputs@)[i] == outputs@[i]@);
    }
    Ok(outputs)
}

/// The lengths to be cut.
pub open spec fn work_lens(works: Seq<MemberWork>) -> Seq<u64> {
    Seq::new(works.len(), |i: int| payload_of(works[i].member, works[i].sealed).len() as u64)
}

/// Why a set is refused before any member is cut: for its size, its entries or
/// its password, or because the write is to stop.
pub open spec fn early_set_error(
    plan: EnginePlan<'_>,
    entries: Seq<ArchiveEntry>,
    max_payload_per_volume: u64,
    stopped: bool,
) -> Option<Error> {
    if max_payload_per_volume == 0 {
        Some(Error::InvalidArgument("RAR 5 volume payload size is zero"))
    } else {
        match entries_error(entries) {
            Some(error) => Some(error),
            None => match header_password_error(
                plan.header_encrypted,
                plan.header_password,
                entries,
            ) {
                Some(error) => Some(error),
                None => if stopped {
                    Some(Error::Cancelled)
                } else {
                    None
                },
            },
        }
    }
}

/// The volumes of a set as lists of fragments, or why there are none.
pub open spec fn set_of(
    plan: EnginePlan<'_>,
    entries: Seq<ArchiveEntry>,
    works: Seq<MemberWork>,
    hashes: Seq<Vec<[u8; 32]>>,
    max_payload_per_volume: u64,
    stopped: bool,
) -> std::result::Result<VolumeSet, Error> {
    match early_set_error(plan, entries, max_payload_per_volume, stopped) {
        Some(error) => Err(error),
        None => match prepared_members_of(entries, works, plan.compress) {
            Err(error) => Err(error),
            Ok(members) => cut_all(members, max_payload_per_volume as nat, hashes),
        },
    }
}

proof fn lemma_prepared_lens(
    entries: Seq<ArchiveEntry>,
    works: Seq<MemberWork>,
    plan: CompressPlan,
)
    requires
        entries.len() == works.len(),
    ensures
        prepared_members_of(entries, works, plan) matches Ok(members) ==> payload_lens(members)
            == work_lens(works),
    decreases entries.len(),
{
    if entries.len() > 0 {
        lemma_prepared_lens(entries.drop_last(), works.drop_last(), plan);
        if let Ok(members) = prepared_members_of(entries, works, plan) {
            let before = prepared_members_of(entries.drop_last(), works.drop_last(), plan)->Ok_0;
            assert(payload_lens(members) =~= payload_lens(before).push(
                members.last().payload.len() as u64,
            ));
            assert(work_lens(works) =~= work_lens(works.drop_last()).push(
                payload_of(works.last().member, works.last().sealed).len() as u64,
            ));
        }
    } else {
        assert(payload_lens(Seq::empty()) =~= work_lens(works));
    }
}

pub open spec fn outputs_result(
    r: Result<Vec<Vec<u8>>>,
) -> std::result::Result<Seq<Seq<u8>>, Error> {
    match r {
        Ok(outputs) => Ok(outputs_view(outputs@)),
        Err(error) => Err(error),
    }
}

/// What comes of writing a volume set: a refusal of the request, of a member or of
/// what it would hold; otherwise the volumes, or what the framing or the headers of one fail with.
pub open spec fn set_outcome<S: Fn(Vec<u8>) -> Result<Vec<u8>>>(
    seal: S,
    entries: Seq<ArchiveEntry>,
    works: Seq<MemberWork>,
    hashes: Seq<Vec<[u8; 32]>>,
    plan: EnginePlan<'_>,
    max_payload_per_volume: u64,
    keys: Option<HeaderKeys>,
    resources: ResourcesView,
    r: std::result::Result<Seq<Seq<u8>>, Error>,
) -> bool {
    match set_of(
        plan,
        entries,
        works,
        hashes,
        max_payload_per_volume,
        resources.is_stopped(),
    ) {
        Err(error) => r == Err::<Seq<Seq<u8>>, Error>(error),
        Ok(set) => match retained(
            set_spools(plan, keys, recovery_limit(resources), works, set.volumes).peak,
            set_buffer(works),
            resources,
        ) {
            Err(error) => r == Err::<Seq<Seq<u8>>, Error>(error),
            Ok(_) => match r {
                Ok(outputs) => are_volumes(
                    emission_by(seal),
                    plan,
                    keys,
                    recovery_limit(resources),
                    set.volumes,
                    outputs,
                ),
                Err(error) => seal_fails(seal, error) || is_set_error(
                    emission_by(seal),
                    plan,
                    keys,
                    recovery_limit(resources),
                    set.volumes,
                    error,
                ),
            },
        },
    }
}

/// Writes a volume set.
///
/// `works` holds the members as they were compressed and encrypted, in the
/// order of `entries`, and `hashes` the hashes of their fragments.
pub fn write_volumes<S: Fn(Vec<u8>) -> Result<Vec<u8>>, P: WriteProgress>(
    entries: &[ArchiveEntry],
    works: Vec<MemberWork>,
    hashes: &Vec<Vec<[u8; 32]>>,
    plan: &EnginePlan<'_>,
    max_payload_per_volume: u64,
    keys: Option<HeaderKeys>,
    resources: &mut WriterResources,
    seal: &S,
    progress: Option<&P>,
) -> (r: Result<Vec<Vec<u8>>>)
    requires
        is_sealing(*seal, plan.header_encrypted),
        are_sealed_as_asked(entries@, works@),
        keys is Some <==> plan.header_encrypted,
        max_payload_per_volume > 0 ==> is_hashed(
            work_lens(works@),
            max_payload_per_volume as nat,
            hashes@,
        ),
        early_set_error(
            *plan,
            entries@,
            max_payload_per_volume,
            old(resources)@.is_stopped(),
        ) is None ==> takes_recovery(progress),
    ensures
        is_stopped_by(progress, r) || set_outcome(
            *seal,
            entries@,
            works@,
            hashes@,
            *plan,
            max_payload_per_volume,
            keys,
            old(resources)@,
            outputs_result(r),
        ),
        heeds(
            progress,
            early_set_error(
                *plan,
                entries@,
                max_payload_per_volume,
                old(resources)@.is_stopped(),
            ),
            r,
        ),
        r is Ok ==> is_told(progress, emission_event(true)),
        final(resources)@ == old(resources)@,
{
    let ghost given = works@;
    let ghost start = resources@;
    if max_payload_per_volume == 0 {
        return Err(Error::InvalidArgument("RAR 5 volume payload size is zero"));
    }
    match validate_entries(entries) {
        Ok(()) => {},
        Err(error) => {
            return Err(error);
        },
    }
    match archive_header_password(plan.header_encrypted, plan.header_password, entries) {
        Ok(_) => {},
        Err(error) => {
            return Err(error);
        },
    }
    match check_cancelled(resources.is_cancelled()) {
        Ok(()) => {},
        Err(error) => {
            return Err(error);
        },
    }
    match ask(progress) {
        Ok(()) => {},
        Err(error) => {
            return Err(error);
        },
    }
    let (spools, buffer): (SpoolMeter, u64) = member_spools(&works);
    let limit: u64 = recovery_workspace(resources);
    proof {
        lemma_prepared_lens(entries@, works@, plan.compress);
    }
    let members = match prepare_members(entries, works, &plan.compress) {
        Ok(members) => members,
        Err(error) => {
            return Err(error);
        },
    };
    tell(progress, report_emission(true));
    let volumes = match cut_volumes(&members, hashes, max_payload_per_volume) {
        Ok(volumes) => volumes,
        Err(error) => {
            return Err(error);
        },
    };
    let ghost view = volumes_view(volumes@);
    let spooled: Option<u64> = set_spool_bytes(spools, plan, keys, limit, &volumes);
    let ghost most = set_spools(*plan, keys, limit, given, view).peak;
    match retain(spooled, buffer, resources) {
        Ok(held) => {
            assert(retained(most, buffer, start) is Ok);
            let r = finish_volumes(plan, keys, limit, volumes, seal, progress);
            give_back(held, resources, Ghost(start));
            r
        },
        Err(error) => {
            assert(retained(most, buffer, start) is Err);
            Err(error)
        },
    }
}

} // verus!
