//! From members to an archive: planning, compressing, encrypting and writing in
//! one go.

use vstd::prelude::*;

use crate::error::{Error, Result};
use crate::filter::FilterSpec;
use crate::rar50::archive::write_archive;
#[allow(unused_imports)]
use crate::rar50::archive::{archive_outcome, early_error};
use crate::rar50::blocks::CompressedMember;
use crate::rar50::compress::{reread_member, MemberSource};
#[allow(unused_imports)]
use crate::rar50::container::is_sealing;
use crate::rar50::dispatch::{compress_members, MemberCodec};
#[allow(unused_imports)]
use crate::rar50::dispatch::{
    is_compressed_outcome, is_member_codec, law_members_keep_their_sources,
};
use crate::rar50::encryption::PayloadKeys;
use crate::rar50::engine::{archive_header_password, no_work, EnginePlan, HeaderKeys};
use crate::rar50::entry::{validate_entries, ArchiveEntry, ArchiveExtras};
use crate::rar50::ladder::EncodeOptions;
#[allow(unused_imports)]
use crate::rar50::member_progress::{
    hears_of_write, input_total, is_stopped, members_done_event, members_event, takes_members_done,
    Audience,
};
use crate::rar50::member_progress::MemberProgress;
#[allow(unused_imports)]
use crate::rar50::metadata::bytes_result;
use crate::rar50::options::WriterOptions;
#[allow(unused_imports)]
use crate::rar50::plan::CompressPlan;
use crate::rar50::runs::BlockJob;
use crate::rar50::share::Turn;
use crate::rar50::sealing::{prepare_work_by, Sealer, WorkDraws};
#[allow(unused_imports)]
use crate::rar50::sealing::{is_preparation, is_sealer, law_prepared_work_suits};
use crate::rar50::writer::{plan_archive, PreparedWork};
#[allow(unused_imports)]
use crate::rar50::writer::{
    archive_request_error, is_engine_plan, is_settings_error, is_stop_or_refusal,
};
#[allow(unused_imports)]
use crate::recovery::rar5::record::takes_recovery;
use crate::streaming::resources::WriterResources;
#[allow(unused_imports)]
use crate::streaming::resources::ResourcesView;
use crate::write_progress::{ask, check_cancelled, report_emission, tell, WriteProgress};
#[allow(unused_imports)]
use crate::write_progress::{
    emission_event, has_stopped, heeds, is_stopped_by, is_told, may_tell,
};

verus! {

/// A source as it is read for writing, after it was read for compression.
#[derive(Debug)]
pub struct SecondReading {
    pub bytes: Vec<u8>,
    pub hash: [u8; 32],
}

/// A member with what it is written from: stored ones take the second reading.
pub open spec fn reread_of(member: CompressedMember, reading: SecondReading) -> CompressedMember {
    if member.store {
        CompressedMember { packed: reading.bytes, packed_hash: reading.hash, ..member }
    } else {
        member
    }
}

pub open spec fn all_reread(
    members: Seq<CompressedMember>,
    readings: Seq<SecondReading>,
) -> Seq<CompressedMember> {
    Seq::new(members.len(), |i: int| reread_of(members[i], readings[i]))
}

pub(crate) fn reread_members(members: Vec<CompressedMember>, readings: Vec<SecondReading>) -> (out: Vec<
    CompressedMember,
>)
    requires
        readings@.len() == members@.len(),
    ensures
        out@ == all_reread(members@, readings@),
{
    let ghost given = members@;
    let ghost read = readings@;
    let count: usize = members.len();
    let mut left = members;
    let mut unread = readings;
    let mut out: Vec<CompressedMember> = Vec::new();
    while out.len() < count
        invariant
            count == given.len(),
            given == members@,
            read == readings@,
            read.len() == given.len(),
            left@.len() == given.len(),
            unread@.len() == given.len(),
            out@.len() <= count,
            forall|i: int| out@.len() <= i < count ==> #[trigger] left@[i] == given[i],
            forall|i: int| out@.len() <= i < count ==> #[trigger] unread@[i] == read[i],
            forall|i: int|
                0 <= i < out@.len() ==> #[trigger] out@[i] == reread_of(given[i], read[i]),
        decreases count - out@.len(),
    {
        let at: usize = out.len();
        let mut member: CompressedMember = no_work().member;
        std::mem::swap(&mut left[at], &mut member);
        let mut reading = SecondReading { bytes: Vec::new(), hash: [0; 32] };
        std::mem::swap(&mut unread[at], &mut reading);
        assert(member == given[at as int]);
        assert(reading == read[at as int]);
        out.push(reread_member(member, reading.bytes, reading.hash));
    }
    assert(out@ =~= all_reread(given, read));
    out
}

/// The sizes that sources announce.
pub open spec fn announced(sources: Seq<MemberSource>) -> Seq<Option<u64>> {
    Seq::new(sources.len(), |i: int| Some(sources[i].input_size))
}

pub(crate) fn announced_sizes(sources: &[MemberSource]) -> (sizes: Vec<Option<u64>>)
    ensures
        sizes@ == announced(sources@),
{
    let mut sizes: Vec<Option<u64>> = Vec::new();
    while sizes.len() < sources.len()
        invariant
            sizes@.len() <= sources@.len(),
            forall|i: int|
                0 <= i < sizes@.len() ==> #[trigger] sizes@[i] == Some(sources@[i].input_size),
        decreases sources@.len() - sizes@.len(),
    {
        let at: usize = sizes.len();
        sizes.push(Some(sources[at].input_size));
    }
    assert(sizes@ =~= announced(sources@));
    sizes
}

/// What is written: the members of a request, read once for compression and once
/// more for writing, the keys of their headers, and what was drawn to encrypt them.
pub struct Material {
    pub entries: Seq<ArchiveEntry>,
    pub sources: Seq<MemberSource>,
    pub readings: Seq<SecondReading>,
    pub keys: Option<HeaderKeys>,
    pub draws: WorkDraws,
}

/// What comes of prepared work: it is written, or there is none.
pub open spec fn is_written_work<Z: Fn(Vec<u8>) -> Result<Vec<u8>>>(
    seal: Z,
    plan: EnginePlan<'_>,
    entries: Seq<ArchiveEntry>,
    resources: ResourcesView,
    work: Result<PreparedWork>,
    r: std::result::Result<Seq<u8>, Error>,
) -> bool {
    match work {
        Err(error) => r == Err::<Seq<u8>, Error>(error),
        Ok(work) => archive_outcome(
            seal,
            entries,
            work.works@,
            plan,
            work.comment_seal,
            work.keys,
            resources,
            r,
        ),
    }
}

/// What comes of compressed members: encrypted and written, or what one of these
/// fails with.
pub open spec fn is_packed_archive<
    H: Fn(&[u8]) -> [u8; 32],
    D: Fn(&[u8], [u8; 16], u32, [u8; 32]) -> Result<PayloadKeys>,
    C: Fn(&[u8], [u8; 16], [u8; 16], Vec<u8>) -> Result<Vec<u8>>,
    Z: Fn(Vec<u8>) -> Result<Vec<u8>>,
>(
    sealer: Sealer<H, D, C>,
    seal: Z,
    plan: EnginePlan<'_>,
    extras: ArchiveExtras<'_>,
    material: Material,
    resources: ResourcesView,
    members: Seq<CompressedMember>,
    r: std::result::Result<Seq<u8>, Error>,
) -> bool {
    exists|work: Result<PreparedWork>|
        {
            &&& #[trigger] is_preparation(
                sealer,
                material.entries,
                all_reread(members, material.readings),
                extras,
                material.keys,
                material.draws,
                work,
            )
            &&& is_written_work(seal, plan, material.entries, resources, work, r)
        }
}

proof fn lemma_packed<
    H: Fn(&[u8]) -> [u8; 32],
    D: Fn(&[u8], [u8; 16], u32, [u8; 32]) -> Result<PayloadKeys>,
    C: Fn(&[u8], [u8; 16], [u8; 16], Vec<u8>) -> Result<Vec<u8>>,
    Z: Fn(Vec<u8>) -> Result<Vec<u8>>,
>(
    sealer: Sealer<H, D, C>,
    seal: Z,
    plan: EnginePlan<'_>,
    extras: ArchiveExtras<'_>,
    material: Material,
    resources: ResourcesView,
    members: Seq<CompressedMember>,
    work: Result<PreparedWork>,
    r: std::result::Result<Seq<u8>, Error>,
)
    requires
        is_preparation(
            sealer,
            material.entries,
            all_reread(members, material.readings),
            extras,
            material.keys,
            material.draws,
            work,
        ),
        is_written_work(seal, plan, material.entries, resources, work, r),
    ensures
        is_packed_archive(sealer, seal, plan, extras, material, resources, members, r),
{
}

/// What comes of compression: what it fails with, or what comes of the
/// compressed members.
pub open spec fn is_written_compression<
    H: Fn(&[u8]) -> [u8; 32],
    D: Fn(&[u8], [u8; 16], u32, [u8; 32]) -> Result<PayloadKeys>,
    C: Fn(&[u8], [u8; 16], [u8; 16], Vec<u8>) -> Result<Vec<u8>>,
    Z: Fn(Vec<u8>) -> Result<Vec<u8>>,
>(
    sealer: Sealer<H, D, C>,
    seal: Z,
    plan: EnginePlan<'_>,
    extras: ArchiveExtras<'_>,
    material: Material,
    resources: ResourcesView,
    compressed: Result<Vec<CompressedMember>>,
    r: std::result::Result<Seq<u8>, Error>,
) -> bool {
    match compressed {
        Err(error) => r == Err::<Seq<u8>, Error>(error),
        Ok(members) => is_packed_archive(
            sealer,
            seal,
            plan,
            extras,
            material,
            resources,
            members@,
            r,
        ),
    }
}

/// What comes of a planned archive: a refusal of the entries; otherwise what
/// compression fails with, or what comes of the compressed members.
pub open spec fn is_planned_archive<
    X: Fn(&[u8], &[u8]) -> bool,
    B: Fn(&BlockJob) -> Result<Vec<Vec<u8>>>,
    A: Fn(&[u8], usize) -> Option<u64>,
    S: Fn(&[u8], EncodeOptions, usize) -> Result<Turn<(Vec<FilterSpec>, Vec<u8>)>>,
    E: Fn(&[u8], Vec<FilterSpec>, EncodeOptions, usize) -> Result<Turn<Vec<u8>>>,
    H: Fn(&[u8]) -> [u8; 32],
    D: Fn(&[u8], [u8; 16], u32, [u8; 32]) -> Result<PayloadKeys>,
    C: Fn(&[u8], [u8; 16], [u8; 16], Vec<u8>) -> Result<Vec<u8>>,
    Z: Fn(Vec<u8>) -> Result<Vec<u8>>,
>(
    codec: MemberCodec<X, B, A, S, E>,
    sealer: Sealer<H, D, C>,
    seal: Z,
    plan: EnginePlan<'_>,
    extras: ArchiveExtras<'_>,
    material: Material,
    resources: ResourcesView,
    r: std::result::Result<Seq<u8>, Error>,
) -> bool {
    match early_error(plan, material.entries, resources.is_stopped()) {
        Some(error) => r == Err::<Seq<u8>, Error>(error),
        None => exists|compressed: Result<Vec<CompressedMember>>|
            {
                &&& #[trigger] is_compressed_outcome(
                    codec,
                    plan.compress,
                    resources.memory_limit,
                    material.sources,
                    compressed,
                )
                &&& is_written_compression(
                    sealer,
                    seal,
                    plan,
                    extras,
                    material,
                    resources,
                    compressed,
                    r,
                )
            },
    }
}

proof fn lemma_planned<
    X: Fn(&[u8], &[u8]) -> bool,
    B: Fn(&BlockJob) -> Result<Vec<Vec<u8>>>,
    A: Fn(&[u8], usize) -> Option<u64>,
    S: Fn(&[u8], EncodeOptions, usize) -> Result<Turn<(Vec<FilterSpec>, Vec<u8>)>>,
    E: Fn(&[u8], Vec<FilterSpec>, EncodeOptions, usize) -> Result<Turn<Vec<u8>>>,
    H: Fn(&[u8]) -> [u8; 32],
    D: Fn(&[u8], [u8; 16], u32, [u8; 32]) -> Result<PayloadKeys>,
    C: Fn(&[u8], [u8; 16], [u8; 16], Vec<u8>) -> Result<Vec<u8>>,
    Z: Fn(Vec<u8>) -> Result<Vec<u8>>,
>(
    codec: MemberCodec<X, B, A, S, E>,
    sealer: Sealer<H, D, C>,
    seal: Z,
    plan: EnginePlan<'_>,
    extras: ArchiveExtras<'_>,
    material: Material,
    resources: ResourcesView,
    compressed: Result<Vec<CompressedMember>>,
    r: std::result::Result<Seq<u8>, Error>,
)
    requires
        early_error(plan, material.entries, resources.is_stopped()) is None,
        is_compressed_outcome(
            codec,
            plan.compress,
            resources.memory_limit,
            material.sources,
            compressed,
        ),
        is_written_compression(
            sealer,
            seal,
            plan,
            extras,
            material,
            resources,
            compressed,
            r,
        ),
    ensures
        is_planned_archive(codec, sealer, seal, plan, extras, material, resources, r),
{
}

/// What comes of a request for an archive of some members.
pub open spec fn is_assembled<
    X: Fn(&[u8], &[u8]) -> bool,
    B: Fn(&BlockJob) -> Result<Vec<Vec<u8>>>,
    A: Fn(&[u8], usize) -> Option<u64>,
    S: Fn(&[u8], EncodeOptions, usize) -> Result<Turn<(Vec<FilterSpec>, Vec<u8>)>>,
    E: Fn(&[u8], Vec<FilterSpec>, EncodeOptions, usize) -> Result<Turn<Vec<u8>>>,
    H: Fn(&[u8]) -> [u8; 32],
    D: Fn(&[u8], [u8; 16], u32, [u8; 32]) -> Result<PayloadKeys>,
    C: Fn(&[u8], [u8; 16], [u8; 16], Vec<u8>) -> Result<Vec<u8>>,
    Z: Fn(Vec<u8>) -> Result<Vec<u8>>,
>(
    codec: MemberCodec<X, B, A, S, E>,
    sealer: Sealer<H, D, C>,
    seal: Z,
    options: WriterOptions,
    extras: ArchiveExtras<'_>,
    material: Material,
    resources: ResourcesView,
    r: std::result::Result<Seq<u8>, Error>,
) -> bool {
    let sizes = announced(material.sources);
    match archive_request_error(material.entries, options, extras) {
        Some(error) => r == Err::<Seq<u8>, Error>(error),
        None => {
            ||| r matches Err(error) && is_settings_error(
                sizes,
                options,
                resources.memory_limit,
                error,
            )
            ||| exists|plan: EnginePlan<'_>| #[trigger]
                is_engine_plan(sizes, options, extras, resources.memory_limit, false, plan)
                    && is_planned_archive(
                    codec,
                    sealer,
                    seal,
                    plan,
                    extras,
                    material,
                    resources,
                    r,
                )
        },
    }
}

/// Encrypts and writes compressed members.
fn write_packed<
    H: Fn(&[u8]) -> [u8; 32],
    D: Fn(&[u8], [u8; 16], u32, [u8; 32]) -> Result<PayloadKeys>,
    C: Fn(&[u8], [u8; 16], [u8; 16], Vec<u8>) -> Result<Vec<u8>>,
    Z: Fn(Vec<u8>) -> Result<Vec<u8>>,
    P: WriteProgress,
>(
    entries: &[ArchiveEntry],
    members: Vec<CompressedMember>,
    readings: Vec<SecondReading>,
    options: WriterOptions,
    extras: &ArchiveExtras<'_>,
    keys: Option<HeaderKeys>,
    draws: &WorkDraws,
    plan: &EnginePlan<'_>,
    sealer: &Sealer<H, D, C>,
    seal: &Z,
    resources: &mut WriterResources,
    progress: Option<&P>,
    watch: &mut MemberProgress<'_, P>,
    Ghost(sources): Ghost<Seq<MemberSource>>,
) -> (r: Result<Vec<u8>>)
    requires
        old(watch).is_valid(),
        old(watch).receiver() == progress,
        is_sealer(*sealer),
        is_sealing(*seal, options.features.header_encryption),
        members@.len() == entries@.len(),
        readings@.len() == entries@.len(),
        keys is Some <==> options.features.header_encryption,
        draws.suit(entries@),
        is_engine_plan(
            announced(sources),
            options,
            *extras,
            old(resources)@.memory_limit,
            false,
            *plan,
        ),
        takes_recovery(progress),
        is_told(progress, members_done_event(old(watch).work().total())) ==> may_tell(
            progress,
            members_event(false, old(watch).work().total(), old(watch).count() as usize),
        ),
    ensures
        is_stopped_by(progress, r) || is_packed_archive(
            *sealer,
            *seal,
            *plan,
            *extras,
            (Material { entries: entries@, sources, readings: readings@, keys, draws: *draws }),
            old(resources)@,
            members@,
            bytes_result(r),
        ),
        final(resources)@ == old(resources)@,
        has_stopped(progress) ==> r is Err,
        r is Ok ==> is_told(progress, emission_event(true)) && is_told(
            progress,
            members_event(false, old(watch).work().total(), old(watch).count() as usize),
        ),
        r is Ok ==> is_told(progress, members_done_event(old(watch).work().total())),
{
    let ghost read = readings@;
    let ghost given = members@;
    let ghost start = resources@;
    let ready = reread_members(members, readings);
    let prepared = prepare_work_by(entries, ready, extras, keys, draws, sealer);
    let ghost outcome = prepared;
    let r = match prepared {
        Err(error) => Err(error),
        Ok(work) => {
            match watch.finish() {
                Ok(()) => {},
                Err(error) => {
                    return Err(error);
                },
            }
            watch.operation_finished();
            proof {
                law_prepared_work_suits(
                    *sealer,
                    entries@,
                    all_reread(given, read),
                    options,
                    *extras,
                    keys,
                    *draws,
                    work,
                );
            }
            write_archive(
                entries,
                work.works,
                plan,
                work.comment_seal,
                work.keys,
                resources,
                seal,
                progress,
            )
        },
    };
    proof {
        let material = Material { entries: entries@, sources, readings: read, keys, draws: *draws };
        if !is_stopped_by(progress, r) {
            assert(is_written_work(*seal, *plan, entries@, start, outcome, bytes_result(r)));
            lemma_packed(
                *sealer,
                *seal,
                *plan,
                *extras,
                material,
                start,
                given,
                outcome,
                bytes_result(r),
            );
        }
    }
    r
}

/// Compresses, encrypts and writes members under a plan.
fn write_planned<
    X: Fn(&[u8], &[u8]) -> bool,
    B: Fn(&BlockJob) -> Result<Vec<Vec<u8>>>,
    A: Fn(&[u8], usize) -> Option<u64>,
    S: Fn(&[u8], EncodeOptions, usize) -> Result<Turn<(Vec<FilterSpec>, Vec<u8>)>>,
    E: Fn(&[u8], Vec<FilterSpec>, EncodeOptions, usize) -> Result<Turn<Vec<u8>>>,
    H: Fn(&[u8]) -> [u8; 32],
    D: Fn(&[u8], [u8; 16], u32, [u8; 32]) -> Result<PayloadKeys>,
    C: Fn(&[u8], [u8; 16], [u8; 16], Vec<u8>) -> Result<Vec<u8>>,
    Z: Fn(Vec<u8>) -> Result<Vec<u8>>,
    P: WriteProgress,
>(
    entries: &[ArchiveEntry],
    sources: &[MemberSource],
    readings: Vec<SecondReading>,
    options: WriterOptions,
    extras: &ArchiveExtras<'_>,
    keys: Option<HeaderKeys>,
    draws: &WorkDraws,
    threads: usize,
    plan: &EnginePlan<'_>,
    codec: &MemberCodec<X, B, A, S, E>,
    sealer: &Sealer<H, D, C>,
    seal: &Z,
    resources: &mut WriterResources,
    progress: Option<&P>,
) -> (r: Result<Vec<u8>>)
    requires
        is_member_codec(*codec),
        is_sealer(*sealer),
        is_sealing(*seal, options.features.header_encryption),
        sources@.len() == entries@.len(),
        readings@.len() == entries@.len(),
        keys is Some <==> options.features.header_encryption,
        draws.suit(entries@),
        is_engine_plan(
            announced(sources@),
            options,
            *extras,
            old(resources)@.memory_limit,
            false,
            *plan,
        ),
        plan.compress.block_size > 0,
        takes_recovery(progress),
        takes_members_done(progress, entries@, sources@),
    ensures
        is_stopped_by(progress, r) || is_planned_archive(
            *codec,
            *sealer,
            *seal,
            *plan,
            *extras,
            (Material { entries: entries@, sources: sources@, readings: readings@, keys, draws: *draws }),
            old(resources)@,
            bytes_result(r),
        ),
        final(resources)@ == old(resources)@,
        heeds(progress, early_error(*plan, entries@, old(resources)@.is_stopped()), r),
        r is Ok ==> (Audience { receiver: progress, entries: entries@, sources: sources@ }).hears_of(
            0,
            sources@.len(),
        ),
        r is Ok ==> is_told(progress, emission_event(true)) && is_told(
            progress,
            members_event(true, input_total(sources@), sources@.len() as usize),
        ) && is_told(
            progress,
            members_event(false, input_total(sources@), sources@.len() as usize),
        ),
        r is Ok ==> is_told(progress, members_done_event(input_total(sources@))),
{
    let ghost start = resources@;
    let ghost material = Material {
        entries: entries@,
        sources: sources@,
        readings: readings@,
        keys,
        draws: *draws,
    };
    match validate_entries(entries) {
        Ok(()) => {},
        Err(error) => {
            return Err(error);
        },
    }
    match archive_header_password(plan.header_encrypted, plan.header_password, entries) {
        Ok(_) => {},
        Err(error) => {
            return Err(error);
        },
    }
    match check_cancelled(resources.is_cancelled()) {
        Ok(()) => {},
        Err(error) => {
            return Err(error);
        },
    }
    let memory_limit: u64 = resources.memory_limit();
    let mut watch = MemberProgress::new(entries, sources, progress);
    watch.operation_started();
    let ghost fresh = watch;
    let compressed = compress_members(
        sources,
        &plan.compress,
        memory_limit,
        threads,
        codec,
        &mut watch,
    );
    let ghost outcome = compressed;
    assert(is_stopped(fresh, outcome) || is_compressed_outcome(
        *codec,
        plan.compress,
        memory_limit,
        sources@,
        outcome,
    ));
    let r = match compressed {
        Err(error) => Err(error),
        Ok(members) => {
            proof {
                law_members_keep_their_sources(
                    *codec,
                    plan.compress,
                    memory_limit,
                    sources@,
                    members,
                );
            }
            write_packed(
                entries,
                members,
                readings,
                options,
                extras,
                keys,
                draws,
                plan,
                sealer,
                seal,
                resources,
                progress,
                &mut watch,
                Ghost(sources@),
            )
        },
    };
    proof {
        if !(is_stopped_by(progress, r)) {
            assert(is_written_compression(
                *sealer,
                *seal,
                *plan,
                *extras,
                material,
                start,
                outcome,
                bytes_result(r),
            ));
            lemma_planned(
                *codec,
                *sealer,
                *seal,
                *plan,
                *extras,
                material,
                start,
                outcome,
                bytes_result(r),
            );
        }
    }
    r
}

/// Writes an archive of some members, encrypted with what was drawn for them.
///
/// `sources` are the members as they were read for compression, and `readings` as
/// they are read once more: a stored member that has changed in between is not
/// written.
pub fn assemble_archive_by<
    X: Fn(&[u8], &[u8]) -> bool,
    B: Fn(&BlockJob) -> Result<Vec<Vec<u8>>>,
    A: Fn(&[u8], usize) -> Option<u64>,
    S: Fn(&[u8], EncodeOptions, usize) -> Result<Turn<(Vec<FilterSpec>, Vec<u8>)>>,
    E: Fn(&[u8], Vec<FilterSpec>, EncodeOptions, usize) -> Result<Turn<Vec<u8>>>,
    H: Fn(&[u8]) -> [u8; 32],
    D: Fn(&[u8], [u8; 16], u32, [u8; 32]) -> Result<PayloadKeys>,
    C: Fn(&[u8], [u8; 16], [u8; 16], Vec<u8>) -> Result<Vec<u8>>,
    Z: Fn(Vec<u8>) -> Result<Vec<u8>>,
    P: WriteProgress,
>(
    entries: &[ArchiveEntry],
    sources: &[MemberSource],
    readings: Vec<SecondReading>,
    options: WriterOptions,
    extras: ArchiveExtras<'_>,
    keys: Option<HeaderKeys>,
    draws: &WorkDraws,
    threads: usize,
    codec: &MemberCodec<X, B, A, S, E>,
    sealer: &Sealer<H, D, C>,
    seal: &Z,
    resources: &mut WriterResources,
    progress: Option<&P>,
) -> (r: Result<Vec<u8>>)
    requires
        is_member_codec(*codec),
        is_sealer(*sealer),
        is_sealing(*seal, options.features.header_encryption),
        sources@.len() == entries@.len(),
        readings@.len() == entries@.len(),
        keys is Some <==> options.features.header_encryption,
        draws.suit(entries@),
        archive_request_error(entries@, options, extras) is None ==> takes_recovery(progress)
            && takes_members_done(progress, entries@, sources@),
        forall|out: Seq<u8>| #[trigger]
            is_assembled(
                *codec,
                *sealer,
                *seal,
                options,
                extras,
                (Material { entries: entries@, sources: sources@, readings: readings@, keys, draws: *draws }),
                old(resources)@,
                Ok::<Seq<u8>, Error>(out),
            ) ==> may_tell(progress, emission_event(false)),
    ensures
        is_stopped_by(progress, r) || is_assembled(
            *codec,
            *sealer,
            *seal,
            options,
            extras,
            (Material { entries: entries@, sources: sources@, readings: readings@, keys, draws: *draws }),
            old(resources)@,
            bytes_result(r),
        ),
        final(resources)@ == old(resources)@,
        archive_request_error(entries@, options, extras) matches Some(error) ==> r == Err::<
            Vec<u8>,
            Error,
        >(error),
        has_stopped(progress) ==> is_stop_or_refusal(
            archive_request_error(entries@, options, extras),
            entries@,
            announced(sources@),
            options,
            old(resources)@.memory_limit,
            r,
        ),
        r is Ok ==> hears_of_write(progress, entries@, sources@),
{
    let ghost given = readings@;
    let ghost start = resources@;
    let memory_limit: u64 = resources.memory_limit();
    let sizes = announced_sizes(sources);
    let plan = match plan_archive(entries, &sizes, options, extras, memory_limit) {
        Ok(plan) => plan,
        Err(error) => {
            return Err(error);
        },
    };
    assert(is_engine_plan(announced(sources@), options, extras, memory_limit, false, plan));
    let r = write_planned(
        entries,
        sources,
        readings,
        options,
        &extras,
        keys,
        draws,
        threads,
        &plan,
        codec,
        sealer,
        seal,
        resources,
        progress,
    );
    let ghost made = bytes_result(r);
    if r.is_ok() {
        assert(is_assembled(
            *codec,
            *sealer,
            *seal,
            options,
            extras,
            (Material { entries: entries@, sources: sources@, readings: given, keys, draws: *draws }),
            start,
            Ok::<Seq<u8>, Error>(made->Ok_0),
        ));
        match ask(progress) {
            Ok(()) => {},
            Err(error) => {
                return Err(error);
            },
        }
        tell(progress, report_emission(false));
    }
    r
}

/// Writes an archive of some members. What has a password is encrypted under a
/// fresh salt and IV.
///
/// `sources` are the members as they were read for compression, and `readings` as
/// they are read once more: a stored member that has changed in between is not
/// written.
pub fn assemble_archive<
    X: Fn(&[u8], &[u8]) -> bool,
    B: Fn(&BlockJob) -> Result<Vec<Vec<u8>>>,
    A: Fn(&[u8], usize) -> Option<u64>,
    S: Fn(&[u8], EncodeOptions, usize) -> Result<Turn<(Vec<FilterSpec>, Vec<u8>)>>,
    E: Fn(&[u8], Vec<FilterSpec>, EncodeOptions, usize) -> Result<Turn<Vec<u8>>>,
    H: Fn(&[u8]) -> [u8; 32],
    D: Fn(&[u8], [u8; 16], u32, [u8; 32]) -> Result<PayloadKeys>,
    C: Fn(&[u8], [u8; 16], [u8; 16], Vec<u8>) -> Result<Vec<u8>>,
    Z: Fn(Vec<u8>) -> Result<Vec<u8>>,
    P: WriteProgress,
>(
    entries: &[ArchiveEntry],
    sources: &[MemberSource],
    readings: Vec<SecondReading>,
    options: WriterOptions,
    extras: ArchiveExtras<'_>,
    keys: Option<HeaderKeys>,
    threads: usize,
    codec: &MemberCodec<X, B, A, S, E>,
    sealer: &Sealer<H, D, C>,
    seal: &Z,
    resources: &mut WriterResources,
    progress: Option<&P>,
) -> (r: Result<Vec<u8>>)
    requires
        is_member_codec(*codec),
        is_sealer(*sealer),
        is_sealing(*seal, options.features.header_encryption),
        sources@.len() == entries@.len(),
        readings@.len() == entries@.len(),
        keys is Some <==> options.features.header_encryption,
        archive_request_error(entries@, options, extras) is None ==> takes_recovery(progress)
            && takes_members_done(progress, entries@, sources@),
        forall|draws: WorkDraws, out: Seq<u8>| #[trigger]
            is_assembled(
                *codec,
                *sealer,
                *seal,
                options,
                extras,
                (Material { entries: entries@, sources: sources@, readings: readings@, keys, draws }),
                old(resources)@,
                Ok::<Seq<u8>, Error>(out),
            ) ==> may_tell(progress, emission_event(false)),
    ensures
        is_stopped_by(progress, r) || (exists|draws: WorkDraws| #[trigger]
            is_assembled(
                *codec,
                *sealer,
                *seal,
                options,
                extras,
                (Material { entries: entries@, sources: sources@, readings: readings@, keys, draws }),
                old(resources)@,
                bytes_result(r),
            )),
        final(resources)@ == old(resources)@,
        archive_request_error(entries@, options, extras) matches Some(error) ==> r == Err::<
            Vec<u8>,
            Error,
        >(error),
        has_stopped(progress) ==> is_stop_or_refusal(
            archive_request_error(entries@, options, extras),
            entries@,
            announced(sources@),
            options,
            old(resources)@.memory_limit,
            r,
        ),
        r is Ok ==> hears_of_write(progress, entries@, sources@),
{
    let draws = WorkDraws::new(entries, &extras);
    assemble_archive_by(
        entries,
        sources,
        readings,
        options,
        extras,
        keys,
        &draws,
        threads,
        codec,
        sealer,
        seal,
        resources,
        progress,
    )
}

/// Sources that read the same twice are not taken for changed ones, however they
/// are compressed.
pub proof fn law_unchanged_sources_are_written<
    X: Fn(&[u8], &[u8]) -> bool,
    B: Fn(&BlockJob) -> Result<Vec<Vec<u8>>>,
    A: Fn(&[u8], usize) -> Option<u64>,
    S: Fn(&[u8], EncodeOptions, usize) -> Result<Turn<(Vec<FilterSpec>, Vec<u8>)>>,
    E: Fn(&[u8], Vec<FilterSpec>, EncodeOptions, usize) -> Result<Turn<Vec<u8>>>,
>(
    codec: MemberCodec<X, B, A, S, E>,
    plan: CompressPlan,
    memory_limit: u64,
    sources: Seq<MemberSource>,
    readings: Seq<SecondReading>,
    members: Vec<CompressedMember>,
)
    requires
        is_compressed_outcome(
            codec,
            plan,
            memory_limit,
            sources,
            Ok::<Vec<CompressedMember>, Error>(members),
        ),
        readings.len() == sources.len(),
        forall|i: int|
            0 <= i < sources.len() ==> (#[trigger] readings[i]).bytes@ == sources[i].data@
                && readings[i].hash == sources[i].hash,
    ensures
        forall|i: int|
            0 <= i < sources.len() ==> (#[trigger] all_reread(
                members@,
                readings,
            )[i]).source_error() is None,
{
    law_members_keep_their_sources(codec, plan, memory_limit, sources, members);
    assert forall|i: int| 0 <= i < sources.len() implies (#[trigger] all_reread(
        members@,
        readings,
    )[i]).source_error() is None by {
        assert(sources[i].keeps_its_size());
        assert(readings[i].bytes@ == sources[i].data@);
        assert(all_reread(members@, readings)[i] == reread_of(members@[i], readings[i]));
    }
}

} // verus!
