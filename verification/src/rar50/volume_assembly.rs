//! From members to a volume set: planning, compressing, encrypting, cutting and
//! writing in one go.

use vstd::prelude::*;

use crate::error::{Error, Result};
use crate::filter::FilterSpec;
use crate::rar50::assembly::{announced_sizes, reread_members, SecondReading};
#[allow(unused_imports)]
use crate::rar50::assembly::{all_reread, announced, Material};
use crate::rar50::blocks::CompressedMember;
use crate::rar50::compress::MemberSource;
#[allow(unused_imports)]
use crate::rar50::container::is_sealing;
use crate::rar50::dispatch::{compress_members, MemberCodec};
#[allow(unused_imports)]
use crate::rar50::dispatch::{
    is_compressed_outcome, is_member_codec, law_members_keep_their_sources,
};
use crate::rar50::encryption::PayloadKeys;
use crate::rar50::engine::{archive_header_password, EnginePlan, HeaderKeys};
use crate::rar50::entry::{validate_entries, ArchiveEntry, ArchiveExtras};
use crate::rar50::fragment_hashes::hash_works;
#[allow(unused_imports)]
use crate::rar50::fragment_hashes::are_work_hashes;
use crate::rar50::ladder::EncodeOptions;
#[allow(unused_imports)]
use crate::rar50::member_progress::{
    hears_of_write, input_total, is_stopped, members_done_event, members_event, takes_members_done,
    Audience,
};
use crate::rar50::member_progress::MemberProgress;
use crate::rar50::options::WriterOptions;
use crate::rar50::runs::BlockJob;
use crate::rar50::share::Turn;
use crate::rar50::sealing::{prepare_work_by, Sealer, WorkDraws};
#[allow(unused_imports)]
use crate::rar50::sealing::{is_preparation, is_sealer, law_prepared_work_suits};
use crate::rar50::volume_set::write_volumes;
#[allow(unused_imports)]
use crate::rar50::volume_set::{early_set_error, outputs_result, set_outcome};
use crate::rar50::writer::{plan_volumes, PreparedWork};
#[allow(unused_imports)]
use crate::rar50::writer::{
    is_engine_plan, is_settings_error, is_stop_or_refusal, volumes_request_error,
};
#[allow(unused_imports)]
use crate::recovery::rar5::record::takes_recovery;
use crate::streaming::resources::WriterResources;
#[allow(unused_imports)]
use crate::streaming::resources::ResourcesView;
use crate::write_progress::{ask, check_cancelled, report_emission, tell, WriteProgress};
#[allow(unused_imports)]
use crate::write_progress::{
    emission_event, has_stopped, heeds, is_stopped_by, is_told, may_tell,
};

verus! {

/// What comes of prepared work: it is cut and written, or there is none.
pub open spec fn is_cut_work<
    H: Fn(&[u8]) -> [u8; 32],
    Z: Fn(Vec<u8>) -> Result<Vec<u8>>,
>(
    hash: H,
    seal: Z,
    plan: EnginePlan<'_>,
    entries: Seq<ArchiveEntry>,
    max_payload_per_volume: u64,
    resources: ResourcesView,
    work: Result<PreparedWork>,
    r: std::result::Result<Seq<Seq<u8>>, Error>,
) -> bool {
    match work {
        Err(error) => r == Err::<Seq<Seq<u8>>, Error>(error),
        Ok(work) => exists|hashes: Seq<Vec<[u8; 32]>>| #[trigger]
            are_work_hashes(hash, work.works@, max_payload_per_volume as nat, hashes)
                && set_outcome(
                seal,
                entries,
                work.works@,
                hashes,
                plan,
                max_payload_per_volume,
                work.keys,
                resources,
                r,
            ),
    }
}

/// What comes of compressed members: encrypted, cut and written, or what one of
/// these fails with.
pub open spec fn is_cut_set<
    H: Fn(&[u8]) -> [u8; 32],
    D: Fn(&[u8], [u8; 16], u32, [u8; 32]) -> Result<PayloadKeys>,
    C: Fn(&[u8], [u8; 16], [u8; 16], Vec<u8>) -> Result<Vec<u8>>,
    Z: Fn(Vec<u8>) -> Result<Vec<u8>>,
>(
    sealer: Sealer<H, D, C>,
    seal: Z,
    plan: EnginePlan<'_>,
    extras: ArchiveExtras<'_>,
    material: Material,
    max_payload_per_volume: u64,
    resources: ResourcesView,
    members: Seq<CompressedMember>,
    r: std::result::Result<Seq<Seq<u8>>, Error>,
) -> bool {
    exists|work: Result<PreparedWork>|
        {
            &&& #[trigger] is_preparation(
                sealer,
                material.entries,
                all_reread(members, material.readings),
                extras,
                material.keys,
                material.draws,
                work,
            )
            &&& is_cut_work(
                sealer.hash,
                seal,
                plan,
                material.entries,
                max_payload_per_volume,
                resources,
                work,
                r,
            )
        }
}

/// What comes of compression: what it fails with, or what comes of the
/// compressed members.
pub open spec fn is_packed_set<
    H: Fn(&[u8]) -> [u8; 32],
    D: Fn(&[u8], [u8; 16], u32, [u8; 32]) -> Result<PayloadKeys>,
    C: Fn(&[u8], [u8; 16], [u8; 16], Vec<u8>) -> Result<Vec<u8>>,
    Z: Fn(Vec<u8>) -> Result<Vec<u8>>,
>(
    sealer: Sealer<H, D, C>,
    seal: Z,
    plan: EnginePlan<'_>,
    extras: ArchiveExtras<'_>,
    material: Material,
    max_payload_per_volume: u64,
    resources: ResourcesView,
    compressed: Result<Vec<CompressedMember>>,
    r: std::result::Result<Seq<Seq<u8>>, Error>,
) -> bool {
    match compressed {
        Err(error) => r == Err::<Seq<Seq<u8>>, Error>(error),
        Ok(members) => is_cut_set(
            sealer,
            seal,
            plan,
            extras,
            material,
            max_payload_per_volume,
            resources,
            members@,
            r,
        ),
    }
}

/// What comes of a planned volume set.
pub open spec fn is_planned_set<
    X: Fn(&[u8], &[u8]) -> bool,
    B: Fn(&BlockJob) -> Result<Vec<Vec<u8>>>,
    A: Fn(&[u8], usize) -> Option<u64>,
    S: Fn(&[u8], EncodeOptions, usize) -> Result<Turn<(Vec<FilterSpec>, Vec<u8>)>>,
    E: Fn(&[u8], Vec<FilterSpec>, EncodeOptions, usize) -> Result<Turn<Vec<u8>>>,
    H: Fn(&[u8]) -> [u8; 32],
    D: Fn(&[u8], [u8; 16], u32, [u8; 32]) -> Result<PayloadKeys>,
    C: Fn(&[u8], [u8; 16], [u8; 16], Vec<u8>) -> Result<Vec<u8>>,
    Z: Fn(Vec<u8>) -> Result<Vec<u8>>,
>(
    codec: MemberCodec<X, B, A, S, E>,
    sealer: Sealer<H, D, C>,
    seal: Z,
    plan: EnginePlan<'_>,
    extras: ArchiveExtras<'_>,
    material: Material,
    max_payload_per_volume: u64,
    resources: ResourcesView,
    r: std::result::Result<Seq<Seq<u8>>, Error>,
) -> bool {
    match early_set_error(
        plan,
        material.entries,
        max_payload_per_volume,
        resources.is_stopped(),
    ) {
        Some(error) => r == Err::<Seq<Seq<u8>>, Error>(error),
        None => exists|compressed: Result<Vec<CompressedMember>>|
            {
                &&& #[trigger] is_compressed_outcome(
                    codec,
                    plan.compress,
                    resources.memory_limit,
                    material.sources,
                    compressed,
                )
                &&& is_packed_set(
                    sealer,
                    seal,
                    plan,
                    extras,
                    material,
                    max_payload_per_volume,
                    resources,
                    compressed,
                    r,
                )
            },
    }
}

proof fn lemma_cut_set<
    H: Fn(&[u8]) -> [u8; 32],
    D: Fn(&[u8], [u8; 16], u32, [u8; 32]) -> Result<PayloadKeys>,
    C: Fn(&[u8], [u8; 16], [u8; 16], Vec<u8>) -> Result<Vec<u8>>,
    Z: Fn(Vec<u8>) -> Result<Vec<u8>>,
>(
    sealer: Sealer<H, D, C>,
    seal: Z,
    plan: EnginePlan<'_>,
    extras: ArchiveExtras<'_>,
    material: Material,
    max_payload_per_volume: u64,
    resources: ResourcesView,
    members: Seq<CompressedMember>,
    work: Result<PreparedWork>,
    r: std::result::Result<Seq<Seq<u8>>, Error>,
)
    requires
        is_preparation(
            sealer,
            material.entries,
            all_reread(members, material.readings),
            extras,
            material.keys,
            material.draws,
            work,
        ),
        is_cut_work(
            sealer.hash,
            seal,
            plan,
            material.entries,
            max_payload_per_volume,
            resources,
            work,
            r,
        ),
    ensures
        is_cut_set(
            sealer,
            seal,
            plan,
            extras,
            material,
            max_payload_per_volume,
            resources,
            members,
            r,
        ),
{
}

proof fn lemma_planned_set<
    X: Fn(&[u8], &[u8]) -> bool,
    B: Fn(&BlockJob) -> Result<Vec<Vec<u8>>>,
    A: Fn(&[u8], usize) -> Option<u64>,
    S: Fn(&[u8], EncodeOptions, usize) -> Result<Turn<(Vec<FilterSpec>, Vec<u8>)>>,
    E: Fn(&[u8], Vec<FilterSpec>, EncodeOptions, usize) -> Result<Turn<Vec<u8>>>,
    H: Fn(&[u8]) -> [u8; 32],
    D: Fn(&[u8], [u8; 16], u32, [u8; 32]) -> Result<PayloadKeys>,
    C: Fn(&[u8], [u8; 16], [u8; 16], Vec<u8>) -> Result<Vec<u8>>,
    Z: Fn(Vec<u8>) -> Result<Vec<u8>>,
>(
    codec: MemberCodec<X, B, A, S, E>,
    sealer: Sealer<H, D, C>,
    seal: Z,
    plan: EnginePlan<'_>,
    extras: ArchiveExtras<'_>,
    material: Material,
    max_payload_per_volume: u64,
    resources: ResourcesView,
    compressed: Result<Vec<CompressedMember>>,
    r: std::result::Result<Seq<Seq<u8>>, Error>,
)
    requires
        early_set_error(
            plan,
            material.entries,
            max_payload_per_volume,
            resources.is_stopped(),
        ) is None,
        is_compressed_outcome(
            codec,
            plan.compress,
            resources.memory_limit,
            material.sources,
            compressed,
        ),
        is_packed_set(
            sealer,
            seal,
            plan,
            extras,
            material,
            max_payload_per_volume,
            resources,
            compressed,
            r,
        ),
    ensures
        is_planned_set(
            codec,
            sealer,
            seal,
            plan,
            extras,
            material,
            max_payload_per_volume,
            resources,
            r,
        ),
{
}

/// Encrypts, cuts and writes compressed members.
fn write_packed_set<
    H: Fn(&[u8]) -> [u8; 32],
    D: Fn(&[u8], [u8; 16], u32, [u8; 32]) -> Result<PayloadKeys>,
    C: Fn(&[u8], [u8; 16], [u8; 16], Vec<u8>) -> Result<Vec<u8>>,
    Z: Fn(Vec<u8>) -> Result<Vec<u8>>,
    P: WriteProgress,
>(
    entries: &[ArchiveEntry],
    members: Vec<CompressedMember>,
    readings: Vec<SecondReading>,
    options: WriterOptions,
    extras: &ArchiveExtras<'_>,
    max_payload_per_volume: u64,
    keys: Option<HeaderKeys>,
    draws: &WorkDraws,
    plan: &EnginePlan<'_>,
    resources: &mut WriterResources,
    sealer: &Sealer<H, D, C>,
    seal: &Z,
    progress: Option<&P>,
    watch: &mut MemberProgress<'_, P>,
    Ghost(sources): Ghost<Seq<MemberSource>>,
) -> (r: Result<Vec<Vec<u8>>>)
    requires
        old(watch).is_valid(),
        old(watch).receiver() == progress,
        is_sealer(*sealer),
        is_sealing(*seal, options.features.header_encryption),
        members@.len() == entries@.len(),
        readings@.len() == entries@.len(),
        keys is Some <==> options.features.header_encryption,
        draws.suit(entries@),
        plan.header_encrypted == options.features.header_encryption,
        max_payload_per_volume > 0,
        takes_recovery(progress),
        is_told(progress, members_done_event(old(watch).work().total())) ==> may_tell(
            progress,
            members_event(false, old(watch).work().total(), old(watch).count() as usize),
        ),
    ensures
        is_stopped_by(progress, r) || is_cut_set(
            *sealer,
            *seal,
            *plan,
            *extras,
            (Material { entries: entries@, sources, readings: readings@, keys, draws: *draws }),
            max_payload_per_volume,
            old(resources)@,
            members@,
            outputs_result(r),
        ),
        final(resources)@ == old(resources)@,
        has_stopped(progress) ==> r is Err,
        r is Ok ==> is_told(progress, emission_event(true)) && is_told(
            progress,
            members_event(false, old(watch).work().total(), old(watch).count() as usize),
        ),
        r is Ok ==> is_told(progress, members_done_event(old(watch).work().total())),
{
    let ghost read = readings@;
    let ghost given = members@;
    let ready = reread_members(members, readings);
    let prepared = prepare_work_by(entries, ready, extras, keys, draws, sealer);
    let ghost outcome = prepared;
    let r = match prepared {
        Err(error) => Err(error),
        Ok(work) => {
            proof {
                law_prepared_work_suits(
                    *sealer,
                    entries@,
                    all_reread(given, read),
                    options,
                    *extras,
                    keys,
                    *draws,
                    work,
                );
            }
            match watch.finish() {
                Ok(()) => {},
                Err(error) => {
                    return Err(error);
                },
            }
            watch.operation_finished();
            let hashes = hash_works(&work.works, max_payload_per_volume, &sealer.hash);
            write_volumes(
                entries,
                work.works,
                &hashes,
                plan,
                max_payload_per_volume,
                work.keys,
                resources,
                seal,
                progress,
            )
        },
    };
    proof {
        let material = Material { entries: entries@, sources, readings: read, keys, draws: *draws };
        if !is_stopped_by(progress, r) {
            assert(is_cut_work(
                sealer.hash,
                *seal,
                *plan,
                entries@,
                max_payload_per_volume,
                resources@,
                outcome,
                outputs_result(r),
            ));
            lemma_cut_set(
                *sealer,
                *seal,
                *plan,
                *extras,
                material,
                max_payload_per_volume,
                resources@,
                given,
                outcome,
                outputs_result(r),
            );
        }
    }
    r
}

/// Compresses, encrypts, cuts and writes members under a plan.
fn write_planned_set<
    X: Fn(&[u8], &[u8]) -> bool,
    B: Fn(&BlockJob) -> Result<Vec<Vec<u8>>>,
    A: Fn(&[u8], usize) -> Option<u64>,
    S: Fn(&[u8], EncodeOptions, usize) -> Result<Turn<(Vec<FilterSpec>, Vec<u8>)>>,
    E: Fn(&[u8], Vec<FilterSpec>, EncodeOptions, usize) -> Result<Turn<Vec<u8>>>,
    H: Fn(&[u8]) -> [u8; 32],
    D: Fn(&[u8], [u8; 16], u32, [u8; 32]) -> Result<PayloadKeys>,
    C: Fn(&[u8], [u8; 16], [u8; 16], Vec<u8>) -> Result<Vec<u8>>,
    Z: Fn(Vec<u8>) -> Result<Vec<u8>>,
    P: WriteProgress,
>(
    entries: &[ArchiveEntry],
    sources: &[MemberSource],
    readings: Vec<SecondReading>,
    options: WriterOptions,
    extras: &ArchiveExtras<'_>,
    max_payload_per_volume: u64,
    keys: Option<HeaderKeys>,
    draws: &WorkDraws,
    threads: usize,
    plan: &EnginePlan<'_>,
    resources: &mut WriterResources,
    codec: &MemberCodec<X, B, A, S, E>,
    sealer: &Sealer<H, D, C>,
    seal: &Z,
    progress: Option<&P>,
) -> (r: Result<Vec<Vec<u8>>>)
    requires
        is_member_codec(*codec),
        is_sealer(*sealer),
        is_sealing(*seal, options.features.header_encryption),
        sources@.len() == entries@.len(),
        readings@.len() == entries@.len(),
        keys is Some <==> options.features.header_encryption,
        draws.suit(entries@),
        plan.header_encrypted == options.features.header_encryption,
        plan.compress.block_size > 0,
        takes_recovery(progress),
        takes_members_done(progress, entries@, sources@),
    ensures
        is_stopped_by(progress, r) || is_planned_set(
            *codec,
            *sealer,
            *seal,
            *plan,
            *extras,
            (Material { entries: entries@, sources: sources@, readings: readings@, keys, draws: *draws }),
            max_payload_per_volume,
            old(resources)@,
            outputs_result(r),
        ),
        final(resources)@ == old(resources)@,
        heeds(
            progress,
            early_set_error(
                *plan,
                entries@,
                max_payload_per_volume,
                old(resources)@.is_stopped(),
            ),
            r,
        ),
        r is Ok ==> (Audience { receiver: progress, entries: entries@, sources: sources@ }).hears_of(
            0,
            sources@.len(),
        ),
        r is Ok ==> is_told(progress, emission_event(true)) && is_told(
            progress,
            members_event(true, input_total(sources@), sources@.len() as usize),
        ) && is_told(
            progress,
            members_event(false, input_total(sources@), sources@.len() as usize),
        ),
        r is Ok ==> is_told(progress, members_done_event(input_total(sources@))),
{
    let ghost material = Material {
        entries: entries@,
        sources: sources@,
        readings: readings@,
        keys,
        draws: *draws,
    };
    if max_payload_per_volume == 0 {
        return Err(Error::InvalidArgument("RAR 5 volume payload size is zero"));
    }
    match validate_entries(entries) {
        Ok(()) => {},
        Err(error) => {
            return Err(error);
        },
    }
    match archive_header_password(plan.header_encrypted, plan.header_password, entries) {
        Ok(_) => {},
        Err(error) => {
            return Err(error);
        },
    }
    match check_cancelled(resources.is_cancelled()) {
        Ok(()) => {},
        Err(error) => {
            return Err(error);
        },
    }
    let memory_limit: u64 = resources.memory_limit();
    let mut watch = MemberProgress::new(entries, sources, progress);
    watch.operation_started();
    let ghost fresh = watch;
    let compressed = compress_members(
        sources,
        &plan.compress,
        memory_limit,
        threads,
        codec,
        &mut watch,
    );
    let ghost outcome = compressed;
    assert(is_stopped(fresh, outcome) || is_compressed_outcome(
        *codec,
        plan.compress,
        memory_limit,
        sources@,
        outcome,
    ));
    let r = match compressed {
        Err(error) => Err(error),
        Ok(members) => {
            proof {
                law_members_keep_their_sources(
                    *codec,
                    plan.compress,
                    memory_limit,
                    sources@,
                    members,
                );
            }
            write_packed_set(
                entries,
                members,
                readings,
                options,
                extras,
                max_payload_per_volume,
                keys,
                draws,
                plan,
                resources,
                sealer,
                seal,
                progress,
                &mut watch,
                Ghost(sources@),
            )
        },
    };
    proof {
        if !(is_stopped_by(progress, r)) {
            lemma_planned_set(
                *codec,
                *sealer,
                *seal,
                *plan,
                *extras,
                material,
                max_payload_per_volume,
                resources@,
                outcome,
                outputs_result(r),
            );
        }
    }
    r
}

/// What comes of a request for a volume set of some members.
pub open spec fn is_assembled_set<
    X: Fn(&[u8], &[u8]) -> bool,
    B: Fn(&BlockJob) -> Result<Vec<Vec<u8>>>,
    A: Fn(&[u8], usize) -> Option<u64>,
    S: Fn(&[u8], EncodeOptions, usize) -> Result<Turn<(Vec<FilterSpec>, Vec<u8>)>>,
    E: Fn(&[u8], Vec<FilterSpec>, EncodeOptions, usize) -> Result<Turn<Vec<u8>>>,
    H: Fn(&[u8]) -> [u8; 32],
    D: Fn(&[u8], [u8; 16], u32, [u8; 32]) -> Result<PayloadKeys>,
    C: Fn(&[u8], [u8; 16], [u8; 16], Vec<u8>) -> Result<Vec<u8>>,
    Z: Fn(Vec<u8>) -> Result<Vec<u8>>,
>(
    codec: MemberCodec<X, B, A, S, E>,
    sealer: Sealer<H, D, C>,
    seal: Z,
    options: WriterOptions,
    extras: ArchiveExtras<'_>,
    material: Material,
    max_payload_per_volume: u64,
    resources: ResourcesView,
    r: std::result::Result<Seq<Seq<u8>>, Error>,
) -> bool {
    let sizes = announced(material.sources);
    match volumes_request_error(material.entries, options, extras) {
        Some(error) => r == Err::<Seq<Seq<u8>>, Error>(error),
        None => {
            ||| r matches Err(error) && is_settings_error(
                sizes,
                options,
                resources.memory_limit,
                error,
            )
            ||| exists|plan: EnginePlan<'_>| #[trigger]
                is_engine_plan(sizes, options, extras, resources.memory_limit, true, plan)
                    && is_planned_set(
                    codec,
                    sealer,
                    seal,
                    plan,
                    extras,
                    material,
                    max_payload_per_volume,
                    resources,
                    r,
                )
        },
    }
}

/// Writes a volume set of some members, encrypted with what was drawn for them.
///
/// `sources` are the members as they were read for compression, and `readings` as
/// they are read once more: a stored member that has changed in between is not
/// written.
pub fn assemble_volumes_by<
    X: Fn(&[u8], &[u8]) -> bool,
    B: Fn(&BlockJob) -> Result<Vec<Vec<u8>>>,
    A: Fn(&[u8], usize) -> Option<u64>,
    S: Fn(&[u8], EncodeOptions, usize) -> Result<Turn<(Vec<FilterSpec>, Vec<u8>)>>,
    E: Fn(&[u8], Vec<FilterSpec>, EncodeOptions, usize) -> Result<Turn<Vec<u8>>>,
    H: Fn(&[u8]) -> [u8; 32],
    D: Fn(&[u8], [u8; 16], u32, [u8; 32]) -> Result<PayloadKeys>,
    C: Fn(&[u8], [u8; 16], [u8; 16], Vec<u8>) -> Result<Vec<u8>>,
    Z: Fn(Vec<u8>) -> Result<Vec<u8>>,
    P: WriteProgress,
>(
    entries: &[ArchiveEntry],
    sources: &[MemberSource],
    readings: Vec<SecondReading>,
    options: WriterOptions,
    extras: ArchiveExtras<'_>,
    max_payload_per_volume: u64,
    keys: Option<HeaderKeys>,
    draws: &WorkDraws,
    threads: usize,
    codec: &MemberCodec<X, B, A, S, E>,
    sealer: &Sealer<H, D, C>,
    seal: &Z,
    resources: &mut WriterResources,
    progress: Option<&P>,
) -> (r: Result<Vec<Vec<u8>>>)
    requires
        is_member_codec(*codec),
        is_sealer(*sealer),
        is_sealing(*seal, options.features.header_encryption),
        sources@.len() == entries@.len(),
        readings@.len() == entries@.len(),
        keys is Some <==> options.features.header_encryption,
        draws.suit(entries@),
        volumes_request_error(entries@, options, extras) is None ==> takes_recovery(progress)
            && takes_members_done(progress, entries@, sources@),
        forall|out: Seq<Seq<u8>>| #[trigger]
            is_assembled_set(
                *codec,
                *sealer,
                *seal,
                options,
                extras,
                (Material { entries: entries@, sources: sources@, readings: readings@, keys, draws: *draws }),
                max_payload_per_volume,
                old(resources)@,
                Ok::<Seq<Seq<u8>>, Error>(out),
            ) ==> may_tell(progress, emission_event(false)),
    ensures
        is_stopped_by(progress, r) || is_assembled_set(
            *codec,
            *sealer,
            *seal,
            options,
            extras,
            (Material { entries: entries@, sources: sources@, readings: readings@, keys, draws: *draws }),
            max_payload_per_volume,
            old(resources)@,
            outputs_result(r),
        ),
        final(resources)@ == old(resources)@,
        volumes_request_error(entries@, options, extras) matches Some(error) ==> r == Err::<
            Vec<Vec<u8>>,
            Error,
        >(error),
        has_stopped(progress) ==> is_stop_or_refusal(
            volumes_request_error(entries@, options, extras),
            entries@,
            announced(sources@),
            options,
            old(resources)@.memory_limit,
            r,
        ) || (max_payload_per_volume == 0 && r == Err::<Vec<Vec<u8>>, Error>(
            Error::InvalidArgument("RAR 5 volume payload size is zero"),
        )),
        r is Ok ==> hears_of_write(progress, entries@, sources@),
{
    let ghost given = readings@;
    let ghost start = resources@;
    let memory_limit: u64 = resources.memory_limit();
    let sizes = announced_sizes(sources);
    let plan = match plan_volumes(entries, &sizes, options, extras, memory_limit) {
        Ok(plan) => plan,
        Err(error) => {
            return Err(error);
        },
    };
    assert(is_engine_plan(announced(sources@), options, extras, memory_limit, true, plan));
    let r = write_planned_set(
        entries,
        sources,
        readings,
        options,
        &extras,
        max_payload_per_volume,
        keys,
        draws,
        threads,
        &plan,
        resources,
        codec,
        sealer,
        seal,
        progress,
    );
    let ghost made = outputs_result(r);
    if r.is_ok() {
        assert(is_assembled_set(
            *codec,
            *sealer,
            *seal,
            options,
            extras,
            (Material { entries: entries@, sources: sources@, readings: given, keys, draws: *draws }),
            max_payload_per_volume,
            start,
            Ok::<Seq<Seq<u8>>, Error>(made->Ok_0),
        ));
        match ask(progress) {
            Ok(()) => {},
            Err(error) => {
                return Err(error);
            },
        }
        tell(progress, report_emission(false));
    }
    r
}

/// Writes a volume set of some members. What has a password is encrypted under a
/// fresh salt and IV.
///
/// `sources` are the members as they were read for compression, and `readings` as
/// they are read once more: a stored member that has changed in between is not
/// written.
pub fn assemble_volumes<
    X: Fn(&[u8], &[u8]) -> bool,
    B: Fn(&BlockJob) -> Result<Vec<Vec<u8>>>,
    A: Fn(&[u8], usize) -> Option<u64>,
    S: Fn(&[u8], EncodeOptions, usize) -> Result<Turn<(Vec<FilterSpec>, Vec<u8>)>>,
    E: Fn(&[u8], Vec<FilterSpec>, EncodeOptions, usize) -> Result<Turn<Vec<u8>>>,
    H: Fn(&[u8]) -> [u8; 32],
    D: Fn(&[u8], [u8; 16], u32, [u8; 32]) -> Result<PayloadKeys>,
    C: Fn(&[u8], [u8; 16], [u8; 16], Vec<u8>) -> Result<Vec<u8>>,
    Z: Fn(Vec<u8>) -> Result<Vec<u8>>,
    P: WriteProgress,
>(
    entries: &[ArchiveEntry],
    sources: &[MemberSource],
    readings: Vec<SecondReading>,
    options: WriterOptions,
    extras: ArchiveExtras<'_>,
    max_payload_per_volume: u64,
    keys: Option<HeaderKeys>,
    threads: usize,
    codec: &MemberCodec<X, B, A, S, E>,
    sealer: &Sealer<H, D, C>,
    seal: &Z,
    resources: &mut WriterResources,
    progress: Option<&P>,
) -> (r: Result<Vec<Vec<u8>>>)
    requires
        is_member_codec(*codec),
        is_sealer(*sealer),
        is_sealing(*seal, options.features.header_encryption),
        sources@.len() == entries@.len(),
        readings@.len() == entries@.len(),
        keys is Some <==> options.features.header_encryption,
        volumes_request_error(entries@, options, extras) is None ==> takes_recovery(progress)
            && takes_members_done(progress, entries@, sources@),
        forall|draws: WorkDraws, out: Seq<Seq<u8>>| #[trigger]
            is_assembled_set(
                *codec,
                *sealer,
                *seal,
                options,
                extras,
                (Material { entries: entries@, sources: sources@, readings: readings@, keys, draws }),
                max_payload_per_volume,
                old(resources)@,
                Ok::<Seq<Seq<u8>>, Error>(out),
            ) ==> may_tell(progress, emission_event(false)),
    ensures
        is_stopped_by(progress, r) || (exists|draws: WorkDraws| #[trigger]
            is_assembled_set(
                *codec,
                *sealer,
                *seal,
                options,
                extras,
                (Material { entries: entries@, sources: sources@, readings: readings@, keys, draws }),
                max_payload_per_volume,
                old(resources)@,
                outputs_result(r),
            )),
        final(resources)@ == old(resources)@,
        volumes_request_error(entries@, options, extras) matches Some(error) ==> r == Err::<
            Vec<Vec<u8>>,
            Error,
        >(error),
        has_stopped(progress) ==> is_stop_or_refusal(
            volumes_request_error(entries@, options, extras),
            entries@,
            announced(sources@),
            options,
            old(resources)@.memory_limit,
            r,
        ) || (max_payload_per_volume == 0 && r == Err::<Vec<Vec<u8>>, Error>(
            Error::InvalidArgument("RAR 5 volume payload size is zero"),
        )),
        r is Ok ==> hears_of_write(progress, entries@, sources@),
{
    let draws = WorkDraws::new(entries, &extras);
    assemble_volumes_by(
        entries,
        sources,
        readings,
        options,
        extras,
        max_payload_per_volume,
        keys,
        &draws,
        threads,
        codec,
        sealer,
        seal,
        resources,
        progress,
    )
}

} // verus!
