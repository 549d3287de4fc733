//! Writing archives and volume sets on request.

use vstd::prelude::*;

use crate::bytes::push_all;
use crate::error::{Error, Result};
use crate::filter::FilterPolicy;
use crate::rar50::archive::write_archive;
#[allow(unused_imports)]
use crate::rar50::archive::archive_outcome;
#[allow(unused_imports)]
use crate::rar50::container::is_sealing;
use crate::rar50::encryption::EncryptedStoredPayload;
use crate::rar50::engine::{ArchiveCommentPlan, EnginePlan, HeaderKeys, MemberWork};
#[allow(unused_imports)]
use crate::rar50::engine::{are_sealed_as_asked, header_password_error, is_complete};
#[allow(unused_imports)]
use crate::rar50::entry::entries_error;
use crate::rar50::entry::{ArchiveEntry, ArchiveExtras};
use crate::rar50::metadata::ArchiveMetadataEntry;
#[allow(unused_imports)]
use crate::rar50::metadata::bytes_result;
use crate::rar50::options::WriterOptions;
use crate::rar50::requests::{
    dictionary_reach, encryption_of, streaming_compress_plan, validate_plan,
    validate_recovery_percent,
};
#[allow(unused_imports)]
use crate::rar50::requests::{
    all_encrypted, any_encrypted, is_compress_error, is_compress_plan, is_reach, options_error,
    percent_error,
};
use crate::rar50::volume_set::write_volumes;
#[allow(unused_imports)]
use crate::rar50::volume_set::{is_hashed, outputs_result, set_outcome, work_lens};
use crate::streaming::resources::WriterResources;
#[allow(unused_imports)]
use crate::streaming::resources::ResourcesView;
#[allow(unused_imports)]
use crate::write_plan::is_supported;
use crate::write_plan::{validate_option, PlanShape, WriterOption};
use crate::write_progress::{ask, report_emission, tell, Unobserved, WriteProgress};
#[allow(unused_imports)]
use crate::write_progress::{
    emission_event, has_stopped, is_stopped_by, is_told, may_stop, may_tell,
};
#[allow(unused_imports)]
use crate::recovery::rar5::record::takes_recovery;

verus! {

/// The shape of an archive or a volume set.
pub open spec fn shape_of(extras: ArchiveExtras<'_>, volumes: bool) -> PlanShape {
    PlanShape { compressed: true, volumes, filtered: extras.filter_policy != FilterPolicy::Off }
}

pub open spec fn mixed_error(options: WriterOptions) -> Error {
    Error::UnsupportedFeature {
        version: options.target,
        feature: "RAR 5 writer mixing encrypted and plain members",
    }
}

pub open spec fn option_error(
    options: WriterOptions,
    option: WriterOption,
    wanted: bool,
    shape: PlanShape,
) -> Option<Error> {
    if wanted && !is_supported(options.target, option, shape) {
        Some(
            Error::UnsupportedWriterOption { target: options.target, option, because: None },
        )
    } else {
        None
    }
}

pub open spec fn first_error(a: Option<Error>, b: Option<Error>) -> Option<Error> {
    match a {
        Some(error) => Some(error),
        None => b,
    }
}

/// The percentage, and the password that header encryption needs.
pub open spec fn closing_error(
    entries: Seq<ArchiveEntry>,
    options: WriterOptions,
    extras: ArchiveExtras<'_>,
) -> Option<Error> {
    first_error(
        percent_error(extras.recovery_percent),
        if options.features.header_encryption && !any_encrypted(entries) {
            Some(Error::NeedPassword)
        } else {
            None
        },
    )
}

pub open spec fn opening_error(
    entries: Seq<ArchiveEntry>,
    options: WriterOptions,
    extras: ArchiveExtras<'_>,
    volumes: bool,
) -> Option<Error> {
    if any_encrypted(entries) && !all_encrypted(entries) {
        Some(mixed_error(options))
    } else {
        options_error(options, shape_of(extras, volumes))
    }
}

/// Why a request for an archive is refused.
pub open spec fn archive_request_error(
    entries: Seq<ArchiveEntry>,
    options: WriterOptions,
    extras: ArchiveExtras<'_>,
) -> Option<Error> {
    first_error(
        opening_error(entries, options, extras, false),
        closing_error(entries, options, extras),
    )
}

pub open spec fn any_services(entries: Seq<ArchiveEntry>) -> bool {
    exists|i: int| 0 <= i < entries.len() && (#[trigger] entries[i]).services@.len() > 0
}

/// Why a request for a volume set is refused. Options are refused one at a
/// time, so that a refusal names the one that was asked for, and a set without
/// members, which would have no volume at all, is refused too.
pub open spec fn volumes_request_error(
    entries: Seq<ArchiveEntry>,
    options: WriterOptions,
    extras: ArchiveExtras<'_>,
) -> Option<Error> {
    let shape = shape_of(extras, true);
    first_error(
        opening_error(entries, options, extras, true),
        first_error(
            option_error(options, WriterOption::ArchiveComment, extras.comment is Some, shape),
            first_error(
                option_error(
                    options,
                    WriterOption::ArchiveMetadata,
                    extras.metadata is Some,
                    shape,
                ),
                first_error(
                    option_error(
                        options,
                        WriterOption::FileComment,
                        any_services(entries),
                        shape,
                    ),
                    first_error(
                        if entries.len() == 0 {
                            Some(
                                Error::InvalidHeader(
                                    "RAR 5 volume writer needs at least one member",
                                ),
                            )
                        } else {
                            None
                        },
                        closing_error(entries, options, extras),
                    ),
                ),
            ),
        ),
    )
}

/// The comment of an archive.
pub open spec fn is_comment_plan(
    extras: ArchiveExtras<'_>,
    comment: Option<ArchiveCommentPlan<'_>>,
) -> bool {
    match (extras.comment, extras.comment_password) {
        (Some(data), Some(password)) => comment matches Some(
            ArchiveCommentPlan::Encrypted { data: planned, password: key },
        ) && planned@ == data@ && key@ == password@,
        (Some(data), None) => comment matches Some(ArchiveCommentPlan::Plain(planned)) && planned@
            == data@,
        (None, _) => comment is None,
    }
}

/// The plan of an archive or a volume set. A volume set has no comment,
/// metadata or quick-open index.
pub open spec fn is_engine_plan(
    sizes: Seq<Option<u64>>,
    options: WriterOptions,
    extras: ArchiveExtras<'_>,
    memory_limit: u64,
    volumes: bool,
    plan: EnginePlan<'_>,
) -> bool {
    &&& exists|reach: u64| #[trigger]
        is_reach(sizes, options.features.solid, reach) && is_compress_plan(
            options,
            extras.filter_policy,
            reach,
            memory_limit,
            plan.compress,
        )
    &&& plan.recovery_percent == extras.recovery_percent
    &&& plan.header_encrypted == options.features.header_encryption
    &&& plan.header_password is None
    &&& plan.metadata_record is None
    &&& !plan.locked
    &&& if volumes {
        plan.archive_comment is None && plan.archive_metadata is None && !plan.quick_open
    } else {
        is_comment_plan(extras, plan.archive_comment) && plan.archive_metadata == extras.metadata
            && plan.quick_open == options.features.quick_open
    }
}

/// Why no settings can be found for a request that is let through.
pub open spec fn is_settings_error(
    sizes: Seq<Option<u64>>,
    options: WriterOptions,
    memory_limit: u64,
    error: Error,
) -> bool {
    exists|reach: u64| #[trigger]
        is_reach(sizes, options.features.solid, reach) && is_compress_error(
            options,
            reach,
            memory_limit,
            error,
        )
}

fn check_opening(
    entries: &[ArchiveEntry],
    options: WriterOptions,
    shape: PlanShape,
) -> (r: Result<bool>)
    ensures
        match r {
            Ok(encrypted) => !(any_encrypted(entries@) && !all_encrypted(entries@))
                && options_error(options, shape) is None && encrypted == any_encrypted(entries@),
            Err(error) => Some(error) == (if any_encrypted(entries@) && !all_encrypted(entries@) {
                Some(mixed_error(options))
            } else {
                options_error(options, shape)
            }),
        },
{
    let (encrypted, all): (bool, bool) = encryption_of(entries);
    if encrypted && !all {
        return Err(
            Error::UnsupportedFeature {
                version: options.target,
                feature: "RAR 5 writer mixing encrypted and plain members",
            },
        );
    }
    match validate_plan(options, shape) {
        Ok(()) => Ok(encrypted),
        Err(error) => Err(error),
    }
}

fn check_closing(
    encrypted: bool,
    options: WriterOptions,
    extras: &ArchiveExtras<'_>,
) -> (r: Result<()>)
    ensures
        forall|entries: Seq<ArchiveEntry>| #[trigger]
            any_encrypted(entries) == encrypted ==> r == (match closing_error(
                entries,
                options,
                *extras,
            ) {
                Some(error) => Err::<(), Error>(error),
                None => Ok(()),
            }),
{
    if let Some(percent) = extras.recovery_percent {
        match validate_recovery_percent(percent) {
            Ok(()) => {},
            Err(error) => {
                return Err(error);
            },
        }
    }
    if options.features.header_encryption && !encrypted {
        return Err(Error::NeedPassword);
    }
    Ok(())
}

/// Plans an archive. `sizes` holds what the members' sources say of their
/// lengths.
pub fn plan_archive<'a>(
    entries: &[ArchiveEntry],
    sizes: &[Option<u64>],
    options: WriterOptions,
    extras: ArchiveExtras<'a>,
    memory_limit: u64,
) -> (r: Result<EnginePlan<'a>>)
    ensures
        match archive_request_error(entries@, options, extras) {
            Some(error) => r == Err::<EnginePlan<'a>, Error>(error),
            None => match r {
                Ok(plan) => is_engine_plan(sizes@, options, extras, memory_limit, false, plan),
                Err(error) => is_settings_error(sizes@, options, memory_limit, error),
            },
        },
{
    let shape = PlanShape::new().compressed(true).filtered(
        !matches!(extras.filter_policy, FilterPolicy::Off),
    );
    assert(shape == shape_of(extras, false));
    let encrypted: bool = match check_opening(entries, options, shape) {
        Ok(encrypted) => encrypted,
        Err(error) => {
            return Err(error);
        },
    };
    match check_closing(encrypted, options, &extras) {
        Ok(()) => {},
        Err(error) => {
            return Err(error);
        },
    }
    let reach: u64 = dictionary_reach(sizes, options.features.solid);
    let compress = match streaming_compress_plan(
        options,
        extras.filter_policy,
        reach,
        memory_limit,
    ) {
        Ok(compress) => compress,
        Err(error) => {
            return Err(error);
        },
    };
    let archive_comment: Option<ArchiveCommentPlan<'a>> = match (
        extras.comment,
        extras.comment_password,
    ) {
        (Some(data), Some(password)) => Some(ArchiveCommentPlan::Encrypted { data, password }),
        (Some(data), None) => Some(ArchiveCommentPlan::Plain(data)),
        (None, _) => None,
    };
    Ok(
        EnginePlan {
            compress,
            recovery_percent: extras.recovery_percent,
            header_encrypted: options.features.header_encryption,
            header_password: None,
            archive_comment,
            archive_metadata: extras.metadata,
            metadata_record: None,
            locked: false,
            quick_open: options.features.quick_open,
        },
    )
}

fn has_services(entries: &[ArchiveEntry]) -> (answer: bool)
    ensures
        answer == any_services(entries@),
{
    let mut at: usize = 0;
    while at < entries.len()
        invariant
            at <= entries@.len(),
            forall|i: int| 0 <= i < at ==> (#[trigger] entries@[i]).services@.len() == 0,
        decreases entries@.len() - at,
    {
        if entries[at].services.len() > 0 {
            assert(entries@[at as int].services@.len() > 0);
            return true;
        }
        at = at + 1;
    }
    false
}

/// Plans a volume set.
pub fn plan_volumes<'a>(
    entries: &[ArchiveEntry],
    sizes: &[Option<u64>],
    options: WriterOptions,
    extras: ArchiveExtras<'a>,
    memory_limit: u64,
) -> (r: Result<EnginePlan<'a>>)
    ensures
        match volumes_request_error(entries@, options, extras) {
            Some(error) => r == Err::<EnginePlan<'a>, Error>(error),
            None => match r {
                Ok(plan) => is_engine_plan(sizes@, options, extras, memory_limit, true, plan),
                Err(error) => is_settings_error(sizes@, options, memory_limit, error),
            },
        },
{
    let shape = PlanShape::new().compressed(true).volumes(true).filtered(
        !matches!(extras.filter_policy, FilterPolicy::Off),
    );
    assert(shape == shape_of(extras, true));
    let encrypted: bool = match check_opening(entries, options, shape) {
        Ok(encrypted) => encrypted,
        Err(error) => {
            return Err(error);
        },
    };
    if extras.comment.is_some() {
        match validate_option(options.target, WriterOption::ArchiveComment, shape) {
            Ok(()) => {},
            Err(error) => {
                return Err(error);
            },
        }
    }
    if extras.metadata.is_some() {
        match validate_option(options.target, WriterOption::ArchiveMetadata, shape) {
            Ok(()) => {},
            Err(error) => {
                return Err(error);
            },
        }
    }
    if has_services(entries) {
        match validate_option(options.target, WriterOption::FileComment, shape) {
            Ok(()) => {},
            Err(error) => {
                return Err(error);
            },
        }
    }
    if entries.len() == 0 {
        return Err(Error::InvalidHeader("RAR 5 volume writer needs at least one member"));
    }
    match check_closing(encrypted, options, &extras) {
        Ok(()) => {},
        Err(error) => {
            return Err(error);
        },
    }
    let reach: u64 = dictionary_reach(sizes, options.features.solid);
    let compress = match streaming_compress_plan(
        options,
        extras.filter_policy,
        reach,
        memory_limit,
    ) {
        Ok(compress) => compress,
        Err(error) => {
            return Err(error);
        },
    };
    Ok(
        EnginePlan {
            compress,
            recovery_percent: extras.recovery_percent,
            header_encrypted: options.features.header_encryption,
            header_password: None,
            archive_comment: None,
            archive_metadata: None,
            metadata_record: None,
            locked: false,
            quick_open: false,
        },
    )
}

/// What a codec and a cipher have made of the members of an archive.
#[derive(Debug)]
pub struct PreparedWork {
    pub works: Vec<MemberWork>,
    pub comment_seal: Option<EncryptedStoredPayload>,
    /// Salt and check value, where the headers are encrypted.
    pub keys: Option<HeaderKeys>,
}

impl PreparedWork {
    /// Whether the work is what a request for an archive asks for: complete, and
    /// encrypted where a password says so and only there.
    pub open spec fn suits(
        self,
        entries: Seq<ArchiveEntry>,
        options: WriterOptions,
        extras: ArchiveExtras<'_>,
    ) -> bool {
        &&& is_complete(entries, self.works@)
        &&& self.comment_seal is Some <==> (extras.comment is Some && extras.comment_password is Some)
        &&& self.keys is Some <==> options.features.header_encryption
    }
}

/// What comes of a request for an archive.
pub open spec fn archive_request_outcome<S: Fn(Vec<u8>) -> Result<Vec<u8>>>(
    seal: S,
    entries: Seq<ArchiveEntry>,
    sizes: Seq<Option<u64>>,
    options: WriterOptions,
    extras: ArchiveExtras<'_>,
    work: PreparedWork,
    resources: ResourcesView,
    r: std::result::Result<Seq<u8>, Error>,
) -> bool {
    match archive_request_error(entries, options, extras) {
        Some(error) => r == Err::<Seq<u8>, Error>(error),
        None => {
            ||| exists|plan: EnginePlan<'_>| #[trigger]
                is_engine_plan(sizes, options, extras, resources.memory_limit, false, plan)
                    && archive_outcome(
                    seal,
                    entries,
                    work.works@,
                    plan,
                    work.comment_seal,
                    work.keys,
                    resources,
                    r,
                )
            ||| (r matches Err(error) && is_settings_error(
                sizes,
                options,
                resources.memory_limit,
                error,
            ))
        },
    }
}

/// Whether this is what a request comes to whose receiver has stopped it: that, or a
/// refusal of the request, its settings or its entries.
pub open spec fn is_stop_or_refusal<T>(
    refusal: Option<Error>,
    entries: Seq<ArchiveEntry>,
    sizes: Seq<Option<u64>>,
    options: WriterOptions,
    memory_limit: u64,
    r: Result<T>,
) -> bool {
    r matches Err(error) && {
        ||| error == Error::Cancelled
        ||| refusal == Some(error)
        ||| is_settings_error(sizes, options, memory_limit, error)
        ||| is_entry_refusal(entries, options, error)
    }
}

/// Writes an archive, and tells `progress` when emission starts and how far the
/// recovery record has come.
fn write_streaming_archive_reporting<S: Fn(Vec<u8>) -> Result<Vec<u8>>, P: WriteProgress>(
    entries: &[ArchiveEntry],
    sizes: &[Option<u64>],
    options: WriterOptions,
    extras: ArchiveExtras<'_>,
    work: PreparedWork,
    resources: &mut WriterResources,
    seal: &S,
    progress: Option<&P>,
) -> (r: Result<Vec<u8>>)
    requires
        is_sealing(*seal, options.features.header_encryption),
        work.suits(entries@, options, extras),
        archive_request_error(entries@, options, extras) is None ==> takes_recovery(progress),
    ensures
        is_stopped_by(progress, r) || archive_request_outcome(
            *seal,
            entries@,
            sizes@,
            options,
            extras,
            work,
            old(resources)@,
            bytes_result(r),
        ),
        archive_request_error(entries@, options, extras) matches Some(error) ==> r == Err::<
            Vec<u8>,
            Error,
        >(error),
        has_stopped(progress) ==> is_stop_or_refusal(
            archive_request_error(entries@, options, extras),
            entries@,
            sizes@,
            options,
            old(resources)@.memory_limit,
            r,
        ),
        r is Ok ==> is_told(progress, emission_event(true)),
        final(resources)@ == old(resources)@,
{
    let memory_limit: u64 = resources.memory_limit();
    let plan = match plan_archive(entries, sizes, options, extras, memory_limit) {
        Ok(plan) => plan,
        Err(error) => {
            return Err(error);
        },
    };
    assert(is_engine_plan(sizes@, options, extras, memory_limit, false, plan));
    write_archive(
        entries,
        work.works,
        &plan,
        work.comment_seal,
        work.keys,
        resources,
        seal,
        progress,
    )
}

/// Writes an archive: solid or not, with member and header encryption, and with
/// a recovery record, in any combination.
pub fn write_streaming_archive_to<S: Fn(Vec<u8>) -> Result<Vec<u8>>>(
    entries: &[ArchiveEntry],
    sizes: &[Option<u64>],
    options: WriterOptions,
    extras: ArchiveExtras<'_>,
    work: PreparedWork,
    resources: &mut WriterResources,
    seal: &S,
) -> (r: Result<Vec<u8>>)
    requires
        is_sealing(*seal, options.features.header_encryption),
        work.suits(entries@, options, extras),
    ensures
        archive_request_outcome(
            *seal,
            entries@,
            sizes@,
            options,
            extras,
            work,
            old(resources)@,
            bytes_result(r),
        ),
        final(resources)@ == old(resources)@,
{
    write_streaming_archive_reporting(
        entries,
        sizes,
        options,
        extras,
        work,
        resources,
        seal,
        None::<&Unobserved>,
    )
}

/// What comes of a request for a volume set.
pub open spec fn volumes_request_outcome<S: Fn(Vec<u8>) -> Result<Vec<u8>>>(
    seal: S,
    entries: Seq<ArchiveEntry>,
    sizes: Seq<Option<u64>>,
    options: WriterOptions,
    extras: ArchiveExtras<'_>,
    max_payload_per_volume: u64,
    work: PreparedWork,
    hashes: Seq<Vec<[u8; 32]>>,
    resources: ResourcesView,
    r: std::result::Result<Seq<Seq<u8>>, Error>,
) -> bool {
    match volumes_request_error(entries, options, extras) {
        Some(error) => r == Err::<Seq<Seq<u8>>, Error>(error),
        None => {
            ||| exists|plan: EnginePlan<'_>| #[trigger]
                is_engine_plan(sizes, options, extras, resources.memory_limit, true, plan)
                    && set_outcome(
                    seal,
                    entries,
                    work.works@,
                    hashes,
                    plan,
                    max_payload_per_volume,
                    work.keys,
                    resources,
                    r,
                )
            ||| (r matches Err(error) && is_settings_error(
                sizes,
                options,
                resources.memory_limit,
                error,
            ))
        },
    }
}

/// Writes a volume set, and tells `progress` when emission starts and how far the
/// recovery records have come.
fn write_streaming_volumes_reporting<S: Fn(Vec<u8>) -> Result<Vec<u8>>, P: WriteProgress>(
    entries: &[ArchiveEntry],
    sizes: &[Option<u64>],
    options: WriterOptions,
    extras: ArchiveExtras<'_>,
    max_payload_per_volume: u64,
    work: PreparedWork,
    hashes: &Vec<Vec<[u8; 32]>>,
    resources: &mut WriterResources,
    seal: &S,
    progress: Option<&P>,
) -> (r: Result<Vec<Vec<u8>>>)
    requires
        is_sealing(*seal, options.features.header_encryption),
        are_sealed_as_asked(entries@, work.works@),
        work.keys is Some <==> options.features.header_encryption,
        max_payload_per_volume > 0 ==> is_hashed(
            work_lens(work.works@),
            max_payload_per_volume as nat,
            hashes@,
        ),
        volumes_request_error(entries@, options, extras) is None ==> takes_recovery(progress),
    ensures
        is_stopped_by(progress, r) || volumes_request_outcome(
            *seal,
            entries@,
            sizes@,
            options,
            extras,
            max_payload_per_volume,
            work,
            hashes@,
            old(resources)@,
            outputs_result(r),
        ),
        volumes_request_error(entries@, options, extras) matches Some(error) ==> r == Err::<
            Vec<Vec<u8>>,
            Error,
        >(error),
        has_stopped(progress) ==> is_stop_or_refusal(
            volumes_request_error(entries@, options, extras),
            entries@,
            sizes@,
            options,
            old(resources)@.memory_limit,
            r,
        ) || (max_payload_per_volume == 0 && r == Err::<Vec<Vec<u8>>, Error>(
            Error::InvalidArgument("RAR 5 volume payload size is zero"),
        )),
        r is Ok ==> is_told(progress, emission_event(true)),
        final(resources)@ == old(resources)@,
{
    let memory_limit: u64 = resources.memory_limit();
    let plan = match plan_volumes(entries, sizes, options, extras, memory_limit) {
        Ok(plan) => plan,
        Err(error) => {
            return Err(error);
        },
    };
    assert(is_engine_plan(sizes@, options, extras, memory_limit, true, plan));
    write_volumes(
        entries,
        work.works,
        hashes,
        &plan,
        max_payload_per_volume,
        work.keys,
        resources,
        seal,
        progress,
    )
}

/// Writes a volume set. `hashes` holds the hashes of the members' fragments, but
/// for the last of each.
pub fn write_streaming_volumes_to<S: Fn(Vec<u8>) -> Result<Vec<u8>>>(
    entries: &[ArchiveEntry],
    sizes: &[Option<u64>],
    options: WriterOptions,
    extras: ArchiveExtras<'_>,
    max_payload_per_volume: u64,
    work: PreparedWork,
    hashes: &Vec<Vec<[u8; 32]>>,
    resources: &mut WriterResources,
    seal: &S,
) -> (r: Result<Vec<Vec<u8>>>)
    requires
        is_sealing(*seal, options.features.header_encryption),
        are_sealed_as_asked(entries@, work.works@),
        work.keys is Some <==> options.features.header_encryption,
        max_payload_per_volume > 0 ==> is_hashed(
            work_lens(work.works@),
            max_payload_per_volume as nat,
            hashes@,
        ),
    ensures
        volumes_request_outcome(
            *seal,
            entries@,
            sizes@,
            options,
            extras,
            max_payload_per_volume,
            work,
            hashes@,
            old(resources)@,
            outputs_result(r),
        ),
        final(resources)@ == old(resources)@,
{
    write_streaming_volumes_reporting(
        entries,
        sizes,
        options,
        extras,
        max_payload_per_volume,
        work,
        hashes,
        resources,
        seal,
        None::<&Unobserved>,
    )
}

/// As [`write_streaming_archive_to`], reporting progress and stopping when the
/// caller asks for it.
pub fn write_streaming_archive_with_progress<S: Fn(Vec<u8>) -> Result<Vec<u8>>, P: WriteProgress>(
    entries: &[ArchiveEntry],
    sizes: &[Option<u64>],
    options: WriterOptions,
    extras: ArchiveExtras<'_>,
    work: PreparedWork,
    resources: &mut WriterResources,
    seal: &S,
    progress: Option<&P>,
) -> (r: Result<Vec<u8>>)
    requires
        is_sealing(*seal, options.features.header_encryption),
        work.suits(entries@, options, extras),
        archive_request_error(entries@, options, extras) is None ==> takes_recovery(progress),
        forall|out: Seq<u8>| #[trigger]
            archive_request_outcome(
                *seal,
                entries@,
                sizes@,
                options,
                extras,
                work,
                old(resources)@,
                Ok::<Seq<u8>, Error>(out),
            ) ==> may_tell(progress, emission_event(false)),
    ensures
        is_stopped_by(progress, r) || archive_request_outcome(
            *seal,
            entries@,
            sizes@,
            options,
            extras,
            work,
            old(resources)@,
            bytes_result(r),
        ),
        archive_request_error(entries@, options, extras) matches Some(error) ==> r == Err::<
            Vec<u8>,
            Error,
        >(error),
        has_stopped(progress) ==> is_stop_or_refusal(
            archive_request_error(entries@, options, extras),
            entries@,
            sizes@,
            options,
            old(resources)@.memory_limit,
            r,
        ),
        r is Ok ==> is_told(progress, emission_event(true)) && is_told(
            progress,
            emission_event(false),
        ),
        final(resources)@ == old(resources)@,
{
    let r = write_streaming_archive_reporting(
        entries,
        sizes,
        options,
        extras,
        work,
        resources,
        seal,
        progress,
    );
    if r.is_ok() {
        match ask(progress) {
            Ok(()) => {},
            Err(error) => {
                return Err(error);
            },
        }
        tell(progress, report_emission(false));
    }
    r
}

/// As [`write_streaming_volumes_to`], reporting progress and stopping when the
/// caller asks for it.
pub fn write_streaming_volumes_with_progress<S: Fn(Vec<u8>) -> Result<Vec<u8>>, P: WriteProgress>(
    entries: &[ArchiveEntry],
    sizes: &[Option<u64>],
    options: WriterOptions,
    extras: ArchiveExtras<'_>,
    max_payload_per_volume: u64,
    work: PreparedWork,
    hashes: &Vec<Vec<[u8; 32]>>,
    resources: &mut WriterResources,
    seal: &S,
    progress: Option<&P>,
) -> (r: Result<Vec<Vec<u8>>>)
    requires
        is_sealing(*seal, options.features.header_encryption),
        are_sealed_as_asked(entries@, work.works@),
        work.keys is Some <==> options.features.header_encryption,
        max_payload_per_volume > 0 ==> is_hashed(
            work_lens(work.works@),
            max_payload_per_volume as nat,
            hashes@,
        ),
        volumes_request_error(entries@, options, extras) is None ==> takes_recovery(progress),
        forall|outputs: Seq<Seq<u8>>| #[trigger]
            volumes_request_outcome(
                *seal,
                entries@,
                sizes@,
                options,
                extras,
                max_payload_per_volume,
                work,
                hashes@,
                old(resources)@,
                Ok::<Seq<Seq<u8>>, Error>(outputs),
            ) ==> may_tell(progress, emission_event(false)),
    ensures
        is_stopped_by(progress, r) || volumes_request_outcome(
            *seal,
            entries@,
            sizes@,
            options,
            extras,
            max_payload_per_volume,
            work,
            hashes@,
            old(resources)@,
            outputs_result(r),
        ),
        volumes_request_error(entries@, options, extras) matches Some(error) ==> r == Err::<
            Vec<Vec<u8>>,
            Error,
        >(error),
        has_stopped(progress) ==> is_stop_or_refusal(
            volumes_request_error(entries@, options, extras),
            entries@,
            sizes@,
            options,
            old(resources)@.memory_limit,
            r,
        ) || (max_payload_per_volume == 0 && r == Err::<Vec<Vec<u8>>, Error>(
            Error::InvalidArgument("RAR 5 volume payload size is zero"),
        )),
        r is Ok ==> is_told(progress, emission_event(true)) && is_told(
            progress,
            emission_event(false),
        ),
        final(resources)@ == old(resources)@,
{
    let r = write_streaming_volumes_reporting(
        entries,
        sizes,
        options,
        extras,
        max_payload_per_volume,
        work,
        hashes,
        resources,
        seal,
        progress,
    );
    if r.is_ok() {
        match ask(progress) {
            Ok(()) => {},
            Err(error) => {
                return Err(error);
            },
        }
        tell(progress, report_emission(false));
    }
    r
}

/// Whether entries are refused with this error: one of them, or what they leave
/// the headers to be encrypted with.
pub open spec fn is_entry_refusal(
    entries: Seq<ArchiveEntry>,
    options: WriterOptions,
    error: Error,
) -> bool {
    ||| entries_error(entries) == Some(error)
    ||| header_password_error(options.features.header_encryption, None, entries) == Some(error)
}

/// Nothing is written once the signal of the policy is set: the request is
/// cancelled, unless it is refused for another reason.
pub proof fn law_stopped_archive_is_not_written<S: Fn(Vec<u8>) -> Result<Vec<u8>>>(
    seal: S,
    entries: Seq<ArchiveEntry>,
    sizes: Seq<Option<u64>>,
    options: WriterOptions,
    extras: ArchiveExtras<'_>,
    work: PreparedWork,
    resources: ResourcesView,
    r: std::result::Result<Seq<u8>, Error>,
)
    requires
        resources.is_stopped(),
        archive_request_outcome(seal, entries, sizes, options, extras, work, resources, r),
    ensures
        r matches Err(error) && {
            ||| error == Error::Cancelled
            ||| archive_request_error(entries, options, extras) == Some(error)
            ||| is_settings_error(sizes, options, resources.memory_limit, error)
            ||| is_entry_refusal(entries, options, error)
        },
{
}

/// As [`law_stopped_archive_is_not_written`], of a volume set.
pub proof fn law_stopped_set_is_not_written<S: Fn(Vec<u8>) -> Result<Vec<u8>>>(
    seal: S,
    entries: Seq<ArchiveEntry>,
    sizes: Seq<Option<u64>>,
    options: WriterOptions,
    extras: ArchiveExtras<'_>,
    max_payload_per_volume: u64,
    work: PreparedWork,
    hashes: Seq<Vec<[u8; 32]>>,
    resources: ResourcesView,
    r: std::result::Result<Seq<Seq<u8>>, Error>,
)
    requires
        resources.is_stopped(),
        volumes_request_outcome(
            seal,
            entries,
            sizes,
            options,
            extras,
            max_payload_per_volume,
            work,
            hashes,
            resources,
            r,
        ),
    ensures
        r matches Err(error) && {
            ||| error == Error::Cancelled
            ||| volumes_request_error(entries, options, extras) == Some(error)
            ||| is_settings_error(sizes, options, resources.memory_limit, error)
            ||| is_entry_refusal(entries, options, error)
            ||| max_payload_per_volume == 0
        },
{
}

/// Collects what an archive is written from.
#[derive(Debug, Clone)]
pub struct Rar50Writer<'a, P: WriteProgress = Unobserved> {
    pub options: WriterOptions,
    pub entries: Vec<ArchiveEntry>,
    pub archive_comment: Option<&'a [u8]>,
    pub archive_comment_password: Option<&'a [u8]>,
    pub archive_metadata: Option<ArchiveMetadataEntry<'a>>,
    pub filter_policy: FilterPolicy,
    pub recovery_percent: Option<u64>,
    pub progress: Option<&'a P>,
}

impl<'a> Rar50Writer<'a, Unobserved> {
    pub fn new(options: WriterOptions) -> (writer: Rar50Writer<'a, Unobserved>)
        ensures
            writer.options == options,
            writer.entries@ == Seq::<ArchiveEntry>::empty(),
            writer.archive_comment is None,
            writer.archive_comment_password is None,
            writer.archive_metadata is None,
            writer.filter_policy == FilterPolicy::Off,
            writer.recovery_percent is None,
            writer.progress is None,
    {
        Rar50Writer {
            options,
            entries: Vec::new(),
            archive_comment: None,
            archive_comment_password: None,
            archive_metadata: None,
            filter_policy: FilterPolicy::Off,
            recovery_percent: None,
            progress: None,
        }
    }
}

impl<'a, P: WriteProgress> Rar50Writer<'a, P> {
    pub fn entry(self, entry: ArchiveEntry) -> (writer: Rar50Writer<'a, P>)
        ensures
            writer.entries@ == self.entries@.push(entry),
            writer == (Rar50Writer { entries: writer.entries, ..self }),
    {
        let mut writer = self;
        writer.entries.push(entry);
        writer
    }

    pub fn entries(self, entries: Vec<ArchiveEntry>) -> (writer: Rar50Writer<'a, P>)
        ensures
            writer.entries@ == self.entries@ + entries@,
            writer == (Rar50Writer { entries: writer.entries, ..self }),
    {
        let mut writer = self;
        let mut more = entries;
        writer.entries.append(&mut more);
        writer
    }

    /// A comment in the clear, or none.
    pub fn archive_comment(self, comment: Option<&'a [u8]>) -> (writer: Rar50Writer<'a, P>)
        ensures
            writer == (Rar50Writer {
                archive_comment: comment,
                archive_comment_password: None,
                ..self
            }),
    {
        Rar50Writer { archive_comment: comment, archive_comment_password: None, ..self }
    }

    pub fn encrypted_archive_comment(
        self,
        comment: &'a [u8],
        password: &'a [u8],
    ) -> (writer: Rar50Writer<'a, P>)
        ensures
            writer == (Rar50Writer {
                archive_comment: Some(comment),
                archive_comment_password: Some(password),
                ..self
            }),
    {
        Rar50Writer {
            archive_comment: Some(comment),
            archive_comment_password: Some(password),
            ..self
        }
    }

    pub fn archive_metadata(
        self,
        metadata: Option<ArchiveMetadataEntry<'a>>,
    ) -> (writer: Rar50Writer<'a, P>)
        ensures
            writer == (Rar50Writer { archive_metadata: metadata, ..self }),
    {
        Rar50Writer { archive_metadata: metadata, ..self }
    }

    pub fn filter_policy(self, policy: FilterPolicy) -> (writer: Rar50Writer<'a, P>)
        ensures
            writer == (Rar50Writer { filter_policy: policy, ..self }),
    {
        Rar50Writer { filter_policy: policy, ..self }
    }

    pub fn recovery_percent(self, percent: Option<u64>) -> (writer: Rar50Writer<'a, P>)
        ensures
            writer == (Rar50Writer { recovery_percent: percent, ..self }),
    {
        Rar50Writer { recovery_percent: percent, ..self }
    }

    /// Tells `progress` how the write goes, and stops where it asks for that.
    pub fn progress<Q: WriteProgress>(self, progress: &'a Q) -> (writer: Rar50Writer<'a, Q>)
        ensures
            writer.options == self.options,
            writer.entries == self.entries,
            writer.extras_of() == self.extras_of(),
            writer.archive_comment_password == self.archive_comment_password,
            writer.progress == Some(progress),
    {
        Rar50Writer {
            options: self.options,
            entries: self.entries,
            archive_comment: self.archive_comment,
            archive_comment_password: self.archive_comment_password,
            archive_metadata: self.archive_metadata,
            filter_policy: self.filter_policy,
            recovery_percent: self.recovery_percent,
            progress: Some(progress),
        }
    }

    /// The archive-level options that the collected ones come to. A password
    /// without a comment comes to nothing.
    pub open spec fn extras_of(self) -> ArchiveExtras<'a> {
        ArchiveExtras {
            comment: self.archive_comment,
            comment_password: if self.archive_comment is Some {
                self.archive_comment_password
            } else {
                None
            },
            metadata: self.archive_metadata,
            filter_policy: self.filter_policy,
            recovery_percent: self.recovery_percent,
        }
    }

    pub fn extras(&self) -> (extras: ArchiveExtras<'a>)
        ensures
            extras == self.extras_of(),
    {
        let mut extras = ArchiveExtras::default().with_recovery_percent(
            self.recovery_percent,
        ).with_filter_policy(self.filter_policy);
        if let Some(comment) = self.archive_comment {
            extras = match self.archive_comment_password {
                Some(password) => extras.with_encrypted_comment(comment, password),
                None => extras.with_comment(comment),
            };
        }
        if let Some(metadata) = self.archive_metadata {
            extras = extras.with_metadata(metadata);
        }
        extras
    }

    /// What may come of the write.
    pub open spec fn outcome<S: Fn(Vec<u8>) -> Result<Vec<u8>>>(
        self,
        seal: S,
        sizes: Seq<Option<u64>>,
        work: PreparedWork,
        resources: ResourcesView,
        r: std::result::Result<Seq<u8>, Error>,
    ) -> bool {
        &&& {
            ||| may_stop(self.progress) && r == Err::<Seq<u8>, Error>(Error::Cancelled)
            ||| archive_request_outcome(
                seal,
                self.entries@,
                sizes,
                self.options,
                self.extras_of(),
                work,
                resources,
                r,
            )
        }
        &&& archive_request_error(self.entries@, self.options, self.extras_of()) matches Some(error)
            ==> r == Err::<Seq<u8>, Error>(error)
        &&& has_stopped(self.progress) ==> r is Err
        &&& r is Ok ==> is_told(self.progress, emission_event(true)) && is_told(
            self.progress,
            emission_event(false),
        )
    }

    /// Whether the receiver may be told how the write goes: of everything, if the
    /// request is accepted, and that emission is done where there is an archive.
    pub open spec fn may_report<S: Fn(Vec<u8>) -> Result<Vec<u8>>>(
        self,
        seal: S,
        sizes: Seq<Option<u64>>,
        work: PreparedWork,
        resources: ResourcesView,
    ) -> bool {
        &&& archive_request_error(self.entries@, self.options, self.extras_of()) is None
            ==> takes_recovery(self.progress)
        &&& forall|out: Seq<u8>| #[trigger]
            archive_request_outcome(
                seal,
                self.entries@,
                sizes,
                self.options,
                self.extras_of(),
                work,
                resources,
                Ok::<Seq<u8>, Error>(out),
            ) ==> may_tell(self.progress, emission_event(false))
    }

    /// Writes the archive.
    pub fn finish<S: Fn(Vec<u8>) -> Result<Vec<u8>>>(
        self,
        sizes: &[Option<u64>],
        work: PreparedWork,
        resources: &mut WriterResources,
        seal: &S,
    ) -> (r: Result<Vec<u8>>)
        requires
            is_sealing(*seal, self.options.features.header_encryption),
            work.suits(self.entries@, self.options, self.extras_of()),
            self.may_report(*seal, sizes@, work, old(resources)@),
        ensures
            self.outcome(*seal, sizes@, work, old(resources)@, bytes_result(r)),
            final(resources)@ == old(resources)@,
    {
        let extras = self.extras();
        write_streaming_archive_with_progress(
            &self.entries,
            sizes,
            self.options,
            extras,
            work,
            resources,
            seal,
            self.progress,
        )
    }

    /// Writes the archive behind what `output` holds. A failure leaves the
    /// output as it was.
    pub fn write_to<S: Fn(Vec<u8>) -> Result<Vec<u8>>>(
        self,
        output: &mut Vec<u8>,
        sizes: &[Option<u64>],
        work: PreparedWork,
        resources: &mut WriterResources,
        seal: &S,
    ) -> (r: Result<()>)
        requires
            is_sealing(*seal, self.options.features.header_encryption),
            work.suits(self.entries@, self.options, self.extras_of()),
            self.may_report(*seal, sizes@, work, old(resources)@),
        ensures
            match r {
                Ok(()) => old(output)@.len() <= final(output)@.len() && final(output)@.take(
                    old(output)@.len() as int,
                ) == old(output)@ && self.outcome(
                    *seal,
                    sizes@,
                    work,
                    old(resources)@,
                    Ok::<Seq<u8>, Error>(final(output)@.skip(old(output)@.len() as int)),
                ),
                Err(error) => final(output)@ == old(output)@ && self.outcome(
                    *seal,
                    sizes@,
                    work,
                    old(resources)@,
                    Err::<Seq<u8>, Error>(error),
                ),
            },
            final(resources)@ == old(resources)@,
    {
        match self.finish(sizes, work, resources, seal) {
            Ok(archive) => {
                let ghost before = output@;
                push_all(output, &archive);
                assert(output@.take(before.len() as int) =~= before);
                assert(output@.skip(before.len() as int) =~= archive@);
                Ok(())
            },
            Err(error) => Err(error),
        }
    }
}

} // verus!
