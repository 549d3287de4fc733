//! What a request for an archive comes to, from what was asked for to what a reader finds.

use vstd::prelude::*;

#[allow(unused_imports)]
use crate::error::{Error, Result};
#[allow(unused_imports)]
use crate::filter::FilterPolicy;
#[allow(unused_imports)]
use crate::rar50::archive::{archive_outcome, head_crypt_of};
#[allow(unused_imports)]
use crate::rar50::archive_walk::{
    comment_items, entry_items, is_listing, is_settled, is_whole, law_archives_are_listed,
    stored_data, Listed,
};
#[allow(unused_imports)]
use crate::rar50::compression_laws::law_levels_climb;
#[allow(unused_imports)]
use crate::rar50::container::{emission_by, is_clear};
#[allow(unused_imports)]
use crate::rar50::dictionary::{fits_first, is_legal_size};
#[allow(unused_imports)]
use crate::rar50::encryption::{is_sealed_under, padded, EncryptedStoredPayload};
#[allow(unused_imports)]
use crate::rar50::engine::EnginePlan;
#[allow(unused_imports)]
use crate::rar50::entry::{ArchiveEntry, ArchiveExtras};
#[allow(unused_imports)]
use crate::rar50::options::WriterOptions;
#[allow(unused_imports)]
use crate::rar50::plan::CompressPlan;
#[allow(unused_imports)]
use crate::rar50::reader::MainRead;
#[allow(unused_imports)]
use crate::rar50::requests::{
    all_encrypted, any_encrypted, is_compress_plan, is_reach, known_size, summed_sizes,
};
#[allow(unused_imports)]
use crate::rar50::retention::recovery_limit;
#[allow(unused_imports)]
use crate::rar50::volume_laws::law_volumes_hold_the_members;
#[allow(unused_imports)]
use crate::rar50::volume_set::{prepared_members_of, set_outcome};
#[allow(unused_imports)]
use crate::rar50::volume_walk::{
    closes_with, follow, law_a_reader_sees_every_volume, law_a_set_is_numbered_and_chained,
    law_members_are_prepared_in_order, opens_with, volume_main,
};
#[allow(unused_imports)]
use crate::rar50::walk::read_archive;
#[allow(unused_imports)]
use crate::rar50::writer::{
    archive_request_error, archive_request_outcome, is_engine_plan, volumes_request_error,
    volumes_request_outcome, PreparedWork,
};
#[allow(unused_imports)]
use crate::streaming::resources::ResourcesView;
#[allow(unused_imports)]
use crate::version::ArchiveVersion;

verus! {

/// What is to be listed of the comment that was asked for.
pub open spec fn asked_comment(
    extras: ArchiveExtras<'_>,
    comment_seal: Option<EncryptedStoredPayload>,
) -> Seq<Listed> {
    match extras.comment {
        Some(comment) => seq![
            Listed {
                kind: 3,
                name: seq![0x43u8, 0x4du8, 0x54u8],
                data: stored_data(comment@, comment_seal),
            },
        ],
        None => Seq::empty(),
    }
}

/// An archive that was asked for, with headers in the clear, is listed as what was asked
/// for: the comment, every member with its services, an index where it was to have one, a
/// recovery record where a percentage was given. Its main header says that it is solid or
/// protected where that was asked for, and nothing else.
pub proof fn law_requests_are_listed<S: Fn(Vec<u8>) -> Result<Vec<u8>>>(
    seal: S,
    entries: Seq<ArchiveEntry>,
    sizes: Seq<Option<u64>>,
    options: WriterOptions,
    extras: ArchiveExtras<'_>,
    work: PreparedWork,
    resources: ResourcesView,
    out: Seq<u8>,
)
    requires
        is_clear(seal),
        work.keys is None,
        entries.len() == work.works@.len(),
        archive_request_outcome(
            seal,
            entries,
            sizes,
            options,
            extras,
            work,
            resources,
            Ok::<Seq<u8>, Error>(out),
        ),
        forall|i: int|
            0 <= i < entries.len() ==> is_settled(entries[i], #[trigger] work.works@[i]),
        extras.comment matches Some(comment) ==> is_whole(comment@, work.comment_seal)
            && comment@.len() <= u64::MAX,
        out.len() <= u64::MAX,
    ensures
        read_archive(out) matches Some(read) && !read.more && read.main == (MainRead {
            flags: ((if options.features.solid {
                4int
            } else {
                0
            }) + (if extras.recovery_percent is Some {
                8int
            } else {
                0
            })) as nat,
            volume_number: None,
        }) && is_listing(
            read.blocks,
            asked_comment(extras, work.comment_seal) + entry_items(entries, work.works@),
            options.features.quick_open,
            extras.recovery_percent is Some,
        ),
{
    let plan = choose|plan: EnginePlan<'_>| #[trigger]
        is_engine_plan(sizes, options, extras, resources.memory_limit, false, plan)
            && archive_outcome(
            seal,
            entries,
            work.works@,
            plan,
            work.comment_seal,
            work.keys,
            resources,
            Ok::<Seq<u8>, Error>(out),
        );
    assert(comment_items(plan, work.comment_seal) == asked_comment(extras, work.comment_seal));
    law_archives_are_listed(
        seal,
        entries,
        work.works@,
        plan,
        work.comment_seal,
        resources,
        out,
    );
}

/// An encrypted header is its IV and, behind it, what the cipher made of the header,
/// filled up with zeros to whole cipher blocks.
pub proof fn law_sealed_headers_hold_the_header<C: Fn([u8; 16], Vec<u8>) -> Result<Vec<u8>>>(
    cipher: C,
    image: Seq<u8>,
    iv: [u8; 16],
    sealed: Seq<u8>,
)
    requires
        is_sealed_under(cipher, image, iv, Ok::<Seq<u8>, Error>(sealed)),
    ensures
        sealed.len() >= 16,
        sealed.take(16) == iv@,
        exists|plain: Vec<u8>, body: Vec<u8>| #[trigger]
            call_ensures(cipher, (iv, plain), Ok::<Vec<u8>, Error>(body)) && sealed.skip(16)
                == body@ && plain@.len() % 16 == 0 && image.len() <= plain@.len() < image.len()
                + 16 && plain@.take(image.len() as int) == image && (forall|i: int|
                image.len() <= i < plain@.len() ==> #[trigger] plain@[i] == 0),
{
    let (plain, answer) = choose|plain: Vec<u8>, answer: Result<Vec<u8>>|
        plain@ == padded(image) && #[trigger] call_ensures(cipher, (iv, plain), answer) && Ok::<
            Seq<u8>,
            Error,
        >(sealed) == (match answer {
            Ok(body) => Ok(iv@ + body@),
            Err(error) => Err(error),
        });
    let body = answer->Ok_0;
    assert(sealed.take(16) =~= iv@);
    assert(sealed.skip(16) =~= body@);
    assert(plain@.take(image.len() as int) =~= image);
    assert(call_ensures(cipher, (iv, plain), Ok::<Vec<u8>, Error>(body)));
}

/// A recovery record may take what the writer may hold at a time, or what is left of all
/// managed capacity where that is less.
pub proof fn law_recovery_takes_what_is_left(resources: ResourcesView)
    ensures
        recovery_limit(resources) <= resources.memory_limit,
        resources.execution matches Some(ledger) ==> ledger.used <= ledger.limit ==> {
            &&& ledger.used + recovery_limit(resources) <= ledger.limit
            &&& recovery_limit(resources) == resources.memory_limit || ledger.used
                + recovery_limit(resources) == ledger.limit
        },
        resources.execution is None ==> recovery_limit(resources) == resources.memory_limit,
{
}

/// A set that was asked for says of every volume that it is solid or protected where that
/// was asked for, which volume it is, and whether another one follows.
pub proof fn law_requested_sets_are_numbered_and_chained<S: Fn(Vec<u8>) -> Result<Vec<u8>>>(
    seal: S,
    entries: Seq<ArchiveEntry>,
    sizes: Seq<Option<u64>>,
    options: WriterOptions,
    extras: ArchiveExtras<'_>,
    max_payload_per_volume: u64,
    work: PreparedWork,
    hashes: Seq<Vec<[u8; 32]>>,
    resources: ResourcesView,
    outputs: Seq<Seq<u8>>,
)
    requires
        volumes_request_outcome(
            seal,
            entries,
            sizes,
            options,
            extras,
            max_payload_per_volume,
            work,
            hashes,
            resources,
            Ok::<Seq<Seq<u8>>, Error>(outputs),
        ),
        outputs.len() <= u64::MAX,
    ensures
        forall|i: int|
            0 <= i < outputs.len() ==> closes_with(
                emission_by(seal),
                #[trigger] outputs[i],
                i + 1 < outputs.len(),
            ) && opens_with(
                emission_by(seal),
                outputs[i],
                8 + head_crypt_of(work.keys).len(),
                volume_main(options.features.solid, extras.recovery_percent is Some, i as nat),
            ),
{
    let plan = choose|plan: EnginePlan<'_>| #[trigger]
        is_engine_plan(sizes, options, extras, resources.memory_limit, true, plan)
            && set_outcome(
            seal,
            entries,
            work.works@,
            hashes,
            plan,
            max_payload_per_volume,
            work.keys,
            resources,
            Ok::<Seq<Seq<u8>>, Error>(outputs),
        );
    law_a_set_is_numbered_and_chained(
        seal,
        entries,
        work.works@,
        hashes,
        plan,
        max_payload_per_volume,
        work.keys,
        resources,
        outputs,
    );
}

/// A reader that follows a set that was asked for sees all of its volumes and stops behind
/// the last; there is at least one.
pub proof fn law_requested_sets_are_followed<S: Fn(Vec<u8>) -> Result<Vec<u8>>>(
    seal: S,
    entries: Seq<ArchiveEntry>,
    sizes: Seq<Option<u64>>,
    options: WriterOptions,
    extras: ArchiveExtras<'_>,
    max_payload_per_volume: u64,
    work: PreparedWork,
    hashes: Seq<Vec<[u8; 32]>>,
    resources: ResourcesView,
    outputs: Seq<Seq<u8>>,
)
    requires
        is_clear(seal),
        work.keys is None,
        entries.len() == work.works@.len(),
        volumes_request_outcome(
            seal,
            entries,
            sizes,
            options,
            extras,
            max_payload_per_volume,
            work,
            hashes,
            resources,
            Ok::<Seq<Seq<u8>>, Error>(outputs),
        ),
        outputs.len() <= u64::MAX,
        forall|i: int| 0 <= i < outputs.len() ==> (#[trigger] outputs[i]).len() <= u64::MAX,
    ensures
        outputs.len() > 0,
        follow(outputs, 0) == Some(outputs.len()),
{
    let plan = choose|plan: EnginePlan<'_>| #[trigger]
        is_engine_plan(sizes, options, extras, resources.memory_limit, true, plan)
            && set_outcome(
            seal,
            entries,
            work.works@,
            hashes,
            plan,
            max_payload_per_volume,
            work.keys,
            resources,
            Ok::<Seq<Seq<u8>>, Error>(outputs),
        );
    law_a_reader_sees_every_volume(
        seal,
        entries,
        work.works@,
        hashes,
        plan,
        max_payload_per_volume,
        resources,
        outputs,
    );
    law_members_are_prepared_in_order(entries, work.works@, plan.compress);
    let members = prepared_members_of(entries, work.works@, plan.compress)->Ok_0;
    law_volumes_hold_the_members(members, max_payload_per_volume as nat, hashes);
}

/// Whether the settings of a request agree with each other and with the format: a version
/// and a dictionary that it has, a level up to five, no index of headers that are encrypted,
/// no filters in a solid archive, and a percentage that is one.
pub open spec fn are_honourable(options: WriterOptions, extras: ArchiveExtras<'_>) -> bool {
    &&& options.target == ArchiveVersion::Rar50 || options.target == ArchiveVersion::Rar70
    &&& options.compression_level matches Some(level) ==> level <= 5
    &&& options.dictionary_size matches Some(size) ==> is_legal_size(options.target, size)
    &&& !(options.features.quick_open && options.features.header_encryption)
    &&& options.features.solid ==> extras.filter_policy == FilterPolicy::Off
    &&& extras.recovery_percent matches Some(percent) ==> 1 <= percent <= 100
}

/// Whether passwords agree: all members have one or none has, and headers are encrypted only
/// where there is one.
pub open spec fn are_passwords_consistent(
    entries: Seq<ArchiveEntry>,
    header_encryption: bool,
) -> bool {
    &&& forall|i: int, j: int|
        0 <= i < entries.len() && 0 <= j < entries.len() ==> ((#[trigger] entries[i]).password is Some
            <==> (#[trigger] entries[j]).password is Some)
    &&& header_encryption ==> entries.len() > 0 && entries[0].password is Some
}

/// A request for an archive is refused just where its settings or its passwords do not go
/// together.
pub proof fn law_honourable_requests_are_accepted(
    entries: Seq<ArchiveEntry>,
    options: WriterOptions,
    extras: ArchiveExtras<'_>,
)
    ensures
        archive_request_error(entries, options, extras) is None <==> are_honourable(options, extras)
            && are_passwords_consistent(entries, options.features.header_encryption),
{
    lemma_passwords(entries, options.features.header_encryption);
}

/// A request for a volume set is refused where one for an archive would be, and where there
/// are no members or a member has a comment.
pub proof fn law_honourable_sets_are_accepted(
    entries: Seq<ArchiveEntry>,
    options: WriterOptions,
    extras: ArchiveExtras<'_>,
)
    ensures
        volumes_request_error(entries, options, extras) is None <==> {
            &&& are_honourable(options, extras)
            &&& are_passwords_consistent(entries, options.features.header_encryption)
            &&& entries.len() > 0
            &&& forall|i: int| 0 <= i < entries.len() ==> (#[trigger] entries[i]).services@.len() == 0
        },
{
    lemma_passwords(entries, options.features.header_encryption);
}

proof fn lemma_passwords(entries: Seq<ArchiveEntry>, header_encryption: bool)
    ensures
        are_passwords_consistent(entries, header_encryption) <==> (any_encrypted(entries)
            ==> all_encrypted(entries)) && (header_encryption ==> any_encrypted(entries)),
{
    if any_encrypted(entries) && all_encrypted(entries) {
        assert(entries[0].password is Some);
    }
    if are_passwords_consistent(entries, header_encryption) {
        if any_encrypted(entries) {
            let i = choose|i: int| 0 <= i < entries.len() && (#[trigger] entries[i]).password is Some;
            assert forall|j: int| 0 <= j < entries.len() implies (
            #[trigger] entries[j]).password is Some by {
                assert(entries[i].password is Some <==> entries[j].password is Some);
            }
        }
        if header_encryption {
            assert(entries[0].password is Some);
        }
    }
}

/// Members are packed as was asked for: at the level, with the dictionary, the filters and
/// the sharing of it that the request names. The default level is the first that packs. Only
/// an archive of the later version whose dictionary the earlier could not name is written for
/// the later version alone.
pub proof fn law_members_are_packed_as_asked(
    options: WriterOptions,
    filter_policy: FilterPolicy,
    content: u64,
    memory_limit: u64,
    plan: CompressPlan,
)
    requires
        is_compress_plan(options, filter_policy, content, memory_limit, plan),
    ensures
        options.compression_level matches Some(level) ==> plan.method == level && level <= 5,
        options.compression_level is None ==> plan.method == 1,
        options.dictionary_size matches Some(size) ==> plan.dictionary_size == size,
        plan.encode_options.max_match_distance == plan.dictionary_size,
        plan.algorithm_version == 0 || plan.algorithm_version == 1,
        plan.algorithm_version == 1 <==> options.target == ArchiveVersion::Rar70 && !fits_first(
            plan.dictionary_size,
        ),
        plan.candidates@.len() == 1 && plan.candidates@[0] == plan.encode_options,
        plan.solid == options.features.solid,
        plan.filter_policy == filter_policy,
{
    law_levels_climb(options.compression_level, plan.dictionary_size);
}

/// The content that a dictionary is fitted to is all members together in a solid archive, as
/// far as that can be counted, and the largest of them in any other.
pub proof fn law_dictionaries_are_fitted_to_what_shares_them(
    sizes: Seq<Option<u64>>,
    solid: bool,
    reach: u64,
    i: int,
)
    requires
        is_reach(sizes, solid, reach),
        0 <= i < sizes.len(),
    ensures
        sizes[i] matches Some(size) ==> size <= reach,
        sizes[i] is None ==> reach == u64::MAX,
        !solid ==> sizes.contains(Some(reach)) || sizes.contains(None),
        solid && reach < u64::MAX ==> summed_sizes(sizes) == reach,
{
    lemma_summed(sizes, i);
    if !solid {
        let k = choose|k: int|
            0 <= k < sizes.len() && known_size(#[trigger] sizes[k]) == reach;
        assert(sizes.contains(sizes[k]));
    }
}

proof fn lemma_summed(sizes: Seq<Option<u64>>, i: int)
    requires
        0 <= i < sizes.len(),
    ensures
        sizes[i] matches Some(size) ==> size <= summed_sizes(sizes),
        sizes[i] is None ==> summed_sizes(sizes) >= u64::MAX,
    decreases sizes.len(),
{
    if i < sizes.len() - 1 {
        lemma_summed(sizes.drop_last(), i);
    }
}

} // verus!
