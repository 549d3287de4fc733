//! Of one request comes one archive: nothing that a writer is free to do shows in
//! its bytes.

use vstd::prelude::*;

#[allow(unused_imports)]
use crate::error::{Error, Result};
#[allow(unused_imports)]
use crate::filter::FilterPolicy;
#[allow(unused_imports)]
use crate::rar50::archive::{
    are_emitted_blocks, archive_outcome, lemma_clear_blocks, lemma_clear_success, plain_archive_of,
};
#[allow(unused_imports)]
use crate::rar50::blocks::BlockView;
#[allow(unused_imports)]
use crate::rar50::container::{
    emission_by, is_clear, law_plain_container_is_settled, lemma_clear_container,
};
#[allow(unused_imports)]
use crate::rar50::engine::{
    archive_blocks_of, entry_blocks_of, member_blocks_of, EnginePlan, HeaderKeys, MemberWork,
};
#[allow(unused_imports)]
use crate::rar50::entry::{ArchiveEntry, ArchiveExtras};
#[allow(unused_imports)]
use crate::rar50::ladder::law_one_dictionary_is_picked;
#[allow(unused_imports)]
use crate::rar50::members::member_block_of;
#[allow(unused_imports)]
use crate::rar50::options::WriterOptions;
#[allow(unused_imports)]
use crate::rar50::plan::{member_info, CompressPlan};
#[allow(unused_imports)]
use crate::rar50::requests::{is_compress_plan, is_reach, known_size};
#[allow(unused_imports)]
use crate::rar50::retention::recovery_limit;
#[allow(unused_imports)]
use crate::rar50::prepared_header::{admitted_headers, header_lens};
#[allow(unused_imports)]
use crate::rar50::volume_set::{
    is_volume, prepared_members_of, set_of, set_outcome, volume_container,
};
#[allow(unused_imports)]
use crate::rar50::volumes::volume_member_of;
#[allow(unused_imports)]
use crate::rar50::writer::{
    archive_request_outcome, is_engine_plan, volumes_request_outcome, PreparedWork,
};
#[allow(unused_imports)]
use crate::streaming::resources::ResourcesView;

verus! {

/// A dictionary has one reach for members of given sizes.
pub proof fn law_one_reach(sizes: Seq<Option<u64>>, solid: bool, a: u64, b: u64)
    requires
        is_reach(sizes, solid, a),
        is_reach(sizes, solid, b),
    ensures
        a == b,
{
    if !solid && sizes.len() > 0 {
        let i = choose|i: int| 0 <= i < sizes.len() && known_size(#[trigger] sizes[i]) == a;
        let k = choose|k: int| 0 <= k < sizes.len() && known_size(#[trigger] sizes[k]) == b;
        assert(known_size(sizes[i]) <= b);
        assert(known_size(sizes[k]) <= a);
    }
}

/// Whether two settings give the same headers.
pub open spec fn are_same_settings(a: CompressPlan, b: CompressPlan) -> bool {
    &&& a.method == b.method
    &&& a.dictionary_size == b.dictionary_size
    &&& a.algorithm_version == b.algorithm_version
    &&& a.encode_options == b.encode_options
    &&& a.solid == b.solid
}

/// The settings of a write follow from the request.
pub proof fn law_settings_are_settled(
    options: WriterOptions,
    filter_policy: FilterPolicy,
    content: u64,
    memory_limit: u64,
    a: CompressPlan,
    b: CompressPlan,
)
    requires
        is_compress_plan(options, filter_policy, content, memory_limit, a),
        is_compress_plan(options, filter_policy, content, memory_limit, b),
    ensures
        are_same_settings(a, b),
{
    let reach = if a.method == 0 {
        0
    } else {
        content
    };
    if options.dictionary_size is None {
        law_one_dictionary_is_picked(
            options.compression_level,
            reach,
            memory_limit,
            a.dictionary_size,
            b.dictionary_size,
        );
    }
}

proof fn lemma_same_entry_blocks(
    entries: Seq<ArchiveEntry>,
    works: Seq<MemberWork>,
    a: CompressPlan,
    b: CompressPlan,
)
    requires
        works.len() == entries.len(),
        are_same_settings(a, b),
    ensures
        entry_blocks_of(entries, works, a) == entry_blocks_of(entries, works, b),
    decreases entries.len(),
{
    if entries.len() > 0 {
        lemma_same_entry_blocks(entries.drop_last(), works.drop_last(), a, b);
        let member = works.last().member;
        reveal(member_blocks_of);
        assert(member_info(a, member.store, member.solid_continuation) == member_info(
            b,
            member.store,
            member.solid_continuation,
        ));
        assert(member_block_of(entries.last(), member, works.last().sealed, a) == member_block_of(
            entries.last(),
            member,
            works.last().sealed,
            b,
        ));
        assert(member_blocks_of(entries.last(), works.last(), a) == member_blocks_of(
            entries.last(),
            works.last(),
            b,
        ));
    }
}

/// The settings in a plan follow from the request.
proof fn lemma_same_plan(
    sizes: Seq<Option<u64>>,
    options: WriterOptions,
    extras: ArchiveExtras<'_>,
    memory_limit: u64,
    volumes: bool,
    a: EnginePlan<'_>,
    b: EnginePlan<'_>,
)
    requires
        is_engine_plan(sizes, options, extras, memory_limit, volumes, a),
        is_engine_plan(sizes, options, extras, memory_limit, volumes, b),
    ensures
        are_same_settings(a.compress, b.compress),
{
    let first = choose|reach: u64| #[trigger]
        is_reach(sizes, options.features.solid, reach) && is_compress_plan(
            options,
            extras.filter_policy,
            reach,
            memory_limit,
            a.compress,
        );
    let second = choose|reach: u64| #[trigger]
        is_reach(sizes, options.features.solid, reach) && is_compress_plan(
            options,
            extras.filter_policy,
            reach,
            memory_limit,
            b.compress,
        );
    law_one_reach(sizes, options.features.solid, first, second);
    law_settings_are_settled(
        options,
        extras.filter_policy,
        first,
        memory_limit,
        a.compress,
        b.compress,
    );
}

/// An archive with headers in the clear is settled by its request: two writes of one
/// request that succeed give the same bytes, whoever watches them or stops others.
pub proof fn law_a_receiver_changes_nothing<S: Fn(Vec<u8>) -> Result<Vec<u8>>>(
    seal: S,
    entries: Seq<ArchiveEntry>,
    sizes: Seq<Option<u64>>,
    options: WriterOptions,
    extras: ArchiveExtras<'_>,
    work: PreparedWork,
    resources: ResourcesView,
    watched: Seq<u8>,
    unwatched: Seq<u8>,
)
    requires
        is_clear(seal),
        !options.features.header_encryption,
        work.suits(entries, options, extras),
        archive_request_outcome(
            seal,
            entries,
            sizes,
            options,
            extras,
            work,
            resources,
            Ok::<Seq<u8>, Error>(watched),
        ),
        archive_request_outcome(
            seal,
            entries,
            sizes,
            options,
            extras,
            work,
            resources,
            Ok::<Seq<u8>, Error>(unwatched),
        ),
    ensures
        watched == unwatched,
{
    let first = choose|plan: EnginePlan<'_>| #[trigger]
        is_engine_plan(sizes, options, extras, resources.memory_limit, false, plan)
            && archive_outcome(
            seal,
            entries,
            work.works@,
            plan,
            work.comment_seal,
            work.keys,
            resources,
            Ok::<Seq<u8>, Error>(watched),
        );
    let second = choose|plan: EnginePlan<'_>| #[trigger]
        is_engine_plan(sizes, options, extras, resources.memory_limit, false, plan)
            && archive_outcome(
            seal,
            entries,
            work.works@,
            plan,
            work.comment_seal,
            work.keys,
            resources,
            Ok::<Seq<u8>, Error>(unwatched),
        );
    lemma_same_plan(sizes, options, extras, resources.memory_limit, false, first, second);
    lemma_same_entry_blocks(entries, work.works@, first.compress, second.compress);
    let plain = archive_blocks_of(first, work.comment_seal, entries, work.works@)->Ok_0;
    assert(archive_blocks_of(first, work.comment_seal, entries, work.works@)
        == archive_blocks_of(second, work.comment_seal, entries, work.works@));
    let headers = admitted_headers(header_lens(plain, false), resources)->Ok_0;
    let limit = recovery_limit(resources);
    lemma_clear_success(seal, first, limit, headers, plain, watched);
    lemma_clear_success(seal, second, limit, headers, plain, unwatched);
    assert(plain_archive_of(first, limit, headers, plain) == plain_archive_of(
        second,
        limit,
        headers,
        plain,
    ));
}

proof fn lemma_same_members(
    entries: Seq<ArchiveEntry>,
    works: Seq<MemberWork>,
    a: CompressPlan,
    b: CompressPlan,
)
    requires
        works.len() == entries.len(),
        are_same_settings(a, b),
    ensures
        prepared_members_of(entries, works, a) == prepared_members_of(entries, works, b),
    decreases entries.len(),
{
    if entries.len() > 0 {
        lemma_same_members(entries.drop_last(), works.drop_last(), a, b);
        let member = works.last().member;
        assert(member_info(a, member.store, member.solid_continuation) == member_info(
            b,
            member.store,
            member.solid_continuation,
        ));
        assert(volume_member_of(entries.last(), member, works.last().sealed, a)
            == volume_member_of(entries.last(), member, works.last().sealed, b));
    }
}

proof fn lemma_clear_volume<S: Fn(Vec<u8>) -> Result<Vec<u8>>>(
    seal: S,
    plan: EnginePlan<'_>,
    keys: Option<HeaderKeys>,
    memory_limit: u64,
    volume_number: u64,
    plain: Seq<BlockView>,
    more: bool,
    out: Seq<u8>,
)
    requires
        is_clear(seal),
        is_volume(
            emission_by(seal),
            plan,
            keys,
            memory_limit,
            volume_number,
            plain,
            more,
            out,
        ),
    ensures
        volume_container(plan, keys, memory_limit, volume_number, plain, more).plain_image()
            == Ok::<Seq<u8>, Error>(out),
{
    let emits = emission_by(seal);
    let blocks = choose|blocks: Seq<BlockView>| #[trigger]
        are_emitted_blocks(emits, plain, blocks) && ({
            let container = volume_container(
                plan,
                keys,
                memory_limit,
                volume_number,
                blocks,
                more,
            );
            container.error() is None && container.is_written_as(emits, out)
        });
    lemma_clear_blocks(seal, plain, blocks);
    let container = volume_container(plan, keys, memory_limit, volume_number, plain, more);
    lemma_clear_container(container, seal, out);
    law_plain_container_is_settled(container, out);
}

/// As [`law_a_receiver_changes_nothing`], of a volume set.
pub proof fn law_a_receiver_changes_no_volume<S: Fn(Vec<u8>) -> Result<Vec<u8>>>(
    seal: S,
    entries: Seq<ArchiveEntry>,
    sizes: Seq<Option<u64>>,
    options: WriterOptions,
    extras: ArchiveExtras<'_>,
    max_payload_per_volume: u64,
    work: PreparedWork,
    hashes: Seq<Vec<[u8; 32]>>,
    resources: ResourcesView,
    watched: Seq<Seq<u8>>,
    unwatched: Seq<Seq<u8>>,
)
    requires
        is_clear(seal),
        work.works@.len() == entries.len(),
        volumes_request_outcome(
            seal,
            entries,
            sizes,
            options,
            extras,
            max_payload_per_volume,
            work,
            hashes,
            resources,
            Ok::<Seq<Seq<u8>>, Error>(watched),
        ),
        volumes_request_outcome(
            seal,
            entries,
            sizes,
            options,
            extras,
            max_payload_per_volume,
            work,
            hashes,
            resources,
            Ok::<Seq<Seq<u8>>, Error>(unwatched),
        ),
    ensures
        watched == unwatched,
{
    let first = choose|plan: EnginePlan<'_>| #[trigger]
        is_engine_plan(sizes, options, extras, resources.memory_limit, true, plan) && set_outcome(
            seal,
            entries,
            work.works@,
            hashes,
            plan,
            max_payload_per_volume,
            work.keys,
            resources,
            Ok::<Seq<Seq<u8>>, Error>(watched),
        );
    let second = choose|plan: EnginePlan<'_>| #[trigger]
        is_engine_plan(sizes, options, extras, resources.memory_limit, true, plan) && set_outcome(
            seal,
            entries,
            work.works@,
            hashes,
            plan,
            max_payload_per_volume,
            work.keys,
            resources,
            Ok::<Seq<Seq<u8>>, Error>(unwatched),
        );
    lemma_same_plan(sizes, options, extras, resources.memory_limit, true, first, second);
    lemma_same_members(entries, work.works@, first.compress, second.compress);
    let stopped = resources.is_stopped();
    let set = set_of(first, entries, work.works@, hashes, max_payload_per_volume, stopped);
    assert(set == set_of(second, entries, work.works@, hashes, max_payload_per_volume, stopped));
    let volumes = set->Ok_0.volumes;
    let limit = recovery_limit(resources);
    assert forall|i: int| 0 <= i < volumes.len() implies #[trigger] watched[i] == unwatched[i] by {
        let more = i + 1 < volumes.len();
        lemma_clear_volume(
            seal,
            first,
            work.keys,
            limit,
            i as u64,
            volumes[i],
            more,
            watched[i],
        );
        lemma_clear_volume(
            seal,
            second,
            work.keys,
            limit,
            i as u64,
            volumes[i],
            more,
            unwatched[i],
        );
        assert(volume_container(first, work.keys, limit, i as u64, volumes[i], more)
            == volume_container(second, work.keys, limit, i as u64, volumes[i], more));
    }
    assert(watched =~= unwatched);
}

} // verus!
