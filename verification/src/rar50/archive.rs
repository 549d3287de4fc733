//! Writing a whole archive.

use vstd::prelude::*;

use crate::bytes::push_all;
#[allow(unused_imports)]
use crate::crc32::crc32_of;
use crate::error::{Error, Result};
use crate::rar50::blocks::{stored_service_header, PreparedBlock};
#[allow(unused_imports)]
use crate::rar50::blocks::{service_image_of, BlockView};
use crate::rar50::container::{emit_header, write_container, Container};
#[allow(unused_imports)]
use crate::rar50::container::{
    emission_by, is_clear, is_sealing, law_plain_container_is_settled, lemma_clear_container,
    lemma_short_service_fits, seal_fails, seals_to, ContainerView,
};
use crate::rar50::encryption::EncryptedStoredPayload;
use crate::rar50::engine::{
    archive_header_password, prepare_blocks, EnginePlan, HeaderKeys, MemberWork,
};
#[allow(unused_imports)]
use crate::rar50::engine::{
    archive_blocks_of, header_password_error, headers_fit, is_complete, is_keyed_as_planned,
};
use crate::rar50::entry::{validate_entries, ArchiveEntry};
#[allow(unused_imports)]
use crate::rar50::entry::{entries_error, refusal};
#[allow(unused_imports)]
use crate::rar50::file_header::{file_fields, law_file_fields_len};
#[allow(unused_imports)]
use crate::rar50::format::{
    HEAD_CRYPT, HEAD_SERVICE, HFL_DATA, HFL_EXTRA,
};
use crate::rar50::format::{MHFL_LOCKED, MHFL_RECOVERY, MHFL_SOLID};
#[allow(unused_imports)]
use crate::rar50::headers::{emitted_len, header_image, law_header_length_is_predictable};
#[allow(unused_imports)]
use crate::rar50::layout::{quick_open_name, service_extra, stored_service_block_len_of};
use crate::rar50::main_header::write_head_crypt;
#[allow(unused_imports)]
use crate::rar50::main_header::crypt_fields;
#[allow(unused_imports)]
use crate::rar50::metadata::bytes_result;
use crate::rar50::prepared_header::{admit_headers, measure_headers, release_headers};
#[allow(unused_imports)]
use crate::rar50::prepared_header::{
    admitted_headers, header_lens, lemma_admission_keeps_the_limit,
};
use crate::rar50::quick_open::{body_len, write_quick_open_payload};
#[allow(unused_imports)]
use crate::rar50::quick_open::{
    blocks_len, blocks_view, body_len_of, lemma_blocks_len_grows, quick_open_payload,
};
#[allow(unused_imports)]
use crate::rar50::vint::lemma_vint_len_bound;
use crate::rar50::retention::{
    archive_buffer_bytes, archive_spool_bytes, give_back, recovery_workspace, retain,
};
#[allow(unused_imports)]
use crate::rar50::retention::{archive_buffer, archive_spools, recovery_limit, retained};
#[allow(unused_imports)]
use crate::recovery::rar5::record::takes_recovery;
use crate::streaming::resources::WriterResources;
#[allow(unused_imports)]
use crate::streaming::resources::ResourcesView;
use crate::write_progress::{ask, check_cancelled, Unobserved, WriteProgress};
#[allow(unused_imports)]
use crate::write_progress::{
    emission_event, heeds, is_stopped_by, is_told,
};

verus! {

/// Whether a block is another with its header emitted.
pub open spec fn is_emitted_block(
    emits: spec_fn(Seq<u8>, Seq<u8>) -> bool,
    plain: BlockView,
    block: BlockView,
) -> bool {
    &&& emits(plain.header, block.header)
    &&& block.payload == plain.payload
    &&& block.payload_len == plain.payload_len
    &&& block.quick_open_cached == plain.quick_open_cached
    &&& block.spooled == plain.spooled
    &&& block.buffer == plain.buffer
}

/// Whether blocks are others with their headers emitted.
pub open spec fn are_emitted_blocks(
    emits: spec_fn(Seq<u8>, Seq<u8>) -> bool,
    plain: Seq<BlockView>,
    blocks: Seq<BlockView>,
) -> bool {
    &&& blocks.len() == plain.len()
    &&& forall|i: int|
        0 <= i < plain.len() ==> is_emitted_block(emits, plain[i], #[trigger] blocks[i])
}

/// Emits the header of every block.
pub fn emit_blocks<S: Fn(Vec<u8>) -> Result<Vec<u8>>>(
    plain: Vec<PreparedBlock>,
    seal: &S,
    header_encrypted: bool,
) -> (r: Result<Vec<PreparedBlock>>)
    requires
        is_sealing(*seal, header_encrypted),
        headers_fit(plain@),
    ensures
        match r {
            Ok(blocks) => are_emitted_blocks(
                emission_by(*seal),
                blocks_view(plain@),
                blocks_view(blocks@),
            ) && forall|i: int|
                0 <= i < blocks@.len() ==> (#[trigger] blocks@[i]).header@.len() <= isize::MAX
                    + 32,
            Err(error) => seal_fails(*seal, error),
        },
{
    let ghost given = blocks_view(plain@);
    let ghost emits = emission_by(*seal);
    let mut blocks = plain;
    let mut at: usize = 0;
    while at < blocks.len()
        invariant
            at <= blocks@.len(),
            is_sealing(*seal, header_encrypted),
            emits == emission_by(*seal),
            given == blocks_view(plain@),
            headers_fit(plain@),
            blocks@.len() == given.len(),
            forall|i: int| at <= i < given.len() ==> (#[trigger] blocks@[i]) == plain@[i],
            forall|i: int|
                0 <= i < at ==> is_emitted_block(emits, given[i], (#[trigger] blocks@[i])@)
                    && blocks@[i].header@.len() <= isize::MAX + 32,
        decreases blocks@.len() - at,
    {
        let mut taken = PreparedBlock {
            header: Vec::new(),
            payload: Vec::new(),
            payload_len: 0,
            quick_open_cached: false,
            spooled: 0,
            buffer: 0,
        };
        std::mem::swap(&mut blocks[at], &mut taken);
        assert(taken == plain@[at as int]);
        assert(given[at as int] == taken@);
        let PreparedBlock { header, payload, payload_len, quick_open_cached, spooled, buffer } =
            taken;
        let emitted = match emit_header(header, seal) {
            Ok(emitted) => emitted,
            Err(error) => {
                return Err(error);
            },
        };
        let block = PreparedBlock {
            header: emitted,
            payload,
            payload_len,
            quick_open_cached,
            spooled,
            buffer,
        };
        assert(is_emitted_block(emits, given[at as int], block@));
        blocks.set(at, block);
        at = at + 1;
    }
    proof {
        let out = blocks_view(blocks@);
        assert forall|i: int| 0 <= i < given.len() implies is_emitted_block(
            emits,
            given[i],
            #[trigger] out[i],
        ) by {
            assert(out[i] == blocks@[i]@);
        }
    }
    Ok(blocks)
}

/// Blocks behind one another.
pub open spec fn body_of(blocks: Seq<BlockView>) -> Seq<u8>
    decreases blocks.len(),
{
    if blocks.len() == 0 {
        Seq::empty()
    } else {
        body_of(blocks.drop_last()) + blocks.last().header + blocks.last().payload
    }
}

/// Writes blocks behind one another.
pub fn write_body(blocks: &Vec<PreparedBlock>) -> (body: Vec<u8>)
    ensures
        body@ == body_of(blocks_view(blocks@)),
{
    let ghost view = blocks_view(blocks@);
    let mut body: Vec<u8> = Vec::new();
    let mut at: usize = 0;
    assert(view.take(0) =~= Seq::empty());
    while at < blocks.len()
        invariant
            at <= blocks@.len(),
            view == blocks_view(blocks@),
            body@ == body_of(view.take(at as int)),
        decreases blocks@.len() - at,
    {
        proof {
            assert(view.take(at + 1).drop_last() =~= view.take(at as int));
            assert(view.take(at + 1).last() == blocks@[at as int]@);
        }
        push_all(&mut body, &blocks[at].header);
        push_all(&mut body, &blocks[at].payload);
        at = at + 1;
    }
    assert(view.take(blocks@.len() as int) =~= view);
    body
}

/// Whether every payload has the length that its header gives.
pub open spec fn payloads_fit(blocks: Seq<BlockView>) -> bool {
    forall|i: int|
        0 <= i < blocks.len() ==> (#[trigger] blocks[i]).payload.len() == blocks[i].payload_len
}

pub proof fn lemma_body_len_is_blocks_len(blocks: Seq<BlockView>)
    requires
        payloads_fit(blocks),
    ensures
        body_of(blocks).len() == blocks_len(blocks),
    decreases blocks.len(),
{
    if blocks.len() > 0 {
        let before = blocks.drop_last();
        assert(payloads_fit(before)) by {
            assert forall|i: int| 0 <= i < before.len() implies (#[trigger] before[i]).payload.len()
                == before[i].payload_len by {
                assert(before[i] == blocks[i]);
            }
        }
        lemma_body_len_is_blocks_len(before);
        assert(blocks.last() == blocks[blocks.len() - 1]);
    }
}

proof fn lemma_body_splits(blocks: Seq<BlockView>, at: int)
    requires
        payloads_fit(blocks),
        0 <= at < blocks.len(),
    ensures
        ({
            let start = blocks_len(blocks.take(at));
            let header = blocks[at].header;
            &&& start + header.len() <= body_of(blocks).len()
            &&& body_of(blocks).subrange(start as int, (start + header.len()) as int) == header
        }),
    decreases blocks.len(),
{
    let before = blocks.drop_last();
    assert(payloads_fit(before)) by {
        assert forall|i: int| 0 <= i < before.len() implies (#[trigger] before[i]).payload.len()
            == before[i].payload_len by {
            assert(before[i] == blocks[i]);
        }
    }
    lemma_body_len_is_blocks_len(before);
    let start = blocks_len(blocks.take(at));
    let header = blocks[at].header;
    let body = body_of(blocks);
    if at == blocks.len() - 1 {
        assert(blocks.take(at) =~= before);
        assert(body.subrange(start as int, (start + header.len()) as int) =~= header);
    } else {
        lemma_body_splits(before, at);
        assert(before.take(at) =~= blocks.take(at));
        assert(before[at] == blocks[at]);
        assert(body.subrange(start as int, (start + header.len()) as int) =~= body_of(
            before,
        ).subrange(start as int, (start + header.len()) as int));
    }
}

/// Every header that the quick-open index repeats stands where its distance
/// says: that far before the end of the body, which is where the index starts.
pub proof fn law_distances_lead_to_the_headers(blocks: Seq<BlockView>, at: int)
    requires
        payloads_fit(blocks),
        0 <= at < blocks.len(),
    ensures
        ({
            let distance = blocks_len(blocks) - blocks_len(blocks.take(at));
            let header = blocks[at].header;
            let start = body_of(blocks).len() - distance;
            &&& 0 <= start
            &&& start + header.len() <= body_of(blocks).len()
            &&& body_of(blocks).subrange(start, start + header.len()) == header
        }),
{
    lemma_body_len_is_blocks_len(blocks);
    lemma_body_splits(blocks, at);
    lemma_blocks_len_grows(blocks, at);
}

/// The encryption header, or nothing.
pub open spec fn head_crypt_of(keys: Option<HeaderKeys>) -> Seq<u8> {
    match keys {
        Some(keys) => header_image(
            HEAD_CRYPT,
            0,
            None,
            crypt_fields(keys.salt@, keys.check_value@),
            Seq::empty(),
        ),
        None => Seq::empty(),
    }
}

proof fn lemma_head_crypt_fits(keys: HeaderKeys)
    ensures
        head_crypt_of(Some(keys)).len() <= 128,
{
    let fields = crypt_fields(keys.salt@, keys.check_value@);
    assert(fields.len() == 31);
    law_header_length_is_predictable(HEAD_CRYPT, 0, None, fields, Seq::empty());
    lemma_vint_len_bound(HEAD_CRYPT as nat);
    lemma_vint_len_bound(0);
    lemma_vint_len_bound(crate::rar50::headers::body_len(HEAD_CRYPT, 0, None, 31, 0));
}

/// Builds the encryption header.
pub fn head_crypt(keys: Option<HeaderKeys>) -> (block: Vec<u8>)
    ensures
        block@ == head_crypt_of(keys),
{
    let mut block: Vec<u8> = Vec::new();
    if let Some(keys) = keys {
        proof {
            lemma_head_crypt_fits(keys);
        }
        let _ = write_head_crypt(&mut block, keys.salt, keys.check_value);
    }
    assert(block@ =~= head_crypt_of(keys));
    block
}

/// The archive flags of the main header.
pub open spec fn archive_flags(locked: bool, solid: bool, recovery: bool) -> u64 {
    ((if locked { MHFL_LOCKED as int } else { 0 }) + (if solid { MHFL_SOLID as int } else { 0 })
        + (if recovery { MHFL_RECOVERY as int } else { 0 })) as u64
}

/// Whether a block is the quick-open index of some blocks.
pub open spec fn is_index(
    emits: spec_fn(Seq<u8>, Seq<u8>) -> bool,
    wanted: bool,
    blocks: Seq<BlockView>,
    index: Option<BlockView>,
) -> bool {
    match index {
        None => !wanted,
        Some(block) => {
            let payload = quick_open_payload(blocks, blocks_len(blocks));
            &&& wanted
            &&& block.payload == payload
            &&& block.payload_len == payload.len()
            &&& !block.quick_open_cached
            &&& block.spooled == payload.len()
            &&& block.buffer == 0
            &&& service_image_of(
                quick_open_name(),
                payload.len() as u64,
                crc32_of(payload),
                Seq::empty(),
            ) matches Ok(image) && emits(image, block.header)
        },
    }
}

/// What a service holds does not change the length of its header.
proof fn lemma_service_len_ignores_checksum(
    name: Seq<u8>,
    data_len: u64,
    crc32: u32,
    service_data: Seq<u8>,
    encrypted: bool,
)
    ensures
        service_image_of(name, data_len, crc32, service_data) matches Ok(image) ==> (
        stored_service_block_len_of(name, data_len, service_data, encrypted) matches Ok(len) ==> len
            == emitted_len(image.len(), encrypted) + data_len),
{
    let fields = file_fields(name, data_len, Some(crc32), 0, None, 0, 0, false);
    let zeroed = file_fields(name, data_len, Some(0), 0, None, 0, 0, false);
    law_file_fields_len(name, data_len, Some(crc32), 0, None, 0, 0, false);
    law_file_fields_len(name, data_len, Some(0), 0, None, 0, 0, false);
    let extra = service_extra(service_data);
    let flags = (HFL_EXTRA + HFL_DATA) as u64;
    law_header_length_is_predictable(HEAD_SERVICE, flags, Some(data_len), fields, extra);
    law_header_length_is_predictable(HEAD_SERVICE, flags, Some(data_len), zeroed, extra);
}

/// Builds the quick-open block.
fn quick_open_block<S: Fn(Vec<u8>) -> Result<Vec<u8>>>(
    blocks: &Vec<PreparedBlock>,
    body_len: u64,
    seal: &S,
    header_encrypted: bool,
) -> (r: Result<PreparedBlock>)
    requires
        is_sealing(*seal, header_encrypted),
        body_len == blocks_len(blocks_view(blocks@)),
        forall|i: int|
            0 <= i < blocks@.len() ==> (#[trigger] blocks@[i]).header@.len() <= isize::MAX + 32,
    ensures
        match r {
            Ok(block) => is_index(
                emission_by(*seal),
                true,
                blocks_view(blocks@),
                Some(block@),
            ) && (stored_service_block_len_of(
                quick_open_name(),
                block.payload_len,
                Seq::empty(),
                header_encrypted,
            ) matches Ok(len) ==> len == block.header@.len() + block.payload@.len()),
            Err(error) => seal_fails(*seal, error),
        },
{
    let (payload, checksum): (Vec<u8>, u32) = write_quick_open_payload(blocks, body_len);
    let len: usize = payload.len();
    let name: [u8; 2] = [0x51, 0x4f];
    assert(name@ =~= quick_open_name());
    let nothing: Vec<u8> = Vec::new();
    assert(nothing@ == Seq::<u8>::empty());
    proof {
        lemma_short_service_fits(quick_open_name(), len as u64, checksum, Seq::empty());
        lemma_service_len_ignores_checksum(
            quick_open_name(),
            len as u64,
            checksum,
            Seq::empty(),
            header_encrypted,
        );
    }
    let image = match stored_service_header(&name, len as u64, checksum, &nothing) {
        Ok(image) => image,
        Err(error) => {
            return Err(error);
        },
    };
    let ghost image_view = image@;
    match emit_header(image, seal) {
        Ok(header) => {
            assert(emission_by(*seal)(image_view, header@));
            Ok(
                PreparedBlock {
                    header,
                    payload,
                    payload_len: len as u64,
                    quick_open_cached: false,
                    spooled: len as u64,
                    buffer: 0,
                },
            )
        },
        Err(error) => Err(error),
    }
}

/// The first stored member whose source changed under the writer.
pub open spec fn works_error(works: Seq<MemberWork>) -> Option<Error>
    decreases works.len(),
{
    if works.len() == 0 {
        None
    } else {
        match works[0].member.source_error() {
            Some(error) => Some(error),
            None => works_error(works.skip(1)),
        }
    }
}

/// Checks that every stored member is still what its header says.
pub fn check_sources(works: &Vec<MemberWork>) -> (r: Result<()>)
    ensures
        r == refusal(works_error(works@)),
{
    let mut at: usize = 0;
    assert(works@.skip(0) =~= works@);
    while at < works.len()
        invariant
            at <= works@.len(),
            works_error(works@) == works_error(works@.skip(at as int)),
        decreases works@.len() - at,
    {
        let ghost rest = works@.skip(at as int);
        assert(rest[0] == works@[at as int]);
        assert(rest.skip(1) =~= works@.skip(at + 1));
        match works[at].member.check_source() {
            Ok(()) => {},
            Err(error) => {
                return Err(error);
            },
        }
        at = at + 1;
    }
    Ok(())
}

/// Why an archive is refused before any block is made: for its entries or its
/// password, or because the write is to stop.
pub open spec fn early_error(
    plan: EnginePlan<'_>,
    entries: Seq<ArchiveEntry>,
    stopped: bool,
) -> Option<Error> {
    match entries_error(entries) {
        Some(error) => Some(error),
        None => match header_password_error(plan.header_encrypted, plan.header_password, entries) {
            Some(error) => Some(error),
            None => if stopped {
                Some(Error::Cancelled)
            } else {
                None
            },
        },
    }
}

/// The container of an archive.
pub open spec fn archive_container<'a>(
    plan: EnginePlan<'a>,
    keys: Option<HeaderKeys>,
    memory_limit: u64,
    blocks: Seq<BlockView>,
    index: Option<BlockView>,
) -> ContainerView<'a> {
    ContainerView {
        header_encrypted: plan.header_encrypted,
        head_crypt: head_crypt_of(keys),
        main_flags: archive_flags(
            plan.locked,
            plan.compress.solid,
            plan.recovery_percent is Some,
        ),
        volume_number: None,
        archive_metadata: plan.archive_metadata,
        metadata_record: plan.metadata_record,
        body: body_of(blocks),
        quick_open: index,
        recovery_percent: plan.recovery_percent,
        memory_limit,
        end_flags: 0,
    }
}

/// Why an archive cannot be written, whatever its headers become: it would hold
/// too much, or cannot be framed.
pub open spec fn archive_error(
    container: ContainerView<'_>,
    blocks: Seq<BlockView>,
    headers: ResourcesView,
) -> Option<Error> {
    match retained(
        archive_spools(container, blocks).peak,
        archive_buffer(blocks),
        headers,
    ) {
        Err(error) => Some(error),
        Ok(_) => container.error(),
    }
}

/// Whether `out` is the archive of these blocks. `headers` are the ledgers with the
/// headers held.
pub open spec fn is_archive(
    emits: spec_fn(Seq<u8>, Seq<u8>) -> bool,
    plan: EnginePlan<'_>,
    keys: Option<HeaderKeys>,
    memory_limit: u64,
    headers: ResourcesView,
    plain: Seq<BlockView>,
    out: Seq<u8>,
) -> bool {
    exists|blocks: Seq<BlockView>, index: Option<BlockView>| #[trigger]
        is_framed(emits, plan, plain, blocks, index) && ({
            let container = archive_container(plan, keys, memory_limit, blocks, index);
            archive_error(container, blocks, headers) is None && container.is_written_as(
                emits,
                out,
            )
        })
}

/// Whether blocks and index are emitted from the plain blocks of an archive.
pub open spec fn is_framed(
    emits: spec_fn(Seq<u8>, Seq<u8>) -> bool,
    plan: EnginePlan<'_>,
    plain: Seq<BlockView>,
    blocks: Seq<BlockView>,
    index: Option<BlockView>,
) -> bool {
    &&& are_emitted_blocks(emits, plain, blocks)
    &&& body_len_of(blocks) is Ok
    &&& is_index(emits, plan.quick_open, blocks, index)
}

/// Whether an archive of these blocks fails with this error, whatever its
/// headers are emitted as.
pub open spec fn is_archive_error(
    emits: spec_fn(Seq<u8>, Seq<u8>) -> bool,
    plan: EnginePlan<'_>,
    keys: Option<HeaderKeys>,
    memory_limit: u64,
    headers: ResourcesView,
    plain: Seq<BlockView>,
    error: Error,
) -> bool {
    ||| exists|blocks: Seq<BlockView>| #[trigger]
        are_emitted_blocks(emits, plain, blocks) && body_len_of(blocks) == Err::<u64, Error>(error)
    ||| exists|blocks: Seq<BlockView>, index: Option<BlockView>| #[trigger]
        is_framed(emits, plan, plain, blocks, index) && archive_error(
            archive_container(plan, keys, memory_limit, blocks, index),
            blocks,
            headers,
        ) == Some(error)
}

/// Emits the blocks of an archive and frames them.
fn write_blocks<S: Fn(Vec<u8>) -> Result<Vec<u8>>, P: WriteProgress>(
    plan: &EnginePlan<'_>,
    keys: Option<HeaderKeys>,
    memory_limit: u64,
    plain: Vec<PreparedBlock>,
    resources: &mut WriterResources,
    seal: &S,
    progress: Option<&P>,
) -> (r: Result<Vec<u8>>)
    requires
        is_sealing(*seal, plan.header_encrypted),
        headers_fit(plain@),
        takes_recovery(progress),
    ensures
        r is Ok ==> is_told(progress, emission_event(true)),
        match r {
            Ok(out) => is_archive(
                emission_by(*seal),
                *plan,
                keys,
                memory_limit,
                old(resources)@,
                blocks_view(plain@),
                out@,
            ),
            Err(error) => is_stopped_by(progress, r) || seal_fails(*seal, error) || is_archive_error(
                emission_by(*seal),
                *plan,
                keys,
                memory_limit,
                old(resources)@,
                blocks_view(plain@),
                error,
            ),
        },
        final(resources)@ == old(resources)@,
{
    let ghost emits = emission_by(*seal);
    let ghost given = blocks_view(plain@);
    let blocks = match emit_blocks(plain, seal, plan.header_encrypted) {
        Ok(blocks) => blocks,
        Err(error) => {
            return Err(error);
        },
    };
    let ghost view = blocks_view(blocks@);
    let total: u64 = match body_len(&blocks) {
        Ok(total) => total,
        Err(error) => {
            assert(are_emitted_blocks(emits, given, view));
            return Err(error);
        },
    };
    let index: Option<PreparedBlock> = if plan.quick_open {
        match quick_open_block(&blocks, total, seal, plan.header_encrypted) {
            Ok(block) => Some(block),
            Err(error) => {
                return Err(error);
            },
        }
    } else {
        None
    };
    let mut main_flags: u64 = 0;
    if plan.locked {
        main_flags = main_flags + MHFL_LOCKED;
    }
    if plan.compress.solid {
        main_flags = main_flags + MHFL_SOLID;
    }
    if plan.recovery_percent.is_some() {
        main_flags = main_flags + MHFL_RECOVERY;
    }
    let crypt = head_crypt(keys);
    let body = write_body(&blocks);
    let container = Container {
        header_encrypted: plan.header_encrypted,
        head_crypt: &crypt,
        main_flags,
        volume_number: None,
        archive_metadata: plan.archive_metadata,
        metadata_record: plan.metadata_record,
        body: &body,
        quick_open: match &index {
            Some(block) => Some(block),
            None => None,
        },
        recovery_percent: plan.recovery_percent,
        memory_limit,
        end_flags: 0,
    };
    let ghost index_view = container@.quick_open;
    proof {
        assert(container@ == archive_container(*plan, keys, memory_limit, view, index_view));
        assert(is_framed(emits, *plan, given, view, index_view));
        assert(container@.is_sized());
    }
    let ghost start = resources@;
    let spooled: Option<u64> = archive_spool_bytes(&container, &blocks);
    let buffer: u64 = archive_buffer_bytes(&blocks);
    let ghost most = archive_spools(container@, view).peak;
    match retain(spooled, buffer, resources) {
        Ok(held) => {
            assert(retained(most, buffer, start) is Ok);
            let r = write_container(&container, seal, progress, progress);
            give_back(held, resources, Ghost(start));
            r
        },
        Err(error) => {
            assert(retained(most, buffer, start) is Err);
            Err(error)
        },
    }
}

/// What comes of writing an archive: a refusal of the request, of a block, of
/// headers beyond their quota or of a changed source; otherwise the archive, or what
/// it would hold, its framing or its headers fail with.
pub open spec fn archive_outcome<S: Fn(Vec<u8>) -> Result<Vec<u8>>>(
    seal: S,
    entries: Seq<ArchiveEntry>,
    works: Seq<MemberWork>,
    plan: EnginePlan<'_>,
    comment_seal: Option<EncryptedStoredPayload>,
    keys: Option<HeaderKeys>,
    resources: ResourcesView,
    r: std::result::Result<Seq<u8>, Error>,
) -> bool {
    match early_error(plan, entries, resources.is_stopped()) {
        Some(error) => r == Err::<Seq<u8>, Error>(error),
        None => match archive_blocks_of(plan, comment_seal, entries, works) {
            Err(error) => r == Err::<Seq<u8>, Error>(error),
            Ok(plain) => match admitted_headers(
                header_lens(plain, plan.header_encrypted),
                resources,
            ) {
                Err(error) => r == Err::<Seq<u8>, Error>(error),
                Ok(headers) => match works_error(works) {
                    Some(change) => r == Err::<Seq<u8>, Error>(change),
                    None => match r {
                        Ok(out) => is_archive(
                            emission_by(seal),
                            plan,
                            keys,
                            recovery_limit(resources),
                            headers,
                            plain,
                            out,
                        ),
                        Err(error) => seal_fails(seal, error) || is_archive_error(
                            emission_by(seal),
                            plan,
                            keys,
                            recovery_limit(resources),
                            headers,
                            plain,
                            error,
                        ),
                    },
                },
            },
        },
    }
}

/// Writes an archive.
///
/// `works` holds the members as they were compressed and encrypted, in the
/// order of `entries`. `seal` emits a header: as it is, or encrypted. All headers
/// are held until they are emitted, so they count against their quotas together.
pub fn write_archive<S: Fn(Vec<u8>) -> Result<Vec<u8>>, P: WriteProgress>(
    entries: &[ArchiveEntry],
    works: Vec<MemberWork>,
    plan: &EnginePlan<'_>,
    comment_seal: Option<EncryptedStoredPayload>,
    keys: Option<HeaderKeys>,
    resources: &mut WriterResources,
    seal: &S,
    progress: Option<&P>,
) -> (r: Result<Vec<u8>>)
    requires
        is_sealing(*seal, plan.header_encrypted),
        is_complete(entries@, works@),
        is_keyed_as_planned(*plan, comment_seal, keys),
        early_error(*plan, entries@, old(resources)@.is_stopped()) is None ==> takes_recovery(
            progress,
        ),
    ensures
        is_stopped_by(progress, r) || archive_outcome(
            *seal,
            entries@,
            works@,
            *plan,
            comment_seal,
            keys,
            old(resources)@,
            bytes_result(r),
        ),
        heeds(progress, early_error(*plan, entries@, old(resources)@.is_stopped()), r),
        r is Ok ==> is_told(progress, emission_event(true)),
        final(resources)@ == old(resources)@,
{
    let ghost given = works@;
    match validate_entries(entries) {
        Ok(()) => {},
        Err(error) => {
            return Err(error);
        },
    }
    match archive_header_password(plan.header_encrypted, plan.header_password, entries) {
        Ok(_) => {},
        Err(error) => {
            return Err(error);
        },
    }
    match check_cancelled(resources.is_cancelled()) {
        Ok(()) => {},
        Err(error) => {
            return Err(error);
        },
    }
    match ask(progress) {
        Ok(()) => {},
        Err(error) => {
            return Err(error);
        },
    }
    let checked = check_sources(&works);
    let limit: u64 = recovery_workspace(resources);
    let plain = match prepare_blocks(plan, comment_seal, entries, works) {
        Ok(plain) => plain,
        Err(error) => {
            return Err(error);
        },
    };
    let ghost start = resources@;
    let lens = measure_headers(&plain, plan.header_encrypted);
    match admit_headers(&lens, resources) {
        Ok(()) => {},
        Err(error) => {
            return Err(error);
        },
    }
    proof {
        assert(lens@.take(lens@.len() as int) =~= lens@);
        lemma_admission_keeps_the_limit(lens@, start);
    }
    let r = match checked {
        Ok(()) => write_blocks(plan, keys, limit, plain, resources, seal, progress),
        Err(error) => Err(error),
    };
    release_headers(&lens, lens.len(), resources, Ghost(start));
    r
}

/// The quick-open index of an archive whose headers are in the clear.
pub open spec fn plain_index(wanted: bool, blocks: Seq<BlockView>) -> Option<BlockView> {
    let payload = quick_open_payload(blocks, blocks_len(blocks));
    if wanted {
        Some(
            BlockView {
                header: service_image_of(
                    quick_open_name(),
                    payload.len() as u64,
                    crc32_of(payload),
                    Seq::empty(),
                )->Ok_0,
                payload,
                payload_len: payload.len() as u64,
                quick_open_cached: false,
                spooled: payload.len() as u64,
                buffer: 0,
            },
        )
    } else {
        None
    }
}

/// An archive whose headers are in the clear, or why there is none.
pub open spec fn plain_archive_of(
    plan: EnginePlan<'_>,
    memory_limit: u64,
    headers: ResourcesView,
    plain: Seq<BlockView>,
) -> std::result::Result<Seq<u8>, Error> {
    match body_len_of(plain) {
        Err(error) => Err(error),
        Ok(_) => {
            let container = archive_container(
                plan,
                None,
                memory_limit,
                plain,
                plain_index(plan.quick_open, plain),
            );
            match archive_error(container, plain, headers) {
                Some(error) => Err(error),
                None => container.plain_image(),
            }
        },
    }
}

pub proof fn lemma_clear_frame<S: Fn(Vec<u8>) -> Result<Vec<u8>>>(
    seal: S,
    plan: EnginePlan<'_>,
    plain: Seq<BlockView>,
    blocks: Seq<BlockView>,
    index: Option<BlockView>,
)
    requires
        is_clear(seal),
        is_framed(emission_by(seal), plan, plain, blocks, index),
    ensures
        blocks == plain,
        index == plain_index(plan.quick_open, plain),
{
    lemma_clear_blocks(seal, plain, blocks);
    if let Some(block) = index {
        let expected = plain_index(true, plain)->Some_0;
        assert(block =~= expected);
    }
}

/// Blocks whose headers are left in the clear are emitted as they are.
pub proof fn lemma_clear_blocks<S: Fn(Vec<u8>) -> Result<Vec<u8>>>(
    seal: S,
    plain: Seq<BlockView>,
    blocks: Seq<BlockView>,
)
    requires
        is_clear(seal),
        are_emitted_blocks(emission_by(seal), plain, blocks),
    ensures
        blocks == plain,
{
    assert forall|i: int| 0 <= i < plain.len() implies blocks[i] == plain[i] by {
        assert(is_emitted_block(emission_by(seal), plain[i], blocks[i]));
        assert(seals_to(seal, plain[i].header, blocks[i].header));
        assert(blocks[i] =~= plain[i]);
    }
    assert(blocks =~= plain);
}

/// Writes an archive whose headers are in the clear.
pub fn write_plain_archive(
    entries: &[ArchiveEntry],
    works: Vec<MemberWork>,
    plan: &EnginePlan<'_>,
    comment_seal: Option<EncryptedStoredPayload>,
    resources: &mut WriterResources,
) -> (r: Result<Vec<u8>>)
    requires
        !plan.header_encrypted,
        is_complete(entries@, works@),
        is_keyed_as_planned(*plan, comment_seal, None),
    ensures
        bytes_result(r) == (match early_error(*plan, entries@, old(resources)@.is_stopped()) {
            Some(error) => Err::<Seq<u8>, Error>(error),
            None => match archive_blocks_of(*plan, comment_seal, entries@, works@) {
                Err(error) => Err(error),
                Ok(plain) => match admitted_headers(header_lens(plain, false), old(resources)@) {
                    Err(error) => Err(error),
                    Ok(headers) => match works_error(works@) {
                        Some(error) => Err(error),
                        None => plain_archive_of(
                            *plan,
                            recovery_limit(old(resources)@),
                            headers,
                            plain,
                        ),
                    },
                },
            },
        }),
        final(resources)@ == old(resources)@,
{
    let ghost given = works@;
    let seal = |image: Vec<u8>| -> (r: Result<Vec<u8>>)
        ensures
            r == Ok::<Vec<u8>, Error>(image),
        { Ok(image) };
    let ghost start = resources@;
    let r = write_archive(
        entries,
        works,
        plan,
        comment_seal,
        None,
        resources,
        &seal,
        None::<&Unobserved>,
    );
    proof {
        if early_error(*plan, entries@, start.is_stopped()) is None && works_error(given) is None {
            if let Ok(plain) = archive_blocks_of(*plan, comment_seal, entries@, given) {
                if let Ok(headers) = admitted_headers(header_lens(plain, false), start) {
                    lemma_clear_archive(
                        seal,
                        *plan,
                        recovery_limit(start),
                        headers,
                        plain,
                        bytes_result(r),
                    );
                }
            }
        }
    }
    r
}

proof fn lemma_clear_archive<S: Fn(Vec<u8>) -> Result<Vec<u8>>>(
    seal: S,
    plan: EnginePlan<'_>,
    memory_limit: u64,
    headers: ResourcesView,
    plain: Seq<BlockView>,
    r: std::result::Result<Seq<u8>, Error>,
)
    requires
        is_clear(seal),
        match r {
            Ok(out) => is_archive(emission_by(seal), plan, None, memory_limit, headers, plain, out),
            Err(error) => seal_fails(seal, error) || is_archive_error(
                emission_by(seal),
                plan,
                None,
                memory_limit,
                headers,
                plain,
                error,
            ),
        },
    ensures
        r == plain_archive_of(plan, memory_limit, headers, plain),
{
    match r {
        Ok(out) => {
            lemma_clear_success(seal, plan, memory_limit, headers, plain, out);
        },
        Err(error) => {
            assert(!seal_fails(seal, error));
            lemma_clear_failure(seal, plan, memory_limit, headers, plain, error);
        },
    }
}

/// An archive whose headers are left in the clear is the plain archive.
pub proof fn lemma_clear_success<S: Fn(Vec<u8>) -> Result<Vec<u8>>>(
    seal: S,
    plan: EnginePlan<'_>,
    memory_limit: u64,
    headers: ResourcesView,
    plain: Seq<BlockView>,
    out: Seq<u8>,
)
    requires
        is_clear(seal),
        is_archive(emission_by(seal), plan, None, memory_limit, headers, plain, out),
    ensures
        plain_archive_of(plan, memory_limit, headers, plain) == Ok::<Seq<u8>, Error>(out),
{
    let emits = emission_by(seal);
    let (blocks, index) = choose|blocks: Seq<BlockView>, index: Option<BlockView>| #[trigger]
        is_framed(emits, plan, plain, blocks, index) && ({
            let container = archive_container(plan, None, memory_limit, blocks, index);
            archive_error(container, blocks, headers) is None && container.is_written_as(
                emits,
                out,
            )
        });
    lemma_clear_frame(seal, plan, plain, blocks, index);
    let container = archive_container(plan, None, memory_limit, blocks, index);
    lemma_clear_container(container, seal, out);
    law_plain_container_is_settled(container, out);
}

proof fn lemma_clear_failure<S: Fn(Vec<u8>) -> Result<Vec<u8>>>(
    seal: S,
    plan: EnginePlan<'_>,
    memory_limit: u64,
    headers: ResourcesView,
    plain: Seq<BlockView>,
    error: Error,
)
    requires
        is_clear(seal),
        is_archive_error(emission_by(seal), plan, None, memory_limit, headers, plain, error),
    ensures
        plain_archive_of(plan, memory_limit, headers, plain) == Err::<Seq<u8>, Error>(error),
{
    let emits = emission_by(seal);
    if exists|blocks: Seq<BlockView>| #[trigger]
        are_emitted_blocks(emits, plain, blocks) && body_len_of(blocks) == Err::<u64, Error>(
            error,
        ) {
        let blocks = choose|blocks: Seq<BlockView>| #[trigger]
            are_emitted_blocks(emits, plain, blocks) && body_len_of(blocks) == Err::<u64, Error>(
                error,
            );
        lemma_clear_blocks(seal, plain, blocks);
    } else {
        let (blocks, index) = choose|blocks: Seq<BlockView>, index: Option<BlockView>| #[trigger]
            is_framed(emits, plan, plain, blocks, index) && archive_error(
                archive_container(plan, None, memory_limit, blocks, index),
                blocks,
                headers,
            ) == Some(error);
        lemma_clear_frame(seal, plan, plain, blocks, index);
        let container = archive_container(plan, None, memory_limit, plain, index);
        assert(archive_error(container, plain, headers) == Some(error));
    }
}

} // verus!
