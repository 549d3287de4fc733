//! The framing of recovery shards in an archive.
//!
//! Each recovery shard is stored in a chunk of its own: a marker, a checksum
//! of all that follows, the geometry of the record, the checksum states of
//! the data shards, and the parity itself.
use vstd::prelude::*;

use crate::bytes::{
    byte_range, copy_bytes, le_bytes, le_value, lemma_byte_ranges, lemma_le_round_trip, lemma_le_value_bound,
    push_all, push_le, read_le,
};
use crate::recovery::rar5::crc64::{crc64_xz, crc64_xz_of};
use crate::recovery::rar5::error::{Error, Result};
use crate::recovery::rar5::plan::InlineRecoveryPlan;

verus! {

/// What a recovery chunk says.
#[verifier::ext_equal]
pub struct ChunkContent {
    pub plan: InlineRecoveryPlan,
    pub protected_size: u64,
    pub shard_index: int,
    pub data_shard_states: Seq<u64>,
    pub parity: Seq<u8>,
}

/// The marker `{RB}` that starts a chunk.
pub open spec fn marker() -> Seq<u8> {
    seq![0x7bu8, 0x52u8, 0x42u8, 0x7du8]
}

/// States as consecutive 64-bit numbers.
pub open spec fn states_bytes(states: Seq<u64>) -> Seq<u8>
    decreases states.len(),
{
    if states.len() == 0 {
        Seq::empty()
    } else {
        states_bytes(states.drop_last()) + le_bytes(states.last() as nat, 8)
    }
}

/// The fixed fields of a chunk between its checksum and the states.
pub open spec fn chunk_fields(
    plan: InlineRecoveryPlan,
    protected_size: u64,
    extent: u64,
    shard_index: int,
) -> Seq<u8> {
    le_bytes(plan.shard_size as nat, 4) + le_bytes(plan.header_size as nat, 4) + seq![1u8] + seq![
        1u8,
    ] + le_bytes(0, 8) + le_bytes(extent as nat, 4) + le_bytes(protected_size as nat, 8) + le_bytes(
        plan.group_count as nat,
        8,
    ) + le_bytes(plan.shard_size as nat, 8) + le_bytes(plan.data_shards as nat, 2) + le_bytes(
        plan.recovery_shards as nat,
        2,
    ) + le_bytes(shard_index as nat, 2)
}

/// The chunk's header behind the checksum.
pub open spec fn chunk_header_rest(
    content: ChunkContent,
    extent: u64,
    final_state: u64,
) -> Seq<u8> {
    chunk_fields(content.plan, content.protected_size, extent, content.shard_index) + states_bytes(
        content.data_shard_states,
    ) + le_bytes(final_state as nat, 8)
}

/// A whole chunk.
pub open spec fn chunk_bytes(content: ChunkContent, extent: u64, final_state: u64) -> Seq<u8> {
    let rest = chunk_header_rest(content, extent, final_state) + content.parity;
    marker() + le_bytes(crc64_xz_of(rest) as nat, 8) + rest
}

/// The number in `n` bytes from `at`.
pub open spec fn number_at(input: Seq<u8>, at: int, n: int) -> nat {
    le_value(input.subrange(at, at + n))
}

/// `count` 64-bit numbers from `at`.
pub open spec fn states_at(input: Seq<u8>, at: int, count: nat) -> Seq<u64> {
    Seq::new(count, |i: int| number_at(input, at + 8 * i, 8) as u64)
}

/// The plan that a chunk's fields state.
pub open spec fn plan_at(input: Seq<u8>) -> InlineRecoveryPlan {
    InlineRecoveryPlan {
        data_shards: number_at(input, 0x3a, 2) as u64,
        recovery_shards: number_at(input, 0x3c, 2) as u64,
        group_count: number_at(input, 0x2a, 8) as u64,
        header_size: number_at(input, 0x10, 4) as u64,
        shard_size: number_at(input, 0x32, 8) as u64,
    }
}

/// The chunk at the start of `input`, or why there is none.
#[verifier::opaque]
pub open spec fn parsed_chunk(input: Seq<u8>) -> core::result::Result<ChunkContent, Error> {
    let total_size = number_at(input, 0x0c, 4) as int;
    let plan = plan_at(input);
    let shard_index = number_at(input, 0x3e, 2) as int;
    if input.len() < 0x48 || input.take(4) != marker() {
        Err(Error::BadRecoveryChunk)
    } else if plan.header_size < 0x48 || plan.header_size > total_size {
        Err(Error::BadRecoveryChunk)
    } else if input.len() < total_size {
        Err(Error::BadRecoveryChunk)
    } else if crc64_xz_of(input.subrange(0x0c, total_size)) != number_at(input, 0x04, 8) {
        Err(Error::BadRecoveryChunk)
    } else if input[0x14] != 1 || input[0x15] != 1 {
        Err(Error::BadRecoveryChunk)
    } else if plan.recovery_shards * plan.shard_size > u64::MAX {
        Err(Error::PlanOverflow)
    } else if plan.shard_size != total_size || shard_index >= plan.recovery_shards
        || plan.header_size != 0x48 + 8 * plan.data_shards {
        Err(Error::BadRecoveryChunk)
    } else if total_size - plan.header_size != plan.group_count {
        Err(Error::BadRecoveryChunk)
    } else {
        Ok(
            ChunkContent {
                plan,
                protected_size: number_at(input, 0x22, 8) as u64,
                shard_index,
                data_shard_states: states_at(input, 0x40, plan.data_shards as nat),
                parity: input.subrange(plan.header_size as int, total_size),
            },
        )
    }
}

/// A parsed recovery chunk.
#[derive(Debug)]
pub struct InlineRecoveryChunk {
    pub plan: InlineRecoveryPlan,
    pub protected_size: u64,
    pub shard_index: usize,
    pub data_shard_states: Vec<u64>,
    pub parity: Vec<u8>,
}

impl View for InlineRecoveryChunk {
    type V = ChunkContent;

    open spec fn view(&self) -> ChunkContent {
        ChunkContent {
            plan: self.plan,
            protected_size: self.protected_size,
            shard_index: self.shard_index as int,
            data_shard_states: self.data_shard_states@,
            parity: self.parity@,
        }
    }
}

/// Is the marker at the start of `input`?
fn starts_with_marker(input: &[u8]) -> (found: bool)
    ensures
        found == (input@.len() >= 4 && input@.take(4) == marker()),
{
    if input.len() >= 4 && input[0] == 0x7b && input[1] == 0x52 && input[2] == 0x42 && input[3]
        == 0x7d {
        assert(input@.take(4) =~= marker());
        true
    } else {
        proof {
            if input@.len() >= 4 && input@.take(4) == marker() {
                assert(input@.take(4)[0] == 0x7b);
                assert(input@.take(4)[1] == 0x52);
                assert(input@.take(4)[2] == 0x42);
                assert(input@.take(4)[3] == 0x7d);
            }
        }
        false
    }
}

/// Parses the chunk at the start of `input`.
pub fn parse_inline_recovery_chunk(input: &[u8]) -> (result: Result<InlineRecoveryChunk>)
    ensures
        match parsed_chunk(input@) {
            Ok(content) => result is Ok && result->Ok_0@ == content,
            Err(error) => result is Err && result->Err_0 == error,
        },
{
    proof {
        reveal(parsed_chunk);
        lemma_byte_ranges();
    }
    if input.len() < 0x48 || !starts_with_marker(input) {
        return Err(Error::BadRecoveryChunk);
    }
    let total_size: u64 = read_le(input, 0x0c, 4);
    let header_size: u64 = read_le(input, 0x10, 4);
    if header_size < 0x48 || header_size > total_size {
        return Err(Error::BadRecoveryChunk);
    }
    let total: usize = total_size as usize;
    let header: usize = header_size as usize;
    if input.len() < total {
        return Err(Error::BadRecoveryChunk);
    }
    let expected_crc: u64 = read_le(input, 0x04, 8);
    let actual_crc: u64 = crc64_xz(vstd::slice::slice_subrange(input, 0x0c, total));
    if actual_crc != expected_crc {
        return Err(Error::BadRecoveryChunk);
    }
    if input[0x14] != 1 || input[0x15] != 1 {
        return Err(Error::BadRecoveryChunk);
    }
    let protected_size: u64 = read_le(input, 0x22, 8);
    let group_count: u64 = read_le(input, 0x2a, 8);
    let shard_size: u64 = read_le(input, 0x32, 8);
    let data_shards: u64 = read_le(input, 0x3a, 2);
    let recovery_shards: u64 = read_le(input, 0x3c, 2);
    let shard_index: usize = read_le(input, 0x3e, 2) as usize;
    let plan = InlineRecoveryPlan {
        data_shards,
        recovery_shards,
        group_count,
        header_size,
        shard_size,
    };
    if plan.payload_size().is_err() {
        return Err(Error::PlanOverflow);
    }
    if shard_size != total_size || shard_index as u64 >= recovery_shards || header_size != 0x48
        + data_shards * 8 {
        return Err(Error::BadRecoveryChunk);
    }
    if total_size - header_size != group_count {
        return Err(Error::BadRecoveryChunk);
    }
    let count: usize = data_shards as usize;
    let mut data_shard_states: Vec<u64> = Vec::with_capacity(count);
    let mut i: usize = 0;
    while i < count
        invariant
            i <= count,
            0x48 + 8 * count <= input@.len(),
            data_shard_states@.len() == i,
            forall|k: int|
                0 <= k < i ==> #[trigger] data_shard_states@[k] == number_at(
                    input@,
                    0x40 + 8 * k,
                    8,
                ) as u64,
        decreases count - i,
    {
        let total_len: usize = input.len();
        data_shard_states.push(read_le(input, 0x40 + 8 * i, 8));
        i += 1;
    }
    let parity = copy_bytes(vstd::slice::slice_subrange(input, header, total));
    assert(data_shard_states@ =~= states_at(input@, 0x40, count as nat));
    Ok(InlineRecoveryChunk { plan, protected_size, shard_index, data_shard_states, parity })
}

/// A chunk and where it was found.
#[derive(Debug)]
pub struct FoundInlineRecoveryChunk {
    pub offset: usize,
    pub chunk: InlineRecoveryChunk,
}

/// The position and content of a found chunk.
#[verifier::ext_equal]
pub struct FoundContent {
    pub offset: int,
    pub content: ChunkContent,
}

impl View for FoundInlineRecoveryChunk {
    type V = FoundContent;

    open spec fn view(&self) -> FoundContent {
        FoundContent { offset: self.offset as int, content: self.chunk@ }
    }
}

/// All chunks from `offset` on: wherever a valid chunk starts it is taken
/// whole, and any other byte is passed over.
pub open spec fn chunks_from(input: Seq<u8>, offset: int) -> Seq<FoundContent>
    decreases input.len() - offset,
{
    if offset < 0 || offset >= input.len() {
        Seq::empty()
    } else {
        proof {
            lemma_parsed_chunk_size(input.skip(offset));
        }
        match parsed_chunk(input.skip(offset)) {
            Ok(content) => seq![FoundContent { offset, content }] + chunks_from(
                input,
                offset + content.plan.shard_size,
            ),
            Err(_) => chunks_from(input, offset + 1),
        }
    }
}

/// The marker is at this position.
pub open spec fn marker_at(input: Seq<u8>, at: int) -> bool {
    0 <= at && at + 4 <= input.len() && input.subrange(at, at + 4) == marker()
}

/// Finds the first marker.
pub fn find_recovery_marker(input: &[u8]) -> (position: Option<usize>)
    ensures
        match position {
            Some(at) => marker_at(input@, at as int) && forall|k: int|
                0 <= k < at ==> !#[trigger] marker_at(input@, k),
            None => forall|k: int| !#[trigger] marker_at(input@, k),
        },
{
    let len: usize = input.len();
    if len < 4 {
        return None;
    }
    let mut at: usize = 0;
    while at <= len - 4
        invariant
            at <= len,
            4 <= len,
            len == input@.len(),
            forall|k: int| 0 <= k < at ==> !#[trigger] marker_at(input@, k),
        decreases len - at,
    {
        if input[at] == 0x7b && input[at + 1] == 0x52 && input[at + 2] == 0x42 && input[at + 3]
            == 0x7d {
            assert(input@.subrange(at as int, at + 4) =~= marker());
            return Some(at);
        }
        proof {
            if marker_at(input@, at as int) {
                let s = input@.subrange(at as int, at + 4);
                assert(s[0] == 0x7b && s[1] == 0x52 && s[2] == 0x42 && s[3] == 0x7d);
            }
        }
        at += 1;
    }
    None
}

/// Where no marker is, no chunk is.
proof fn lemma_no_marker_no_chunk(input: Seq<u8>, from: int, to: int)
    requires
        0 <= from <= to <= input.len(),
        forall|k: int| from <= k < to ==> !#[trigger] marker_at(input, k),
    ensures
        chunks_from(input, from) == chunks_from(input, to),
    decreases to - from,
{
    if from < to {
        assert(!marker_at(input, from));
        let rest = input.skip(from);
        if rest.len() >= 4 {
            assert(rest.take(4) =~= input.subrange(from, from + 4));
        }
        assert(parsed_chunk(rest) is Err) by {
            reveal(parsed_chunk);
        }
        lemma_no_marker_no_chunk(input, from + 1, to);
    }
}

/// A chunk has a size, and its input is that long.
pub proof fn lemma_parsed_chunk_size(input: Seq<u8>)
    ensures
        parsed_chunk(input) matches Ok(chunk) ==> 0x48 <= chunk.plan.shard_size <= input.len(),
{
    reveal(parsed_chunk);
    if parsed_chunk(input) is Ok {
        lemma_byte_ranges();
        lemma_le_value_bound(input.subrange(0x32, 0x3a));
        lemma_le_value_bound(input.subrange(0x10, 0x14));
    }
}

/// The contents of found chunks.
pub open spec fn found_view(chunks: Seq<FoundInlineRecoveryChunk>) -> Seq<FoundContent> {
    Seq::new(chunks.len(), |i: int| chunks[i]@)
}

/// Finds every chunk.
pub fn find_inline_recovery_chunks(input: &[u8]) -> (result: Result<
    Vec<FoundInlineRecoveryChunk>,
>)
    ensures
        ({
            let found = chunks_from(input@, 0);
            if found.len() == 0 {
                result is Err && result->Err_0 == Error::BadRecoveryChunk
            } else {
                result is Ok && found_view(result->Ok_0@) == found
            }
        }),
{
    let len: usize = input.len();
    let mut chunks: Vec<FoundInlineRecoveryChunk> = Vec::new();
    let mut offset: usize = 0;
    assert(found_view(chunks@) + chunks_from(input@, 0) =~= chunks_from(input@, 0));
    while offset < len
        invariant
            offset <= len,
            len == input@.len(),
            found_view(chunks@) + chunks_from(input@, offset as int) == chunks_from(input@, 0),
        decreases len - offset,
    {
        let rest = vstd::slice::slice_subrange(input, offset, len);
        let ghost before = offset as int;
        match find_recovery_marker(rest) {
            None => {
                proof {
                    assert forall|k: int| offset <= k < len implies !#[trigger] marker_at(
                        input@,
                        k,
                    ) by {
                        if marker_at(input@, k) {
                            assert(rest@.subrange(k - offset, k - offset + 4) =~= input@.subrange(
                                k,
                                k + 4,
                            ));
                            assert(marker_at(rest@, k - offset));
                        }
                    }
                    lemma_no_marker_no_chunk(input@, offset as int, len as int);
                }
                offset = len;
            },
            Some(relative) => {
                proof {
                    assert forall|k: int| offset <= k < offset + relative implies !#[trigger] marker_at(
                        input@,
                        k,
                    ) by {
                        if marker_at(input@, k) {
                            assert(rest@.subrange(k - offset, k - offset + 4) =~= input@.subrange(
                                k,
                                k + 4,
                            ));
                            assert(marker_at(rest@, k - offset));
                        }
                    }
                    lemma_no_marker_no_chunk(input@, offset as int, offset + relative);
                }
                let start: usize = offset + relative;
                let tail = vstd::slice::slice_subrange(input, start, len);
                assert(tail@ =~= input@.skip(start as int));
                proof {
                    lemma_parsed_chunk_size(tail@);
                }
                match parse_inline_recovery_chunk(tail) {
                    Ok(chunk) => {
                        let ghost content = chunk@;
                        let size: usize = chunk.plan.shard_size as usize;
                        let ghost known = found_view(chunks@);
                        chunks.push(FoundInlineRecoveryChunk { offset: start, chunk });
                        offset = start + size;
                        proof {
                            let one = seq![FoundContent { offset: start as int, content }];
                            assert(found_view(chunks@) =~= known + one);
                            assert(known + (one + chunks_from(input@, offset as int)) =~= (known
                                + one) + chunks_from(input@, offset as int));
                        }
                    },
                    Err(_) => {
                        offset = start + 1;
                    },
                }
            },
        }
    }
    assert(chunks_from(input@, offset as int) =~= Seq::empty());
    assert(found_view(chunks@) + Seq::<FoundContent>::empty() =~= found_view(chunks@));
    if chunks.len() == 0 {
        return Err(Error::BadRecoveryChunk);
    }
    Ok(chunks)
}

pub proof fn lemma_states_len(states: Seq<u64>)
    ensures
        states_bytes(states).len() == 8 * states.len(),
    decreases states.len(),
{
    if states.len() > 0 {
        lemma_states_len(states.drop_last());
        lemma_le_round_trip(states.last() as nat, 8);
    }
}

pub proof fn lemma_state_bytes(states: Seq<u64>, i: int)
    requires
        0 <= i < states.len(),
    ensures
        states_bytes(states).len() == 8 * states.len(),
        states_bytes(states).subrange(8 * i, 8 * i + 8) == le_bytes(states[i] as nat, 8),
    decreases states.len(),
{
    lemma_states_len(states);
    lemma_le_round_trip(states.last() as nat, 8);
    let fewer = states_bytes(states.drop_last());
    lemma_states_len(states.drop_last());
    if i == states.len() - 1 {
        assert(states_bytes(states).subrange(8 * i, 8 * i + 8) =~= le_bytes(states[i] as nat, 8));
    } else {
        lemma_state_bytes(states.drop_last(), i);
        assert(states_bytes(states).subrange(8 * i, 8 * i + 8) =~= fewer.subrange(8 * i, 8 * i + 8));
    }
}

/// The fields of a chunk agree with each other and fit their widths.
pub open spec fn content_consistent(content: ChunkContent, extent: u64) -> bool {
    &&& content.plan.shard_size < 0x1_0000_0000
    &&& content.plan.data_shards < 0x1_0000
    &&& content.plan.recovery_shards < 0x1_0000
    &&& content.plan.header_size == 0x48 + 8 * content.plan.data_shards
    &&& content.plan.shard_size == content.plan.header_size + content.plan.group_count
    &&& 0 <= content.shard_index < content.plan.recovery_shards
    &&& content.data_shard_states.len() == content.plan.data_shards
    &&& content.parity.len() == content.plan.group_count
    &&& extent < 0x1_0000_0000
}

proof fn lemma_number_at(whole: Seq<u8>, at: int, n: nat, v: nat)
    requires
        0 <= at,
        at + n <= whole.len(),
        whole.subrange(at, at + n) == le_bytes(v, n),
        v < byte_range(n),
    ensures
        number_at(whole, at, n as int) == v,
{
    lemma_le_round_trip(v, n);
}

/// Where each field of a chunk lies.
pub proof fn lemma_chunk_layout(content: ChunkContent, extent: u64, final_state: u64)
    requires
        content_consistent(content, extent),
    ensures
        ({
            let plan = content.plan;
            let rest = chunk_header_rest(content, extent, final_state) + content.parity;
            let c = chunk_bytes(content, extent, final_state);
            &&& c.len() == plan.shard_size
            &&& rest.len() == plan.shard_size - 0x0c
            &&& c.take(4) == marker()
            &&& c.subrange(0x04, 0x0c) == le_bytes(crc64_xz_of(rest) as nat, 8)
            &&& c.skip(0x0c) == rest
            &&& c.subrange(0x0c, 0x10) == le_bytes(plan.shard_size as nat, 4)
            &&& c.subrange(0x10, 0x14) == le_bytes(plan.header_size as nat, 4)
            &&& c[0x14] == 1
            &&& c[0x15] == 1
            &&& c.subrange(0x22, 0x2a) == le_bytes(content.protected_size as nat, 8)
            &&& c.subrange(0x2a, 0x32) == le_bytes(plan.group_count as nat, 8)
            &&& c.subrange(0x32, 0x3a) == le_bytes(plan.shard_size as nat, 8)
            &&& c.subrange(0x3a, 0x3c) == le_bytes(plan.data_shards as nat, 2)
            &&& c.subrange(0x3c, 0x3e) == le_bytes(plan.recovery_shards as nat, 2)
            &&& c.subrange(0x3e, 0x40) == le_bytes(content.shard_index as nat, 2)
            &&& c.subrange(0x40, 0x40 + 8 * plan.data_shards) == states_bytes(
                content.data_shard_states,
            )
            &&& c.skip(plan.header_size as int) == content.parity
        }),
{
    let plan = content.plan;
    let rest = chunk_header_rest(content, extent, final_state) + content.parity;
    let c = chunk_bytes(content, extent, final_state);
    lemma_le_round_trip(crc64_xz_of(rest) as nat, 8);
    lemma_le_round_trip(plan.shard_size as nat, 4);
    lemma_le_round_trip(plan.header_size as nat, 4);
    lemma_le_round_trip(0, 8);
    lemma_le_round_trip(extent as nat, 4);
    lemma_le_round_trip(content.protected_size as nat, 8);
    lemma_le_round_trip(plan.group_count as nat, 8);
    lemma_le_round_trip(plan.shard_size as nat, 8);
    lemma_le_round_trip(plan.data_shards as nat, 2);
    lemma_le_round_trip(plan.recovery_shards as nat, 2);
    lemma_le_round_trip(content.shard_index as nat, 2);
    lemma_le_round_trip(final_state as nat, 8);
    lemma_states_len(content.data_shard_states);
    assert(c.take(4) =~= marker());
    assert(c.subrange(0x04, 0x0c) =~= le_bytes(crc64_xz_of(rest) as nat, 8));
    assert(c.skip(0x0c) =~= rest);
    assert(c.subrange(0x0c, 0x10) =~= le_bytes(plan.shard_size as nat, 4));
    assert(c.subrange(0x10, 0x14) =~= le_bytes(plan.header_size as nat, 4));
    assert(c.subrange(0x22, 0x2a) =~= le_bytes(content.protected_size as nat, 8));
    assert(c.subrange(0x2a, 0x32) =~= le_bytes(plan.group_count as nat, 8));
    assert(c.subrange(0x32, 0x3a) =~= le_bytes(plan.shard_size as nat, 8));
    assert(c.subrange(0x3a, 0x3c) =~= le_bytes(plan.data_shards as nat, 2));
    assert(c.subrange(0x3c, 0x3e) =~= le_bytes(plan.recovery_shards as nat, 2));
    assert(c.subrange(0x3e, 0x40) =~= le_bytes(content.shard_index as nat, 2));
    assert(c.subrange(0x40, 0x40 + 8 * plan.data_shards) =~= states_bytes(
        content.data_shard_states,
    ));
    assert(c.skip(plan.header_size as int) =~= content.parity);
}

/// Parsing gives back what was framed, whatever follows it.
pub proof fn law_parse_of_framed_chunk(
    content: ChunkContent,
    extent: u64,
    final_state: u64,
    after: Seq<u8>,
)
    requires
        content_consistent(content, extent),
    ensures
        parsed_chunk(chunk_bytes(content, extent, final_state) + after) == Ok::<
            ChunkContent,
            Error,
        >(content),
        chunk_bytes(content, extent, final_state).len() == content.plan.shard_size,
{
    let plan = content.plan;
    let rest = chunk_header_rest(content, extent, final_state) + content.parity;
    let c = chunk_bytes(content, extent, final_state);
    let input = c + after;
    reveal(parsed_chunk);
    lemma_byte_ranges();
    lemma_chunk_layout(content, extent, final_state);
    assert(input.take(4) =~= c.take(4));
    assert(input.subrange(0x04, 0x0c) =~= c.subrange(0x04, 0x0c));
    assert(input.subrange(0x0c, 0x10) =~= c.subrange(0x0c, 0x10));
    assert(input.subrange(0x10, 0x14) =~= c.subrange(0x10, 0x14));
    assert(input.subrange(0x22, 0x2a) =~= c.subrange(0x22, 0x2a));
    assert(input.subrange(0x2a, 0x32) =~= c.subrange(0x2a, 0x32));
    assert(input.subrange(0x32, 0x3a) =~= c.subrange(0x32, 0x3a));
    assert(input.subrange(0x3a, 0x3c) =~= c.subrange(0x3a, 0x3c));
    assert(input.subrange(0x3c, 0x3e) =~= c.subrange(0x3c, 0x3e));
    assert(input.subrange(0x3e, 0x40) =~= c.subrange(0x3e, 0x40));
    lemma_number_at(input, 0x04, 8, crc64_xz_of(rest) as nat);
    lemma_number_at(input, 0x0c, 4, plan.shard_size as nat);
    lemma_number_at(input, 0x10, 4, plan.header_size as nat);
    lemma_number_at(input, 0x22, 8, content.protected_size as nat);
    lemma_number_at(input, 0x2a, 8, plan.group_count as nat);
    lemma_number_at(input, 0x32, 8, plan.shard_size as nat);
    lemma_number_at(input, 0x3a, 2, plan.data_shards as nat);
    lemma_number_at(input, 0x3c, 2, plan.recovery_shards as nat);
    lemma_number_at(input, 0x3e, 2, content.shard_index as nat);
    assert(plan_at(input) == plan);
    assert(input.subrange(0x0c, plan.shard_size as int) =~= rest) by {
        assert(c.skip(0x0c) =~= rest);
        assert(input.subrange(0x0c, plan.shard_size as int) =~= c.skip(0x0c));
    }
    assert(input.subrange(plan.header_size as int, plan.shard_size as int) =~= content.parity) by {
        assert(input.subrange(plan.header_size as int, plan.shard_size as int) =~= c.skip(
            plan.header_size as int,
        ));
    }
    let states = content.data_shard_states;
    assert forall|i: int| 0 <= i < plan.data_shards implies #[trigger] states_at(
        input,
        0x40,
        plan.data_shards as nat,
    )[i] == states[i] by {
        lemma_state_bytes(states, i);
        let all = c.subrange(0x40, 0x40 + 8 * plan.data_shards);
        assert(input.subrange(0x40 + 8 * i, 0x40 + 8 * i + 8) =~= all.subrange(8 * i, 8 * i + 8));
        lemma_number_at(input, 0x40 + 8 * i, 8, states[i] as nat);
    }
    assert(states_at(input, 0x40, plan.data_shards as nat) =~= states);
    assert(plan.recovery_shards * plan.shard_size <= u64::MAX) by (nonlinear_arith)
        requires
            plan.recovery_shards < 0x1_0000,
            plan.shard_size < 0x1_0000_0000,
    ;
}

/// Appends the header of a chunk behind its checksum.
pub fn push_chunk_header_rest(
    out: &mut Vec<u8>,
    plan: InlineRecoveryPlan,
    protected_size: u64,
    extent: u64,
    shard_index: usize,
    states: &[u64],
    final_state: u64,
)
    ensures
        final(out)@ == old(out)@ + (chunk_fields(plan, protected_size, extent, shard_index as int)
            + states_bytes(states@) + le_bytes(final_state as nat, 8)),
{
    let ghost before = out@;
    let mut fields: Vec<u8> = Vec::new();
    push_le(&mut fields, plan.shard_size, 4);
    push_le(&mut fields, plan.header_size, 4);
    fields.push(1);
    fields.push(1);
    push_le(&mut fields, 0, 8);
    push_le(&mut fields, extent, 4);
    push_le(&mut fields, protected_size, 8);
    push_le(&mut fields, plan.group_count, 8);
    push_le(&mut fields, plan.shard_size, 8);
    push_le(&mut fields, plan.data_shards, 2);
    push_le(&mut fields, plan.recovery_shards, 2);
    push_le(&mut fields, shard_index as u64, 2);
    assert(fields@ =~= chunk_fields(plan, protected_size, extent, shard_index as int));
    let ghost head = fields@;
    let mut i: usize = 0;
    assert(states@.take(0) =~= Seq::empty());
    assert(head + states_bytes(states@.take(0)) =~= head);
    while i < states.len()
        invariant
            i <= states@.len(),
            fields@ == head + states_bytes(states@.take(i as int)),
        decreases states@.len() - i,
    {
        push_le(&mut fields, states[i], 8);
        proof {
            let next = states@.take(i + 1);
            assert(next.drop_last() =~= states@.take(i as int));
            assert(fields@ =~= head + states_bytes(next));
        }
        i += 1;
    }
    assert(states@.take(states@.len() as int) =~= states@);
    push_le(&mut fields, final_state, 8);
    push_all(out, fields.as_slice());
}

/// Appends a whole chunk.
pub fn append_framed_chunk(
    out: &mut Vec<u8>,
    plan: InlineRecoveryPlan,
    protected_size: u64,
    extent: u64,
    shard_index: usize,
    states: &[u64],
    final_state: u64,
    parity: &[u8],
)
    ensures
        final(out)@ == old(out)@ + chunk_bytes(
            (ChunkContent {
                plan,
                protected_size,
                shard_index: shard_index as int,
                data_shard_states: states@,
                parity: parity@,
            }),
            extent,
            final_state,
        ),
{
    let ghost before = out@;
    let ghost content = ChunkContent {
        plan,
        protected_size,
        shard_index: shard_index as int,
        data_shard_states: states@,
        parity: parity@,
    };
    let mut rest: Vec<u8> = Vec::new();
    push_chunk_header_rest(
        &mut rest,
        plan,
        protected_size,
        extent,
        shard_index,
        states,
        final_state,
    );
    push_all(&mut rest, parity);
    assert(rest@ =~= chunk_header_rest(content, extent, final_state) + content.parity);
    let checksum: u64 = crc64_xz(rest.as_slice());
    out.push(0x7b);
    out.push(0x52);
    out.push(0x42);
    out.push(0x7d);
    push_le(out, checksum, 8);
    push_all(out, rest.as_slice());
    assert(out@ =~= before + chunk_bytes(content, extent, final_state));
}

} // verus!
