//! Where everything stands in a recovery chunk.

use vstd::prelude::*;

#[allow(unused_imports)]
use crate::bytes::{le_bytes, lemma_le_round_trip};
#[allow(unused_imports)]
use crate::rar50::reader::{lemma_read_eight, lemma_read_four, read_four};
#[allow(unused_imports)]
use crate::recovery::rar5::chunk::{
    chunk_bytes, chunk_header_rest, content_consistent, lemma_chunk_layout, lemma_state_bytes,
    lemma_states_len, marker, ChunkContent,
};
#[allow(unused_imports)]
use crate::recovery::rar5::crc64::crc64_xz_of;

verus! {

/// Two bytes of a chunk as a number, the lowest first.
#[verifier::opaque]
pub open spec fn two_at(bytes: Seq<u8>, at: int) -> int {
    bytes[at] + 0x100 * bytes[at + 1]
}

/// Four bytes.
#[verifier::opaque]
pub open spec fn four_at(bytes: Seq<u8>, at: int) -> int {
    bytes[at] + 0x100 * bytes[at + 1] + 0x1_0000 * bytes[at + 2] + 0x100_0000 * bytes[at + 3]
}

/// Eight bytes.
#[verifier::opaque]
pub open spec fn eight_at(bytes: Seq<u8>, at: int) -> int {
    four_at(bytes, at) + 0x1_0000_0000 * four_at(bytes, at + 4)
}

proof fn lemma_two_at(bytes: Seq<u8>, at: int, value: nat)
    requires
        0 <= at,
        at + 2 <= bytes.len(),
        bytes.subrange(at, at + 2) == le_bytes(value, 2),
        value < 0x1_0000,
    ensures
        two_at(bytes, at) == value,
{
    reveal(two_at);
    reveal_with_fuel(le_bytes, 3);
    let part = bytes.subrange(at, at + 2);
    assert(part[0] == bytes[at] && part[1] == bytes[at + 1]);
    assert(part[0] == (value % 256) as u8);
    assert(part[1] == (value / 256 % 256) as u8);
}

proof fn lemma_four_at(bytes: Seq<u8>, at: int, value: nat)
    requires
        0 <= at,
        at + 4 <= bytes.len(),
        bytes.subrange(at, at + 4) == le_bytes(value, 4),
    ensures
        four_at(bytes, at) == value % 0x1_0000_0000,
{
    reveal(four_at);
    let part = bytes.subrange(at, at + 4);
    lemma_read_four(value, Seq::empty());
    assert(part + Seq::<u8>::empty() =~= part);
    reveal(read_four);
    assert(part[0] == bytes[at] && part[1] == bytes[at + 1] && part[2] == bytes[at + 2] && part[3]
        == bytes[at + 3]);
}

proof fn lemma_eight_at(bytes: Seq<u8>, at: int, value: u64)
    requires
        0 <= at,
        at + 8 <= bytes.len(),
        bytes.subrange(at, at + 8) == le_bytes(value as nat, 8),
    ensures
        eight_at(bytes, at) == value,
{
    reveal(four_at);
    reveal(eight_at);
    let part = bytes.subrange(at, at + 8);
    lemma_read_eight(value, Seq::empty());
    assert(part + Seq::<u8>::empty() =~= part);
    reveal(read_four);
    assert(part.skip(4)[0] == bytes[at + 4] && part.skip(4)[1] == bytes[at + 5] && part.skip(
        4,
    )[2] == bytes[at + 6] && part.skip(4)[3] == bytes[at + 7]);
    assert(part[0] == bytes[at] && part[1] == bytes[at + 1] && part[2] == bytes[at + 2] && part[3]
        == bytes[at + 3]);
}

/// The fields that a parser does not need.
proof fn lemma_more_layout(content: ChunkContent, extent: u64, final_state: u64)
    requires
        content_consistent(content, extent),
    ensures
        ({
            let plan = content.plan;
            let c = chunk_bytes(content, extent, final_state);
            &&& c.len() == plan.shard_size
            &&& c.subrange(0x16, 0x1e) == le_bytes(0, 8)
            &&& c.subrange(0x1e, 0x22) == le_bytes(extent as nat, 4)
            &&& c.subrange(plan.header_size - 8, plan.header_size as int) == le_bytes(
                final_state as nat,
                8,
            )
        }),
{
    let plan = content.plan;
    let c = chunk_bytes(content, extent, final_state);
    lemma_chunk_layout(content, extent, final_state);
    lemma_le_round_trip(plan.shard_size as nat, 4);
    lemma_le_round_trip(plan.header_size as nat, 4);
    lemma_le_round_trip(0, 8);
    lemma_le_round_trip(extent as nat, 4);
    lemma_le_round_trip(content.protected_size as nat, 8);
    lemma_le_round_trip(plan.group_count as nat, 8);
    lemma_le_round_trip(plan.shard_size as nat, 8);
    lemma_le_round_trip(plan.data_shards as nat, 2);
    lemma_le_round_trip(plan.recovery_shards as nat, 2);
    lemma_le_round_trip(content.shard_index as nat, 2);
    lemma_le_round_trip(final_state as nat, 8);
    lemma_states_len(content.data_shard_states);
    let rest = chunk_header_rest(content, extent, final_state) + content.parity;
    assert(rest.subrange(10, 18) =~= le_bytes(0, 8));
    assert(rest.subrange(18, 22) =~= le_bytes(extent as nat, 4));
    assert(rest.subrange(plan.header_size - 20, plan.header_size - 12) =~= le_bytes(
        final_state as nat,
        8,
    ));
    assert(c.subrange(0x16, 0x1e) =~= c.skip(0x0c).subrange(10, 18));
    assert(c.subrange(0x1e, 0x22) =~= c.skip(0x0c).subrange(18, 22));
    assert(c.subrange(plan.header_size - 8, plan.header_size as int) =~= c.skip(0x0c).subrange(
        plan.header_size - 20,
        plan.header_size - 12,
    ));
}

proof fn lemma_states_laid_out(
    content: ChunkContent,
    extent: u64,
    final_state: u64,
    i: int,
)
    requires
        content_consistent(content, extent),
        0 <= i < content.plan.data_shards,
    ensures
        eight_at(chunk_bytes(content, extent, final_state), 64 + 8 * i)
            == content.data_shard_states[i],
{
    let plan = content.plan;
    let states = content.data_shard_states;
    let chunk = chunk_bytes(content, extent, final_state);
    lemma_chunk_layout(content, extent, final_state);
    lemma_state_bytes(states, i);
    let all = chunk.subrange(0x40, 0x40 + 8 * plan.data_shards);
    assert(chunk.subrange(64 + 8 * i, 64 + 8 * i + 8) =~= all.subrange(8 * i, 8 * i + 8));
    lemma_eight_at(chunk, 64 + 8 * i, states[i]);
}

/// A chunk holds, at fixed places, the marker `{RB}`, the CRC-64 of all behind it, its own
/// size, the size of its header, twice the version one, eight bytes of zero, the length of
/// the last data shard, how much is protected, the length of a shard, the chunk's size once
/// more, how many data and recovery shards there are, and which of these it is. Behind them
/// stand a checksum for each data shard, that of the first recovery shard, and the
/// recovery shard.
pub proof fn law_chunks_are_laid_out(content: ChunkContent, extent: u64, final_state: u64)
    requires
        content_consistent(content, extent),
    ensures
        ({
            let plan = content.plan;
            let chunk = chunk_bytes(content, extent, final_state);
            &&& chunk.len() == plan.shard_size
            &&& chunk.take(4) == seq![0x7bu8, 0x52u8, 0x42u8, 0x7du8]
            &&& eight_at(chunk, 4) == crc64_xz_of(chunk.skip(12))
            &&& four_at(chunk, 12) == chunk.len()
            &&& four_at(chunk, 16) == chunk.len() - content.parity.len()
            &&& chunk[20] == 1 && chunk[21] == 1
            &&& eight_at(chunk, 22) == 0
            &&& four_at(chunk, 30) == extent
            &&& eight_at(chunk, 34) == content.protected_size
            &&& eight_at(chunk, 42) == content.parity.len()
            &&& eight_at(chunk, 50) == chunk.len()
            &&& two_at(chunk, 58) == plan.data_shards
            &&& two_at(chunk, 60) == plan.recovery_shards
            &&& two_at(chunk, 62) == content.shard_index
            &&& forall|i: int|
                0 <= i < plan.data_shards ==> eight_at(chunk, 64 + 8 * i)
                    == #[trigger] content.data_shard_states[i]
            &&& eight_at(chunk, 64 + 8 * plan.data_shards) == final_state
            &&& chunk.skip(72 + 8 * plan.data_shards) == content.parity
        }),
{
    let plan = content.plan;
    let chunk = chunk_bytes(content, extent, final_state);
    let rest = chunk_header_rest(content, extent, final_state) + content.parity;
    lemma_chunk_layout(content, extent, final_state);
    lemma_more_layout(content, extent, final_state);
    assert(marker() =~= seq![0x7bu8, 0x52u8, 0x42u8, 0x7du8]);
    lemma_eight_at(chunk, 4, crc64_xz_of(rest));
    lemma_four_at(chunk, 12, plan.shard_size as nat);
    lemma_four_at(chunk, 16, plan.header_size as nat);
    lemma_eight_at(chunk, 22, 0);
    lemma_four_at(chunk, 30, extent as nat);
    lemma_eight_at(chunk, 34, content.protected_size);
    lemma_eight_at(chunk, 42, plan.group_count);
    lemma_eight_at(chunk, 50, plan.shard_size);
    lemma_two_at(chunk, 58, plan.data_shards as nat);
    lemma_two_at(chunk, 60, plan.recovery_shards as nat);
    lemma_two_at(chunk, 62, content.shard_index as nat);
    lemma_eight_at(chunk, plan.header_size - 8, final_state);
    assert forall|i: int| 0 <= i < plan.data_shards implies eight_at(chunk, 64 + 8 * i)
        == #[trigger] content.data_shard_states[i] by {
        lemma_states_laid_out(content, extent, final_state, i);
    }
}

} // verus!
