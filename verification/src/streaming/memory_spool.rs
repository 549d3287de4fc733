//! Spools that stay in memory.
//!
//! Payload blocks and index replacements have known sizes before they are
//! allocated, so a quota can admit them exactly.

use vstd::prelude::*;

use crate::error::{Error, Result};
use crate::power::next_power_of_two;
#[allow(unused_imports)]
use crate::power::{lemma_power_reaching, power_reaching};
use crate::streaming::resources::{CapacityCharge, CapacityClass, WriterResources};
#[allow(unused_imports)]
use crate::streaming::resources::ResourcesView;

verus! {

/// The size of a payload block.
pub const BLOCK_BYTES: usize = 4096;

/// The size of an index slot, a pointer on a 64-bit host.
pub const INDEX_ENTRY_BYTES: usize = 8;

/// Where a cursor moves to.
#[derive(Debug, Clone, Copy, PartialEq, Eq, Structural)]
pub enum SeekFrom {
    Start(u64),
    End(i64),
    Current(i64),
}

/// The position that a seek asks for, where there is such.
pub open spec fn seek_target(from: SeekFrom, len: nat, position: u64) -> Option<u64> {
    let target = match from {
        SeekFrom::Start(offset) => offset as int,
        SeekFrom::End(offset) => len + offset,
        SeekFrom::Current(offset) => position + offset,
    };
    if 0 <= target <= u64::MAX {
        Some(target as u64)
    } else {
        None
    }
}

/// The position that a seek asks for.
pub fn resolve_seek(from: SeekFrom, len: u64, position: u64) -> (target: Option<u64>)
    ensures
        target == seek_target(from, len as nat, position),
{
    let target: i128 = match from {
        SeekFrom::Start(offset) => offset as i128,
        SeekFrom::End(offset) => len as i128 + offset as i128,
        SeekFrom::Current(offset) => position as i128 + offset as i128,
    };
    if 0 <= target && target <= u64::MAX as i128 {
        Some(target as u64)
    } else {
        None
    }
}

/// What is charged for this many blocks and index slots.
pub open spec fn retained_bytes(blocks: nat, slots: nat) -> nat {
    blocks * BLOCK_BYTES as nat + slots * INDEX_ENTRY_BYTES as nat
}

/// How many blocks hold `end` bytes.
pub open spec fn blocks_for(end: nat) -> nat {
    (end + (BLOCK_BYTES - 1) as nat) / BLOCK_BYTES as nat
}

/// The index slots there are once `count` blocks are needed: enough, or the
/// next power of two.
pub open spec fn slots_for(count: nat, slots: nat) -> nat {
    if count > slots {
        power_reaching(1, count)
    } else {
        slots
    }
}

/// What is charged at the peak of growth: while the index is replaced, the old
/// and the new one together.
pub open spec fn peak_bytes(count: nat, slots: nat) -> nat {
    let more = slots_for(count, slots);
    retained_bytes(count, more) + (if more != slots {
        slots * INDEX_ENTRY_BYTES as nat
    } else {
        0
    })
}

/// The byte at `at`, counted over all blocks.
pub open spec fn byte_at(blocks: Seq<Vec<u8>>, at: int) -> u8 {
    blocks[at / BLOCK_BYTES as int]@[at % BLOCK_BYTES as int]
}

spec fn are_blocks(blocks: Seq<Vec<u8>>) -> bool {
    forall|i: int| 0 <= i < blocks.len() ==> (#[trigger] blocks[i])@.len() == BLOCK_BYTES
}

fn set_byte(block: &mut Vec<u8>, at: usize, value: u8)
    requires
        at < old(block)@.len(),
    ensures
        final(block)@ == old(block)@.update(at as int, value),
{
    block.set(at, value);
}

fn empty_block() -> (block: Vec<u8>)
    ensures
        block@.len() == BLOCK_BYTES,
        forall|i: int| 0 <= i < BLOCK_BYTES ==> #[trigger] block@[i] == 0,
{
    let mut block: Vec<u8> = Vec::new();
    block.resize(BLOCK_BYTES, 0);
    block
}

/// A spool held in blocks.
#[derive(Debug)]
pub struct MemorySpool {
    blocks: Vec<Vec<u8>>,
    slots: usize,
    len: usize,
    pos: u64,
    charge: CapacityCharge,
}

/// The contents after `data` was written at `position`: what lies between is
/// filled with zeros.
pub open spec fn overwritten(contents: Seq<u8>, position: int, data: Seq<u8>) -> Seq<u8> {
    let end = position + data.len();
    Seq::new(
        if end > contents.len() {
            end as nat
        } else {
            contents.len()
        },
        |i: int|
            if position <= i < end {
                data[i - position]
            } else if i < contents.len() {
                contents[i]
            } else {
                0
            },
    )
}

impl MemorySpool {
    #[verifier::type_invariant]
    spec fn well_formed(self) -> bool {
        &&& are_blocks(self.blocks@)
        &&& self.len <= self.blocks@.len() * BLOCK_BYTES
        &&& forall|i: int|
            self.len <= i < self.blocks@.len() * BLOCK_BYTES ==> #[trigger] byte_at(
                self.blocks@,
                i,
            ) == 0
        &&& self.blocks@.len() <= self.slots
        &&& self.charge.class == CapacityClass::SpoolMemory
        &&& self.charge.bytes == retained_bytes(self.blocks@.len(), self.slots as nat)
    }

    pub closed spec fn contents(&self) -> Seq<u8> {
        Seq::new(self.len as nat, |i: int| byte_at(self.blocks@, i))
    }

    pub closed spec fn position(&self) -> u64 {
        self.pos
    }

    /// How many blocks are allocated.
    pub closed spec fn block_count(&self) -> nat {
        self.blocks@.len()
    }

    /// How many slots the index has.
    pub closed spec fn slot_count(&self) -> nat {
        self.slots as nat
    }

    pub fn new() -> (spool: MemorySpool)
        ensures
            spool.contents() == Seq::<u8>::empty(),
            spool.position() == 0,
            spool.block_count() == 0,
            spool.slot_count() == 0,
    {
        let spool = MemorySpool {
            blocks: Vec::new(),
            slots: 0,
            len: 0,
            pos: 0,
            charge: CapacityCharge::new(CapacityClass::SpoolMemory),
        };
        assert(spool.contents() =~= Seq::<u8>::empty());
        spool
    }

    pub fn len(&self) -> (len: usize)
        ensures
            len == self.contents().len(),
    {
        self.len
    }

    pub fn stream_position(&self) -> (position: u64)
        ensures
            position == self.position(),
    {
        self.pos
    }

    /// Moves the cursor. It may lie beyond the end; a position that is no
    /// 64-bit number is refused and leaves it where it was.
    pub fn seek(&mut self, from: SeekFrom) -> (r: Result<u64>)
        ensures
            final(self).contents() == old(self).contents(),
            final(self).block_count() == old(self).block_count(),
            final(self).slot_count() == old(self).slot_count(),
            match seek_target(from, old(self).contents().len(), old(self).position()) {
                Some(target) => r == Ok::<u64, Error>(target) && final(self).position() == target,
                None => r == Err::<u64, Error>(Error::InvalidArgument("invalid memory spool seek"))
                    && final(self).position() == old(self).position(),
            },
    {
        proof {
            use_type_invariant(&*self);
        }
        match resolve_seek(from, self.len as u64, self.pos) {
            Some(target) => {
                self.pos = target;
                Ok(target)
            },
            None => Err(Error::InvalidArgument("invalid memory spool seek")),
        }
    }

    /// Reads up to `count` bytes from the cursor on.
    pub fn read(&mut self, count: usize) -> (bytes: Vec<u8>)
        ensures
            final(self).contents() == old(self).contents(),
            final(self).block_count() == old(self).block_count(),
            final(self).slot_count() == old(self).slot_count(),
            final(self).position() == old(self).position() + bytes@.len(),
            ({
                let len = old(self).contents().len();
                let start = old(self).position();
                if start >= len {
                    bytes@ == Seq::<u8>::empty()
                } else if start + count < len {
                    bytes@ == old(self).contents().subrange(start as int, start + count)
                } else {
                    bytes@ == old(self).contents().skip(start as int)
                }
            }),
    {
        proof {
            use_type_invariant(&*self);
        }
        let mut bytes: Vec<u8> = Vec::new();
        if self.pos >= self.len as u64 {
            assert(bytes@ =~= Seq::<u8>::empty());
            return bytes;
        }
        let pos: usize = self.pos as usize;
        let size: usize = if count < self.len - pos {
            count
        } else {
            self.len - pos
        };
        let mut copied: usize = 0;
        while copied < size
            invariant
                copied <= size,
                pos + size <= self.len,
                self.len <= self.blocks@.len() * BLOCK_BYTES,
                are_blocks(self.blocks@),
                bytes@.len() == copied,
                forall|i: int|
                    0 <= i < copied ==> #[trigger] bytes@[i] == byte_at(self.blocks@, pos + i),
            decreases size - copied,
        {
            let at: usize = pos + copied;
            let block = &self.blocks[at / BLOCK_BYTES];
            bytes.push(block[at % BLOCK_BYTES]);
            copied = copied + 1;
        }
        self.pos = self.pos + size as u64;
        proof {
            if pos + count < self.len {
                assert(bytes@ =~= old(self).contents().subrange(pos as int, pos + count));
            } else {
                assert(bytes@ =~= old(self).contents().skip(pos as int));
            }
        }
        bytes
    }
}

/// What capacity beyond the address space is refused with.
pub open spec fn spool_overflow() -> Error {
    Error::InvalidArgument("memory spool capacity overflow")
}

/// Why growing to hold `end` bytes is refused, where it is.
pub open spec fn spool_growth_refusal(
    blocks: nat,
    slots: nat,
    end: nat,
    resources: ResourcesView,
) -> Option<Error> {
    let count = blocks_for(end);
    if count <= blocks {
        None
    } else if peak_bytes(count, slots) > usize::MAX {
        Some(spool_overflow())
    } else {
        resources.capacity_refusal(
            CapacityClass::SpoolMemory,
            (peak_bytes(count, slots) - retained_bytes(blocks, slots)) as u64,
        )
    }
}

/// The ledgers once the spool has grown to hold `end` bytes.
pub open spec fn after_spool_growth(
    blocks: nat,
    slots: nat,
    end: nat,
    resources: ResourcesView,
) -> ResourcesView {
    let count = blocks_for(end);
    if count <= blocks {
        resources
    } else {
        let peak = peak_bytes(count, slots);
        resources.after_growth(
            CapacityClass::SpoolMemory,
            (peak - retained_bytes(blocks, slots)) as u64,
        ).after_release(
            CapacityClass::SpoolMemory,
            (peak - retained_bytes(count, slots_for(count, slots))) as u64,
        )
    }
}

impl MemorySpool {
    /// Allocates blocks for `end` bytes, within the quota.
    fn grow(&mut self, end: usize, resources: &mut WriterResources) -> (r: Result<()>)
        ensures
            final(self).contents() == old(self).contents(),
            final(self).position() == old(self).position(),
            match spool_growth_refusal(
                old(self).block_count(),
                old(self).slot_count(),
                end as nat,
                old(resources)@,
            ) {
                Some(error) => {
                    &&& r == Err::<(), Error>(error)
                    &&& final(self).block_count() == old(self).block_count()
                    &&& final(self).slot_count() == old(self).slot_count()
                    &&& final(resources)@ == old(resources)@
                },
                None => {
                    let count = blocks_for(end as nat);
                    &&& r is Ok
                    &&& final(self).block_count() == (if count > old(self).block_count() {
                        count
                    } else {
                        old(self).block_count()
                    })
                    &&& final(self).slot_count() == (if count > old(self).block_count() {
                        slots_for(count, old(self).slot_count())
                    } else {
                        old(self).slot_count()
                    })
                    &&& final(resources)@ == after_spool_growth(
                        old(self).block_count(),
                        old(self).slot_count(),
                        end as nat,
                        old(resources)@,
                    )
                },
            },
    {
        proof {
            use_type_invariant(&*self);
        }
        let count: usize = end / BLOCK_BYTES + (if end % BLOCK_BYTES == 0 {
            0usize
        } else {
            1usize
        });
        assert(count == blocks_for(end as nat));
        let held: usize = self.blocks.len();
        if count <= held {
            return Ok(());
        }
        let slots: usize = self.slots;
        proof {
            lemma_power_reaching(1, count as nat);
        }
        let more: u64 = if count > slots {
            match next_power_of_two(count as u64) {
                Some(power) => power,
                None => {
                    return Err(Error::InvalidArgument("memory spool capacity overflow"));
                },
            }
        } else {
            slots as u64
        };
        let old_index: u128 = if more != slots as u64 {
            slots as u128 * INDEX_ENTRY_BYTES as u128
        } else {
            0
        };
        let retained: u128 = count as u128 * BLOCK_BYTES as u128 + more as u128
            * INDEX_ENTRY_BYTES as u128;
        let peak: u128 = retained + old_index;
        assert(peak == peak_bytes(count as nat, slots as nat));
        if peak > usize::MAX as u128 {
            return Err(Error::InvalidArgument("memory spool capacity overflow"));
        }
        let mut taken = MemorySpool::new();
        std::mem::swap(&mut taken, self);
        let MemorySpool { blocks, slots, len, pos, charge } = taken;
        let mut blocks = blocks;
        let mut charge = charge;
        let ghost before = blocks@;
        match charge.grow_to(peak as u64, resources) {
            Ok(()) => {},
            Err(error) => {
                *self = MemorySpool { blocks, slots, len, pos, charge };
                return Err(error);
            },
        }
        charge.shrink_to(retained as u64, resources);
        while blocks.len() < count
            invariant
                before.len() <= blocks@.len() <= count,
                are_blocks(before),
                are_blocks(blocks@),
                forall|i: int| 0 <= i < before.len() ==> #[trigger] blocks@[i] == before[i],
                forall|i: int|
                    before.len() * BLOCK_BYTES <= i < blocks@.len() * BLOCK_BYTES ==> #[trigger]
                        byte_at(blocks@, i) == 0,
            decreases count - blocks@.len(),
        {
            let ghost earlier = blocks@;
            blocks.push(empty_block());
            proof {
                assert forall|i: int|
                    before.len() * BLOCK_BYTES <= i < blocks@.len() * BLOCK_BYTES implies
                    #[trigger] byte_at(blocks@, i) == 0 by {
                    if i < earlier.len() * BLOCK_BYTES {
                        assert(byte_at(earlier, i) == 0);
                        assert(blocks@[i / BLOCK_BYTES as int] == earlier[i / BLOCK_BYTES as int]);
                    } else {
                        assert(i / BLOCK_BYTES as int == earlier.len());
                    }
                }
            }
        }
        proof {
            assert forall|i: int| 0 <= i < before.len() * BLOCK_BYTES implies #[trigger] byte_at(
                blocks@,
                i,
            ) == byte_at(before, i) by {
                assert(blocks@[i / BLOCK_BYTES as int] == before[i / BLOCK_BYTES as int]);
            }
            assert forall|i: int| len <= i < blocks@.len() * BLOCK_BYTES implies #[trigger] byte_at(
                blocks@,
                i,
            ) == 0 by {
                if i < before.len() * BLOCK_BYTES {
                    assert(byte_at(before, i) == 0);
                }
            }
        }
        *self = MemorySpool { blocks, slots: more as usize, len, pos, charge };
        assert(self.contents() =~= old(self).contents());
        Ok(())
    }

    /// Why a write is refused, where it is.
    pub open spec fn write_refusal(
        self,
        count: nat,
        resources: ResourcesView,
    ) -> Option<Error> {
        if count == 0 {
            None
        } else if self.position() > usize::MAX {
            Some(Error::InvalidArgument("memory spool position overflow"))
        } else if self.position() + count > usize::MAX {
            Some(Error::InvalidArgument("memory spool length overflow"))
        } else {
            spool_growth_refusal(
                self.block_count(),
                self.slot_count(),
                self.position() as nat + count,
                resources,
            )
        }
    }

    /// Writes all of `data` at the cursor, or none of it.
    pub fn write(&mut self, data: &[u8], resources: &mut WriterResources) -> (r: Result<usize>)
        ensures
            match old(self).write_refusal(data@.len(), old(resources)@) {
                Some(error) => {
                    &&& r == Err::<usize, Error>(error)
                    &&& final(self).contents() == old(self).contents()
                    &&& final(self).position() == old(self).position()
                    &&& final(resources)@ == old(resources)@
                },
                None => {
                    &&& r == Ok::<usize, Error>(data@.len() as usize)
                    &&& final(self).contents() == (if data@.len() == 0 {
                        old(self).contents()
                    } else {
                        overwritten(old(self).contents(), old(self).position() as int, data@)
                    })
                    &&& final(self).position() == old(self).position() + data@.len()
                    &&& final(resources)@ == (if data@.len() == 0 {
                        old(resources)@
                    } else {
                        after_spool_growth(
                            old(self).block_count(),
                            old(self).slot_count(),
                            old(self).position() as nat + data@.len(),
                            old(resources)@,
                        )
                    })
                },
            },
    {
        let count: usize = data.len();
        if count == 0 {
            return Ok(0);
        }
        if self.pos > usize::MAX as u64 {
            return Err(Error::InvalidArgument("memory spool position overflow"));
        }
        let pos: usize = self.pos as usize;
        let end: usize = match pos.checked_add(count) {
            Some(end) => end,
            None => {
                return Err(Error::InvalidArgument("memory spool length overflow"));
            },
        };
        let ghost contents = self.contents();
        match self.grow(end, resources) {
            Ok(()) => {},
            Err(error) => {
                return Err(error);
            },
        }
        proof {
            use_type_invariant(&*self);
        }
        let mut taken = MemorySpool::new();
        std::mem::swap(&mut taken, self);
        let MemorySpool { blocks, slots, len, pos: _, charge } = taken;
        let mut blocks = blocks;
        let ghost before = blocks@;
        let mut copied: usize = 0;
        while copied < count
            invariant
                copied <= count,
                count == data@.len(),
                pos + count == end,
                end <= blocks@.len() * BLOCK_BYTES,
                blocks@.len() == before.len(),
                are_blocks(blocks@),
                forall|i: int|
                    0 <= i < blocks@.len() * BLOCK_BYTES ==> #[trigger] byte_at(blocks@, i) == (
                    if pos <= i < pos + copied {
                        data@[i - pos]
                    } else {
                        byte_at(before, i)
                    }),
            decreases count - copied,
        {
            let at: usize = pos + copied;
            let ghost earlier = blocks@;
            set_byte(&mut blocks[at / BLOCK_BYTES], at % BLOCK_BYTES, data[copied]);
            proof {
                assert forall|i: int| 0 <= i < blocks@.len() implies (#[trigger] blocks@[i])@.len()
                    == BLOCK_BYTES by {
                    assert(earlier[i]@.len() == BLOCK_BYTES);
                }
                assert forall|i: int|
                    0 <= i < blocks@.len() * BLOCK_BYTES implies #[trigger] byte_at(blocks@, i)
                    == (if pos <= i < pos + copied + 1 {
                    data@[i - pos]
                } else {
                    byte_at(before, i)
                }) by {
                    assert(earlier[i / BLOCK_BYTES as int]@.len() == BLOCK_BYTES);
                    assert(byte_at(earlier, i) == (if pos <= i < pos + copied {
                        data@[i - pos]
                    } else {
                        byte_at(before, i)
                    }));
                    if i != at {
                        assert(i / BLOCK_BYTES as int != at / BLOCK_BYTES || i % BLOCK_BYTES as int
                            != at % BLOCK_BYTES);
                    }
                }
            }
            copied = copied + 1;
        }
        let longer: usize = if end > len {
            end
        } else {
            len
        };
        *self = MemorySpool { blocks, slots, len: longer, pos: end as u64, charge };
        assert(self.contents() =~= overwritten(contents, pos as int, data@));
        Ok(count)
    }

    /// Frees the blocks and gives their capacity back.
    pub fn release(self, resources: &mut WriterResources)
        ensures
            final(resources)@ == old(resources)@.after_release(
                CapacityClass::SpoolMemory,
                retained_bytes(self.block_count(), self.slot_count()) as u64,
            ),
    {
        proof {
            use_type_invariant(&self);
        }
        resources.release_capacity(self.charge.class, self.charge.bytes);
    }
}

/// What was written can be read back from where it was written.
pub proof fn law_spool_reads_what_was_written(contents: Seq<u8>, position: nat, data: Seq<u8>)
    ensures
        overwritten(contents, position as int, data).subrange(
            position as int,
            (position + data.len()) as int,
        ) == data,
        position <= contents.len() ==> overwritten(contents, position as int, data).take(
            position as int,
        ) == contents.take(position as int),
{
    assert(overwritten(contents, position as int, data).subrange(
        position as int,
        (position + data.len()) as int,
    ) =~= data);
    if position <= contents.len() {
        assert(overwritten(contents, position as int, data).take(position as int)
            =~= contents.take(position as int));
    }
}

/// A write changes no byte but its own. It makes a spool longer only where it goes past the
/// end, and what it leaves out before itself reads as zeros.
pub proof fn law_a_write_keeps_the_rest(contents: Seq<u8>, position: nat, data: Seq<u8>)
    ensures
        ({
            let after = overwritten(contents, position as int, data);
            &&& after.len() == contents.len() || after.len() == position + data.len()
            &&& after.len() >= contents.len()
            &&& after.len() >= position + data.len()
            &&& forall|i: int|
                0 <= i < contents.len() && (i < position || position + data.len() <= i)
                    ==> #[trigger] after[i] == contents[i]
            &&& forall|i: int| contents.len() <= i < position ==> #[trigger] after[i] == 0
        }),
{
}

/// A spool takes as many blocks of 4 KiB as its bytes need.
pub proof fn law_blocks_just_hold_the_bytes(end: nat)
    ensures
        end <= 4096 * blocks_for(end) < end + 4096,
{
}

/// Bytes that a spool grows by are charged, with the index of its blocks. While the index
/// moves, the old one is charged beside the new one. Just what the spool keeps stays charged.
pub proof fn law_spools_are_charged_for_what_they_hold(
    blocks: nat,
    slots: nat,
    end: nat,
    resources: ResourcesView,
)
    requires
        blocks_for(end) > blocks,
        blocks <= slots,
        spool_growth_refusal(blocks, slots, end, resources) is None,
        resources.spool_memory matches Some(ledger) ==> ledger.used >= 4096 * blocks + 8 * slots,
        resources.execution matches Some(ledger) ==> ledger.used >= 4096 * blocks + 8 * slots,
    ensures
        ({
            let more = slots_for(blocks_for(end), slots);
            let held = 4096 * blocks + 8 * slots;
            let kept = 4096 * blocks_for(end) + 8 * more;
            let moving = if more == slots { 0 } else { 8 * slots };
            let after = after_spool_growth(blocks, slots, end, resources);
            &&& more >= blocks_for(end)
            &&& resources.spool_memory matches Some(ledger) ==> {
                &&& after.spool_memory is Some
                &&& after.spool_memory->0.used == ledger.used - held + kept
                &&& ledger.used - held + kept + moving <= ledger.limit
            }
            &&& resources.execution matches Some(ledger) ==> {
                &&& after.execution is Some
                &&& after.execution->0.used == ledger.used - held + kept
                &&& ledger.used - held + kept + moving <= ledger.limit
            }
        }),
{
    let count = blocks_for(end);
    if count > slots {
        lemma_power_reaching(1, count);
    }
}

} // verus!
