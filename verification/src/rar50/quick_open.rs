//! The quick-open index: copies of member and comment headers at the end of an
//! archive, so that a reader can list it without walking it.
//!
//! Each copy says how far back its header sits from the index itself. Both
//! move together when the prefix grows, so the distances only need positions
//! within the body.

use vstd::prelude::*;

use crate::bytes::{push_all, push_le};
#[allow(unused_imports)]
use crate::bytes::le_bytes;
use crate::crc32::{crc32, Crc32};
#[allow(unused_imports)]
use crate::crc32::crc32_of;
use crate::error::{Error, Result};
use crate::rar50::blocks::PreparedBlock;
#[allow(unused_imports)]
use crate::rar50::blocks::BlockView;
use crate::rar50::vint::write_vint;
#[allow(unused_imports)]
use crate::rar50::vint::{lemma_vint_len, lemma_vint_len_bound, vint};

verus! {

/// The body of an index record: flags of zero, the distance, the header behind
/// its length.
pub open spec fn entry_body(distance: u64, header: Seq<u8>) -> Seq<u8> {
    seq![0u8] + vint(distance as nat) + vint(header.len()) + header
}

/// An index record: the checksum covers the size as well as the body, though
/// it stands before both.
pub open spec fn quick_open_entry(distance: u64, header: Seq<u8>) -> Seq<u8> {
    let body = entry_body(distance, header);
    let sized = vint(body.len()) + body;
    le_bytes(crc32_of(sized) as nat, 4) + sized
}

/// Appends one index record. A refused one leaves everything as it was.
pub fn append_quick_open_entry(
    payload: &mut Vec<u8>,
    payload_crc: &mut Crc32,
    distance: u64,
    header: &[u8],
) -> (r: Result<()>)
    ensures
        entry_body(distance, header@).len() <= u64::MAX ==> {
            &&& r is Ok
            &&& final(payload)@ == old(payload)@ + quick_open_entry(distance, header@)
            &&& forall|before: Seq<u8>| #[trigger]
                old(payload_crc).covers(before) ==> final(payload_crc).covers(
                    before + quick_open_entry(distance, header@),
                )
        },
        entry_body(distance, header@).len() > u64::MAX ==> {
            &&& r == Err::<(), Error>(
                Error::InvalidArgument("RAR 5 quick-open record size overflows"),
            )
            &&& final(payload)@ == old(payload)@
            &&& *final(payload_crc) == *old(payload_crc)
        },
{
    let header_len: usize = header.len();
    let mut body: Vec<u8> = Vec::new();
    body.push(0);
    write_vint(&mut body, distance);
    write_vint(&mut body, header_len as u64);
    proof {
        lemma_vint_len(distance as nat);
        lemma_vint_len_bound(distance as nat);
        lemma_vint_len(header_len as nat);
        lemma_vint_len_bound(header_len as nat);
        assert(body@ + header@ =~= entry_body(distance, header@));
    }
    let prefix_len: usize = body.len();
    match (header_len as u64).checked_add(prefix_len as u64) {
        Some(_) => {},
        None => {
            return Err(Error::InvalidArgument("RAR 5 quick-open record size overflows"));
        },
    }
    let body_len: u64 = header_len as u64 + prefix_len as u64;
    push_all(&mut body, header);
    let mut sized: Vec<u8> = Vec::new();
    write_vint(&mut sized, body_len);
    push_all(&mut sized, &body);
    assert(sized@ =~= vint(entry_body(distance, header@).len()) + entry_body(distance, header@));
    let mut record: Vec<u8> = Vec::new();
    push_le(&mut record, crc32(&sized) as u64, 4);
    push_all(&mut record, &sized);
    assert(record@ =~= quick_open_entry(distance, header@));
    push_all(payload, &record);
    payload_crc.update(&record);
    Ok(())
}

/// The length of a block as the headers give it.
pub open spec fn block_len(block: BlockView) -> nat {
    block.header.len() + block.payload_len as nat
}

/// The length of blocks behind one another.
pub open spec fn blocks_len(blocks: Seq<BlockView>) -> nat
    decreases blocks.len(),
{
    if blocks.len() == 0 {
        0
    } else {
        blocks_len(blocks.drop_last()) + block_len(blocks.last())
    }
}

/// The index of some blocks, `body_len` being the distance from the first of
/// all to the index.
pub open spec fn quick_open_payload(blocks: Seq<BlockView>, body_len: nat) -> Seq<u8>
    decreases blocks.len(),
{
    if blocks.len() == 0 {
        Seq::empty()
    } else {
        let before = blocks.drop_last();
        let block = blocks.last();
        quick_open_payload(before, body_len) + (if block.quick_open_cached {
            quick_open_entry((body_len - blocks_len(before)) as u64, block.header)
        } else {
            Seq::empty()
        })
    }
}

pub open spec fn blocks_view(blocks: Seq<PreparedBlock>) -> Seq<BlockView> {
    Seq::new(blocks.len(), |i: int| blocks[i]@)
}

pub proof fn lemma_blocks_len_grows(blocks: Seq<BlockView>, at: int)
    requires
        0 <= at <= blocks.len(),
    ensures
        blocks_len(blocks.take(at)) <= blocks_len(blocks),
        at < blocks.len() ==> blocks_len(blocks.take(at)) + block_len(blocks[at]) == blocks_len(
            blocks.take(at + 1),
        ),
    decreases blocks.len() - at,
{
    if at == blocks.len() {
        assert(blocks.take(at) =~= blocks);
    } else {
        lemma_blocks_len_grows(blocks, at + 1);
        assert(blocks.take(at + 1).drop_last() =~= blocks.take(at));
    }
}

/// The length of a body, or the refusal of one that does not fit.
pub open spec fn body_len_of(blocks: Seq<BlockView>) -> std::result::Result<u64, Error>
    decreases blocks.len(),
{
    if blocks.len() == 0 {
        Ok(0)
    } else {
        match body_len_of(blocks.drop_last()) {
            Err(error) => Err(error),
            Ok(before) => if block_len(blocks.last()) > u64::MAX {
                Err(Error::InvalidArgument("RAR 5 archive block size overflows"))
            } else if before + block_len(blocks.last()) > u64::MAX {
                Err(Error::InvalidArgument("RAR 5 archive body size overflows"))
            } else {
                Ok((before + block_len(blocks.last())) as u64)
            },
        }
    }
}

pub proof fn lemma_body_len(blocks: Seq<BlockView>)
    ensures
        match body_len_of(blocks) {
            Ok(len) => len == blocks_len(blocks),
            Err(_) => blocks_len(blocks) > u64::MAX,
        },
    decreases blocks.len(),
{
    if blocks.len() > 0 {
        lemma_body_len(blocks.drop_last());
    }
}

proof fn lemma_failed_body_stays_failed(blocks: Seq<BlockView>, at: int)
    requires
        0 <= at <= blocks.len(),
        body_len_of(blocks.take(at)) is Err,
    ensures
        body_len_of(blocks) == body_len_of(blocks.take(at)),
    decreases blocks.len() - at,
{
    if at == blocks.len() {
        assert(blocks.take(at) =~= blocks);
    } else {
        assert(blocks.take(at + 1).drop_last() =~= blocks.take(at));
        lemma_failed_body_stays_failed(blocks, at + 1);
    }
}

/// The length of a body.
pub fn body_len(blocks: &Vec<PreparedBlock>) -> (r: Result<u64>)
    ensures
        r == body_len_of(blocks_view(blocks@)),
        r matches Ok(len) ==> len == blocks_len(blocks_view(blocks@)),
{
    let ghost view = blocks_view(blocks@);
    let mut total: u64 = 0;
    let mut at: usize = 0;
    assert(view.take(0) =~= Seq::empty());
    while at < blocks.len()
        invariant
            at <= blocks@.len(),
            view == blocks_view(blocks@),
            body_len_of(view.take(at as int)) == Ok::<u64, Error>(total),
        decreases blocks@.len() - at,
    {
        proof {
            assert(view[at as int] == blocks@[at as int]@);
            assert(view.take(at + 1).drop_last() =~= view.take(at as int));
            assert(view.take(at + 1).last() == view[at as int]);
            if body_len_of(view.take(at + 1)) is Err {
                lemma_failed_body_stays_failed(view, at + 1);
            }
        }
        let header_len: usize = blocks[at].header.len();
        let len: u64 = match (header_len as u64).checked_add(blocks[at].payload_len) {
            Some(len) => len,
            None => {
                return Err(Error::InvalidArgument("RAR 5 archive block size overflows"));
            },
        };
        total = match total.checked_add(len) {
            Some(total) => total,
            None => {
                return Err(Error::InvalidArgument("RAR 5 archive body size overflows"));
            },
        };
        at = at + 1;
    }
    assert(view.take(blocks@.len() as int) =~= view);
    proof {
        lemma_body_len(view);
    }
    Ok(total)
}

/// Builds the index of some blocks, with its checksum.
pub fn write_quick_open_payload(
    blocks: &Vec<PreparedBlock>,
    body_len: u64,
) -> (r: (Vec<u8>, u32))
    requires
        body_len == blocks_len(blocks_view(blocks@)),
        forall|i: int|
            0 <= i < blocks@.len() ==> (#[trigger] blocks@[i]).header@.len() <= isize::MAX + 32,
    ensures
        r.0@ == quick_open_payload(blocks_view(blocks@), body_len as nat),
        r.1 == crc32_of(r.0@),
{
    let ghost view = blocks_view(blocks@);
    let mut payload: Vec<u8> = Vec::new();
    let mut checksum = Crc32::new();
    let mut offset: u64 = 0;
    let mut at: usize = 0;
    assert(view.take(0) =~= Seq::empty());
    while at < blocks.len()
        invariant
            at <= blocks@.len(),
            view == blocks_view(blocks@),
            body_len == blocks_len(view),
            offset == blocks_len(view.take(at as int)),
            payload@ == quick_open_payload(view.take(at as int), body_len as nat),
            checksum.covers(payload@),
            forall|i: int|
                0 <= i < blocks@.len() ==> (#[trigger] blocks@[i]).header@.len() <= isize::MAX
                    + 32,
        decreases blocks@.len() - at,
    {
        let ghost before = payload@;
        proof {
            lemma_blocks_len_grows(view, at as int);
            lemma_blocks_len_grows(view, at + 1);
            assert(view[at as int] == blocks@[at as int]@);
            assert(view.take(at + 1).drop_last() =~= view.take(at as int));
            assert(view.take(at + 1).last() == view[at as int]);
        }
        if blocks[at].quick_open_cached {
            let distance: u64 = body_len - offset;
            proof {
                let header = blocks@[at as int].header@;
                lemma_vint_len(distance as nat);
                lemma_vint_len_bound(distance as nat);
                lemma_vint_len(header.len());
                lemma_vint_len_bound(header.len());
                assert(entry_body(distance, header).len() <= 21 + header.len());
            }
            let _ = append_quick_open_entry(
                &mut payload,
                &mut checksum,
                distance,
                &blocks[at].header,
            );
        } else {
            assert(before + Seq::<u8>::empty() =~= before);
        }
        let header_len: usize = blocks[at].header.len();
        offset = offset + header_len as u64 + blocks[at].payload_len;
        at = at + 1;
    }
    assert(view.take(blocks@.len() as int) =~= view);
    let checksum: u32 = checksum.finish();
    (payload, checksum)
}

} // verus!
