//! The hashes of fragments. Every fragment but the last of its member carries a
//! hash of its own bytes.

use vstd::prelude::*;

use crate::rar50::engine::MemberWork;
use crate::rar50::fragments::cut_member;
#[allow(unused_imports)]
use crate::rar50::fragments::{fragment_lens, room_before};
#[allow(unused_imports)]
use crate::rar50::members::payload_of;
#[allow(unused_imports)]
use crate::rar50::sealing::may_hash;
#[allow(unused_imports)]
use crate::rar50::volume_set::{is_hashed, work_lens};

verus! {

/// Whether these are the hashes of a payload's fragments, but for the last.
pub open spec fn are_fragment_hashes<H: Fn(&[u8]) -> [u8; 32]>(
    hash: H,
    payload: Seq<u8>,
    room: nat,
    max: nat,
    hashes: Seq<[u8; 32]>,
) -> bool
    decreases payload.len(),
{
    if payload.len() <= room || room == 0 {
        hashes.len() == 0
    } else {
        &&& hashes.len() > 0
        &&& may_hash(hash, payload.take(room as int), hashes[0])
        &&& are_fragment_hashes(hash, payload.skip(room as int), max, max, hashes.skip(1))
    }
}

/// There is a hash for every fragment but the last.
pub proof fn law_fragments_are_hashed<H: Fn(&[u8]) -> [u8; 32]>(
    hash: H,
    payload: Seq<u8>,
    room: nat,
    max: nat,
    hashes: Seq<[u8; 32]>,
)
    requires
        are_fragment_hashes(hash, payload, room, max, hashes),
    ensures
        hashes.len() + 1 == fragment_lens(room, max, payload.len()).len(),
    decreases payload.len(),
{
    if payload.len() > room && room > 0 {
        law_fragments_are_hashed(
            hash,
            payload.skip(room as int),
            max,
            max,
            hashes.skip(1),
        );
    }
}

/// Hashes the fragments of a payload, but for the last.
fn hash_fragments<H: Fn(&[u8]) -> [u8; 32]>(
    payload: &[u8],
    room: u64,
    max: u64,
    hash: &H,
) -> (hashes: Vec<[u8; 32]>)
    requires
        0 < room <= max,
        forall|held: &[u8]| #[trigger] call_requires(*hash, (held,)),
    ensures
        are_fragment_hashes(*hash, payload@, room as nat, max as nat, hashes@),
{
    let mut hashes: Vec<[u8; 32]> = Vec::new();
    let total: usize = payload.len();
    let mut start: usize = 0;
    let mut open: u64 = room;
    proof {
        assert(payload@.skip(0) =~= payload@);
        assert forall|rest: Seq<[u8; 32]>| #[trigger]
            are_fragment_hashes(*hash, payload@.skip(0), room as nat, max as nat, rest) implies
            are_fragment_hashes(*hash, payload@, room as nat, max as nat, hashes@ + rest) by {
            assert(hashes@ + rest =~= rest);
        }
    }
    while (total - start) as u64 > open
        invariant
            total == payload@.len(),
            start <= total,
            0 < open <= max,
            0 < room <= max,
            forall|held: &[u8]| #[trigger] call_requires(*hash, (held,)),
            forall|rest: Seq<[u8; 32]>| #[trigger]
                are_fragment_hashes(
                    *hash,
                    payload@.skip(start as int),
                    open as nat,
                    max as nat,
                    rest,
                ) ==> are_fragment_hashes(
                    *hash,
                    payload@,
                    room as nat,
                    max as nat,
                    hashes@ + rest,
                ),
        decreases total - start,
    {
        let end: usize = start + open as usize;
        let piece = vstd::slice::slice_subrange(payload, start, end);
        let digest: [u8; 32] = hash(piece);
        let ghost before = hashes@;
        hashes.push(digest);
        proof {
            let left = payload@.skip(start as int);
            assert(call_ensures(*hash, (piece,), digest));
            assert(piece@ =~= left.take(open as int));
            assert(left.skip(open as int) =~= payload@.skip(end as int));
            assert forall|rest: Seq<[u8; 32]>| #[trigger]
                are_fragment_hashes(
                    *hash,
                    payload@.skip(end as int),
                    max as nat,
                    max as nat,
                    rest,
                ) implies are_fragment_hashes(
                *hash,
                payload@,
                room as nat,
                max as nat,
                hashes@ + rest,
            ) by {
                let longer = seq![digest] + rest;
                assert(longer.skip(1) =~= rest);
                assert(are_fragment_hashes(*hash, left, open as nat, max as nat, longer));
                assert(before + longer =~= hashes@ + rest);
            }
        }
        start = end;
        open = max;
    }
    proof {
        let none = Seq::<[u8; 32]>::empty();
        assert(are_fragment_hashes(
            *hash,
            payload@.skip(start as int),
            open as nat,
            max as nat,
            none,
        ));
        assert(hashes@ + none =~= hashes@);
    }
    hashes
}

/// Whether these are the hashes of the fragments of all members of a set.
pub open spec fn are_work_hashes<H: Fn(&[u8]) -> [u8; 32]>(
    hash: H,
    works: Seq<MemberWork>,
    max: nat,
    hashes: Seq<Vec<[u8; 32]>>,
) -> bool {
    &&& hashes.len() == works.len()
    &&& forall|m: int|
        0 <= m < works.len() ==> are_fragment_hashes(
            hash,
            payload_of(works[m].member, works[m].sealed),
            room_before(work_lens(works), max, m as nat),
            max,
            (#[trigger] hashes[m])@,
        )
}

/// Hashes the fragments of all members of a set.
pub fn hash_works<H: Fn(&[u8]) -> [u8; 32]>(
    works: &Vec<MemberWork>,
    max: u64,
    hash: &H,
) -> (hashes: Vec<Vec<[u8; 32]>>)
    requires
        max > 0,
        forall|held: &[u8]| #[trigger] call_requires(*hash, (held,)),
    ensures
        are_work_hashes(*hash, works@, max as nat, hashes@),
        is_hashed(work_lens(works@), max as nat, hashes@),
{
    let ghost lens = work_lens(works@);
    let mut hashes: Vec<Vec<[u8; 32]>> = Vec::new();
    let mut room: u64 = max;
    while hashes.len() < works.len()
        invariant
            max > 0,
            lens == work_lens(works@),
            hashes@.len() <= works@.len(),
            0 < room <= max,
            room == room_before(lens, max as nat, hashes@.len()),
            forall|m: int|
                0 <= m < hashes@.len() ==> #[trigger] lens[m] == payload_of(
                    works@[m].member,
                    works@[m].sealed,
                ).len(),
            forall|held: &[u8]| #[trigger] call_requires(*hash, (held,)),
            forall|m: int|
                0 <= m < hashes@.len() ==> are_fragment_hashes(
                    *hash,
                    payload_of(works@[m].member, works@[m].sealed),
                    room_before(lens, max as nat, m as nat),
                    max as nat,
                    (#[trigger] hashes@[m])@,
                ),
        decreases works@.len() - hashes@.len(),
    {
        let at: usize = hashes.len();
        let payload: &Vec<u8> = match &works[at].sealed {
            Some(sealed) => &sealed.data,
            None => &works[at].member.packed,
        };
        let own = hash_fragments(payload, room, max, hash);
        let len: usize = payload.len();
        assert(lens[at as int] == len);
        let (_, next): (Vec<u64>, u64) = cut_member(room, max, len as u64);
        hashes.push(own);
        room = next;
    }
    proof {
        assert forall|m: int| 0 <= m < lens.len() implies (#[trigger] hashes@[m])@.len() + 1
            >= fragment_lens(room_before(lens, max as nat, m as nat), max as nat, lens[m] as nat).len() by {
            law_fragments_are_hashed(
                *hash,
                payload_of(works@[m].member, works@[m].sealed),
                room_before(lens, max as nat, m as nat),
                max as nat,
                hashes@[m]@,
            );
        }
    }
    hashes
}

} // verus!
