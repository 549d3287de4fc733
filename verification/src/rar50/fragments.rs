//! Cutting members across volumes.
//!
//! A member fills what is left of the open volume, then whole volumes, then
//! the start of the last one. A volume that filled exactly is left open until
//! something asks for room: only then is it known not to be the last one.

use vstd::prelude::*;

verus! {

/// The lengths of a member's fragments, `room` being left in the open volume
/// and `max` going into each further one. An empty member has one empty
/// fragment: it still needs a header of its own.
pub open spec fn fragment_lens(room: nat, max: nat, len: nat) -> Seq<nat>
    decreases len,
{
    if len <= room || room == 0 {
        seq![len]
    } else {
        seq![room] + fragment_lens(max, max, (len - room) as nat)
    }
}

/// What is left of the open volume behind a member.
pub open spec fn next_room(room: nat, max: nat, len: nat) -> nat
    decreases len,
{
    if room == 0 || len == room {
        max
    } else if len < room {
        (room - len) as nat
    } else {
        next_room(max, max, (len - room) as nat)
    }
}

/// What is left of the open volume before member `at`.
pub open spec fn room_before(lens: Seq<u64>, max: nat, at: nat) -> nat
    decreases at,
{
    if at == 0 {
        max
    } else {
        next_room(
            room_before(lens, max, (at - 1) as nat),
            max,
            lens[at - 1] as nat,
        )
    }
}

pub open spec fn total(lens: Seq<nat>) -> nat
    decreases lens.len(),
{
    if lens.len() == 0 {
        0
    } else {
        lens[0] + total(lens.skip(1))
    }
}

/// Room stays within a volume and is never used up.
pub proof fn lemma_next_room(room: nat, max: nat, len: nat)
    requires
        0 < room <= max,
    ensures
        0 < next_room(room, max, len) <= max,
    decreases len,
{
    if len > room {
        lemma_next_room(max, max, (len - room) as nat);
    }
}

/// Fragments add up to the member. The first keeps to the room that is left,
/// and none is larger than a volume.
pub proof fn law_fragments_add_up(room: nat, max: nat, len: nat)
    requires
        0 < room <= max,
    ensures
        total(fragment_lens(room, max, len)) == len,
        fragment_lens(room, max, len).len() > 0,
        fragment_lens(room, max, len)[0] <= room,
        forall|i: int|
            0 <= i < fragment_lens(room, max, len).len() ==> #[trigger] fragment_lens(
                room,
                max,
                len,
            )[i] <= max,
    decreases len,
{
    let lens = fragment_lens(room, max, len);
    if len <= room {
        assert(lens.skip(1) =~= Seq::empty());
        assert(total(lens.skip(1)) == 0);
        assert(total(lens) == lens[0] + total(lens.skip(1)));
    } else {
        let rest = fragment_lens(max, max, (len - room) as nat);
        law_fragments_add_up(max, max, (len - room) as nat);
        assert(lens.skip(1) =~= rest);
        assert(total(lens) == lens[0] + total(rest));
        assert forall|i: int| 0 <= i < lens.len() implies #[trigger] lens[i] <= max by {
            if i > 0 {
                assert(lens[i] == rest[i - 1]);
            }
        }
    }
}

/// The lengths of a member's fragments, and the room behind the last.
pub fn cut_member(room: u64, max: u64, len: u64) -> (r: (Vec<u64>, u64))
    requires
        0 < room <= max,
    ensures
        r.0@.len() == fragment_lens(room as nat, max as nat, len as nat).len(),
        forall|i: int|
            0 <= i < r.0@.len() ==> #[trigger] r.0@[i] == fragment_lens(
                room as nat,
                max as nat,
                len as nat,
            )[i],
        r.1 == next_room(room as nat, max as nat, len as nat),
        0 < r.1 <= max,
{
    let ghost whole = fragment_lens(room as nat, max as nat, len as nat);
    let mut lens: Vec<u64> = Vec::new();
    let mut left: u64 = len;
    let mut open: u64 = room;
    assert(whole.skip(0) =~= whole);
    while left > open
        invariant
            0 < open <= max,
            whole == fragment_lens(room as nat, max as nat, len as nat),
            lens@.len() <= whole.len(),
            whole.skip(lens@.len() as int) == fragment_lens(open as nat, max as nat, left as nat),
            next_room(open as nat, max as nat, left as nat) == next_room(
                room as nat,
                max as nat,
                len as nat,
            ),
            forall|i: int| 0 <= i < lens@.len() ==> #[trigger] lens@[i] == whole[i],
        decreases left,
    {
        proof {
            let rest = whole.skip(lens@.len() as int);
            let further = fragment_lens(max as nat, max as nat, (left - open) as nat);
            assert(rest == seq![open as nat] + further);
            assert(rest[0] == whole[lens@.len() as int]);
            assert(whole.skip(lens@.len() as int + 1) =~= rest.skip(1));
            assert(rest.skip(1) =~= further);
        }
        lens.push(open);
        left = left - open;
        open = max;
    }
    proof {
        let rest = whole.skip(lens@.len() as int);
        assert(rest == seq![left as nat]);
        assert(rest[0] == whole[lens@.len() as int]);
        assert(whole.len() == lens@.len() + 1);
        lemma_next_room(open as nat, max as nat, left as nat);
    }
    lens.push(left);
    let next: u64 = if left == open {
        max
    } else {
        open - left
    };
    (lens, next)
}

} // verus!
