//! Compressing members block by block.

use vstd::prelude::*;

use crate::bytes::{copy_bytes, push_all};
use crate::error::{Error, Result};
use crate::rar50::blocks::CompressedMember;
use crate::rar50::compress::{settle_fallback_member, MemberSource};
#[allow(unused_imports)]
use crate::rar50::compress::{is_member_of, size_change_error};
#[allow(unused_imports)]
use crate::rar50::member_progress::is_stopped;
#[allow(unused_imports)]
use crate::rar50::member_progress::{lemma_hears_of_one_more, Audience};
use crate::rar50::member_progress::MemberProgress;
use crate::rar50::plan::CompressPlan;
use crate::rar50::runs::{run_size, runs_of, BlockJob, BlockMark, MemberBlock};
#[allow(unused_imports)]
use crate::rar50::runs::{are_chained, blocks_pieces, jobs_pieces, Piece};
use crate::write_progress::WriteProgress;

verus! {

/// Whether the codec may say of a block that the next chunk extends it, or that
/// it does not.
pub open spec fn may_answer<X: Fn(&[u8], &[u8]) -> bool>(
    extends: X,
    block: Seq<u8>,
    next: Seq<u8>,
    answer: bool,
) -> bool {
    exists|held: &[u8], chunk: &[u8]|
        held@ == block && chunk@ == next && #[trigger] call_ensures(
            extends,
            (held, chunk),
            answer,
        )
}

/// The chunk of a member at `from`.
pub open spec fn chunk_at(data: Seq<u8>, from: int, chunk_size: nat) -> Seq<u8> {
    if from + chunk_size <= data.len() {
        data.subrange(from, (from + chunk_size) as int)
    } else {
        data.skip(from)
    }
}

/// Whether a block reaches from `from` to `to`: at least one chunk, each further
/// one because it extends the block, and no more because the next does not or
/// there is none.
pub open spec fn is_block<X: Fn(&[u8], &[u8]) -> bool>(
    extends: X,
    data: Seq<u8>,
    chunk_size: nat,
    from: int,
    to: int,
) -> bool {
    &&& from < to <= data.len()
    &&& to < data.len() ==> (to - from) % (chunk_size as int) == 0
    &&& forall|at: int|
        from < at < to && (at - from) % (chunk_size as int) == 0 ==> #[trigger] may_answer(
            extends,
            data.subrange(from, at),
            chunk_at(data, at, chunk_size),
            true,
        )
    &&& to < data.len() ==> may_answer(
        extends,
        data.subrange(from, to),
        chunk_at(data, to, chunk_size),
        false,
    )
}

/// Reads the block that starts at `from`.
fn read_block<X: Fn(&[u8], &[u8]) -> bool>(
    data: &[u8],
    from: usize,
    chunk_size: usize,
    extends: &X,
) -> (to: usize)
    requires
        from < data@.len(),
        chunk_size > 0,
        forall|held: &[u8], chunk: &[u8]| #[trigger] call_requires(*extends, (held, chunk)),
    ensures
        is_block(*extends, data@, chunk_size as nat, from as int, to as int),
{
    let total: usize = data.len();
    let mut to: usize = if total - from <= chunk_size {
        total
    } else {
        from + chunk_size
    };
    proof {
        assert((to - from) % (chunk_size as int) == 0 || to == total) by (nonlinear_arith)
            requires
                to == total || to - from == chunk_size,
                chunk_size > 0,
        ;
        assert forall|at: int|
            from < at < to && (at - from) % (chunk_size as int) == 0 implies #[trigger] may_answer(
            *extends,
            data@.subrange(from as int, at),
            chunk_at(data@, at, chunk_size as nat),
            true,
        ) by {
            assert(at - from < chunk_size);
            assert((at - from) % (chunk_size as int) == at - from) by (nonlinear_arith)
                requires
                    0 < at - from < chunk_size,
            ;
        }
    }
    while to < total
        invariant
            from < to <= total == data@.len(),
            chunk_size > 0,
            to < total ==> (to - from) % (chunk_size as int) == 0,
            forall|held: &[u8], chunk: &[u8]| #[trigger] call_requires(*extends, (held, chunk)),
            forall|at: int|
                from < at < to && (at - from) % (chunk_size as int) == 0 ==> #[trigger] may_answer(
                    *extends,
                    data@.subrange(from as int, at),
                    chunk_at(data@, at, chunk_size as nat),
                    true,
                ),
        ensures
            is_block(*extends, data@, chunk_size as nat, from as int, to as int),
        decreases total - to,
    {
        let end: usize = if total - to <= chunk_size {
            total
        } else {
            to + chunk_size
        };
        let held = vstd::slice::slice_subrange(data, from, to);
        let chunk = vstd::slice::slice_subrange(data, to, end);
        assert(chunk@ =~= chunk_at(data@, to as int, chunk_size as nat));
        let more: bool = extends(held, chunk);
        proof {
            assert(call_ensures(*extends, (held, chunk), more));
            assert(may_answer(
                *extends,
                data@.subrange(from as int, to as int),
                chunk_at(data@, to as int, chunk_size as nat),
                more,
            ));
        }
        if !more {
            break;
        }
        proof {
            let size = chunk_size as int;
            assert forall|at: int|
                from < at < end && (at - from) % size == 0 implies #[trigger] may_answer(
                *extends,
                data@.subrange(from as int, at),
                chunk_at(data@, at, chunk_size as nat),
                true,
            ) by {
                if at > to {
                    assert((at - to) % size == 0) by {
                        vstd::arithmetic::div_mod::lemma_sub_mod_noop(
                            at - from,
                            to - from,
                            size,
                        );
                        vstd::arithmetic::div_mod::lemma_small_mod(0, size as nat);
                        assert((at - from) - (to - from) == at - to);
                    }
                    assert((at - to) % size == at - to) by (nonlinear_arith)
                        requires
                            0 < at - to < size,
                    ;
                }
            }
            if end < total {
                assert((end - from) % size == 0) by {
                    vstd::arithmetic::div_mod::lemma_mod_add_multiples_vanish(to - from, size);
                }
            }
        }
        to = end;
    }
    to
}

/// Whether some blocks cut a member, from `from` on.
pub open spec fn are_blocks<X: Fn(&[u8], &[u8]) -> bool>(
    extends: X,
    data: Seq<u8>,
    chunk_size: nat,
    member: usize,
    blocks: Seq<Piece>,
    upto: int,
) -> bool
    decreases blocks.len(),
{
    if blocks.len() == 0 {
        upto == 0
    } else {
        let last = blocks.last();
        let from = upto - last.data.len();
        &&& 0 <= from
        &&& is_block(extends, data, chunk_size, from, upto)
        &&& last.data == data.subrange(from, upto)
        &&& last.member == member
        &&& last.last == (upto == data.len())
        &&& are_blocks(extends, data, chunk_size, member, blocks.drop_last(), from)
    }
}

/// Cuts a member into blocks, behind those that are there already.
fn append_blocks<X: Fn(&[u8], &[u8]) -> bool>(
    blocks: &mut Vec<MemberBlock>,
    data: &[u8],
    member: usize,
    chunk_size: usize,
    extends: &X,
) -> (own: Ghost<Seq<Piece>>)
    requires
        chunk_size > 0,
        forall|held: &[u8], chunk: &[u8]| #[trigger] call_requires(*extends, (held, chunk)),
    ensures
        are_blocks(
            *extends,
            data@,
            chunk_size as nat,
            member,
            own@,
            data@.len() as int,
        ),
        blocks_pieces(final(blocks)@) == blocks_pieces(old(blocks)@) + own@,
{
    let total: usize = data.len();
    let ghost before = blocks_pieces(blocks@);
    let ghost mut own: Seq<Piece> = Seq::empty();
    let mut from: usize = 0;
    assert(before + own =~= before);
    while from < total
        invariant
            from <= total == data@.len(),
            chunk_size > 0,
            forall|held: &[u8], chunk: &[u8]| #[trigger] call_requires(*extends, (held, chunk)),
            are_blocks(*extends, data@, chunk_size as nat, member, own, from as int),
            blocks_pieces(blocks@) == before + own,
        decreases total - from,
    {
        let to: usize = read_block(data, from, chunk_size, extends);
        let piece = vstd::slice::slice_subrange(data, from, to);
        let block = MemberBlock { member, data: copy_bytes(piece), last: to == total };
        let ghost view = Piece { member, last: to == total, data: piece@ };
        let ghost earlier = blocks@;
        let ghost own_before = own;
        blocks.push(block);
        proof {
            own = own.push(view);
            assert(own.drop_last() =~= own_before);
            assert(blocks_pieces(blocks@) =~= blocks_pieces(earlier).push(view));
            assert(before + own =~= (before + own_before).push(view));
        }
        from = to;
    }
    Ghost(own)
}

pub open spec fn outs_view(outs: Seq<Vec<u8>>) -> Seq<Seq<u8>> {
    Seq::new(outs.len(), |i: int| outs[i]@)
}

/// Whether a codec takes any run and packs each of its blocks.
pub open spec fn is_block_codec<B: Fn(&BlockJob) -> Result<Vec<Vec<u8>>>>(encode: B) -> bool {
    &&& forall|job: &BlockJob| #[trigger] call_requires(encode, (job,))
    &&& forall|job: &BlockJob, out: Vec<Vec<u8>>| #[trigger]
        call_ensures(encode, (job,), Ok::<Vec<Vec<u8>>, Error>(out)) ==> out@.len()
            == job.blocks@.len()
}

/// Whether the codec may pack a run like this.
pub open spec fn packs_to<B: Fn(&BlockJob) -> Result<Vec<Vec<u8>>>>(
    encode: B,
    job: BlockJob,
    out: Seq<Seq<u8>>,
) -> bool {
    exists|made: Vec<Vec<u8>>|
        outs_view(made@) == out && #[trigger] call_ensures(
            encode,
            (&job,),
            Ok::<Vec<Vec<u8>>, Error>(made),
        )
}

/// Whether each run is packed.
pub open spec fn are_packed<B: Fn(&BlockJob) -> Result<Vec<Vec<u8>>>>(
    encode: B,
    jobs: Seq<BlockJob>,
    results: Seq<Seq<Seq<u8>>>,
) -> bool {
    &&& results.len() == jobs.len()
    &&& forall|j: int| 0 <= j < jobs.len() ==> packs_to(encode, jobs[j], #[trigger] results[j])
}

/// What a member gets of one run.
pub open spec fn packed_in_run(
    member: int,
    marks: Seq<BlockMark>,
    outs: Seq<Seq<u8>>,
) -> Seq<u8>
    decreases marks.len(),
{
    if marks.len() == 0 {
        Seq::empty()
    } else {
        packed_in_run(member, marks.drop_last(), outs.drop_last()) + (if marks.last().member
            == member {
            outs.last()
        } else {
            Seq::empty()
        })
    }
}

/// What a member gets of some runs, in the order of the runs.
pub open spec fn packed_in(
    member: int,
    jobs: Seq<BlockJob>,
    results: Seq<Seq<Seq<u8>>>,
) -> Seq<u8>
    decreases jobs.len(),
{
    if jobs.len() == 0 {
        Seq::empty()
    } else {
        packed_in(member, jobs.drop_last(), results.drop_last()) + packed_in_run(
            member,
            jobs.last().blocks@,
            results.last(),
        )
    }
}

proof fn lemma_members_in_runs(jobs: Seq<BlockJob>, count: nat)
    requires
        forall|i: int|
            0 <= i < jobs_pieces(jobs).len() ==> (#[trigger] jobs_pieces(jobs)[i]).member < count,
    ensures
        forall|j: int, b: int|
            #![trigger jobs[j].blocks@[b]]
            0 <= j < jobs.len() && 0 <= b < jobs[j].blocks@.len() ==> jobs[j].blocks@[b].member
                < count,
    decreases jobs.len(),
{
    if jobs.len() > 0 {
        let before = jobs.drop_last();
        let all = jobs_pieces(jobs);
        let earlier = jobs_pieces(before);
        let own = crate::rar50::runs::pieces_of(jobs.last().data@, jobs.last().blocks@);
        assert(all == earlier + own);
        assert forall|i: int| 0 <= i < earlier.len() implies (#[trigger] earlier[i]).member
            < count by {
            assert(all[i] == earlier[i]);
        }
        lemma_members_in_runs(before, count);
        assert forall|j: int, b: int|
            #![trigger jobs[j].blocks@[b]]
            0 <= j < jobs.len() && 0 <= b < jobs[j].blocks@.len() implies jobs[j].blocks@[b].member
            < count by {
            if j < before.len() {
                assert(jobs[j] == before[j]);
                assert(before[j].blocks@[b].member < count);
            } else {
                assert(jobs[j] == jobs.last());
                assert(all[earlier.len() + b] == own[b]);
            }
        }
    }
}

/// Appends one packed run to its members.
fn append_run(packed: &mut Vec<Vec<u8>>, marks: &Vec<BlockMark>, outs: &Vec<Vec<u8>>)
    requires
        marks@.len() == outs@.len(),
        forall|b: int| 0 <= b < marks@.len() ==> (#[trigger] marks@[b]).member < old(packed)@.len(),
    ensures
        final(packed)@.len() == old(packed)@.len(),
        forall|m: int|
            0 <= m < old(packed)@.len() ==> (#[trigger] final(packed)@[m])@ == old(packed)@[m]@
                + packed_in_run(m, marks@, outs_view(outs@)),
{
    let ghost before = packed@;
    let ghost view = outs_view(outs@);
    let mut at: usize = 0;
    assert(marks@.take(0) =~= Seq::empty());
    assert forall|m: int| 0 <= m < before.len() implies (#[trigger] packed@[m])@ == before[m]@
        + packed_in_run(m, marks@.take(0), view.take(0)) by {
        assert(before[m]@ + Seq::<u8>::empty() =~= before[m]@);
    }
    while at < marks.len()
        invariant
            at <= marks@.len(),
            marks@.len() == outs@.len(),
            view == outs_view(outs@),
            packed@.len() == before.len(),
            forall|b: int| 0 <= b < marks@.len() ==> (#[trigger] marks@[b]).member < before.len(),
            forall|m: int|
                0 <= m < before.len() ==> (#[trigger] packed@[m])@ == before[m]@ + packed_in_run(
                    m,
                    marks@.take(at as int),
                    view.take(at as int),
                ),
        decreases marks@.len() - at,
    {
        let member: usize = marks[at].member;
        let ghost earlier = packed@;
        push_all(&mut packed[member], &outs[at]);
        proof {
            assert(marks@.take(at + 1).drop_last() =~= marks@.take(at as int));
            assert(view.take(at + 1).drop_last() =~= view.take(at as int));
            assert(marks@.take(at + 1).last() == marks@[at as int]);
            assert(view.take(at + 1).last() == outs@[at as int]@);
            assert forall|m: int| 0 <= m < before.len() implies (#[trigger] packed@[m])@
                == before[m]@ + packed_in_run(m, marks@.take(at + 1), view.take(at + 1)) by {
                let so_far = packed_in_run(m, marks@.take(at as int), view.take(at as int));
                if m == member {
                    assert(packed@[m]@ == earlier[m]@ + outs@[at as int]@);
                    assert(before[m]@ + so_far + outs@[at as int]@ =~= before[m]@ + (so_far
                        + outs@[at as int]@));
                } else {
                    assert(packed@[m] == earlier[m]);
                    assert(so_far + Seq::<u8>::empty() =~= so_far);
                }
            }
        }
        at = at + 1;
    }
    assert(marks@.take(marks@.len() as int) =~= marks@);
    assert(view.take(marks@.len() as int) =~= view);
}

/// Tells of the blocks of a run that are packed, and of the members that end in
/// it.
fn report_run<P: WriteProgress>(
    marks: &Vec<BlockMark>,
    watch: &mut MemberProgress<'_, P>,
    first: usize,
    Ghost(count): Ghost<nat>,
) -> (r: Result<()>)
    requires
        forall|b: int| 0 <= b < marks@.len() ==> (#[trigger] marks@[b]).member < count,
        old(watch).is_valid(),
        old(watch).covers(first as int, count),
    ensures
        final(watch).continues(*old(watch)),
        r matches Err(error) ==> old(watch).is_stop(error),
        r is Ok ==> forall|b: int|
            0 <= b < marks@.len() && (#[trigger] marks@[b]).last
                ==> old(watch).audience().hears(false, first + marks@[b].member),
{
    let mut from: usize = 0;
    let mut at: usize = 0;
    while at < marks.len()
        invariant
            at <= marks@.len(),
            forall|b: int| 0 <= b < marks@.len() ==> (#[trigger] marks@[b]).member < count,
            old(watch).covers(first as int, count),
            watch.is_valid(),
            watch.continues(*old(watch)),
            forall|b: int|
                0 <= b < at && (#[trigger] marks@[b]).last ==> watch.audience().hears(
                    false,
                    first + marks@[b].member,
                ),
        decreases marks@.len() - at,
    {
        let mark: &BlockMark = &marks[at];
        let bytes: usize = if mark.end > from {
            mark.end - from
        } else {
            0
        };
        match watch.advance(bytes as u64) {
            Ok(()) => {},
            Err(error) => {
                return Err(error);
            },
        }
        if mark.last {
            watch.finished(first + mark.member);
        }
        from = mark.end;
        at = at + 1;
    }
    Ok(())
}

/// Whether a receiver gets of each member that ends in some blocks that it is packed.
pub open spec fn hears_of_ends<P: WriteProgress>(
    audience: Audience<'_, P>,
    first: usize,
    pieces: Seq<Piece>,
) -> bool {
    forall|i: int|
        0 <= i < pieces.len() && (#[trigger] pieces[i]).last ==> audience.hears(
            false,
            first + pieces[i].member,
        )
}

proof fn lemma_ends_heard<P: WriteProgress>(
    audience: Audience<'_, P>,
    first: usize,
    jobs: Seq<BlockJob>,
    job: BlockJob,
)
    requires
        hears_of_ends(audience, first, jobs_pieces(jobs)),
        forall|b: int|
            0 <= b < job.blocks@.len() && (#[trigger] job.blocks@[b]).last ==> audience.hears(
                false,
                first + job.blocks@[b].member,
            ),
    ensures
        hears_of_ends(audience, first, jobs_pieces(jobs.push(job))),
{
    let all = jobs.push(job);
    let earlier = jobs_pieces(jobs);
    let own = crate::rar50::runs::pieces_of(job.data@, job.blocks@);
    assert(all.drop_last() =~= jobs);
    assert(jobs_pieces(all) == earlier + own);
    assert forall|i: int| 0 <= i < (earlier + own).len() && (#[trigger] (earlier + own)[i]).last
        implies audience.hears(false, first + (earlier + own)[i].member) by {
        if i < earlier.len() {
            assert((earlier + own)[i] == earlier[i]);
        } else {
            let b = i - earlier.len();
            assert((earlier + own)[i] == own[b]);
            assert(job.blocks@[b].last);
        }
    }
}

/// Packs runs and appends the results to their members, in the order of the
/// runs, so that the output does not depend on scheduling. The ghost lists what
/// the codec gave.
pub fn compress_wave<B: Fn(&BlockJob) -> Result<Vec<Vec<u8>>>, P: WriteProgress>(
    jobs: &Vec<BlockJob>,
    packed: &mut Vec<Vec<u8>>,
    encode: &B,
    watch: &mut MemberProgress<'_, P>,
    first: usize,
) -> (r: Result<Ghost<Seq<Seq<Seq<u8>>>>>)
    requires
        is_block_codec(*encode),
        old(watch).is_valid(),
        old(watch).covers(first as int, old(packed)@.len()),
        forall|i: int|
            0 <= i < jobs_pieces(jobs@).len() ==> (#[trigger] jobs_pieces(jobs@)[i]).member
                < old(packed)@.len(),
    ensures
        final(watch).continues(*old(watch)),
        final(packed)@.len() == old(packed)@.len(),
        match r {
            Ok(results) => are_packed(*encode, jobs@, results@) && forall|m: int|
                0 <= m < old(packed)@.len() ==> (#[trigger] final(packed)@[m])@
                    == old(packed)@[m]@ + packed_in(m, jobs@, results@),
            Err(error) => old(watch).is_stop(error) || exists|j: int|
                0 <= j < jobs@.len() && call_ensures(
                    *encode,
                    (#[trigger] &jobs@[j],),
                    Err::<Vec<Vec<u8>>, Error>(error),
                ),
        },
        r is Ok ==> hears_of_ends(old(watch).audience(), first, jobs_pieces(jobs@)),
{
    let ghost before = packed@;
    let ghost mut results: Seq<Seq<Seq<u8>>> = Seq::empty();
    let mut at: usize = 0;
    proof {
        lemma_members_in_runs(jobs@, before.len());
        assert(jobs@.take(0) =~= Seq::empty());
        assert forall|m: int| 0 <= m < before.len() implies (#[trigger] packed@[m])@ == before[m]@
            + packed_in(m, jobs@.take(0), results) by {
            assert(before[m]@ + Seq::<u8>::empty() =~= before[m]@);
        }
    }
    while at < jobs.len()
        invariant
            at <= jobs@.len(),
            is_block_codec(*encode),
            old(watch).covers(first as int, before.len()),
            watch.is_valid(),
            watch.continues(*old(watch)),
            before == old(packed)@,
            packed@.len() == before.len(),
            results.len() == at,
            hears_of_ends(watch.audience(), first, jobs_pieces(jobs@.take(at as int))),
            forall|j: int, b: int|
                #![trigger jobs@[j].blocks@[b]]
                0 <= j < jobs@.len() && 0 <= b < jobs@[j].blocks@.len()
                    ==> jobs@[j].blocks@[b].member < before.len(),
            forall|j: int| 0 <= j < at ==> packs_to(*encode, jobs@[j], #[trigger] results[j]),
            forall|m: int|
                0 <= m < before.len() ==> (#[trigger] packed@[m])@ == before[m]@ + packed_in(
                    m,
                    jobs@.take(at as int),
                    results,
                ),
        decreases jobs@.len() - at,
    {
        let job: &BlockJob = &jobs[at];
        let outs = match encode(job) {
            Ok(outs) => outs,
            Err(error) => {
                assert(call_ensures(
                    *encode,
                    (&jobs@[at as int],),
                    Err::<Vec<Vec<u8>>, Error>(error),
                ));
                return Err(error);
            },
        };
        assert(call_ensures(*encode, (&jobs@[at as int],), Ok::<Vec<Vec<u8>>, Error>(outs)));
        let ghost earlier = packed@;
        let ghost results_before = results;
        assert forall|b: int| 0 <= b < job.blocks@.len() implies (#[trigger] job.blocks@[b]).member
            < packed@.len() by {
            assert(jobs@[at as int].blocks@[b].member < before.len());
        }
        append_run(packed, &job.blocks, &outs);
        match report_run(&job.blocks, watch, first, Ghost(before.len())) {
            Ok(()) => {},
            Err(error) => {
                return Err(error);
            },
        }
        proof {
            results = results.push(outs_view(outs@));
            assert(packs_to(*encode, jobs@[at as int], outs_view(outs@)));
            assert(results.drop_last() =~= results_before);
            assert(jobs@.take(at + 1).drop_last() =~= jobs@.take(at as int));
            assert(jobs@.take(at + 1).last() == jobs@[at as int]);
            lemma_ends_heard(watch.audience(), first, jobs@.take(at as int), *job);
            assert(jobs@.take(at as int).push(*job) =~= jobs@.take(at + 1));
            assert forall|j: int| 0 <= j < at + 1 implies packs_to(
                *encode,
                jobs@[j],
                #[trigger] results[j],
            ) by {
                if j < at {
                    assert(results[j] == results_before[j]);
                }
            }
            assert forall|m: int| 0 <= m < before.len() implies (#[trigger] packed@[m])@
                == before[m]@ + packed_in(m, jobs@.take(at + 1), results) by {
                let so_far = packed_in(m, jobs@.take(at as int), results_before);
                let own = packed_in_run(m, job.blocks@, outs_view(outs@));
                assert(packed@[m]@ == earlier[m]@ + own);
                assert(before[m]@ + so_far + own =~= before[m]@ + (so_far + own));
            }
        }
        at = at + 1;
    }
    assert(jobs@.take(jobs@.len() as int) =~= jobs@);
    Ok(Ghost(results))
}

/// Whether members are packed from one chain of blocks, cut into runs that each
/// have the input before them within reach.
pub open spec fn is_chain<B: Fn(&BlockJob) -> Result<Vec<Vec<u8>>>>(
    encode: B,
    reach: usize,
    pieces: Seq<Piece>,
    jobs: Seq<BlockJob>,
    results: Seq<Seq<Seq<u8>>>,
) -> bool {
    &&& jobs_pieces(jobs) == pieces
    &&& are_chained(jobs, reach)
    &&& are_packed(encode, jobs, results)
}

/// Whether the codec may fail with this error on some run.
pub open spec fn block_codec_fails<B: Fn(&BlockJob) -> Result<Vec<Vec<u8>>>>(
    encode: B,
    error: Error,
) -> bool {
    exists|job: &BlockJob| #[trigger]
        call_ensures(encode, (job,), Err::<Vec<Vec<u8>>, Error>(error))
}

/// Packs one chain of blocks.
fn compress_chain<B: Fn(&BlockJob) -> Result<Vec<Vec<u8>>>, P: WriteProgress>(
    blocks: &Vec<MemberBlock>,
    plan: &CompressPlan,
    packed: &mut Vec<Vec<u8>>,
    encode: &B,
    watch: &mut MemberProgress<'_, P>,
    first: usize,
) -> (r: Result<(Ghost<Seq<BlockJob>>, Ghost<Seq<Seq<Seq<u8>>>>)>)
    requires
        is_block_codec(*encode),
        old(watch).is_valid(),
        old(watch).covers(first as int, old(packed)@.len()),
        forall|i: int| 0 <= i < blocks@.len() ==> (#[trigger] blocks@[i]).member < old(packed)@.len(),
    ensures
        final(watch).continues(*old(watch)),
        final(packed)@.len() == old(packed)@.len(),
        match r {
            Ok((jobs, results)) => is_chain(
                *encode,
                plan.encode_options.max_match_distance,
                blocks_pieces(blocks@),
                jobs@,
                results@,
            ) && forall|m: int|
                0 <= m < old(packed)@.len() ==> (#[trigger] final(packed)@[m])@
                    == old(packed)@[m]@ + packed_in(m, jobs@, results@),
            Err(error) => old(watch).is_stop(error) || block_codec_fails(*encode, error),
        },
        r is Ok ==> hears_of_ends(old(watch).audience(), first, blocks_pieces(blocks@)),
{
    let size: usize = run_size(plan);
    let jobs = runs_of(blocks, size, plan.encode_options.max_match_distance);
    assert forall|i: int| 0 <= i < jobs_pieces(jobs@).len() implies (
    #[trigger] jobs_pieces(jobs@)[i]).member < packed@.len() by {
        assert(jobs_pieces(jobs@)[i] == blocks_pieces(blocks@)[i]);
        assert(blocks@[i].member < packed@.len());
    }
    match compress_wave(&jobs, packed, encode, watch, first) {
        Ok(results) => Ok((Ghost(jobs@), results)),
        Err(error) => Err(error),
    }
}

/// Lists put together.
pub open spec fn flat(lists: Seq<Seq<Piece>>) -> Seq<Piece>
    decreases lists.len(),
{
    if lists.len() == 0 {
        Seq::empty()
    } else {
        flat(lists.drop_last()) + lists.last()
    }
}

/// What is in one of some lists is in all of them put together.
proof fn lemma_in_flat(lists: Seq<Seq<Piece>>, m: int, k: int) -> (at: int)
    requires
        0 <= m < lists.len(),
        0 <= k < lists[m].len(),
    ensures
        0 <= at < flat(lists).len(),
        flat(lists)[at] == lists[m][k],
    decreases lists.len(),
{
    let earlier = flat(lists.drop_last());
    if m == lists.len() - 1 {
        earlier.len() as int + k
    } else {
        lemma_in_flat(lists.drop_last(), m, k)
    }
}

/// Whether these are the blocks of each member.
pub open spec fn are_cut<X: Fn(&[u8], &[u8]) -> bool>(
    extends: X,
    sources: Seq<MemberSource>,
    chunk_size: nat,
    own: Seq<Seq<Piece>>,
) -> bool {
    &&& own.len() == sources.len()
    &&& forall|m: int|
        0 <= m < sources.len() ==> are_blocks(
            extends,
            sources[m].data@,
            chunk_size,
            m as usize,
            #[trigger] own[m],
            sources[m].data@.len() as int,
        )
}

/// Whether every source has the length it announced.
pub open spec fn keep_their_sizes(sources: Seq<MemberSource>) -> bool {
    forall|m: int| 0 <= m < sources.len() ==> (#[trigger] sources[m]).keeps_its_size()
}

fn check_sizes(sources: &[MemberSource]) -> (r: Result<()>)
    ensures
        r == (if keep_their_sizes(sources@) {
            Ok::<(), Error>(())
        } else {
            Err(size_change_error())
        }),
{
    let mut at: usize = 0;
    while at < sources.len()
        invariant
            at <= sources@.len(),
            forall|m: int| 0 <= m < at ==> (#[trigger] sources@[m]).keeps_its_size(),
        decreases sources@.len() - at,
    {
        match sources[at].check_source_end() {
            Ok(()) => {},
            Err(error) => {
                assert(!sources@[at as int].keeps_its_size());
                return Err(error);
            },
        }
        at = at + 1;
    }
    Ok(())
}

/// Takes up a member, unless the write is to stop. One that is empty is done
/// with right away.
fn take_up<P: WriteProgress>(watch: &mut MemberProgress<'_, P>, index: usize) -> (r: Result<()>)
    requires
        old(watch).is_valid(),
        index < old(watch).count(),
    ensures
        final(watch).continues(*old(watch)),
        r matches Err(error) ==> old(watch).is_stop(error),
        r is Ok ==> old(watch).audience().hears(true, index as int),
        r is Ok && old(watch).audience().sources[index as int].input_size == 0
            ==> old(watch).audience().hears(false, index as int),
{
    watch.started(index);
    match watch.check() {
        Ok(()) => {},
        Err(error) => {
            return Err(error);
        },
    }
    if watch.is_empty(index) {
        watch.finished(index);
    }
    Ok(())
}

fn empty_outputs(count: usize) -> (packed: Vec<Vec<u8>>)
    ensures
        packed@.len() == count,
        forall|m: int| 0 <= m < count ==> (#[trigger] packed@[m])@ == Seq::<u8>::empty(),
{
    let mut packed: Vec<Vec<u8>> = Vec::new();
    while packed.len() < count
        invariant
            packed@.len() <= count,
            forall|m: int| 0 <= m < packed@.len() ==> (#[trigger] packed@[m])@ == Seq::<u8>::empty(),
        decreases count - packed@.len(),
    {
        packed.push(Vec::new());
    }
    packed
}

/// Packs members through one dictionary that runs through all of them in order.
pub fn compress_solid_chain<
    X: Fn(&[u8], &[u8]) -> bool,
    B: Fn(&BlockJob) -> Result<Vec<Vec<u8>>>,
    P: WriteProgress,
>(
    sources: &[MemberSource],
    plan: &CompressPlan,
    extends: &X,
    encode: &B,
    watch: &mut MemberProgress<'_, P>,
    first: usize,
) -> (r: Result<Vec<Vec<u8>>>)
    requires
        old(watch).is_valid(),
        old(watch).covers(first as int, sources@.len()),
        plan.block_size > 0,
        forall|held: &[u8], chunk: &[u8]| #[trigger] call_requires(*extends, (held, chunk)),
        is_block_codec(*encode),
    ensures
        final(watch).continues(*old(watch)),
        if !keep_their_sizes(sources@) {
            r == Err::<Vec<Vec<u8>>, Error>(size_change_error())
        } else {
            match r {
                Ok(packed) => packed@.len() == sources@.len() && exists|
                    own: Seq<Seq<Piece>>,
                    jobs: Seq<BlockJob>,
                    results: Seq<Seq<Seq<u8>>>,
                |
                    {
                        &&& are_cut(*extends, sources@, plan.block_size as nat, own)
                        &&& #[trigger] is_chain(
                            *encode,
                            plan.encode_options.max_match_distance,
                            flat(own),
                            jobs,
                            results,
                        )
                        &&& forall|m: int|
                            0 <= m < packed@.len() ==> (#[trigger] packed@[m])@ == packed_in(
                                m,
                                jobs,
                                results,
                            )
                    },
                Err(error) => old(watch).is_stop(error) || block_codec_fails(*encode, error),
            }
        },
        r is Ok && old(watch).audience().expects(first as int, sources@)
            ==> old(watch).audience().hears_of(first as int, sources@.len()),
{
    match check_sizes(sources) {
        Ok(()) => {},
        Err(error) => {
            return Err(error);
        },
    }
    let count: usize = sources.len();
    let mut blocks: Vec<MemberBlock> = Vec::new();
    let ghost mut own: Seq<Seq<Piece>> = Seq::empty();
    let mut at: usize = 0;
    assert(blocks_pieces(blocks@) =~= flat(own));
    while at < count
        invariant
            at <= count == sources@.len(),
            keep_their_sizes(sources@),
            old(watch).covers(first as int, count as nat),
            watch.is_valid(),
            watch.continues(*old(watch)),
            plan.block_size > 0,
            forall|held: &[u8], chunk: &[u8]| #[trigger] call_requires(*extends, (held, chunk)),
            own.len() == at,
            forall|i: int|
                first <= i < first + at ==> #[trigger] watch.audience().hears(true, i) && (
                watch.audience().sources[i].input_size == 0 ==> watch.audience().hears(false, i)),
            blocks_pieces(blocks@) == flat(own),
            forall|i: int| 0 <= i < flat(own).len() ==> (#[trigger] flat(own)[i]).member < count,
            forall|m: int|
                0 <= m < at ==> are_blocks(
                    *extends,
                    sources@[m].data@,
                    plan.block_size as nat,
                    m as usize,
                    #[trigger] own[m],
                    sources@[m].data@.len() as int,
                ),
        decreases count - at,
    {
        let ghost own_before = own;
        match take_up(watch, first + at) {
            Ok(()) => {},
            Err(error) => {
                return Err(error);
            },
        }
        let pieces = append_blocks(&mut blocks, &sources[at].data, at, plan.block_size, extends);
        proof {
            own = own.push(pieces@);
            assert(own.drop_last() =~= own_before);
            lemma_blocks_belong(
                *extends,
                sources@[at as int].data@,
                plan.block_size as nat,
                at,
                pieces@,
                sources@[at as int].data@.len() as int,
            );
            assert forall|i: int| 0 <= i < flat(own).len() implies (#[trigger] flat(own)[i]).member
                < count by {
                let earlier = flat(own_before);
                if i < earlier.len() {
                    assert(flat(own)[i] == earlier[i]);
                } else {
                    assert(flat(own)[i] == pieces@[i - earlier.len()]);
                }
            }
            assert forall|m: int| 0 <= m < at + 1 implies are_blocks(
                *extends,
                sources@[m].data@,
                plan.block_size as nat,
                m as usize,
                #[trigger] own[m],
                sources@[m].data@.len() as int,
            ) by {
                if m < at {
                    assert(own[m] == own_before[m]);
                }
            }
        }
        at = at + 1;
    }
    let mut packed = empty_outputs(count);
    assert forall|i: int| 0 <= i < blocks@.len() implies (#[trigger] blocks@[i]).member
        < packed@.len() by {
        assert(blocks_pieces(blocks@)[i].member == blocks@[i].member);
        assert(flat(own)[i].member < count);
    }
    match compress_chain(&blocks, plan, &mut packed, encode, watch, first) {
        Ok((jobs, results)) => {
            proof {
                assert(are_cut(*extends, sources@, plan.block_size as nat, own));
                let audience = watch.audience();
                if audience.expects(first as int, sources@) {
                    assert forall|i: int| first <= i < first + count implies #[trigger]
                        audience.hears(false, i) by {
                        let m = i - first;
                        assert(audience.hears(true, i));
                        assert(audience.sources[first + m].input_size == sources@[m].input_size);
                        if sources@[m].input_size > 0 {
                            assert(sources@[m].keeps_its_size());
                            assert(own[m].len() > 0);
                            assert(own[m].last().last && own[m].last().member == m);
                            let at = lemma_in_flat(own, m, own[m].len() - 1);
                            assert(blocks_pieces(blocks@)[at] == own[m].last());
                        }
                    }
                }
                assert(is_chain(
                    *encode,
                    plan.encode_options.max_match_distance,
                    flat(own),
                    jobs@,
                    results@,
                ));
                assert forall|m: int| 0 <= m < packed@.len() implies (#[trigger] packed@[m])@
                    == packed_in(m, jobs@, results@) by {
                    assert(Seq::<u8>::empty() + packed_in(m, jobs@, results@) =~= packed_in(
                        m,
                        jobs@,
                        results@,
                    ));
                }
            }
            Ok(packed)
        },
        Err(error) => Err(error),
    }
}

proof fn lemma_blocks_belong<X: Fn(&[u8], &[u8]) -> bool>(
    extends: X,
    data: Seq<u8>,
    chunk_size: nat,
    member: usize,
    blocks: Seq<Piece>,
    upto: int,
)
    requires
        are_blocks(extends, data, chunk_size, member, blocks, upto),
    ensures
        forall|i: int| 0 <= i < blocks.len() ==> (#[trigger] blocks[i]).member == member,
    decreases blocks.len(),
{
    if blocks.len() > 0 {
        let last = blocks.last();
        lemma_blocks_belong(
            extends,
            data,
            chunk_size,
            member,
            blocks.drop_last(),
            upto - last.data.len(),
        );
        assert forall|i: int| 0 <= i < blocks.len() implies (#[trigger] blocks[i]).member
            == member by {
            if i < blocks.len() - 1 {
                assert(blocks.drop_last()[i] == blocks[i]);
            }
        }
    }
}

/// The data of blocks, put together.
pub open spec fn pieces_data(pieces: Seq<Piece>) -> Seq<u8>
    decreases pieces.len(),
{
    if pieces.len() == 0 {
        Seq::empty()
    } else {
        pieces_data(pieces.drop_last()) + pieces.last().data
    }
}

/// Cutting a member into blocks loses and moves nothing.
pub proof fn law_blocks_rejoin<X: Fn(&[u8], &[u8]) -> bool>(
    extends: X,
    data: Seq<u8>,
    chunk_size: nat,
    member: usize,
    blocks: Seq<Piece>,
    upto: int,
)
    requires
        are_blocks(extends, data, chunk_size, member, blocks, upto),
        upto <= data.len(),
    ensures
        pieces_data(blocks) == data.take(upto),
    decreases blocks.len(),
{
    if blocks.len() == 0 {
        assert(pieces_data(blocks) =~= data.take(upto));
    } else {
        let from = upto - blocks.last().data.len();
        law_blocks_rejoin(extends, data, chunk_size, member, blocks.drop_last(), from);
        assert(data.take(from) + data.subrange(from, upto) =~= data.take(upto));
    }
}

/// Whether a member is packed on its own.
pub open spec fn is_packed_alone<
    X: Fn(&[u8], &[u8]) -> bool,
    B: Fn(&BlockJob) -> Result<Vec<Vec<u8>>>,
>(
    extends: X,
    encode: B,
    plan: CompressPlan,
    member: int,
    data: Seq<u8>,
    packed: Seq<u8>,
) -> bool {
    exists|own: Seq<Piece>, jobs: Seq<BlockJob>, results: Seq<Seq<Seq<u8>>>|
        {
            &&& are_blocks(
                extends,
                data,
                plan.block_size as nat,
                member as usize,
                own,
                data.len() as int,
            )
            &&& #[trigger] is_chain(
                encode,
                plan.encode_options.max_match_distance,
                own,
                jobs,
                results,
            )
            &&& packed == packed_in(member, jobs, results)
        }
}

/// Packs members that each have a dictionary of their own.
pub fn compress_independent_members<
    X: Fn(&[u8], &[u8]) -> bool,
    B: Fn(&BlockJob) -> Result<Vec<Vec<u8>>>,
    P: WriteProgress,
>(
    sources: &[MemberSource],
    plan: &CompressPlan,
    extends: &X,
    encode: &B,
    watch: &mut MemberProgress<'_, P>,
    first: usize,
) -> (r: Result<Vec<Vec<u8>>>)
    requires
        old(watch).is_valid(),
        old(watch).covers(first as int, sources@.len()),
        plan.block_size > 0,
        forall|held: &[u8], chunk: &[u8]| #[trigger] call_requires(*extends, (held, chunk)),
        is_block_codec(*encode),
    ensures
        final(watch).continues(*old(watch)),
        if !keep_their_sizes(sources@) {
            r == Err::<Vec<Vec<u8>>, Error>(size_change_error())
        } else {
            match r {
                Ok(packed) => packed@.len() == sources@.len() && forall|m: int|
                    0 <= m < sources@.len() ==> is_packed_alone(
                        *extends,
                        *encode,
                        *plan,
                        m,
                        sources@[m].data@,
                        #[trigger] packed@[m]@,
                    ),
                Err(error) => old(watch).is_stop(error) || block_codec_fails(*encode, error),
            }
        },
        r is Ok && old(watch).audience().expects(first as int, sources@)
            ==> old(watch).audience().hears_of(first as int, sources@.len()),
{
    match check_sizes(sources) {
        Ok(()) => {},
        Err(error) => {
            return Err(error);
        },
    }
    let count: usize = sources.len();
    let mut packed = empty_outputs(count);
    let mut at: usize = 0;
    while at < count
        invariant
            at <= count == sources@.len(),
            packed@.len() == count,
            plan.block_size > 0,
            keep_their_sizes(sources@),
            old(watch).covers(first as int, count as nat),
            watch.is_valid(),
            watch.continues(*old(watch)),
            forall|held: &[u8], chunk: &[u8]| #[trigger] call_requires(*extends, (held, chunk)),
            is_block_codec(*encode),
            old(watch).audience().expects(first as int, sources@)
                ==> watch.audience().hears_of(first as int, at as nat),
            forall|m: int| at <= m < count ==> (#[trigger] packed@[m])@ == Seq::<u8>::empty(),
            forall|m: int|
                0 <= m < at ==> is_packed_alone(
                    *extends,
                    *encode,
                    *plan,
                    m,
                    sources@[m].data@,
                    #[trigger] packed@[m]@,
                ),
        decreases count - at,
    {
        let ghost before = packed@;
        match take_up(watch, first + at) {
            Ok(()) => {},
            Err(error) => {
                return Err(error);
            },
        }
        let mut blocks: Vec<MemberBlock> = Vec::new();
        let ghost nothing = blocks_pieces(blocks@);
        assert(nothing =~= Seq::empty());
        let own = append_blocks(&mut blocks, &sources[at].data, at, plan.block_size, extends);
        proof {
            assert(blocks_pieces(blocks@) =~= own@);
            lemma_blocks_belong(
                *extends,
                sources@[at as int].data@,
                plan.block_size as nat,
                at,
                own@,
                sources@[at as int].data@.len() as int,
            );
            assert forall|i: int| 0 <= i < blocks@.len() implies (#[trigger] blocks@[i]).member
                < packed@.len() by {
                assert(own@[i].member == blocks@[i].member);
            }
        }
        match compress_chain(&blocks, plan, &mut packed, encode, watch, first) {
            Ok((jobs, results)) => {
                proof {
                    assert(is_chain(
                        *encode,
                        plan.encode_options.max_match_distance,
                        own@,
                        jobs@,
                        results@,
                    ));
                    let audience = watch.audience();
                    if audience.expects(first as int, sources@) {
                        assert(audience.sources[first + at].input_size
                            == sources@[at as int].input_size);
                        if sources@[at as int].input_size > 0 {
                            assert(sources@[at as int].keeps_its_size());
                            assert(own@.last().last && own@.last().member == at);
                            assert(blocks_pieces(blocks@)[own@.len() - 1] == own@.last());
                        }
                        lemma_hears_of_one_more(audience, first as int, at as nat);
                    }
                    assert(Seq::<u8>::empty() + packed_in(at as int, jobs@, results@)
                        =~= packed_in(at as int, jobs@, results@));
                    assert(packed@[at as int]@ == packed_in(at as int, jobs@, results@));
                    assert(is_packed_alone(
                        *extends,
                        *encode,
                        *plan,
                        at as int,
                        sources@[at as int].data@,
                        packed@[at as int]@,
                    ));
                    assert forall|m: int| 0 <= m < count && m != at implies (
                    #[trigger] packed@[m])@ == before[m]@ by {
                        lemma_no_share(m, own@, jobs@, results@);
                        assert(before[m]@ + Seq::<u8>::empty() =~= before[m]@);
                    }
                }
            },
            Err(error) => {
                return Err(error);
            },
        }
        at = at + 1;
    }
    Ok(packed)
}

proof fn lemma_no_share_in_run(member: int, marks: Seq<BlockMark>, outs: Seq<Seq<u8>>)
    requires
        forall|b: int| 0 <= b < marks.len() ==> (#[trigger] marks[b]).member != member,
    ensures
        packed_in_run(member, marks, outs) == Seq::<u8>::empty(),
    decreases marks.len(),
{
    if marks.len() > 0 {
        assert forall|b: int| 0 <= b < marks.drop_last().len() implies (
        #[trigger] marks.drop_last()[b]).member != member by {
            assert(marks.drop_last()[b] == marks[b]);
        }
        lemma_no_share_in_run(member, marks.drop_last(), outs.drop_last());
        assert(marks.last() == marks[marks.len() - 1]);
    }
}

/// A member without blocks in a chain gets nothing of it.
proof fn lemma_no_share(
    member: int,
    pieces: Seq<Piece>,
    jobs: Seq<BlockJob>,
    results: Seq<Seq<Seq<u8>>>,
)
    requires
        jobs_pieces(jobs) == pieces,
        forall|i: int| 0 <= i < pieces.len() ==> (#[trigger] pieces[i]).member != member,
    ensures
        packed_in(member, jobs, results) == Seq::<u8>::empty(),
    decreases jobs.len(),
{
    if jobs.len() > 0 {
        let before = jobs.drop_last();
        let earlier = jobs_pieces(before);
        let own = crate::rar50::runs::pieces_of(jobs.last().data@, jobs.last().blocks@);
        assert(pieces == earlier + own);
        assert forall|i: int| 0 <= i < earlier.len() implies (#[trigger] earlier[i]).member
            != member by {
            assert(pieces[i] == earlier[i]);
        }
        lemma_no_share(member, earlier, before, results.drop_last());
        assert forall|b: int| 0 <= b < jobs.last().blocks@.len() implies (
        #[trigger] jobs.last().blocks@[b]).member != member by {
            assert(pieces[earlier.len() + b] == own[b]);
        }
        lemma_no_share_in_run(member, jobs.last().blocks@, results.last());
    }
}

/// What comes of packing members block by block.
pub open spec fn is_streamed<
    X: Fn(&[u8], &[u8]) -> bool,
    B: Fn(&BlockJob) -> Result<Vec<Vec<u8>>>,
>(
    extends: X,
    encode: B,
    plan: CompressPlan,
    sources: Seq<MemberSource>,
    packed: Seq<Vec<u8>>,
) -> bool {
    &&& packed.len() == sources.len()
    &&& if plan.solid {
        exists|own: Seq<Seq<Piece>>, jobs: Seq<BlockJob>, results: Seq<Seq<Seq<u8>>>|
            {
                &&& are_cut(extends, sources, plan.block_size as nat, own)
                &&& #[trigger] is_chain(
                    encode,
                    plan.encode_options.max_match_distance,
                    flat(own),
                    jobs,
                    results,
                )
                &&& forall|m: int|
                    0 <= m < packed.len() ==> (#[trigger] packed[m])@ == packed_in(
                        m,
                        jobs,
                        results,
                    )
            }
    } else {
        forall|m: int|
            0 <= m < sources.len() ==> is_packed_alone(
                extends,
                encode,
                plan,
                m,
                sources[m].data@,
                #[trigger] packed[m]@,
            )
    }
}

/// Packs members block by block: solid ones as one chain, others each on its
/// own. A memory limit that does not hold one job is refused.
pub fn compress_streaming_members<
    X: Fn(&[u8], &[u8]) -> bool,
    B: Fn(&BlockJob) -> Result<Vec<Vec<u8>>>,
    P: WriteProgress,
>(
    sources: &[MemberSource],
    plan: &CompressPlan,
    required: u64,
    memory_limit: u64,
    extends: &X,
    encode: &B,
    watch: &mut MemberProgress<'_, P>,
    first: usize,
) -> (r: Result<Vec<Vec<u8>>>)
    requires
        old(watch).is_valid(),
        old(watch).covers(first as int, sources@.len()),
        plan.block_size > 0,
        forall|held: &[u8], chunk: &[u8]| #[trigger] call_requires(*extends, (held, chunk)),
        is_block_codec(*encode),
    ensures
        final(watch).continues(*old(watch)),
        if required > memory_limit {
            r == Err::<Vec<Vec<u8>>, Error>(
                Error::MemoryLimitExceeded {
                    limit: memory_limit,
                    required,
                    dictionary_size: plan.dictionary_size,
                },
            )
        } else if !keep_their_sizes(sources@) {
            r == Err::<Vec<Vec<u8>>, Error>(size_change_error())
        } else {
            match r {
                Ok(packed) => is_streamed(*extends, *encode, *plan, sources@, packed@),
                Err(error) => old(watch).is_stop(error) || block_codec_fails(*encode, error),
            }
        },
        r is Ok && old(watch).audience().expects(first as int, sources@)
            ==> old(watch).audience().hears_of(first as int, sources@.len()),
{
    if required > memory_limit {
        return Err(
            Error::MemoryLimitExceeded {
                limit: memory_limit,
                required,
                dictionary_size: plan.dictionary_size,
            },
        );
    }
    if plan.solid {
        compress_solid_chain(sources, plan, extends, encode, watch, first)
    } else {
        compress_independent_members(sources, plan, extends, encode, watch, first)
    }
}

/// What comes of compressing a member block by block in place of as a whole.
pub open spec fn is_fallback_result<
    X: Fn(&[u8], &[u8]) -> bool,
    B: Fn(&BlockJob) -> Result<Vec<Vec<u8>>>,
>(
    extends: X,
    encode: B,
    plan: CompressPlan,
    source: MemberSource,
    r: Result<CompressedMember>,
) -> bool {
    if !source.keeps_its_size() {
        r == Err::<CompressedMember, Error>(size_change_error())
    } else {
        match r {
            Ok(member) => exists|packed: Seq<u8>|
                #[trigger] is_packed_alone(extends, encode, plan, 0, source.data@, packed)
                    && is_member_of(
                    source,
                    source.input_size == 0 || packed.len() >= source.input_size,
                    packed,
                    false,
                    member,
                ),
            Err(error) => block_codec_fails(encode, error),
        }
    }
}

/// Compresses one member block by block where it was to be compressed as a
/// whole and the memory limit did not allow it: no filter, one encoder setting.
pub fn compress_fallback_member<
    X: Fn(&[u8], &[u8]) -> bool,
    B: Fn(&BlockJob) -> Result<Vec<Vec<u8>>>,
    P: WriteProgress,
>(
    sources: &[MemberSource],
    index: usize,
    plan: &CompressPlan,
    required: u64,
    memory_limit: u64,
    extends: &X,
    encode: &B,
    watch: &mut MemberProgress<'_, P>,
) -> (r: Result<CompressedMember>)
    requires
        index < sources@.len(),
        old(watch).is_valid(),
        old(watch).count() == sources@.len(),
        plan.block_size > 0,
        !plan.solid,
        forall|held: &[u8], chunk: &[u8]| #[trigger] call_requires(*extends, (held, chunk)),
        is_block_codec(*encode),
    ensures
        final(watch).continues(*old(watch)),
        if required > memory_limit {
            r == Err::<CompressedMember, Error>(
                Error::MemoryLimitExceeded {
                    limit: memory_limit,
                    required,
                    dictionary_size: plan.dictionary_size,
                },
            )
        } else {
            is_stopped(*old(watch), r) || is_fallback_result(
                *extends,
                *encode,
                *plan,
                sources@[index as int],
                r,
            )
        },
        r is Ok && old(watch).audience().expects(0, sources@)
            ==> old(watch).audience().hears_of(index as int, 1),
{
    let count: usize = sources.len();
    assert(index < count);
    let alone = vstd::slice::slice_subrange(sources, index, index + 1);
    let ghost source = sources@[index as int];
    assert(alone@[0] == source);
    assert(keep_their_sizes(alone@) <==> source.keeps_its_size());
    match compress_streaming_members(
        alone,
        plan,
        required,
        memory_limit,
        extends,
        encode,
        watch,
        index,
    ) {
        Ok(packed) => {
            let mut outputs = packed;
            assert(outputs@.len() == 1);
            assert(is_packed_alone(*extends, *encode, *plan, 0, source.data@, outputs@[0]@));
            match outputs.pop() {
                Some(own) => Ok(settle_fallback_member(&sources[index], own)),
                None => Err(Error::WriterFailure("RAR 5 fallback member is missing")),
            }
        },
        Err(error) => Err(error),
    }
}

} // verus!
