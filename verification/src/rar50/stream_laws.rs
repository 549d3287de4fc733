//! What a chain of compression jobs covers, and what each of them may look back on.

use vstd::prelude::*;

#[allow(unused_imports)]
use crate::error::Result;
#[allow(unused_imports)]
use crate::rar50::compress::MemberSource;
#[allow(unused_imports)]
use crate::rar50::plan::CompressPlan;
#[allow(unused_imports)]
use crate::rar50::runs::{
    are_chained, jobs_data, jobs_pieces, last_bytes, mark_start, marks_cut, pieces_of, BlockJob,
    BlockMark, Piece,
};
#[allow(unused_imports)]
use crate::rar50::streams::{
    are_blocks, are_cut, are_packed, flat, is_chain, is_packed_alone, is_streamed,
    law_blocks_rejoin, packed_in, pieces_data,
};

verus! {

/// The data of members behind one another.
pub open spec fn sources_data(sources: Seq<MemberSource>) -> Seq<u8>
    decreases sources.len(),
{
    if sources.len() == 0 {
        Seq::empty()
    } else {
        sources_data(sources.drop_last()) + sources.last().data@
    }
}

proof fn lemma_pieces_behind(a: Seq<Piece>, b: Seq<Piece>)
    ensures
        pieces_data(a + b) == pieces_data(a) + pieces_data(b),
    decreases b.len(),
{
    if b.len() == 0 {
        assert(a + b =~= a);
        assert(pieces_data(a) + pieces_data(b) =~= pieces_data(a));
    } else {
        lemma_pieces_behind(a, b.drop_last());
        assert((a + b).drop_last() =~= a + b.drop_last());
        assert((a + b).last() == b.last());
        assert(pieces_data(a) + pieces_data(b.drop_last()) + b.last().data =~= pieces_data(a) + (
        pieces_data(b.drop_last()) + b.last().data));
    }
}

/// Marks cut data into pieces that make it up again.
pub proof fn law_pieces_make_up_the_data(data: Seq<u8>, marks: Seq<BlockMark>)
    requires
        marks_cut(marks, data.len()),
    ensures
        pieces_data(pieces_of(data, marks)) == data,
{
    lemma_pieces_upto(data, marks, marks.len());
    assert(pieces_of(data, marks).take(marks.len() as int) =~= pieces_of(data, marks));
    if marks.len() == 0 {
        assert(data =~= Seq::empty());
    } else {
        assert(data.take(data.len() as int) =~= data);
    }
}

proof fn lemma_pieces_upto(data: Seq<u8>, marks: Seq<BlockMark>, count: nat)
    requires
        marks_cut(marks, data.len()),
        count <= marks.len(),
    ensures
        0 <= mark_start(marks, count as int) <= data.len(),
        pieces_data(pieces_of(data, marks).take(count as int)) == data.take(
            mark_start(marks, count as int),
        ),
    decreases count,
{
    let pieces = pieces_of(data, marks);
    if count == 0 {
        assert(data.take(0) =~= Seq::empty());
    } else {
        lemma_pieces_upto(data, marks, (count - 1) as nat);
        let now = pieces.take(count as int);
        assert(now.drop_last() =~= pieces.take(count - 1));
        let (start, end) = (mark_start(marks, count - 1), marks[count - 1].end as int);
        if count > 1 {
            assert(marks[count - 2].end <= marks[count - 1].end);
        }
        assert(marks[count - 1].end <= marks[marks.len() - 1].end);
        assert(now.last().data == data.subrange(start, end));
        assert(data.take(start) + data.subrange(start, end) =~= data.take(end));
    }
}

/// A chain of jobs packs the pieces it was made of, all of them and nothing else, in
/// order.
pub proof fn law_jobs_cover_the_pieces(jobs: Seq<BlockJob>, reach: usize)
    requires
        are_chained(jobs, reach),
    ensures
        jobs_data(jobs) == pieces_data(jobs_pieces(jobs)),
    decreases jobs.len(),
{
    if jobs.len() > 0 {
        let fewer = jobs.drop_last();
        assert forall|i: int| 0 <= i < fewer.len() implies {
            &&& (#[trigger] fewer[i]).history@ == last_bytes(
                jobs_data(fewer.take(i)),
                reach as nat,
            )
            &&& marks_cut(fewer[i].blocks@, fewer[i].data@.len())
        } by {
            assert(fewer[i] == jobs[i]);
            assert(fewer.take(i) =~= jobs.take(i));
        }
        law_jobs_cover_the_pieces(fewer, reach);
        let last = jobs.last();
        assert(marks_cut(jobs[jobs.len() - 1].blocks@, last.data@.len()));
        law_pieces_make_up_the_data(last.data@, last.blocks@);
        lemma_pieces_behind(jobs_pieces(fewer), pieces_of(last.data@, last.blocks@));
    }
}

/// A job may look back on the bytes right before its own in the chain, as far as the
/// encoder reaches: on all of them where it reaches that far.
pub proof fn law_jobs_look_back(jobs: Seq<BlockJob>, reach: usize, i: int)
    requires
        are_chained(jobs, reach),
        0 <= i < jobs.len(),
    ensures
        ({
            let before = jobs_data(jobs.take(i));
            let history = jobs[i].history@;
            &&& history.len() <= reach
            &&& history.len() == reach || history == before
            &&& history.len() <= before.len()
            &&& before.skip(before.len() - history.len()) == history
        }),
{
    let before = jobs_data(jobs.take(i));
    assert(jobs[i].history@ == last_bytes(before, reach as nat));
    assert(before.skip(0) =~= before);
}

proof fn lemma_cut_rejoins<X: Fn(&[u8], &[u8]) -> bool>(
    extends: X,
    sources: Seq<MemberSource>,
    chunk_size: nat,
    own: Seq<Seq<Piece>>,
    count: nat,
)
    requires
        are_cut(extends, sources, chunk_size, own),
        count <= sources.len(),
    ensures
        pieces_data(flat(own.take(count as int))) == sources_data(sources.take(count as int)),
    decreases count,
{
    if count > 0 {
        let m = count - 1;
        lemma_cut_rejoins(extends, sources, chunk_size, own, m as nat);
        assert(own.take(count as int).drop_last() =~= own.take(m));
        assert(own.take(count as int).last() == own[m]);
        assert(sources.take(count as int).drop_last() =~= sources.take(m));
        assert(sources.take(count as int).last() == sources[m]);
        let data = sources[m].data@;
        law_blocks_rejoin(extends, data, chunk_size, m as usize, own[m], data.len() as int);
        assert(data.take(data.len() as int) =~= data);
        lemma_pieces_behind(flat(own.take(m)), own[m]);
    }
}

/// The members of a solid archive are packed as one stream, one behind another, in which
/// every job looks back across members.
pub proof fn law_a_solid_archive_is_one_stream<
    X: Fn(&[u8], &[u8]) -> bool,
    B: Fn(&BlockJob) -> Result<Vec<Vec<u8>>>,
>(
    extends: X,
    encode: B,
    plan: CompressPlan,
    sources: Seq<MemberSource>,
    packed: Seq<Vec<u8>>,
)
    requires
        plan.solid,
        is_streamed(extends, encode, plan, sources, packed),
    ensures
        exists|jobs: Seq<BlockJob>, results: Seq<Seq<Seq<u8>>>|
            {
                &&& #[trigger] are_packed(encode, jobs, results)
                &&& are_chained(jobs, plan.encode_options.max_match_distance)
                &&& jobs_data(jobs) == sources_data(sources)
                &&& forall|m: int|
                    0 <= m < packed.len() ==> (#[trigger] packed[m])@ == packed_in(
                        m,
                        jobs,
                        results,
                    )
            },
{
    let reach = plan.encode_options.max_match_distance;
    let (own, jobs, results) = choose|
        own: Seq<Seq<Piece>>,
        jobs: Seq<BlockJob>,
        results: Seq<Seq<Seq<u8>>>,
    |
        {
            &&& are_cut(extends, sources, plan.block_size as nat, own)
            &&& #[trigger] is_chain(encode, reach, flat(own), jobs, results)
            &&& forall|m: int|
                0 <= m < packed.len() ==> (#[trigger] packed[m])@ == packed_in(m, jobs, results)
        };
    law_jobs_cover_the_pieces(jobs, reach);
    lemma_cut_rejoins(extends, sources, plan.block_size as nat, own, sources.len());
    assert(own.take(own.len() as int) =~= own);
    assert(sources.take(sources.len() as int) =~= sources);
    assert(are_packed(encode, jobs, results));
}

/// A member that is packed alone is a stream of its own, in which no job looks back on
/// another member.
pub proof fn law_a_member_alone_is_its_own_stream<
    X: Fn(&[u8], &[u8]) -> bool,
    B: Fn(&BlockJob) -> Result<Vec<Vec<u8>>>,
>(
    extends: X,
    encode: B,
    plan: CompressPlan,
    member: int,
    data: Seq<u8>,
    packed: Seq<u8>,
)
    requires
        is_packed_alone(extends, encode, plan, member, data, packed),
    ensures
        exists|jobs: Seq<BlockJob>, results: Seq<Seq<Seq<u8>>>|
            {
                &&& #[trigger] are_packed(encode, jobs, results)
                &&& are_chained(jobs, plan.encode_options.max_match_distance)
                &&& jobs_data(jobs) == data
                &&& packed == packed_in(member, jobs, results)
            },
{
    let reach = plan.encode_options.max_match_distance;
    let (own, jobs, results) = choose|
        own: Seq<Piece>,
        jobs: Seq<BlockJob>,
        results: Seq<Seq<Seq<u8>>>,
    |
        {
            &&& are_blocks(
                extends,
                data,
                plan.block_size as nat,
                member as usize,
                own,
                data.len() as int,
            )
            &&& #[trigger] is_chain(encode, reach, own, jobs, results)
            &&& packed == packed_in(member, jobs, results)
        };
    law_jobs_cover_the_pieces(jobs, reach);
    law_blocks_rejoin(
        extends,
        data,
        plan.block_size as nat,
        member as usize,
        own,
        data.len() as int,
    );
    assert(data.take(data.len() as int) =~= data);
    assert(are_packed(encode, jobs, results));
}

} // verus!
