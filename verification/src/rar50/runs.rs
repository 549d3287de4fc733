//! Cutting input into runs of blocks that compress on their own.
//!
//! A block depends on its own bytes and on up to a dictionary's worth of the
//! input before it. That input is known before anything is compressed, so runs
//! can be compressed side by side and still come out the same.

use vstd::prelude::*;

use crate::bytes::{copy_bytes, push_all};
use crate::rar50::ladder::MAX_LZ_BLOCK_SIZE;
use crate::rar50::plan::CompressPlan;

verus! {

/// The last `count` bytes, or all where there are fewer.
pub open spec fn last_bytes(bytes: Seq<u8>, count: nat) -> Seq<u8> {
    if bytes.len() <= count {
        bytes
    } else {
        bytes.skip(bytes.len() - count)
    }
}

/// What is kept of what is kept is what is kept.
pub proof fn lemma_last_bytes_append(bytes: Seq<u8>, more: Seq<u8>, count: nat)
    ensures
        last_bytes(last_bytes(bytes, count) + more, count) == last_bytes(bytes + more, count),
{
    assert(last_bytes(last_bytes(bytes, count) + more, count) =~= last_bytes(bytes + more, count));
}

/// Extends the rolling window with `data`, dropping what has fallen out of
/// dictionary range.
pub fn advance_history(history: &mut Vec<u8>, data: &[u8], max_match_distance: usize)
    ensures
        final(history)@ == last_bytes(old(history)@ + data@, max_match_distance as nat),
{
    let data_len: usize = data.len();
    if data_len >= max_match_distance {
        let tail = vstd::slice::slice_subrange(data, data_len - max_match_distance, data_len);
        *history = copy_bytes(tail);
        assert(history@ =~= last_bytes(old(history)@ + data@, max_match_distance as nat));
        return;
    }
    push_all(history, data);
    if history.len() > max_match_distance {
        let from: usize = history.len() - max_match_distance;
        let tail = vstd::slice::slice_subrange(history.as_slice(), from, history.len());
        *history = copy_bytes(tail);
    }
    assert(history@ =~= last_bytes(old(history)@ + data@, max_match_distance as nat));
}

/// How much input makes a run: a dictionary's worth, and a block at least.
pub fn run_size(plan: &CompressPlan) -> (size: usize)
    ensures
        size == (if plan.encode_options.max_match_distance > MAX_LZ_BLOCK_SIZE {
            plan.encode_options.max_match_distance
        } else {
            MAX_LZ_BLOCK_SIZE
        }),
{
    if plan.encode_options.max_match_distance > MAX_LZ_BLOCK_SIZE {
        plan.encode_options.max_match_distance
    } else {
        MAX_LZ_BLOCK_SIZE
    }
}

/// A block of a run: the member it belongs to, where it ends in the run, and
/// whether it is the member's last.
#[derive(Debug, Clone, Copy, PartialEq, Eq, Structural)]
pub struct BlockMark {
    pub member: usize,
    pub end: usize,
    pub last: bool,
}

/// A bounded run of adjacent blocks, sharing one copy of the input before it.
#[derive(Debug)]
pub struct BlockJob {
    pub data: Vec<u8>,
    pub history: Vec<u8>,
    pub blocks: Vec<BlockMark>,
}

/// Whether marks cut `len` bytes into blocks from front to back.
pub open spec fn marks_cut(marks: Seq<BlockMark>, len: nat) -> bool {
    &&& marks.len() == 0 ==> len == 0
    &&& marks.len() > 0 ==> marks.last().end == len
    &&& forall|i: int, k: int| 0 <= i < k < marks.len() ==> (#[trigger] marks[i]).end <= (
    #[trigger] marks[k]).end
}

/// Collects blocks into runs. Where runs end depends on the input and the
/// dictionary, never on the number of workers.
pub struct RunBuilder {
    run_size: usize,
    reach: usize,
    history: Vec<u8>,
    data: Vec<u8>,
    blocks: Vec<BlockMark>,
    before: Ghost<Seq<u8>>,
}

impl RunBuilder {
    #[verifier::type_invariant]
    spec fn well_formed(self) -> bool {
        &&& self.history@ == last_bytes(self.before@, self.reach as nat)
        &&& marks_cut(self.blocks@, self.data@.len())
    }

    /// The input that earlier runs hold.
    pub closed spec fn emitted(&self) -> Seq<u8> {
        self.before@
    }

    /// The input of the run being built.
    pub closed spec fn pending(&self) -> Seq<u8> {
        self.data@
    }

    /// The blocks of the run being built.
    pub closed spec fn marks(&self) -> Seq<BlockMark> {
        self.blocks@
    }

    pub closed spec fn size(&self) -> usize {
        self.run_size
    }

    pub closed spec fn reach(&self) -> usize {
        self.reach
    }

    pub fn new(run_size: usize, reach: usize) -> (builder: RunBuilder)
        ensures
            builder.emitted() == Seq::<u8>::empty(),
            builder.pending() == Seq::<u8>::empty(),
            builder.marks() == Seq::<BlockMark>::empty(),
            marks_cut(builder.marks(), builder.pending().len()),
            builder.size() == run_size,
            builder.reach() == reach,
    {
        let history: Vec<u8> = Vec::new();
        let before: Ghost<Seq<u8>> = Ghost(Seq::empty());
        assert(last_bytes(before@, reach as nat) =~= history@);
        RunBuilder { run_size, reach, history, data: Vec::new(), blocks: Vec::new(), before }
    }

    /// Whether `job` is the run of `data` cut by `marks`, after `before`.
    pub open spec fn is_job(
        job: BlockJob,
        before: Seq<u8>,
        data: Seq<u8>,
        marks: Seq<BlockMark>,
        reach: usize,
    ) -> bool {
        &&& job.data@ == data
        &&& job.blocks@ == marks
        &&& job.history@ == last_bytes(before, reach as nat)
        &&& marks_cut(marks, data.len())
    }

    /// Adds a block. A run that has reached its size is handed out.
    pub fn push_block(&mut self, member: usize, block: &[u8], last: bool) -> (job: Option<BlockJob>)
        ensures
            marks_cut(final(self).marks(), final(self).pending().len()),
            ({
                let data = old(self).pending() + block@;
                let marks = old(self).marks().push(
                    BlockMark { member, end: data.len() as usize, last },
                );
                &&& final(self).size() == old(self).size()
                &&& final(self).reach() == old(self).reach()
                &&& if data.len() >= old(self).size() {
                    &&& job matches Some(job) && Self::is_job(
                        job,
                        old(self).emitted(),
                        data,
                        marks,
                        old(self).reach(),
                    )
                    &&& final(self).emitted() == old(self).emitted() + data
                    &&& final(self).pending() == Seq::<u8>::empty()
                    &&& final(self).marks() == Seq::<BlockMark>::empty()
                } else {
                    &&& job is None
                    &&& final(self).emitted() == old(self).emitted()
                    &&& final(self).pending() == data
                    &&& final(self).marks() == marks
                }
            }),
    {
        proof {
            use_type_invariant(&*self);
        }
        let ghost all = self.data@ + block@;
        let mut taken = RunBuilder::new(self.run_size, self.reach);
        std::mem::swap(&mut taken, self);
        proof {
            use_type_invariant(&taken);
        }
        let RunBuilder { run_size, reach, history, mut data, mut blocks, before } = taken;
        push_all(&mut data, block);
        let ghost marks_before = blocks@;
        blocks.push(BlockMark { member, end: data.len(), last });
        assert(marks_cut(blocks@, data@.len())) by {
            assert(blocks@.last().end == data@.len());
            assert forall|i: int, k: int| 0 <= i < k < blocks@.len() implies (
            #[trigger] blocks@[i]).end <= (#[trigger] blocks@[k]).end by {
                assert(blocks@[i] == marks_before[i]);
                if k < marks_before.len() {
                    assert(blocks@[k] == marks_before[k]);
                } else if i < marks_before.len() - 1 {
                    assert(marks_before[i].end <= marks_before[marks_before.len() - 1].end);
                }
            }
        }
        *self = RunBuilder { run_size, reach, history, data, blocks, before };
        if self.data.len() >= self.run_size {
            self.finish_run()
        } else {
            None
        }
    }

    /// Hands out the run being built, where it holds anything.
    pub fn finish_run(&mut self) -> (job: Option<BlockJob>)
        ensures
            final(self).size() == old(self).size(),
            final(self).reach() == old(self).reach(),
            final(self).pending() == Seq::<u8>::empty(),
            final(self).marks() == Seq::<BlockMark>::empty(),
            final(self).emitted() == old(self).emitted() + old(self).pending(),
            if old(self).marks().len() == 0 {
                job is None
            } else {
                job matches Some(job) && Self::is_job(
                    job,
                    old(self).emitted(),
                    old(self).pending(),
                    old(self).marks(),
                    old(self).reach(),
                )
            },
    {
        proof {
            use_type_invariant(&*self);
        }
        if self.blocks.len() == 0 {
            assert(self.blocks@ =~= Seq::<BlockMark>::empty());
            assert(self.data@ =~= Seq::<u8>::empty());
            assert(self.before@ + self.data@ =~= self.before@);
            return None;
        }
        let mut taken = RunBuilder::new(self.run_size, self.reach);
        std::mem::swap(&mut taken, self);
        proof {
            use_type_invariant(&taken);
        }
        let RunBuilder { run_size, reach, history, data, blocks, before } = taken;
        let mut next = copy_bytes(&history);
        advance_history(&mut next, &data, reach);
        proof {
            lemma_last_bytes_append(before@, data@, reach as nat);
        }
        *self = RunBuilder {
            run_size,
            reach,
            history: next,
            data: Vec::new(),
            blocks: Vec::new(),
            before: Ghost(before@ + data@),
        };
        Some(BlockJob { data, history, blocks })
    }
}

/// A block as it was read.
#[derive(Debug)]
pub struct MemberBlock {
    pub member: usize,
    pub data: Vec<u8>,
    pub last: bool,
}

/// A block by its contents.
#[verifier::ext_equal]
pub struct Piece {
    pub member: usize,
    pub last: bool,
    pub data: Seq<u8>,
}

/// Where block `at` of a run starts.
pub open spec fn mark_start(marks: Seq<BlockMark>, at: int) -> int {
    if at == 0 {
        0
    } else {
        marks[at - 1].end as int
    }
}

/// The blocks that marks cut out of a run.
pub open spec fn pieces_of(data: Seq<u8>, marks: Seq<BlockMark>) -> Seq<Piece> {
    Seq::new(
        marks.len(),
        |i: int|
            Piece {
                member: marks[i].member,
                last: marks[i].last,
                data: data.subrange(mark_start(marks, i), marks[i].end as int),
            },
    )
}

/// The blocks of runs, one behind another.
pub open spec fn jobs_pieces(jobs: Seq<BlockJob>) -> Seq<Piece>
    decreases jobs.len(),
{
    if jobs.len() == 0 {
        Seq::empty()
    } else {
        jobs_pieces(jobs.drop_last()) + pieces_of(jobs.last().data@, jobs.last().blocks@)
    }
}

/// The blocks that were read.
pub open spec fn blocks_pieces(blocks: Seq<MemberBlock>) -> Seq<Piece> {
    Seq::new(
        blocks.len(),
        |i: int|
            Piece { member: blocks[i].member, last: blocks[i].last, data: blocks[i].data@ },
    )
}

proof fn lemma_pieces_grow(data: Seq<u8>, marks: Seq<BlockMark>, more: Seq<u8>, mark: BlockMark)
    requires
        marks_cut(marks, data.len()),
        mark.end == data.len() + more.len(),
    ensures
        pieces_of(data + more, marks.push(mark)) == pieces_of(data, marks).push(
            Piece { member: mark.member, last: mark.last, data: more },
        ),
{
    let grown = marks.push(mark);
    let after = pieces_of(data + more, grown);
    let expected = pieces_of(data, marks).push(
        Piece { member: mark.member, last: mark.last, data: more },
    );
    assert forall|i: int| 0 <= i < grown.len() implies after[i] == expected[i] by {
        if i < marks.len() {
            assert(grown[i] == marks[i]);
            assert(mark_start(grown, i) == mark_start(marks, i));
            if i < marks.len() - 1 {
                assert(marks[i].end <= marks[marks.len() - 1].end);
            }
            if i > 0 {
                assert(marks[i - 1].end <= marks[i].end);
            }
            assert(after[i].data =~= expected[i].data);
        } else {
            if marks.len() > 0 {
                assert(grown[i - 1] == marks.last());
            }
            assert(mark_start(grown, i) == data.len());
            assert(after[i].data =~= more);
        }
    }
    assert(after =~= expected);
}

/// The input of blocks, one after the other.
pub open spec fn blocks_data(blocks: Seq<MemberBlock>) -> Seq<u8>
    decreases blocks.len(),
{
    if blocks.len() == 0 {
        Seq::empty()
    } else {
        blocks_data(blocks.drop_last()) + blocks.last().data@
    }
}

/// The input of runs, one after the other.
pub open spec fn jobs_data(jobs: Seq<BlockJob>) -> Seq<u8>
    decreases jobs.len(),
{
    if jobs.len() == 0 {
        Seq::empty()
    } else {
        jobs_data(jobs.drop_last()) + jobs.last().data@
    }
}

/// Whether each run has the input before it within reach, and its blocks cut it.
pub open spec fn are_chained(jobs: Seq<BlockJob>, reach: usize) -> bool {
    forall|i: int|
        0 <= i < jobs.len() ==> {
            &&& (#[trigger] jobs[i]).history@ == last_bytes(jobs_data(jobs.take(i)), reach as nat)
            &&& marks_cut(jobs[i].blocks@, jobs[i].data@.len())
        }
}

proof fn lemma_chain_grows(jobs: Seq<BlockJob>, job: BlockJob, reach: usize)
    requires
        are_chained(jobs, reach),
        job.history@ == last_bytes(jobs_data(jobs), reach as nat),
        marks_cut(job.blocks@, job.data@.len()),
    ensures
        are_chained(jobs.push(job), reach),
        jobs_data(jobs.push(job)) == jobs_data(jobs) + job.data@,
{
    let more = jobs.push(job);
    assert(more.drop_last() == jobs);
    assert forall|i: int| 0 <= i < more.len() implies {
        &&& (#[trigger] more[i]).history@ == last_bytes(jobs_data(more.take(i)), reach as nat)
        &&& marks_cut(more[i].blocks@, more[i].data@.len())
    } by {
        if i < jobs.len() {
            assert(more[i] == jobs[i]);
            assert(more.take(i) == jobs.take(i));
        } else {
            assert(more.take(i) == jobs);
        }
    }
}

/// Cuts a chain of blocks into runs that can be compressed side by side: no
/// byte is lost or moved, every run has the input before it within reach, and
/// every run but the last has reached its size.
pub fn runs_of(blocks: &[MemberBlock], run_size: usize, reach: usize) -> (jobs: Vec<BlockJob>)
    ensures
        jobs_data(jobs@) == blocks_data(blocks@),
        jobs_pieces(jobs@) == blocks_pieces(blocks@),
        are_chained(jobs@, reach),
        forall|i: int| 0 <= i < jobs@.len() - 1 ==> (#[trigger] jobs@[i]).data@.len() >= run_size,
{
    let mut builder = RunBuilder::new(run_size, reach);
    let mut jobs: Vec<BlockJob> = Vec::new();
    let mut i: usize = 0;
    assert(blocks@.take(0) == Seq::<MemberBlock>::empty());
    assert(builder.emitted() + builder.pending() == Seq::<u8>::empty());
    assert(jobs_pieces(jobs@) + pieces_of(builder.pending(), builder.marks()) =~= blocks_pieces(
        blocks@.take(0),
    ));
    while i < blocks.len()
        invariant
            i <= blocks@.len(),
            marks_cut(builder.marks(), builder.pending().len()),
            jobs_pieces(jobs@) + pieces_of(builder.pending(), builder.marks()) == blocks_pieces(
                blocks@.take(i as int),
            ),
            builder.size() == run_size,
            builder.reach() == reach,
            builder.emitted() == jobs_data(jobs@),
            builder.emitted() + builder.pending() == blocks_data(blocks@.take(i as int)),
            builder.marks().len() == 0 ==> builder.pending() == Seq::<u8>::empty(),
            are_chained(jobs@, reach),
            forall|k: int| 0 <= k < jobs@.len() ==> (#[trigger] jobs@[k]).data@.len() >= run_size,
        decreases blocks@.len() - i,
    {
        let ghost earlier = jobs@;
        let ghost emitted = builder.emitted();
        let ghost all = builder.pending() + blocks@[i as int].data@;
        let ghost own = pieces_of(builder.pending(), builder.marks());
        let ghost mark = BlockMark {
            member: blocks@[i as int].member,
            end: all.len() as usize,
            last: blocks@[i as int].last,
        };
        let ghost marks = builder.marks().push(mark);
        let ghost piece = Piece {
            member: mark.member,
            last: mark.last,
            data: blocks@[i as int].data@,
        };
        proof {
            let now = blocks@.take(i + 1);
            assert(blocks_pieces(now) =~= blocks_pieces(blocks@.take(i as int)).push(piece));
            assert(now.drop_last() == blocks@.take(i as int));
            assert(now.last() == blocks@[i as int]);
            assert(emitted + builder.pending() + blocks@[i as int].data@ == emitted + all);
        }
        let block = &blocks[i];
        let ghost pending = builder.pending();
        let ghost pending_marks = builder.marks();
        match builder.push_block(block.member, &block.data, block.last) {
            Some(job) => {
                proof {
                    assert(mark.end == all.len());
                    lemma_pieces_grow(pending, pending_marks, block.data@, mark);
                    assert(earlier.push(job).drop_last() =~= earlier);
                    assert(jobs_pieces(earlier.push(job)) =~= jobs_pieces(earlier) + own.push(
                        piece,
                    ));
                    assert(jobs_pieces(earlier.push(job)) + pieces_of(
                        builder.pending(),
                        builder.marks(),
                    ) =~= (jobs_pieces(earlier) + own).push(piece));
                    lemma_chain_grows(earlier, job, reach);
                    assert(builder.emitted() + builder.pending() == emitted + all);
                }
                jobs.push(job);
                assert(forall|k: int| 0 <= k < earlier.len() ==> jobs@[k] == earlier[k]);
            },
            None => {
                proof {
                    lemma_pieces_grow(pending, pending_marks, block.data@, mark);
                    assert(jobs_pieces(jobs@) + own.push(piece) =~= (jobs_pieces(jobs@)
                        + own).push(piece));
                }
            },
        }
        i = i + 1;
    }
    let ghost earlier = jobs@;
    assert(blocks@.take(i as int) == blocks@);
    let ghost own = pieces_of(builder.pending(), builder.marks());
    let ghost open_marks = builder.marks();
    match builder.finish_run() {
        Some(job) => {
            proof {
                assert(earlier.push(job).drop_last() =~= earlier);
                assert(jobs_pieces(earlier.push(job)) == jobs_pieces(earlier) + own);
                lemma_chain_grows(earlier, job, reach);
            }
            jobs.push(job);
            assert(forall|k: int| 0 <= k < earlier.len() ==> jobs@[k] == earlier[k]);
        },
        None => {
            assert(builder.emitted() + Seq::<u8>::empty() == builder.emitted());
            assert(open_marks.len() == 0);
            assert(own =~= Seq::empty());
            assert(jobs_pieces(jobs@) + own =~= jobs_pieces(jobs@));
        },
    }
    jobs
}

/// The first member from `cursor` on, going round, that has more to give.
pub open spec fn is_next_ready(ready: Seq<bool>, cursor: int, found: Option<usize>) -> bool {
    match found {
        Some(member) => {
            &&& member < ready.len()
            &&& ready[member as int]
            &&& forall|k: int|
                0 <= k < ready.len() && #[trigger] ready[k] ==> turns_from(cursor, member as int,
                    ready.len() as int,
                ) <= turns_from(cursor, k, ready.len() as int)
        },
        None => forall|k: int| 0 <= k < ready.len() ==> !(#[trigger] ready[k]),
    }
}

/// How many steps lead from `cursor` to `member`, going round `count`.
pub open spec fn turns_from(cursor: int, member: int, count: int) -> int {
    if member >= cursor {
        member - cursor
    } else {
        member + count - cursor
    }
}

/// Picks whose turn it is among members that are interleaved.
pub fn next_ready(ready: &[bool], cursor: usize) -> (found: Option<usize>)
    requires
        cursor < ready@.len(),
    ensures
        is_next_ready(ready@, cursor as int, found),
{
    let mut at: usize = cursor;
    while at < ready.len()
        invariant
            cursor <= at <= ready@.len(),
            forall|k: int| cursor <= k < at ==> !(#[trigger] ready@[k]),
        decreases ready@.len() - at,
    {
        if ready[at] {
            return Some(at);
        }
        at = at + 1;
    }
    at = 0;
    while at < cursor
        invariant
            at <= cursor < ready@.len(),
            forall|k: int| cursor <= k < ready@.len() ==> !(#[trigger] ready@[k]),
            forall|k: int| 0 <= k < at ==> !(#[trigger] ready@[k]),
        decreases cursor - at,
    {
        if ready[at] {
            return Some(at);
        }
        at = at + 1;
    }
    None
}

/// What a member still has to give: bytes that were read to decide where a
/// block ends and handed back, and bytes not read yet.
#[derive(Debug)]
pub struct MemberInput {
    pub pushback: Vec<u8>,
    pub remaining: u64,
}

/// What to do for the next chunk of a member.
#[derive(Debug)]
pub enum ChunkRequest {
    /// The chunk that was handed back.
    Ready(Vec<u8>),
    /// Read this many bytes from the source. `end` says that nothing follows.
    Read { count: usize, end: bool },
}

impl MemberInput {
    pub fn new(size: u64) -> (input: MemberInput)
        ensures
            input.pushback@ == Seq::<u8>::empty(),
            input.remaining == size,
    {
        MemberInput { pushback: Vec::new(), remaining: size }
    }

    /// Whether this member has anything left, read or unread.
    pub fn has_more(&self) -> (answer: bool)
        ensures
            answer == (self.remaining != 0 || self.pushback@.len() != 0),
    {
        self.remaining != 0 || self.pushback.len() != 0
    }

    /// Asks for the next chunk, preferring what was handed back. A request to
    /// read counts as met.
    pub fn next_chunk(&mut self, block_size: usize) -> (request: ChunkRequest)
        ensures
            if old(self).pushback@.len() != 0 {
                &&& request matches ChunkRequest::Ready(chunk) && chunk@ == old(self).pushback@
                &&& final(self).pushback@ == Seq::<u8>::empty()
                &&& final(self).remaining == old(self).remaining
            } else {
                &&& request matches ChunkRequest::Read { count, end } && count == (if old(self).remaining < block_size {
                    old(self).remaining as int
                } else {
                    block_size as int
                }) && final(self).remaining == old(self).remaining - count && end == (final(self).remaining == 0)
                &&& final(self).pushback@ == old(self).pushback@
            },
    {
        if self.pushback.len() != 0 {
            let mut chunk: Vec<u8> = Vec::new();
            std::mem::swap(&mut chunk, &mut self.pushback);
            return ChunkRequest::Ready(chunk);
        }
        let count: usize = if self.remaining < block_size as u64 {
            self.remaining as usize
        } else {
            block_size
        };
        self.remaining = self.remaining - count as u64;
        ChunkRequest::Read { count, end: self.remaining == 0 }
    }

    /// Hands back a chunk that the block does not take.
    pub fn push_back(&mut self, chunk: Vec<u8>)
        ensures
            final(self).pushback@ == chunk@,
            final(self).remaining == old(self).remaining,
    {
        self.pushback = chunk;
    }
}

} // verus!
