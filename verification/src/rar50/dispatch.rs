//! Compressing all members of an archive the way its settings call for: not at
//! all, block by block, or each as a whole.

use vstd::prelude::*;

#[allow(unused_imports)]
use crate::crc32::crc32_of;
use crate::error::{Error, Result};
use crate::filter::{FilterPolicy, FilterSpec};
use crate::rar50::blocks::CompressedMember;
use crate::rar50::compress::{
    compress_whole_member, settle_member, source_integrity, MemberSource,
};
#[allow(unused_imports)]
use crate::rar50::compress::{is_member_of, is_whole_result, size_change_error};
use crate::rar50::ladder::EncodeOptions;
#[allow(unused_imports)]
use crate::rar50::member_progress::{is_stopped, lemma_hears_of_one_more};
use crate::rar50::member_progress::MemberProgress;
use crate::rar50::plan::{CompressPlan, Execution, ExecutionPlan, MemberPlan};
#[allow(unused_imports)]
use crate::rar50::plan::{
    is_member_plan, is_stored, plans_whole_members, streaming_workspace_of,
};
use crate::rar50::runs::BlockJob;
use crate::rar50::share::Turn;
use crate::rar50::streams::{compress_fallback_member, compress_streaming_members};
#[allow(unused_imports)]
use crate::rar50::streams::{
    block_codec_fails, is_block_codec, is_fallback_result, is_streamed, keep_their_sizes,
};
use crate::rar50::waves::whole_member_wave;
#[allow(unused_imports)]
use crate::rar50::waves::{total_workspace, wave_admits};
#[allow(unused_imports)]
use crate::write_progress::has_stopped;
use crate::write_progress::WriteProgress;

verus! {

/// What a codec has to offer.
pub struct MemberCodec<X, B, A, S, E> {
    /// Whether a chunk extends the block before it.
    pub extends: X,
    /// Packs a run of blocks.
    pub pack: B,
    /// What a search for filters walks over a member, with so many settings to
    /// try; nothing where a search is not worth while.
    pub applies: A,
    /// Finds filters for a member, and packs it under them, in turns.
    pub search: S,
    /// Packs a member as a whole, in turns.
    pub encode: E,
}

/// Whether a codec can be given anything that members hold.
pub open spec fn is_member_codec<
    X: Fn(&[u8], &[u8]) -> bool,
    B: Fn(&BlockJob) -> Result<Vec<Vec<u8>>>,
    A: Fn(&[u8], usize) -> Option<u64>,
    S: Fn(&[u8], EncodeOptions, usize) -> Result<Turn<(Vec<FilterSpec>, Vec<u8>)>>,
    E: Fn(&[u8], Vec<FilterSpec>, EncodeOptions, usize) -> Result<Turn<Vec<u8>>>,
>(codec: MemberCodec<X, B, A, S, E>) -> bool {
    &&& forall|held: &[u8], chunk: &[u8]| #[trigger] call_requires(codec.extends, (held, chunk))
    &&& is_block_codec(codec.pack)
    &&& forall|held: &[u8], settings: usize| #[trigger]
        call_requires(codec.applies, (held, settings))
    &&& forall|held: &[u8], options: EncodeOptions, turn: usize| #[trigger]
        call_requires(codec.search, (held, options, turn))
    &&& forall|held: &[u8], given: Vec<FilterSpec>, options: EncodeOptions, turn: usize| #[trigger]
        call_requires(codec.encode, (held, given, options, turn))
}

/// Whether the codec may say of a member that a search is worth while, or that
/// it is not. It is asked where a search is wanted and there is something to
/// search.
pub open spec fn may_apply<A: Fn(&[u8], usize) -> Option<u64>>(
    applies: A,
    plan: CompressPlan,
    source: MemberSource,
    answer: Option<u64>,
) -> bool {
    if plan.filter_policy == FilterPolicy::Auto && source.keeps_its_size() && source.data@.len()
        > 0 {
        exists|held: &[u8]|
            held@ == source.data@ && #[trigger] call_ensures(
                applies,
                (held, plan.candidates.len()),
                answer,
            )
    } else {
        answer is None
    }
}

pub open spec fn workspace_error(plan: CompressPlan, required: u64, memory_limit: u64) -> Error {
    Error::MemoryLimitExceeded {
        limit: memory_limit,
        required,
        dictionary_size: plan.dictionary_size,
    }
}

/// What comes of a member under its own plan.
pub open spec fn is_planned_result<
    X: Fn(&[u8], &[u8]) -> bool,
    B: Fn(&BlockJob) -> Result<Vec<Vec<u8>>>,
    A: Fn(&[u8], usize) -> Option<u64>,
    S: Fn(&[u8], EncodeOptions, usize) -> Result<Turn<(Vec<FilterSpec>, Vec<u8>)>>,
    E: Fn(&[u8], Vec<FilterSpec>, EncodeOptions, usize) -> Result<Turn<Vec<u8>>>,
>(
    codec: MemberCodec<X, B, A, S, E>,
    plan: CompressPlan,
    member: MemberPlan,
    memory_limit: u64,
    source: MemberSource,
    r: Result<CompressedMember>,
) -> bool {
    if member.workspace > memory_limit {
        r == Err::<CompressedMember, Error>(
            workspace_error(plan, member.workspace, memory_limit),
        )
    } else {
        match member.execution {
            Execution::WholeMember => exists|answer: Option<u64>| #[trigger]
                may_apply(codec.applies, plan, source, answer) && is_whole_result(
                    codec.search,
                    codec.encode,
                    plan,
                    answer is Some,
                    source,
                    r,
                ),
            Execution::Blocks { .. } => is_fallback_result(
                codec.extends,
                codec.pack,
                plan,
                source,
                r,
            ),
        }
    }
}

/// Whether a member fails whatever the codec does.
pub open spec fn is_refused(member: MemberPlan, memory_limit: u64, source: MemberSource) -> bool {
    member.workspace > memory_limit || !source.keeps_its_size()
}

/// Compresses one member as a whole, within memory that is reserved already.
fn compress_planned_whole<
    X: Fn(&[u8], &[u8]) -> bool,
    B: Fn(&BlockJob) -> Result<Vec<Vec<u8>>>,
    A: Fn(&[u8], usize) -> Option<u64>,
    S: Fn(&[u8], EncodeOptions, usize) -> Result<Turn<(Vec<FilterSpec>, Vec<u8>)>>,
    E: Fn(&[u8], Vec<FilterSpec>, EncodeOptions, usize) -> Result<Turn<Vec<u8>>>,
    P: WriteProgress,
>(
    source: &MemberSource,
    plan: &CompressPlan,
    member: MemberPlan,
    memory_limit: u64,
    codec: &MemberCodec<X, B, A, S, E>,
    watch: &mut MemberProgress<'_, P>,
    index: usize,
) -> (r: Result<CompressedMember>)
    requires
        is_member_codec(*codec),
        old(watch).is_valid(),
        index < old(watch).count(),
        member.workspace <= memory_limit,
        member.execution == Execution::WholeMember,
    ensures
        final(watch).continues(*old(watch)),
        is_stopped(*old(watch), r) || is_planned_result(
            *codec,
            *plan,
            member,
            memory_limit,
            *source,
            r,
        ),
        r is Ok ==> old(watch).audience().hears_of(index as int, 1),
{
    watch.started(index);
    match watch.check() {
        Ok(()) => {},
        Err(error) => {
            return Err(error);
        },
    }
    let size: usize = source.data.len();
    let applies = &codec.applies;
    let answer: Option<u64> = if matches!(plan.filter_policy, FilterPolicy::Auto) && size as u64
        == source.input_size && size > 0 {
        let data: &[u8] = source.data.as_slice();
        let settings: usize = plan.candidates.len();
        let answer: Option<u64> = applies(data, settings);
        assert(call_ensures(codec.applies, (data, settings), answer));
        answer
    } else {
        None
    };
    assert(may_apply(codec.applies, *plan, *source, answer));
    let r = compress_whole_member(source, plan, answer, &codec.search, &codec.encode, watch);
    if r.is_ok() {
        watch.finished(index);
    }
    r
}

/// What comes of members that each have a plan of their own.
pub open spec fn is_whole_outcome<
    X: Fn(&[u8], &[u8]) -> bool,
    B: Fn(&BlockJob) -> Result<Vec<Vec<u8>>>,
    A: Fn(&[u8], usize) -> Option<u64>,
    S: Fn(&[u8], EncodeOptions, usize) -> Result<Turn<(Vec<FilterSpec>, Vec<u8>)>>,
    E: Fn(&[u8], Vec<FilterSpec>, EncodeOptions, usize) -> Result<Turn<Vec<u8>>>,
>(
    codec: MemberCodec<X, B, A, S, E>,
    plan: CompressPlan,
    members: Seq<MemberPlan>,
    memory_limit: u64,
    sources: Seq<MemberSource>,
    r: Result<Vec<CompressedMember>>,
) -> bool {
    match r {
        Ok(out) => out@.len() == sources.len() && forall|m: int|
            0 <= m < sources.len() ==> is_planned_result(
                codec,
                plan,
                members[m],
                memory_limit,
                sources[m],
                Ok::<CompressedMember, Error>(#[trigger] out@[m]),
            ),
        Err(error) => exists|m: int|
            {
                &&& 0 <= m < sources.len()
                &&& is_planned_result(
                    codec,
                    plan,
                    members[m],
                    memory_limit,
                    #[trigger] sources[m],
                    Err::<CompressedMember, Error>(error),
                )
                &&& forall|k: int|
                    0 <= k < m ==> !#[trigger] is_refused(members[k], memory_limit, sources[k])
            },
    }
}

/// A member's workspace is part of its wave's.
proof fn lemma_within_wave(members: Seq<MemberPlan>, start: int, end: int, at: int)
    requires
        start <= at < end <= members.len(),
    ensures
        members[at].workspace <= total_workspace(members, start, end),
    decreases end - start,
{
    if at < end - 1 {
        lemma_within_wave(members, start, end - 1, at);
    }
}

/// Compresses the members of one wave.
fn compress_whole_wave<
    X: Fn(&[u8], &[u8]) -> bool,
    B: Fn(&BlockJob) -> Result<Vec<Vec<u8>>>,
    A: Fn(&[u8], usize) -> Option<u64>,
    S: Fn(&[u8], EncodeOptions, usize) -> Result<Turn<(Vec<FilterSpec>, Vec<u8>)>>,
    E: Fn(&[u8], Vec<FilterSpec>, EncodeOptions, usize) -> Result<Turn<Vec<u8>>>,
    P: WriteProgress,
>(
    sources: &[MemberSource],
    plan: &CompressPlan,
    members: &[MemberPlan],
    end: usize,
    memory_limit: u64,
    codec: &MemberCodec<X, B, A, S, E>,
    results: &mut Vec<CompressedMember>,
    watch: &mut MemberProgress<'_, P>,
) -> (r: Result<()>)
    requires
        is_member_codec(*codec),
        old(watch).is_valid(),
        old(watch).count() == sources@.len(),
        members@.len() == sources@.len(),
        old(results)@.len() <= end <= sources@.len(),
        forall|i: int|
            old(results)@.len() <= i < end ==> (#[trigger] members@[i]).workspace <= memory_limit
                && members@[i].execution == Execution::WholeMember,
        forall|m: int|
            0 <= m < old(results)@.len() ==> is_planned_result(
                *codec,
                *plan,
                members@[m],
                memory_limit,
                sources@[m],
                Ok::<CompressedMember, Error>(#[trigger] old(results)@[m]),
            ),
    ensures
        final(watch).continues(*old(watch)),
        match r {
            Ok(()) => final(results)@.len() == end && forall|m: int|
                0 <= m < end ==> is_planned_result(
                    *codec,
                    *plan,
                    members@[m],
                    memory_limit,
                    sources@[m],
                    Ok::<CompressedMember, Error>(#[trigger] final(results)@[m]),
                ),
            Err(error) => old(watch).is_stop(error) || exists|m: int|
                {
                    &&& 0 <= m < end
                    &&& is_planned_result(
                        *codec,
                        *plan,
                        members@[m],
                        memory_limit,
                        #[trigger] sources@[m],
                        Err::<CompressedMember, Error>(error),
                    )
                    &&& forall|k: int|
                        0 <= k < m ==> !#[trigger] is_refused(
                            members@[k],
                            memory_limit,
                            sources@[k],
                        )
                },
        },
        r is Ok && old(watch).audience().hears_of(0, old(results)@.len())
            ==> old(watch).audience().hears_of(0, end as nat),
{
    while results.len() < end
        invariant
            is_member_codec(*codec),
            old(watch).count() == sources@.len(),
            watch.is_valid(),
            watch.continues(*old(watch)),
            members@.len() == sources@.len(),
            old(results)@.len() <= results@.len() <= end <= sources@.len(),
            old(watch).audience().hears_of(0, old(results)@.len())
                ==> watch.audience().hears_of(0, results@.len()),
            forall|i: int|
                old(results)@.len() <= i < end ==> (#[trigger] members@[i]).workspace
                    <= memory_limit && members@[i].execution == Execution::WholeMember,
            forall|m: int|
                0 <= m < results@.len() ==> is_planned_result(
                    *codec,
                    *plan,
                    members@[m],
                    memory_limit,
                    sources@[m],
                    Ok::<CompressedMember, Error>(#[trigger] results@[m]),
                ),
        decreases end - results@.len(),
    {
        let at: usize = results.len();
        match compress_planned_whole(
            &sources[at],
            plan,
            members[at],
            memory_limit,
            codec,
            watch,
            at,
        ) {
            Ok(member) => {
                proof {
                    let audience = watch.audience();
                    assert(audience.hears(true, at as int));
                    if audience.hears_of(0, at as nat) {
                        lemma_hears_of_one_more(audience, 0, at as nat);
                    }
                }
                results.push(member);
            },
            Err(error) => {
                proof {
                    lemma_none_refused(*codec, *plan, members@, memory_limit, sources@, results@);
                    assert(sources@[at as int] == sources@[results@.len() as int]);
                }
                return Err(error);
            },
        }
    }
    Ok(())
}

/// A member that was compressed was not refused.
proof fn lemma_none_refused<
    X: Fn(&[u8], &[u8]) -> bool,
    B: Fn(&BlockJob) -> Result<Vec<Vec<u8>>>,
    A: Fn(&[u8], usize) -> Option<u64>,
    S: Fn(&[u8], EncodeOptions, usize) -> Result<Turn<(Vec<FilterSpec>, Vec<u8>)>>,
    E: Fn(&[u8], Vec<FilterSpec>, EncodeOptions, usize) -> Result<Turn<Vec<u8>>>,
>(
    codec: MemberCodec<X, B, A, S, E>,
    plan: CompressPlan,
    members: Seq<MemberPlan>,
    memory_limit: u64,
    sources: Seq<MemberSource>,
    results: Seq<CompressedMember>,
)
    requires
        forall|m: int|
            0 <= m < results.len() ==> is_planned_result(
                codec,
                plan,
                members[m],
                memory_limit,
                sources[m],
                Ok::<CompressedMember, Error>(#[trigger] results[m]),
            ),
    ensures
        forall|k: int|
            0 <= k < results.len() ==> !#[trigger] is_refused(members[k], memory_limit, sources[k]),
{
    assert forall|k: int| 0 <= k < results.len() implies !#[trigger] is_refused(
        members[k],
        memory_limit,
        sources[k],
    ) by {
        let member = results[k];
        assert(is_planned_result(
            codec,
            plan,
            members[k],
            memory_limit,
            sources[k],
            Ok::<CompressedMember, Error>(member),
        ));
    }
}

/// Compresses members that each have a plan of their own, in order: wave by
/// wave where they are compressed as wholes.
fn compress_members_whole<
    X: Fn(&[u8], &[u8]) -> bool,
    B: Fn(&BlockJob) -> Result<Vec<Vec<u8>>>,
    A: Fn(&[u8], usize) -> Option<u64>,
    S: Fn(&[u8], EncodeOptions, usize) -> Result<Turn<(Vec<FilterSpec>, Vec<u8>)>>,
    E: Fn(&[u8], Vec<FilterSpec>, EncodeOptions, usize) -> Result<Turn<Vec<u8>>>,
    P: WriteProgress,
>(
    sources: &[MemberSource],
    plan: &CompressPlan,
    members: &[MemberPlan],
    memory_limit: u64,
    threads: usize,
    codec: &MemberCodec<X, B, A, S, E>,
    watch: &mut MemberProgress<'_, P>,
) -> (r: Result<Vec<CompressedMember>>)
    requires
        is_member_codec(*codec),
        old(watch).is_valid(),
        old(watch).count() == sources@.len(),
        plan.block_size > 0,
        !plan.solid,
        members@.len() == sources@.len(),
    ensures
        final(watch).continues(*old(watch)),
        is_stopped(*old(watch), r) || is_whole_outcome(
            *codec,
            *plan,
            members@,
            memory_limit,
            sources@,
            r,
        ),
        r is Ok && old(watch).audience().expects(0, sources@)
            ==> old(watch).audience().hears_of(0, sources@.len()),
{
    let mut results: Vec<CompressedMember> = Vec::new();
    while results.len() < sources.len()
        invariant
            is_member_codec(*codec),
            old(watch).count() == sources@.len(),
            watch.is_valid(),
            watch.continues(*old(watch)),
            plan.block_size > 0,
            !plan.solid,
            members@.len() == sources@.len(),
            results@.len() <= sources@.len(),
            old(watch).audience().expects(0, sources@)
                ==> watch.audience().hears_of(0, results@.len()),
            forall|m: int|
                0 <= m < results@.len() ==> is_planned_result(
                    *codec,
                    *plan,
                    members@[m],
                    memory_limit,
                    sources@[m],
                    Ok::<CompressedMember, Error>(#[trigger] results@[m]),
                ),
        decreases sources@.len() - results@.len(),
    {
        match watch.check() {
            Ok(()) => {},
            Err(error) => {
                return Err(error);
            },
        }
        let start: usize = results.len();
        let first: MemberPlan = members[start];
        if first.execution != Execution::WholeMember {
            match compress_fallback_member(
                sources,
                start,
                plan,
                first.workspace,
                memory_limit,
                &codec.extends,
                &codec.pack,
                watch,
            ) {
                Ok(member) => {
                    proof {
                        let audience = watch.audience();
                        if audience.expects(0, sources@) {
                            assert(audience.hears(true, start as int));
                            lemma_hears_of_one_more(audience, 0, start as nat);
                        }
                    }
                    results.push(member);
                },
                Err(error) => {
                    proof {
                        lemma_none_refused(
                            *codec,
                            *plan,
                            members@,
                            memory_limit,
                            sources@,
                            results@,
                        );
                        assert(old(watch).is_stop(error) || is_planned_result(
                            *codec,
                            *plan,
                            members@[start as int],
                            memory_limit,
                            sources@[start as int],
                            Err::<CompressedMember, Error>(error),
                        ));
                    }
                    return Err(error);
                },
            }
        } else {
            let (end, reserved) = whole_member_wave(members, start, threads, memory_limit);
            if reserved > memory_limit {
                let error = Error::MemoryLimitExceeded {
                    limit: memory_limit,
                    required: reserved,
                    dictionary_size: plan.dictionary_size,
                };
                proof {
                    assert(total_workspace(members@, start as int, start as int) == 0);
                    assert(reserved == first.workspace);
                    lemma_none_refused(*codec, *plan, members@, memory_limit, sources@, results@);
                    assert(is_planned_result(
                        *codec,
                        *plan,
                        members@[start as int],
                        memory_limit,
                        sources@[start as int],
                        Err::<CompressedMember, Error>(error),
                    ));
                }
                return Err(error);
            }
            proof {
                assert forall|i: int| start <= i < end implies (#[trigger] members@[i]).workspace
                    <= memory_limit && members@[i].execution == Execution::WholeMember by {
                    lemma_within_wave(members@, start as int, end as int, i);
                    if i > start {
                        assert(wave_admits(members@, start as int, i, threads, memory_limit));
                    }
                }
            }
            match compress_whole_wave(
                sources,
                plan,
                members,
                end,
                memory_limit,
                codec,
                &mut results,
                watch,
            ) {
                Ok(()) => {},
                Err(error) => {
                    return Err(error);
                },
            }
        }
    }
    Ok(results)
}

/// The error for a source that has not the length it announced, where members
/// are only read.
pub open spec fn reading_error() -> Error {
    Error::InvalidHeader("entry source size changed while reading")
}

/// What comes of members that are stored as they are.
pub open spec fn is_stored_outcome(
    plan: CompressPlan,
    sources: Seq<MemberSource>,
    r: Result<Vec<CompressedMember>>,
) -> bool {
    if keep_their_sizes(sources) {
        r matches Ok(out) && out@.len() == sources.len() && forall|m: int|
            0 <= m < sources.len() ==> is_member_of(
                sources[m],
                true,
                Seq::empty(),
                plan.solid && m > 0,
                #[trigger] out@[m],
            )
    } else {
        r == Err::<Vec<CompressedMember>, Error>(reading_error())
    }
}

fn store_members<P: WriteProgress>(
    sources: &[MemberSource],
    plan: &CompressPlan,
    watch: &mut MemberProgress<'_, P>,
) -> (r: Result<Vec<CompressedMember>>)
    requires
        plan.method == 0,
        old(watch).is_valid(),
        old(watch).count() == sources@.len(),
    ensures
        final(watch).continues(*old(watch)),
        is_stopped(*old(watch), r) || is_stored_outcome(*plan, sources@, r),
        r is Ok ==> old(watch).audience().hears_of(0, sources@.len()),
{
    let mut out: Vec<CompressedMember> = Vec::new();
    while out.len() < sources.len()
        invariant
            plan.method == 0,
            old(watch).count() == sources@.len(),
            watch.is_valid(),
            watch.continues(*old(watch)),
            out@.len() <= sources@.len(),
            watch.audience().hears_of(0, out@.len()),
            forall|m: int| 0 <= m < out@.len() ==> (#[trigger] sources@[m]).keeps_its_size(),
            forall|m: int|
                0 <= m < out@.len() ==> is_member_of(
                    sources@[m],
                    true,
                    Seq::empty(),
                    plan.solid && m > 0,
                    #[trigger] out@[m],
                ),
        decreases sources@.len() - out@.len(),
    {
        let at: usize = out.len();
        watch.started(at);
        match source_integrity(&sources[at]) {
            Ok(_) => {},
            Err(error) => {
                assert(!sources@[at as int].keeps_its_size());
                return Err(error);
            },
        }
        match watch.advance(sources[at].input_size) {
            Ok(()) => {},
            Err(error) => {
                return Err(error);
            },
        }
        watch.finished(at);
        proof {
            lemma_hears_of_one_more(watch.audience(), 0, at as nat);
        }
        let member = settle_member(&sources[at], plan, at, Vec::new());
        out.push(member);
    }
    Ok(out)
}

/// Whether members are what their packed blocks come to.
pub open spec fn are_settled(
    plan: CompressPlan,
    sources: Seq<MemberSource>,
    packed: Seq<Vec<u8>>,
    out: Seq<CompressedMember>,
) -> bool {
    &&& out.len() == sources.len()
    &&& forall|m: int|
        0 <= m < sources.len() ==> is_member_of(
            sources[m],
            is_stored(plan, sources[m].input_size, packed[m]@.len()),
            packed[m]@,
            plan.solid && m > 0,
            #[trigger] out[m],
        )
}

fn settle_members(
    sources: &[MemberSource],
    plan: &CompressPlan,
    packed: Vec<Vec<u8>>,
) -> (out: Vec<CompressedMember>)
    requires
        packed@.len() == sources@.len(),
    ensures
        are_settled(*plan, sources@, packed@, out@),
{
    let ghost given = packed@;
    let mut left = packed;
    let mut out: Vec<CompressedMember> = Vec::new();
    while out.len() < sources.len()
        invariant
            given.len() == sources@.len(),
            given == packed@,
            left@.len() == given.len(),
            out@.len() <= sources@.len(),
            forall|m: int| out@.len() <= m < given.len() ==> #[trigger] left@[m] == given[m],
            forall|m: int|
                0 <= m < out@.len() ==> is_member_of(
                    sources@[m],
                    is_stored(*plan, sources@[m].input_size, given[m]@.len()),
                    given[m]@,
                    plan.solid && m > 0,
                    #[trigger] out@[m],
                ),
        decreases sources@.len() - out@.len(),
    {
        let at: usize = out.len();
        let mut own: Vec<u8> = Vec::new();
        std::mem::swap(&mut left[at], &mut own);
        assert(own == given[at as int]);
        let member = settle_member(&sources[at], plan, at, own);
        out.push(member);
    }
    out
}

/// What comes of members that are compressed block by block.
pub open spec fn is_streamed_outcome<
    X: Fn(&[u8], &[u8]) -> bool,
    B: Fn(&BlockJob) -> Result<Vec<Vec<u8>>>,
>(
    extends: X,
    pack: B,
    plan: CompressPlan,
    memory_limit: u64,
    sources: Seq<MemberSource>,
    r: Result<Vec<CompressedMember>>,
) -> bool {
    let required = streaming_workspace_of(plan, true);
    if required > memory_limit {
        r == Err::<Vec<CompressedMember>, Error>(workspace_error(plan, required, memory_limit))
    } else if !keep_their_sizes(sources) {
        r == Err::<Vec<CompressedMember>, Error>(size_change_error())
    } else {
        match r {
            Ok(out) => exists|packed: Seq<Vec<u8>>| #[trigger]
                is_streamed(extends, pack, plan, sources, packed) && are_settled(
                    plan,
                    sources,
                    packed,
                    out@,
                ),
            Err(error) => block_codec_fails(pack, error),
        }
    }
}

/// Whether each member has the plan that its size calls for.
pub open spec fn are_member_plans(
    plan: CompressPlan,
    sources: Seq<MemberSource>,
    memory_limit: u64,
    members: Seq<MemberPlan>,
) -> bool {
    &&& members.len() == sources.len()
    &&& forall|m: int|
        0 <= m < members.len() ==> is_member_plan(
            plan,
            sources[m].input_size,
            memory_limit,
            #[trigger] members[m],
        )
}

/// What comes of compressing the members of an archive.
pub open spec fn is_compressed_outcome<
    X: Fn(&[u8], &[u8]) -> bool,
    B: Fn(&BlockJob) -> Result<Vec<Vec<u8>>>,
    A: Fn(&[u8], usize) -> Option<u64>,
    S: Fn(&[u8], EncodeOptions, usize) -> Result<Turn<(Vec<FilterSpec>, Vec<u8>)>>,
    E: Fn(&[u8], Vec<FilterSpec>, EncodeOptions, usize) -> Result<Turn<Vec<u8>>>,
>(
    codec: MemberCodec<X, B, A, S, E>,
    plan: CompressPlan,
    memory_limit: u64,
    sources: Seq<MemberSource>,
    r: Result<Vec<CompressedMember>>,
) -> bool {
    if plan.method == 0 {
        is_stored_outcome(plan, sources, r)
    } else if !plans_whole_members(plan) {
        is_streamed_outcome(codec.extends, codec.pack, plan, memory_limit, sources, r)
    } else {
        exists|members: Seq<MemberPlan>| #[trigger]
            are_member_plans(plan, sources, memory_limit, members) && is_whole_outcome(
                codec,
                plan,
                members,
                memory_limit,
                sources,
                r,
            )
    }
}

/// Compresses the members of an archive. The results come in the order of the
/// sources, and `watch` is told of each.
pub fn compress_members<
    X: Fn(&[u8], &[u8]) -> bool,
    B: Fn(&BlockJob) -> Result<Vec<Vec<u8>>>,
    A: Fn(&[u8], usize) -> Option<u64>,
    S: Fn(&[u8], EncodeOptions, usize) -> Result<Turn<(Vec<FilterSpec>, Vec<u8>)>>,
    E: Fn(&[u8], Vec<FilterSpec>, EncodeOptions, usize) -> Result<Turn<Vec<u8>>>,
    P: WriteProgress,
>(
    sources: &[MemberSource],
    plan: &CompressPlan,
    memory_limit: u64,
    threads: usize,
    codec: &MemberCodec<X, B, A, S, E>,
    watch: &mut MemberProgress<'_, P>,
) -> (r: Result<Vec<CompressedMember>>)
    requires
        is_member_codec(*codec),
        old(watch).is_valid(),
        old(watch).count() == sources@.len(),
        plan.block_size > 0,
    ensures
        final(watch).continues(*old(watch)),
        is_stopped(*old(watch), r) || is_compressed_outcome(
            *codec,
            *plan,
            memory_limit,
            sources@,
            r,
        ),
        has_stopped(old(watch).receiver()) ==> r == Err::<Vec<CompressedMember>, Error>(
            Error::Cancelled,
        ),
        r is Ok && old(watch).audience().expects(0, sources@)
            ==> old(watch).audience().hears_of(0, sources@.len()),
{
    match watch.check() {
        Ok(()) => {},
        Err(error) => {
            return Err(error);
        },
    }
    let count: usize = sources.len();
    assert(watch.covers(0, count as nat));
    let mut sizes: Vec<u64> = Vec::new();
    while sizes.len() < sources.len()
        invariant
            sizes@.len() <= sources@.len(),
            forall|m: int| 0 <= m < sizes@.len() ==> #[trigger] sizes@[m] == sources@[m].input_size,
        decreases sources@.len() - sizes@.len(),
    {
        let at: usize = sizes.len();
        sizes.push(sources[at].input_size);
    }
    match ExecutionPlan::new(plan, &sizes, memory_limit) {
        ExecutionPlan::Stored => store_members(sources, plan, watch),
        ExecutionPlan::Blocks { workspace } => match compress_streaming_members(
            sources,
            plan,
            workspace,
            memory_limit,
            &codec.extends,
            &codec.pack,
            watch,
            0,
        ) {
            Ok(packed) => {
                let ghost given = packed@;
                assert(is_streamed(codec.extends, codec.pack, *plan, sources@, given));
                Ok(settle_members(sources, plan, packed))
            },
            Err(error) => Err(error),
        },
        ExecutionPlan::IndependentMembers(members) => {
            assert(are_member_plans(*plan, sources@, memory_limit, members@));
            compress_members_whole(sources, plan, &members, memory_limit, threads, codec, watch)
        },
    }
}

/// Every member comes out: one for each source, with the size and the checksum
/// that the source has.
pub proof fn law_members_keep_their_sources<
    X: Fn(&[u8], &[u8]) -> bool,
    B: Fn(&BlockJob) -> Result<Vec<Vec<u8>>>,
    A: Fn(&[u8], usize) -> Option<u64>,
    S: Fn(&[u8], EncodeOptions, usize) -> Result<Turn<(Vec<FilterSpec>, Vec<u8>)>>,
    E: Fn(&[u8], Vec<FilterSpec>, EncodeOptions, usize) -> Result<Turn<Vec<u8>>>,
>(
    codec: MemberCodec<X, B, A, S, E>,
    plan: CompressPlan,
    memory_limit: u64,
    sources: Seq<MemberSource>,
    out: Vec<CompressedMember>,
)
    requires
        is_compressed_outcome(
            codec,
            plan,
            memory_limit,
            sources,
            Ok::<Vec<CompressedMember>, Error>(out),
        ),
    ensures
        out@.len() == sources.len(),
        forall|m: int|
            0 <= m < sources.len() ==> {
                &&& (#[trigger] sources[m]).keeps_its_size()
                &&& out@[m].input_size == sources[m].data@.len()
                &&& out@[m].crc32 == crc32_of(sources[m].data@)
                &&& out@[m].hash == sources[m].hash
                &&& out@[m].store ==> out@[m].packed@.len() == 0
            },
{
    assert forall|m: int| 0 <= m < sources.len() implies {
        &&& (#[trigger] sources[m]).keeps_its_size()
        &&& out@[m].input_size == sources[m].data@.len()
        &&& out@[m].crc32 == crc32_of(sources[m].data@)
        &&& out@[m].hash == sources[m].hash
        &&& out@[m].store ==> out@[m].packed@.len() == 0
    } by {
        let member = out@[m];
        if plan.method != 0 && plans_whole_members(plan) {
            let members = choose|members: Seq<MemberPlan>| #[trigger]
                are_member_plans(plan, sources, memory_limit, members) && is_whole_outcome(
                    codec,
                    plan,
                    members,
                    memory_limit,
                    sources,
                    Ok::<Vec<CompressedMember>, Error>(out),
                );
            assert(is_planned_result(
                codec,
                plan,
                members[m],
                memory_limit,
                sources[m],
                Ok::<CompressedMember, Error>(member),
            ));
        }
    }
}

/// Whether packing a member into this was worth it, or was asked for.
pub open spec fn pays(plan: CompressPlan, member: CompressedMember) -> bool {
    member.packed@.len() < member.input_size || plan.solid || plan.filter_policy is Explicit
}

/// A member of a solid archive goes on with the dictionary of the one before it, unless it
/// is the first; no other member does. Nothing is packed where nothing is to be, nor an
/// empty member, and none is packed into as much as it was without need.
pub proof fn law_members_are_packed_where_it_pays<
    X: Fn(&[u8], &[u8]) -> bool,
    B: Fn(&BlockJob) -> Result<Vec<Vec<u8>>>,
    A: Fn(&[u8], usize) -> Option<u64>,
    S: Fn(&[u8], EncodeOptions, usize) -> Result<Turn<(Vec<FilterSpec>, Vec<u8>)>>,
    E: Fn(&[u8], Vec<FilterSpec>, EncodeOptions, usize) -> Result<Turn<Vec<u8>>>,
>(
    codec: MemberCodec<X, B, A, S, E>,
    plan: CompressPlan,
    memory_limit: u64,
    sources: Seq<MemberSource>,
    out: Vec<CompressedMember>,
    m: int,
)
    requires
        is_compressed_outcome(
            codec,
            plan,
            memory_limit,
            sources,
            Ok::<Vec<CompressedMember>, Error>(out),
        ),
        0 <= m < sources.len(),
    ensures
        out@.len() == sources.len(),
        out@[m].solid_continuation <==> plan.solid && m > 0,
        plan.method == 0 || sources[m].data@.len() == 0 ==> out@[m].store,
        !out@[m].store ==> pays(plan, out@[m]),
{
    law_members_keep_their_sources(codec, plan, memory_limit, sources, out);
    assert(sources[m].keeps_its_size());
    let member = out@[m];
    assert(member.input_size == sources[m].data@.len());
    if plan.method != 0 && plans_whole_members(plan) {
        let members = choose|members: Seq<MemberPlan>| #[trigger]
            are_member_plans(plan, sources, memory_limit, members) && is_whole_outcome(
                codec,
                plan,
                members,
                memory_limit,
                sources,
                Ok::<Vec<CompressedMember>, Error>(out),
            );
        assert(is_planned_result(
            codec,
            plan,
            members[m],
            memory_limit,
            sources[m],
            Ok::<CompressedMember, Error>(out@[m]),
        ));
    }
}

} // verus!
