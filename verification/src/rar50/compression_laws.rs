//! What the compression settings of a member come to.

use vstd::arithmetic::power2::*;
use vstd::prelude::*;

#[allow(unused_imports)]
use crate::error::Error;
#[allow(unused_imports)]
use crate::filter::FilterPolicy;
#[allow(unused_imports)]
use crate::rar50::dictionary::{
    are_fine_fields, can_encode, fine_refusal, first_refusal, finder_window, size_by_power,
    workspace_of,
};
#[allow(unused_imports)]
use crate::rar50::ladder::{
    candidates_at, dictionary_cap_at, encode_options_of, is_fitted, is_picked, parses_optimally,
};
#[allow(unused_imports)]
use crate::power::power_reaching;
#[allow(unused_imports)]
use crate::rar50::plan::{
    compression_field, compression_info_of, is_compression_info, is_member_plan, is_stored,
    is_whole_workspace, law_compression_field_round_trip, law_whole_workspace_is_settled,
    member_info, whole_workspace_at, CompressPlan, Execution, FallbackReason, MemberPlan,
};

verus! {

proof fn lemma_some_info(
    algorithm_version: u8,
    method: u8,
    dictionary_size: u64,
    solid_continuation: bool,
)
    ensures
        is_compression_info(
            algorithm_version,
            method,
            dictionary_size,
            solid_continuation,
            compression_info_of(algorithm_version, method, dictionary_size, solid_continuation),
        ),
{
    if can_encode(algorithm_version, dictionary_size) {
        let (power, fraction) = if algorithm_version == 0 {
            let power = choose|power: nat|
                power <= 15 && dictionary_size == #[trigger] size_by_power(power);
            (power as u8, 0u8)
        } else {
            let (power, fraction) = choose|power: nat, fraction: nat|
                are_fine_fields(dictionary_size, power, fraction);
            (power as u8, fraction as u8)
        };
        let info = compression_field(
            algorithm_version,
            method,
            power,
            fraction,
            solid_continuation,
        );
        assert(is_compression_info(
            algorithm_version,
            method,
            dictionary_size,
            solid_continuation,
            Ok::<u64, Error>(info),
        ));
    } else {
        let error = if dictionary_size == 0 {
            Error::InvalidHeader("RAR 5 dictionary size must be non-zero")
        } else if algorithm_version == 0 {
            first_refusal(dictionary_size)
        } else if algorithm_version == 1 {
            fine_refusal(dictionary_size)
        } else {
            Error::InvalidHeader("RAR 5 unknown compression algorithm version")
        };
        assert(is_compression_info(
            algorithm_version,
            method,
            dictionary_size,
            solid_continuation,
            Err::<u64, Error>(error),
        ));
    }
}

/// What a compression field says.
pub struct CompressionRead {
    pub version: nat,
    pub solid: bool,
    pub method: nat,
    /// 32 times the dictionary's size, which may be a fraction of the first encoding's.
    pub dictionary_by_32: nat,
}

/// Reads a compression field: six bits of version, one for a solid member, three of
/// method, five for the power of two of 128 KiB that the dictionary is, and for version
/// one as many for the thirty-seconds of itself that it is larger.
pub open spec fn read_compression(info: nat) -> Option<CompressionRead> {
    let version = info % 64;
    let power = (info / 1024) % 32;
    let fraction = info / 32768;
    if version > 1 || fraction > 31 || (version == 0 && (power > 15 || fraction > 0)) {
        None
    } else {
        Some(
            CompressionRead {
                version,
                solid: (info / 64) % 2 == 1,
                method: (info / 128) % 8,
                dictionary_by_32: 131072 * pow2(power) * (32 + fraction),
            },
        )
    }
}

/// The compression field of a member gives back the algorithm's version, whether the
/// member goes on with the dictionary of the one before, the method, zero for a stored
/// member, and the dictionary.
pub proof fn law_compression_fields_read_back(plan: CompressPlan, store: bool, solid: bool)
    requires
        plan.method < 8,
    ensures
        member_info(plan, store, solid) matches Ok(info) ==> (read_compression(info as nat) matches
            Some(read) && read.version == plan.algorithm_version && read.solid == solid
            && read.method == (if store {
            0
        } else {
            plan.method as nat
        }) && read.dictionary_by_32 == 32 * plan.dictionary_size),
{
    let method = if store {
        0u8
    } else {
        plan.method
    };
    let version = plan.algorithm_version;
    let size = plan.dictionary_size;
    lemma_some_info(version, method, size, solid);
    if let Ok(info) = member_info(plan, store, solid) {
        let (power, fraction) = choose|power: u8, fraction: u8|
            info == #[trigger] compression_field(version, method, power, fraction, solid) && (
            if version == 0 {
                power <= 15 && fraction == 0 && size == size_by_power(power as nat)
            } else {
                are_fine_fields(size, power as nat, fraction as nat)
            });
        law_compression_field_round_trip(version, method, power, fraction, solid);
        let p = pow2(power as nat);
        let f = fraction as nat;
        if version == 0 {
            assert(131072 * p * (32 + f) == 32 * (131072 * p)) by (nonlinear_arith)
                requires
                    f == 0,
            ;
        } else {
            assert(131072 * p * (32 + f) == 32 * ((32 + f) * 4096 * p)) by (nonlinear_arith);
        }
    }
}

/// A member that is not stored has been packed into less than it was, unless it is part
/// of a solid archive or its filters were asked for. One that is stored could not be, or
/// was not to be.
pub proof fn law_packing_pays(plan: CompressPlan, input_size: u64, packed: nat)
    ensures
        !is_stored(plan, input_size, packed) ==> plan.method != 0 && input_size > 0 && (packed
            < input_size || plan.solid || plan.filter_policy is Explicit),
        is_stored(plan, input_size, packed) ==> plan.method == 0 || input_size == 0 || (packed
            >= input_size && !plan.solid && !(plan.filter_policy is Explicit)),
{
}

/// A dictionary that is picked for some content is a power-of-two multiple of 128 KiB
/// within what the level allows. It is not twice as large as it need be to reach past the
/// content, and leaves a job within the memory limit, unless it is the smallest there is.
/// Twice as large a one would be of no use, or more than the level or the limit allows.
pub proof fn law_picked_dictionaries_fit(
    size: u64,
    level: Option<u8>,
    content: u64,
    memory_limit: u64,
)
    requires
        is_picked(size, level, content, memory_limit),
    ensures
        exists|power: nat| size == 131072 * #[trigger] pow2(power),
        size <= dictionary_cap_at(level),
        size == 131072 || size / 2 <= content,
        size == 131072 || workspace_of(size, 0x10_0000, parses_optimally(level)) <= memory_limit,
        size > content || 2 * size > dictionary_cap_at(level) || workspace_of(
            (2 * size) as u64,
            0x10_0000,
            parses_optimally(level),
        ) > memory_limit,
{
    let fitted = choose|fitted: u64|
        {
            &&& #[trigger] is_fitted(fitted, content, dictionary_cap_at(level))
            &&& exists|power: nat| size == #[trigger] size_by_power(power)
            &&& size <= fitted
            &&& size == 131072 || workspace_of(size, 0x10_0000, parses_optimally(level))
                <= memory_limit
            &&& size == fitted || workspace_of(
                (2 * size) as u64,
                0x10_0000,
                parses_optimally(level),
            ) > memory_limit
        };
    let power = choose|power: nat| size == #[trigger] size_by_power(power);
    assert(size == 131072 * pow2(power));
}

/// The encoder may reach as far back as the dictionary goes. A level that stores tries no
/// match; from the first that packs on each tries some, up to the third never fewer than
/// the one below, and none above it fewer than the second. The two quick levels do not
/// price paths, all others do; only the two thorough ones, and the default, look ahead.
pub proof fn law_levels_climb(level: Option<u8>, dictionary_size: u64)
    ensures
        encode_options_of(level, dictionary_size) matches Ok(options) ==> {
            &&& level matches Some(level) ==> level <= 5
            &&& options.max_match_distance == dictionary_size
            &&& options.max_match_candidates == 0 <==> level == Some(0u8)
            &&& options.optimal_parse <==> !(level matches Some(level) && level < 2)
            &&& options.lazy_matching <==> !(level matches Some(level) && level < 4)
            &&& options.lazy_lookahead == 1
        },
        candidates_at(Some(0)) < candidates_at(Some(1)) < candidates_at(Some(2)) < candidates_at(
            Some(3),
        ),
        candidates_at(Some(2)) < candidates_at(Some(4)) < candidates_at(Some(5)),
        candidates_at(Some(3)) == candidates_at(Some(5)) == candidates_at(None),
        candidates_at(None) == 64 && 8 * candidates_at(Some(1)) == candidates_at(None) && 2
            * candidates_at(Some(2)) == candidates_at(None),
        (level matches Some(level) && level > 5) ==> encode_options_of(level, dictionary_size)
            is Err,
{
}

proof fn lemma_reaches(from: nat, power: nat, size: nat)
    requires
        from <= power,
        pow2(power) >= size > 0,
        power > 0 ==> pow2((power - 1) as nat) < size,
    ensures
        power_reaching(pow2(from), size) == pow2(power),
    decreases power - from,
{
    lemma_pow2_pos(from);
    if from < power {
        lemma_pow2_unfold((from + 1) as nat);
        if from < power - 1 {
            lemma_pow2_strictly_increases(from, (power - 1) as nat);
        }
        lemma_reaches(from + 1, power, size);
    }
}

proof fn lemma_window(dictionary_size: u64, power: nat)
    requires
        power < 64,
        pow2(power) >= dictionary_size > 0,
        power > 0 ==> pow2((power - 1) as nat) < dictionary_size,
    ensures
        finder_window(dictionary_size) == pow2(power),
{
    lemma_reaches(0, power, dictionary_size as nat);
    lemma2_to64();
    lemma2_to64_rest();
    if power < 63 {
        lemma_pow2_strictly_increases(power, 63);
    }
}

/// What one job holds grows with the window that its dictionary takes, the next power of
/// two: 13 bytes for each byte of it, 17 where paths are priced, beside 64 for each byte of
/// a block and three megabytes.
pub proof fn law_workspace_counts_the_window(
    dictionary_size: u64,
    block_size: usize,
    optimal: bool,
    power: nat,
)
    requires
        power < 64,
        pow2(power) >= dictionary_size > 0,
        power > 0 ==> pow2((power - 1) as nat) < dictionary_size,
    ensures
        ({
            let bytes = pow2(power) * (if optimal {
                17nat
            } else {
                13
            }) + 64 * block_size as nat + 3145728;
            workspace_of(dictionary_size, block_size, optimal) == (if bytes <= u64::MAX {
                bytes
            } else {
                u64::MAX as nat
            })
        }),
{
    lemma_window(dictionary_size, power);
}

/// A member that is filtered as a whole holds four times its bytes beside what one job over
/// it holds: a block of it, and a window over as much of it as any of the encoder settings
/// reaches back, 256 KiB at least.
pub proof fn law_a_whole_member_is_held_four_times(
    input_size: u64,
    plan: CompressPlan,
    bytes: u64,
    reach: usize,
    window: u64,
    power: nat,
)
    requires
        is_whole_workspace(input_size, plan, bytes),
        reach >= plan.encode_options.max_match_distance,
        forall|i: int|
            0 <= i < plan.candidates@.len() ==> #[trigger] plan.candidates@[i].max_match_distance
                <= reach,
        reach == plan.encode_options.max_match_distance || exists|i: int|
            0 <= i < plan.candidates@.len() && #[trigger] plan.candidates@[i].max_match_distance
                == reach,
        window >= 262144 && (window == 262144 || window == reach || window == input_size),
        window >= reach || window >= input_size,
        window > 262144 ==> window <= reach && window <= input_size,
        power < 64,
        pow2(power) >= window,
        power > 0 ==> pow2((power - 1) as nat) < window,
    ensures
        ({
            let priced = plan.encode_options.optimal_parse || exists|i: int|
                0 <= i < plan.candidates@.len() && #[trigger] plan.candidates@[i].optimal_parse;
            let block = if input_size < 1048576 { input_size as nat } else { 1048576 };
            let held = 4 * input_size as nat + pow2(power) * (if priced { 17nat } else { 13 }) + 64
                * block + 3145728;
            bytes == (if held <= u64::MAX { held } else { u64::MAX as nat })
        }),
{
    let furthest = choose|furthest: usize| #[trigger]
        plan.is_reach(furthest) && bytes == whole_workspace_at(input_size, plan, furthest);
    assert(furthest == reach);
    let block = if input_size < 1048576 {
        input_size as usize
    } else {
        1048576usize
    };
    law_workspace_counts_the_window(window, block, plan.is_optimal(true), power);
}

/// A member takes no more than the memory limit, unless its filters are none or were asked
/// for. It is cut into blocks only where filtering it as a whole would take more, and it
/// tells so; such blocks are packed with the first of the encoder settings alone.
pub proof fn law_members_are_planned_within_the_limit(
    settings: CompressPlan,
    size: u64,
    limit: u64,
    plan: MemberPlan,
)
    requires
        is_member_plan(settings, size, limit, plan),
    ensures
        size == 0 ==> plan.execution is WholeMember && plan.workspace == 0,
        size > 0 && plan.execution is WholeMember ==> is_whole_workspace(
            size,
            settings,
            plan.workspace,
        ),
        plan.execution is WholeMember && settings.filter_policy == FilterPolicy::Auto
            ==> plan.workspace <= limit,
        plan.execution matches Execution::Blocks { fallback } ==> {
            &&& settings.filter_policy == FilterPolicy::Auto
            &&& plan.workspace == workspace_of(
                settings.dictionary_size,
                1048576,
                settings.encode_options.optimal_parse,
            )
            &&& fallback matches FallbackReason::AutomaticFilterWorkspace { required, limit: over }
            &&& over == limit
            &&& required > limit
            &&& is_whole_workspace(size, settings, required)
        },
{
}

/// A member that is packed as a whole within some memory is packed alike within more.
pub proof fn law_more_memory_keeps_members_whole(
    settings: CompressPlan,
    size: u64,
    less: u64,
    more: u64,
    a: MemberPlan,
    b: MemberPlan,
)
    requires
        less <= more,
        is_member_plan(settings, size, less, a),
        is_member_plan(settings, size, more, b),
        a.execution is WholeMember,
    ensures
        a == b,
{
    if size > 0 {
        let first = choose|required: u64| #[trigger]
            is_whole_workspace(size, settings, required) && a == (if required <= less
                || settings.filter_policy != FilterPolicy::Auto {
                MemberPlan { execution: Execution::WholeMember, workspace: required }
            } else {
                MemberPlan {
                    execution: Execution::Blocks {
                        fallback: FallbackReason::AutomaticFilterWorkspace { required, limit: less },
                    },
                    workspace: a.workspace,
                }
            });
        assert forall|other: u64| #[trigger] is_whole_workspace(size, settings, other) implies other
            == first by {
            law_whole_workspace_is_settled(size, settings, first, other);
        }
    }
}

} // verus!
