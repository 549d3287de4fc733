//! Codec settings and execution decisions, resolved before work is scheduled.

use vstd::prelude::*;

use crate::error::{Error, Result};
use crate::filter::FilterPolicy;
#[allow(unused_imports)]
use crate::power::saturated;
use crate::rar50::dictionary::{dictionary_size_fields, streaming_lz_workspace};
#[allow(unused_imports)]
use crate::rar50::dictionary::{
    are_fine_fields, can_encode, fine_refusal, first_refusal, law_fine_fields_are_unique,
    lemma_power_size_unique, size_by_power, workspace_of,
};
use crate::rar50::ladder::{EncodeOptions, LZ_BLOCK_SIZE, MAX_LZ_BLOCK_SIZE};

verus! {

/// Why a member is compressed block by block although it was to be compressed
/// as a whole.
#[derive(Debug, Clone, Copy, PartialEq, Eq, Structural)]
pub enum FallbackReason {
    AutomaticFilterWorkspace { required: u64, limit: u64 },
}

#[derive(Debug, Clone, Copy, PartialEq, Eq, Structural)]
pub enum Execution {
    WholeMember,
    Blocks { fallback: FallbackReason },
}

#[derive(Debug, Clone, Copy, PartialEq, Eq, Structural)]
pub struct MemberPlan {
    pub execution: Execution,
    /// Whole-member workspace or one streaming job's workspace, never both.
    pub workspace: u64,
}

#[derive(Debug)]
pub enum ExecutionPlan {
    Stored,
    Blocks { workspace: u64 },
    IndependentMembers(Vec<MemberPlan>),
}

#[derive(Debug)]
pub struct CompressPlan {
    pub algorithm_version: u8,
    pub encode_options: EncodeOptions,
    pub dictionary_size: u64,
    pub block_size: usize,
    pub solid: bool,
    /// Method zero means the members are stored verbatim.
    pub method: u8,
    /// Filters and several candidates both need the whole member at once.
    pub filter_policy: FilterPolicy,
    pub candidates: Vec<EncodeOptions>,
}

impl CompressPlan {
    /// Whether any setting that is tried prices every path.
    pub open spec fn is_optimal(self, include_candidates: bool) -> bool {
        self.encode_options.optimal_parse || (include_candidates && exists|i: int|
            0 <= i < self.candidates@.len() && #[trigger] self.candidates@[i].optimal_parse)
    }

    /// The farthest match that any setting allows.
    pub open spec fn is_reach(self, reach: usize) -> bool {
        &&& reach >= self.encode_options.max_match_distance
        &&& forall|i: int|
            0 <= i < self.candidates@.len() ==> reach >= #[trigger]
                self.candidates@[i].max_match_distance
        &&& reach == self.encode_options.max_match_distance || exists|i: int|
            0 <= i < self.candidates@.len() && reach == #[trigger]
                self.candidates@[i].max_match_distance
    }

    fn optimal(&self, include_candidates: bool) -> (answer: bool)
        ensures
            answer == self.is_optimal(include_candidates),
    {
        if self.encode_options.optimal_parse {
            return true;
        }
        if !include_candidates {
            return false;
        }
        let mut i: usize = 0;
        while i < self.candidates.len()
            invariant
                i <= self.candidates@.len(),
                !self.encode_options.optimal_parse,
                include_candidates,
                forall|k: int| 0 <= k < i ==> !(#[trigger] self.candidates@[k]).optimal_parse,
            decreases self.candidates@.len() - i,
        {
            if self.candidates[i].optimal_parse {
                return true;
            }
            i = i + 1;
        }
        false
    }

    fn reach(&self) -> (reach: usize)
        ensures
            self.is_reach(reach),
    {
        let mut reach: usize = self.encode_options.max_match_distance;
        let mut i: usize = 0;
        while i < self.candidates.len()
            invariant
                i <= self.candidates@.len(),
                reach >= self.encode_options.max_match_distance,
                forall|k: int|
                    0 <= k < i ==> reach >= #[trigger] self.candidates@[k].max_match_distance,
                reach == self.encode_options.max_match_distance || exists|k: int|
                    0 <= k < i && reach == #[trigger] self.candidates@[k].max_match_distance,
            decreases self.candidates@.len() - i,
        {
            let distance: usize = self.candidates[i].max_match_distance;
            if distance > reach {
                reach = distance;
                assert(reach == self.candidates@[i as int].max_match_distance);
            }
            i = i + 1;
        }
        reach
    }
}

/// What one streaming job of a plan holds.
pub open spec fn streaming_workspace_of(settings: CompressPlan, include_candidates: bool) -> u64 {
    workspace_of(
        settings.dictionary_size,
        MAX_LZ_BLOCK_SIZE,
        settings.is_optimal(include_candidates),
    )
}

fn streaming_workspace(settings: &CompressPlan, include_candidates: bool) -> (bytes: u64)
    ensures
        bytes == streaming_workspace_of(*settings, include_candidates),
{
    streaming_lz_workspace(
        settings.dictionary_size,
        MAX_LZ_BLOCK_SIZE,
        settings.optimal(include_candidates),
    )
}

/// What filtering a member of `input_size` as a whole holds, where the settings
/// reach `reach` at most: the member, the filtered copy and the packed outputs
/// being compared, beside the finder and the parse of one block. A window
/// cannot reach past the member.
pub open spec fn whole_workspace_at(input_size: u64, plan: CompressPlan, reach: usize) -> u64 {
    let within = if (reach as u64) < input_size {
        reach as u64
    } else {
        input_size
    };
    let window = if within > LZ_BLOCK_SIZE {
        within
    } else {
        LZ_BLOCK_SIZE as u64
    };
    let block = if input_size < MAX_LZ_BLOCK_SIZE {
        input_size as usize
    } else {
        MAX_LZ_BLOCK_SIZE
    };
    saturated(4 * input_size as nat + workspace_of(window, block, plan.is_optimal(true)) as nat)
}

/// Whether `bytes` is what filtering a member as a whole holds.
pub open spec fn is_whole_workspace(input_size: u64, plan: CompressPlan, bytes: u64) -> bool {
    exists|reach: usize| #[trigger]
        plan.is_reach(reach) && bytes == whole_workspace_at(input_size, plan, reach)
}

pub fn whole_member_workspace(input_size: u64, plan: &CompressPlan) -> (bytes: u64)
    ensures
        is_whole_workspace(input_size, *plan, bytes),
{
    let reach: usize = plan.reach();
    let within: u64 = if (reach as u64) < input_size {
        reach as u64
    } else {
        input_size
    };
    let window: u64 = if within > LZ_BLOCK_SIZE as u64 {
        within
    } else {
        LZ_BLOCK_SIZE as u64
    };
    let block: usize = if input_size < MAX_LZ_BLOCK_SIZE as u64 {
        input_size as usize
    } else {
        MAX_LZ_BLOCK_SIZE
    };
    let parse: u64 = streaming_lz_workspace(window, block, plan.optimal(true));
    let total: u128 = 4 * input_size as u128 + parse as u128;
    if total > u64::MAX as u128 {
        u64::MAX
    } else {
        total as u64
    }
}

/// The workspace that a plan settles: no two amounts meet the rule.
pub proof fn law_whole_workspace_is_settled(input_size: u64, plan: CompressPlan, a: u64, b: u64)
    requires
        is_whole_workspace(input_size, plan, a),
        is_whole_workspace(input_size, plan, b),
    ensures
        a == b,
{
    let ra = choose|reach: usize| #[trigger]
        plan.is_reach(reach) && a == whole_workspace_at(input_size, plan, reach);
    let rb = choose|reach: usize| #[trigger]
        plan.is_reach(reach) && b == whole_workspace_at(input_size, plan, reach);
    assert(ra == rb);
}

/// A dictionary beyond the member charges nothing: only what the window can
/// reach within the member counts.
pub proof fn law_unreachable_window_is_free(
    input_size: u64,
    plan: CompressPlan,
    near: usize,
    far: usize,
)
    requires
        input_size <= near,
        input_size <= far,
    ensures
        whole_workspace_at(input_size, plan, near) == whole_workspace_at(input_size, plan, far),
{
}

/// Whether a plan compresses its members as wholes.
pub open spec fn plans_whole_members(settings: CompressPlan) -> bool {
    !settings.solid && (settings.filter_policy != FilterPolicy::Off || settings.candidates@.len()
        > 1)
}

/// Whether this is what is planned for a member of `size`: the whole of it,
/// unless an automatic filter would exceed the limit. An explicit filter never
/// falls back.
pub open spec fn is_member_plan(
    settings: CompressPlan,
    size: u64,
    limit: u64,
    plan: MemberPlan,
) -> bool {
    if size == 0 {
        plan == (MemberPlan { execution: Execution::WholeMember, workspace: 0 })
    } else {
        exists|required: u64| #[trigger]
            is_whole_workspace(size, settings, required) && plan == (if required <= limit
                || settings.filter_policy != FilterPolicy::Auto {
                MemberPlan { execution: Execution::WholeMember, workspace: required }
            } else {
                MemberPlan {
                    execution: Execution::Blocks {
                        fallback: FallbackReason::AutomaticFilterWorkspace { required, limit },
                    },
                    // The fallback uses the base encoder settings only.
                    workspace: streaming_workspace_of(settings, false),
                }
            })
    }
}

fn member_plan(settings: &CompressPlan, size: u64, limit: u64) -> (plan: MemberPlan)
    ensures
        is_member_plan(*settings, size, limit, plan),
{
    if size == 0 {
        return MemberPlan { execution: Execution::WholeMember, workspace: 0 };
    }
    let required: u64 = whole_member_workspace(size, settings);
    if required <= limit || settings.filter_policy != FilterPolicy::Auto {
        MemberPlan { execution: Execution::WholeMember, workspace: required }
    } else {
        MemberPlan {
            execution: Execution::Blocks {
                fallback: FallbackReason::AutomaticFilterWorkspace { required, limit },
            },
            workspace: streaming_workspace(settings, false),
        }
    }
}

impl ExecutionPlan {
    /// Decides how members of these sizes are compressed.
    pub fn new(settings: &CompressPlan, sizes: &[u64], limit: u64) -> (plan: ExecutionPlan)
        ensures
            if settings.method == 0 {
                plan is Stored
            } else if !plans_whole_members(*settings) {
                plan == (ExecutionPlan::Blocks {
                    workspace: streaming_workspace_of(*settings, true),
                })
            } else {
                plan matches ExecutionPlan::IndependentMembers(members) && members@.len()
                    == sizes@.len() && forall|i: int|
                    0 <= i < sizes@.len() ==> is_member_plan(
                        *settings,
                        sizes@[i],
                        limit,
                        #[trigger] members@[i],
                    )
            },
    {
        if settings.method == 0 {
            return ExecutionPlan::Stored;
        }
        let whole_members: bool = !settings.solid && (settings.filter_policy != FilterPolicy::Off
            || settings.candidates.len() > 1);
        if !whole_members {
            return ExecutionPlan::Blocks { workspace: streaming_workspace(settings, true) };
        }
        let mut members: Vec<MemberPlan> = Vec::new();
        let mut i: usize = 0;
        while i < sizes.len()
            invariant
                i <= sizes@.len(),
                members@.len() == i,
                forall|k: int|
                    0 <= k < i ==> is_member_plan(*settings, sizes@[k], limit, #[trigger] members@[k]),
            decreases sizes@.len() - i,
        {
            members.push(member_plan(settings, sizes[i], limit));
            i = i + 1;
        }
        ExecutionPlan::IndependentMembers(members)
    }

    /// The plans of the members, where each has one.
    pub fn members(&self) -> (members: Option<&Vec<MemberPlan>>)
        ensures
            members == (match *self {
                ExecutionPlan::IndependentMembers(members) => Some(&members),
                _ => None,
            }),
    {
        match self {
            ExecutionPlan::IndependentMembers(members) => Some(members),
            _ => None,
        }
    }
}

/// Whether a member that compression did not help is better off stored. A
/// solid member is decoded against the dictionary that the members before it
/// filled, so it never is.
pub fn should_store_compressed_payload(
    unpacked: u64,
    packed: u64,
    solid: bool,
    policy: &FilterPolicy,
) -> (answer: bool)
    ensures
        answer == stores_payload(unpacked as nat, packed as nat, solid, *policy),
{
    packed >= unpacked && !matches!(policy, FilterPolicy::Explicit(_)) && !solid
}

pub open spec fn stores_payload(
    unpacked: nat,
    packed: nat,
    solid: bool,
    policy: FilterPolicy,
) -> bool {
    packed >= unpacked && !(policy is Explicit) && !solid
}

/// Whether a member is written as it came: nothing is compressed at all, there
/// is nothing to pack, or packing did not pay.
pub open spec fn is_stored(plan: CompressPlan, input_size: u64, packed: nat) -> bool {
    plan.method == 0 || input_size == 0 || stores_payload(
        input_size as nat,
        packed,
        plan.solid,
        plan.filter_policy,
    )
}

pub fn stores_member(plan: &CompressPlan, input_size: u64, packed_len: u64) -> (answer: bool)
    ensures
        answer == is_stored(*plan, input_size, packed_len as nat),
{
    plan.method == 0 || input_size == 0 || should_store_compressed_payload(
        input_size,
        packed_len,
        plan.solid,
        &plan.filter_policy,
    )
}

/// The compression field of a file header: algorithm version in the low bits,
/// solid flag, method, dictionary power and fraction.
pub open spec fn compression_field(
    algorithm_version: u8,
    method: u8,
    power: u8,
    fraction: u8,
    solid_continuation: bool,
) -> u64 {
    (algorithm_version as u64) | ((method as u64) << 7) | ((power as u64) << 10) | ((
    fraction as u64) << 15) | solid_flag(solid_continuation)
}

pub open spec fn solid_flag(solid_continuation: bool) -> u64 {
    if solid_continuation {
        0x40
    } else {
        0
    }
}

/// The flag of a member that continues the dictionary of the one before it.
pub fn solid_compression_flag(solid_continuation: bool) -> (flag: u64)
    ensures
        flag == solid_flag(solid_continuation),
{
    if solid_continuation {
        0x40
    } else {
        0
    }
}

/// The compression field for a dictionary of this size, or why there is none.
pub open spec fn is_compression_info(
    algorithm_version: u8,
    method: u8,
    dictionary_size: u64,
    solid_continuation: bool,
    r: Result<u64>,
) -> bool {
    match r {
        Ok(info) => can_encode(algorithm_version, dictionary_size) && exists|power: u8, fraction: u8|
            info == #[trigger] compression_field(
                algorithm_version,
                method,
                power,
                fraction,
                solid_continuation,
            ) && (if algorithm_version == 0 {
                power <= 15 && fraction == 0 && dictionary_size == size_by_power(power as nat)
            } else {
                are_fine_fields(dictionary_size, power as nat, fraction as nat)
            }),
        Err(error) => !can_encode(algorithm_version, dictionary_size) && (if dictionary_size
            == 0 {
            error == Error::InvalidHeader("RAR 5 dictionary size must be non-zero")
        } else if algorithm_version == 0 {
            error == first_refusal(dictionary_size)
        } else if algorithm_version == 1 {
            error == fine_refusal(dictionary_size)
        } else {
            error == Error::InvalidHeader("RAR 5 unknown compression algorithm version")
        }),
    }
}

pub fn compression_info(
    algorithm_version: u8,
    method: u8,
    dictionary_size: u64,
    solid_continuation: bool,
) -> (r: Result<u64>)
    ensures
        is_compression_info(algorithm_version, method, dictionary_size, solid_continuation, r),
{
    match dictionary_size_fields(algorithm_version, dictionary_size) {
        Ok((power, fraction)) => {
            let info: u64 = (algorithm_version as u64) | ((method as u64) << 7) | ((power as u64)
                << 10) | ((fraction as u64) << 15) | solid_compression_flag(solid_continuation);
            assert(info == compression_field(
                algorithm_version,
                method,
                power,
                fraction,
                solid_continuation,
            ));
            Ok(info)
        },
        Err(error) => Err(error),
    }
}

/// The fields of a compression field can be read back, each from its bits.
pub proof fn law_compression_field_round_trip(
    algorithm_version: u8,
    method: u8,
    power: u8,
    fraction: u8,
    solid_continuation: bool,
)
    requires
        algorithm_version < 64,
        method < 8,
        power < 32,
        fraction < 32,
    ensures
        ({
            let info = compression_field(
                algorithm_version,
                method,
                power,
                fraction,
                solid_continuation,
            );
            &&& info % 64 == algorithm_version
            &&& (info / 64) % 2 == (if solid_continuation { 1u64 } else { 0 })
            &&& (info / 128) % 8 == method
            &&& (info / 1024) % 32 == power
            &&& info / 32768 == fraction
        }),
{
    let a = algorithm_version as u64;
    let m = method as u64;
    let p = power as u64;
    let f = fraction as u64;
    let s = solid_flag(solid_continuation);
    let info = a | (m << 7) | (p << 10) | (f << 15) | s;
    assert(info % 64 == a && (info / 64) % 2 == s / 64 && (info / 128) % 8 == m && (info / 1024)
        % 32 == p && info / 32768 == f) by (bit_vector)
        requires
            a < 64,
            m < 8,
            p < 32,
            f < 32,
            s == 0 || s == 0x40,
            info == a | (m << 7) | (p << 10) | (f << 15) | s,
    ;
}

/// The compression field of one member: a stored member has method zero.
pub fn member_compression_info(
    plan: &CompressPlan,
    store: bool,
    solid_continuation: bool,
) -> (r: Result<u64>)
    ensures
        is_compression_info(
            plan.algorithm_version,
            if store {
                0
            } else {
                plan.method
            },
            plan.dictionary_size,
            solid_continuation,
            r,
        ),
        r == member_info(*plan, store, solid_continuation),
{
    let method: u8 = if store {
        0
    } else {
        plan.method
    };
    let r = compression_info(
        plan.algorithm_version,
        method,
        plan.dictionary_size,
        solid_continuation,
    );
    proof {
        law_compression_info_is_settled(
            plan.algorithm_version,
            method,
            plan.dictionary_size,
            solid_continuation,
            r,
            member_info(*plan, store, solid_continuation),
        );
    }
    r
}

/// One compression field, or one refusal, answers each request.
pub proof fn law_compression_info_is_settled(
    algorithm_version: u8,
    method: u8,
    dictionary_size: u64,
    solid_continuation: bool,
    a: Result<u64>,
    b: Result<u64>,
)
    requires
        is_compression_info(algorithm_version, method, dictionary_size, solid_continuation, a),
        is_compression_info(algorithm_version, method, dictionary_size, solid_continuation, b),
    ensures
        a == b,
{
    if a is Ok && b is Ok {
        let (p, f) = choose|power: u8, fraction: u8|
            a->Ok_0 == #[trigger] compression_field(
                algorithm_version,
                method,
                power,
                fraction,
                solid_continuation,
            ) && (if algorithm_version == 0 {
                power <= 15 && fraction == 0 && dictionary_size == size_by_power(power as nat)
            } else {
                are_fine_fields(dictionary_size, power as nat, fraction as nat)
            });
        let (q, g) = choose|power: u8, fraction: u8|
            b->Ok_0 == #[trigger] compression_field(
                algorithm_version,
                method,
                power,
                fraction,
                solid_continuation,
            ) && (if algorithm_version == 0 {
                power <= 15 && fraction == 0 && dictionary_size == size_by_power(power as nat)
            } else {
                are_fine_fields(dictionary_size, power as nat, fraction as nat)
            });
        if algorithm_version == 0 {
            lemma_power_size_unique(p as nat, q as nat);
        } else {
            law_fine_fields_are_unique(dictionary_size, p as nat, f as nat, q as nat, g as nat);
        }
    }
}

/// The compression field of a member under a plan, or its refusal.
pub open spec fn member_info(
    plan: CompressPlan,
    store: bool,
    solid_continuation: bool,
) -> Result<u64> {
    let method = if store {
        0u8
    } else {
        plan.method
    };
    compression_info_of(plan.algorithm_version, method, plan.dictionary_size, solid_continuation)
}

/// The compression field of these settings, or their refusal.
pub open spec fn compression_info_of(
    algorithm_version: u8,
    method: u8,
    dictionary_size: u64,
    solid_continuation: bool,
) -> Result<u64> {
    choose|r: Result<u64>| #[trigger]
        is_compression_info(algorithm_version, method, dictionary_size, solid_continuation, r)
}

} // verus!
