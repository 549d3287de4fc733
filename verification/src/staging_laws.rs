//! What staging a selection of members amounts to.

use vstd::prelude::*;

#[allow(unused_imports)]
use crate::archive_model::ArchiveMemberMeta;
#[allow(unused_imports)]
use crate::error::{Error, Result};
#[allow(unused_imports)]
use crate::rewrite_staging::{
    are_staged, decision_for, decodes_to, has_duplicates, is_payload, is_plan, is_selected,
    retained_bytes, selection_error, staged_size, staging_outcome, StageDecision, StagingPlan,
};
#[allow(unused_imports)]
use crate::streaming::source::EntrySource;

verus! {

/// The sum of a quantity over a list of indices.
pub open spec fn sum_over(indices: Seq<usize>, quantity: spec_fn(int) -> nat) -> nat
    decreases indices.len(),
{
    if indices.len() == 0 {
        0
    } else {
        sum_over(indices.drop_last(), quantity) + quantity(indices.last() as int)
    }
}

/// The same sum, taken in the order of what is indexed.
pub open spec fn sum_below(
    indices: Seq<usize>,
    quantity: spec_fn(int) -> nat,
    count: nat,
) -> nat
    decreases count,
{
    if count == 0 {
        0
    } else {
        sum_below(indices, quantity, (count - 1) as nat) + (if is_selected(indices, count - 1) {
            quantity(count - 1)
        } else {
            0
        })
    }
}

proof fn lemma_sum_without(indices: Seq<usize>, quantity: spec_fn(int) -> nat, at: int)
    requires
        0 <= at < indices.len(),
    ensures
        sum_over(indices, quantity) == sum_over(indices.remove(at), quantity) + quantity(
            indices[at] as int,
        ),
    decreases indices.len(),
{
    let fewer = indices.remove(at);
    if at == indices.len() - 1 {
        assert(fewer =~= indices.drop_last());
    } else {
        lemma_sum_without(indices.drop_last(), quantity, at);
        assert(fewer.drop_last() =~= indices.drop_last().remove(at));
        assert(fewer.last() == indices.last());
    }
}

proof fn lemma_same_below(
    a: Seq<usize>,
    b: Seq<usize>,
    quantity: spec_fn(int) -> nat,
    count: nat,
)
    requires
        forall|i: int| 0 <= i < count ==> is_selected(a, i) == #[trigger] is_selected(b, i),
    ensures
        sum_below(a, quantity, count) == sum_below(b, quantity, count),
    decreases count,
{
    if count > 0 {
        assert(is_selected(a, count - 1) == is_selected(b, count - 1));
        lemma_same_below(a, b, quantity, (count - 1) as nat);
    }
}

proof fn lemma_sums_agree(indices: Seq<usize>, quantity: spec_fn(int) -> nat, count: nat)
    requires
        !has_duplicates(indices),
        forall|k: int| 0 <= k < indices.len() ==> #[trigger] indices[k] < count,
    ensures
        sum_over(indices, quantity) == sum_below(indices, quantity, count),
    decreases count,
{
    if count > 0 {
        let top = count - 1;
        if is_selected(indices, top) {
            let at = choose|k: int| 0 <= k < indices.len() && #[trigger] indices[k] == top;
            let fewer = indices.remove(at);
            lemma_sum_without(indices, quantity, at);
            assert forall|k: int| 0 <= k < fewer.len() implies #[trigger] fewer[k] < top by {
                let from = if k < at {
                    k
                } else {
                    k + 1
                };
                assert(fewer[k] == indices[from]);
                if indices[from] == top {
                    if from < at {
                        assert(has_duplicates(indices));
                    } else {
                        assert(indices[at] == indices[from]);
                        assert(has_duplicates(indices));
                    }
                }
            }
            assert(!has_duplicates(fewer)) by {
                if has_duplicates(fewer) {
                    let (a, b) = choose|a: int, b: int|
                        0 <= a < b < fewer.len() && #[trigger] fewer[a] == #[trigger] fewer[b];
                    let from_a = if a < at {
                        a
                    } else {
                        a + 1
                    };
                    let from_b = if b < at {
                        b
                    } else {
                        b + 1
                    };
                    assert(indices[from_a] == indices[from_b]);
                    assert(has_duplicates(indices));
                }
            }
            lemma_sums_agree(fewer, quantity, top as nat);
            assert forall|i: int| 0 <= i < top implies is_selected(fewer, i)
                == #[trigger] is_selected(indices, i) by {
                if is_selected(indices, i) {
                    let k = choose|k: int| 0 <= k < indices.len() && #[trigger] indices[k] == i;
                    if k < at {
                        assert(fewer[k] == i);
                    } else {
                        assert(fewer[k - 1] == i);
                    }
                }
                if is_selected(fewer, i) {
                    let k = choose|k: int| 0 <= k < fewer.len() && #[trigger] fewer[k] == i;
                    if k < at {
                        assert(indices[k] == i);
                    } else {
                        assert(indices[k + 1] == i);
                    }
                }
            }
            lemma_same_below(fewer, indices, quantity, top as nat);
        } else {
            assert forall|k: int| 0 <= k < indices.len() implies #[trigger] indices[k] < top by {
                assert(indices[k] != top);
            }
            lemma_sums_agree(indices, quantity, top as nat);
        }
    } else if indices.len() > 0 {
        assert(indices[0] < count);
    }
}

/// The size that a member says it has.
pub open spec fn declared(members: Seq<ArchiveMemberMeta>) -> spec_fn(int) -> nat {
    |i: int| members[i].unpacked_size as nat
}

proof fn lemma_staged_size(
    members: Seq<ArchiveMemberMeta>,
    indices: Seq<usize>,
    limit: u64,
    on_demand: bool,
    upto: nat,
)
    requires
        upto <= members.len(),
    ensures
        staged_size(members, indices, limit, on_demand, upto) is Ok <==> {
            &&& forall|i: int|
                0 <= i < upto && #[trigger] is_selected(indices, i) ==> is_payload(members[i]) && (
                on_demand ==> members[i].unpacked_size <= limit)
            &&& on_demand || sum_below(indices, declared(members), upto) <= limit
        },
        staged_size(members, indices, limit, on_demand, upto) matches Ok(size) ==> size <= limit
            && (!on_demand ==> size == sum_below(indices, declared(members), upto)),
    decreases upto,
{
    if upto > 0 {
        lemma_staged_size(members, indices, limit, on_demand, (upto - 1) as nat);
        assert(is_selected(indices, upto - 1) == is_selected(indices, upto - 1));
    }
}

/// Whether a selection can be staged: no member twice, each of them there, each with a
/// payload that is not split, and the payloads within the limit by the sizes that members
/// say they have: together, or each for itself where they are kept one at a time.
pub open spec fn is_stageable(
    members: Seq<ArchiveMemberMeta>,
    indices: Seq<usize>,
    limit: u64,
    on_demand: bool,
) -> bool {
    &&& forall|a: int, b: int|
        0 <= a < b < indices.len() ==> #[trigger] indices[a] != #[trigger] indices[b]
    &&& forall|k: int|
        0 <= k < indices.len() ==> {
            &&& #[trigger] indices[k] < members.len()
            &&& !members[indices[k] as int].is_directory
            &&& !members[indices[k] as int].is_redirection
            &&& !members[indices[k] as int].is_split_before
            &&& !members[indices[k] as int].is_split_after
            &&& on_demand ==> members[indices[k] as int].unpacked_size <= limit
        }
    &&& !on_demand ==> sum_over(indices, declared(members)) <= limit
}

/// A selection is accepted if and only if it can be staged.
pub proof fn law_stageable_selections_are_accepted(
    members: Seq<ArchiveMemberMeta>,
    indices: Seq<usize>,
    limit: u64,
    on_demand: bool,
)
    ensures
        selection_error(members, indices, limit, on_demand) is None <==> is_stageable(
            members,
            indices,
            limit,
            on_demand,
        ),
{
    assert(has_duplicates(indices) <==> !(forall|a: int, b: int|
        0 <= a < b < indices.len() ==> #[trigger] indices[a] != #[trigger] indices[b]));
    lemma_staged_size(members, indices, limit, on_demand, members.len());
    if is_stageable(members, indices, limit, on_demand) {
        lemma_sums_agree(indices, declared(members), members.len());
        assert forall|i: int|
            0 <= i < members.len() && #[trigger] is_selected(indices, i) implies is_payload(
            members[i],
        ) && (on_demand ==> members[i].unpacked_size <= limit) by {
            let k = choose|k: int| 0 <= k < indices.len() && #[trigger] indices[k] == i;
            assert(indices[k] < members.len());
        }
    } else if selection_error(members, indices, limit, on_demand) is None && indices.len() > 0 {
        assert forall|k: int| 0 <= k < indices.len() implies #[trigger] indices[k]
            < members.len() by {}
        lemma_sums_agree(indices, declared(members), members.len());
        assert forall|k: int| 0 <= k < indices.len() implies is_payload(
            members[#[trigger] indices[k] as int],
        ) && (on_demand ==> members[indices[k] as int].unpacked_size <= limit) by {
            assert(is_selected(indices, indices[k] as int));
        }
    }
}

/// What is planned of an accepted selection: its declared size where all of it is kept,
/// and the selected member that stands last.
pub proof fn law_plans_count_the_selection(
    members: Seq<ArchiveMemberMeta>,
    indices: Seq<usize>,
    solid: bool,
    limit: u64,
    plan: StagingPlan,
)
    requires
        is_plan(members, indices, solid, limit, false, plan),
        selection_error(members, indices, limit, false) is None,
    ensures
        plan.required == sum_over(indices, declared(members)),
        forall|k: int| 0 <= k < indices.len() ==> #[trigger] indices[k] <= plan.last,
        indices.contains(plan.last),
{
    law_stageable_selections_are_accepted(members, indices, limit, false);
    lemma_staged_size(members, indices, limit, false, members.len());
    assert(!has_duplicates(indices));
    lemma_sums_agree(indices, declared(members), members.len());
    let k = choose|k: int| 0 <= k < indices.len() && #[trigger] indices[k] == plan.last;
    assert(indices[k] == plan.last);
}

/// What becomes of a member when its turn comes: a selected one is decoded and kept; a
/// member behind the last selected one ends it all; in a solid archive every other file
/// before that is decoded, for the dictionary that runs through it, and not kept; all
/// else is skipped.
pub proof fn law_members_are_decided(
    members: Seq<ArchiveMemberMeta>,
    indices: Seq<usize>,
    solid: bool,
    last: int,
    current: int,
)
    requires
        0 <= current < members.len(),
    ensures
        ({
            let decision = decision_for(members, indices, solid, last, current);
            let selected = exists|k: int|
                0 <= k < indices.len() && #[trigger] indices[k] == current;
            let plain = !members[current].is_directory && !members[current].is_redirection;
            &&& current > last <==> decision == StageDecision::Stop
            &&& current <= last && selected <==> decision == (StageDecision::Decode {
                retain: true,
            })
            &&& current <= last && !selected && solid && plain <==> decision == (
            StageDecision::Decode { retain: false })
            &&& current <= last && !selected && !(solid && plain) <==> decision
                == StageDecision::Skip
        }),
{
}

proof fn lemma_retained(payloads: Seq<Option<Seq<u8>>>, indices: Seq<usize>, upto: nat)
    requires
        upto <= payloads.len(),
        forall|i: int|
            0 <= i < payloads.len() ==> (#[trigger] payloads[i] is Some <==> is_selected(
                indices,
                i,
            )),
    ensures
        retained_bytes(payloads.take(upto as int)) == sum_below(indices, kept(payloads), upto),
    decreases upto,
{
    if upto > 0 {
        let shorter = payloads.take(upto as int);
        assert(shorter.drop_last() =~= payloads.take(upto - 1));
        assert(shorter.last() == payloads[upto - 1]);
        lemma_retained(payloads, indices, (upto - 1) as nat);
    }
}

/// The length of a payload that is kept.
pub open spec fn kept(payloads: Seq<Option<Seq<u8>>>) -> spec_fn(int) -> nat {
    |i: int|
        match payloads[i] {
            Some(payload) => payload.len(),
            None => 0,
        }
}

/// The bytes that sources hold together.
pub open spec fn sources_size(sources: Seq<EntrySource>) -> nat
    decreases sources.len(),
{
    if sources.len() == 0 {
        0
    } else {
        sources_size(sources.drop_last()) + (match sources.last().bytes() {
            Some(bytes) => bytes.len(),
            None => 0,
        })
    }
}

proof fn lemma_sources_size(
    sources: Seq<EntrySource>,
    indices: Seq<usize>,
    payloads: Seq<Option<Seq<u8>>>,
)
    requires
        sources.len() == indices.len(),
        forall|k: int|
            0 <= k < indices.len() ==> (#[trigger] sources[k]).bytes()
                == payloads[indices[k] as int],
    ensures
        sources_size(sources) == sum_over(indices, kept(payloads)),
    decreases sources.len(),
{
    if sources.len() > 0 {
        let (fewer, left) = (sources.drop_last(), indices.drop_last());
        assert forall|k: int| 0 <= k < left.len() implies (#[trigger] fewer[k]).bytes()
            == payloads[left[k] as int] by {
            assert(fewer[k] == sources[k]);
        }
        lemma_sources_size(fewer, left, payloads);
        assert(sources[sources.len() - 1].bytes() == payloads[indices.last() as int]);
    }
}

/// Whether a source holds what decoding a member gave.
pub open spec fn holds_payload<D: Fn(usize) -> Result<Vec<u8>>>(
    decode: D,
    index: usize,
    source: EntrySource,
) -> bool {
    exists|data: Vec<u8>|
        source.bytes() == Some(data@) && #[trigger] call_ensures(
            decode,
            (index,),
            Ok::<Vec<u8>, Error>(data),
        )
}

/// Staging hands out a source for every index asked for, in the order asked for, each
/// with the bytes that its member decodes to, and all of them together are no more than
/// the limit.
pub proof fn law_staged_sources_are_the_payloads<D: Fn(usize) -> Result<Vec<u8>>>(
    decode: D,
    members: Seq<ArchiveMemberMeta>,
    indices: Seq<usize>,
    solid: bool,
    limit: u64,
    sources: Vec<EntrySource>,
)
    requires
        staging_outcome(
            decode,
            members,
            indices,
            solid,
            limit,
            Ok::<Vec<EntrySource>, Error>(sources),
        ),
    ensures
        is_stageable(members, indices, limit, false),
        sources@.len() == indices.len(),
        forall|k: int|
            0 <= k < indices.len() ==> holds_payload(decode, indices[k], #[trigger] sources@[k]),
        sources_size(sources@) <= limit,
{
    law_stageable_selections_are_accepted(members, indices, limit, false);
    let payloads = choose|payloads: Seq<Option<Seq<u8>>>| #[trigger]
        are_staged(decode, indices, limit, payloads) && forall|k: int|
            0 <= k < indices.len() ==> indices[k] < payloads.len() && (
            #[trigger] sources@[k]).bytes() == payloads[indices[k] as int];
    assert forall|k: int| 0 <= k < indices.len() implies holds_payload(
        decode,
        indices[k],
        #[trigger] sources@[k],
    ) by {
        let i = indices[k] as int;
        assert(sources@[k].bytes() == payloads[i]);
        assert(is_selected(indices, i));
        let payload = payloads[i]->0;
        assert(decodes_to(decode, i as usize, payload));
        let data = choose|data: Vec<u8>|
            data@ == payload && #[trigger] call_ensures(
                decode,
                (i as usize,),
                Ok::<Vec<u8>, Error>(data),
            );
        assert(sources@[k].bytes() == Some(data@) && call_ensures(
            decode,
            (indices[k],),
            Ok::<Vec<u8>, Error>(data),
        ));
    }
    assert forall|k: int| 0 <= k < indices.len() implies #[trigger] indices[k]
        < payloads.len() by {
        assert(sources@[k].bytes() == payloads[indices[k] as int]);
    }
    assert(!has_duplicates(indices));
    lemma_sums_agree(indices, kept(payloads), payloads.len());
    lemma_retained(payloads, indices, payloads.len());
    assert(payloads.take(payloads.len() as int) =~= payloads);
    lemma_sources_size(sources@, indices, payloads);
}

} // verus!
