//! Scheduling: which members are compressed together, within a memory limit
//! and a number of workers.

use vstd::prelude::*;

use crate::error::{Error, ErrorKind, Result};
#[allow(unused_imports)]
use crate::error::kind_of;
use crate::rar50::plan::{Execution, MemberPlan};

verus! {

/// The workspace of the members from `start` up to `end`.
pub open spec fn total_workspace(members: Seq<MemberPlan>, start: int, end: int) -> nat
    decreases end - start,
{
    if end <= start {
        0
    } else {
        total_workspace(members, start, end - 1) + members[end - 1].workspace as nat
    }
}

/// Whether a wave from `start` may take in the member at `at` as well: a worker
/// is free, the member is compressed as a whole, and the sum stays within the
/// limit.
pub open spec fn wave_admits(
    members: Seq<MemberPlan>,
    start: int,
    at: int,
    threads: usize,
    limit: u64,
) -> bool {
    &&& at < members.len()
    &&& at - start < threads
    &&& members[at].execution == Execution::WholeMember
    &&& total_workspace(members, start, at + 1) <= limit
}

/// Whether a wave from `start` ends at `end`: it takes its first member
/// whatever that needs, and then as many more as it admits.
pub open spec fn is_wave(
    members: Seq<MemberPlan>,
    start: int,
    end: int,
    threads: usize,
    limit: u64,
) -> bool {
    &&& start < end <= members.len()
    &&& forall|at: int| start < at < end ==> #[trigger] wave_admits(members, start, at, threads, limit)
    &&& !wave_admits(members, start, end, threads, limit)
}

/// A contiguous wave fitting both the limit and the worker count. It includes
/// an oversized first job, so that admission reports what that really needs.
pub fn whole_member_wave(
    members: &[MemberPlan],
    start: usize,
    threads: usize,
    limit: u64,
) -> (wave: (usize, u64))
    requires
        start < members@.len(),
    ensures
        is_wave(members@, start as int, wave.0 as int, threads, limit),
        wave.1 == total_workspace(members@, start as int, wave.0 as int),
        wave.0 == start + 1 || wave.1 <= limit,
{
    let mut reserved: u64 = members[start].workspace;
    let mut end: usize = start + 1;
    assert(total_workspace(members@, start as int, start as int) == 0);
    assert(total_workspace(members@, start as int, start + 1) == reserved);
    while end < members.len() && end - start < threads
        invariant
            start < end <= members@.len(),
            reserved == total_workspace(members@, start as int, end as int),
            end == start + 1 || reserved <= limit,
            forall|at: int|
                start < at < end ==> #[trigger] wave_admits(
                    members@,
                    start as int,
                    at,
                    threads,
                    limit,
                ),
        ensures
            start < end <= members@.len(),
            reserved == total_workspace(members@, start as int, end as int),
            end == start + 1 || reserved <= limit,
            forall|at: int|
                start < at < end ==> #[trigger] wave_admits(
                    members@,
                    start as int,
                    at,
                    threads,
                    limit,
                ),
            !wave_admits(members@, start as int, end as int, threads, limit),
        decreases members@.len() - end,
    {
        if members[end].execution != Execution::WholeMember {
            break;
        }
        let total: u64 = match reserved.checked_add(members[end].workspace) {
            Some(total) => total,
            None => {
                break;
            },
        };
        if total > limit {
            break;
        }
        assert(wave_admits(members@, start as int, end as int, threads, limit));
        reserved = total;
        end = end + 1;
    }
    (end, reserved)
}

/// How many streaming jobs run side by side: as many as the limit holds and as
/// there are workers. A limit that does not hold one is refused.
pub fn batch_capacity(
    required: u64,
    dictionary_size: u64,
    limit: u64,
    threads: usize,
) -> (r: Result<usize>)
    requires
        required > 0,
    ensures
        match r {
            Ok(jobs) => required <= limit && jobs >= 1 && (jobs == 1 || jobs * required <= limit
                && jobs <= threads) && (jobs >= threads || (jobs + 1) * required > limit),
            Err(error) => required > limit && error == (Error::MemoryLimitExceeded {
                limit,
                required,
                dictionary_size,
            }),
        },
{
    let by_memory: u64 = limit / required;
    if by_memory == 0 {
        assert(required > limit) by (nonlinear_arith)
            requires
                limit / required == 0,
                required > 0,
        ;
        return Err(Error::MemoryLimitExceeded { limit, required, dictionary_size });
    }
    proof {
        assert(by_memory * required <= limit < (by_memory + 1) * required) by (nonlinear_arith)
            requires
                by_memory == limit / required,
                required > 0,
        ;
        assert(required <= limit) by (nonlinear_arith)
            requires
                by_memory * required <= limit,
                by_memory >= 1,
        ;
    }
    let jobs: usize = if by_memory < threads as u64 {
        by_memory as usize
    } else if threads == 0 {
        1
    } else {
        threads
    };
    proof {
        if threads > 0 {
            assert(jobs * required <= limit) by (nonlinear_arith)
                requires
                    jobs <= by_memory,
                    by_memory * required <= limit,
                    required > 0,
            ;
        }
    }
    Ok(jobs)
}

/// The failure that a batch reports: the first in job order that is not a
/// cancellation, because a failure cancels the jobs beside it.
pub open spec fn is_reported(errors: Seq<Option<Error>>, report: Option<Error>) -> bool {
    match report {
        None => forall|i: int| 0 <= i < errors.len() ==> #[trigger] errors[i] is None,
        Some(error) => if kind_of(error) == ErrorKind::Cancelled {
            &&& exists|i: int| 0 <= i < errors.len() && #[trigger] errors[i] == Some(error)
            &&& forall|i: int|
                0 <= i < errors.len() ==> (#[trigger] errors[i] matches Some(other) ==> kind_of(
                    other,
                ) == ErrorKind::Cancelled)
        } else {
            exists|i: int|
                {
                    &&& 0 <= i < errors.len()
                    &&& #[trigger] errors[i] == Some(error)
                    &&& forall|k: int|
                        0 <= k < i ==> (#[trigger] errors[k] matches Some(other) ==> kind_of(other)
                            == ErrorKind::Cancelled)
                }
        },
    }
}

/// Picks the failure that a batch reports.
pub fn reported_failure(errors: &[Option<Error>]) -> (report: Option<Error>)
    ensures
        is_reported(errors@, report),
{
    let mut failure: Option<Error> = None;
    let mut i: usize = 0;
    while i < errors.len()
        invariant
            i <= errors@.len(),
            is_reported(errors@.take(i as int), failure),
        decreases errors@.len() - i,
    {
        let ghost seen = errors@.take(i as int);
        let ghost now = errors@.take(i + 1);
        let ghost before = failure;
        proof {
            assert(now == seen.push(errors@[i as int]));
            assert(forall|k: int| 0 <= k < i ==> now[k] == seen[k]);
            assert(now[i as int] == errors@[i as int]);
        }
        if let Some(error) = errors[i] {
            let replace: bool = match failure {
                None => true,
                Some(earlier) => earlier.kind() == ErrorKind::Cancelled,
            };
            if replace {
                failure = Some(error);
            } else {
                proof {
                    let place = choose|k: int|
                        0 <= k < seen.len() && #[trigger] seen[k] == failure && forall|j: int|
                            0 <= j < k ==> (#[trigger] seen[j] matches Some(other) ==> kind_of(
                                other,
                            ) == ErrorKind::Cancelled);
                    assert(now[place] == failure);
                }
            }
        } else {
            proof {
                if let Some(earlier) = failure {
                    if kind_of(earlier) == ErrorKind::Cancelled {
                        let place = choose|k: int|
                            0 <= k < seen.len() && #[trigger] seen[k] == failure;
                        assert(now[place] == failure);
                    } else {
                        let place = choose|k: int|
                            0 <= k < seen.len() && #[trigger] seen[k] == failure && forall|j: int|
                                0 <= j < k ==> (#[trigger] seen[j] matches Some(other) ==> kind_of(
                                    other,
                                ) == ErrorKind::Cancelled);
                        assert(now[place] == failure);
                    }
                }
            }
        }
        assert(is_reported(now, failure));
        i = i + 1;
    }
    assert(errors@.take(i as int) == errors@);
    failure
}

/// What members hold together.
pub open spec fn held_together(members: Seq<MemberPlan>) -> nat
    decreases members.len(),
{
    if members.len() == 0 {
        0
    } else {
        members[0].workspace as nat + held_together(members.skip(1))
    }
}

proof fn lemma_held_push(members: Seq<MemberPlan>, last: MemberPlan)
    ensures
        held_together(members.push(last)) == held_together(members) + last.workspace as nat,
    decreases members.len(),
{
    let all = members.push(last);
    if members.len() == 0 {
        assert(all.skip(1).len() == 0);
        assert(held_together(all.skip(1)) == 0);
    } else {
        assert(all.skip(1) =~= members.skip(1).push(last));
        lemma_held_push(members.skip(1), last);
    }
}

proof fn lemma_held(members: Seq<MemberPlan>, start: int, end: int)
    requires
        0 <= start <= end <= members.len(),
    ensures
        total_workspace(members, start, end) == held_together(members.subrange(start, end)),
    decreases end - start,
{
    if start < end {
        lemma_held(members, start, end - 1);
        lemma_held_push(members.subrange(start, end - 1), members[end - 1]);
        assert(members.subrange(start, end) =~= members.subrange(start, end - 1).push(
            members[end - 1],
        ));
    } else {
        assert(members.subrange(start, end) =~= Seq::empty());
    }
}

/// A wave is at least one member and no more than there are threads. Where it is more than
/// one, the members behind the first are compressed as wholes, and all of them together
/// hold no more than the limit. The member behind a wave would not have fitted.
pub proof fn law_waves_fill_threads_and_memory(
    members: Seq<MemberPlan>,
    start: int,
    end: int,
    threads: usize,
    limit: u64,
)
    requires
        0 <= start,
        is_wave(members, start, end, threads, limit),
    ensures
        end - start >= 1,
        end - start == 1 || end - start <= threads,
        end - start == 1 || held_together(members.subrange(start, end)) <= limit,
        forall|at: int|
            start < at < end ==> (#[trigger] members[at]).execution == Execution::WholeMember,
        end < members.len() ==> {
            ||| end - start >= threads
            ||| members[end].execution != Execution::WholeMember
            ||| held_together(members.subrange(start, end + 1)) > limit
        },
{
    lemma_held(members, start, end);
    if end < members.len() {
        lemma_held(members, start, end + 1);
    }
    if end - start > 1 {
        assert(wave_admits(members, start, end - 1, threads, limit));
    }
    assert forall|at: int| start < at < end implies (#[trigger] members[at]).execution
        == Execution::WholeMember by {
        assert(wave_admits(members, start, at, threads, limit));
    }
}

/// A batch fails where one of its jobs does. It tells of the first job that failed by
/// itself, whatever jobs were cancelled before or after it, and of a cancellation only where
/// there was nothing else.
pub proof fn law_the_first_failure_is_told(errors: Seq<Option<Error>>, report: Option<Error>, at: int)
    requires
        is_reported(errors, report),
        0 <= at < errors.len(),
        errors[at] is Some,
    ensures
        report is Some,
        errors.contains(report),
        errors[at] != Some(Error::Cancelled) && (forall|k: int|
            0 <= k < at ==> #[trigger] errors[k] is None || errors[k] == Some(Error::Cancelled))
            ==> report == errors[at],
        report == Some(Error::Cancelled) ==> errors[at] == Some(Error::Cancelled),
{
}

} // verus!
