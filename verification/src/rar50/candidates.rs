//! Trying encoder settings and filters on a member, and keeping the smallest
//! result.

use vstd::prelude::*;

use crate::error::{Error, Result};
use crate::filter::{FilterKind, FilterPolicy, FilterSpec};
use crate::rar50::ladder::EncodeOptions;
use crate::rar50::member_progress::MemberProgress;
use crate::rar50::share::{EncodeProgress, MemberShare, Turn};
use crate::write_progress::WriteProgress;

verus! {

/// The filters that a policy asks for outright. A search finds its own.
pub open spec fn asked_filters(policy: FilterPolicy) -> Seq<FilterSpec> {
    match policy {
        FilterPolicy::Explicit(filter) => seq![filter],
        _ => Seq::empty(),
    }
}

fn filters_asked(policy: &FilterPolicy) -> (filters: Vec<FilterSpec>)
    ensures
        filters@ == asked_filters(*policy),
{
    let mut filters: Vec<FilterSpec> = Vec::new();
    if let FilterPolicy::Explicit(filter) = policy {
        filters.push(*filter);
    }
    assert(filters@ =~= asked_filters(*policy));
    filters
}

fn copy_filters(filters: &Vec<FilterSpec>) -> (copy: Vec<FilterSpec>)
    ensures
        copy@ == filters@,
{
    let mut copy: Vec<FilterSpec> = Vec::new();
    let mut at: usize = 0;
    while at < filters.len()
        invariant
            at <= filters@.len(),
            copy@ == filters@.take(at as int),
        decreases filters@.len() - at,
    {
        copy.push(filters[at]);
        assert(copy@ =~= filters@.take(at + 1));
        at = at + 1;
    }
    assert(copy@ =~= filters@);
    copy
}

/// Whether the encoder may report in this turn.
pub open spec fn encoder_reports<
    E: Fn(&[u8], Vec<FilterSpec>, EncodeOptions, usize) -> Result<Turn<Vec<u8>>>,
>(
    encode: E,
    data: Seq<u8>,
    filters: Seq<FilterSpec>,
    options: EncodeOptions,
    turn: usize,
) -> bool {
    exists|held: &[u8], given: Vec<FilterSpec>, event: EncodeProgress|
        held@ == data && given@ == filters && #[trigger] call_ensures(
            encode,
            (held, given, options, turn),
            Ok::<Turn<Vec<u8>>, Error>(Turn::Report(event)),
        )
}

/// Whether `packed` is what the encoder may make of a member with these filters
/// under these settings: in some turn it is done, and it reports in those before.
pub open spec fn encodes_to<E: Fn(&[u8], Vec<FilterSpec>, EncodeOptions, usize) -> Result<Turn<Vec<u8>>>>(
    encode: E,
    data: Seq<u8>,
    filters: Seq<FilterSpec>,
    options: EncodeOptions,
    packed: Seq<u8>,
) -> bool {
    exists|held: &[u8], given: Vec<FilterSpec>, turn: usize, made: Vec<u8>|
        held@ == data && given@ == filters && made@ == packed && #[trigger] call_ensures(
            encode,
            (held, given, options, turn),
            Ok::<Turn<Vec<u8>>, Error>(Turn::Done(made)),
        ) && forall|earlier: usize|
            earlier < turn ==> #[trigger] encoder_reports(encode, data, filters, options, earlier)
}

/// The refusal of an encoder that has no end.
pub open spec fn endless_error() -> Error {
    Error::WriterFailure("RAR 5 encoder does not finish")
}

pub open spec fn encode_fails<E: Fn(&[u8], Vec<FilterSpec>, EncodeOptions, usize) -> Result<Turn<Vec<u8>>>>(
    encode: E,
    data: Seq<u8>,
    filters: Seq<FilterSpec>,
    options: EncodeOptions,
    error: Error,
) -> bool {
    ||| exists|held: &[u8], given: Vec<FilterSpec>, turn: usize|
        held@ == data && given@ == filters && #[trigger] call_ensures(
            encode,
            (held, given, options, turn),
            Err::<Turn<Vec<u8>>, Error>(error),
        ) && forall|earlier: usize|
            earlier < turn ==> #[trigger] encoder_reports(encode, data, filters, options, earlier)
    ||| error == endless_error() && forall|turn: usize| #[trigger]
        encoder_reports(encode, data, filters, options, turn)
}

/// The place of the smallest of some results; of equals, the first.
pub open spec fn smallest(results: Seq<Seq<u8>>) -> int
    decreases results.len(),
{
    if results.len() <= 1 {
        0
    } else {
        let before = smallest(results.drop_last());
        if results.last().len() < results[before].len() {
            results.len() - 1
        } else {
            before
        }
    }
}

/// Nothing is smaller than the smallest, and nothing before it is as small.
pub proof fn law_smallest_is_smallest(results: Seq<Seq<u8>>)
    requires
        results.len() > 0,
    ensures
        0 <= smallest(results) < results.len(),
        forall|i: int|
            0 <= i < results.len() ==> results[smallest(results)].len() <= (
            #[trigger] results[i]).len(),
        forall|i: int|
            0 <= i < smallest(results) ==> results[smallest(results)].len() < (
            #[trigger] results[i]).len(),
    decreases results.len(),
{
    if results.len() > 1 {
        let before = results.drop_last();
        law_smallest_is_smallest(before);
        assert forall|i: int| 0 <= i < results.len() implies results[smallest(results)].len() <= (
        #[trigger] results[i]).len() by {
            if i < before.len() {
                assert(before[i] == results[i]);
            }
        }
        assert forall|i: int| 0 <= i < smallest(results) implies results[smallest(
            results,
        )].len() < (#[trigger] results[i]).len() by {
            assert(before[i] == results[i]);
        }
    }
}

/// Whether the encoder takes a member under any filters and settings.
pub open spec fn takes_all_settings<
    E: Fn(&[u8], Vec<FilterSpec>, EncodeOptions, usize) -> Result<Turn<Vec<u8>>>,
>(encode: E, data: Seq<u8>) -> bool {
    forall|held: &[u8], given: Vec<FilterSpec>, options: EncodeOptions, turn: usize|
        held@ == data ==> #[trigger] call_requires(encode, (held, given, options, turn))
}

/// Whether the filter search takes a member under any settings.
pub open spec fn takes_any_search<
    S: Fn(&[u8], EncodeOptions, usize) -> Result<Turn<(Vec<FilterSpec>, Vec<u8>)>>,
>(search: S, data: Seq<u8>) -> bool {
    forall|held: &[u8], options: EncodeOptions, turn: usize|
        held@ == data ==> #[trigger] call_requires(search, (held, options, turn))
}

/// Whether each result comes of its settings, from the second on; the first is
/// there already.
pub open spec fn are_tried<E: Fn(&[u8], Vec<FilterSpec>, EncodeOptions, usize) -> Result<Turn<Vec<u8>>>>(
    encode: E,
    data: Seq<u8>,
    filters: Seq<FilterSpec>,
    candidates: Seq<EncodeOptions>,
    results: Seq<Seq<u8>>,
) -> bool {
    &&& results.len() == candidates.len()
    &&& forall|i: int|
        1 <= i < candidates.len() ==> encodes_to(
            encode,
            data,
            filters,
            candidates[i],
            #[trigger] results[i],
        )
}

/// Walked bytes, no more than the whole walk.
pub open spec fn within_walk(bytes: int, walk: u64) -> int {
    if bytes < walk {
        bytes
    } else {
        walk as int
    }
}

/// Takes in what an encoder reports in one of its turns. Whatever it says of itself,
/// no more of the walk is charged than up to `target`.
fn follow<P: WriteProgress>(
    watch: &mut MemberProgress<'_, P>,
    share: &mut MemberShare,
    event: EncodeProgress,
    target: u64,
) -> (r: Result<()>)
    requires
        old(watch).is_valid(),
        old(share).walked() <= target <= old(share).walk(),
    ensures
        final(watch).continues(*old(watch)),
        final(share).input_size() == old(share).input_size(),
        final(share).walk() == old(share).walk(),
        old(share).walked() <= final(share).walked() <= target,
        r matches Err(error) ==> old(watch).is_stop(error),
{
    let known: EncodeProgress = match event {
        EncodeProgress::PassStarted => EncodeProgress::PassStarted,
        EncodeProgress::Advanced(position) => {
            let last: u64 = share.last_position();
            let room: u64 = target - share.walked_bytes();
            if position > last && position - last > room {
                EncodeProgress::Advanced(last + room)
            } else {
                EncodeProgress::Advanced(position)
            }
        },
    };
    watch.walked(share, known)
}

/// Charges what is left of the walk up to `target`.
fn settle<P: WriteProgress>(
    watch: &mut MemberProgress<'_, P>,
    share: &mut MemberShare,
    target: u64,
) -> (r: Result<()>)
    requires
        old(watch).is_valid(),
        old(share).walked() <= target <= old(share).walk(),
    ensures
        final(watch).continues(*old(watch)),
        final(share).input_size() == old(share).input_size(),
        final(share).walk() == old(share).walk(),
        r is Ok ==> final(share).walked() == target,
        r matches Err(error) ==> old(watch).is_stop(error),
{
    let left: u64 = target - share.walked_bytes();
    match watch.walked(share, EncodeProgress::PassStarted) {
        Ok(()) => {},
        Err(error) => {
            return Err(error);
        },
    }
    watch.walked(share, EncodeProgress::Advanced(left))
}

/// Packs a member, turn by turn: after each the receiver gets how far it has come,
/// and may stop it. The walk is charged up to `target`.
fn run_encoder<
    E: Fn(&[u8], Vec<FilterSpec>, EncodeOptions, usize) -> Result<Turn<Vec<u8>>>,
    P: WriteProgress,
>(
    data: &[u8],
    filters: &Vec<FilterSpec>,
    options: EncodeOptions,
    encode: &E,
    watch: &mut MemberProgress<'_, P>,
    share: &mut MemberShare,
    target: u64,
) -> (r: Result<Vec<u8>>)
    requires
        old(watch).is_valid(),
        old(share).walked() <= target <= old(share).walk(),
        takes_all_settings(*encode, data@),
    ensures
        final(watch).continues(*old(watch)),
        final(share).input_size() == old(share).input_size(),
        final(share).walk() == old(share).walk(),
        r is Ok ==> final(share).walked() == target,
        match r {
            Ok(packed) => encodes_to(*encode, data@, filters@, options, packed@),
            Err(error) => old(watch).is_stop(error) || encode_fails(
                *encode,
                data@,
                filters@,
                options,
                error,
            ),
        },
{
    match watch.walked(share, EncodeProgress::PassStarted) {
        Ok(()) => {},
        Err(error) => {
            return Err(error);
        },
    }
    let mut turn: usize = 0;
    loop
        invariant
            watch.is_valid(),
            watch.continues(*old(watch)),
            share.input_size() == old(share).input_size(),
            share.walk() == old(share).walk(),
            share.walked() <= target <= share.walk(),
            takes_all_settings(*encode, data@),
            forall|earlier: usize|
                earlier < turn ==> #[trigger] encoder_reports(
                    *encode,
                    data@,
                    filters@,
                    options,
                    earlier,
                ),
        decreases usize::MAX - turn,
    {
        let given = copy_filters(filters);
        let ghost given_copy = given;
        match encode(data, given, options, turn) {
            Ok(Turn::Done(packed)) => {
                assert(call_ensures(
                    *encode,
                    (data, given_copy, options, turn),
                    Ok::<Turn<Vec<u8>>, Error>(Turn::Done(packed)),
                ));
                return match settle(watch, share, target) {
                    Ok(()) => Ok(packed),
                    Err(error) => Err(error),
                };
            },
            Ok(Turn::Report(event)) => {
                assert(call_ensures(
                    *encode,
                    (data, given_copy, options, turn),
                    Ok::<Turn<Vec<u8>>, Error>(Turn::Report(event)),
                ));
                assert(encoder_reports(*encode, data@, filters@, options, turn));
                match follow(watch, share, event, target) {
                    Ok(()) => {},
                    Err(error) => {
                        return Err(error);
                    },
                }
                if turn == usize::MAX {
                    return Err(Error::WriterFailure("RAR 5 encoder does not finish"));
                }
                turn = turn + 1;
            },
            Err(error) => {
                assert(call_ensures(
                    *encode,
                    (data, given_copy, options, turn),
                    Err::<Turn<Vec<u8>>, Error>(error),
                ));
                return Err(error);
            },
        }
    }
}

/// As [`run_encoder`], of a filter search.
fn run_search<
    S: Fn(&[u8], EncodeOptions, usize) -> Result<Turn<(Vec<FilterSpec>, Vec<u8>)>>,
    P: WriteProgress,
>(
    data: &[u8],
    options: EncodeOptions,
    search: &S,
    watch: &mut MemberProgress<'_, P>,
    share: &mut MemberShare,
    target: u64,
) -> (r: Result<(Vec<FilterSpec>, Vec<u8>)>)
    requires
        old(watch).is_valid(),
        old(share).walked() <= target <= old(share).walk(),
        takes_any_search(*search, data@),
    ensures
        final(watch).continues(*old(watch)),
        final(share).input_size() == old(share).input_size(),
        final(share).walk() == old(share).walk(),
        r is Ok ==> final(share).walked() == target,
        match r {
            Ok((filters, packed)) => is_found(*search, data@, options, filters@, packed@),
            Err(error) => old(watch).is_stop(error) || search_fails(
                *search,
                data@,
                options,
                error,
            ),
        },
{
    match watch.walked(share, EncodeProgress::PassStarted) {
        Ok(()) => {},
        Err(error) => {
            return Err(error);
        },
    }
    let mut turn: usize = 0;
    loop
        invariant
            watch.is_valid(),
            watch.continues(*old(watch)),
            share.input_size() == old(share).input_size(),
            share.walk() == old(share).walk(),
            share.walked() <= target <= share.walk(),
            takes_any_search(*search, data@),
            forall|earlier: usize|
                earlier < turn ==> #[trigger] search_reports(*search, data@, options, earlier),
        decreases usize::MAX - turn,
    {
        match search(data, options, turn) {
            Ok(Turn::Done((filters, packed))) => {
                assert(call_ensures(
                    *search,
                    (data, options, turn),
                    Ok::<Turn<(Vec<FilterSpec>, Vec<u8>)>, Error>(Turn::Done((filters, packed))),
                ));
                return match settle(watch, share, target) {
                    Ok(()) => Ok((filters, packed)),
                    Err(error) => Err(error),
                };
            },
            Ok(Turn::Report(event)) => {
                assert(call_ensures(
                    *search,
                    (data, options, turn),
                    Ok::<Turn<(Vec<FilterSpec>, Vec<u8>)>, Error>(Turn::Report(event)),
                ));
                assert(search_reports(*search, data@, options, turn));
                match follow(watch, share, event, target) {
                    Ok(()) => {},
                    Err(error) => {
                        return Err(error);
                    },
                }
                if turn == usize::MAX {
                    return Err(Error::WriterFailure("RAR 5 encoder does not finish"));
                }
                turn = turn + 1;
            },
            Err(error) => {
                assert(call_ensures(
                    *search,
                    (data, options, turn),
                    Err::<Turn<(Vec<FilterSpec>, Vec<u8>)>, Error>(error),
                ));
                return Err(error);
            },
        }
    }
}

/// Where a walk stands after more bytes.
fn walk_target(share: &MemberShare, bytes: u64) -> (target: u64)
    ensures
        target == within_walk(share.walked() + bytes, share.walk()),
        share.walked() <= target <= share.walk(),
{
    let walk: u64 = share.walk_bytes();
    let walked: u64 = share.walked_bytes();
    if bytes < walk - walked {
        walked + bytes
    } else {
        walk
    }
}

/// Tries the settings behind the first, whose result is `first`, and keeps the
/// smallest. The ghost lists all results.
fn keep_smallest<
    E: Fn(&[u8], Vec<FilterSpec>, EncodeOptions, usize) -> Result<Turn<Vec<u8>>>,
    P: WriteProgress,
>(
    data: &[u8],
    first: Vec<u8>,
    filters: &Vec<FilterSpec>,
    candidates: &[EncodeOptions],
    encode: &E,
    watch: &mut MemberProgress<'_, P>,
    share: &mut MemberShare,
) -> (r: Result<(Vec<u8>, Ghost<Seq<Seq<u8>>>)>)
    requires
        old(watch).is_valid(),
        old(share).walked() <= old(share).walk(),
        candidates@.len() > 0,
        takes_all_settings(*encode, data@),
    ensures
        final(watch).continues(*old(watch)),
        final(share).input_size() == old(share).input_size(),
        final(share).walk() == old(share).walk(),
        r is Ok ==> final(share).walked() == within_walk(
            old(share).walked() + (candidates@.len() - 1) * data@.len(),
            old(share).walk(),
        ),
        match r {
            Ok((best, results)) => are_tried(*encode, data@, filters@, candidates@, results@)
                && results@[0] == first@ && best@ == results@[smallest(results@)],
            Err(error) => old(watch).is_stop(error) || exists|i: int|
                1 <= i < candidates@.len() && encode_fails(
                    *encode,
                    data@,
                    filters@,
                    #[trigger] candidates@[i],
                    error,
                ),
        },
{
    let ghost mut results: Seq<Seq<u8>> = seq![first@];
    let ghost initial = first@;
    let mut best = first;
    assert(0 * data@.len() as int == 0);
    let mut at: usize = 1;
    while at < candidates.len()
        invariant
            1 <= at <= candidates@.len(),
            watch.is_valid(),
            watch.continues(*old(watch)),
            share.input_size() == old(share).input_size(),
            share.walk() == old(share).walk(),
            old(share).walked() <= old(share).walk(),
            share.walked() == within_walk(
                old(share).walked() + (at - 1) * data@.len(),
                old(share).walk(),
            ),
            results.len() == at,
            results[0] == initial,
            best@ == results[smallest(results)],
            0 <= smallest(results) < results.len(),
            takes_all_settings(*encode, data@),
            forall|i: int|
                1 <= i < at ==> encodes_to(
                    *encode,
                    data@,
                    filters@,
                    candidates@[i],
                    #[trigger] results[i],
                ),
        decreases candidates@.len() - at,
    {
        let walked: usize = data.len();
        assert(((at + 1) - 1) * walked == (at - 1) * walked + walked) by (nonlinear_arith);
        let target: u64 = walk_target(share, walked as u64);
        let packed = match run_encoder(
            data,
            filters,
            candidates[at],
            encode,
            watch,
            share,
            target,
        ) {
            Ok(packed) => packed,
            Err(error) => {
                return Err(error);
            },
        };
        let ghost before = results;
        proof {
            results = results.push(packed@);
            assert(results.drop_last() =~= before);
            assert forall|i: int| 1 <= i < results.len() implies encodes_to(
                *encode,
                data@,
                filters@,
                candidates@[i],
                #[trigger] results[i],
            ) by {
                if i < before.len() {
                    assert(results[i] == before[i]);
                }
            }
        }
        if packed.len() < best.len() {
            best = packed;
        }
        at = at + 1;
    }
    Ok((best, Ghost(results)))
}

/// Whether the first settings may give these filters and this result: found by a
/// search, or those that the policy asks for.
pub open spec fn is_first_try<
    S: Fn(&[u8], EncodeOptions, usize) -> Result<Turn<(Vec<FilterSpec>, Vec<u8>)>>,
    E: Fn(&[u8], Vec<FilterSpec>, EncodeOptions, usize) -> Result<Turn<Vec<u8>>>,
>(
    search: S,
    encode: E,
    data: Seq<u8>,
    searched: bool,
    policy: FilterPolicy,
    options: EncodeOptions,
    filters: Seq<FilterSpec>,
    packed: Seq<u8>,
) -> bool {
    if searched {
        is_found(search, data, options, filters, packed)
    } else {
        filters == asked_filters(policy) && encodes_to(encode, data, filters, options, packed)
    }
}

/// What comes of trying settings on a member: the first smallest result.
pub open spec fn is_best<
    S: Fn(&[u8], EncodeOptions, usize) -> Result<Turn<(Vec<FilterSpec>, Vec<u8>)>>,
    E: Fn(&[u8], Vec<FilterSpec>, EncodeOptions, usize) -> Result<Turn<Vec<u8>>>,
>(
    search: S,
    encode: E,
    data: Seq<u8>,
    searched: bool,
    policy: FilterPolicy,
    candidates: Seq<EncodeOptions>,
    best: Seq<u8>,
) -> bool {
    exists|filters: Seq<FilterSpec>, results: Seq<Seq<u8>>|
        {
            &&& #[trigger] are_tried(encode, data, filters, candidates, results)
            &&& candidates.len() > 0
            &&& best == results[smallest(results)]
            &&& is_first_try(
                search,
                encode,
                data,
                searched,
                policy,
                candidates[0],
                filters,
                results[0],
            )
        }
}

/// Whether the filter search may report in this turn.
pub open spec fn search_reports<
    S: Fn(&[u8], EncodeOptions, usize) -> Result<Turn<(Vec<FilterSpec>, Vec<u8>)>>,
>(search: S, data: Seq<u8>, options: EncodeOptions, turn: usize) -> bool {
    exists|held: &[u8], event: EncodeProgress|
        held@ == data && #[trigger] call_ensures(
            search,
            (held, options, turn),
            Ok::<Turn<(Vec<FilterSpec>, Vec<u8>)>, Error>(Turn::Report(event)),
        )
}

/// Whether a filter search may end with these filters and this result.
pub open spec fn is_found<S: Fn(&[u8], EncodeOptions, usize) -> Result<Turn<(Vec<FilterSpec>, Vec<u8>)>>>(
    search: S,
    data: Seq<u8>,
    options: EncodeOptions,
    filters: Seq<FilterSpec>,
    packed: Seq<u8>,
) -> bool {
    exists|held: &[u8], turn: usize, found: Vec<FilterSpec>, made: Vec<u8>|
        held@ == data && found@ == filters && made@ == packed && #[trigger] call_ensures(
            search,
            (held, options, turn),
            Ok::<Turn<(Vec<FilterSpec>, Vec<u8>)>, Error>(Turn::Done((found, made))),
        ) && forall|earlier: usize|
            earlier < turn ==> #[trigger] search_reports(search, data, options, earlier)
}

pub open spec fn search_fails<
    S: Fn(&[u8], EncodeOptions, usize) -> Result<Turn<(Vec<FilterSpec>, Vec<u8>)>>,
>(search: S, data: Seq<u8>, options: EncodeOptions, error: Error) -> bool {
    ||| exists|held: &[u8], turn: usize|
        held@ == data && #[trigger] call_ensures(
            search,
            (held, options, turn),
            Err::<Turn<(Vec<FilterSpec>, Vec<u8>)>, Error>(error),
        ) && forall|earlier: usize|
            earlier < turn ==> #[trigger] search_reports(search, data, options, earlier)
    ||| error == endless_error() && forall|turn: usize| #[trigger]
        search_reports(search, data, options, turn)
}

/// Whether trying settings may fail with this error: there are none, the first
/// fail, or others fail under the filters of the first.
pub open spec fn may_fail<
    S: Fn(&[u8], EncodeOptions, usize) -> Result<Turn<(Vec<FilterSpec>, Vec<u8>)>>,
    E: Fn(&[u8], Vec<FilterSpec>, EncodeOptions, usize) -> Result<Turn<Vec<u8>>>,
>(
    search: S,
    encode: E,
    data: Seq<u8>,
    searched: bool,
    policy: FilterPolicy,
    candidates: Seq<EncodeOptions>,
    error: Error,
) -> bool {
    if candidates.len() == 0 {
        error == Error::InvalidHeader("RAR 5 compression level has no encoder options")
    } else {
        ||| searched && search_fails(search, data, candidates[0], error)
        ||| !searched && encode_fails(encode, data, asked_filters(policy), candidates[0], error)
        ||| exists|filters: Seq<FilterSpec>, first: Seq<u8>, i: int|
            {
                &&& 1 <= i < candidates.len()
                &&& #[trigger] is_first_try(
                    search,
                    encode,
                    data,
                    searched,
                    policy,
                    candidates[0],
                    filters,
                    first,
                )
                &&& encode_fails(encode, data, filters, #[trigger] candidates[i], error)
            }
    }
}

/// Whether a member goes through the filter search.
pub open spec fn is_searched(policy: FilterPolicy, search_applies: bool) -> bool {
    policy == FilterPolicy::Auto && search_applies
}

/// What the first settings walk: one pass, or with a search what the other
/// settings leave of the whole walk.
pub open spec fn first_walk_of(member: u64, searched: bool, walk: u64, settings: u64) -> int {
    if !searched {
        member as int
    } else if walk < member * (settings - 1) {
        0
    } else {
        walk - member * (settings - 1)
    }
}

fn first_walk(member: u64, searched: bool, walk: u64, settings: u64) -> (walked: u64)
    requires
        settings > 0,
    ensures
        walked == first_walk_of(member, searched, walk, settings),
{
    if !searched {
        return member;
    }
    match member.checked_mul(settings - 1) {
        Some(others) => if walk < others {
            0
        } else {
            walk - others
        },
        None => 0,
    }
}

/// Tries every setting on a member, under the filters that the policy calls
/// for, and keeps the smallest result; of equals, the first.
///
/// Searching for a filter once and trying the other settings against it is the
/// difference between a handful of passes over the member and one whole search
/// per setting.
pub fn encode_member_with_filter_policy_candidates<
    S: Fn(&[u8], EncodeOptions, usize) -> Result<Turn<(Vec<FilterSpec>, Vec<u8>)>>,
    E: Fn(&[u8], Vec<FilterSpec>, EncodeOptions, usize) -> Result<Turn<Vec<u8>>>,
    P: WriteProgress,
>(
    data: &[u8],
    policy: &FilterPolicy,
    search_applies: bool,
    candidates: &[EncodeOptions],
    search: &S,
    encode: &E,
    watch: &mut MemberProgress<'_, P>,
    share: &mut MemberShare,
) -> (r: Result<Vec<u8>>)
    requires
        old(watch).is_valid(),
        takes_any_search(*search, data@),
        takes_all_settings(*encode, data@),
    ensures
        final(watch).continues(*old(watch)),
        final(share).input_size() == old(share).input_size(),
        final(share).walk() == old(share).walk(),
        r is Ok ==> final(share).walked() == within_walk(
            old(share).walked() + first_walk_of(
                data@.len() as u64,
                is_searched(*policy, search_applies),
                old(share).walk(),
                candidates@.len() as u64,
            ) + (candidates@.len() - 1) * data@.len(),
            old(share).walk(),
        ),
        match r {
            Ok(best) => is_best(
                *search,
                *encode,
                data@,
                is_searched(*policy, search_applies),
                *policy,
                candidates@,
                best@,
            ),
            Err(error) => old(watch).is_stop(error) || may_fail(
                *search,
                *encode,
                data@,
                is_searched(*policy, search_applies),
                *policy,
                candidates@,
                error,
            ),
        },
{
    if candidates.len() == 0 {
        return Err(Error::InvalidHeader("RAR 5 compression level has no encoder options"));
    }
    let first_options: EncodeOptions = candidates[0];
    let searched: bool = matches!(policy, FilterPolicy::Auto) && search_applies;
    let settings: usize = candidates.len();
    let walked: u64 = first_walk(data.len() as u64, searched, share.walk_bytes(), settings as u64);
    let target: u64 = walk_target(share, walked);
    let (filters, first): (Vec<FilterSpec>, Vec<u8>) = if searched {
        match run_search(data, first_options, search, watch, share, target) {
            Ok(found) => found,
            Err(error) => {
                return Err(error);
            },
        }
    } else {
        let filters = filters_asked(policy);
        match run_encoder(data, &filters, first_options, encode, watch, share, target) {
            Ok(first) => (filters, first),
            Err(error) => {
                return Err(error);
            },
        }
    };
    let ghost first_view = first@;
    assert(is_first_try(
        *search,
        *encode,
        data@,
        searched,
        *policy,
        candidates@[0],
        filters@,
        first_view,
    ));
    match keep_smallest(data, first, &filters, candidates, encode, watch, share) {
        Ok((best, results)) => {
            assert(are_tried(*encode, data@, filters@, candidates@, results@));
            Ok(best)
        },
        Err(error) => {
            proof {
                if !old(watch).is_stop(error) {
                    let i = choose|i: int|
                        1 <= i < candidates@.len() && encode_fails(
                            *encode,
                            data@,
                            filters@,
                            #[trigger] candidates@[i],
                            error,
                        );
                    assert(encode_fails(*encode, data@, filters@, candidates@[i], error));
                }
            }
            Err(error)
        },
    }
}

/// How the RAR 5 encoder measures filter candidates.
#[derive(Debug, Clone, Copy, PartialEq, Eq, Structural)]
pub struct Rar50Search {
    pub algorithm_version: u8,
}

impl Rar50Search {
    /// The filters that a search screens over a whole member.
    pub fn screened_kinds(&self) -> (kinds: Vec<FilterKind>)
        ensures
            kinds@ == seq![
                FilterKind::Arm,
                FilterKind::Delta { channels: 1 },
                FilterKind::Delta { channels: 2 },
                FilterKind::Delta { channels: 3 },
                FilterKind::Delta { channels: 4 },
            ],
    {
        let kinds = vec![
            FilterKind::Arm,
            FilterKind::Delta { channels: 1 },
            FilterKind::Delta { channels: 2 },
            FilterKind::Delta { channels: 3 },
            FilterKind::Delta { channels: 4 },
        ];
        assert(kinds@ =~= seq![
            FilterKind::Arm,
            FilterKind::Delta { channels: 1 },
            FilterKind::Delta { channels: 2 },
            FilterKind::Delta { channels: 3 },
            FilterKind::Delta { channels: 4 },
        ]);
        kinds
    }

    /// The settings of a screen, which does not pay for the optimal parse.
    pub fn screen_options(&self, options: EncodeOptions) -> (screen: EncodeOptions)
        ensures
            screen == (EncodeOptions { optimal_parse: false, ..options }),
    {
        options.with_optimal_parse(false)
    }
}

/// How many bytes the encoder walks while packing a member, for progress to
/// scale by. A search says itself what it walks.
pub fn filter_policy_walk_bytes(
    member: u64,
    searched_walk: Option<u64>,
    encoder_candidates: usize,
) -> (walk: u64)
    ensures
        walk == (match searched_walk {
            Some(walk) => walk as nat,
            None => {
                let passes = if encoder_candidates == 0 {
                    1nat
                } else {
                    encoder_candidates as nat
                };
                if member as nat * passes <= u64::MAX {
                    member as nat * passes
                } else {
                    u64::MAX as nat
                }
            },
        }),
{
    match searched_walk {
        Some(walk) => walk,
        None => {
            let passes: u64 = if encoder_candidates == 0 {
                1
            } else {
                encoder_candidates as u64
            };
            match member.checked_mul(passes) {
                Some(walk) => walk,
                None => u64::MAX,
            }
        },
    }
}

/// Each of the encoder settings is tried on the same data with the same filters: those the
/// search came to, or just the one that was asked for. What is kept is one of the results,
/// and none of them is smaller.
pub proof fn law_the_smallest_result_is_kept<
    S: Fn(&[u8], EncodeOptions, usize) -> Result<Turn<(Vec<FilterSpec>, Vec<u8>)>>,
    E: Fn(&[u8], Vec<FilterSpec>, EncodeOptions, usize) -> Result<Turn<Vec<u8>>>,
>(
    search: S,
    encode: E,
    data: Seq<u8>,
    searched: bool,
    policy: FilterPolicy,
    candidates: Seq<EncodeOptions>,
    best: Seq<u8>,
)
    requires
        is_best(search, encode, data, searched, policy, candidates, best),
    ensures
        exists|filters: Seq<FilterSpec>, results: Seq<Seq<u8>>|
            {
                &&& #[trigger] are_tried(encode, data, filters, candidates, results)
                &&& results.len() == candidates.len() > 0
                &&& results.contains(best)
                &&& forall|i: int|
                    0 <= i < results.len() ==> best.len() <= (#[trigger] results[i]).len()
                &&& forall|i: int|
                    (if searched { 1int } else { 0 }) <= i < results.len() ==> encodes_to(
                        encode,
                        data,
                        filters,
                        candidates[i],
                        #[trigger] results[i],
                    )
                &&& searched ==> is_found(search, data, candidates[0], filters, results[0])
                &&& !searched ==> (match policy {
                    FilterPolicy::Explicit(asked) => filters.len() == 1 && filters[0] == asked,
                    _ => filters.len() == 0,
                })
            },
{
    let (filters, results) = choose|filters: Seq<FilterSpec>, results: Seq<Seq<u8>>|
        {
            &&& #[trigger] are_tried(encode, data, filters, candidates, results)
            &&& candidates.len() > 0
            &&& best == results[smallest(results)]
            &&& is_first_try(
                search,
                encode,
                data,
                searched,
                policy,
                candidates[0],
                filters,
                results[0],
            )
        };
    law_smallest_is_smallest(results);
    assert(are_tried(encode, data, filters, candidates, results));
}

} // verus!
