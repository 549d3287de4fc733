//! What times come to: how zones read an instant, and what file times count from.

use vstd::prelude::*;

#[allow(unused_imports)]
use crate::civil::{day_number, days_before_month, is_date};
#[allow(unused_imports)]
use crate::text::ascii_chars;
#[allow(unused_imports)]
use crate::timestamp::{is_filetime_text, iso_text};
#[allow(unused_imports)]
use crate::tzif::{count_until, first_standard, LocalType, ZoneView};

verus! {

/// The first day of 1601 lies so many days before that of 1970.
proof fn lemma_days_of_1601()
    ensures
        day_number(1601, 1, 1) * 86_400 == -11_644_473_600,
{
    reveal_with_fuel(days_before_month, 2);
}

/// A file time from 1970 on is shown as the date and the time of day that lie as many
/// seconds behind the first of January 1601 as it counts, ten million to a second.
pub proof fn law_file_times_count_from_1601(filetime: u64, text: Seq<char>)
    requires
        is_filetime_text(filetime, text),
        filetime as int / 10_000_000 >= (day_number(1970, 1, 1) - day_number(1601, 1, 1)) * 86_400,
    ensures
        exists|year: nat, month: nat, day: nat, hour: nat, minute: nat, second: nat|
            {
                &&& text == ascii_chars(#[trigger] iso_text(year, month, day, hour, minute, second))
                &&& is_date(year as int, month as int, day as int)
                &&& hour < 24 && minute < 60 && second < 60
                &&& (day_number(year as int, month as int, day as int) - day_number(1601, 1, 1))
                    * 86_400 + hour * 3600 + minute * 60 + second == filetime as int / 10_000_000
            },
{
    lemma_days_of_1601();
    assert(day_number(1970, 1, 1) == 0) by {
        reveal_with_fuel(days_before_month, 2);
    }
    let (year, month, day, hour, minute, second) = choose|
        year: nat,
        month: nat,
        day: nat,
        hour: nat,
        minute: nat,
        second: nat,
    |
        {
            &&& text == ascii_chars(#[trigger] iso_text(year, month, day, hour, minute, second))
            &&& is_date(year as int, month as int, day as int)
            &&& hour < 24 && minute < 60 && second < 60
            &&& day_number(year as int, month as int, day as int) * 86_400 + hour * 3600 + minute
                * 60 + second == filetime as int / 10_000_000 - 11_644_473_600
        };
    assert(text == ascii_chars(iso_text(year, month, day, hour, minute, second)));
}

proof fn lemma_count_until(transitions: Seq<i64>, instant: int, i: int)
    requires
        0 <= i <= transitions.len(),
        forall|k: int| i <= k < transitions.len() ==> #[trigger] transitions[k] > instant,
        i > 0 ==> transitions[i - 1] <= instant,
    ensures
        count_until(transitions, instant) == i,
    decreases transitions.len(),
{
    if transitions.len() > 0 && i < transitions.len() {
        assert(transitions.last() == transitions[transitions.len() - 1]);
        let fewer = transitions.drop_last();
        assert forall|k: int| i <= k < fewer.len() implies #[trigger] fewer[k] > instant by {
            assert(fewer[k] == transitions[k]);
        }
        lemma_count_until(fewer, instant, i);
    }
}

proof fn lemma_first_standard(types: Seq<LocalType>, otherwise: LocalType, k: int)
    requires
        0 <= k <= types.len(),
        forall|j: int| 0 <= j < k ==> (#[trigger] types[j]).is_dst,
        k < types.len() ==> !types[k].is_dst,
    ensures
        first_standard(types, otherwise) == (if k < types.len() {
            types[k]
        } else {
            otherwise
        }),
    decreases types.len(),
{
    if k > 0 {
        let rest = types.skip(1);
        assert(types[0].is_dst);
        assert forall|j: int| 0 <= j < k - 1 implies (#[trigger] rest[j]).is_dst by {
            assert(rest[j] == types[j + 1]);
        }
        lemma_first_standard(rest, otherwise, k - 1);
    }
}

/// From a transition on, and until the next, a zone keeps the time of the type that the
/// transition names.
pub proof fn law_transitions_hold_until_the_next(zone: ZoneView, instant: int, i: int)
    requires
        zone.is_usable(),
        0 <= i < zone.transitions.len(),
        zone.transitions[i] <= instant,
        i + 1 < zone.transitions.len() ==> instant < zone.transitions[i + 1],
    ensures
        zone.type_at(instant) == zone.types[zone.indices[i] as int],
{
    lemma_count_until(zone.transitions, instant, i + 1);
}

/// Before its first transition a zone keeps the first standard time it knows, or the first
/// of all where it knows none but daylight saving.
pub proof fn law_a_zone_starts_in_standard_time(zone: ZoneView, instant: int, k: int)
    requires
        zone.is_usable(),
        zone.transitions.len() > 0 ==> instant < zone.transitions[0],
        0 <= k <= zone.types.len(),
        forall|j: int| 0 <= j < k ==> (#[trigger] zone.types[j]).is_dst,
        k < zone.types.len() ==> !zone.types[k].is_dst,
    ensures
        zone.type_at(instant) == (if k < zone.types.len() {
            zone.types[k]
        } else {
            zone.types[0]
        }),
{
    lemma_count_until(zone.transitions, instant, 0);
    lemma_first_standard(zone.types, zone.types[0], k);
}

} // verus!
