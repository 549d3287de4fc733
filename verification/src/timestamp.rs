//! Timestamps as archives store them.
//!
//! Legacy archives hold a packed DOS reading with no zone and two-second steps;
//! newer ones hold Unix seconds.

use vstd::prelude::*;

use crate::civil::{civil_from_days, days_from_civil};
#[allow(unused_imports)]
use crate::civil::{day_number, is_date};
#[allow(unused_imports)]
use crate::power::saturated;
use crate::text::{ascii_string, push_hex, push_padded_decimal};
#[allow(unused_imports)]
use crate::text::{
    ascii_chars, decimal, hex, is_ascii, lemma_decimal_is_ascii, lemma_hex_is_ascii, padded_decimal,
};
use crate::tzif::TimeZone;
#[allow(unused_imports)]
use crate::tzif::{is_plausible, law_readings_round_trip, ZoneView};
use crate::version::ArchiveFamily;

verus! {

/// The seconds of a day.
pub const DAY_SECONDS: u64 = 86_400;

/// Seconds from 1601 to 1970.
pub const FILETIME_UNIX_EPOCH_SECONDS: u64 = 11_644_473_600;

/// Steps of 100 ns to a second.
pub const FILETIME_TICKS_PER_SECOND: u64 = 10_000_000;

/// A stored timestamp with its interpretation attached, before refinements.
#[derive(Debug, Clone, Copy, PartialEq, Eq, Structural)]
pub enum StoredTimestamp {
    /// Packed DOS fields with no stored timezone and two-second resolution.
    DosLocal(u32),
    /// Whole seconds since the Unix epoch.
    UnixSeconds(u32),
}

/// The fields of a packed DOS reading.
#[derive(Debug, Clone, Copy, PartialEq, Eq, Structural)]
pub struct DosFields {
    pub year: u16,
    pub month: u8,
    pub day: u8,
    pub hour: u8,
    pub minute: u8,
    pub second: u8,
}

/// Seven bits of years since 1980, four of month, five of day, five of hour,
/// six of minute, and five of half the seconds.
pub open spec fn dos_fields_of(raw: u32) -> DosFields {
    DosFields {
        year: (1980 + raw as int / 0x200_0000) as u16,
        month: ((raw as int / 0x20_0000) % 16) as u8,
        day: ((raw as int / 0x1_0000) % 32) as u8,
        hour: ((raw as int / 0x800) % 32) as u8,
        minute: ((raw as int / 0x20) % 64) as u8,
        second: ((raw as int % 32) * 2) as u8,
    }
}

/// Unpacks a DOS reading.
pub fn dos_fields(raw: u32) -> (fields: DosFields)
    ensures
        fields == dos_fields_of(raw),
{
    DosFields {
        year: (1980 + raw / 0x200_0000) as u16,
        month: ((raw / 0x20_0000) % 16) as u8,
        day: ((raw / 0x1_0000) % 32) as u8,
        hour: ((raw / 0x800) % 32) as u8,
        minute: ((raw / 0x20) % 64) as u8,
        second: ((raw % 32) * 2) as u8,
    }
}

/// The packed form of fields that fit it.
pub open spec fn dos_packed(fields: DosFields) -> int {
    (fields.year - 1980) * 0x200_0000 + fields.month * 0x20_0000 + fields.day * 0x1_0000
        + fields.hour * 0x800 + fields.minute * 0x20 + fields.second / 2
}

/// Whether fields fit the packed form.
pub open spec fn fit_dos(fields: DosFields) -> bool {
    &&& 1980 <= fields.year <= 2107
    &&& fields.month < 16
    &&& fields.day < 32
    &&& fields.hour < 32
    &&& fields.minute < 64
    &&& fields.second < 64
}

/// Unpacking gives the fields back, the second rounded down to an even one.
pub proof fn law_dos_fields_round_trip(fields: DosFields)
    requires
        fit_dos(fields),
    ensures
        0 <= dos_packed(fields) <= u32::MAX,
        dos_fields_of(dos_packed(fields) as u32) == (DosFields {
            second: (fields.second - fields.second % 2) as u8,
            ..fields
        }),
{
    let y = fields.year - 1980;
    let raw = dos_packed(fields);
    let half = fields.second / 2;
    assert(raw % 32 == half);
    assert(raw / 0x20 == y * 0x10_0000 + fields.month * 0x1_0000 + fields.day * 0x800
        + fields.hour * 0x40 + fields.minute);
    assert(raw / 0x800 == y * 0x4000 + fields.month * 0x400 + fields.day * 0x20 + fields.hour);
    assert(raw / 0x1_0000 == y * 0x200 + fields.month * 0x10 * 2 + fields.day);
    assert(raw / 0x20_0000 == y * 0x10 + fields.month);
    assert(raw / 0x200_0000 == y);
}

/// The packed form gives itself back.
pub proof fn law_dos_packing_round_trip(raw: u32)
    ensures
        fit_dos(dos_fields_of(raw)),
        dos_packed(dos_fields_of(raw)) == raw,
{
    let whole = raw as int;
    let minutes = whole / 0x20;
    let hours = whole / 0x800;
    let days = whole / 0x1_0000;
    let months = whole / 0x20_0000;
    let years = whole / 0x200_0000;
    assert(hours == minutes / 64 && days == hours / 32 && months == days / 32 && years == months
        / 16);
    assert(years < 128);
    assert(whole == 32 * minutes + whole % 32);
    assert(minutes == 64 * hours + minutes % 64);
    assert(hours == 32 * days + hours % 32);
    assert(days == 32 * months + days % 32);
    assert(months == 16 * years + months % 16);
    let fields = dos_fields_of(raw);
    assert(fields.second / 2 == whole % 32);
}

/// Calendar fields of a moment: year, month, day, hour, minute, second.
pub type CalendarFields = (u16, u8, u8, u8, u8, u8);

/// Whether these are the UTC calendar fields of whole seconds since 1970.
pub open spec fn are_utc_fields(seconds: int, fields: CalendarFields) -> bool {
    &&& is_date(fields.0 as int, fields.1 as int, fields.2 as int)
    &&& fields.3 < 24
    &&& fields.4 < 60
    &&& fields.5 < 60
    &&& day_number(fields.0 as int, fields.1 as int, fields.2 as int) * 86_400 + fields.3 * 3600
        + fields.4 * 60 + fields.5 == seconds
}

/// UTC calendar fields for a whole-second timestamp, the Unix epoch included.
pub fn unix_datetime(seconds: u32) -> (fields: CalendarFields)
    ensures
        are_utc_fields(seconds as int, fields),
{
    let (year, month, day) = civil_from_days(seconds as u64 / DAY_SECONDS);
    proof {
        lemma_year_bound(year as int, month as int, day as int);
    }
    let within_day: u64 = seconds as u64 % DAY_SECONDS;
    (
        year as u16,
        month as u8,
        day as u8,
        (within_day / 3600) as u8,
        ((within_day % 3600) / 60) as u8,
        (within_day % 60) as u8,
    )
}

/// Dates whose day number is small have small years.
proof fn lemma_year_bound(year: int, month: int, day: int)
    requires
        is_date(year, month, day),
        year >= 0,
        day_number(year, month, day) <= 23_000_000,
    ensures
        year <= 65_535,
{
    assert(crate::civil::days_before_month(year, month) >= 0) by {
        lemma_months_count(year, month);
    }
    if year > 65_535 {
        assert(crate::civil::days_before_year(year) >= 365 * (year - 1) + (year - 1) / 4 - (year
            - 1) / 100);
    }
}

proof fn lemma_months_count(year: int, month: int)
    ensures
        crate::civil::days_before_month(year, month) >= 0,
    decreases month,
{
    if month > 1 {
        lemma_months_count(year, month - 1);
    }
}

impl StoredTimestamp {
    pub fn from_family(family: ArchiveFamily, raw: u32) -> (stamp: StoredTimestamp)
        ensures
            stamp == (match family {
                ArchiveFamily::Rar50Plus => StoredTimestamp::UnixSeconds(raw),
                _ => StoredTimestamp::DosLocal(raw),
            }),
    {
        match family {
            ArchiveFamily::Rar13 | ArchiveFamily::Rar15To40 => StoredTimestamp::DosLocal(raw),
            ArchiveFamily::Rar50Plus => StoredTimestamp::UnixSeconds(raw),
        }
    }

    /// Calendar fields for display. DOS values expose the stored wall-clock
    /// fields as they are; Unix values use UTC. A zero DOS month or day is no
    /// date.
    pub fn calendar_fields(self) -> (fields: Option<CalendarFields>)
        ensures
            match self {
                StoredTimestamp::UnixSeconds(seconds) => fields matches Some(fields)
                    && are_utc_fields(seconds as int, fields),
                StoredTimestamp::DosLocal(raw) => {
                    let stored = dos_fields_of(raw);
                    fields == (if stored.month != 0 && stored.day != 0 {
                        Some(
                            (
                                stored.year,
                                stored.month,
                                stored.day,
                                stored.hour,
                                stored.minute,
                                stored.second,
                            ),
                        )
                    } else {
                        None
                    })
                },
            },
    {
        match self {
            StoredTimestamp::UnixSeconds(seconds) => Some(unix_datetime(seconds)),
            StoredTimestamp::DosLocal(raw) => {
                let stored = dos_fields(raw);
                if stored.month != 0 && stored.day != 0 {
                    Some(
                        (
                            stored.year,
                            stored.month,
                            stored.day,
                            stored.hour,
                            stored.minute,
                            stored.second,
                        ),
                    )
                } else {
                    None
                }
            },
        }
    }
}

/// Whether these are the fields of a local reading in seconds since 1970.
pub open spec fn are_reading_fields(reading: int, fields: DosFields) -> bool {
    are_utc_fields(
        reading,
        (fields.year, fields.month, fields.day, fields.hour, fields.minute, fields.second),
    )
}

/// Whether `packed` is the DOS reading of an instant in a zone: the packed
/// fields of the local clock, rounded down to an even second. There is none
/// before 1980 or after 2107.
pub open spec fn is_dos_time_of(instant: int, zone: ZoneView, packed: Option<u32>) -> bool {
    let reading = instant + zone.type_at(instant).offset;
    match packed {
        Some(raw) => exists|fields: DosFields| #[trigger]
            are_reading_fields(reading, fields) && fit_dos(fields) && raw == dos_packed(fields),
        None => reading < 0 || instant > i64::MAX || forall|fields: DosFields| #[trigger]
            are_reading_fields(reading, fields) ==> !fit_dos(fields),
    }
}

/// The packed DOS reading of an instant, as the local clock shows it.
pub fn unix_to_dos_time(instant: u64, zone: &TimeZone) -> (packed: Option<u32>)
    ensures
        is_dos_time_of(instant as int, zone@, packed),
{
    if instant > i64::MAX as u64 {
        return None;
    }
    let offset: i32 = zone.offset_at(instant as i64);
    let reading: i128 = instant as i128 + offset as i128;
    if reading < 0 {
        return None;
    }
    let seconds: u64 = reading as u64;
    let days: u64 = seconds / DAY_SECONDS;
    let within_day: u64 = seconds % DAY_SECONDS;
    let (year, month, day) = civil_from_days(days);
    let ghost number = day_number(year as int, month as int, day as int);
    if year < 1980 || year > 2107 {
        proof {
            assert forall|fields: DosFields| #[trigger]
                are_reading_fields(reading as int, fields) implies !fit_dos(fields) by {
                let other = day_number(fields.year as int, fields.month as int, fields.day as int);
                assert(other == number) by {
                    assert(other * 86_400 <= seconds < (other + 1) * 86_400);
                }
                crate::civil::law_dates_are_unique(
                    fields.year as int,
                    fields.month as int,
                    fields.day as int,
                    year as int,
                    month as int,
                    day as int,
                );
            }
        }
        return None;
    }
    let hour: u64 = within_day / 3600;
    let minute: u64 = (within_day % 3600) / 60;
    let second: u64 = within_day % 60;
    let fields = DosFields {
        year: year as u16,
        month: month as u8,
        day: day as u8,
        hour: hour as u8,
        minute: minute as u8,
        second: second as u8,
    };
    proof {
        assert(are_reading_fields(reading as int, fields));
        law_dos_fields_round_trip(fields);
    }
    Some(
        (year as u32 - 1980) * 0x200_0000 + month * 0x20_0000 + day * 0x1_0000 + hour as u32 * 0x800
            + minute as u32 * 0x20 + second as u32 / 2,
    )
}

/// Whether DOS fields are within the ranges of a clock and a calendar. A day
/// that its month does not have is taken as running on into the next month.
pub open spec fn are_plausible_fields(fields: DosFields) -> bool {
    &&& 1 <= fields.month <= 12
    &&& 1 <= fields.day <= 31
    &&& fields.hour <= 23
    &&& fields.minute <= 59
    &&& fields.second <= 59
}

/// The reading, in seconds since 1970, that DOS fields stand for.
pub open spec fn dos_reading(fields: DosFields) -> int {
    day_number(fields.year as int, fields.month as int, fields.day as int) * 86_400 + fields.hour
        * 3600 + fields.minute * 60 + fields.second
}

/// The instant that a DOS reading is resolved to in a zone. Zero is no reading.
pub open spec fn instant_of_dos(raw: u32, zone: ZoneView) -> Option<int> {
    let fields = dos_fields_of(raw);
    if raw == 0 || !are_plausible_fields(fields) {
        None
    } else {
        let reading = dos_reading(fields);
        let instant = reading - zone.type_for_reading(reading).offset;
        if instant < 0 {
            None
        } else {
            Some(instant)
        }
    }
}

/// The instant of a packed DOS reading, in Unix seconds.
pub fn dos_time_to_unix(raw: u32, zone: &TimeZone) -> (instant: Option<u64>)
    ensures
        match instant {
            Some(seconds) => instant_of_dos(raw, zone@) == Some(seconds as int),
            None => instant_of_dos(raw, zone@) is None,
        },
{
    if raw == 0 {
        return None;
    }
    let fields = dos_fields(raw);
    if fields.month == 0 || fields.month > 12 || fields.day == 0 || fields.day > 31 || fields.hour
        > 23 || fields.minute > 59 || fields.second > 59 {
        return None;
    }
    let days: u64 = days_from_civil(fields.year as u32, fields.month as u32, fields.day as u32);
    proof {
        law_dos_packing_round_trip(raw);
        assert(days <= 60_000) by {
            lemma_days_by_2107(fields.year as int, fields.month as int, fields.day as int);
        }
    }
    let reading: i64 = (days * DAY_SECONDS + fields.hour as u64 * 3600 + fields.minute as u64 * 60
        + fields.second as u64) as i64;
    let instant: i128 = reading as i128 - zone.offset_for_local(reading) as i128;
    if instant < 0 {
        None
    } else {
        Some(instant as u64)
    }
}

proof fn lemma_days_by_2107(year: int, month: int, day: int)
    requires
        1980 <= year <= 2107,
        1 <= month <= 12,
        1 <= day <= 31,
    ensures
        day_number(year, month, day) <= 60_000,
{
    reveal_with_fuel(crate::civil::days_before_month, 13);
}

proof fn lemma_even_second(days: int, hour: int, minute: int, second: int)
    requires
        0 <= second,
    ensures
        ({
            let reading = days * 86_400 + hour * 3600 + minute * 60 + second;
            reading % 2 == second % 2
        }),
{
    let half = days * 43_200 + hour * 1800 + minute * 30;
    assert(days * 86_400 + hour * 3600 + minute * 60 == 2 * half);
}

/// An instant is stored as the clock shows it, but for an odd second.
pub proof fn law_dos_time_is_the_reading(instant: int, zone: ZoneView, raw: u32)
    requires
        is_dos_time_of(instant, zone, Some(raw)),
    ensures
        ({
            let reading = instant + zone.type_at(instant).offset;
            dos_reading(dos_fields_of(raw)) == reading - reading % 2
        }),
{
    let reading = instant + zone.type_at(instant).offset;
    let fields = choose|fields: DosFields| #[trigger]
        are_reading_fields(reading, fields) && fit_dos(fields) && raw == dos_packed(fields);
    law_dos_fields_round_trip(fields);
    let days = day_number(fields.year as int, fields.month as int, fields.day as int);
    lemma_even_second(days, fields.hour as int, fields.minute as int, fields.second as int);
}

/// An instant stored as a DOS reading and resolved again still reads the same on
/// the clock, where the clock showed an even second.
pub proof fn law_dos_time_keeps_the_reading(instant: int, zone: ZoneView, raw: u32)
    requires
        zone.is_usable(),
        is_plausible(zone),
        is_dos_time_of(instant, zone, Some(raw)),
        (instant + zone.type_at(instant).offset) % 2 == 0,
    ensures
        instant_of_dos(raw, zone) matches Some(back) ==> back + zone.type_at(back).offset == instant
            + zone.type_at(instant).offset,
{
    law_dos_time_is_the_reading(instant, zone, raw);
    law_readings_round_trip(zone, instant);
}

/// Sub-second detail and the odd second that a DOS reading cannot hold.
#[derive(Debug, Clone, Copy, PartialEq, Eq, Structural)]
pub struct TimeRefinement {
    pub add_second: bool,
    pub nanoseconds: u32,
}

/// A moment after 1970.
#[derive(Debug, Clone, Copy, PartialEq, Eq, Structural)]
pub struct UnixTime {
    pub seconds: u64,
    pub nanoseconds: u32,
}

impl UnixTime {
    pub open spec fn total_nanoseconds(self) -> int {
        self.seconds * 1_000_000_000 + self.nanoseconds
    }
}

/// The moment of a present stored timestamp. The Unix epoch is one; a DOS zero
/// is none.
pub fn extracted_system_time(
    family: ArchiveFamily,
    file_time: Option<u32>,
    refinement: Option<TimeRefinement>,
    zone: &TimeZone,
) -> (time: Option<UnixTime>)
    ensures
        ({
            let base = match file_time {
                None => None,
                Some(raw) => match family {
                    ArchiveFamily::Rar50Plus => Some(raw as int),
                    _ => instant_of_dos(raw, zone@),
                },
            };
            let extra = match refinement {
                Some(refinement) => (if refinement.add_second {
                    1_000_000_000int
                } else {
                    0
                }) + refinement.nanoseconds,
                None => 0,
            };
            match base {
                None => time is None,
                Some(seconds) => time matches Some(time) && time.nanoseconds < 1_000_000_000
                    && time.total_nanoseconds() == seconds * 1_000_000_000 + extra,
            }
        }),
{
    let raw: u32 = match file_time {
        Some(raw) => raw,
        None => {
            return None;
        },
    };
    let base: u64 = match family {
        ArchiveFamily::Rar50Plus => raw as u64,
        ArchiveFamily::Rar13 | ArchiveFamily::Rar15To40 => match dos_time_to_unix(raw, zone) {
            Some(seconds) => seconds,
            None => {
                return None;
            },
        },
    };
    proof {
        if family != ArchiveFamily::Rar50Plus {
            law_dos_packing_round_trip(raw);
            let fields = dos_fields_of(raw);
            lemma_days_by_2107(fields.year as int, fields.month as int, fields.day as int);
        }
    }
    match refinement {
        None => Some(UnixTime { seconds: base, nanoseconds: 0 }),
        Some(refinement) => {
            let odd: u64 = if refinement.add_second {
                1
            } else {
                0
            };
            Some(
                UnixTime {
                    seconds: base + odd + (refinement.nanoseconds / 1_000_000_000) as u64,
                    nanoseconds: refinement.nanoseconds % 1_000_000_000,
                },
            )
        },
    }
}

/// The clock's reading, in seconds since 1970, in steps of 100 ns since 1601 as
/// far as 64 bits hold it.
pub fn current_filetime(seconds: u64, nanoseconds: u32) -> (filetime: u64)
    ensures
        filetime == saturated(
            saturated((seconds + FILETIME_UNIX_EPOCH_SECONDS) as nat) as nat
                * FILETIME_TICKS_PER_SECOND as nat + nanoseconds as nat / 100,
        ),
        filetime < u64::MAX ==> filetime == (seconds - day_number(1601, 1, 1) * 86_400) * 10_000_000
            + nanoseconds as int / 100,
{
    proof {
        reveal_with_fuel(crate::civil::days_before_month, 2);
    }
    let sum: u128 = seconds as u128 + FILETIME_UNIX_EPOCH_SECONDS as u128;
    let whole: u128 = if sum > u64::MAX as u128 {
        u64::MAX as u128
    } else {
        sum
    };
    let ticks: u128 = whole * 10_000_000 + (nanoseconds / 100) as u128;
    if ticks > u64::MAX as u128 {
        u64::MAX
    } else {
        ticks as u64
    }
}

/// The modification time a member stores for a file that was last changed this
/// many seconds after 1970: none where 32 bits do not hold it.
pub fn source_unix_mtime(seconds: u64) -> (stored: Option<u32>)
    ensures
        stored == (if seconds > u32::MAX {
            None::<u32>
        } else {
            Some(seconds as u32)
        }),
{
    if seconds > u32::MAX as u64 {
        None
    } else {
        Some(seconds as u32)
    }
}

/// The packed DOS reading a member stores for a file that was last changed this
/// many seconds after 1970: zero where there is none.
pub fn source_dos_mtime(modified: Option<u64>, zone: &TimeZone) -> (packed: u32)
    ensures
        match modified {
            Some(instant) => is_dos_time_of(instant as int, zone@, Some(packed)) || (packed == 0
                && is_dos_time_of(instant as int, zone@, None)),
            None => packed == 0,
        },
{
    match modified {
        Some(instant) => match unix_to_dos_time(instant, zone) {
            Some(packed) => packed,
            None => 0,
        },
        None => 0,
    }
}

/// A date and time of day as text.
pub open spec fn iso_text(
    year: nat,
    month: nat,
    day: nat,
    hour: nat,
    minute: nat,
    second: nat,
) -> Seq<u8> {
    padded_decimal(year, 4) + seq![0x2du8] + padded_decimal(month, 2) + seq![0x2du8]
        + padded_decimal(day, 2) + seq![0x54u8] + padded_decimal(hour, 2) + seq![0x3au8]
        + padded_decimal(minute, 2) + seq![0x3au8] + padded_decimal(second, 2) + seq![0x5au8]
}

/// Whether `text` is the UTC text of a moment: its date and time of day, or
/// its digits where it lies before 1970.
pub open spec fn is_filetime_text(filetime: u64, text: Seq<char>) -> bool {
    let seconds = filetime as int / FILETIME_TICKS_PER_SECOND as int;
    if seconds < FILETIME_UNIX_EPOCH_SECONDS {
        text == ascii_chars(seq![0x30u8, 0x78] + hex(filetime as nat, 16))
    } else {
        exists|year: nat, month: nat, day: nat, hour: nat, minute: nat, second: nat|
            {
                &&& text == ascii_chars(#[trigger] iso_text(year, month, day, hour, minute, second))
                &&& is_date(year as int, month as int, day as int)
                &&& hour < 24 && minute < 60 && second < 60
                &&& day_number(year as int, month as int, day as int) * 86_400 + hour * 3600
                    + minute * 60 + second == seconds - FILETIME_UNIX_EPOCH_SECONDS
            }
    }
}

/// Appends a number and what separates it from the next.
fn push_field(out: &mut Vec<u8>, value: u64, width: usize, separator: u8)
    requires
        is_ascii(old(out)@),
        separator < 128,
    ensures
        final(out)@ == old(out)@ + padded_decimal(value as nat, width as nat) + seq![separator],
        is_ascii(final(out)@),
{
    push_padded_decimal(out, value, width);
    out.push(separator);
    proof {
        lemma_decimal_is_ascii(value as nat);
        let digits = decimal(value as nat);
        let field = padded_decimal(value as nat, width as nat);
        assert forall|i: int| 0 <= i < field.len() implies #[trigger] field[i] < 128 by {
            let padding = field.len() - digits.len();
            if i >= padding {
                assert(field[i] == digits[i - padding]);
            }
        }
        assert(out@ =~= old(out)@ + field + seq![separator]);
        assert forall|i: int| 0 <= i < out@.len() implies #[trigger] out@[i] < 128 by {
            if i < old(out)@.len() {
                assert(out@[i] == old(out)@[i]);
            } else if i < old(out)@.len() + field.len() {
                assert(out@[i] == field[i - old(out)@.len()]);
            }
        }
    }
}

/// A moment as text, in UTC.
pub fn format_filetime_utc(filetime: u64) -> (text: String)
    ensures
        is_filetime_text(filetime, text@),
{
    let seconds: u64 = filetime / FILETIME_TICKS_PER_SECOND;
    let mut out: Vec<u8> = Vec::new();
    if seconds < FILETIME_UNIX_EPOCH_SECONDS {
        out.push(0x30);
        out.push(0x78);
        push_hex(&mut out, filetime, 16);
        proof {
            assert(out@ =~= seq![0x30u8, 0x78] + hex(filetime as nat, 16));
            lemma_hex_is_ascii(filetime as nat, 16);
        }
        return ascii_string(out);
    }
    let unix: u64 = seconds - FILETIME_UNIX_EPOCH_SECONDS;
    let (year, month, day) = civil_from_days(unix / DAY_SECONDS);
    let within_day: u64 = unix % DAY_SECONDS;
    let hour: u64 = within_day / 3600;
    let minute: u64 = (within_day % 3600) / 60;
    let second: u64 = within_day % 60;
    push_field(&mut out, year, 4, 0x2d);
    push_field(&mut out, month as u64, 2, 0x2d);
    push_field(&mut out, day as u64, 2, 0x54);
    push_field(&mut out, hour, 2, 0x3a);
    push_field(&mut out, minute, 2, 0x3a);
    push_field(&mut out, second, 2, 0x5a);
    assert(out@ =~= iso_text(
        year as nat,
        month as nat,
        day as nat,
        hour as nat,
        minute as nat,
        second as nat,
    ));
    ascii_string(out)
}

} // verus!
