//! Time zones, read from TZif files.
//!
//! RAR 1.3 through 4.x store a modification time as a wall-clock reading with
//! no zone. Every reader resolves it against the extracting machine's zone, and
//! needs the offset in force at the time in question.
//!
//! Only what a conversion needs is read: transition instants, the offset in
//! force after each, and whether that is daylight saving. After the last
//! transition a zone stays at its final offset.

use vstd::prelude::*;

verus! {

/// One local time type: an offset from UTC and whether it is daylight saving.
#[derive(Debug, Clone, Copy, PartialEq, Eq, Structural)]
pub struct LocalType {
    pub offset: i32,
    pub is_dst: bool,
}

/// A time zone's transitions, enough to convert in both directions.
#[derive(Debug)]
pub struct TimeZone {
    transitions: Vec<i64>,
    types: Vec<LocalType>,
    indices: Vec<u8>,
}

/// What a zone holds: transition instants in Unix seconds, ascending; the local
/// types; and which of them each transition selects.
#[verifier::ext_equal]
pub struct ZoneView {
    pub transitions: Seq<i64>,
    pub types: Seq<LocalType>,
    pub indices: Seq<u8>,
}

impl ZoneView {
    pub open spec fn is_usable(self) -> bool {
        &&& self.types.len() > 0
        &&& self.indices.len() == self.transitions.len()
        &&& forall|i: int|
            0 <= i < self.indices.len() ==> (#[trigger] self.indices[i]) < self.types.len()
        &&& forall|i: int, k: int|
            0 <= i <= k < self.transitions.len() ==> (#[trigger] self.transitions[i]) <= (
            #[trigger] self.transitions[k])
    }

    /// How many transitions lie at or before an instant.
    pub open spec fn transitions_until(self, instant: int) -> nat {
        count_until(self.transitions, instant)
    }

    /// The type in force before the first transition: the first that is not
    /// daylight saving, or else the first.
    pub open spec fn initial_type(self) -> LocalType {
        first_standard(self.types, self.types[0])
    }

    /// The type in force at an instant.
    pub open spec fn type_at(self, instant: int) -> LocalType {
        let count = self.transitions_until(instant);
        if count == 0 {
            self.initial_type()
        } else {
            self.types[self.indices[count - 1] as int]
        }
    }
}

/// How many of ascending instants lie at or before `instant`.
pub open spec fn count_until(transitions: Seq<i64>, instant: int) -> nat
    decreases transitions.len(),
{
    if transitions.len() == 0 {
        0
    } else if transitions.last() <= instant {
        transitions.len()
    } else {
        count_until(transitions.drop_last(), instant)
    }
}

/// The first type that is not daylight saving, or `otherwise`.
pub open spec fn first_standard(types: Seq<LocalType>, otherwise: LocalType) -> LocalType
    decreases types.len(),
{
    if types.len() == 0 {
        otherwise
    } else if !types[0].is_dst {
        types[0]
    } else {
        first_standard(types.skip(1), otherwise)
    }
}

/// The number whose big-endian digits in base 256 are `digits`.
pub open spec fn be_value(digits: Seq<u8>) -> nat
    decreases digits.len(),
{
    if digits.len() == 0 {
        0
    } else {
        256 * be_value(digits.drop_last()) + digits.last() as nat
    }
}

/// The bytes from `at` on.
pub open spec fn piece(bytes: Seq<u8>, at: int, count: int) -> Seq<u8> {
    bytes.subrange(at, at + count)
}

/// A signed number of `range` values in all.
pub open spec fn signed(value: nat, range: nat) -> int {
    if 2 * value >= range {
        value - range
    } else {
        value as int
    }
}

/// The counts of a TZif header.
pub struct HeaderView {
    pub version: u8,
    pub isutcnt: nat,
    pub isstdcnt: nat,
    pub leapcnt: nat,
    pub timecnt: nat,
    pub typecnt: nat,
    pub charcnt: nat,
}

/// The length of a header.
pub const HEADER_LEN: usize = 44;

pub open spec fn magic() -> Seq<u8> {
    seq![0x54u8, 0x5a, 0x69, 0x66]
}

/// The header at `at`, where there is one.
pub open spec fn header_at(bytes: Seq<u8>, at: int) -> Option<HeaderView> {
    if at + HEADER_LEN > bytes.len() || piece(bytes, at, 4) != magic() {
        None
    } else {
        Some(
            HeaderView {
                version: bytes[at + 4],
                isutcnt: be_value(piece(bytes, at + 20, 4)),
                isstdcnt: be_value(piece(bytes, at + 24, 4)),
                leapcnt: be_value(piece(bytes, at + 28, 4)),
                timecnt: be_value(piece(bytes, at + 32, 4)),
                typecnt: be_value(piece(bytes, at + 36, 4)),
                charcnt: be_value(piece(bytes, at + 40, 4)),
            },
        )
    }
}

impl HeaderView {
    /// Where the data behind a header at the front ends, with times of `width`
    /// bytes.
    pub open spec fn data_end(self, width: nat) -> nat {
        HEADER_LEN as nat + self.timecnt * width + self.timecnt + self.typecnt * 6 + self.charcnt
            + self.leapcnt * (width + 4) + self.isstdcnt + self.isutcnt
    }
}

pub open spec fn transition_at(bytes: Seq<u8>, at: int, width: nat) -> i64 {
    if width == 4 {
        signed(be_value(piece(bytes, at, 4)), 0x1_0000_0000) as i64
    } else {
        signed(be_value(piece(bytes, at, 8)), 0x1_0000_0000_0000_0000) as i64
    }
}

pub open spec fn local_type_at(bytes: Seq<u8>, at: int) -> LocalType {
    LocalType {
        offset: signed(be_value(piece(bytes, at, 4)), 0x1_0000_0000) as i32,
        is_dst: bytes[at + 4] != 0,
    }
}

/// The zone of a block of data at `start`.
pub open spec fn block_zone(
    bytes: Seq<u8>,
    header: HeaderView,
    start: int,
    width: nat,
) -> ZoneView {
    let indices_at = start + header.timecnt * width;
    let types_at = indices_at + header.timecnt;
    ZoneView {
        transitions: Seq::new(
            header.timecnt,
            |i: int| transition_at(bytes, start + i * width, width),
        ),
        indices: Seq::new(header.timecnt, |i: int| bytes[indices_at + i]),
        types: Seq::new(header.typecnt, |i: int| local_type_at(bytes, types_at + 6 * i)),
    }
}

/// The zone that a block holds: one that fits in the file, with a type, whose
/// indices select types and whose transitions ascend.
pub open spec fn parsed_block(
    bytes: Seq<u8>,
    header: HeaderView,
    start: int,
    width: nat,
) -> Option<ZoneView> {
    let end = start + header.timecnt * width + header.timecnt + 6 * header.typecnt;
    let zone = block_zone(bytes, header, start, width);
    if end <= bytes.len() && zone.is_usable() {
        Some(zone)
    } else {
        None
    }
}

/// The zone that a TZif file holds. A file of version two or later repeats
/// everything in a second block with 64-bit times, which is the one to go by.
pub open spec fn parsed_zone(bytes: Seq<u8>) -> Option<ZoneView> {
    match header_at(bytes, 0) {
        None => None,
        Some(header) => if header.version >= 0x32 {
            let second = header.data_end(4) as int;
            match header_at(bytes, second) {
                None => None,
                Some(header) => parsed_block(bytes, header, second + HEADER_LEN, 8),
            }
        } else {
            parsed_block(bytes, header, HEADER_LEN as int, 4)
        },
    }
}

#[derive(Debug, Clone, Copy)]
struct Header {
    version: u8,
    isutcnt: u64,
    isstdcnt: u64,
    leapcnt: u64,
    timecnt: u64,
    typecnt: u64,
    charcnt: u64,
}

impl Header {
    spec fn has_view(self, view: HeaderView) -> bool {
        &&& self.version == view.version
        &&& self.isutcnt == view.isutcnt
        &&& self.isstdcnt == view.isstdcnt
        &&& self.leapcnt == view.leapcnt
        &&& self.timecnt == view.timecnt
        &&& self.typecnt == view.typecnt
        &&& self.charcnt == view.charcnt
        &&& self.isutcnt <= u32::MAX
        &&& self.isstdcnt <= u32::MAX
        &&& self.leapcnt <= u32::MAX
        &&& self.timecnt <= u32::MAX
        &&& self.typecnt <= u32::MAX
        &&& self.charcnt <= u32::MAX
    }

    fn parse(bytes: &[u8], at: u64) -> (header: Option<Header>)
        ensures
            match header {
                Some(header) => header_at(bytes@, at as int) matches Some(view) && header.has_view(
                    view,
                ),
                None => header_at(bytes@, at as int) is None,
            },
    {
        let len: usize = bytes.len();
        if at as u128 + HEADER_LEN as u128 > len as u128 {
            return None;
        }
        let at: usize = at as usize;
        let ghost start = piece(bytes@, at as int, 4);
        if bytes[at] != 0x54 || bytes[at + 1] != 0x5a || bytes[at + 2] != 0x69 || bytes[at + 3]
            != 0x66 {
            proof {
                assert(start[0] == bytes@[at as int]);
                assert(start[1] == bytes@[at + 1]);
                assert(start[2] == bytes@[at + 2]);
                assert(start[3] == bytes@[at + 3]);
            }
            return None;
        }
        assert(start =~= magic());
        Some(
            Header {
                version: bytes[at + 4],
                isutcnt: read_be(bytes, at + 20, 4),
                isstdcnt: read_be(bytes, at + 24, 4),
                leapcnt: read_be(bytes, at + 28, 4),
                timecnt: read_be(bytes, at + 32, 4),
                typecnt: read_be(bytes, at + 36, 4),
                charcnt: read_be(bytes, at + 40, 4),
            },
        )
    }

    /// Where the data behind a header at the front ends, with 32-bit times.
    fn data_end(&self, Ghost(view): Ghost<HeaderView>) -> (end: u64)
        requires
            self.has_view(view),
        ensures
            end == view.data_end(4),
            end <= 0x80_0000_0000,
    {
        HEADER_LEN as u64 + self.timecnt * 4 + self.timecnt + self.typecnt * 6 + self.charcnt
            + self.leapcnt * 8 + self.isstdcnt + self.isutcnt
    }
}

/// The number that `count` big-endian bytes hold.
fn read_be(bytes: &[u8], at: usize, count: usize) -> (value: u64)
    requires
        count == 4 || count == 8,
        at + count <= bytes@.len(),
    ensures
        value == be_value(piece(bytes@, at as int, count as int)),
        count == 4 ==> value <= u32::MAX,
{
    let len: usize = bytes.len();
    let mut value: u64 = 0;
    let mut i: usize = 0;
    assert(piece(bytes@, at as int, 0) =~= Seq::<u8>::empty());
    proof {
        reveal_with_fuel(digit_range, 9);
    }
    while i < count
        invariant
            count == 4 || count == 8,
            i <= count,
            at + count <= len == bytes@.len(),
            value == be_value(piece(bytes@, at as int, i as int)),
            value < digit_range(i as nat),
            digit_range(4) == 0x1_0000_0000,
            digit_range(7) == 0x100_0000_0000_0000,
        decreases count - i,
    {
        proof {
            let next = piece(bytes@, at as int, i + 1);
            assert(next.drop_last() =~= piece(bytes@, at as int, i as int));
            assert(next.last() == bytes@[at + i]);
            lemma_digit_range_grows(i as nat, 7);
        }
        value = value * 256 + bytes[at + i] as u64;
        i = i + 1;
    }
    value
}

/// The number of values that `count` bytes hold.
spec fn digit_range(count: nat) -> nat
    decreases count,
{
    if count == 0 {
        1
    } else {
        256 * digit_range((count - 1) as nat)
    }
}

proof fn lemma_digit_range_grows(few: nat, many: nat)
    requires
        few <= many,
    ensures
        digit_range(few) <= digit_range(many),
    decreases many,
{
    if few < many {
        lemma_digit_range_grows(few, (many - 1) as nat);
    }
}

fn signed_32(value: u64) -> (number: i32)
    requires
        value <= u32::MAX,
    ensures
        number == signed(value as nat, 0x1_0000_0000),
{
    if value >= 0x8000_0000 {
        (value as i64 - 0x1_0000_0000) as i32
    } else {
        value as i32
    }
}

fn signed_64(value: u64) -> (number: i64)
    ensures
        number == signed(value as nat, 0x1_0000_0000_0000_0000),
{
    if value >= 0x8000_0000_0000_0000 {
        (value as i128 - 0x1_0000_0000_0000_0000) as i64
    } else {
        value as i64
    }
}

impl View for TimeZone {
    type V = ZoneView;

    closed spec fn view(&self) -> ZoneView {
        ZoneView {
            transitions: self.transitions@,
            types: self.types@,
            indices: self.indices@,
        }
    }
}

pub open spec fn zone_of(zone: Option<TimeZone>) -> Option<ZoneView> {
    match zone {
        Some(zone) => Some(zone@),
        None => None,
    }
}

proof fn lemma_next_multiple(i: nat, width: nat)
    ensures
        (i + 1) * width == i * width + width,
{
    assert((i + 1) * width == i * width + width) by (nonlinear_arith);
}

proof fn lemma_multiple_within(i: nat, count: nat, width: nat)
    requires
        i < count,
    ensures
        i * width + width <= count * width,
{
    assert(i * width + width <= count * width) by (nonlinear_arith)
        requires
            i < count,
    ;
}

impl TimeZone {
    #[verifier::type_invariant]
    spec fn well_formed(self) -> bool {
        self@.is_usable()
    }

    /// The zone where every offset is zero, used when nothing else resolves.
    pub fn utc() -> (zone: TimeZone)
        ensures
            zone@.transitions == Seq::<i64>::empty(),
            zone@.types == seq![(LocalType { offset: 0, is_dst: false })],
    {
        let mut types: Vec<LocalType> = Vec::new();
        types.push(LocalType { offset: 0, is_dst: false });
        let zone = TimeZone { transitions: Vec::new(), types, indices: Vec::new() };
        assert(zone@.types =~= seq![(LocalType { offset: 0, is_dst: false })]);
        assert(zone@.transitions =~= Seq::<i64>::empty());
        zone
    }

    /// Whether the zone has no transitions at all.
    pub fn is_fixed(&self) -> (answer: bool)
        ensures
            answer == (self@.transitions.len() == 0),
    {
        self.transitions.len() == 0
    }

    /// The local types of the zone.
    pub fn types(&self) -> (types: &[LocalType])
        ensures
            types@ == self@.types,
    {
        self.types.as_slice()
    }

    fn parse_block(
        bytes: &[u8],
        header: &Header,
        start: u64,
        wide: bool,
        Ghost(view): Ghost<HeaderView>,
    ) -> (zone: Option<TimeZone>)
        requires
            header.has_view(view),
            start <= 0x100_0000_0000,
        ensures
            zone_of(zone) == parsed_block(bytes@, view, start as int, if wide {
                8
            } else {
                4
            }),
    {
        let width: u64 = if wide {
            8
        } else {
            4
        };
        let ghost stride = width as nat;
        let ghost expected = block_zone(bytes@, view, start as int, stride);
        let len: usize = bytes.len();
        let times: u64 = if wide {
            header.timecnt * 8
        } else {
            header.timecnt * 4
        };
        assert(times == view.timecnt * stride) by {
            if wide {
                assert(view.timecnt * stride == view.timecnt * 8);
            } else {
                assert(view.timecnt * stride == view.timecnt * 4);
            }
        }
        let end: u64 = start + times + header.timecnt + 6 * header.typecnt;
        if end > len as u64 {
            return None;
        }
        let indices_at: u64 = start + times;
        let types_at: u64 = indices_at + header.timecnt;
        let mut transitions: Vec<i64> = Vec::new();
        let mut pos: u64 = start;
        let mut i: u64 = 0;
        while i < header.timecnt
            invariant
                header.has_view(view),
                wide ==> width == 8,
                !wide ==> width == 4,
                stride == width,
                i <= header.timecnt,
                pos == start + i * stride,
                indices_at == start + view.timecnt * stride,
                indices_at <= len == bytes@.len(),
                expected == block_zone(bytes@, view, start as int, stride),
                transitions@.len() == i,
                forall|k: int|
                    0 <= k < i ==> #[trigger] transitions@[k] == expected.transitions[k],
            decreases header.timecnt - i,
        {
            proof {
                lemma_next_multiple(i as nat, stride);
                lemma_multiple_within(i as nat, view.timecnt, stride);
            }
            let at: usize = pos as usize;
            let instant: i64 = if wide {
                signed_64(read_be(bytes, at, 8))
            } else {
                signed_32(read_be(bytes, at, 4)) as i64
            };
            assert(instant == transition_at(bytes@, start + i * stride, stride));
            assert(instant == expected.transitions[i as int]);
            transitions.push(instant);
            pos = pos + width;
            i = i + 1;
        }
        let indices = crate::bytes::copy_bytes(
            vstd::slice::slice_subrange(bytes, indices_at as usize, types_at as usize),
        );
        let mut types: Vec<LocalType> = Vec::new();
        let mut i: u64 = 0;
        while i < header.typecnt
            invariant
                header.has_view(view),
                i <= header.typecnt,
                types_at == indices_at + header.timecnt,
                indices_at == start + view.timecnt * stride,
                types_at + 6 * header.typecnt <= len,
                len == bytes@.len(),
                expected == block_zone(bytes@, view, start as int, stride),
                types@.len() == i,
                forall|k: int| 0 <= k < i ==> #[trigger] types@[k] == expected.types[k],
            decreases header.typecnt - i,
        {
            let at: usize = (types_at + 6 * i) as usize;
            let local = LocalType {
                offset: signed_32(read_be(bytes, at, 4)),
                is_dst: bytes[at + 4] != 0,
            };
            assert(local == local_type_at(bytes@, types_at + 6 * i));
            assert(local == expected.types[i as int]);
            types.push(local);
            i = i + 1;
        }
        proof {
            assert(transitions@ =~= expected.transitions);
            assert(types@ =~= expected.types);
            assert(indices@ =~= expected.indices);
        }
        let ghost outcome = parsed_block(bytes@, view, start as int, stride);
        if types.len() == 0 {
            return None;
        }
        let mut i: usize = 0;
        while i < indices.len()
            invariant
                outcome == parsed_block(bytes@, view, start as int, if wide { 8 } else { 4 }),
                !expected.is_usable() ==> outcome is None,
                i <= indices@.len(),
                indices@ == expected.indices,
                types@ == expected.types,
                forall|k: int| 0 <= k < i ==> (#[trigger] indices@[k]) < types@.len(),
            decreases indices@.len() - i,
        {
            if indices[i] as usize >= types.len() {
                assert(!(expected.indices[i as int] < expected.types.len()));
                return None;
            }
            i = i + 1;
        }
        let mut i: usize = 1;
        while i < transitions.len()
            invariant
                outcome == parsed_block(bytes@, view, start as int, if wide { 8 } else { 4 }),
                !expected.is_usable() ==> outcome is None,
                1 <= i,
                i <= transitions@.len() || transitions@.len() == 0,
                transitions@ == expected.transitions,
                forall|j: int, k: int|
                    0 <= j <= k < i && k < transitions@.len() ==> (#[trigger] transitions@[j]) <= (
                    #[trigger] transitions@[k]),
            decreases transitions@.len() - i,
        {
            if transitions[i - 1] > transitions[i] {
                proof {
                    assert(expected.transitions[i - 1] > expected.transitions[i as int]);
                }
                return None;
            }
            i = i + 1;
        }
        Some(TimeZone { transitions, types, indices })
    }

    /// Reads a TZif file, preferring its 64-bit block where there is one.
    pub fn parse(bytes: &[u8]) -> (zone: Option<TimeZone>)
        ensures
            zone_of(zone) == parsed_zone(bytes@),
    {
        let header = match Header::parse(bytes, 0) {
            Some(header) => header,
            None => {
                return None;
            },
        };
        let ghost view = header_at(bytes@, 0)->0;
        if header.version >= 0x32 {
            let second: u64 = header.data_end(Ghost(view));
            let header = match Header::parse(bytes, second) {
                Some(header) => header,
                None => {
                    return None;
                },
            };
            let ghost view = header_at(bytes@, second as int)->0;
            Self::parse_block(bytes, &header, second + HEADER_LEN as u64, true, Ghost(view))
        } else {
            Self::parse_block(bytes, &header, HEADER_LEN as u64, false, Ghost(view))
        }
    }
}

/// The seconds of a day.
pub const DAY: i64 = 86_400;

/// Adds a type that is not there yet.
pub open spec fn with_type(found: Seq<LocalType>, local: LocalType) -> Seq<LocalType> {
    if found.contains(local) {
        found
    } else {
        found.push(local)
    }
}

/// The types of `candidates` under which a reading names an instant that
/// really has that type.
pub open spec fn reachable(
    zone: ZoneView,
    reading: int,
    candidates: Seq<LocalType>,
) -> Seq<LocalType>
    decreases candidates.len(),
{
    if candidates.len() == 0 {
        Seq::empty()
    } else {
        let last = candidates.last();
        let earlier = reachable(zone, reading, candidates.drop_last());
        if zone.type_at(reading - last.offset) == last {
            earlier.push(last)
        } else {
            earlier
        }
    }
}

impl ZoneView {
    /// The types plausibly in force around a wall-clock reading. A day either
    /// side covers every real transition.
    pub open spec fn candidates(self, reading: int) -> Seq<LocalType> {
        with_type(
            with_type(seq![self.type_at(reading - DAY)], self.type_at(reading)),
            self.type_at(reading + DAY),
        )
    }

    /// The type that a wall-clock reading is resolved with. Where two instants
    /// have the reading, standard time wins. Where none has, standard time is
    /// taken all the same.
    pub open spec fn type_for_reading(self, reading: int) -> LocalType {
        let candidates = self.candidates(reading);
        let found = reachable(self, reading, candidates);
        if found.len() > 0 {
            first_standard(found, found[0])
        } else {
            first_standard(candidates, self.type_at(reading))
        }
    }
}

/// The first type that is not daylight saving, or `otherwise`.
fn pick_standard(types: &Vec<LocalType>, otherwise: LocalType) -> (local: LocalType)
    ensures
        local == first_standard(types@, otherwise),
{
    let mut i: usize = 0;
    assert(types@.skip(0) =~= types@);
    while i < types.len()
        invariant
            i <= types@.len(),
            first_standard(types@, otherwise) == first_standard(types@.skip(i as int), otherwise),
        decreases types@.len() - i,
    {
        if !types[i].is_dst {
            return types[i];
        }
        assert(types@.skip(i as int).skip(1) =~= types@.skip(i + 1));
        i = i + 1;
    }
    otherwise
}

fn push_new(found: &mut Vec<LocalType>, local: LocalType)
    ensures
        final(found)@ == with_type(old(found)@, local),
{
    let mut i: usize = 0;
    while i < found.len()
        invariant
            i <= found@.len(),
            found@ == old(found)@,
            forall|k: int| 0 <= k < i ==> #[trigger] found@[k] != local,
        decreases found@.len() - i,
    {
        if found[i] == local {
            assert(found@[i as int] == local);
            return;
        }
        i = i + 1;
    }
    found.push(local);
}

impl TimeZone {
    fn type_at(&self, instant: i128) -> (local: LocalType)
        ensures
            local == self@.type_at(instant as int),
    {
        proof {
            use_type_invariant(self);
        }
        let mut count: usize = self.transitions.len();
        assert(self.transitions@.take(count as int) =~= self.transitions@);
        while count > 0
            invariant
                count <= self.transitions@.len(),
                count_until(self.transitions@, instant as int) == count_until(
                    self.transitions@.take(count as int),
                    instant as int,
                ),
                self@.is_usable(),
            decreases count,
        {
            if self.transitions[count - 1] as i128 <= instant {
                let at: usize = self.indices[count - 1] as usize;
                return self.types[at];
            }
            assert(self.transitions@.take(count as int).drop_last() =~= self.transitions@.take(
                count - 1,
            ));
            count = count - 1;
        }
        pick_standard(&self.types, self.types[0])
    }

    /// The offset in force at an instant, in seconds east of UTC.
    pub fn offset_at(&self, unix_seconds: i64) -> (offset: i32)
        ensures
            offset == self@.type_at(unix_seconds as int).offset,
    {
        self.type_at(unix_seconds as i128).offset
    }

    /// The offset that turns a wall-clock reading back into an instant.
    pub fn offset_for_local(&self, local_seconds: i64) -> (offset: i32)
        ensures
            offset == self@.type_for_reading(local_seconds as int).offset,
    {
        let reading: i128 = local_seconds as i128;
        let mut candidates: Vec<LocalType> = Vec::new();
        candidates.push(self.type_at(reading - DAY as i128));
        assert(candidates@ =~= seq![self@.type_at(reading - DAY)]);
        push_new(&mut candidates, self.type_at(reading));
        push_new(&mut candidates, self.type_at(reading + DAY as i128));
        assert(candidates@ == self@.candidates(reading as int));
        let mut found: Vec<LocalType> = Vec::new();
        let mut i: usize = 0;
        assert(candidates@.take(0) =~= Seq::<LocalType>::empty());
        while i < candidates.len()
            invariant
                i <= candidates@.len(),
                i64::MIN <= reading <= i64::MAX,
                found@ == reachable(self@, reading as int, candidates@.take(i as int)),
            decreases candidates@.len() - i,
        {
            let candidate = candidates[i];
            proof {
                assert(candidates@.take(i + 1).drop_last() =~= candidates@.take(i as int));
                assert(candidates@.take(i + 1).last() == candidate);
            }
            if self.type_at(reading - candidate.offset as i128) == candidate {
                found.push(candidate);
            }
            i = i + 1;
        }
        assert(candidates@.take(i as int) =~= candidates@);
        if found.len() > 0 {
            pick_standard(&found, found[0]).offset
        } else {
            pick_standard(&candidates, self.type_at(reading)).offset
        }
    }
}

proof fn lemma_count(transitions: Seq<i64>, instant: int)
    requires
        forall|i: int, k: int|
            0 <= i <= k < transitions.len() ==> (#[trigger] transitions[i]) <= (
            #[trigger] transitions[k]),
    ensures
        count_until(transitions, instant) <= transitions.len(),
        forall|i: int|
            0 <= i < count_until(transitions, instant) ==> #[trigger] transitions[i] <= instant,
        forall|i: int|
            count_until(transitions, instant) <= i < transitions.len() ==> #[trigger]
                transitions[i] > instant,
    decreases transitions.len(),
{
    if transitions.len() > 0 {
        let earlier = transitions.drop_last();
        if transitions.last() > instant {
            assert forall|i: int, k: int| 0 <= i <= k < earlier.len() implies (
            #[trigger] earlier[i]) <= (#[trigger] earlier[k]) by {
                assert(earlier[i] == transitions[i] && earlier[k] == transitions[k]);
            }
            lemma_count(earlier, instant);
            assert forall|i: int|
                0 <= i < count_until(transitions, instant) implies #[trigger] transitions[i]
                <= instant by {
                assert(earlier[i] == transitions[i]);
            }
            assert forall|i: int|
                count_until(transitions, instant) <= i < transitions.len() implies #[trigger]
            transitions[i] > instant by {
                if i < earlier.len() {
                    assert(earlier[i] == transitions[i]);
                }
            }
        } else {
            assert forall|i: int| 0 <= i < transitions.len() implies #[trigger] transitions[i]
                <= instant by {
                assert(transitions[i] <= transitions[transitions.len() - 1]);
            }
        }
    }
}

/// Whether a zone is one as there are on Earth: offsets within a day, and
/// transitions at least two days apart.
pub open spec fn is_plausible(zone: ZoneView) -> bool {
    &&& forall|i: int|
        0 <= i < zone.types.len() ==> -DAY <= (#[trigger] zone.types[i]).offset <= DAY
    &&& forall|i: int, k: int|
        0 <= i < k < zone.transitions.len() ==> (#[trigger] zone.transitions[i]) + 2 * DAY <= (
        #[trigger] zone.transitions[k])
}

proof fn lemma_first_standard(types: Seq<LocalType>, otherwise: LocalType)
    ensures
        types.contains(first_standard(types, otherwise)) || first_standard(types, otherwise)
            == otherwise,
    decreases types.len(),
{
    if types.len() > 0 {
        if !types[0].is_dst {
            assert(types.contains(types[0]));
        } else {
            let rest = types.skip(1);
            lemma_first_standard(rest, otherwise);
            let picked = first_standard(rest, otherwise);
            if rest.contains(picked) {
                let at = choose|i: int| 0 <= i < rest.len() && rest[i] == picked;
                assert(types[at + 1] == picked);
            }
        }
    }
}

proof fn lemma_reachable(
    zone: ZoneView,
    reading: int,
    candidates: Seq<LocalType>,
    local: LocalType,
)
    ensures
        reachable(zone, reading, candidates).contains(local) <==> candidates.contains(local)
            && zone.type_at(reading - local.offset) == local,
    decreases candidates.len(),
{
    if candidates.len() > 0 {
        let earlier = candidates.drop_last();
        let last = candidates.last();
        lemma_reachable(zone, reading, earlier, local);
        let found = reachable(zone, reading, earlier);
        if candidates.contains(local) {
            let at = choose|i: int| 0 <= i < candidates.len() && candidates[i] == local;
            if at < earlier.len() {
                assert(earlier[at] == local);
            }
        }
        if earlier.contains(local) {
            let at = choose|i: int| 0 <= i < earlier.len() && earlier[i] == local;
            assert(candidates[at] == local);
        }
        assert(candidates[candidates.len() - 1] == last);
        if zone.type_at(reading - last.offset) == last {
            let more = found.push(last);
            assert(more[found.len() as int] == last);
            if found.contains(local) {
                let at = choose|i: int| 0 <= i < found.len() && found[i] == local;
                assert(more[at] == local);
            }
            if more.contains(local) {
                let at = choose|i: int| 0 <= i < more.len() && more[i] == local;
                if at < found.len() {
                    assert(found[at] == local);
                }
            }
        }
    }
}

/// Both directions agree: the instant that a reading is resolved to still
/// reads the same on the clock. In the hour a zone repeats it need not be the
/// instant that the reading was taken at.
pub proof fn law_readings_round_trip(zone: ZoneView, instant: int)
    requires
        zone.is_usable(),
        is_plausible(zone),
    ensures
        ({
            let reading = instant + zone.type_at(instant).offset;
            let back = reading - zone.type_for_reading(reading).offset;
            back + zone.type_at(back).offset == reading
        }),
{
    let own = zone.type_at(instant);
    let reading = instant + own.offset;
    let early = reading - DAY;
    let late = reading + DAY;
    lemma_first_standard(zone.types, zone.types[0]);
    lemma_count(zone.transitions, instant);
    lemma_count(zone.transitions, early);
    lemma_count(zone.transitions, late);
    let at_early = zone.transitions_until(early) as int;
    let at_late = zone.transitions_until(late) as int;
    let at_own = zone.transitions_until(instant) as int;
    assert(zone.types.contains(own)) by {
        if at_own > 0 {
            assert(zone.types[zone.indices[at_own - 1] as int] == own);
        } else {
            assert(zone.types[0] == zone.types[0]);
        }
    }
    assert(early <= instant <= late);
    assert(at_early <= at_own) by {
        if at_early > at_own {
            assert(zone.transitions[at_own] <= early);
            assert(zone.transitions[at_own] > instant);
        }
    }
    assert(at_own <= at_late) by {
        if at_own > at_late {
            assert(zone.transitions[at_late] <= instant);
            assert(zone.transitions[at_late] > late);
        }
    }
    assert(at_late <= at_early + 1) by {
        if at_late > at_early + 1 {
            assert(zone.transitions[at_early] > early);
            assert(zone.transitions[at_early + 1] <= late);
        }
    }
    assert(own == zone.type_at(early) || own == zone.type_at(late));
    let first = seq![zone.type_at(early)];
    let second = with_type(first, zone.type_at(reading));
    let candidates = zone.candidates(reading);
    assert(first[0] == zone.type_at(early));
    assert(second[0] == zone.type_at(early));
    assert(candidates[0] == zone.type_at(early));
    assert(candidates.contains(zone.type_at(late))) by {
        if second.contains(zone.type_at(late)) {
        } else {
            assert(candidates[second.len() as int] == zone.type_at(late));
        }
    }
    assert(candidates.contains(own));
    lemma_reachable(zone, reading, candidates, own);
    let found = reachable(zone, reading, candidates);
    let at = choose|i: int| 0 <= i < found.len() && found[i] == own;
    lemma_first_standard(found, found[0]);
    let picked = first_standard(found, found[0]);
    assert(found.contains(picked)) by {
        assert(found[0] == found[0]);
    }
    lemma_reachable(zone, reading, candidates, picked);
}

/// Which file holds the machine's zone.
#[derive(Debug)]
pub enum ZoneFile {
    /// The system's own setting.
    System,
    /// A file by its full path.
    Absolute(Vec<u8>),
    /// A file below the database directory.
    Named(Vec<u8>),
    /// No file at all.
    Nowhere,
}

/// Whether `name` from `start` up to `end` is one part between slashes.
pub open spec fn is_part(name: Seq<u8>, start: int, end: int) -> bool {
    &&& 0 <= start <= end <= name.len()
    &&& start == 0 || name[start - 1] == 0x2f
    &&& end == name.len() || name[end] == 0x2f
    &&& forall|i: int| start <= i < end ==> #[trigger] name[i] != 0x2f
}

/// Whether a part could lead out of the directory, or is empty.
pub open spec fn is_stray(name: Seq<u8>, start: int, end: int) -> bool {
    ||| end == start
    ||| end == start + 1 && name[start] == 0x2e
    ||| end == start + 2 && name[start] == 0x2e && name[start + 1] == 0x2e
}

/// Whether every part of a name leads down.
pub open spec fn leads_down(name: Seq<u8>) -> bool {
    forall|start: int, end: int| #[trigger]
        is_part(name, start, end) ==> !is_stray(name, start, end)
}

/// A setting without the colon that it may start with.
pub open spec fn without_colon(setting: Seq<u8>) -> Seq<u8> {
    if setting.len() > 0 && setting[0] == 0x3a {
        setting.skip(1)
    } else {
        setting
    }
}

/// Where a zone setting leads.
pub open spec fn leads_to(setting: Option<Seq<u8>>, file: ZoneFile) -> bool {
    match setting {
        None => file is System,
        Some(setting) => {
            let name = without_colon(setting);
            if name.len() == 0 {
                file is Nowhere
            } else if name[0] == 0x2f {
                file matches ZoneFile::Absolute(path) && path@ == name
            } else if leads_down(name) {
                file matches ZoneFile::Named(path) && path@ == name
            } else {
                file is Nowhere
            }
        },
    }
}

fn is_downward(name: &[u8]) -> (answer: bool)
    ensures
        answer == leads_down(name@),
{
    let len: usize = name.len();
    let mut start: usize = 0;
    let mut at: usize = 0;
    loop
        invariant
            start <= at <= len == name@.len(),
            start == 0 || name@[start - 1] == 0x2f,
            forall|i: int| start <= i < at ==> #[trigger] name@[i] != 0x2f,
            forall|s: int, e: int|
                e < start && #[trigger] is_part(name@, s, e) ==> !is_stray(name@, s, e),
        decreases len - at,
    {
        if at == len || name[at] == 0x2f {
            assert(is_part(name@, start as int, at as int));
            let count: usize = at - start;
            if count == 0 || (count == 1 && name[start] == 0x2e) || (count == 2 && name[start]
                == 0x2e && name[start + 1] == 0x2e) {
                assert(is_stray(name@, start as int, at as int));
                return false;
            }
            assert forall|s: int, e: int|
                e < at + 1 && #[trigger] is_part(name@, s, e) implies !is_stray(name@, s, e) by {
                if e >= start {
                    if s < start {
                        assert(name@[start - 1] == 0x2f);
                    } else if s > start {
                        assert(name@[s - 1] == 0x2f);
                    } else if e < at {
                        assert(name@[e] == 0x2f);
                    }
                }
            }
            if at == len {
                return true;
            }
            start = at + 1;
        }
        at = at + 1;
    }
}

/// Finds which file holds the machine's zone, from the value of its setting.
/// A name that could walk out of the database directory leads nowhere.
pub fn zone_file(setting: Option<&[u8]>) -> (file: ZoneFile)
    ensures
        leads_to(
            match setting {
                Some(setting) => Some(setting@),
                None => None,
            },
            file,
        ),
{
    let setting = match setting {
        Some(setting) => setting,
        None => {
            return ZoneFile::System;
        },
    };
    let name = if setting.len() > 0 && setting[0] == 0x3a {
        vstd::slice::slice_subrange(setting, 1, setting.len())
    } else {
        setting
    };
    assert(name@ =~= without_colon(setting@));
    if name.len() == 0 {
        return ZoneFile::Nowhere;
    }
    if name[0] == 0x2f {
        return ZoneFile::Absolute(crate::bytes::copy_bytes(name));
    }
    if is_downward(name) {
        ZoneFile::Named(crate::bytes::copy_bytes(name))
    } else {
        ZoneFile::Nowhere
    }
}

} // verus!
