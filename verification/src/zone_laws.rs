//! How a zone lies in a TZif file.

use vstd::prelude::*;

#[allow(unused_imports)]
use crate::tzif::{
    be_value, block_zone, header_at, is_part, is_stray, leads_to, local_type_at, magic, parsed_zone,
    piece, transition_at, HeaderView, ZoneFile, ZoneView,
};

verus! {

/// The number in four bytes of a file, the highest first.
pub open spec fn four_at(bytes: Seq<u8>, at: int) -> int {
    16_777_216 * bytes[at] + 65_536 * bytes[at + 1] + 256 * bytes[at + 2] + bytes[at + 3]
}

/// The number in four bytes of a file, which may be negative.
pub open spec fn signed_four_at(bytes: Seq<u8>, at: int) -> int {
    if bytes[at] < 128 {
        four_at(bytes, at)
    } else {
        four_at(bytes, at) - 0x1_0000_0000
    }
}

/// The number in eight bytes of a file, which may be negative.
pub open spec fn signed_eight_at(bytes: Seq<u8>, at: int) -> int {
    0x1_0000_0000 * signed_four_at(bytes, at) + four_at(bytes, at + 4)
}

/// Whether a block starts here.
pub open spec fn starts_block(bytes: Seq<u8>, at: int) -> bool {
    &&& at + 44 <= bytes.len()
    &&& bytes[at] == 0x54 && bytes[at + 1] == 0x5a && bytes[at + 2] == 0x69 && bytes[at + 3] == 0x66
}

/// Whether a zone lies behind the header at this place, with times so wide: first the times
/// of its transitions, next a byte for each that names its type, and six for each type.
pub open spec fn holds_zone(bytes: Seq<u8>, at: int, wide: bool, zone: ZoneView) -> bool {
    let width: int = if wide { 8 } else { 4 };
    let times = zone.transitions.len();
    &&& starts_block(bytes, at)
    &&& four_at(bytes, at + 32) == times
    &&& four_at(bytes, at + 36) == zone.types.len()
    &&& at + 44 + times * width + times + 6 * zone.types.len() <= bytes.len()
    &&& zone.indices.len() == times
    &&& forall|i: int|
        0 <= i < times ==> #[trigger] zone.transitions[i] == (if wide {
            signed_eight_at(bytes, at + 44 + 8 * i)
        } else {
            signed_four_at(bytes, at + 44 + 4 * i)
        })
    &&& forall|i: int|
        0 <= i < times ==> #[trigger] zone.indices[i] == bytes[at + 44 + times * width + i]
    &&& forall|i: int|
        0 <= i < zone.types.len() ==> {
            let place = at + 44 + times * width + times + 6 * i;
            &&& (#[trigger] zone.types[i]).offset == signed_four_at(bytes, place)
            &&& zone.types[i].is_dst <==> bytes[place + 4] != 0
        }
}

/// Where the first block of a file ends: behind its times and their types, the types, their
/// names, the leap seconds, and a byte for each of two kinds of indicators.
pub open spec fn first_block_end(bytes: Seq<u8>) -> int {
    44 + 5 * four_at(bytes, 32) + 6 * four_at(bytes, 36) + four_at(bytes, 40) + 8 * four_at(
        bytes,
        28,
    ) + four_at(bytes, 24) + four_at(bytes, 20)
}

proof fn lemma_four(bytes: Seq<u8>, at: int)
    requires
        0 <= at <= bytes.len() - 4,
    ensures
        be_value(piece(bytes, at, 4)) == four_at(bytes, at),
{
    reveal_with_fuel(be_value, 5);
    let four = piece(bytes, at, 4);
    assert(four.drop_last().drop_last().drop_last().drop_last().len() == 0);
    assert(four.drop_last().drop_last().drop_last().last() == bytes[at]);
    assert(four.drop_last().drop_last().last() == bytes[at + 1]);
    assert(four.drop_last().last() == bytes[at + 2]);
    assert(four.last() == bytes[at + 3]);
}

proof fn lemma_eight(bytes: Seq<u8>, at: int)
    requires
        0 <= at <= bytes.len() - 8,
    ensures
        be_value(piece(bytes, at, 8)) == 0x1_0000_0000 * four_at(bytes, at) + four_at(bytes, at + 4),
{
    let eight = piece(bytes, at, 8);
    let seven = eight.drop_last();
    let six = seven.drop_last();
    let five = six.drop_last();
    assert(five.drop_last() =~= piece(bytes, at, 4));
    lemma_four(bytes, at);
    assert(be_value(five) == 256 * be_value(five.drop_last()) + bytes[at + 4]);
    assert(be_value(six) == 256 * be_value(five) + bytes[at + 5]);
    assert(be_value(seven) == 256 * be_value(six) + bytes[at + 6]);
    assert(be_value(eight) == 256 * be_value(seven) + bytes[at + 7]);
}

proof fn lemma_header(bytes: Seq<u8>, at: int)
    requires
        0 <= at,
        starts_block(bytes, at),
    ensures
        header_at(bytes, at) == Some(
            HeaderView {
                version: bytes[at + 4],
                isutcnt: four_at(bytes, at + 20) as nat,
                isstdcnt: four_at(bytes, at + 24) as nat,
                leapcnt: four_at(bytes, at + 28) as nat,
                timecnt: four_at(bytes, at + 32) as nat,
                typecnt: four_at(bytes, at + 36) as nat,
                charcnt: four_at(bytes, at + 40) as nat,
            },
        ),
{
    assert(piece(bytes, at, 4) =~= magic());
    lemma_four(bytes, at + 20);
    lemma_four(bytes, at + 24);
    lemma_four(bytes, at + 28);
    lemma_four(bytes, at + 32);
    lemma_four(bytes, at + 36);
    lemma_four(bytes, at + 40);
}

proof fn lemma_block(bytes: Seq<u8>, header: HeaderView, at: int, wide: bool, zone: ZoneView)
    requires
        0 <= at,
        holds_zone(bytes, at, wide, zone),
        header.timecnt == zone.transitions.len(),
        header.typecnt == zone.types.len(),
    ensures
        block_zone(bytes, header, at + 44, if wide { 8 } else { 4 }) == zone,
{
    let width: nat = if wide { 8 } else { 4 };
    let times = zone.transitions.len();
    let found = block_zone(bytes, header, at + 44, width);
    assert forall|i: int| 0 <= i < times implies #[trigger] found.transitions[i]
        == zone.transitions[i] by {
        let place = at + 44 + i * width;
        if wide {
            assert(i * width == 8 * i && times * width == 8 * times);
            lemma_eight(bytes, place);
        } else {
            assert(i * width == 4 * i && times * width == 4 * times);
            lemma_four(bytes, place);
        }
        assert(found.transitions[i] == transition_at(bytes, place, width));
    }
    assert(found.transitions =~= zone.transitions);
    assert(found.indices =~= zone.indices);
    assert forall|i: int| 0 <= i < zone.types.len() implies #[trigger] found.types[i]
        == zone.types[i] by {
        let place = at + 44 + times * width + times + 6 * i;
        assert(times * width >= 0);
        lemma_four(bytes, place);
        assert(found.types[i] == local_type_at(bytes, place));
        assert(zone.types[i].offset == signed_four_at(bytes, place));
    }
    assert(found.types =~= zone.types);
}

proof fn lemma_narrow_end(header: HeaderView)
    ensures
        header.data_end(4) == 44 + 5 * header.timecnt + 6 * header.typecnt + header.charcnt + 8
            * header.leapcnt + header.isstdcnt + header.isutcnt,
{
    let (width, leaps) = (4nat, header.leapcnt);
    assert(leaps * (width + 4) == 8 * leaps) by (nonlinear_arith)
        requires
            width == 4,
    ;
}

/// A file of the second version or a later one is read from its second block, which lies
/// right behind the first and has times of eight bytes.
pub proof fn law_later_zones_read_back(bytes: Seq<u8>, zone: ZoneView)
    requires
        starts_block(bytes, 0),
        bytes[4] >= 0x32,
        holds_zone(bytes, first_block_end(bytes), true, zone),
        zone.is_usable(),
    ensures
        parsed_zone(bytes) == Some(zone),
{
    let second = first_block_end(bytes);
    lemma_header(bytes, 0);
    let first = header_at(bytes, 0)->0;
    lemma_narrow_end(first);
    assert(first.data_end(4) == second);
    lemma_header(bytes, second);
    lemma_block(bytes, header_at(bytes, second)->0, second, true, zone);
}

/// A file of the first version is read from its only block, which has times of four bytes.
pub proof fn law_early_zones_read_back(bytes: Seq<u8>, zone: ZoneView)
    requires
        bytes[4] < 0x32,
        holds_zone(bytes, 0, false, zone),
        zone.is_usable(),
    ensures
        parsed_zone(bytes) == Some(zone),
{
    lemma_header(bytes, 0);
    lemma_block(bytes, header_at(bytes, 0)->0, 0, false, zone);
}

/// A zone that is named leads to a file below the place where zones are kept: its name has
/// no empty part, none that stays where it is, and none that leads up again.
pub proof fn law_named_zones_stay_below(setting: Seq<u8>, path: Vec<u8>, i: int)
    requires
        leads_to(Some(setting), ZoneFile::Named(path)),
        0 <= i < path@.len(),
        i == 0 || path@[i - 1] == 0x2f,
    ensures
        path@[i] != 0x2f,
        path@[i] == 0x2e ==> i + 1 < path@.len() && path@[i + 1] != 0x2f,
        path@[i] == 0x2e && path@[i + 1] == 0x2e ==> i + 2 < path@.len() && path@[i + 2] != 0x2f,
        path@.last() != 0x2f,
{
    let name = path@;
    if name[i] == 0x2f {
        assert(is_part(name, i, i));
        assert(is_stray(name, i, i));
    }
    if name[i] == 0x2e && (i + 1 == name.len() || name[i + 1] == 0x2f) {
        assert(is_part(name, i, i + 1));
        assert(is_stray(name, i, i + 1));
    }
    if name[i] == 0x2e && name[i + 1] == 0x2e && (i + 2 == name.len() || name[i + 2] == 0x2f) {
        assert(is_part(name, i, i + 2));
        assert(is_stray(name, i, i + 2));
    }
    if name.last() == 0x2f {
        assert(is_part(name, name.len() as int, name.len() as int));
        assert(is_stray(name, name.len() as int, name.len() as int));
    }
}

/// A setting leads to a file of its own name where it starts with a slash, behind a colon or
/// not, and to no other file outside.
pub proof fn law_absolute_zones_are_taken_as_they_are(setting: Seq<u8>, file: ZoneFile)
    requires
        leads_to(Some(setting), file),
    ensures
        file matches ZoneFile::Absolute(path) ==> path@.len() > 0 && path@[0] == 0x2f && (path@
            == setting || seq![0x3au8] + path@ == setting),
        setting.len() > 0 && setting[0] == 0x2f ==> file is Absolute,
        !(file is System),
        file matches ZoneFile::Named(path) ==> path@ == setting || seq![0x3au8] + path@ == setting,
{
    if setting.len() > 0 && setting[0] == 0x3a {
        assert(seq![0x3au8] + setting.skip(1) =~= setting);
    }
}

} // verus!
