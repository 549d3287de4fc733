//! Volume sets: members cut at any byte into fragments, each with a header of
//! its own, and volumes framed around them.

use vstd::prelude::*;

use crate::bytes::copy_bytes;
use crate::crc32::crc32;
#[allow(unused_imports)]
use crate::crc32::crc32_of;
use crate::error::{Error, Result};
use crate::rar50::blocks::{CompressedMember, CryptFields, PreparedBlock};
#[allow(unused_imports)]
use crate::rar50::blocks::BlockView;
use crate::rar50::encryption::EncryptedStoredPayload;
use crate::rar50::entry::ArchiveEntry;
use crate::rar50::file_header::file_specific;
#[allow(unused_imports)]
use crate::rar50::file_header::file_specific_of;
use crate::rar50::format::{
    HEAD_FILE, HFL_DATA, HFL_EXTRA, HFL_SPLIT_AFTER, HFL_SPLIT_BEFORE,
};
#[allow(unused_imports)]
use crate::rar50::fragments::{fragment_lens, law_fragments_add_up};
use crate::rar50::headers::block_header_image;
#[allow(unused_imports)]
use crate::rar50::headers::header_image_of;
use crate::rar50::members::write_member_extra;
#[allow(unused_imports)]
use crate::rar50::members::{
    base_mtime, crypt_of, header_crc32, header_hash, member_extra, payload_of,
};
#[allow(unused_imports)]
use crate::rar50::metadata::bytes_result;
use crate::rar50::plan::{member_compression_info, CompressPlan};
#[allow(unused_imports)]
use crate::rar50::plan::member_info;
#[allow(unused_imports)]
use crate::rar50::quick_open::blocks_view;

verus! {

/// A member ready to be cut across volumes.
#[derive(Debug)]
pub struct VolumeMember<'a> {
    pub entry: &'a ArchiveEntry,
    pub unpacked_size: u64,
    pub crc32: u32,
    pub hash: [u8; 32],
    pub compression_info: u64,
    /// The bytes to cut: of an encrypted member the ciphertext, because the
    /// cipher runs as one chain over the member.
    pub payload: Vec<u8>,
    pub encryption: Option<CryptFields>,
    /// Bytes of the spool that the payload waits in.
    pub spooled: u64,
}

#[verifier::ext_equal]
pub struct VolumeMemberView {
    pub entry: ArchiveEntry,
    pub unpacked_size: u64,
    pub crc32: u32,
    pub hash: [u8; 32],
    pub compression_info: u64,
    pub payload: Seq<u8>,
    pub encryption: Option<CryptFields>,
    pub spooled: u64,
}

impl View for VolumeMember<'_> {
    type V = VolumeMemberView;

    open spec fn view(&self) -> VolumeMemberView {
        VolumeMemberView {
            entry: *self.entry,
            unpacked_size: self.unpacked_size,
            crc32: self.crc32,
            hash: self.hash,
            compression_info: self.compression_info,
            payload: self.payload@,
            encryption: self.encryption,
            spooled: self.spooled,
        }
    }
}

/// What waits in a spool for a member to be cut: its ciphertext or its packed
/// bytes. A member stored in the clear is read from its source.
pub open spec fn volume_spool(
    member: CompressedMember,
    sealed: Option<EncryptedStoredPayload>,
) -> u64 {
    if sealed is None && member.store {
        0
    } else {
        payload_of(member, sealed).len() as u64
    }
}

/// A member in a form that can be cut at any byte boundary.
pub open spec fn volume_member_of(
    entry: ArchiveEntry,
    member: CompressedMember,
    sealed: Option<EncryptedStoredPayload>,
    plan: CompressPlan,
) -> std::result::Result<VolumeMemberView, Error> {
    match member_info(plan, member.store, member.solid_continuation) {
        Err(error) => Err(error),
        Ok(info) => match member.source_error() {
            Some(error) => Err(error),
            None => Ok(
                VolumeMemberView {
                    entry,
                    unpacked_size: member.input_size,
                    crc32: header_crc32(member, sealed),
                    hash: header_hash(member, sealed),
                    compression_info: info,
                    payload: payload_of(member, sealed),
                    encryption: crypt_of(sealed),
                    spooled: volume_spool(member, sealed),
                },
            ),
        },
    }
}

/// Prepares one member for cutting.
pub fn prepare_volume_member<'a>(
    entry: &'a ArchiveEntry,
    member: CompressedMember,
    sealed: Option<EncryptedStoredPayload>,
    plan: &CompressPlan,
) -> (r: Result<VolumeMember<'a>>)
    ensures
        match volume_member_of(*entry, member, sealed, *plan) {
            Ok(view) => r is Ok && r->Ok_0@ == view,
            Err(error) => r == Err::<VolumeMember<'a>, Error>(error),
        },
{
    let info: u64 = match member_compression_info(plan, member.store, member.solid_continuation) {
        Ok(info) => info,
        Err(error) => {
            return Err(error);
        },
    };
    match member.check_source() {
        Ok(()) => {},
        Err(error) => {
            return Err(error);
        },
    }
    let unpacked_size: u64 = member.input_size;
    let packed_len: usize = member.packed.len();
    let sealed_len: usize = match &sealed {
        Some(sealed) => sealed.data.len(),
        None => 0,
    };
    match sealed {
        Some(sealed) => Ok(
            VolumeMember {
                entry,
                unpacked_size,
                crc32: sealed.crc32_mac,
                hash: sealed.blake2sp_mac,
                compression_info: info,
                payload: sealed.data,
                encryption: Some(
                    CryptFields {
                        salt: sealed.salt,
                        iv: sealed.iv,
                        check_value: sealed.check_value,
                    },
                ),
                spooled: sealed_len as u64,
            },
        ),
        None => Ok(
            VolumeMember {
                entry,
                unpacked_size,
                crc32: member.crc32,
                hash: member.hash,
                compression_info: info,
                payload: member.packed,
                encryption: None,
                spooled: if member.store {
                    0
                } else {
                    packed_len as u64
                },
            },
        ),
    }
}

/// What a fragment that is not the last one says of its own bytes.
#[derive(Debug, Clone, Copy)]
pub struct FragmentChecksums {
    pub crc32: u32,
    pub hash: [u8; 32],
}

/// The header flags of a fragment.
pub open spec fn fragment_flags(split_before: bool, split_after: bool) -> u64 {
    (HFL_DATA + HFL_EXTRA + (if split_before { HFL_SPLIT_BEFORE as int } else { 0 }) + (
    if split_after {
        HFL_SPLIT_AFTER as int
    } else {
        0
    })) as u64
}

/// The header of a fragment. Every fragment repeats the member's fields; the
/// last carries the member's own checksum and hash, the rest those of the bytes
/// they store, so that one volume can be checked on its own.
#[verifier::opaque]
pub open spec fn fragment_image_of(
    member: VolumeMemberView,
    fragment_len: u64,
    split_before: bool,
    fragment: Option<FragmentChecksums>,
) -> std::result::Result<Seq<u8>, Error> {
    let data_crc32 = match fragment {
        Some(own) => own.crc32,
        None => member.crc32,
    };
    let hash = match fragment {
        Some(own) => own.hash,
        None => member.hash,
    };
    match file_specific_of(
        member.entry.name@,
        member.unpacked_size,
        Some(data_crc32),
        member.entry.attributes,
        base_mtime(member.entry),
        member.compression_info,
        member.entry.host_os,
        member.entry.is_directory,
    ) {
        Err(error) => Err(error),
        Ok(specific) => header_image_of(
            HEAD_FILE,
            fragment_flags(split_before, fragment is Some),
            Some(fragment_len),
            specific,
            member_extra(member.encryption, Some(hash), member.entry, false),
        ),
    }
}

/// Builds the header of a fragment.
pub fn fragment_header(
    member: &VolumeMember<'_>,
    fragment_len: u64,
    split_before: bool,
    fragment: Option<FragmentChecksums>,
) -> (r: Result<Vec<u8>>)
    ensures
        bytes_result(r) == fragment_image_of(member@, fragment_len, split_before, fragment),
        r matches Ok(header) ==> header@.len() <= isize::MAX,
{
    proof {
        reveal(fragment_image_of);
    }
    let (data_crc32, hash): (u32, [u8; 32]) = match fragment {
        Some(own) => (own.crc32, own.hash),
        None => (member.crc32, member.hash),
    };
    let extra = write_member_extra(member.encryption, Some(hash), member.entry, false);
    let mtime: Option<u32> = if member.entry.mtime_nanoseconds.is_none() {
        member.entry.mtime
    } else {
        None
    };
    let specific = match file_specific(
        &member.entry.name,
        member.unpacked_size,
        Some(data_crc32),
        member.entry.attributes,
        mtime,
        member.compression_info,
        member.entry.host_os,
        member.entry.is_directory,
    ) {
        Ok(specific) => specific,
        Err(error) => {
            return Err(error);
        },
    };
    let mut flags: u64 = HFL_DATA + HFL_EXTRA;
    if split_before {
        flags = flags + HFL_SPLIT_BEFORE;
    }
    if fragment.is_some() {
        flags = flags + HFL_SPLIT_AFTER;
    }
    block_header_image(HEAD_FILE, flags, Some(fragment_len), &specific, &extra)
}

/// Volumes in the making, the last one open, and how much payload it holds.
#[verifier::ext_equal]
pub struct VolumeSet {
    pub volumes: Seq<Seq<BlockView>>,
    pub fill: nat,
}

impl VolumeSet {
    /// No volume yet.
    pub open spec fn empty() -> VolumeSet {
        VolumeSet { volumes: Seq::empty(), fill: 0 }
    }

    /// The set with room in its last volume.
    pub open spec fn opened(self, max: nat) -> VolumeSet {
        if self.volumes.len() == 0 || self.fill == max {
            VolumeSet { volumes: self.volumes.push(Seq::empty()), fill: 0 }
        } else {
            self
        }
    }

    /// The room that the next fragment finds.
    pub open spec fn room(self, max: nat) -> nat {
        (max - self.opened(max).fill) as nat
    }

    /// The set with one more block in its last volume.
    pub open spec fn with_block(self, block: BlockView) -> VolumeSet {
        let last = self.volumes.len() - 1;
        VolumeSet {
            volumes: self.volumes.update(last, self.volumes[last].push(block)),
            fill: self.fill + block.payload.len(),
        }
    }

    pub open spec fn is_valid(self, max: nat) -> bool {
        self.fill <= max && (self.volumes.len() == 0 ==> self.fill == 0)
    }
}

/// One fragment of a member.
pub open spec fn fragment_block_of(
    member: VolumeMemberView,
    start: nat,
    len: nat,
    hash: [u8; 32],
) -> std::result::Result<BlockView, Error> {
    let piece = member.payload.subrange(start as int, (start + len) as int);
    let fragment = if start + len < member.payload.len() {
        Some(FragmentChecksums { crc32: crc32_of(piece), hash })
    } else {
        None
    };
    match fragment_image_of(member, len as u64, start > 0, fragment) {
        Err(error) => Err(error),
        Ok(header) => Ok(
            BlockView {
                header,
                payload: piece,
                payload_len: len as u64,
                quick_open_cached: false,
                spooled: if start + len < member.payload.len() {
                    0
                } else {
                    member.spooled
                },
                buffer: 0,
            },
        ),
    }
}

/// A member cut across a set, from `start` on: its fragments fill what is left
/// of the open volume and as many further ones as it takes.
pub open spec fn cut_from(
    set: VolumeSet,
    max: nat,
    member: VolumeMemberView,
    start: nat,
    hashes: Seq<[u8; 32]>,
) -> std::result::Result<VolumeSet, Error>
    decreases member.payload.len() - start,
{
    let room = set.room(max);
    let rest = member.payload.len() - start;
    let len = (if rest <= room {
        rest
    } else {
        room as int
    }) as nat;
    match fragment_block_of(member, start, len, hashes[0]) {
        Err(error) => Err(error),
        Ok(block) => {
            let next = set.opened(max).with_block(block);
            if rest <= room || room == 0 {
                Ok(next)
            } else {
                cut_from(next, max, member, start + len, hashes.skip(1))
            }
        },
    }
}

/// What a set holds once a member is cut across it, or once a fragment of it was
/// refused: the fragments before that one stay, in the volume opened for it.
pub open spec fn cut_so_far(
    set: VolumeSet,
    max: nat,
    member: VolumeMemberView,
    start: nat,
    hashes: Seq<[u8; 32]>,
) -> VolumeSet
    decreases member.payload.len() - start,
{
    let room = set.room(max);
    let rest = member.payload.len() - start;
    let len = (if rest <= room {
        rest
    } else {
        room as int
    }) as nat;
    match fragment_block_of(member, start, len, hashes[0]) {
        Err(_) => set.opened(max),
        Ok(block) => {
            let next = set.opened(max).with_block(block);
            if rest <= room || room == 0 {
                next
            } else {
                cut_so_far(next, max, member, start + len, hashes.skip(1))
            }
        },
    }
}

pub open spec fn volumes_view(volumes: Seq<Vec<PreparedBlock>>) -> Seq<Seq<BlockView>> {
    Seq::new(volumes.len(), |i: int| blocks_view(volumes[i]@))
}

fn append_block(volumes: &mut Vec<Vec<PreparedBlock>>, block: PreparedBlock)
    requires
        old(volumes)@.len() > 0,
    ensures
        volumes_view(final(volumes)@) == volumes_view(old(volumes)@).update(
            old(volumes)@.len() - 1,
            volumes_view(old(volumes)@)[old(volumes)@.len() - 1].push(block@),
        ),
        sets_fit(old(volumes)@) && block.header@.len() <= isize::MAX ==> sets_fit(
            final(volumes)@,
        ),
{
    let ghost before = volumes@;
    let at: usize = volumes.len() - 1;
    let mut taken: Vec<PreparedBlock> = Vec::new();
    std::mem::swap(&mut volumes[at], &mut taken);
    assert(taken@ == before[at as int]@);
    taken.push(block);
    assert(blocks_view(taken@) =~= blocks_view(before[at as int]@).push(block@));
    volumes.set(at, taken);
    proof {
        let after = volumes_view(volumes@);
        let expected = volumes_view(before).update(
            at as int,
            volumes_view(before)[at as int].push(block@),
        );
        assert forall|i: int| 0 <= i < after.len() implies after[i] == expected[i] by {
            if i != at {
                assert(volumes@[i] == before[i]);
            }
        }
        assert(after =~= expected);
        if sets_fit(before) && block.header@.len() <= isize::MAX {
            assert forall|i: int| 0 <= i < volumes@.len() implies crate::rar50::engine::headers_fit(
                (#[trigger] volumes@[i])@,
            ) by {
                if i != at {
                    assert(volumes@[i] == before[i]);
                } else {
                    assert(crate::rar50::engine::headers_fit(before[i]@));
                }
            }
        }
    }
}

/// Whether every header of a set fits in memory.
pub open spec fn sets_fit(volumes: Seq<Vec<PreparedBlock>>) -> bool {
    forall|i: int| 0 <= i < volumes.len() ==> crate::rar50::engine::headers_fit(
        (#[trigger] volumes[i])@,
    )
}

/// Cuts members across volumes.
#[derive(Debug)]
pub struct VolumeWriter {
    max_payload_per_volume: u64,
    volumes: Vec<Vec<PreparedBlock>>,
    payload_in_volume: u64,
}

/// A set in the making, and how much payload goes into each of its volumes.
#[verifier::ext_equal]
pub struct VolumeWriterView {
    pub set: VolumeSet,
    pub max: nat,
}

impl View for VolumeWriter {
    type V = VolumeWriterView;

    closed spec fn view(&self) -> VolumeWriterView {
        VolumeWriterView {
            set: VolumeSet {
                volumes: volumes_view(self.volumes@),
                fill: self.payload_in_volume as nat,
            },
            max: self.max_payload_per_volume as nat,
        }
    }
}

impl VolumeWriter {
    pub closed spec fn is_valid(&self) -> bool {
        self@.max > 0 && self@.set.is_valid(self@.max) && sets_fit(self.volumes@)
    }

    /// A set without members.
    pub fn new(max_payload_per_volume: u64) -> (r: Result<VolumeWriter>)
        ensures
            match r {
                Ok(writer) => max_payload_per_volume > 0 && writer.is_valid() && writer@ == (
                VolumeWriterView { set: VolumeSet::empty(), max: max_payload_per_volume as nat }),
                Err(error) => max_payload_per_volume == 0 && error == Error::InvalidArgument(
                    "RAR 5 volume payload size is zero",
                ),
            },
    {
        if max_payload_per_volume == 0 {
            return Err(Error::InvalidArgument("RAR 5 volume payload size is zero"));
        }
        let writer = VolumeWriter {
            max_payload_per_volume,
            volumes: Vec::new(),
            payload_in_volume: 0,
        };
        assert(writer@.set.volumes =~= Seq::empty());
        Ok(writer)
    }

    /// Opens a volume where none has room.
    fn open_volume(&mut self)
        requires
            old(self).is_valid(),
        ensures
            final(self).is_valid(),
            final(self)@.set == old(self)@.set.opened(old(self)@.max),
            final(self)@.max == old(self)@.max,
            final(self).payload_in_volume < final(self).max_payload_per_volume,
            final(self).volumes@.len() > 0,
    {
        let ghost before = self.volumes@;
        if self.volumes.len() == 0 || self.payload_in_volume == self.max_payload_per_volume {
            let fresh: Vec<PreparedBlock> = Vec::new();
            assert(blocks_view(fresh@) =~= Seq::empty());
            self.volumes.push(fresh);
            self.payload_in_volume = 0;
            assert(volumes_view(self.volumes@) =~= volumes_view(before).push(Seq::empty()));
            assert forall|i: int| 0 <= i < self.volumes@.len() implies crate::rar50::engine::headers_fit(
                (#[trigger] self.volumes@[i])@,
            ) by {
                if i < before.len() {
                    assert(self.volumes@[i] == before[i]);
                }
            }
        }
    }

    /// Cuts one member across as many volumes as it takes. `hashes` holds the
    /// hashes of the fragments, but for the last, which carries the member's.
    pub fn write_member(
        &mut self,
        member: &VolumeMember<'_>,
        hashes: &[[u8; 32]],
    ) -> (r: Result<()>)
        requires
            old(self).is_valid(),
            hashes@.len() + 1 >= fragment_lens(
                old(self)@.set.room(old(self)@.max),
                old(self)@.max,
                member.payload@.len(),
            ).len(),
        ensures
            final(self).is_valid(),
            final(self)@.max == old(self)@.max,
            final(self)@.set == cut_so_far(
                old(self)@.set,
                old(self)@.max,
                member@,
                0,
                hashes@,
            ),
            match cut_from(old(self)@.set, old(self)@.max, member@, 0, hashes@) {
                Ok(set) => r is Ok && final(self)@.set == set,
                Err(error) => r == Err::<(), Error>(error),
            },
    {
        let total: usize = member.payload.len();
        let ghost max = self@.max;
        let ghost whole = cut_from(self@.set, max, member@, 0, hashes@);
        let ghost reached = cut_so_far(self@.set, max, member@, 0, hashes@);
        let mut start: usize = 0;
        let mut at: usize = 0;
        assert(hashes@.skip(0) =~= hashes@);
        loop
            invariant
                self.is_valid(),
                self@.max == max,
                max == old(self)@.max,
                total == member.payload@.len(),
                start <= total,
                start > 0 ==> start < total,
                at <= hashes@.len(),
                whole == cut_from(old(self)@.set, max, member@, 0, hashes@),
                whole == cut_from(self@.set, max, member@, start as nat, hashes@.skip(at as int)),
                reached == cut_so_far(old(self)@.set, max, member@, 0, hashes@),
                reached == cut_so_far(
                    self@.set,
                    max,
                    member@,
                    start as nat,
                    hashes@.skip(at as int),
                ),
                hashes@.len() - at + 1 >= fragment_lens(
                    self@.set.room(max),
                    max,
                    (total - start) as nat,
                ).len(),
            decreases total - start,
        {
            let ghost left = hashes@.skip(at as int);
            self.open_volume();
            let room: u64 = self.max_payload_per_volume - self.payload_in_volume;
            let rest: usize = total - start;
            let len: usize = if rest as u64 <= room {
                rest
            } else {
                room as usize
            };
            let piece = vstd::slice::slice_subrange(member.payload.as_slice(), start, start + len);
            let split_after: bool = start + len < total;
            proof {
                if split_after {
                    law_fragments_add_up(max, max, (rest - len) as nat);
                    assert(left[0] == hashes@[at as int]);
                }
            }
            let checksums: Option<FragmentChecksums> = if split_after {
                Some(FragmentChecksums { crc32: crc32(piece), hash: hashes[at] })
            } else {
                None
            };
            match fragment_header(member, len as u64, start > 0, checksums) {
                Ok(header) => {
                    let block = PreparedBlock {
                        header,
                        payload: copy_bytes(piece),
                        payload_len: len as u64,
                        quick_open_cached: false,
                        spooled: if split_after {
                            0
                        } else {
                            member.spooled
                        },
                        buffer: 0,
                    };
                    let ghost open = self@.set;
                    let ghost block_view = block@;
                    append_block(&mut self.volumes, block);
                    self.payload_in_volume = self.payload_in_volume + len as u64;
                    assert(self@.set =~= open.with_block(block_view));
                    assert(fragment_block_of(
                        member@,
                        start as nat,
                        len as nat,
                        left[0],
                    ) == Ok::<BlockView, Error>(block_view));
                },
                Err(error) => {
                    assert(fragment_block_of(member@, start as nat, len as nat, left[0]) == Err::<
                        BlockView,
                        Error,
                    >(error));
                    return Err(error);
                },
            }
            if !split_after {
                return Ok(());
            }
            proof {
                assert(left.skip(1) =~= hashes@.skip(at + 1));
                assert(self@.set.room(max) == max);
            }
            start = start + len;
            at = at + 1;
        }
    }

    /// The volumes of the set, each a list of fragments.
    pub fn finish(self) -> (volumes: Vec<Vec<PreparedBlock>>)
        requires
            self.is_valid(),
        ensures
            volumes_view(volumes@) == self@.set.volumes,
            sets_fit(volumes@),
    {
        self.volumes
    }
}

} // verus!
