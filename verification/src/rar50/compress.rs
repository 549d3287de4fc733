//! Compressing members: as wholes, block by block, or not at all.
//!
//! The codec itself stands behind closures. What it is given, and what becomes
//! of what it gives back, is decided here.

use vstd::prelude::*;

use crate::crc32::crc32;
#[allow(unused_imports)]
use crate::crc32::crc32_of;
use crate::error::{Error, Result};
use crate::filter::{FilterPolicy, FilterSpec};
use crate::rar50::blocks::CompressedMember;
use crate::rar50::candidates::{
    encode_member_with_filter_policy_candidates, filter_policy_walk_bytes,
};
#[allow(unused_imports)]
use crate::rar50::candidates::{
    is_best, is_searched, may_fail, takes_all_settings, takes_any_search,
};
use crate::rar50::ladder::EncodeOptions;
#[allow(unused_imports)]
use crate::rar50::member_progress::is_stopped;
use crate::rar50::member_progress::MemberProgress;
use crate::rar50::plan::{should_store_compressed_payload, stores_member, CompressPlan};
#[allow(unused_imports)]
use crate::rar50::plan::{is_stored, stores_payload};
use crate::rar50::share::{MemberShare, Turn};
use crate::write_progress::WriteProgress;

verus! {

/// A member as it was read, with its hash and with the length that its source
/// announced.
#[derive(Debug)]
pub struct MemberSource {
    pub input_size: u64,
    pub data: Vec<u8>,
    pub hash: [u8; 32],
}

pub open spec fn size_change_error() -> Error {
    Error::InvalidHeader("entry source size changed while compressing")
}

impl MemberSource {
    pub open spec fn keeps_its_size(self) -> bool {
        self.input_size == self.data@.len()
    }

    /// Refuses a source that does not have the length it announced.
    pub fn check_source_end(&self) -> (r: Result<()>)
        ensures
            r == (if self.keeps_its_size() {
                Ok::<(), Error>(())
            } else {
                Err(size_change_error())
            }),
    {
        let len: usize = self.data.len();
        if len as u64 != self.input_size {
            return Err(Error::InvalidHeader("entry source size changed while compressing"));
        }
        Ok(())
    }
}

/// A compressed member: what its source says of it, and its payload. The bytes
/// of a stored member are read again when they are written.
pub open spec fn is_member_of(
    source: MemberSource,
    store: bool,
    packed: Seq<u8>,
    solid_continuation: bool,
    member: CompressedMember,
) -> bool {
    &&& member.input_size == source.input_size
    &&& member.crc32 == crc32_of(source.data@)
    &&& member.hash == source.hash
    &&& member.store == store
    &&& member.packed@ == (if store {
        Seq::empty()
    } else {
        packed
    })
    &&& member.solid_continuation == solid_continuation
}

fn member_of(
    source: &MemberSource,
    store: bool,
    packed: Vec<u8>,
    solid_continuation: bool,
) -> (member: CompressedMember)
    ensures
        is_member_of(*source, store, packed@, solid_continuation, member),
{
    let kept: Vec<u8> = if store {
        Vec::new()
    } else {
        packed
    };
    CompressedMember {
        input_size: source.input_size,
        crc32: crc32(&source.data),
        hash: source.hash,
        packed: kept,
        packed_hash: [0; 32],
        store,
        solid_continuation,
    }
}

/// What comes of compressing a member as a whole.
pub open spec fn is_whole_result<
    S: Fn(&[u8], EncodeOptions, usize) -> Result<Turn<(Vec<FilterSpec>, Vec<u8>)>>,
    E: Fn(&[u8], Vec<FilterSpec>, EncodeOptions, usize) -> Result<Turn<Vec<u8>>>,
>(
    search: S,
    encode: E,
    plan: CompressPlan,
    search_applies: bool,
    source: MemberSource,
    r: Result<CompressedMember>,
) -> bool {
    if !source.keeps_its_size() {
        r == Err::<CompressedMember, Error>(size_change_error())
    } else if source.data@.len() == 0 {
        r matches Ok(member) && is_member_of(source, true, Seq::empty(), false, member)
    } else {
        match r {
            Ok(member) => exists|best: Seq<u8>|
                #[trigger] is_best(
                    search,
                    encode,
                    source.data@,
                    is_searched(plan.filter_policy, search_applies),
                    plan.filter_policy,
                    plan.candidates@,
                    best,
                ) && is_member_of(
                    source,
                    stores_payload(
                        source.data@.len(),
                        best.len(),
                        plan.solid,
                        plan.filter_policy,
                    ),
                    best,
                    false,
                    member,
                ),
            Err(error) => may_fail(
                search,
                encode,
                source.data@,
                is_searched(plan.filter_policy, search_applies),
                plan.filter_policy,
                plan.candidates@,
                error,
            ),
        }
    }
}

/// Compresses one member as a whole: the smallest of what the settings give,
/// or the member as it is where that does not pay. A filter that the caller
/// named is not discarded because the result did not shrink.
///
/// A search for filters walks the member many times over; `search_walk` is what
/// it walks in all, where there is one.
pub fn compress_whole_member<
    S: Fn(&[u8], EncodeOptions, usize) -> Result<Turn<(Vec<FilterSpec>, Vec<u8>)>>,
    E: Fn(&[u8], Vec<FilterSpec>, EncodeOptions, usize) -> Result<Turn<Vec<u8>>>,
    P: WriteProgress,
>(
    source: &MemberSource,
    plan: &CompressPlan,
    search_walk: Option<u64>,
    search: &S,
    encode: &E,
    watch: &mut MemberProgress<'_, P>,
) -> (r: Result<CompressedMember>)
    requires
        old(watch).is_valid(),
        takes_any_search(*search, source.data@),
        takes_all_settings(*encode, source.data@),
    ensures
        final(watch).continues(*old(watch)),
        is_stopped(*old(watch), r) || is_whole_result(
            *search,
            *encode,
            *plan,
            search_walk is Some,
            *source,
            r,
        ),
{
    match source.check_source_end() {
        Ok(()) => {},
        Err(error) => {
            return Err(error);
        },
    }
    let size: usize = source.data.len();
    if size == 0 {
        return Ok(member_of(source, true, Vec::new(), false));
    }
    let searched_walk: Option<u64> = if matches!(plan.filter_policy, FilterPolicy::Auto) {
        search_walk
    } else {
        None
    };
    let walk: u64 = filter_policy_walk_bytes(
        source.input_size,
        searched_walk,
        plan.candidates.len(),
    );
    let mut share = MemberShare::new(source.input_size, walk);
    let packed = match encode_member_with_filter_policy_candidates(
        &source.data,
        &plan.filter_policy,
        search_walk.is_some(),
        &plan.candidates,
        search,
        encode,
        watch,
        &mut share,
    ) {
        Ok(packed) => packed,
        Err(error) => {
            return Err(error);
        },
    };
    let packed_len: usize = packed.len();
    let stored: bool = should_store_compressed_payload(
        size as u64,
        packed_len as u64,
        plan.solid,
        &plan.filter_policy,
    );
    Ok(member_of(source, stored, packed, false))
}

/// Checks a member that is stored as it is.
pub fn source_integrity(source: &MemberSource) -> (r: Result<(u32, [u8; 32])>)
    ensures
        r == (if source.keeps_its_size() {
            Ok::<(u32, [u8; 32]), Error>((crc32_of(source.data@), source.hash))
        } else {
            Err(Error::InvalidHeader("entry source size changed while reading"))
        }),
{
    let observed: usize = source.data.len();
    if observed as u64 != source.input_size {
        return Err(Error::InvalidHeader("entry source size changed while reading"));
    }
    Ok((crc32(&source.data), source.hash))
}

/// Settles a member whose blocks are packed: it is stored where nothing is to
/// be compressed, where there is nothing to pack, and where packing did not
/// pay. Every member of a solid chain but the first continues the one before.
pub fn settle_member(
    source: &MemberSource,
    plan: &CompressPlan,
    index: usize,
    packed: Vec<u8>,
) -> (member: CompressedMember)
    ensures
        is_member_of(
            *source,
            is_stored(*plan, source.input_size, packed@.len()),
            packed@,
            plan.solid && index > 0,
            member,
        ),
{
    let packed_len: usize = packed.len();
    let store: bool = stores_member(plan, source.input_size, packed_len as u64);
    member_of(source, store, packed, plan.solid && index > 0)
}

/// Settles a member that was to be filtered and was packed without: no filter
/// was applied, so none can have been asked for.
pub fn settle_fallback_member(source: &MemberSource, packed: Vec<u8>) -> (member: CompressedMember)
    ensures
        is_member_of(
            *source,
            source.input_size == 0 || packed@.len() >= source.input_size,
            packed@,
            false,
            member,
        ),
{
    let packed_len: usize = packed.len();
    let store: bool = source.input_size == 0 || packed_len as u64 >= source.input_size;
    member_of(source, store, packed, false)
}

/// Puts the bytes of a stored member, read once more for writing, in place of
/// the packed ones. Others stay as they are.
pub fn reread_member(
    member: CompressedMember,
    bytes: Vec<u8>,
    hash: [u8; 32],
) -> (out: CompressedMember)
    ensures
        out == (if member.store {
            CompressedMember { packed: bytes, packed_hash: hash, ..member }
        } else {
            member
        }),
{
    if member.store {
        CompressedMember { packed: bytes, packed_hash: hash, ..member }
    } else {
        member
    }
}

/// A member that compresses as a whole and is read again unchanged can be
/// written: the header's promise holds of the bytes.
pub proof fn law_unchanged_source_is_written(
    source: MemberSource,
    packed: Seq<u8>,
    member: CompressedMember,
    out: CompressedMember,
)
    requires
        source.keeps_its_size(),
        is_member_of(source, true, packed, false, member),
        out == (CompressedMember { packed: source.data, packed_hash: source.hash, ..member }),
    ensures
        out.source_error() is None,
        out.plain_len() == source.data@.len(),
{
}

} // verus!
