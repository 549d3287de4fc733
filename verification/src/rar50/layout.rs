//! Where each block of an archive lands, worked out before anything is written.
//!
//! The main header holds the offsets of the quick-open and recovery blocks as
//! variable-length integers, so its own size depends on values that depend on
//! its size. Everything else in the archive has a size that is already known.
//! That leaves a fixed point over two integers, which is solved here over a few
//! dozen bytes.

use vstd::prelude::*;

use crate::bytes::push_all;
use crate::error::{Error, Result};
use crate::rar50::file_header::stored_file_specific;
#[allow(unused_imports)]
use crate::rar50::file_header::file_specific_of;
use crate::rar50::format::{
    FHEXTRA_SUBDATA, HEAD_MAIN, HEAD_SERVICE, HFL_DATA, HFL_EXTRA, SIGNATURE_LEN,
};
use crate::rar50::headers::block_header_image;
#[allow(unused_imports)]
use crate::rar50::headers::{
    body_len, emitted_len, header_image_of, law_header_length_is_predictable, plain_len,
};
use crate::rar50::main_header::{main_specific, resolved_main_extra};
#[allow(unused_imports)]
use crate::rar50::main_header::{
    extra_flag, located_quick_open, main_extra_of, main_fields, metadata_part,
};
use crate::rar50::metadata::{
    retained_archive_metadata, ArchiveMetadataEntry, ArchiveMetadataRecord,
};
#[allow(unused_imports)]
use crate::rar50::metadata::retained_archive_metadata_of;
use crate::rar50::records::write_extra_record;
#[allow(unused_imports)]
use crate::rar50::records::{extra_record, locator_flags, locator_record, optional_vint};
#[allow(unused_imports)]
use crate::rar50::vint::{
    lemma_vint_len, lemma_vint_len_bound, lemma_vint_len_grows, lemma_vint_len_step, vint,
    vint_len,
};

verus! {

/// How often the offsets are worked out anew before the writer would give up.
/// [`law_layout_settles`] shows that it never has to.
pub const MAX_LAYOUT_PASSES: usize = 16;

/// What a layout rests on.
#[derive(Debug, Clone, Copy)]
pub struct LayoutInputs<'a> {
    /// Header encryption pads every header and puts an IV before it.
    pub header_encrypted: bool,
    /// Size of the encryption header, or zero where there is none.
    pub head_crypt_len: u64,
    /// Archive flags, those of volumes and recovery included.
    pub main_flags: u64,
    pub volume_number: Option<u64>,
    pub archive_metadata: Option<ArchiveMetadataEntry<'a>>,
    pub metadata_record: Option<&'a ArchiveMetadataRecord>,
    /// Everything between the main header and the quick-open block: comments,
    /// members and their services.
    pub body_len: u64,
    pub quick_open_payload_len: Option<u64>,
    pub recovery_percent: Option<u64>,
}

/// A layout whose offsets have settled.
#[derive(Debug)]
pub struct ResolvedLayout {
    /// The extra area of the main header.
    pub main_extra: Vec<u8>,
    pub main_header_len: u64,
    /// The position of the recovery block, counted from the end of the
    /// signature, as the locator holds it.
    pub recovery_offset: Option<u64>,
    /// Bytes the recovery record protects: everything before it.
    pub recovery_prefix_len: Option<u64>,
}

#[verifier::ext_equal]
pub struct LayoutView {
    pub main_extra: Seq<u8>,
    pub main_header_len: nat,
    pub recovery_offset: Option<u64>,
    pub recovery_prefix_len: Option<u64>,
}

impl View for ResolvedLayout {
    type V = LayoutView;

    open spec fn view(&self) -> LayoutView {
        LayoutView {
            main_extra: self.main_extra@,
            main_header_len: self.main_header_len as nat,
            recovery_offset: self.recovery_offset,
            recovery_prefix_len: self.recovery_prefix_len,
        }
    }
}

pub open spec fn layout_result(
    r: Result<ResolvedLayout>,
) -> std::result::Result<LayoutView, Error> {
    match r {
        Ok(layout) => Ok(layout@),
        Err(error) => Err(error),
    }
}

/// The extra area of a service header: one record with the service's own data.
pub open spec fn service_extra(service_data: Seq<u8>) -> Seq<u8> {
    extra_record(FHEXTRA_SUBDATA, service_data)
}

/// The size of a stored service block, header and payload together.
pub open spec fn stored_service_block_len_of(
    name: Seq<u8>,
    data_len: u64,
    service_data: Seq<u8>,
    header_encrypted: bool,
) -> std::result::Result<u64, Error> {
    // The checksum is a fixed-width field, so any value gives the right size.
    match file_specific_of(name, data_len, Some(0), 0, None, 0, 0, false) {
        Err(error) => Err(error),
        Ok(specific) => match header_image_of(
            HEAD_SERVICE,
            (HFL_EXTRA + HFL_DATA) as u64,
            Some(data_len),
            specific,
            service_extra(service_data),
        ) {
            Err(error) => Err(error),
            Ok(image) => {
                let total = emitted_len(image.len(), header_encrypted) + data_len;
                if total > u64::MAX {
                    Err(Error::InvalidHeader("RAR 5 service block size overflows"))
                } else {
                    Ok(total as u64)
                }
            },
        },
    }
}

/// The length a header takes in the archive.
pub fn emitted_header_len(plain_len: u64, header_encrypted: bool) -> (len: u64)
    requires
        plain_len <= isize::MAX,
    ensures
        len == emitted_len(plain_len as nat, header_encrypted),
{
    if header_encrypted {
        16 + ((plain_len + 15) / 16) * 16
    } else {
        plain_len
    }
}

/// The size of a stored service block.
pub fn stored_service_block_len(
    name: &[u8],
    data_len: u64,
    service_data: &[u8],
    header_encrypted: bool,
) -> (r: Result<u64>)
    ensures
        r == stored_service_block_len_of(name@, data_len, service_data@, header_encrypted),
{
    let mut extra: Vec<u8> = Vec::new();
    write_extra_record(&mut extra, FHEXTRA_SUBDATA, service_data);
    assert(extra@ == service_extra(service_data@));
    let specific = match stored_file_specific(name, data_len, Some(0), 0, None, 0) {
        Ok(specific) => specific,
        Err(error) => {
            return Err(error);
        },
    };
    let header = match block_header_image(
        HEAD_SERVICE,
        HFL_EXTRA + HFL_DATA,
        Some(data_len),
        &specific,
        &extra,
    ) {
        Ok(header) => header,
        Err(error) => {
            return Err(error);
        },
    };
    match emitted_header_len(header.len() as u64, header_encrypted).checked_add(data_len) {
        Some(total) => Ok(total),
        None => Err(Error::InvalidHeader("RAR 5 service block size overflows")),
    }
}

/// The metadata record that was read and is carried over.
pub open spec fn retained_part(inputs: LayoutInputs<'_>) -> std::result::Result<Seq<u8>, Error> {
    match inputs.metadata_record {
        Some(record) => retained_archive_metadata_of(*record),
        None => Ok(Seq::empty()),
    }
}

/// The extra area of the main header with these offsets.
pub open spec fn extra_at(
    inputs: LayoutInputs<'_>,
    quick_open: Option<u64>,
    recovery: Option<u64>,
) -> std::result::Result<Seq<u8>, Error> {
    match main_extra_of(inputs.archive_metadata, quick_open, recovery) {
        Err(error) => Err(error),
        Ok(extra) => match retained_part(inputs) {
            Err(error) => Err(error),
            Ok(record) => Ok(extra + record),
        },
    }
}

/// The length of the main header with this extra area.
pub open spec fn main_header_len_of(
    inputs: LayoutInputs<'_>,
    extra: Seq<u8>,
) -> std::result::Result<nat, Error> {
    match header_image_of(
        HEAD_MAIN,
        extra_flag(extra),
        None,
        main_fields(inputs.main_flags, inputs.volume_number),
        extra,
    ) {
        Err(error) => Err(error),
        Ok(image) => Ok(emitted_len(image.len(), inputs.header_encrypted)),
    }
}

/// Where the blocks land once the main header holds certain offsets.
pub struct LayoutPass {
    pub main_extra: Seq<u8>,
    pub main_header_len: nat,
    pub quick_open_position: nat,
    pub recovery_position: nat,
}

#[verifier::opaque]
pub open spec fn pass_of(
    inputs: LayoutInputs<'_>,
    quick_open_block_len: u64,
    quick_open: Option<u64>,
    recovery: Option<u64>,
) -> std::result::Result<LayoutPass, Error> {
    match extra_at(inputs, quick_open, recovery) {
        Err(error) => Err(error),
        Ok(main_extra) => match main_header_len_of(inputs, main_extra) {
            Err(error) => Err(error),
            Ok(main_header_len) => {
                let quick_open_position = SIGNATURE_LEN as nat + inputs.head_crypt_len as nat
                    + main_header_len + inputs.body_len as nat;
                let recovery_position = quick_open_position + quick_open_block_len as nat;
                if recovery_position > u64::MAX {
                    Err(Error::InvalidHeader("RAR 5 archive layout overflows"))
                } else {
                    Ok(
                        LayoutPass {
                            main_extra,
                            main_header_len,
                            quick_open_position,
                            recovery_position,
                        },
                    )
                }
            },
        },
    }
}

/// The offset that leads to `position`, where the block is there at all.
pub open spec fn offset_to(present: bool, position: nat) -> Option<u64> {
    if present {
        Some((position - SIGNATURE_LEN) as u64)
    } else {
        None
    }
}

/// What comes of working the offsets out anew until they stay as they are:
/// a layout, a failure, or nothing where the passes run out first.
pub open spec fn solve(
    inputs: LayoutInputs<'_>,
    quick_open_block_len: u64,
    quick_open: Option<u64>,
    recovery: Option<u64>,
    passes: nat,
) -> Option<std::result::Result<LayoutView, Error>>
    decreases passes,
{
    if passes == 0 {
        None
    } else {
        match pass_of(inputs, quick_open_block_len, quick_open, recovery) {
            Err(error) => Some(Err(error)),
            Ok(pass) => {
                let next_quick_open = offset_to(quick_open is Some, pass.quick_open_position);
                let next_recovery = offset_to(recovery is Some, pass.recovery_position);
                if next_quick_open == quick_open && next_recovery == recovery {
                    Some(
                        Ok(
                            LayoutView {
                                main_extra: pass.main_extra,
                                main_header_len: pass.main_header_len,
                                recovery_offset: recovery,
                                recovery_prefix_len: if recovery is Some {
                                    Some(pass.recovery_position as u64)
                                } else {
                                    None
                                },
                            },
                        ),
                    )
                } else {
                    solve(
                        inputs,
                        quick_open_block_len,
                        next_quick_open,
                        next_recovery,
                        (passes - 1) as nat,
                    )
                }
            },
        }
    }
}

/// The size of the quick-open block, or zero where there is none.
pub open spec fn quick_open_block_len_of(
    inputs: LayoutInputs<'_>,
) -> std::result::Result<u64, Error> {
    match inputs.quick_open_payload_len {
        Some(payload_len) => stored_service_block_len_of(
            quick_open_name(),
            payload_len,
            Seq::empty(),
            inputs.header_encrypted,
        ),
        None => Ok(0),
    }
}

/// The name of the quick-open service.
pub open spec fn quick_open_name() -> Seq<u8> {
    seq![0x51u8, 0x4f]
}

pub open spec fn zero_where(present: bool) -> Option<u64> {
    if present {
        Some(0)
    } else {
        None
    }
}

/// The layout of an archive, starting from offsets of zero.
pub open spec fn layout_of(
    inputs: LayoutInputs<'_>,
) -> Option<std::result::Result<LayoutView, Error>> {
    match quick_open_block_len_of(inputs) {
        Err(error) => Some(Err(error)),
        Ok(block_len) => solve(
            inputs,
            block_len,
            zero_where(inputs.quick_open_payload_len is Some),
            zero_where(inputs.recovery_percent is Some),
            MAX_LAYOUT_PASSES as nat,
        ),
    }
}

/// How many bytes an offset takes in the locator.
pub open spec fn offset_width(offset: Option<u64>) -> nat {
    match offset {
        Some(offset) => vint_len(offset as nat),
        None => 0,
    }
}

/// The length of the main header, from the widths of the two offsets that its
/// locator holds and the length of the records behind the locator.
#[verifier::opaque]
spec fn header_len_by_width(
    inputs: LayoutInputs<'_>,
    records_len: nat,
    widths: nat,
) -> nat {
    emitted_len(
        plain_len(
            HEAD_MAIN,
            HFL_EXTRA,
            None,
            main_fields(inputs.main_flags, inputs.volume_number).len(),
            3 + widths + records_len,
        ),
        inputs.header_encrypted,
    )
}

proof fn lemma_locator_len(quick_open: Option<u64>, recovery: Option<u64>)
    ensures
        locator_record(quick_open, recovery).len() == 3 + offset_width(quick_open) + offset_width(
            recovery,
        ),
{
    let flags = locator_flags(quick_open, recovery);
    let data = vint(flags as nat) + optional_vint(quick_open) + optional_vint(recovery);
    assert(vint(flags as nat).len() == 1);
    if let Some(offset) = quick_open {
        lemma_vint_len(offset as nat);
        lemma_vint_len_bound(offset as nat);
    }
    if let Some(offset) = recovery {
        lemma_vint_len(offset as nat);
        lemma_vint_len_bound(offset as nat);
    }
    assert(data.len() == 1 + offset_width(quick_open) + offset_width(recovery));
    assert(vint(1).len() == 1);
    assert(vint((1 + data.len()) as nat).len() == 1);
}

/// The records behind the locator, which no offset changes.
spec fn records_len(inputs: LayoutInputs<'_>) -> nat {
    (match metadata_part(inputs.archive_metadata) {
        Ok(record) => record.len(),
        Err(_) => 0,
    }) + (match retained_part(inputs) {
        Ok(record) => record.len(),
        Err(_) => 0,
    })
}

spec fn located_widths(
    inputs: LayoutInputs<'_>,
    quick_open: Option<u64>,
    recovery: Option<u64>,
) -> nat {
    offset_width(located_quick_open(inputs.archive_metadata is Some, quick_open)) + offset_width(
        recovery,
    )
}

/// With an offset to hold, the length of the main header depends on the widths
/// of the offsets and on nothing else of them.
proof fn lemma_pass_len(
    inputs: LayoutInputs<'_>,
    block_len: u64,
    quick_open: Option<u64>,
    recovery: Option<u64>,
)
    requires
        quick_open is Some || recovery is Some,
    ensures
        pass_of(inputs, block_len, quick_open, recovery) matches Ok(pass) ==> pass.main_header_len
            == header_len_by_width(
            inputs,
            records_len(inputs),
            located_widths(inputs, quick_open, recovery),
        ) && pass.quick_open_position == SIGNATURE_LEN as nat + inputs.head_crypt_len as nat
            + inputs.body_len as nat + pass.main_header_len && pass.recovery_position
            == pass.quick_open_position + block_len as nat && pass.recovery_position <= u64::MAX,
{
    reveal(pass_of);
    reveal(header_len_by_width);
    if let Ok(pass) = pass_of(inputs, block_len, quick_open, recovery) {
        let located = located_quick_open(inputs.archive_metadata is Some, quick_open);
        lemma_locator_len(located, recovery);
        assert(pass.main_extra.len() == 3 + located_widths(inputs, quick_open, recovery)
            + records_len(inputs));
        law_header_length_is_predictable(
            HEAD_MAIN,
            HFL_EXTRA,
            None,
            main_fields(inputs.main_flags, inputs.volume_number),
            pass.main_extra,
        );
    }
}

/// Wider offsets lengthen the main header, by a few bytes at most.
proof fn lemma_header_grows(inputs: LayoutInputs<'_>, records: nat, narrow: nat, wide: nat)
    requires
        narrow <= wide <= narrow + 20,
    ensures
        header_len_by_width(inputs, records, narrow) <= header_len_by_width(inputs, records, wide)
            <= header_len_by_width(inputs, records, narrow) + 48,
{
    reveal(header_len_by_width);
    let fields = main_fields(inputs.main_flags, inputs.volume_number).len();
    let small: nat = 3 + narrow + records;
    let large: nat = 3 + wide + records;
    lemma_vint_len_step(small, (large - small) as nat);
    let small_body = body_len(HEAD_MAIN, HFL_EXTRA, None, fields, small);
    let large_body = body_len(HEAD_MAIN, HFL_EXTRA, None, fields, large);
    assert(small_body <= large_body <= small_body + 21);
    lemma_vint_len_step(small_body, (large_body - small_body) as nat);
}

/// An offset that holds `base` plus a header length, seen over the window of
/// lengths that the header can have.
spec fn window_top(inputs: LayoutInputs<'_>, base: nat) -> nat {
    base + header_len_by_width(inputs, records_len(inputs), 0) + 48
}

spec fn top_width(inputs: LayoutInputs<'_>, present: bool, base: nat) -> nat {
    if present {
        vint_len(window_top(inputs, base))
    } else {
        0
    }
}

/// The room that the two offsets have left to widen in.
spec fn slack(
    inputs: LayoutInputs<'_>,
    block_len: u64,
    quick_open: Option<u64>,
    recovery: Option<u64>,
) -> int {
    let base = inputs.head_crypt_len as nat + inputs.body_len as nat;
    top_width(inputs, quick_open is Some, base) + top_width(
        inputs,
        recovery is Some,
        base + block_len as nat,
    ) - offset_width(quick_open) - offset_width(recovery)
}

/// Whether the offsets are those that a pass gives.
spec fn comes_from(
    inputs: LayoutInputs<'_>,
    block_len: u64,
    earlier_quick_open: Option<u64>,
    earlier_recovery: Option<u64>,
    quick_open: Option<u64>,
    recovery: Option<u64>,
) -> bool {
    &&& pass_of(inputs, block_len, earlier_quick_open, earlier_recovery) matches Ok(pass)
    &&& quick_open == offset_to(earlier_quick_open is Some, pass.quick_open_position)
    &&& recovery == offset_to(earlier_recovery is Some, pass.recovery_position)
}

/// What a pass gives lies in the window, one width from its top at most.
proof fn lemma_offsets_in_window(
    inputs: LayoutInputs<'_>,
    block_len: u64,
    earlier_quick_open: Option<u64>,
    earlier_recovery: Option<u64>,
    quick_open: Option<u64>,
    recovery: Option<u64>,
)
    requires
        earlier_quick_open is Some || earlier_recovery is Some,
        comes_from(
            inputs,
            block_len,
            earlier_quick_open,
            earlier_recovery,
            quick_open,
            recovery,
        ),
    ensures
        0 <= slack(inputs, block_len, quick_open, recovery) <= 2,
        quick_open is Some ==> offset_width(quick_open) <= top_width(
            inputs,
            true,
            inputs.head_crypt_len as nat + inputs.body_len as nat,
        ),
        recovery is Some ==> offset_width(recovery) <= top_width(
            inputs,
            true,
            inputs.head_crypt_len as nat + inputs.body_len as nat + block_len as nat,
        ),
{
    lemma_pass_len(inputs, block_len, earlier_quick_open, earlier_recovery);
    let widths = located_widths(inputs, earlier_quick_open, earlier_recovery);
    let located = located_quick_open(inputs.archive_metadata is Some, earlier_quick_open);
    if let Some(offset) = located {
        lemma_vint_len_bound(offset as nat);
    }
    if let Some(offset) = earlier_recovery {
        lemma_vint_len_bound(offset as nat);
    }
    lemma_header_grows(inputs, records_len(inputs), 0, widths);
    let base = inputs.head_crypt_len as nat + inputs.body_len as nat;
    if let Some(offset) = quick_open {
        let step = (window_top(inputs, base) - offset as nat) as nat;
        lemma_vint_len_step(offset as nat, step);
    }
    if let Some(offset) = recovery {
        let step = (window_top(inputs, base + block_len as nat) - offset as nat) as nat;
        lemma_vint_len_step(offset as nat, step);
    }
}

/// Offsets that a pass gave settle within the passes that their slack allows.
proof fn lemma_settles_from(
    inputs: LayoutInputs<'_>,
    block_len: u64,
    earlier_quick_open: Option<u64>,
    earlier_recovery: Option<u64>,
    quick_open: Option<u64>,
    recovery: Option<u64>,
    passes: nat,
)
    requires
        earlier_quick_open is Some || earlier_recovery is Some,
        comes_from(
            inputs,
            block_len,
            earlier_quick_open,
            earlier_recovery,
            quick_open,
            recovery,
        ),
        offset_width(earlier_quick_open) <= offset_width(quick_open),
        offset_width(earlier_recovery) <= offset_width(recovery),
        passes >= 2 + slack(inputs, block_len, quick_open, recovery),
    ensures
        solve(inputs, block_len, quick_open, recovery, passes) is Some,
    decreases passes,
{
    lemma_offsets_in_window(
        inputs,
        block_len,
        earlier_quick_open,
        earlier_recovery,
        quick_open,
        recovery,
    );
    if let Ok(pass) = pass_of(inputs, block_len, quick_open, recovery) {
        let next_quick_open = offset_to(quick_open is Some, pass.quick_open_position);
        let next_recovery = offset_to(recovery is Some, pass.recovery_position);
        lemma_pass_len(inputs, block_len, earlier_quick_open, earlier_recovery);
        lemma_pass_len(inputs, block_len, quick_open, recovery);
        let earlier = located_widths(inputs, earlier_quick_open, earlier_recovery);
        let now = located_widths(inputs, quick_open, recovery);
        if let Some(offset) = located_quick_open(inputs.archive_metadata is Some, quick_open) {
            lemma_vint_len_bound(offset as nat);
        }
        if let Some(offset) = recovery {
            lemma_vint_len_bound(offset as nat);
        }
        lemma_header_grows(inputs, records_len(inputs), earlier, now);
        if let (Some(offset), Some(next)) = (quick_open, next_quick_open) {
            lemma_vint_len_grows(offset as nat, next as nat);
        }
        if let (Some(offset), Some(next)) = (recovery, next_recovery) {
            lemma_vint_len_grows(offset as nat, next as nat);
        }
        lemma_offsets_in_window(
            inputs,
            block_len,
            quick_open,
            recovery,
            next_quick_open,
            next_recovery,
        );
        if next_quick_open == quick_open && next_recovery == recovery {
        } else if offset_width(next_quick_open) == offset_width(quick_open) && offset_width(
            next_recovery,
        ) == offset_width(recovery) {
            lemma_pass_len(inputs, block_len, next_quick_open, next_recovery);
            assert(solve(
                inputs,
                block_len,
                next_quick_open,
                next_recovery,
                (passes - 1) as nat,
            ) is Some);
        } else {
            lemma_settles_from(
                inputs,
                block_len,
                quick_open,
                recovery,
                next_quick_open,
                next_recovery,
                (passes - 1) as nat,
            );
        }
    }
}

/// The offsets always settle: a layout is resolved, or a size or a record is
/// refused, well before the passes run out.
pub proof fn law_layout_settles(inputs: LayoutInputs<'_>)
    ensures
        layout_of(inputs) is Some,
{
    if let Ok(block_len) = quick_open_block_len_of(inputs) {
        let quick_open = zero_where(inputs.quick_open_payload_len is Some);
        let recovery = zero_where(inputs.recovery_percent is Some);
        if let Ok(pass) = pass_of(inputs, block_len, quick_open, recovery) {
            let next_quick_open = offset_to(quick_open is Some, pass.quick_open_position);
            let next_recovery = offset_to(recovery is Some, pass.recovery_position);
            if next_quick_open == quick_open && next_recovery == recovery {
            } else {
                lemma_offsets_in_window(
                    inputs,
                    block_len,
                    quick_open,
                    recovery,
                    next_quick_open,
                    next_recovery,
                );
                if let Some(next) = next_quick_open {
                    lemma_vint_len_grows(0, next as nat);
                }
                if let Some(next) = next_recovery {
                    lemma_vint_len_grows(0, next as nat);
                }
                lemma_settles_from(
                    inputs,
                    block_len,
                    quick_open,
                    recovery,
                    next_quick_open,
                    next_recovery,
                    (MAX_LAYOUT_PASSES - 1) as nat,
                );
            }
        }
    }
}

/// Whether a layout agrees with itself: the main header that holds its offsets
/// has the length that the offsets were worked out from.
pub open spec fn is_consistent(
    inputs: LayoutInputs<'_>,
    quick_open_block_len: u64,
    layout: LayoutView,
) -> bool {
    let quick_open_position = SIGNATURE_LEN as nat + inputs.head_crypt_len as nat
        + layout.main_header_len + inputs.body_len as nat;
    let recovery_position = quick_open_position + quick_open_block_len as nat;
    let quick_open = offset_to(inputs.quick_open_payload_len is Some, quick_open_position);
    &&& recovery_position <= u64::MAX
    &&& extra_at(inputs, quick_open, layout.recovery_offset) == Ok::<Seq<u8>, Error>(
        layout.main_extra,
    )
    &&& main_header_len_of(inputs, layout.main_extra) == Ok::<nat, Error>(layout.main_header_len)
    &&& layout.recovery_offset == offset_to(inputs.recovery_percent is Some, recovery_position)
    &&& layout.recovery_prefix_len == (if inputs.recovery_percent is Some {
        Some(recovery_position as u64)
    } else {
        None
    })
}

proof fn lemma_solved_is_consistent(
    inputs: LayoutInputs<'_>,
    block_len: u64,
    quick_open: Option<u64>,
    recovery: Option<u64>,
    passes: nat,
)
    requires
        quick_open is Some == inputs.quick_open_payload_len is Some,
        recovery is Some == inputs.recovery_percent is Some,
    ensures
        solve(inputs, block_len, quick_open, recovery, passes) matches Some(Ok(layout))
            ==> is_consistent(inputs, block_len, layout),
    decreases passes,
{
    reveal(pass_of);
    if passes > 0 {
        if let Ok(pass) = pass_of(inputs, block_len, quick_open, recovery) {
            let next_quick_open = offset_to(quick_open is Some, pass.quick_open_position);
            let next_recovery = offset_to(recovery is Some, pass.recovery_position);
            if !(next_quick_open == quick_open && next_recovery == recovery) {
                lemma_solved_is_consistent(
                    inputs,
                    block_len,
                    next_quick_open,
                    next_recovery,
                    (passes - 1) as nat,
                );
            }
        }
    }
}

/// The offsets of a resolved layout are exactly where the blocks land when the
/// archive is assembled from the sizes it gives, and building the main header
/// again with them does not resize it.
pub proof fn law_layout_is_consistent(inputs: LayoutInputs<'_>)
    ensures
        layout_of(inputs) matches Some(Ok(layout)) ==> (quick_open_block_len_of(inputs) matches Ok(
            block_len,
        ) && is_consistent(inputs, block_len, layout)),
{
    if let Ok(block_len) = quick_open_block_len_of(inputs) {
        lemma_solved_is_consistent(
            inputs,
            block_len,
            zero_where(inputs.quick_open_payload_len is Some),
            zero_where(inputs.recovery_percent is Some),
            MAX_LAYOUT_PASSES as nat,
        );
    }
}

/// The length of a main header with this extra area.
pub fn main_header_len(inputs: &LayoutInputs<'_>, extra: &[u8]) -> (r: Result<u64>)
    ensures
        match main_header_len_of(*inputs, extra@) {
            Ok(len) => r is Ok && r->Ok_0 == len && len <= isize::MAX + 32,
            Err(error) => r == Err::<u64, Error>(error),
        },
{
    let specific = main_specific(inputs.main_flags, inputs.volume_number);
    let flags: u64 = if extra.len() == 0 {
        0
    } else {
        HFL_EXTRA
    };
    match block_header_image(HEAD_MAIN, flags, None, &specific, extra) {
        Ok(header) => Ok(emitted_header_len(header.len() as u64, inputs.header_encrypted)),
        Err(error) => Err(error),
    }
}

/// Works out where the blocks of an archive land.
pub fn resolve_layout(inputs: &LayoutInputs<'_>) -> (r: Result<ResolvedLayout>)
    ensures
        layout_of(*inputs) == Some(layout_result(r)),
        r matches Ok(layout) ==> (quick_open_block_len_of(*inputs) matches Ok(block_len)
            && is_consistent(*inputs, block_len, layout@)),
{
    proof {
        law_layout_settles(*inputs);
        law_layout_is_consistent(*inputs);
    }
    let quick_open_block_len: u64 = match inputs.quick_open_payload_len {
        Some(payload_len) => {
            let name: [u8; 2] = [0x51, 0x4f];
            let nothing: Vec<u8> = Vec::new();
            assert(name@ == quick_open_name());
            assert(nothing@ == Seq::<u8>::empty());
            match stored_service_block_len(&name, payload_len, &nothing, inputs.header_encrypted) {
                Ok(len) => len,
                Err(error) => {
                    return Err(error);
                },
            }
        },
        None => 0,
    };
    let mut quick_open_offset: Option<u64> = match inputs.quick_open_payload_len {
        Some(_) => Some(0),
        None => None,
    };
    let mut recovery_offset: Option<u64> = match inputs.recovery_percent {
        Some(_) => Some(0),
        None => None,
    };
    let mut passes: usize = MAX_LAYOUT_PASSES;
    while passes > 0
        invariant
            quick_open_block_len_of(*inputs) == Ok::<u64, Error>(quick_open_block_len),
            layout_of(*inputs) is Some,
            layout_of(*inputs) matches Some(Ok(layout)) ==> is_consistent(
                *inputs,
                quick_open_block_len,
                layout,
            ),
            layout_of(*inputs) == solve(
                *inputs,
                quick_open_block_len,
                quick_open_offset,
                recovery_offset,
                passes as nat,
            ),
            inputs.recovery_percent is Some == recovery_offset is Some,
        decreases passes,
    {
        proof {
            reveal(pass_of);
        }
        let mut main_extra = match resolved_main_extra(
            inputs.archive_metadata,
            quick_open_offset,
            recovery_offset,
        ) {
            Ok(main_extra) => main_extra,
            Err(error) => {
                return Err(error);
            },
        };
        match inputs.metadata_record {
            Some(record) => {
                match retained_archive_metadata(record) {
                    Ok(bytes) => push_all(&mut main_extra, &bytes),
                    Err(error) => {
                        return Err(error);
                    },
                }
            },
            None => {
                assert(main_extra@ + Seq::<u8>::empty() == main_extra@);
            },
        }
        assert(extra_at(*inputs, quick_open_offset, recovery_offset) == Ok::<Seq<u8>, Error>(
            main_extra@,
        ));
        let header_len: u64 = match main_header_len(inputs, &main_extra) {
            Ok(len) => len,
            Err(error) => {
                return Err(error);
            },
        };
        let recovery_position: u128 = SIGNATURE_LEN as u128 + inputs.head_crypt_len as u128
            + header_len as u128 + inputs.body_len as u128 + quick_open_block_len as u128;
        if recovery_position > u64::MAX as u128 {
            return Err(Error::InvalidHeader("RAR 5 archive layout overflows"));
        }
        let quick_open_position: u64 = SIGNATURE_LEN + inputs.head_crypt_len + header_len
            + inputs.body_len;
        let recovery_position: u64 = quick_open_position + quick_open_block_len;
        let next_quick_open: Option<u64> = match quick_open_offset {
            Some(_) => Some(quick_open_position - SIGNATURE_LEN),
            None => None,
        };
        let next_recovery: Option<u64> = match recovery_offset {
            Some(_) => Some(recovery_position - SIGNATURE_LEN),
            None => None,
        };
        if next_quick_open == quick_open_offset && next_recovery == recovery_offset {
            let recovery_prefix_len: Option<u64> = match inputs.recovery_percent {
                Some(_) => Some(recovery_position),
                None => None,
            };
            return Ok(
                ResolvedLayout {
                    main_extra,
                    main_header_len: header_len,
                    recovery_offset,
                    recovery_prefix_len,
                },
            );
        }
        quick_open_offset = next_quick_open;
        recovery_offset = next_recovery;
        passes = passes - 1;
    }
    Err(Error::InvalidHeader("RAR 5 writer could not resolve archive layout offsets"))
}

} // verus!
