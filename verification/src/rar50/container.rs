//! Putting an archive or a volume together around its body.
//!
//! Signature, encryption header, main header, body, quick-open block, recovery
//! block, end header. The main header holds the offsets of the blocks behind
//! the body, and the recovery block protects everything before it, so each is
//! built on what is already settled.

use vstd::prelude::*;

use crate::bytes::push_all;
#[allow(unused_imports)]
use crate::crc32::crc32_of;
use crate::error::{Error, Result};
#[allow(unused_imports)]
use crate::rar50::blocks::{service_image_of, BlockView};
use crate::rar50::blocks::PreparedBlock;
#[allow(unused_imports)]
use crate::rar50::file_header::{file_fields, law_file_fields_len};
#[allow(unused_imports)]
use crate::rar50::format::{
    signature, FHEXTRA_SUBDATA, HEAD_END, HEAD_MAIN, HEAD_SERVICE, HFL_DATA, HFL_EXTRA,
    SIGNATURE_LEN,
};
use crate::rar50::format::write_signature;
#[allow(unused_imports)]
use crate::rar50::headers::{body_len, emitted_len, header_image, law_header_length_is_predictable};
use crate::rar50::layout::{resolve_layout, LayoutInputs};
#[allow(unused_imports)]
use crate::rar50::layout::{
    extra_at, layout_of, law_layout_is_consistent, main_header_len_of, offset_to,
    quick_open_block_len_of, service_extra, LayoutView,
};
use crate::rar50::main_header::{write_end_header, write_main_header};
#[allow(unused_imports)]
use crate::rar50::main_header::{extra_flag, main_fields};
use crate::rar50::metadata::{ArchiveMetadataEntry, ArchiveMetadataRecord};
use crate::rar50::recovery_service::recovery_service;
#[allow(unused_imports)]
use crate::rar50::recovery_service::{
    recovery_block_of, recovery_error, recovery_name, recovery_payload,
};
#[allow(unused_imports)]
use crate::rar50::vint::{lemma_vint_len, lemma_vint_len_bound, vint};
use crate::write_progress::{report_emission, tell, WriteProgress};
#[allow(unused_imports)]
use crate::write_progress::{emission_event, is_stopped_by, is_told, takes_course};
#[allow(unused_imports)]
use crate::recovery::rar5::record::takes_recovery;

verus! {

/// Whether headers can be emitted by `seal`: it takes any header, and what it
/// gives has the length that the layout counts on.
pub open spec fn is_sealing<S: Fn(Vec<u8>) -> Result<Vec<u8>>>(seal: S, encrypted: bool) -> bool {
    &&& forall|image: Vec<u8>| #[trigger] call_requires(seal, (image,))
    &&& forall|image: Vec<u8>, out: Vec<u8>| #[trigger]
        call_ensures(seal, (image,), Ok::<Vec<u8>, Error>(out)) ==> out@.len() == emitted_len(
            image@.len(),
            encrypted,
        )
}

/// Whether `seal` may emit a header as `out`.
pub open spec fn seals_to<S: Fn(Vec<u8>) -> Result<Vec<u8>>>(
    seal: S,
    image: Seq<u8>,
    out: Seq<u8>,
) -> bool {
    exists|given: Vec<u8>, made: Vec<u8>|
        given@ == image && made@ == out && #[trigger] call_ensures(
            seal,
            (given,),
            Ok::<Vec<u8>, Error>(made),
        )
}

/// Whether `seal` may fail with this error.
pub open spec fn seal_fails<S: Fn(Vec<u8>) -> Result<Vec<u8>>>(seal: S, error: Error) -> bool {
    exists|given: Vec<u8>| #[trigger] call_ensures(seal, (given,), Err::<Vec<u8>, Error>(error))
}

/// How headers are emitted, as a relation between a header and its bytes in the
/// archive.
pub open spec fn emission_by<S: Fn(Vec<u8>) -> Result<Vec<u8>>>(
    seal: S,
) -> spec_fn(Seq<u8>, Seq<u8>) -> bool {
    |image: Seq<u8>, out: Seq<u8>| seals_to(seal, image, out)
}

/// Headers in the clear stand in the archive as they are.
pub open spec fn in_the_clear() -> spec_fn(Seq<u8>, Seq<u8>) -> bool {
    |image: Seq<u8>, out: Seq<u8>| out == image
}

/// Whether emission keeps to the lengths that the layout counts on.
pub open spec fn keeps_lengths(
    emits: spec_fn(Seq<u8>, Seq<u8>) -> bool,
    encrypted: bool,
) -> bool {
    forall|image: Seq<u8>, out: Seq<u8>| #[trigger]
        emits(image, out) ==> out.len() == emitted_len(image.len(), encrypted)
}

/// Whether `seal` leaves headers in the clear and never fails.
pub open spec fn is_clear<S: Fn(Vec<u8>) -> Result<Vec<u8>>>(seal: S) -> bool {
    forall|image: Vec<u8>, r: Result<Vec<u8>>| #[trigger]
        call_ensures(seal, (image,), r) ==> r == Ok::<Vec<u8>, Error>(image)
}

/// A container written with headers in the clear is written as nothing else.
pub proof fn lemma_clear_container<S: Fn(Vec<u8>) -> Result<Vec<u8>>>(
    container: ContainerView<'_>,
    seal: S,
    out: Seq<u8>,
)
    requires
        is_clear(seal),
        container.is_written_as(emission_by(seal), out),
    ensures
        container.is_written_as(in_the_clear(), out),
{
    let layout = layout_of(container.inputs())->Some_0->Ok_0;
    let emission = choose|emission: Emission| #[trigger]
        container.is_emission(emission_by(seal), layout, emission) && out == container.assembled(
            emission,
        );
    assert forall|image: Seq<u8>, made: Seq<u8>| #[trigger] seals_to(seal, image, made) implies made
        == image by {}
    assert(container.is_emission(in_the_clear(), layout, emission));
}

/// Emits one header.
pub fn emit_header<S: Fn(Vec<u8>) -> Result<Vec<u8>>>(image: Vec<u8>, seal: &S) -> (r: Result<
    Vec<u8>,
>)
    requires
        call_requires(*seal, (image,)),
    ensures
        match r {
            Ok(out) => seals_to(*seal, image@, out@) && call_ensures(
                *seal,
                (image,),
                Ok::<Vec<u8>, Error>(out),
            ),
            Err(error) => seal_fails(*seal, error),
        },
{
    let ghost given = image;
    match seal(image) {
        Ok(out) => {
            assert(call_ensures(*seal, (given,), Ok::<Vec<u8>, Error>(out)));
            Ok(out)
        },
        Err(error) => {
            assert(call_ensures(*seal, (given,), Err::<Vec<u8>, Error>(error)));
            Err(error)
        },
    }
}

/// What an archive or a volume is put together from.
#[derive(Debug, Clone, Copy)]
pub struct Container<'a> {
    pub header_encrypted: bool,
    /// The encryption header, or nothing.
    pub head_crypt: &'a [u8],
    pub main_flags: u64,
    pub volume_number: Option<u64>,
    pub archive_metadata: Option<ArchiveMetadataEntry<'a>>,
    pub metadata_record: Option<&'a ArchiveMetadataRecord>,
    /// The blocks between the main header and the quick-open block.
    pub body: &'a [u8],
    /// The quick-open block with its header emitted.
    pub quick_open: Option<&'a PreparedBlock>,
    pub recovery_percent: Option<u64>,
    pub memory_limit: u64,
    pub end_flags: u64,
}

/// The headers of a container as they were emitted.
pub struct Emission {
    pub main: Seq<u8>,
    pub recovery_header: Seq<u8>,
    pub end: Seq<u8>,
}

/// A container by its contents.
pub struct ContainerView<'a> {
    pub header_encrypted: bool,
    pub head_crypt: Seq<u8>,
    pub main_flags: u64,
    pub volume_number: Option<u64>,
    pub archive_metadata: Option<ArchiveMetadataEntry<'a>>,
    pub metadata_record: Option<&'a ArchiveMetadataRecord>,
    pub body: Seq<u8>,
    pub quick_open: Option<BlockView>,
    pub recovery_percent: Option<u64>,
    pub memory_limit: u64,
    pub end_flags: u64,
}

impl<'a> View for Container<'a> {
    type V = ContainerView<'a>;

    open spec fn view(&self) -> ContainerView<'a> {
        ContainerView {
            header_encrypted: self.header_encrypted,
            head_crypt: self.head_crypt@,
            main_flags: self.main_flags,
            volume_number: self.volume_number,
            archive_metadata: self.archive_metadata,
            metadata_record: self.metadata_record,
            body: self.body@,
            quick_open: match self.quick_open {
                Some(block) => Some(block@),
                None => None,
            },
            recovery_percent: self.recovery_percent,
            memory_limit: self.memory_limit,
            end_flags: self.end_flags,
        }
    }
}

impl<'a> ContainerView<'a> {
    pub open spec fn inputs(self) -> LayoutInputs<'a> {
        LayoutInputs {
            header_encrypted: self.header_encrypted,
            head_crypt_len: self.head_crypt.len() as u64,
            main_flags: self.main_flags,
            volume_number: self.volume_number,
            archive_metadata: self.archive_metadata,
            metadata_record: self.metadata_record,
            body_len: self.body.len() as u64,
            quick_open_payload_len: match self.quick_open {
                Some(block) => Some(block.payload_len),
                None => None,
            },
            recovery_percent: self.recovery_percent,
        }
    }

    /// The quick-open block in the archive.
    pub open spec fn quick_open_bytes(self) -> Seq<u8> {
        match self.quick_open {
            Some(block) => block.header + block.payload,
            None => Seq::empty(),
        }
    }

    /// Whether the quick-open block has the size that the layout works out.
    pub open spec fn is_sized(self) -> bool {
        match self.quick_open {
            Some(_) => quick_open_block_len_of(self.inputs()) matches Ok(len) ==> len
                == self.quick_open_bytes().len(),
            None => true,
        }
    }

    /// Everything before the quick-open block.
    pub open spec fn before_quick_open(self, main: Seq<u8>) -> Seq<u8> {
        signature() + self.head_crypt + main + self.body
    }

    /// Everything that a recovery record protects.
    pub open spec fn prefix(self, main: Seq<u8>) -> Seq<u8> {
        self.before_quick_open(main) + self.quick_open_bytes()
    }

    /// The main header of a layout.
    pub open spec fn main_image(self, layout: LayoutView) -> Seq<u8> {
        header_image(
            HEAD_MAIN,
            extra_flag(layout.main_extra),
            None,
            main_fields(self.main_flags, self.volume_number),
            layout.main_extra,
        )
    }

    pub open spec fn end_image(self) -> Seq<u8> {
        header_image(HEAD_END, 0, None, vint(self.end_flags as nat), Seq::empty())
    }

    /// The recovery block in the archive.
    pub open spec fn recovery_bytes(self, emission: Emission) -> Seq<u8> {
        match self.recovery_percent {
            Some(percent) => emission.recovery_header + recovery_payload(
                self.prefix(emission.main),
                percent,
            ),
            None => Seq::empty(),
        }
    }

    /// Whether these are the container's headers, each emitted.
    pub open spec fn is_emission(
        self,
        emits: spec_fn(Seq<u8>, Seq<u8>) -> bool,
        layout: LayoutView,
        emission: Emission,
    ) -> bool {
        &&& emits(self.main_image(layout), emission.main)
        &&& emits(self.end_image(), emission.end)
        &&& match self.recovery_percent {
            Some(percent) => recovery_block_of(
                self.prefix(emission.main),
                percent,
                self.memory_limit,
            ) matches Ok(block) && emits(block.header, emission.recovery_header),
            None => emission.recovery_header == Seq::<u8>::empty(),
        }
    }

    /// The container with these headers.
    pub open spec fn assembled(self, emission: Emission) -> Seq<u8> {
        self.prefix(emission.main) + self.recovery_bytes(emission) + emission.end
    }

    /// Whether `out` is this container.
    pub open spec fn is_written_as(
        self,
        emits: spec_fn(Seq<u8>, Seq<u8>) -> bool,
        out: Seq<u8>,
    ) -> bool {
        layout_of(self.inputs()) matches Some(Ok(layout)) && exists|emission: Emission| #[trigger]
            self.is_emission(emits, layout, emission) && out == self.assembled(emission)
    }

    /// The headers of a container in the clear.
    pub open spec fn plain_emission(self, layout: LayoutView) -> Emission {
        let main = self.main_image(layout);
        Emission {
            main,
            recovery_header: match self.recovery_percent {
                Some(percent) => match recovery_block_of(
                    self.prefix(main),
                    percent,
                    self.memory_limit,
                ) {
                    Ok(block) => block.header,
                    Err(_) => Seq::empty(),
                },
                None => Seq::empty(),
            },
            end: self.end_image(),
        }
    }

    /// The container with its headers in the clear, or why there is none.
    pub open spec fn plain_image(self) -> std::result::Result<Seq<u8>, Error> {
        match (self.error(), layout_of(self.inputs())) {
            (None, Some(Ok(layout))) => Ok(self.assembled(self.plain_emission(layout))),
            (Some(error), _) => Err(error),
            _ => Err(Error::WriterFailure("RAR 5 archive layout does not settle")),
        }
    }

    /// Why the container cannot be written, whatever the headers become.
    pub open spec fn error(self) -> Option<Error> {
        match layout_of(self.inputs()) {
            Some(Ok(layout)) => match (self.recovery_percent, layout.recovery_prefix_len) {
                (Some(percent), Some(prefix_len)) => recovery_error(
                    prefix_len as nat,
                    percent,
                    self.memory_limit,
                ),
                _ => None,
            },
            Some(Err(error)) => Some(error),
            None => None,
        }
    }
}

/// A service with a short name and little data of its own has a header that
/// always fits.
pub proof fn lemma_short_service_fits(
    name: Seq<u8>,
    data_len: u64,
    crc32: u32,
    service_data: Seq<u8>,
)
    requires
        0 < name.len() <= 16,
        service_data.len() <= 16,
    ensures
        service_image_of(name, data_len, crc32, service_data) is Ok,
        service_image_of(name, data_len, crc32, service_data)->Ok_0.len() <= 256,
{
    let fields = file_fields(name, data_len, Some(crc32), 0, None, 0, 0, false);
    law_file_fields_len(name, data_len, Some(crc32), 0, None, 0, 0, false);
    lemma_vint_len_bound(data_len as nat);
    lemma_vint_len_bound(0);
    lemma_vint_len_bound(name.len());
    assert(fields.len() <= 80);
    let extra = service_extra(service_data);
    lemma_vint_len(FHEXTRA_SUBDATA as nat);
    lemma_vint_len_bound(FHEXTRA_SUBDATA as nat);
    let record = vint(FHEXTRA_SUBDATA as nat) + service_data;
    lemma_vint_len(record.len());
    lemma_vint_len_bound(record.len());
    assert(extra.len() <= 40);
    let flags = (HFL_EXTRA + HFL_DATA) as u64;
    law_header_length_is_predictable(HEAD_SERVICE, flags, Some(data_len), fields, extra);
    lemma_vint_len_bound(HEAD_SERVICE as nat);
    lemma_vint_len_bound(flags as nat);
    lemma_vint_len_bound(extra.len());
    lemma_vint_len_bound(
        body_len(HEAD_SERVICE, flags, Some(data_len), fields.len(), extra.len()),
    );
}

/// An end header always fits.
proof fn lemma_end_fits(end_flags: u64)
    ensures
        header_image(HEAD_END, 0, None, vint(end_flags as nat), Seq::empty()).len() <= 64,
{
    let fields = vint(end_flags as nat);
    lemma_vint_len(end_flags as nat);
    lemma_vint_len_bound(end_flags as nat);
    law_header_length_is_predictable(HEAD_END, 0, None, fields, Seq::empty());
    lemma_vint_len_bound(HEAD_END as nat);
    lemma_vint_len_bound(0);
    lemma_vint_len_bound(body_len(HEAD_END, 0, None, fields.len(), 0));
}

/// The main header has the length that its layout was built on, so that the
/// offsets it holds lead to the blocks: the quick-open block starts as far
/// behind the signature as the locator says, and so does the recovery block,
/// which protects all that comes before it.
pub proof fn law_locator_points_at_the_blocks(
    container: ContainerView<'_>,
    emits: spec_fn(Seq<u8>, Seq<u8>) -> bool,
    layout: LayoutView,
    emission: Emission,
)
    requires
        layout_of(container.inputs()) == Some(Ok::<LayoutView, Error>(layout)),
        keeps_lengths(emits, container.header_encrypted),
        container.is_sized(),
        container.head_crypt.len() <= u64::MAX,
        container.body.len() <= u64::MAX,
        container.is_emission(emits, layout, emission),
    ensures
        emission.main.len() == layout.main_header_len,
        extra_at(
            container.inputs(),
            offset_to(
                container.quick_open is Some,
                container.before_quick_open(emission.main).len(),
            ),
            offset_to(
                container.recovery_percent is Some,
                container.prefix(emission.main).len(),
            ),
        ) == Ok::<Seq<u8>, Error>(layout.main_extra),
        container.recovery_percent is Some ==> layout.recovery_prefix_len == Some(
            container.prefix(emission.main).len() as u64,
        ),
        container.prefix(emission.main).len() <= u64::MAX,
{
    law_layout_is_consistent(container.inputs());
    assert(signature().len() == SIGNATURE_LEN);
    assert(main_header_len_of(container.inputs(), layout.main_extra) == Ok::<nat, Error>(
        layout.main_header_len,
    ));
    assert(emits(container.main_image(layout), emission.main));
    assert(emission.main.len() == emitted_len(
        container.main_image(layout).len(),
        container.header_encrypted,
    ));
    let before = container.before_quick_open(emission.main).len();
    assert(before == SIGNATURE_LEN as nat + container.head_crypt.len() + emission.main.len()
        + container.body.len());
}

proof fn lemma_prefix_len(container: ContainerView<'_>, layout: LayoutView, main: Seq<u8>)
    requires
        layout_of(container.inputs()) == Some(Ok::<LayoutView, Error>(layout)),
        container.is_sized(),
        container.head_crypt.len() <= u64::MAX,
        container.body.len() <= u64::MAX,
        main.len() == emitted_len(
            container.main_image(layout).len(),
            container.header_encrypted,
        ),
    ensures
        container.main_image(layout).len() <= isize::MAX,
        container.prefix(main).len() <= u64::MAX,
        container.recovery_percent is Some ==> layout.recovery_prefix_len == Some(
            container.prefix(main).len() as u64,
        ),
{
    law_layout_is_consistent(container.inputs());
    assert(signature().len() == SIGNATURE_LEN);
    assert(main_header_len_of(container.inputs(), layout.main_extra) == Ok::<nat, Error>(
        layout.main_header_len,
    ));
    assert(container.before_quick_open(main).len() == SIGNATURE_LEN as nat
        + container.head_crypt.len() + main.len() + container.body.len());
}

/// Builds the bytes before the recovery block around an emitted main header.
fn join_prefix(container: &Container<'_>, main: &[u8]) -> (out: Vec<u8>)
    ensures
        out@ == container@.prefix(main@),
{
    let mut out: Vec<u8> = Vec::new();
    write_signature(&mut out);
    push_all(&mut out, container.head_crypt);
    push_all(&mut out, main);
    push_all(&mut out, container.body);
    assert(out@ =~= container@.before_quick_open(main@));
    if let Some(block) = container.quick_open {
        push_all(&mut out, &block.header);
        push_all(&mut out, &block.payload);
    }
    assert(out@ =~= container@.prefix(main@));
    out
}

/// With its headers in the clear there is one way to write a container.
pub proof fn law_plain_container_is_settled(container: ContainerView<'_>, out: Seq<u8>)
    requires
        container.error() is None,
        container.is_written_as(in_the_clear(), out),
    ensures
        container.plain_image() == Ok::<Seq<u8>, Error>(out),
{
    let layout = layout_of(container.inputs())->Some_0->Ok_0;
    let emission = choose|emission: Emission| #[trigger]
        container.is_emission(in_the_clear(), layout, emission) && out == container.assembled(
            emission,
        );
    let plain = container.plain_emission(layout);
    assert(emission.main == plain.main);
    assert(emission.recovery_header == plain.recovery_header);
    assert(emission.end == plain.end);
}

/// Writes everything before the recovery block; the ghost is the main header as
/// it was emitted.
fn write_prefix<S: Fn(Vec<u8>) -> Result<Vec<u8>>, P: WriteProgress>(
    container: &Container<'_>,
    seal: &S,
    emission: Option<&P>,
) -> (r: Result<(Vec<u8>, Ghost<Seq<u8>>)>)
    requires
        is_sealing(*seal, container.header_encrypted),
        container@.is_sized(),
        takes_course(emission),
    ensures
        match r {
            Ok((out, main)) => layout_of(container@.inputs()) matches Some(Ok(layout)) && seals_to(
                *seal,
                container@.main_image(layout),
                main@,
            ) && out@ == container@.prefix(main@) && (container.recovery_percent is Some
                ==> layout.recovery_prefix_len == Some(out@.len() as u64)) && out@.len()
                <= u64::MAX,
            Err(error) => layout_of(container@.inputs()) == Some(
                Err::<LayoutView, Error>(error),
            ) || seal_fails(*seal, error),
        },
        r is Ok ==> is_told(emission, emission_event(true)),
{
    let head_crypt_len: usize = container.head_crypt.len();
    let body_len: usize = container.body.len();
    let inputs = LayoutInputs {
        header_encrypted: container.header_encrypted,
        head_crypt_len: head_crypt_len as u64,
        main_flags: container.main_flags,
        volume_number: container.volume_number,
        archive_metadata: container.archive_metadata,
        metadata_record: container.metadata_record,
        body_len: body_len as u64,
        quick_open_payload_len: match container.quick_open {
            Some(block) => Some(block.payload_len),
            None => None,
        },
        recovery_percent: container.recovery_percent,
    };
    assert(inputs == container@.inputs());
    assert(head_crypt_len == container@.head_crypt.len() && body_len == container@.body.len());
    let layout = match resolve_layout(&inputs) {
        Ok(layout) => layout,
        Err(error) => {
            return Err(error);
        },
    };
    tell(emission, report_emission(true));
    proof {
        law_layout_is_consistent(container@.inputs());
    }
    let mut main_image: Vec<u8> = Vec::new();
    let _ = write_main_header(
        &mut main_image,
        container.main_flags,
        container.volume_number,
        &layout.main_extra,
    );
    assert(main_image@ =~= container@.main_image(layout@));
    let ghost image_len = main_image@.len();
    let main = match emit_header(main_image, seal) {
        Ok(main) => main,
        Err(error) => {
            return Err(error);
        },
    };
    proof {
        assert(main@.len() == emitted_len(image_len, container.header_encrypted));
        lemma_prefix_len(container@, layout@, main@);
    }
    let out = join_prefix(container, &main);
    let ghost main_view = main@;
    Ok((out, Ghost(main_view)))
}

/// Appends the recovery block, where one is asked for; the ghost is its header
/// as it was emitted.
fn append_recovery<S: Fn(Vec<u8>) -> Result<Vec<u8>>, P: WriteProgress>(
    prefix: Vec<u8>,
    percent: Option<u64>,
    memory_limit: u64,
    seal: &S,
    progress: Option<&P>,
) -> (r: Result<(Vec<u8>, Ghost<Seq<u8>>)>)
    requires
        forall|image: Vec<u8>| #[trigger] call_requires(*seal, (image,)),
        takes_recovery(progress),
    ensures
        match percent {
            None => r matches Ok((out, header)) && out@ == prefix@ && header@ == Seq::<
                u8,
            >::empty(),
            Some(percent) => match r {
                Ok((out, header)) => recovery_block_of(prefix@, percent, memory_limit) matches Ok(
                    block,
                ) && seals_to(*seal, block.header, header@) && out@ == prefix@ + (header@
                    + recovery_payload(prefix@, percent)),
                Err(error) => recovery_error(prefix@.len(), percent, memory_limit) == Some(error)
                    || seal_fails(*seal, error) || is_stopped_by(progress, r),
            },
        },
{
    let percent: u64 = match percent {
        Some(percent) => percent,
        None => {
            return Ok((prefix, Ghost(Seq::empty())));
        },
    };
    let block = match recovery_service(percent, &prefix, memory_limit, progress) {
        Ok(block) => block,
        Err(error) => {
            proof {
                let payload = recovery_payload(prefix@, percent);
                lemma_vint_len(percent as nat);
                lemma_vint_len_bound(percent as nat);
                lemma_short_service_fits(
                    recovery_name(),
                    payload.len() as u64,
                    crc32_of(payload),
                    vint(percent as nat),
                );
            }
            return Err(error);
        },
    };
    let ghost block_view = block@;
    let header = match emit_header(block.header, seal) {
        Ok(header) => header,
        Err(error) => {
            return Err(error);
        },
    };
    let ghost before = prefix@;
    let mut out = prefix;
    push_all(&mut out, &header);
    push_all(&mut out, &block.payload);
    assert(out@ =~= before + (header@ + recovery_payload(before, percent)));
    let ghost header_view = header@;
    Ok((out, Ghost(header_view)))
}

proof fn lemma_written(
    container: ContainerView<'_>,
    emits: spec_fn(Seq<u8>, Seq<u8>) -> bool,
    emission: Emission,
    out: Seq<u8>,
)
    requires
        layout_of(container.inputs()) matches Some(Ok(layout)) && emits(
            container.main_image(layout),
            emission.main,
        ) && (container.recovery_percent is Some ==> layout.recovery_prefix_len == Some(
            container.prefix(emission.main).len() as u64,
        )),
        container.prefix(emission.main).len() <= u64::MAX,
        emits(container.end_image(), emission.end),
        match container.recovery_percent {
            Some(percent) => recovery_block_of(
                container.prefix(emission.main),
                percent,
                container.memory_limit,
            ) matches Ok(block) && emits(block.header, emission.recovery_header),
            None => emission.recovery_header == Seq::<u8>::empty(),
        },
        out == container.prefix(emission.main) + container.recovery_bytes(emission)
            + emission.end,
    ensures
        container.error() is None,
        container.is_written_as(emits, out),
{
    let layout = layout_of(container.inputs())->Some_0->Ok_0;
    assert(container.is_emission(emits, layout, emission));
    assert(out == container.assembled(emission));
}

/// Puts a container together. The start of emission is told to `emission`, and
/// how far the recovery record has come to `progress`.
pub fn write_container<S: Fn(Vec<u8>) -> Result<Vec<u8>>, P: WriteProgress>(
    container: &Container<'_>,
    seal: &S,
    emission: Option<&P>,
    progress: Option<&P>,
) -> (r: Result<Vec<u8>>)
    requires
        is_sealing(*seal, container.header_encrypted),
        container@.is_sized(),
        takes_course(emission),
        takes_recovery(progress),
    ensures
        match r {
            Ok(out) => container@.error() is None && container@.is_written_as(
                emission_by(*seal),
                out@,
            ),
            Err(error) => container@.error() == Some(error) || seal_fails(*seal, error)
                || is_stopped_by(progress, r),
        },
        r is Ok ==> is_told(emission, emission_event(true)),
{
    let (prefix, main): (Vec<u8>, Ghost<Seq<u8>>) = match write_prefix(
        container,
        seal,
        emission,
    ) {
        Ok(pair) => pair,
        Err(error) => {
            return Err(error);
        },
    };
    let ghost before = prefix@;
    let (protected, recovery_header): (Vec<u8>, Ghost<Seq<u8>>) = match append_recovery(
        prefix,
        container.recovery_percent,
        container.memory_limit,
        seal,
        progress,
    ) {
        Ok(pair) => pair,
        Err(error) => {
            return Err(error);
        },
    };
    let mut out = protected;
    let mut end_image: Vec<u8> = Vec::new();
    proof {
        lemma_end_fits(container.end_flags);
    }
    let _ = write_end_header(&mut end_image, container.end_flags);
    assert(end_image@ =~= container@.end_image());
    let end = match emit_header(end_image, seal) {
        Ok(end) => end,
        Err(error) => {
            return Err(error);
        },
    };
    push_all(&mut out, &end);
    proof {
        let emission = Emission { main: main@, recovery_header: recovery_header@, end: end@ };
        lemma_written(container@, emission_by(*seal), emission, out@);
    }
    Ok(out)
}

} // verus!
