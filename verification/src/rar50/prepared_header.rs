//! Header images that wait to be emitted, and the quotas they count against.

use vstd::prelude::*;

use crate::error::{Error, Result};
use crate::rar50::blocks::PreparedBlock;
#[allow(unused_imports)]
use crate::rar50::blocks::BlockView;
#[allow(unused_imports)]
use crate::rar50::engine::headers_fit;
use crate::rar50::headers::block_header_image;
#[allow(unused_imports)]
use crate::rar50::headers::{emitted_len, header_image_of, law_header_length_is_predictable};
use crate::rar50::layout::emitted_header_len;
#[allow(unused_imports)]
use crate::rar50::metadata::image_size_error;
#[allow(unused_imports)]
use crate::rar50::quick_open::blocks_view;
use crate::streaming::resources::{CapacityCharge, CapacityClass, WriterResources};
#[allow(unused_imports)]
use crate::streaming::resources::{law_capacity_round_trip, ResourcesView};

verus! {

/// A final header image. Its emitted length counts as a prepared header, and its
/// bytes as preparation, until it is released.
#[derive(Debug)]
pub struct PreparedHeader {
    pub image: Vec<u8>,
    pub admission: CapacityCharge,
    pub bytes: CapacityCharge,
}

/// Why a header that is emitted in `len` bytes is refused, where it is.
pub open spec fn prepared_refusal(resources: ResourcesView, len: u64) -> Option<Error> {
    match resources.capacity_refusal(CapacityClass::PreparedHeaders, len) {
        Some(error) => Some(error),
        None => resources.after_growth(CapacityClass::PreparedHeaders, len).capacity_refusal(
            CapacityClass::Preparation,
            len,
        ),
    }
}

/// Builds a header image once there is room for it. A refusal changes no quota.
pub fn prepared_header_image(
    header_type: u64,
    flags: u64,
    data_size: Option<u64>,
    type_specific: &[u8],
    extra: &[u8],
    encrypted: bool,
    resources: &mut WriterResources,
) -> (r: Result<PreparedHeader>)
    ensures
        match header_image_of(header_type, flags, data_size, type_specific@, extra@) {
            Err(error) => r == Err::<PreparedHeader, Error>(error) && final(resources)@
                == old(resources)@,
            Ok(image) => {
                let len = emitted_len(image.len(), encrypted);
                if len > isize::MAX {
                    r == Err::<PreparedHeader, Error>(image_size_error()) && final(resources)@
                        == old(resources)@
                } else {
                    match prepared_refusal(old(resources)@, len as u64) {
                        Some(error) => r == Err::<PreparedHeader, Error>(error) && final(resources)@
                            == old(resources)@,
                        None => {
                            &&& r matches Ok(header) && header.image@ == image && header.admission
                                == (CapacityCharge {
                                class: CapacityClass::PreparedHeaders,
                                bytes: len as u64,
                            }) && header.bytes == (CapacityCharge {
                                class: CapacityClass::Preparation,
                                bytes: len as u64,
                            })
                            &&& final(resources)@ == old(resources)@.after_growth(
                                CapacityClass::PreparedHeaders,
                                len as u64,
                            ).after_growth(CapacityClass::Preparation, len as u64)
                        },
                    }
                }
            },
        },
{
    let image = match block_header_image(header_type, flags, data_size, type_specific, extra) {
        Ok(image) => image,
        Err(error) => {
            return Err(error);
        },
    };
    proof {
        law_header_length_is_predictable(header_type, flags, data_size, type_specific@, extra@);
    }
    let plain: u128 = image.len() as u128;
    let len: u128 = if encrypted {
        16 + ((plain + 15) / 16) * 16
    } else {
        plain
    };
    if len > isize::MAX as u128 {
        return Err(Error::InvalidArgument("RAR 5 header size overflows"));
    }
    let mut admission = CapacityCharge::new(CapacityClass::PreparedHeaders);
    match admission.grow_to(len as u64, resources) {
        Ok(()) => {},
        Err(error) => {
            return Err(error);
        },
    }
    let mut bytes = CapacityCharge::new(CapacityClass::Preparation);
    match bytes.grow_to(len as u64, resources) {
        Ok(()) => {},
        Err(error) => {
            admission.shrink_to(0, resources);
            proof {
                law_capacity_round_trip(
                    old(resources)@,
                    CapacityClass::PreparedHeaders,
                    len as u64,
                );
            }
            return Err(error);
        },
    }
    Ok(PreparedHeader { image, admission, bytes })
}

impl PreparedHeader {
    /// Gives back what the image counted for.
    pub fn release(self, resources: &mut WriterResources)
        ensures
            final(resources)@ == old(resources)@.after_release(
                self.bytes.class,
                self.bytes.bytes,
            ).after_release(self.admission.class, self.admission.bytes),
    {
        resources.release_capacity(self.bytes.class, self.bytes.bytes);
        resources.release_capacity(self.admission.class, self.admission.bytes);
    }
}

/// A header that was prepared and released leaves every quota as it was.
pub proof fn law_prepared_header_round_trip(resources: ResourcesView, len: u64)
    requires
        prepared_refusal(resources, len) is None,
    ensures
        resources.after_growth(CapacityClass::PreparedHeaders, len).after_growth(
            CapacityClass::Preparation,
            len,
        ).after_release(CapacityClass::Preparation, len).after_release(
            CapacityClass::PreparedHeaders,
            len,
        ) == resources,
{
    law_capacity_round_trip(resources, CapacityClass::PreparedHeaders, len);
    law_capacity_round_trip(
        resources.after_growth(CapacityClass::PreparedHeaders, len),
        CapacityClass::Preparation,
        len,
    );
}

/// The quotas once a header that is emitted in `len` bytes is admitted.
pub open spec fn after_header(resources: ResourcesView, len: u64) -> ResourcesView {
    resources.after_growth(CapacityClass::PreparedHeaders, len).after_growth(
        CapacityClass::Preparation,
        len,
    )
}

/// The quotas once headers of these emitted lengths are held together, or the
/// refusal of the first that does not fit.
pub open spec fn admitted_headers(
    lens: Seq<u64>,
    resources: ResourcesView,
) -> std::result::Result<ResourcesView, Error>
    decreases lens.len(),
{
    if lens.len() == 0 {
        Ok(resources)
    } else {
        match admitted_headers(lens.drop_last(), resources) {
            Err(error) => Err(error),
            Ok(before) => match prepared_refusal(before, lens.last()) {
                Some(error) => Err(error),
                None => Ok(after_header(before, lens.last())),
            },
        }
    }
}

proof fn lemma_refusal_stays(lens: Seq<u64>, upto: int, resources: ResourcesView)
    requires
        0 <= upto <= lens.len(),
        admitted_headers(lens.take(upto), resources) is Err,
    ensures
        admitted_headers(lens, resources) == admitted_headers(lens.take(upto), resources),
    decreases lens.len() - upto,
{
    if upto == lens.len() {
        assert(lens.take(upto) =~= lens);
    } else {
        assert(lens.take(upto + 1).drop_last() =~= lens.take(upto));
        lemma_refusal_stays(lens, upto + 1, resources);
    }
}

/// Held headers leave the workspace limit as it is.
pub(crate) proof fn lemma_admission_keeps_the_limit(lens: Seq<u64>, resources: ResourcesView)
    ensures
        admitted_headers(lens, resources) matches Ok(after) ==> after.memory_limit
            == resources.memory_limit,
    decreases lens.len(),
{
    if lens.len() > 0 {
        lemma_admission_keeps_the_limit(lens.drop_last(), resources);
    }
}

/// The emitted lengths of headers.
pub open spec fn header_lens(blocks: Seq<BlockView>, encrypted: bool) -> Seq<u64> {
    Seq::new(blocks.len(), |i: int| emitted_len(blocks[i].header.len(), encrypted) as u64)
}

/// Measures headers as they will be emitted.
pub fn measure_headers(blocks: &Vec<PreparedBlock>, encrypted: bool) -> (lens: Vec<u64>)
    requires
        headers_fit(blocks@),
    ensures
        lens@ == header_lens(blocks_view(blocks@), encrypted),
{
    let mut lens: Vec<u64> = Vec::new();
    let mut at: usize = 0;
    while at < blocks.len()
        invariant
            at <= blocks@.len(),
            headers_fit(blocks@),
            lens@ == header_lens(blocks_view(blocks@.take(at as int)), encrypted),
        decreases blocks@.len() - at,
    {
        let plain: usize = blocks[at].header.len();
        let ghost before = blocks_view(blocks@.take(at as int));
        lens.push(emitted_header_len(plain as u64, encrypted));
        proof {
            let after = blocks_view(blocks@.take(at + 1));
            assert(after[at as int] == blocks@[at as int]@);
            assert forall|i: int| 0 <= i < at implies after[i] == before[i] by {}
        }
        at = at + 1;
    }
    assert(blocks@.take(at as int) =~= blocks@);
    lens
}

/// Admits headers that are held together. A refusal changes no quota.
pub fn admit_headers(lens: &Vec<u64>, resources: &mut WriterResources) -> (r: Result<()>)
    ensures
        match admitted_headers(lens@, old(resources)@) {
            Ok(after) => r is Ok && final(resources)@ == after,
            Err(error) => r == Err::<(), Error>(error) && final(resources)@ == old(resources)@,
        },
{
    let ghost start = resources@;
    let mut at: usize = 0;
    assert(lens@.take(0) =~= Seq::empty());
    while at < lens.len()
        invariant
            at <= lens@.len(),
            start == old(resources)@,
            admitted_headers(lens@.take(at as int), start) == Ok::<ResourcesView, Error>(
                resources@,
            ),
        decreases lens@.len() - at,
    {
        let ghost before = resources@;
        let len: u64 = lens[at];
        proof {
            assert(lens@.take(at + 1).drop_last() =~= lens@.take(at as int));
            assert(lens@.take(at + 1).last() == len);
        }
        match admit_header(len, resources) {
            Ok(()) => {},
            Err(error) => {
                proof {
                    lemma_refusal_stays(lens@, at + 1, start);
                }
                release_headers(lens, at, resources, Ghost(start));
                return Err(error);
            },
        }
        at = at + 1;
    }
    assert(lens@.take(at as int) =~= lens@);
    Ok(())
}

fn admit_header(len: u64, resources: &mut WriterResources) -> (r: Result<()>)
    ensures
        match prepared_refusal(old(resources)@, len) {
            Some(error) => r == Err::<(), Error>(error) && final(resources)@ == old(resources)@,
            None => r is Ok && final(resources)@ == after_header(old(resources)@, len),
        },
{
    match resources.reserve_capacity(CapacityClass::PreparedHeaders, len) {
        Ok(()) => {},
        Err(error) => {
            return Err(error);
        },
    }
    match resources.reserve_capacity(CapacityClass::Preparation, len) {
        Ok(()) => Ok(()),
        Err(error) => {
            resources.release_capacity(CapacityClass::PreparedHeaders, len);
            proof {
                law_capacity_round_trip(old(resources)@, CapacityClass::PreparedHeaders, len);
            }
            Err(error)
        },
    }
}

/// Gives back the first `count` of headers that were admitted from `start` on.
pub(crate) fn release_headers(
    lens: &Vec<u64>,
    count: usize,
    resources: &mut WriterResources,
    Ghost(start): Ghost<ResourcesView>,
)
    requires
        count <= lens@.len(),
        admitted_headers(lens@.take(count as int), start) == Ok::<ResourcesView, Error>(
            old(resources)@,
        ),
    ensures
        final(resources)@ == start,
{
    let mut left: usize = count;
    while left > 0
        invariant
            left <= count <= lens@.len(),
            admitted_headers(lens@.take(left as int), start) == Ok::<ResourcesView, Error>(
                resources@,
            ),
        decreases left,
    {
        left = left - 1;
        let len: u64 = lens[left];
        let ghost before = resources@;
        proof {
            assert(lens@.take(left + 1).drop_last() =~= lens@.take(left as int));
            let earlier = admitted_headers(lens@.take(left as int), start)->Ok_0;
            law_prepared_header_round_trip(earlier, len);
        }
        resources.release_capacity(CapacityClass::Preparation, len);
        resources.release_capacity(CapacityClass::PreparedHeaders, len);
    }
    assert(lens@.take(0) =~= Seq::empty());
}

} // verus!
