//! What each format's writer can be asked for, and one place that says no.
//!
//! Capability is data, keyed by format and by the shape of the archive being
//! built, and a refusal names the option, the format, and why.

use vstd::prelude::*;

use crate::error::{Error, Result};
use crate::features::{Feature, FeatureSet};
use crate::filter::FilterPolicy;
use crate::version::{ArchiveFamily, ArchiveVersion};
#[allow(unused_imports)]
use crate::version::{all_versions, family_of};

verus! {

/// How the members of an archive are coded.
#[derive(Debug, Clone, Copy, PartialEq, Eq, Structural)]
pub enum MemberCoding {
    /// Store every member as it is.
    Stored,
    /// Compress, letting the writer decide how.
    Compressed,
    /// Compress under a filter policy the caller named. RAR 2.9 and later only.
    Filtered(FilterPolicy),
}

impl Default for MemberCoding {
    fn default() -> (coding: MemberCoding)
        ensures
            coding == MemberCoding::Compressed,
    {
        MemberCoding::Compressed
    }
}

impl MemberCoding {
    pub fn compresses(&self) -> (answer: bool)
        ensures
            answer == (*self != MemberCoding::Stored),
    {
        !matches!(self, Self::Stored)
    }

    pub fn is_filtered(&self) -> (answer: bool)
        ensures
            answer == (*self is Filtered),
    {
        matches!(self, Self::Filtered(_))
    }

    /// The shape of archive this coding produces.
    pub fn shape(&self) -> (shape: PlanShape)
        ensures
            shape == (PlanShape {
                compressed: *self != MemberCoding::Stored,
                volumes: false,
                filtered: *self is Filtered,
            }),
    {
        PlanShape::new().compressed(self.compresses()).filtered(self.is_filtered())
    }
}

/// What kind of archive is being built. Capability answers depend on this as
/// well as on the format: RAR 5 will write a file comment into a stored archive
/// but not a compressed one, for instance.
#[derive(Debug, Clone, Copy, PartialEq, Eq, Structural)]
pub struct PlanShape {
    pub compressed: bool,
    pub volumes: bool,
    pub filtered: bool,
}

impl Default for PlanShape {
    fn default() -> (shape: PlanShape)
        ensures
            shape == (PlanShape { compressed: false, volumes: false, filtered: false }),
    {
        PlanShape::new()
    }
}

/// The shape at place `at` in the list of all shapes.
pub open spec fn shape_at(at: int) -> PlanShape {
    PlanShape {
        compressed: (at / 4) % 2 == 1,
        volumes: (at / 2) % 2 == 1,
        filtered: at % 2 == 1,
    }
}

impl PlanShape {
    pub fn new() -> (shape: PlanShape)
        ensures
            shape == (PlanShape { compressed: false, volumes: false, filtered: false }),
    {
        PlanShape { compressed: false, volumes: false, filtered: false }
    }

    pub fn compressed(self, compressed: bool) -> (shape: PlanShape)
        ensures
            shape == (PlanShape { compressed, ..self }),
    {
        PlanShape { compressed, ..self }
    }

    pub fn volumes(self, volumes: bool) -> (shape: PlanShape)
        ensures
            shape == (PlanShape { volumes, ..self }),
    {
        PlanShape { volumes, ..self }
    }

    pub fn filtered(self, filtered: bool) -> (shape: PlanShape)
        ensures
            shape == (PlanShape { filtered, ..self }),
    {
        PlanShape { filtered, ..self }
    }

    /// Every combination, for exhaustively checking capability answers.
    pub fn all() -> (shapes: Vec<PlanShape>)
        ensures
            shapes@ == Seq::new(8, |at: int| shape_at(at)),
            forall|shape: PlanShape| #[trigger] shapes@.contains(shape),
    {
        let mut shapes: Vec<PlanShape> = Vec::new();
        let mut at: u8 = 0;
        while at < 8
            invariant
                at <= 8,
                shapes@ == Seq::new(at as nat, |k: int| shape_at(k)),
            decreases 8 - at,
        {
            shapes.push(
                PlanShape {
                    compressed: (at / 4) % 2 == 1,
                    volumes: (at / 2) % 2 == 1,
                    filtered: at % 2 == 1,
                },
            );
            at = at + 1;
        }
        proof {
            assert forall|shape: PlanShape| #[trigger] shapes@.contains(shape) by {
                let place: int = (if shape.compressed { 4int } else { 0 })
                    + (if shape.volumes { 2int } else { 0 })
                    + (if shape.filtered { 1int } else { 0 });
                assert(shapes@[place] == shape);
            }
        }
        shapes
    }
}

/// Something a caller can ask a writer for, that a format may not be able to do.
#[derive(Debug, Clone, Copy, PartialEq, Eq, Structural)]
pub enum WriterOption {
    Feature(Feature),
    CompressionLevel,
    /// An engine other than the format's default, which today means PPMd.
    CompressionMethod,
    DictionarySize,
    Filter,
    RecoveryRecord,
    VolumeSize,
    ArchiveComment,
    FileComment,
    ArchiveMetadata,
    Password,
    MemoryLimit,
    TempDir,
}

pub open spec fn all_options() -> Seq<WriterOption> {
    seq![
        WriterOption::Feature(Feature::Solid),
        WriterOption::Feature(Feature::HeaderEncryption),
        WriterOption::Feature(Feature::QuickOpen),
        WriterOption::CompressionLevel,
        WriterOption::CompressionMethod,
        WriterOption::DictionarySize,
        WriterOption::Filter,
        WriterOption::RecoveryRecord,
        WriterOption::VolumeSize,
        WriterOption::ArchiveComment,
        WriterOption::FileComment,
        WriterOption::ArchiveMetadata,
        WriterOption::Password,
        WriterOption::MemoryLimit,
        WriterOption::TempDir,
    ]
}

/// How an option is named in a message.
pub open spec fn option_name(option: WriterOption) -> Seq<char> {
    match option {
        WriterOption::Feature(feature) => crate::features::feature_name(feature),
        WriterOption::CompressionLevel => "a compression level"@,
        WriterOption::CompressionMethod => "an alternative compression method"@,
        WriterOption::DictionarySize => "a dictionary size"@,
        WriterOption::Filter => "a data filter"@,
        WriterOption::RecoveryRecord => "a recovery record"@,
        WriterOption::VolumeSize => "splitting into volumes"@,
        WriterOption::ArchiveComment => "an archive comment"@,
        WriterOption::FileComment => "a per-file comment"@,
        WriterOption::ArchiveMetadata => "archive metadata"@,
        WriterOption::Password => "encryption"@,
        WriterOption::MemoryLimit => "a memory limit"@,
        WriterOption::TempDir => "a temporary directory"@,
    }
}

impl WriterOption {
    pub fn all() -> (options: Vec<WriterOption>)
        ensures
            options@ == all_options(),
    {
        vec![
            WriterOption::Feature(Feature::Solid),
            WriterOption::Feature(Feature::HeaderEncryption),
            WriterOption::Feature(Feature::QuickOpen),
            WriterOption::CompressionLevel,
            WriterOption::CompressionMethod,
            WriterOption::DictionarySize,
            WriterOption::Filter,
            WriterOption::RecoveryRecord,
            WriterOption::VolumeSize,
            WriterOption::ArchiveComment,
            WriterOption::FileComment,
            WriterOption::ArchiveMetadata,
            WriterOption::Password,
            WriterOption::MemoryLimit,
            WriterOption::TempDir,
        ]
    }

    /// How this option is named in a library message. A command line
    /// substitutes the flag the user actually typed.
    pub fn name(self) -> (name: &'static str)
        ensures
            name@ == option_name(self),
    {
        match self {
            Self::Feature(feature) => feature.name(),
            Self::CompressionLevel => "a compression level",
            Self::CompressionMethod => "an alternative compression method",
            Self::DictionarySize => "a dictionary size",
            Self::Filter => "a data filter",
            Self::RecoveryRecord => "a recovery record",
            Self::VolumeSize => "splitting into volumes",
            Self::ArchiveComment => "an archive comment",
            Self::FileComment => "a per-file comment",
            Self::ArchiveMetadata => "archive metadata",
            Self::Password => "encryption",
            Self::MemoryLimit => "a memory limit",
            Self::TempDir => "a temporary directory",
        }
    }
}

/// The capability table: whether the writer of `target` can honour `option` in
/// an archive of this shape.
pub open spec fn is_supported(
    target: ArchiveVersion,
    option: WriterOption,
    shape: PlanShape,
) -> bool {
    let modern = family_of(target) == ArchiveFamily::Rar50Plus;
    match option {
        // Solid members are compressed against each other.
        WriterOption::Feature(Feature::Solid) => shape.compressed,
        WriterOption::Feature(Feature::HeaderEncryption) => modern
            || target == ArchiveVersion::Rar30 || target == ArchiveVersion::Rar40,
        WriterOption::Feature(Feature::QuickOpen) => modern,
        WriterOption::CompressionLevel => true,
        // PPMd arrived with RAR 2.9 and left again with RAR 5.
        WriterOption::CompressionMethod => target == ArchiveVersion::Rar29
            || target == ArchiveVersion::Rar30 || target == ArchiveVersion::Rar40,
        WriterOption::DictionarySize => family_of(target) != ArchiveFamily::Rar13,
        WriterOption::Filter => modern || (!shape.volumes && (target == ArchiveVersion::Rar29
            || target == ArchiveVersion::Rar30 || target == ArchiveVersion::Rar40)),
        WriterOption::RecoveryRecord => modern,
        WriterOption::VolumeSize => true,
        WriterOption::ArchiveComment => modern || !shape.volumes,
        // RAR 3.x and 4.x hold file comments in a form that is not written here.
        WriterOption::FileComment => if modern {
            !shape.compressed
        } else {
            !shape.volumes && target != ArchiveVersion::Rar30 && target != ArchiveVersion::Rar40
        },
        WriterOption::ArchiveMetadata => modern,
        WriterOption::Password => true,
        WriterOption::MemoryLimit => modern || !shape.volumes,
        // Only the RAR 5 engine spills to disk.
        WriterOption::TempDir => modern,
    }
}

/// The features that the table allows.
pub open spec fn features_of(target: ArchiveVersion, shape: PlanShape) -> FeatureSet {
    FeatureSet {
        solid: is_supported(target, WriterOption::Feature(Feature::Solid), shape),
        header_encryption: is_supported(
            target,
            WriterOption::Feature(Feature::HeaderEncryption),
            shape,
        ),
        quick_open: is_supported(target, WriterOption::Feature(Feature::QuickOpen), shape),
    }
}

/// The features this format can honour for an archive of this shape,
/// whatever the caller asked for.
pub fn supported_features(target: ArchiveVersion, shape: PlanShape) -> (set: FeatureSet)
    ensures
        set == features_of(target, shape),
        forall|feature: Feature| #[trigger]
            set.holds(feature) == is_supported(target, WriterOption::Feature(feature), shape),
{
    FeatureSet {
        solid: supports(target, WriterOption::Feature(Feature::Solid), shape),
        header_encryption: supports(
            target,
            WriterOption::Feature(Feature::HeaderEncryption),
            shape,
        ),
        quick_open: supports(target, WriterOption::Feature(Feature::QuickOpen), shape),
    }
}

/// Whether this format's writer can honour `option` for an archive of this
/// shape.
pub fn supports(target: ArchiveVersion, option: WriterOption, shape: PlanShape) -> (answer: bool)
    ensures
        answer == is_supported(target, option, shape),
{
    let family = target.family();
    match option {
        WriterOption::Feature(Feature::Solid) => shape.compressed,
        WriterOption::Feature(Feature::HeaderEncryption) => matches!(
            target,
            ArchiveVersion::Rar30
                | ArchiveVersion::Rar40
                | ArchiveVersion::Rar50
                | ArchiveVersion::Rar70
        ),
        WriterOption::Feature(Feature::QuickOpen) => family == ArchiveFamily::Rar50Plus,
        WriterOption::CompressionLevel => true,
        WriterOption::CompressionMethod => matches!(
            target,
            ArchiveVersion::Rar29 | ArchiveVersion::Rar30 | ArchiveVersion::Rar40
        ),
        WriterOption::DictionarySize => family != ArchiveFamily::Rar13,
        // The legacy volume writer takes a payload rather than a policy, so a
        // filter cannot be asked for across a split set.
        WriterOption::Filter => {
            !matches!(
                target,
                ArchiveVersion::Rar13
                    | ArchiveVersion::Rar14
                    | ArchiveVersion::Rar15
                    | ArchiveVersion::Rar20
            ) && (family == ArchiveFamily::Rar50Plus || !shape.volumes)
        },
        WriterOption::RecoveryRecord => family == ArchiveFamily::Rar50Plus,
        WriterOption::VolumeSize => true,
        WriterOption::ArchiveComment => family == ArchiveFamily::Rar50Plus || !shape.volumes,
        WriterOption::FileComment => {
            if family == ArchiveFamily::Rar50Plus {
                !shape.compressed
            } else {
                !shape.volumes && !matches!(target, ArchiveVersion::Rar30 | ArchiveVersion::Rar40)
            }
        },
        WriterOption::ArchiveMetadata => family == ArchiveFamily::Rar50Plus,
        WriterOption::Password => true,
        WriterOption::MemoryLimit => family == ArchiveFamily::Rar50Plus || !shape.volumes,
        WriterOption::TempDir => family == ArchiveFamily::Rar50Plus,
    }
}

/// Every format whose writer can honour `option` for an archive of this shape,
/// oldest first.
pub fn formats_supporting(option: WriterOption, shape: PlanShape) -> (formats: Vec<ArchiveVersion>)
    ensures
        formats@ == all_versions().filter(
            |target: ArchiveVersion| is_supported(target, option, shape),
        ),
        forall|target: ArchiveVersion| #[trigger]
            formats@.contains(target) <==> is_supported(target, option, shape),
{
    let all = ArchiveVersion::all();
    let ghost wanted = |target: ArchiveVersion| is_supported(target, option, shape);
    let mut formats: Vec<ArchiveVersion> = Vec::new();
    let mut at: usize = 0;
    proof {
        assert(all@.take(0) == Seq::<ArchiveVersion>::empty());
        reveal(Seq::filter);
    }
    while at < all.len()
        invariant
            at <= all.len(),
            all@ == all_versions(),
            wanted == (|target: ArchiveVersion| is_supported(target, option, shape)),
            formats@ == all@.take(at as int).filter(wanted),
        decreases all.len() - at,
    {
        let target = all[at];
        proof {
            reveal(Seq::filter);
            assert(all@.take(at + 1).drop_last() == all@.take(at as int));
            assert(all@.take(at + 1).last() == target);
        }
        if supports(target, option, shape) {
            formats.push(target);
        }
        at = at + 1;
    }
    proof {
        assert(all@.take(at as int) == all_versions());
        assert forall|target: ArchiveVersion| #[trigger]
            formats@.contains(target) <==> is_supported(target, option, shape) by {
            crate::version::law_all_versions_is_complete(target);
            let place = choose|i: int|
                0 <= i < all_versions().len() && all_versions()[i] == target;
            if is_supported(target, option, shape) {
                all_versions().lemma_filter_contains(wanted, place);
            } else if formats@.contains(target) {
                let kept = choose|i: int| 0 <= i < formats.len() && formats@[i] == target;
                all_versions().lemma_filter_pred(wanted, kept);
            }
        }
    }
    formats
}

/// Refuses the first feature this format cannot honour.
pub fn validate_features(
    target: ArchiveVersion,
    asked: FeatureSet,
    shape: PlanShape,
) -> (r: Result<()>)
    ensures
        r == (match asked.first_refused(features_of(target, shape)) {
            Some(feature) => Err::<(), Error>(
                Error::UnsupportedWriterOption {
                    target,
                    option: WriterOption::Feature(feature),
                    because: None,
                },
            ),
            None => Ok(()),
        }),
        r is Ok <==> forall|feature: Feature| #[trigger]
            asked.holds(feature) ==> is_supported(target, WriterOption::Feature(feature), shape),
{
    let allowed = supported_features(target, shape);
    match asked.first_unsupported(allowed) {
        Some(feature) => {
            assert(asked.holds(feature) && !allowed.holds(feature));
            Err(
                Error::UnsupportedWriterOption {
                    target,
                    option: WriterOption::Feature(feature),
                    because: None,
                },
            )
        },
        None => Ok(()),
    }
}

/// What a level outside the shared range is refused with.
pub open spec fn level_refusal(target: ArchiveVersion) -> Error {
    Error::UnsupportedWriterOption {
        target,
        option: WriterOption::CompressionLevel,
        because: Some("levels run from 0 to 5"),
    }
}

/// Refuses a compression level outside the range every format shares.
pub fn validate_compression_level(target: ArchiveVersion, level: Option<u8>) -> (r: Result<()>)
    ensures
        r == (if level matches Some(n) && n > 5 {
            Err::<(), Error>(level_refusal(target))
        } else {
            Ok(())
        }),
{
    match level {
        Some(n) if n > 5 => Err(
            Error::UnsupportedWriterOption {
                target,
                option: WriterOption::CompressionLevel,
                because: Some("levels run from 0 to 5"),
            },
        ),
        _ => Ok(()),
    }
}

/// Refuses an option this format cannot honour for this shape of archive.
pub fn validate_option(
    target: ArchiveVersion,
    option: WriterOption,
    shape: PlanShape,
) -> (r: Result<()>)
    ensures
        r == (if is_supported(target, option, shape) {
            Ok::<(), Error>(())
        } else {
            Err(Error::UnsupportedWriterOption { target, option, because: None })
        }),
{
    if supports(target, option, shape) {
        Ok(())
    } else {
        Err(Error::UnsupportedWriterOption { target, option, because: None })
    }
}

/// A refusal can always point somewhere: some format honours every option in
/// some shape of archive.
pub proof fn law_every_option_is_supported_somewhere(option: WriterOption)
    ensures
        exists|target: ArchiveVersion, shape: PlanShape| #[trigger]
            is_supported(target, option, shape),
{
    let shape = PlanShape {
        compressed: option != WriterOption::FileComment,
        volumes: false,
        filtered: false,
    };
    if option == WriterOption::CompressionMethod {
        assert(is_supported(ArchiveVersion::Rar29, option, shape));
    } else {
        assert(is_supported(ArchiveVersion::Rar50, option, shape));
    }
}

/// The list of every option leaves none out.
pub proof fn law_all_options_is_complete(option: WriterOption)
    ensures
        all_options().contains(option),
{
    let all = all_options();
    match option {
        WriterOption::Feature(Feature::Solid) => assert(all[0] == option),
        WriterOption::Feature(Feature::HeaderEncryption) => assert(all[1] == option),
        WriterOption::Feature(Feature::QuickOpen) => assert(all[2] == option),
        WriterOption::CompressionLevel => assert(all[3] == option),
        WriterOption::CompressionMethod => assert(all[4] == option),
        WriterOption::DictionarySize => assert(all[5] == option),
        WriterOption::Filter => assert(all[6] == option),
        WriterOption::RecoveryRecord => assert(all[7] == option),
        WriterOption::VolumeSize => assert(all[8] == option),
        WriterOption::ArchiveComment => assert(all[9] == option),
        WriterOption::FileComment => assert(all[10] == option),
        WriterOption::ArchiveMetadata => assert(all[11] == option),
        WriterOption::Password => assert(all[12] == option),
        WriterOption::MemoryLimit => assert(all[13] == option),
        WriterOption::TempDir => assert(all[14] == option),
    }
}

/// Whether a compressed member should be written as stored bytes instead.
///
/// Compression that does not shrink a member costs the reader time for nothing.
/// The formats disagree about when that trade is worth making; what differs
/// between them is parameters here.
#[derive(Debug, Clone, Copy, PartialEq, Eq, Structural)]
pub struct StoreFallback {
    /// Members below this size stay compressed.
    pub min_size: usize,
    /// Whether a solid member may be swapped.
    pub allow_solid: bool,
    /// A filter the caller named is not discarded because the result did not
    /// shrink.
    pub filter_requested: bool,
}

impl StoreFallback {
    pub fn new() -> (rule: StoreFallback)
        ensures
            rule == (StoreFallback { min_size: 0, allow_solid: false, filter_requested: false }),
    {
        StoreFallback { min_size: 0, allow_solid: false, filter_requested: false }
    }

    pub fn min_size(self, size: usize) -> (rule: StoreFallback)
        ensures
            rule == (StoreFallback { min_size: size, ..self }),
    {
        StoreFallback { min_size: size, ..self }
    }

    pub fn allow_solid(self, allow: bool) -> (rule: StoreFallback)
        ensures
            rule == (StoreFallback { allow_solid: allow, ..self }),
    {
        StoreFallback { allow_solid: allow, ..self }
    }

    pub fn filter_requested(self, requested: bool) -> (rule: StoreFallback)
        ensures
            rule == (StoreFallback { filter_requested: requested, ..self }),
    {
        StoreFallback { filter_requested: requested, ..self }
    }

    pub fn applies(&self, solid: bool, unpacked: usize, packed: usize) -> (answer: bool)
        ensures
            answer == (packed >= unpacked && !self.filter_requested && (solid ==> self.allow_solid)
                && unpacked >= self.min_size),
    {
        if packed < unpacked || self.filter_requested {
            return false;
        }
        if solid && !self.allow_solid {
            return false;
        }
        unpacked >= self.min_size
    }
}

/// Versions of one generation answer alike: 1.3 and 1.4, 1.5 and 2.0, 3.0 and 4.0, 5.0 and
/// 7.0.
pub proof fn law_a_generation_answers_alike(option: WriterOption, shape: PlanShape)
    ensures
        is_supported(ArchiveVersion::Rar13, option, shape) == is_supported(
            ArchiveVersion::Rar14,
            option,
            shape,
        ),
        is_supported(ArchiveVersion::Rar15, option, shape) == is_supported(
            ArchiveVersion::Rar20,
            option,
            shape,
        ),
        is_supported(ArchiveVersion::Rar30, option, shape) == is_supported(
            ArchiveVersion::Rar40,
            option,
            shape,
        ),
        is_supported(ArchiveVersion::Rar50, option, shape) == is_supported(
            ArchiveVersion::Rar70,
            option,
            shape,
        ),
{
}

/// The newest generation honours all that an older one does, but for another compression
/// method and for file comments in a compressed archive. Splitting an archive never makes
/// more possible, and filtering changes nothing.
pub proof fn law_newer_formats_honour_more(
    target: ArchiveVersion,
    option: WriterOption,
    shape: PlanShape,
)
    ensures
        is_supported(target, option, shape) ==> {
            ||| is_supported(ArchiveVersion::Rar50, option, shape)
            ||| option == WriterOption::CompressionMethod
            ||| option == WriterOption::FileComment && shape.compressed
        },
        is_supported(ArchiveVersion::Rar50, option, shape) ==> option
            != WriterOption::CompressionMethod,
        is_supported(target, option, PlanShape { volumes: true, ..shape }) ==> is_supported(
            target,
            option,
            PlanShape { volumes: false, ..shape },
        ),
        is_supported(target, option, PlanShape { filtered: true, ..shape }) == is_supported(
            target,
            option,
            PlanShape { filtered: false, ..shape },
        ),
{
}

/// What each option asks of a format: a level, volumes and encryption nothing; solid
/// members that they are compressed; an index, a recovery record, metadata and a directory
/// to spill to the newest generation; a dictionary size that it is not the oldest.
pub proof fn law_options_ask_of_a_format(target: ArchiveVersion, shape: PlanShape)
    ensures
        is_supported(target, WriterOption::CompressionLevel, shape),
        is_supported(target, WriterOption::VolumeSize, shape),
        is_supported(target, WriterOption::Password, shape),
        is_supported(target, WriterOption::Feature(Feature::Solid), shape) <==> shape.compressed,
        ({
            let newest = target == ArchiveVersion::Rar50 || target == ArchiveVersion::Rar70;
            &&& is_supported(target, WriterOption::Feature(Feature::QuickOpen), shape) <==> newest
            &&& is_supported(target, WriterOption::RecoveryRecord, shape) <==> newest
            &&& is_supported(target, WriterOption::ArchiveMetadata, shape) <==> newest
            &&& is_supported(target, WriterOption::TempDir, shape) <==> newest
            &&& newest ==> is_supported(target, WriterOption::FileComment, shape)
                == !shape.compressed
            &&& is_supported(target, WriterOption::ArchiveComment, shape) <==> newest
                || !shape.volumes
            &&& is_supported(target, WriterOption::MemoryLimit, shape) <==> newest
                || !shape.volumes
        }),
        is_supported(target, WriterOption::DictionarySize, shape) <==> target
            != ArchiveVersion::Rar13 && target != ArchiveVersion::Rar14,
{
}

/// Among the older formats, those with another compression method are those with filters
/// in an unsplit archive, 2.9 the first of them; and those that encrypt headers are those
/// that have it and no longer write file comments.
pub proof fn law_older_formats_grew(target: ArchiveVersion, shape: PlanShape)
    requires
        target != ArchiveVersion::Rar50,
        target != ArchiveVersion::Rar70,
    ensures
        is_supported(target, WriterOption::CompressionMethod, shape) && !shape.volumes
            <==> is_supported(target, WriterOption::Filter, shape),
        is_supported(target, WriterOption::Feature(Feature::HeaderEncryption), shape) ==> {
            &&& is_supported(target, WriterOption::CompressionMethod, shape)
            &&& !is_supported(target, WriterOption::FileComment, shape)
            &&& target != ArchiveVersion::Rar29
        },
        !is_supported(target, WriterOption::Feature(Feature::HeaderEncryption), shape)
            && !shape.volumes <==> is_supported(target, WriterOption::FileComment, shape),
        is_supported(ArchiveVersion::Rar29, WriterOption::CompressionMethod, shape),
        is_supported(
            ArchiveVersion::Rar30,
            WriterOption::Feature(Feature::HeaderEncryption),
            shape,
        ),
        !is_supported(ArchiveVersion::Rar20, WriterOption::CompressionMethod, shape),
        !is_supported(ArchiveVersion::Rar13, WriterOption::CompressionMethod, shape),
{
}

} // verus!
