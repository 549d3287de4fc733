//! From a caller's request to the plan of an archive or a volume set, with
//! everything that a writer refuses, before anything is written.

use vstd::prelude::*;

use crate::error::{Error, Result};
use crate::features::Feature;
use crate::filter::FilterPolicy;
#[allow(unused_imports)]
use crate::rar50::dictionary::{is_legal_size, size_refusal};
use crate::rar50::entry::ArchiveEntry;
#[allow(unused_imports)]
use crate::rar50::entry::refusal;
use crate::rar50::ladder::{
    compression_method_for_level, dictionary_size_for_options, encode_option_candidates_for_level,
    encode_options_for_level, rar50_algorithm_version, LZ_BLOCK_SIZE,
};
#[allow(unused_imports)]
use crate::rar50::ladder::{encode_options_of, is_dictionary_for, level_error};
use crate::rar50::options::WriterOptions;
use crate::rar50::plan::CompressPlan;
use crate::version::{ArchiveFamily, ArchiveVersion};
#[allow(unused_imports)]
use crate::version::family_of;
#[allow(unused_imports)]
use crate::write_plan::{features_of, level_refusal};
use crate::write_plan::{validate_compression_level, validate_features, PlanShape, WriterOption};

verus! {

/// What a dictionary of the caller's own is refused with.
pub open spec fn dictionary_refusal(options: WriterOptions) -> Option<Error> {
    match options.dictionary_size {
        Some(size) => if is_legal_size(options.target, size) {
            None
        } else {
            Some(size_refusal(options.target, size))
        },
        None => None,
    }
}

/// Everything that this writer refuses of the options alone.
pub open spec fn options_error(options: WriterOptions, shape: PlanShape) -> Option<Error> {
    let target = options.target;
    if family_of(target) != ArchiveFamily::Rar50Plus {
        Some(Error::UnsupportedVersion(target))
    } else if let Some(feature) = options.features.first_refused(features_of(target, shape)) {
        Some(
            Error::UnsupportedWriterOption {
                target,
                option: WriterOption::Feature(feature),
                because: None,
            },
        )
    } else if options.compression_level matches Some(n) && n > 5 {
        Some(level_refusal(target))
    } else if let Some(error) = dictionary_refusal(options) {
        Some(error)
    } else if options.features.quick_open && options.features.header_encryption {
        Some(
            Error::UnsupportedWriterOption {
                target,
                option: WriterOption::Feature(Feature::QuickOpen),
                because: Some("with header encryption"),
            },
        )
    } else if shape.filtered && options.features.solid {
        Some(
            Error::UnsupportedWriterOption {
                target,
                option: WriterOption::Filter,
                because: Some("in a solid archive"),
            },
        )
    } else {
        None
    }
}

/// Checks the options of a write.
///
/// Quick-open is an index of the headers, so it has nothing to index once they
/// are encrypted. Solid members share one dictionary and are coded as one
/// chain, so the filter search never runs for them.
pub fn validate_plan(options: WriterOptions, shape: PlanShape) -> (r: Result<()>)
    ensures
        r == refusal(options_error(options, shape)),
{
    if options.target.family() != ArchiveFamily::Rar50Plus {
        return Err(Error::UnsupportedVersion(options.target));
    }
    match validate_features(options.target, options.features, shape) {
        Ok(()) => {},
        Err(error) => {
            return Err(error);
        },
    }
    match validate_compression_level(options.target, options.compression_level) {
        Ok(()) => {},
        Err(error) => {
            return Err(error);
        },
    }
    match dictionary_size_for_options(options, 0, u64::MAX) {
        Ok(_) => {},
        Err(error) => {
            return Err(error);
        },
    }
    if options.features.quick_open && options.features.header_encryption {
        return Err(
            Error::UnsupportedWriterOption {
                target: options.target,
                option: WriterOption::Feature(Feature::QuickOpen),
                because: Some("with header encryption"),
            },
        );
    }
    if shape.filtered && options.features.solid {
        return Err(
            Error::UnsupportedWriterOption {
                target: options.target,
                option: WriterOption::Filter,
                because: Some("in a solid archive"),
            },
        );
    }
    Ok(())
}

pub open spec fn percent_error(percent: Option<u64>) -> Option<Error> {
    match percent {
        Some(percent) => if 1 <= percent <= 100 {
            None
        } else {
            Some(Error::InvalidHeader("RAR 5 recovery percent must be in 1..=100"))
        },
        None => None,
    }
}

pub fn validate_recovery_percent(percent: u64) -> (r: Result<()>)
    ensures
        r == refusal(percent_error(Some(percent))),
{
    if percent < 1 || percent > 100 {
        return Err(Error::InvalidHeader("RAR 5 recovery percent must be in 1..=100"));
    }
    Ok(())
}

pub open spec fn any_encrypted(entries: Seq<ArchiveEntry>) -> bool {
    exists|i: int| 0 <= i < entries.len() && (#[trigger] entries[i]).password is Some
}

pub open spec fn all_encrypted(entries: Seq<ArchiveEntry>) -> bool {
    forall|i: int| 0 <= i < entries.len() ==> (#[trigger] entries[i]).password is Some
}

/// Whether any and whether all members are encrypted.
pub fn encryption_of(entries: &[ArchiveEntry]) -> (r: (bool, bool))
    ensures
        r.0 == any_encrypted(entries@),
        r.1 == all_encrypted(entries@),
{
    let mut any: bool = false;
    let mut all: bool = true;
    let mut at: usize = 0;
    while at < entries.len()
        invariant
            at <= entries@.len(),
            any <==> exists|i: int| 0 <= i < at && (#[trigger] entries@[i]).password is Some,
            all <==> forall|i: int| 0 <= i < at ==> (#[trigger] entries@[i]).password is Some,
        decreases entries@.len() - at,
    {
        assert(entries@[at as int].password is Some || entries@[at as int].password is None);
        if entries[at].password.is_some() {
            any = true;
        } else {
            all = false;
        }
        at = at + 1;
    }
    (any, all)
}

pub open spec fn known_size(size: Option<u64>) -> u64 {
    match size {
        Some(size) => size,
        None => u64::MAX,
    }
}

pub open spec fn summed_sizes(sizes: Seq<Option<u64>>) -> nat
    decreases sizes.len(),
{
    if sizes.len() == 0 {
        0
    } else {
        summed_sizes(sizes.drop_last()) + known_size(sizes.last()) as nat
    }
}

/// How far one dictionary has to reach for members of these sizes.
pub open spec fn is_reach(sizes: Seq<Option<u64>>, solid: bool, reach: u64) -> bool {
    if solid {
        reach == (if summed_sizes(sizes) <= u64::MAX {
            summed_sizes(sizes)
        } else {
            u64::MAX as nat
        })
    } else {
        &&& forall|i: int| 0 <= i < sizes.len() ==> known_size(#[trigger] sizes[i]) <= reach
        &&& sizes.len() == 0 ==> reach == 0
        &&& sizes.len() > 0 ==> exists|i: int|
            0 <= i < sizes.len() && known_size(#[trigger] sizes[i]) == reach
    }
}

/// How far one dictionary has to reach.
///
/// Solid members are coded as one chain through a single window, so a match can
/// point back into an earlier member and the whole archive is in reach.
/// Otherwise each member starts afresh and only the largest one matters. A
/// source that cannot say how long it is takes the largest window.
pub fn dictionary_reach(sizes: &[Option<u64>], solid: bool) -> (reach: u64)
    ensures
        is_reach(sizes@, solid, reach),
{
    let mut sum: u64 = 0;
    let mut largest: u64 = 0;
    let mut at: usize = 0;
    assert(sizes@.take(0) =~= Seq::empty());
    while at < sizes.len()
        invariant
            at <= sizes@.len(),
            sum == (if summed_sizes(sizes@.take(at as int)) <= u64::MAX {
                summed_sizes(sizes@.take(at as int))
            } else {
                u64::MAX as nat
            }),
            forall|i: int| 0 <= i < at ==> known_size(#[trigger] sizes@[i]) <= largest,
            at == 0 ==> largest == 0,
            at > 0 ==> exists|i: int| 0 <= i < at && known_size(#[trigger] sizes@[i]) == largest,
        decreases sizes@.len() - at,
    {
        let ghost longer = sizes@.take(at + 1);
        assert(longer.drop_last() =~= sizes@.take(at as int));
        assert(longer.last() == sizes@[at as int]);
        let size: u64 = match sizes[at] {
            Some(size) => size,
            None => u64::MAX,
        };
        assert(known_size(sizes@[at as int]) == size);
        sum = sum.saturating_add(size);
        if at == 0 || size > largest {
            largest = size;
        }
        at = at + 1;
    }
    assert(sizes@.take(sizes@.len() as int) =~= sizes@);
    if solid {
        sum
    } else {
        largest
    }
}

/// The compression settings of a write: what its level, its dictionary and the
/// data in reach come to.
pub open spec fn is_compress_plan(
    options: WriterOptions,
    filter_policy: FilterPolicy,
    content: u64,
    memory_limit: u64,
    plan: CompressPlan,
) -> bool {
    let method = match options.compression_level {
        Some(level) => level,
        None => 1,
    };
    &&& plan.method == method
    // A stored member has no window to reach across.
    &&& is_dictionary_for(
        options,
        if method == 0 {
            0
        } else {
            content
        },
        memory_limit,
        Ok::<u64, Error>(plan.dictionary_size),
    )
    &&& plan.algorithm_version == (if options.target == ArchiveVersion::Rar70
        && !crate::rar50::dictionary::fits_first(plan.dictionary_size) {
        1u8
    } else {
        0u8
    })
    &&& encode_options_of(options.compression_level, plan.dictionary_size) == Ok::<
        crate::rar50::ladder::EncodeOptions,
        Error,
    >(plan.encode_options)
    &&& plan.candidates@ == seq![plan.encode_options]
    &&& plan.block_size == LZ_BLOCK_SIZE
    &&& plan.solid == options.features.solid
    &&& plan.filter_policy == filter_policy
}

/// Why there are no compression settings.
pub open spec fn is_compress_error(
    options: WriterOptions,
    content: u64,
    memory_limit: u64,
    error: Error,
) -> bool {
    let stored = options.compression_level == Some(0u8);
    if options.compression_level matches Some(n) && n > 5 {
        error == level_error()
    } else {
        ||| is_dictionary_for(
            options,
            if stored {
                0
            } else {
                content
            },
            memory_limit,
            Err::<u64, Error>(error),
        )
        ||| (options.target != ArchiveVersion::Rar50 && options.target != ArchiveVersion::Rar70
            && error == Error::UnsupportedVersion(options.target))
        ||| exists|size: u64|
            is_dictionary_for(
                options,
                if stored {
                    0
                } else {
                    content
                },
                memory_limit,
                Ok::<u64, Error>(size),
            ) && #[trigger] encode_options_of(options.compression_level, size) == Err::<
                crate::rar50::ladder::EncodeOptions,
                Error,
            >(error)
    }
}

pub fn streaming_compress_plan(
    options: WriterOptions,
    filter_policy: FilterPolicy,
    content: u64,
    memory_limit: u64,
) -> (r: Result<CompressPlan>)
    ensures
        match r {
            Ok(plan) => is_compress_plan(options, filter_policy, content, memory_limit, plan),
            Err(error) => is_compress_error(options, content, memory_limit, error),
        },
{
    let method: u8 = match compression_method_for_level(options.compression_level) {
        Ok(method) => method,
        Err(error) => {
            return Err(error);
        },
    };
    let reach: u64 = if method == 0 {
        0
    } else {
        content
    };
    let dictionary_size: u64 = match dictionary_size_for_options(options, reach, memory_limit) {
        Ok(size) => size,
        Err(error) => {
            return Err(error);
        },
    };
    let algorithm_version: u8 = match rar50_algorithm_version(options, dictionary_size) {
        Ok(version) => version,
        Err(error) => {
            return Err(error);
        },
    };
    let encode_options = match encode_options_for_level(
        options.compression_level,
        dictionary_size,
    ) {
        Ok(options) => options,
        Err(error) => {
            return Err(error);
        },
    };
    let candidates = match encode_option_candidates_for_level(
        options.compression_level,
        dictionary_size,
    ) {
        Ok(candidates) => candidates,
        Err(error) => {
            return Err(error);
        },
    };
    Ok(
        CompressPlan {
            algorithm_version,
            encode_options,
            dictionary_size,
            block_size: LZ_BLOCK_SIZE,
            solid: options.features.solid,
            method,
            filter_policy,
            candidates,
        },
    )
}

} // verus!
