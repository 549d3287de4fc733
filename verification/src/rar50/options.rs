//! What a caller asks of a writer.

use vstd::prelude::*;

use crate::features::FeatureSet;
#[allow(unused_imports)]
use crate::features::Feature;
use crate::version::ArchiveVersion;

verus! {

#[derive(Debug, Clone, Copy, PartialEq, Eq, Structural)]
pub struct WriterOptions {
    pub target: ArchiveVersion,
    pub features: FeatureSet,
    pub compression_level: Option<u8>,
    pub dictionary_size: Option<u64>,
}

impl WriterOptions {
    pub fn new(target: ArchiveVersion, features: FeatureSet) -> (options: WriterOptions)
        ensures
            options == (WriterOptions {
                target,
                features,
                compression_level: None,
                dictionary_size: None,
            }),
    {
        WriterOptions { target, features, compression_level: None, dictionary_size: None }
    }

    pub fn with_compression_level(self, level: u8) -> (options: WriterOptions)
        ensures
            options == (WriterOptions { compression_level: Some(level), ..self }),
    {
        WriterOptions { compression_level: Some(level), ..self }
    }

    pub fn with_dictionary_size(self, size: u64) -> (options: WriterOptions)
        ensures
            options == (WriterOptions { dictionary_size: Some(size), ..self }),
    {
        WriterOptions { dictionary_size: Some(size), ..self }
    }
}

impl Default for WriterOptions {
    fn default() -> (options: WriterOptions)
        ensures
            options.target == ArchiveVersion::Rar50,
            forall|feature: Feature| !options.features.holds(feature),
            options.compression_level is None,
            options.dictionary_size is None,
    {
        WriterOptions {
            target: ArchiveVersion::Rar50,
            features: FeatureSet::store_only(),
            compression_level: None,
            dictionary_size: None,
        }
    }
}

} // verus!
