//! What the formats support, and which requests are refused.

use rars::error::{EntryError, Error, ErrorKind};
use rars::features::{Feature, FeatureSet};
use rars::filter::FilterPolicy;
use rars::read_control::{ReadCancellation, ReadControl};
use rars::version::{ArchiveFamily, ArchiveVersion};
use rars::write_plan::{
    formats_supporting, supported_features, supports, validate_compression_level,
    validate_features, validate_option, MemberCoding, PlanShape, StoreFallback, WriterOption,
};

#[test]
fn maps_versions_to_archive_families() {
    let cases = [
        (ArchiveVersion::Rar13, ArchiveFamily::Rar13),
        (ArchiveVersion::Rar14, ArchiveFamily::Rar13),
        (ArchiveVersion::Rar15, ArchiveFamily::Rar15To40),
        (ArchiveVersion::Rar20, ArchiveFamily::Rar15To40),
        (ArchiveVersion::Rar29, ArchiveFamily::Rar15To40),
        (ArchiveVersion::Rar30, ArchiveFamily::Rar15To40),
        (ArchiveVersion::Rar40, ArchiveFamily::Rar15To40),
        (ArchiveVersion::Rar50, ArchiveFamily::Rar50Plus),
        (ArchiveVersion::Rar70, ArchiveFamily::Rar50Plus),
    ];

    for (version, family) in cases {
        assert_eq!(version.family(), family);
    }
}

#[test]
fn identifies_rar13_family_versions() {
    let cases = [
        (ArchiveVersion::Rar13, true),
        (ArchiveVersion::Rar14, true),
        (ArchiveVersion::Rar15, false),
        (ArchiveVersion::Rar20, false),
        (ArchiveVersion::Rar29, false),
        (ArchiveVersion::Rar30, false),
        (ArchiveVersion::Rar40, false),
        (ArchiveVersion::Rar50, false),
        (ArchiveVersion::Rar70, false),
    ];

    for (version, expected) in cases {
        assert_eq!(version.is_rar13_family(), expected);
    }
}

#[test]
fn versions_are_spelled_apart() {
    let versions = ArchiveVersion::all();
    assert_eq!(versions.len(), 9);
    for first in &versions {
        for second in &versions {
            assert_eq!(first.as_str() == second.as_str(), first == second);
        }
    }
}

/// The capability table and the validator have to agree everywhere, or a
/// caller can be told an option is available and then refused it.
#[test]
fn asking_and_validating_agree_for_every_combination() {
    for target in ArchiveVersion::all() {
        for option in WriterOption::all() {
            for shape in PlanShape::all() {
                let supported = supports(target, option, shape);
                let validated = validate_option(target, option, shape);
                assert_eq!(
                    supported,
                    validated.is_ok(),
                    "{target:?} {option:?} {shape:?}: supports={supported} validate={validated:?}"
                );
                if let Err(Error::UnsupportedWriterOption { option: named, .. }) = validated {
                    assert_eq!(named, option, "the refusal named the wrong option");
                }
            }
        }
    }
}

/// A refusal is only useful if it can point somewhere, so every option has
/// to be available on at least one format.
#[test]
fn every_option_is_supported_by_some_format() {
    for option in WriterOption::all() {
        assert!(!option.name().is_empty());
        assert!(
            PlanShape::all()
                .into_iter()
                .any(|shape| !formats_supporting(option, shape).is_empty()),
            "{option:?} is supported by nothing, so a refusal could not point anywhere"
        );
    }
}

#[test]
fn feature_capability_matches_the_per_option_answer() {
    for target in ArchiveVersion::all() {
        for shape in PlanShape::all() {
            let features = supported_features(target, shape);
            for feature in Feature::all() {
                assert_eq!(
                    feature_of(features, feature),
                    supports(target, WriterOption::Feature(feature), shape),
                    "{target:?} {feature:?} {shape:?}"
                );
            }
        }
    }
}

fn feature_of(set: FeatureSet, feature: Feature) -> bool {
    match feature {
        Feature::Solid => set.solid,
        Feature::HeaderEncryption => set.header_encryption,
        Feature::QuickOpen => set.quick_open,
    }
}

#[test]
fn a_member_is_only_stored_when_compressing_it_gained_nothing() {
    let plain = StoreFallback::new();
    assert!(plain.applies(false, 100, 100));
    assert!(plain.applies(false, 100, 120));
    assert!(!plain.applies(false, 100, 99));

    // A named filter survives a result that did not shrink.
    assert!(!plain.filter_requested(true).applies(false, 100, 200));

    // Solid is refused unless the format can rebuild its chain.
    assert!(!plain.applies(true, 100, 100));
    assert!(plain.allow_solid(true).applies(true, 100, 100));

    // The floor keeps small members compressed.
    let floored = plain.min_size(1024);
    assert!(!floored.applies(false, 1023, 1023));
    assert!(floored.applies(false, 1024, 1024));
}

#[test]
fn a_level_above_five_is_refused_by_name() {
    let refused = validate_compression_level(ArchiveVersion::Rar50, Some(9));
    assert!(matches!(
        refused,
        Err(Error::UnsupportedWriterOption {
            option: WriterOption::CompressionLevel,
            ..
        })
    ));
    assert!(validate_compression_level(ArchiveVersion::Rar50, Some(5)).is_ok());
    assert!(validate_compression_level(ArchiveVersion::Rar50, None).is_ok());
}

#[test]
fn an_unsupported_feature_is_refused_by_name() {
    let asked = FeatureSet {
        header_encryption: true,
        ..FeatureSet::store_only()
    };
    let shape = PlanShape::new();
    let refused = validate_features(ArchiveVersion::Rar13, asked, shape).unwrap_err();
    assert!(matches!(
        refused,
        Error::UnsupportedWriterOption {
            option: WriterOption::Feature(Feature::HeaderEncryption),
            ..
        }
    ));
    assert_eq!(refused.kind(), ErrorKind::Unsupported);
    assert!(validate_features(ArchiveVersion::Rar50, asked, shape).is_ok());
}

#[test]
fn file_comments_stay_with_members_that_are_not_compressed() {
    let target = ArchiveVersion::Rar50;
    let option = WriterOption::FileComment;
    assert_eq!(validate_option(target, option, PlanShape::new()), Ok(()));
    assert_eq!(
        validate_option(target, option, PlanShape::new().compressed(true)),
        Err(Error::UnsupportedWriterOption {
            target,
            option,
            because: None,
        })
    );
}

#[test]
fn an_error_names_its_entry_once_and_a_cancellation_none() {
    let error = EntryError::new(Error::TooShort);
    assert!(error.context.is_none());
    let error = error.at_entry(b"a.txt", "compressing");
    let context = error.context.as_ref().unwrap();
    assert_eq!(context.name, b"a.txt");
    assert_eq!(context.operation, "compressing");
    let error = error.at_entry(b"a.txt", "preparing");
    assert_eq!(error.context.as_ref().unwrap().operation, "compressing");
    let error = error.at_entry(b"b.txt", "writing");
    assert_eq!(error.context.as_ref().unwrap().name, b"b.txt");
    assert_eq!(error.error, Error::TooShort);
    let stopped = EntryError::new(Error::Cancelled).at_entry(b"a.txt", "writing");
    assert!(stopped.context.is_none());
}

#[test]
fn a_coding_decides_the_shape_of_its_plan() {
    assert!(!MemberCoding::Stored.compresses());
    assert!(MemberCoding::Compressed.compresses());
    let filtered = MemberCoding::Filtered(FilterPolicy::Auto);
    assert!(filtered.is_filtered());
    assert_eq!(
        filtered.shape(),
        PlanShape::new().compressed(true).filtered(true)
    );
    assert_eq!(
        PlanShape::new().volumes(true),
        PlanShape {
            compressed: false,
            volumes: true,
            filtered: false,
        }
    );
}

#[test]
fn cancellation_observation_is_local_and_survives_error_adapters() {
    let mut token = ReadCancellation::new();
    let mut observed = ReadControl::new(Some(&token));
    let unrelated = ReadControl::new(Some(&token));
    token.cancel();
    assert!(observed.check(&token).is_err());
    assert_eq!(
        observed
            .finish::<()>(Err(Error::WrongPasswordOrCorruptData))
            .unwrap_err()
            .kind(),
        ErrorKind::Cancelled
    );
    assert!(matches!(
        unrelated.finish::<()>(Err(Error::WrongPasswordOrCorruptData)),
        Err(Error::WrongPasswordOrCorruptData)
    ));
}

#[test]
fn reader_bounds_reads_and_preserves_the_cancellation_sentinel() {
    struct Source {
        token: ReadCancellation,
        calls: usize,
    }
    impl Source {
        fn read(&mut self, bytes: &mut [u8]) -> usize {
            self.calls += 1;
            assert!(bytes.len() <= 64 * 1024);
            self.token.cancel();
            bytes.fill(42);
            bytes.len()
        }
    }
    fn read(
        control: &mut ReadControl,
        source: &mut Source,
        bytes: &mut [u8],
    ) -> Result<usize, Error> {
        control.check(&source.token)?;
        let count = control.chunk_len(bytes.len());
        Ok(source.read(&mut bytes[..count]))
    }
    let token = ReadCancellation::new();
    let mut control = ReadControl::new(Some(&token));
    let mut source = Source { token, calls: 0 };
    let mut bytes = vec![0; 128 * 1024];
    assert_eq!(
        read(&mut control, &mut source, &mut bytes).unwrap(),
        64 * 1024
    );
    let err = read(&mut control, &mut source, &mut bytes).unwrap_err();
    assert_eq!(err.kind(), ErrorKind::Cancelled);
    assert_eq!(source.calls, 1);
}

#[test]
fn polling_bounds_both_output_and_no_output_work() {
    for output in [false, true] {
        let mut token = ReadCancellation::new();
        let mut control = ReadControl::new(Some(&token));
        let mut poller = control.poller();
        poller.check(0, &mut control, &token).unwrap();
        // The signal is set after one look at it.
        token.cancel();
        if output {
            assert!(poller.check(64 * 1024, &mut control, &token).is_err());
        } else {
            for _ in 1..4096 {
                poller.check(0, &mut control, &token).unwrap();
            }
            assert!(poller.check(0, &mut control, &token).is_err());
        }
    }
}

#[test]
fn a_control_without_a_signal_never_stops() {
    let mut token = ReadCancellation::new();
    token.cancel();
    let mut control = ReadControl::new(None);
    assert!(!control.is_enabled());
    assert!(control.check(&token).is_ok());
    assert_eq!(control.chunk_len(128 * 1024), 128 * 1024);
    assert!(matches!(control.finish(Ok(7)), Ok(7)));
}
