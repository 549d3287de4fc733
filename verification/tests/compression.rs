//! Levels, dictionaries, workspaces, and how members are scheduled and packed.

use rars::crc32::crc32;
use rars::error::Error;
use rars::features::FeatureSet;
use rars::filter::{FilterKind, FilterPolicy, FilterSpec};
use rars::rar50::candidates::{
    encode_member_with_filter_policy_candidates, filter_policy_walk_bytes, Rar50Search,
};
use rars::rar50::compress::{
    compress_whole_member, reread_member, settle_fallback_member, settle_member, source_integrity,
    MemberSource,
};
use rars::rar50::dictionary::{
    dictionary_size_fields, streaming_lz_workspace, validate_dictionary_size,
    DEFAULT_RAR50_DICTIONARY_SIZE,
};
use rars::rar50::dispatch::{compress_members, MemberCodec};
use rars::rar50::entry::ArchiveEntry;
use rars::rar50::ladder::{
    compression_method_for_level, dictionary_size_for_options,
    encode_option_candidates_for_level, encode_options_for_level, rar50_algorithm_version,
    EncodeOptions, LZ_BLOCK_SIZE, MAX_LZ_BLOCK_SIZE,
};
use rars::rar50::member_progress::MemberProgress;
use rars::rar50::options::WriterOptions;
use rars::rar50::plan::{
    compression_info, should_store_compressed_payload, whole_member_workspace, CompressPlan,
    Execution, ExecutionPlan, FallbackReason, MemberPlan,
};
use rars::rar50::requests::{dictionary_reach, validate_recovery_percent};
use rars::rar50::runs::{next_ready, BlockJob, ChunkRequest, MemberInput};
use rars::rar50::share::{EncodeProgress, MemberShare, Turn};
use rars::rar50::waves::{batch_capacity, reported_failure, whole_member_wave};
use rars::streaming::ledger::Admission;
use rars::streaming::preparation::Records;
use rars::streaming::resources::{CapacityClass, WriterResources};
use rars::streaming::source::EntrySource;
use rars::version::ArchiveVersion;
use rars::write_progress::{Unobserved, WriteProgress, WriteProgressEvent};
use std::cell::{Cell, RefCell};

#[test]
fn the_writer_fits_the_dictionary_to_what_one_window_has_to_reach() {
    let options = WriterOptions::new(ArchiveVersion::Rar50, FeatureSet::store_only())
        .with_compression_level(3);
    let fitted = |content: u64| {
        dictionary_size_for_options(options, content, u64::MAX).expect("a legal dictionary")
    };

    // The smallest window that still reaches past the data, and never below
    // the format's floor or above the cap the writer picks on its own.
    assert_eq!(fitted(0), 128 * 1024);
    assert_eq!(fitted(130_000), 128 * 1024);
    assert_eq!(fitted(200_000), 256 * 1024);
    assert_eq!(fitted(700_000), 1024 * 1024);
    assert_eq!(fitted(64 * 1024 * 1024), 4 * 1024 * 1024);

    // What the caller asked for stands, in both directions.
    assert_eq!(
        dictionary_size_for_options(options.with_dictionary_size(4 * 1024 * 1024), 0, u64::MAX)
            .unwrap(),
        4 * 1024 * 1024
    );
}

#[test]
fn the_cap_on_a_fitted_dictionary_climbs_with_the_level() {
    let plenty = 64 * 1024 * 1024;
    let capped = |level: u8| {
        let options = WriterOptions::new(ArchiveVersion::Rar50, FeatureSet::store_only())
            .with_compression_level(level);
        dictionary_size_for_options(options, plenty, u64::MAX).expect("a legal dictionary")
    };

    assert_eq!(capped(1), 1024 * 1024);
    assert_eq!(capped(2), 4 * 1024 * 1024);
    assert_eq!(capped(3), 4 * 1024 * 1024);
    assert_eq!(capped(4), 8 * 1024 * 1024);
    assert_eq!(capped(5), 16 * 1024 * 1024);

    // An absent level is the default level, and picks the same window it
    // would if the default had been spelled out.
    let absent = WriterOptions::new(ArchiveVersion::Rar50, FeatureSet::store_only());
    assert_eq!(
        dictionary_size_for_options(absent, plenty, u64::MAX).unwrap(),
        capped(3),
    );
}

#[test]
fn the_workspace_charge_covers_what_a_member_measured() {
    let block = LZ_BLOCK_SIZE;
    // Peak resident bytes over the member, one encode per row, taken with
    // `/proc/self/status` VmHWM so the allocator could not be involved.
    // Anything that raises what the encoder holds has to move these too.
    let measured: [(u64, u64); 5] = [
        (256 * 1024, 6_197_248),
        (1024 * 1024, 9_170_944),
        (3 * 1024 * 1024, 20_152_320),
        (4 * 1024 * 1024, 20_234_240),
        (8 * 1024 * 1024, 36_941_824),
    ];
    for (dictionary, peak) in measured {
        let charged = streaming_lz_workspace(dictionary, block, false);
        assert!(
            charged >= peak,
            "a {dictionary}-byte dictionary measured {peak} against a charge of {charged}",
        );
        // Streaming runs also retain input/history buffers not present in
        // these single-member measurements.
        assert!(
            charged < peak * 4,
            "a {dictionary}-byte dictionary is charged {charged} for a measured {peak}",
        );
    }
}

/// The same measurement for a parse that searches a tree, which holds two
/// links per window position where a chain holds one. Charging the chain's
/// four bytes for it let a fitted dictionary pick a window the budget could
/// not hold: at a 32 MiB limit a 16 MiB member peaked at 43 MB.
#[test]
fn the_workspace_charge_covers_a_tree_search_too() {
    let block = LZ_BLOCK_SIZE;
    // Peak resident bytes over the member, 16 MiB of manpage text at
    // level 5, which is the only level that parses optimally.
    let measured: [(u64, u64); 4] = [
        (256 * 1024, 19_668_992),
        (1024 * 1024, 21_794_816),
        (4 * 1024 * 1024, 47_030_272),
        (8 * 1024 * 1024, 75_390_976),
    ];
    for (dictionary, peak) in measured {
        let charged = streaming_lz_workspace(dictionary, block, true);
        let chain = streaming_lz_workspace(dictionary, block, false);
        assert!(
            charged > chain,
            "a tree is charged {charged} against a chain's {chain}",
        );
        // The two smallest windows measure above their charge: what is over
        // is the member copies the whole-member path holds, which
        // `whole_member_workspace` charges for separately and which no
        // window size changes.
        let copies = 17 * 1024 * 1024;
        assert!(
            charged + copies >= peak,
            "a {dictionary}-byte dictionary measured {peak} against a charge of {charged}",
        );
    }
}

#[test]
fn the_workspace_charge_never_falls_as_the_dictionary_grows() {
    let block = LZ_BLOCK_SIZE;
    let mut previous = 0;
    let mut dictionary = 128 * 1024u64;
    while dictionary <= 64 * 1024 * 1024 {
        for optimal_parse in [false, true] {
            let charged = streaming_lz_workspace(dictionary, block, optimal_parse);
            assert!(
                charged >= previous,
                "{dictionary} charged less than the size below it"
            );
            if !optimal_parse {
                previous = charged;
            }
        }
        // Every size the format allows, not just the powers of two, because
        // the rounding inside is the whole reason this function exists.
        dictionary += 128 * 1024;
    }
}

#[test]
fn a_fitted_dictionary_shrinks_to_the_workspace_budget() {
    let options = WriterOptions::new(ArchiveVersion::Rar50, FeatureSet::store_only())
        .with_compression_level(3);
    // Derived exactly as the writer derives it, so the budget below is the
    // one that admits a 256 KiB window and nothing larger. Spelling the
    // parameters out here instead would make this test pass or fail on
    // whether the ladder had moved since.
    let block = MAX_LZ_BLOCK_SIZE;
    let parse = encode_options_for_level(Some(3), DEFAULT_RAR50_DICTIONARY_SIZE)
        .unwrap()
        .optimal_parse;
    let room_for_256k = streaming_lz_workspace(256 * 1024, block, parse);

    // A budget that cannot hold the fitted window takes the largest one it
    // can, rather than failing a write the old 128 KiB default would have
    // finished.
    let fitted = dictionary_size_for_options(options, 8 * 1024 * 1024, room_for_256k).unwrap();

    assert_eq!(fitted, 256 * 1024);
    assert!(streaming_lz_workspace(fitted, block, parse) <= room_for_256k);
    // A dictionary the caller named is used as asked, so the write fails
    // later saying what it needed instead of quietly writing something else.
    assert_eq!(
        dictionary_size_for_options(
            options.with_dictionary_size(4 * 1024 * 1024),
            8 * 1024 * 1024,
            room_for_256k
        )
        .unwrap(),
        4 * 1024 * 1024
    );
}

#[test]
fn only_the_bottom_of_the_ladder_settles_for_a_greedy_parse() {
    // Level 1 is the rung that exists to be quick. Everything above it
    // parses by shortest path, because on this corpus nothing else closes
    // the distance to WinRAR at any rung: the parse is worth several
    // percent and the search depth around it is worth tenths.
    for level in 0..=1u8 {
        let options =
            encode_options_for_level(Some(level), DEFAULT_RAR50_DICTIONARY_SIZE).unwrap();
        assert!(!options.optimal_parse, "level {level} priced every path");
    }
    for level in 2..=5u8 {
        let options =
            encode_options_for_level(Some(level), DEFAULT_RAR50_DICTIONARY_SIZE).unwrap();
        assert!(options.optimal_parse, "level {level} settled for greedy");
    }
    assert!(
        encode_options_for_level(None, DEFAULT_RAR50_DICTIONARY_SIZE)
            .unwrap()
            .optimal_parse,
        "an absent level is the default level, which parses by shortest path",
    );
}

#[test]
fn every_level_encodes_the_member_once() {
    // Level 5 used to try levels four down to one as well and keep the
    // smallest. Over the whole bench corpus that caught one byte, on one
    // member, for four extra whole-member encodes.
    for level in 0..=5u8 {
        let candidates =
            encode_option_candidates_for_level(Some(level), DEFAULT_RAR50_DICTIONARY_SIZE)
                .unwrap();
        assert_eq!(candidates.len(), 1, "level {level} encodes more than once");
    }
}

#[test]
fn a_filter_screen_does_not_pay_for_the_optimal_parse() {
    let search = Rar50Search {
        algorithm_version: 0,
    };
    let five = encode_options_for_level(Some(5), DEFAULT_RAR50_DICTIONARY_SIZE).unwrap();
    let screen = search.screen_options(five);

    assert!(!screen.optimal_parse);
    assert_eq!(screen.max_match_candidates, five.max_match_candidates);
    assert_eq!(screen.max_match_distance, five.max_match_distance);
}

#[test]
fn levels_and_sizes_outside_the_format_are_refused() {
    assert!(encode_options_for_level(Some(6), 0x2_0000).is_err());
    assert_eq!(compression_method_for_level(None).unwrap(), 1);
    assert_eq!(compression_method_for_level(Some(5)).unwrap(), 5);
    assert!(compression_method_for_level(Some(6)).is_err());
    assert_eq!(dictionary_size_fields(0, 512 * 1024).unwrap(), (2, 0));
    assert_eq!(dictionary_size_fields(1, 192 * 1024).unwrap(), (0, 16));
    assert!(dictionary_size_fields(0, 192 * 1024).is_err());
    assert!(dictionary_size_fields(0, 0).is_err());
    assert!(validate_dictionary_size(ArchiveVersion::Rar70, 192 * 1024).is_ok());
    assert!(validate_dictionary_size(ArchiveVersion::Rar50, 192 * 1024).is_err());
    let seven = WriterOptions::new(ArchiveVersion::Rar70, FeatureSet::store_only());
    assert_eq!(rar50_algorithm_version(seven, 256 * 1024).unwrap(), 0);
    assert_eq!(rar50_algorithm_version(seven, 192 * 1024).unwrap(), 1);
    assert!(validate_recovery_percent(0).is_err());
    assert!(validate_recovery_percent(100).is_ok());
    assert!(validate_recovery_percent(101).is_err());
}

#[test]
fn compression_info_packs_version_method_and_dictionary() {
    // Version 0, method 1, 128 KiB.
    assert_eq!(compression_info(0, 1, 128 * 1024, false).unwrap(), 1 << 7);
    // A member that goes on with the dictionary of the one before it.
    assert_eq!(
        compression_info(0, 3, 512 * 1024, true).unwrap(),
        (2 << 10) | (3 << 7) | 0x40
    );
}

#[test]
fn writer_options_default_targets_rar50_with_store_only_features() {
    let options = WriterOptions::default();
    assert_eq!(options.target, ArchiveVersion::Rar50);
    assert_eq!(options.features, FeatureSet::store_only());
}

fn settings() -> CompressPlan {
    let encode_options = EncodeOptions::new(8).with_max_match_distance(128 * 1024);
    CompressPlan {
        algorithm_version: 0,
        encode_options,
        dictionary_size: 128 * 1024,
        block_size: LZ_BLOCK_SIZE,
        solid: false,
        method: 1,
        filter_policy: FilterPolicy::Auto,
        candidates: vec![encode_options],
    }
}

#[test]
fn automatic_fallback_records_the_admission_boundary_and_reason() {
    let settings = settings();
    let size = 2 * 1024 * 1024;
    let required = whole_member_workspace(size, &settings);
    let at_limit = ExecutionPlan::new(&settings, &[size], required);
    assert_eq!(
        at_limit.members().unwrap()[0].execution,
        Execution::WholeMember
    );
    let below = ExecutionPlan::new(&settings, &[size], required - 1);
    assert_eq!(
        below.members().unwrap()[0].execution,
        Execution::Blocks {
            fallback: FallbackReason::AutomaticFilterWorkspace {
                required,
                limit: required - 1
            },
        }
    );
    assert!(below.members().unwrap()[0].workspace < required);
}

#[test]
fn explicit_filters_and_candidate_trials_cannot_silently_fall_back() {
    let mut settings = settings();
    settings.filter_policy =
        FilterPolicy::Explicit(FilterSpec::whole(FilterKind::Delta { channels: 1 }));
    for filter in [settings.filter_policy, FilterPolicy::Off] {
        settings.filter_policy = filter;
        settings.candidates.push(settings.encode_options);
        let execution = ExecutionPlan::new(&settings, &[16], 1);
        assert_eq!(
            execution.members().unwrap()[0].execution,
            Execution::WholeMember
        );
        assert!(execution.members().unwrap()[0].workspace > 1);
    }
}

#[test]
fn stored_empty_and_solid_modes_do_not_acquire_whole_member_workspace() {
    let mut settings = settings();
    let empty = ExecutionPlan::new(&settings, &[0], 0);
    assert_eq!(empty.members().unwrap()[0].workspace, 0);
    settings.method = 0;
    let stored = ExecutionPlan::new(&settings, &[u64::MAX], 0);
    assert!(matches!(stored, ExecutionPlan::Stored));
    settings.method = 1;
    settings.solid = true;
    let solid = ExecutionPlan::new(&settings, &[16, u64::MAX], u64::MAX);
    assert!(matches!(solid, ExecutionPlan::Blocks { workspace } if workspace > 0));
}

#[test]
fn whole_member_budget_includes_tree_and_parse_workspace() {
    let size: usize = 16 * 1024 * 1024;
    let options = EncodeOptions::new(32)
        .with_max_match_distance(size)
        .with_optimal_parse(true);
    let mut plan = CompressPlan {
        algorithm_version: 0,
        encode_options: options,
        dictionary_size: size as u64,
        block_size: LZ_BLOCK_SIZE,
        solid: false,
        method: 3,
        filter_policy: FilterPolicy::Auto,
        candidates: vec![options],
    };
    let required = whole_member_workspace(size as u64, &plan);
    assert!(required >= (size * 12) as u64);
    assert!(matches!(
        WriterResources::new((size * 4 + 2 * 1024 * 1024) as u64).acquire(
            required,
            size as u64,
            false
        ),
        Admission::Refused(Error::MemoryLimitExceeded { .. })
    ));
    // A large configured dictionary must not charge unreachable links.
    plan.encode_options.max_match_distance *= 2;
    assert_eq!(whole_member_workspace(size as u64, &plan), required);
}

#[test]
fn whole_waves_admit_the_sum_without_crossing_fallbacks_or_overflowing() {
    let whole = |workspace| MemberPlan {
        execution: Execution::WholeMember,
        workspace,
    };
    let members = [whole(60), whole(40), whole(1), whole(u64::MAX)];
    assert_eq!(whole_member_wave(&members, 0, 4, 100), (2, 100));
    assert_eq!(whole_member_wave(&members, 0, 1, 100), (1, 60));
    assert_eq!(whole_member_wave(&members, 0, 4, 59), (1, 60));
    assert_eq!(whole_member_wave(&members, 2, 4, u64::MAX), (3, 1));
    let fallback = MemberPlan {
        execution: Execution::Blocks {
            fallback: FallbackReason::AutomaticFilterWorkspace {
                required: 100,
                limit: 99,
            },
        },
        workspace: 10,
    };
    assert_eq!(
        whole_member_wave(&[whole(0), fallback, whole(0)], 0, 4, 0),
        (1, 0)
    );
}

#[test]
fn the_first_failure_is_reported_over_cancellation() {
    assert_eq!(reported_failure(&[None, None]), None);
    assert_eq!(
        reported_failure(&[Some(Error::Cancelled), None, Some(Error::TooShort)]),
        Some(Error::TooShort)
    );
    assert_eq!(
        reported_failure(&[None, Some(Error::Cancelled)]),
        Some(Error::Cancelled)
    );
}

#[test]
fn batches_fill_the_budget_and_the_threads() {
    assert_eq!(batch_capacity(100, 0, 1000, 4).unwrap(), 4);
    assert_eq!(batch_capacity(400, 0, 1000, 4).unwrap(), 2);
    assert!(matches!(
        batch_capacity(1001, 77, 1000, 4),
        Err(Error::MemoryLimitExceeded {
            limit: 1000,
            required: 1001,
            dictionary_size: 77
        })
    ));
}

#[test]
fn coordinator_slots_are_admitted_before_callbacks_and_results_stay_charged() {
    // Two jobs and their result slots take more than there is, so no job runs.
    let mut limited = WriterResources::default().with_max_preparation_bytes(16);
    let class = CapacityClass::Preparation;
    let mut jobs = Records::new(2, class, &mut limited).unwrap();
    jobs.push(1u64).unwrap();
    jobs.push(2u64).unwrap();
    assert!(matches!(
        Records::<u64>::new(2, class, &mut limited),
        Err(Error::WriterPreparationLimitExceeded { .. })
    ));
    jobs.into_vec(&mut limited);
    Records::<u8>::new(16, class, &mut limited)
        .unwrap()
        .into_vec(&mut limited);

    let mut resources = WriterResources::default().with_max_preparation_bytes(65536);
    for _ in 0..8 {
        let mut jobs = Records::new(2, class, &mut resources).unwrap();
        jobs.push(1u64).unwrap();
        jobs.push(2u64).unwrap();
        let mut output = Records::new(2, class, &mut resources).unwrap();
        for job in jobs.into_vec(&mut resources) {
            output.push(job * 2).unwrap();
        }
        assert_eq!(output.as_slice(), &[2, 4]);
        assert!(matches!(
            Records::<u8>::new(65536, class, &mut resources),
            Err(Error::WriterPreparationLimitExceeded { used: 16, .. })
        ));
        output.into_vec(&mut resources);
        Records::<u8>::new(65536, class, &mut resources)
            .unwrap()
            .into_vec(&mut resources);
    }
}

fn source(data: &[u8]) -> MemberSource {
    MemberSource {
        input_size: data.len() as u64,
        data: data.to_vec(),
        hash: [3; 32],
    }
}

/// One entry for each source.
fn named(sources: &[MemberSource]) -> Vec<ArchiveEntry> {
    (0..sources.len())
        .map(|index| {
            let name = format!("member-{index}").into_bytes();
            ArchiveEntry::new(name, EntrySource::from_bytes(Vec::new()))
        })
        .collect()
}

#[test]
fn a_member_keeps_the_smallest_of_what_was_tried() {
    let sources = [source(b"member")];
    let entries = named(&sources);
    let mut watch = MemberProgress::new(&entries, &sources, None::<&Unobserved>);
    let mut share = MemberShare::new(6, 12);
    let first = EncodeOptions::new(8);
    let second = EncodeOptions::new(32);
    let encode = |data: &[u8], filters: Vec<FilterSpec>, options: EncodeOptions, _: usize| {
        assert_eq!(data, b"member");
        assert!(filters.is_empty());
        Ok(Turn::Done(vec![7; 40 - options.max_match_candidates]))
    };
    let search = |_: &[u8], _: EncodeOptions, _: usize| panic!("nothing to search");
    let packed = encode_member_with_filter_policy_candidates(
        b"member",
        &FilterPolicy::Off,
        true,
        &[first, second],
        &search,
        &encode,
        &mut watch,
        &mut share,
    )
    .unwrap();
    assert_eq!(packed.len(), 8);
    // Both passes are walked, so the member's share is used up.
    assert_eq!(share.report(EncodeProgress::PassStarted), 0);
    assert_eq!(share.report(EncodeProgress::Advanced(6)), 0);
    assert_eq!(
        encode_member_with_filter_policy_candidates(
            b"member",
            &FilterPolicy::Off,
            true,
            &[],
            &search,
            &encode,
            &mut watch,
            &mut share,
        ),
        Err(Error::InvalidHeader(
            "RAR 5 compression level has no encoder options"
        ))
    );
    assert_eq!(filter_policy_walk_bytes(100, None, 3), 300);
    assert_eq!(filter_policy_walk_bytes(100, Some(7), 3), 7);
}

#[test]
fn what_does_not_shrink_is_stored() {
    let mut plan = settings();
    plan.filter_policy = FilterPolicy::Off;
    let data = [9; 20];
    let packed_to = |len: usize, plan: &CompressPlan| {
        let sources = [source(&data)];
        let entries = named(&sources);
        compress_whole_member(
            &sources[0],
            plan,
            None,
            &|_: &[u8], _: EncodeOptions, _: usize| panic!("nothing to search"),
            &move |_: &[u8], _: Vec<FilterSpec>, _: EncodeOptions, _: usize| {
                Ok(Turn::Done(vec![1; len]))
            },
            &mut MemberProgress::new(&entries, &sources, None::<&Unobserved>),
        )
        .unwrap()
    };
    let shrunk = packed_to(19, &plan);
    assert!(!shrunk.store);
    assert_eq!(shrunk.packed, vec![1; 19]);
    assert_eq!(shrunk.crc32, crc32(&data));
    let grown = packed_to(20, &plan);
    assert!(grown.store);
    assert!(grown.packed.is_empty());
    // A filter that the caller named stays.
    plan.filter_policy = FilterPolicy::Explicit(FilterSpec::whole(FilterKind::E8));
    assert!(!packed_to(20, &plan).store);
    assert!(!should_store_compressed_payload(
        20,
        20,
        true,
        &FilterPolicy::Off
    ));
}

#[test]
fn a_source_of_another_size_is_refused() {
    let mut changed = source(b"data!");
    changed.input_size = 4;
    let refused = compress_whole_member(
        &changed,
        &settings(),
        None,
        &|_: &[u8], _: EncodeOptions, _: usize| panic!("nothing to search"),
        &|_: &[u8], _: Vec<FilterSpec>, _: EncodeOptions, _: usize| panic!("nothing to encode"),
        &mut MemberProgress::new(&[], &[], None::<&Unobserved>),
    );
    assert_eq!(
        refused.unwrap_err(),
        Error::InvalidHeader("entry source size changed while compressing")
    );
    assert_eq!(
        source_integrity(&changed),
        Err(Error::InvalidHeader(
            "entry source size changed while reading"
        ))
    );
    assert_eq!(
        source_integrity(&source(b"data")).unwrap(),
        (crc32(b"data"), [3; 32])
    );
}

/// Packs a block to its length and its first byte.
fn pack_lengths(job: &BlockJob) -> Result<Vec<Vec<u8>>, Error> {
    let mut start = 0;
    Ok(job
        .blocks
        .iter()
        .map(|block| {
            let packed = vec![(block.end - start) as u8, job.data[start]];
            start = block.end;
            packed
        })
        .collect())
}

#[test]
fn members_are_compressed_the_way_their_plans_say() {
    let codec = MemberCodec {
        extends: |_: &[u8], _: &[u8]| false,
        pack: pack_lengths,
        applies: |data: &[u8], _: usize| (data[0] == b'f').then_some(3 * data.len() as u64),
        search: |data: &[u8], _: EncodeOptions, _: usize| {
            let filter = FilterSpec::whole(FilterKind::E8);
            Ok::<_, Error>(Turn::Done((vec![filter], vec![b's', data.len() as u8])))
        },
        encode: |data: &[u8], filters: Vec<FilterSpec>, _: EncodeOptions, _: usize| {
            let packed = vec![b'e', filters.len() as u8, data.len() as u8];
            Ok::<_, Error>(Turn::Done(packed))
        },
    };
    let sources = [source(b"filtered"), source(b"plain one"), source(b"")];
    let mut plan = settings();
    plan.block_size = 100;
    plan.filter_policy = FilterPolicy::Auto;
    plan.candidates = vec![plan.encode_options];
    let compress = |plan: &CompressPlan, limit: u64, threads: usize| {
        let entries = named(&sources);
        let mut watch = MemberProgress::new(&entries, &sources, None::<&Unobserved>);
        compress_members(&sources, plan, limit, threads, &codec, &mut watch)
    };

    // Each as a whole, with a filter where a search is worth while. How many
    // workers there are makes no difference.
    for threads in [0, 1, 8] {
        let members = compress(&plan, u64::MAX, threads).unwrap();
        assert_eq!(members[0].packed, [b's', 8]);
        assert_eq!(members[1].packed, [b'e', 0, 9]);
        assert!(members[2].store && members[2].packed.is_empty());
        assert_eq!(members[1].crc32, crc32(b"plain one"));
    }

    // Under a limit that does not hold a whole member, block by block.
    let whole = whole_member_workspace(9, &plan);
    let blocks = streaming_lz_workspace(
        plan.dictionary_size,
        MAX_LZ_BLOCK_SIZE,
        plan.encode_options.optimal_parse,
    );
    if blocks < whole {
        let members = compress(&plan, whole - 1, 1).unwrap();
        assert_eq!(members[1].packed, [9, b'p']);
    } else {
        assert!(compress(&plan, whole - 1, 1).is_err());
    }

    // A filter that was asked for does not fall back.
    plan.filter_policy = FilterPolicy::Explicit(FilterSpec::whole(FilterKind::E8));
    let members = compress(&plan, u64::MAX, 1).unwrap();
    assert_eq!(members[0].packed, [b'e', 1, 8]);
    let small = whole_member_workspace(8, &plan);
    assert_eq!(
        compress(&plan, small - 1, 1).unwrap_err(),
        Error::MemoryLimitExceeded {
            limit: small - 1,
            required: small,
            dictionary_size: plan.dictionary_size,
        }
    );

    // One setting and no filter: block by block.
    plan.filter_policy = FilterPolicy::Off;
    let members = compress(&plan, u64::MAX, 1).unwrap();
    assert_eq!(members[0].packed, [8, b'f']);
    assert!(members[2].store);

    // Method zero stores everything.
    plan.method = 0;
    let members = compress(&plan, 0, 1).unwrap();
    assert!(members.iter().all(|member| member.store));
}

#[test]
fn members_settle_on_the_smaller_form_and_are_read_once_more() {
    let mut plan = settings();
    plan.filter_policy = FilterPolicy::Off;
    let member = settle_member(&source(b"abcdef"), &plan, 0, vec![1, 2, 3]);
    assert!(!member.store && !member.solid_continuation);
    assert_eq!(member.packed, [1, 2, 3]);
    // What is packed is not read again.
    let packed = reread_member(member, b"abcdef".to_vec(), [5; 32]);
    assert_eq!(packed.packed, [1, 2, 3]);

    let stored = settle_fallback_member(&source(b"abc"), vec![1, 2, 3]);
    assert!(stored.store);
    assert!(stored.check_source().is_err());
    let reread = reread_member(stored, b"abc".to_vec(), [3; 32]);
    assert!(reread.check_source().is_ok());

    // In a solid archive every member but the first goes on with the
    // dictionary of the one before it.
    plan.solid = true;
    assert!(settle_member(&source(b"abc"), &plan, 1, vec![1]).solid_continuation);
    assert!(!settle_member(&source(b"abc"), &plan, 0, vec![1]).solid_continuation);
}

#[test]
fn the_reach_of_a_window_is_one_member_or_the_chain() {
    assert_eq!(dictionary_reach(&[Some(5), Some(9)], false), 9);
    assert_eq!(dictionary_reach(&[Some(5), Some(9)], true), 14);
    // A source that does not say how long it is may be as long as any.
    assert_eq!(dictionary_reach(&[Some(5), None], false), u64::MAX);
    assert_eq!(dictionary_reach(&[], false), 0);
}

#[test]
fn progress_of_many_passes_ends_at_the_input() {
    let mut share = MemberShare::new(1000, 3000);
    let mut total = 0;
    for _ in 0..3 {
        total += share.report(EncodeProgress::PassStarted);
        for position in [250, 500, 1000] {
            total += share.report(EncodeProgress::Advanced(position));
        }
    }
    assert_eq!(total, 1000);
}

#[test]
fn a_member_hands_out_chunks_and_takes_one_back() {
    let mut input = MemberInput::new(10);
    assert!(input.has_more());
    assert!(matches!(
        input.next_chunk(6),
        ChunkRequest::Read {
            count: 6,
            end: false
        }
    ));
    assert!(matches!(
        input.next_chunk(6),
        ChunkRequest::Read {
            count: 4,
            end: true
        }
    ));
    assert!(!input.has_more());
    input.push_back(vec![1, 2, 3, 4]);
    assert!(input.has_more());
    match input.next_chunk(6) {
        ChunkRequest::Ready(chunk) => assert_eq!(chunk, [1, 2, 3, 4]),
        ChunkRequest::Read { .. } => panic!("the chunk that was handed back comes first"),
    }
    assert!(!input.has_more());
}

#[test]
fn interleaved_members_take_turns() {
    assert_eq!(next_ready(&[true, false, true], 1), Some(2));
    assert_eq!(next_ready(&[true, false, false], 1), Some(0));
    assert_eq!(next_ready(&[false, false], 0), None);
}

/// Writes down what it is told, and asks to stop after some events.
struct Diary {
    lines: RefCell<Vec<String>>,
    patience: Cell<usize>,
}

impl Diary {
    fn new(patience: usize) -> Diary {
        Diary {
            lines: RefCell::new(Vec::new()),
            patience: Cell::new(patience),
        }
    }
}

impl WriteProgress for Diary {
    fn report(&self, event: WriteProgressEvent<'_>) {
        self.patience.set(self.patience.get().saturating_sub(1));
        self.lines.borrow_mut().push(match event {
            WriteProgressEvent::EntryStarted { index, name, .. } => {
                format!("start {index} {}", String::from_utf8_lossy(name))
            }
            WriteProgressEvent::EntryFinished { index, .. } => format!("end {index}"),
            WriteProgressEvent::Advanced {
                completed_bytes,
                total_bytes,
                ..
            } => format!("{completed_bytes}/{total_bytes}"),
            other => format!("{other:?}"),
        });
    }

    fn is_cancelled(&self) -> bool {
        self.patience.get() == 0
    }
}

#[test]
fn members_are_told_of_as_they_are_packed() {
    let codec = MemberCodec {
        extends: |_: &[u8], _: &[u8]| false,
        pack: pack_lengths,
        applies: |_: &[u8], settings: usize| {
            assert_eq!(settings, 2);
            Some(32)
        },
        search: |_: &[u8], _: EncodeOptions, _: usize| {
            Ok::<_, Error>(Turn::Done((Vec::new(), vec![b's'; 7])))
        },
        encode: |_: &[u8], _: Vec<FilterSpec>, _: EncodeOptions, _: usize| {
            Ok::<_, Error>(Turn::Done(vec![b'e'; 6]))
        },
    };
    let sources = [source(b"abcdefgh"), source(b""), source(b"ijklmnop")];
    let entries = named(&sources);
    let compress = |plan: &CompressPlan, diary: &Diary| {
        let mut watch = MemberProgress::new(&entries, &sources, Some(diary));
        compress_members(&sources, plan, u64::MAX, 1, &codec, &mut watch)
    };
    let mut plan = settings();
    plan.block_size = 5;
    plan.candidates = vec![plan.encode_options, plan.encode_options];

    // As wholes: the search walks three times, the other setting once.
    plan.filter_policy = FilterPolicy::Auto;
    let diary = Diary::new(100);
    compress(&plan, &diary).unwrap();
    assert_eq!(
        *diary.lines.borrow(),
        [
            "start 0 member-0",
            "6/16",
            "8/16",
            "end 0",
            "start 1 member-1",
            "end 1",
            "start 2 member-2",
            "14/16",
            "16/16",
            "end 2",
        ]
    );

    // Block by block, in chunks of five.
    plan.filter_policy = FilterPolicy::Off;
    plan.candidates = vec![plan.encode_options];
    let diary = Diary::new(100);
    compress(&plan, &diary).unwrap();
    assert_eq!(
        *diary.lines.borrow(),
        [
            "start 0 member-0",
            "5/16",
            "8/16",
            "end 0",
            "start 1 member-1",
            "end 1",
            "start 2 member-2",
            "13/16",
            "16/16",
            "end 2",
        ]
    );

    // Stored as they are.
    plan.method = 0;
    let diary = Diary::new(100);
    compress(&plan, &diary).unwrap();
    assert_eq!(diary.lines.borrow().len(), 9);
    assert_eq!(diary.lines.borrow()[1], "8/16");

    // A listener that asks to stop is heard before the next member, and in it.
    for patience in [0, 1, 2, 4] {
        let diary = Diary::new(patience);
        assert_eq!(compress(&plan, &diary).unwrap_err(), Error::Cancelled);
        assert!(diary.lines.borrow().len() <= patience + 2);
    }
}

#[test]
fn an_encoder_is_followed_turn_by_turn() {
    let sources = [source(b"abcdefgh")];
    let entries = named(&sources);
    let turns = Cell::new(0);
    let encode = |data: &[u8], _: Vec<FilterSpec>, _: EncodeOptions, turn: usize| {
        turns.set(turns.get() + 1);
        Ok(match turn {
            0 => Turn::Report(EncodeProgress::Advanced(2)),
            1 => Turn::Report(EncodeProgress::Advanced(4)),
            // More than there is to walk counts for no more than that.
            2 => Turn::Report(EncodeProgress::Advanced(400)),
            _ => Turn::Done(data[..3].to_vec()),
        })
    };
    let search = |_: &[u8], _: EncodeOptions, _: usize| panic!("nothing to search");
    let pack = |diary: &Diary| {
        let mut watch = MemberProgress::new(&entries, &sources, Some(diary));
        let mut share = MemberShare::new(8, 16);
        let options = EncodeOptions::new(8);
        encode_member_with_filter_policy_candidates(
            b"abcdefgh",
            &FilterPolicy::Off,
            false,
            &[options, options],
            &search,
            &encode,
            &mut watch,
            &mut share,
        )
    };
    let diary = Diary::new(100);
    assert_eq!(pack(&diary).unwrap(), b"abc");
    assert_eq!(
        *diary.lines.borrow(),
        ["1/8", "2/8", "4/8", "4/8", "5/8", "6/8", "8/8", "8/8"]
    );
    assert_eq!(turns.get(), 8);

    // A stop is heard after the turn that it comes with.
    turns.set(0);
    let diary = Diary::new(2);
    assert_eq!(pack(&diary).unwrap_err(), Error::Cancelled);
    assert_eq!(turns.get(), 2);
}

#[test]
fn a_filter_search_is_followed_turn_by_turn() {
    let sources = [source(b"abcdefgh")];
    let entries = named(&sources);
    let search = |_: &[u8], _: EncodeOptions, turn: usize| {
        Ok(match turn {
            0 | 2 => Turn::Report(EncodeProgress::PassStarted),
            1 | 3 => Turn::Report(EncodeProgress::Advanced(8)),
            _ => Turn::Done((vec![FilterSpec::whole(FilterKind::E8)], vec![1, 2])),
        })
    };
    let encode = |_: &[u8], _: Vec<FilterSpec>, _: EncodeOptions, _: usize| {
        panic!("one setting is enough")
    };
    let diary = Diary::new(100);
    let mut watch = MemberProgress::new(&entries, &sources, Some(&diary));
    let mut share = MemberShare::new(8, 32);
    let packed = encode_member_with_filter_policy_candidates(
        b"abcdefgh",
        &FilterPolicy::Auto,
        true,
        &[EncodeOptions::new(8)],
        &search,
        &encode,
        &mut watch,
        &mut share,
    );
    assert_eq!(packed.unwrap(), [1, 2]);
    assert_eq!(*diary.lines.borrow(), ["2/8", "4/8", "8/8"]);
}

#[test]
fn explicit_filter_pass_events_do_not_change_packed_bytes() {
    let data: Vec<_> = (0..8192u32).flat_map(u32::to_le_bytes).collect();
    let options = EncodeOptions::new(8).with_max_match_distance(65536);
    let sources = [source(&data)];
    let entries = named(&sources);
    let events = RefCell::new(Vec::new());
    let told = |event: EncodeProgress| {
        events.borrow_mut().push(event);
        event
    };
    // Three passes: two screens, and the one that is kept.
    let search = |data: &[u8], _: EncodeOptions, turn: usize| {
        Ok(match turn {
            0 | 2 | 4 => Turn::Report(told(EncodeProgress::PassStarted)),
            1 | 3 | 5 => Turn::Report(told(EncodeProgress::Advanced(data.len() as u64))),
            _ => Turn::Done((
                vec![FilterSpec::whole(FilterKind::Delta { channels: 4 })],
                data.iter().step_by(3).copied().collect(),
            )),
        })
    };
    let encode = |data: &[u8], filters: Vec<FilterSpec>, _: EncodeOptions, _: usize| {
        assert_eq!(filters.len(), 1);
        Ok(Turn::Done(data.iter().step_by(4).copied().collect()))
    };
    let walk = filter_policy_walk_bytes(data.len() as u64, Some(4 * data.len() as u64), 2);
    let mut unwatched = MemberProgress::new(&entries, &sources, None::<&Unobserved>);
    let plain = encode_member_with_filter_policy_candidates(
        &data,
        &FilterPolicy::Auto,
        true,
        &[options, options],
        &search,
        &encode,
        &mut unwatched,
        &mut MemberShare::new(data.len() as u64, walk),
    )
    .unwrap();
    events.borrow_mut().clear();
    let diary = Diary::new(100);
    let mut watched = MemberProgress::new(&entries, &sources, Some(&diary));
    let reported = encode_member_with_filter_policy_candidates(
        &data,
        &FilterPolicy::Auto,
        true,
        &[options, options],
        &search,
        &encode,
        &mut watched,
        &mut MemberShare::new(data.len() as u64, walk),
    )
    .unwrap();
    assert_eq!(plain, reported);
    assert!(
        events
            .borrow()
            .iter()
            .filter(|&&event| event == EncodeProgress::PassStarted)
            .count()
            > 2
    );
    assert_eq!(events.borrow().first(), Some(&EncodeProgress::PassStarted));
    assert_eq!(diary.lines.borrow().last().unwrap(), "32768/32768");
}
