//! Staging payloads for a rewrite, handing them over, and what a rewrite would
//! lose.

use rars::archive_model::{
    special_entry, Archive, ArchiveFormat, ArchiveMemberMeta, AttrSource, Block, EndHeader,
    FileHeader, LegacyMain, MainHeader, ServiceHeader,
};
use rars::comments::{find_comment_at, find_comments};
use rars::error::Error;
use rars::read_control::ReadCancellation;
use rars::reader_scratch::Rar50Scratch;
use rars::rewrite::{issues_of_member, issues_of_service};
use rars::rewrite_delivery::{
    delivery_sources, ends_early, next_selected, resolve, Delivery, DeliverySource, Demand,
    Opening,
};
use rars::rewrite_staging::RewriteStaging;
use rars::write_progress::{
    CancelLatch, WorkTracker, WriteOperation, WriteProgress, WriteProgressEvent,
};
use std::cell::{Cell, RefCell};

fn member(name: &[u8], size: u64) -> ArchiveMemberMeta {
    ArchiveMemberMeta {
        name: name.to_vec(),
        has_writable_name: true,
        unpacked_size: size,
        file_attr: 0x20,
        attr_source: AttrSource::Dos,
        is_directory: false,
        is_redirection: false,
        is_encrypted: false,
        is_split_before: false,
        is_split_after: false,
    }
}

fn plain_main(solid: bool) -> MainHeader {
    MainHeader {
        encrypted_headers: false,
        solid,
        volume: false,
        has_volume_number: false,
        recovery_record: false,
        locked: false,
        rewrite_metadata_complete: true,
        archive_flags: if solid { 4 } else { 0 },
        block_flags: 0,
        data_size: None,
    }
}

fn plain_file() -> Block {
    Block::File(FileHeader {
        rewrite_metadata_complete: true,
        file_flags: 4,
        block_flags: 3,
        compression_info: 128,
    })
}

fn service(name: &[u8]) -> ServiceHeader {
    ServiceHeader {
        name: name.to_vec(),
        encrypted: false,
        rewrite_metadata_complete: true,
        has_modification_time: false,
        file_flags: 4,
        block_flags: 3,
        attributes: 0,
        host_os: 0,
        compression_info: 0,
    }
}

fn archive(members: Vec<ArchiveMemberMeta>, solid: bool, blocks: Vec<Block>) -> Archive {
    Archive {
        sfx_offset: 0,
        members,
        format: ArchiveFormat::Rar50Plus {
            main: plain_main(solid),
            blocks,
        },
    }
}

fn staging(limit: u64) -> RewriteStaging {
    RewriteStaging {
        directory: String::from("/tmp"),
        max_staged_bytes: limit,
    }
}

fn contents(index: usize) -> Vec<u8> {
    vec![index as u8; index + 1]
}

fn three_members(solid: bool) -> Archive {
    archive(
        vec![member(b"a", 1), member(b"b", 2), member(b"c", 3)],
        solid,
        vec![plain_file(), plain_file(), plain_file()],
    )
}

#[test]
fn selected_members_are_staged_in_the_order_asked_for() {
    for solid in [false, true] {
        let decoded = RefCell::new(Vec::new());
        let decode = |index: usize| {
            decoded.borrow_mut().push(index);
            Ok(contents(index))
        };
        let sources = three_members(solid)
            .stage_rewrite_sources(&[1, 0], &ReadCancellation::new(), &staging(3), &decode)
            .unwrap();
        assert_eq!(sources.len(), 2);
        assert_eq!(sources[0].open().unwrap().unwrap().read(9), contents(1));
        assert_eq!(sources[1].open().unwrap().unwrap().read(9), contents(0));
        assert_eq!(*decoded.borrow(), [0, 1]);
    }
    // What comes before the selection is decoded in a solid archive only.
    for (solid, expected) in [(false, vec![2]), (true, vec![0, 1, 2])] {
        let decoded = RefCell::new(Vec::new());
        let decode = |index: usize| {
            decoded.borrow_mut().push(index);
            Ok(contents(index))
        };
        three_members(solid)
            .stage_rewrite_sources(&[2], &ReadCancellation::new(), &staging(3), &decode)
            .unwrap();
        assert_eq!(*decoded.borrow(), expected);
    }
}

#[test]
fn selections_that_cannot_be_staged_are_refused_beforehand() {
    let decode = |_: usize| -> Result<Vec<u8>, Error> { panic!("nothing is decoded") };
    let none = ReadCancellation::new();
    let refused = |indices: &[usize], limit: u64| {
        three_members(false)
            .stage_rewrite_sources(indices, &none, &staging(limit), &decode)
            .unwrap_err()
    };
    assert_eq!(refused(&[1, 1], 9), Error::DuplicateEntry);
    assert_eq!(refused(&[7], 9), Error::EntryNotFound);
    assert_eq!(
        refused(&[0, 1, 2], 5),
        Error::RewriteStagingLimitExceeded {
            limit: 5,
            required: 6
        }
    );
    let mut split = three_members(false);
    split.members[0].is_split_after = true;
    assert_eq!(
        split
            .stage_rewrite_sources(&[0], &none, &staging(9), &decode)
            .unwrap_err(),
        Error::InvalidArgument("rewrite staging requires unsplit payload members")
    );
    assert!(three_members(false)
        .stage_rewrite_sources(&[], &none, &staging(0), &decode)
        .unwrap()
        .is_empty());
    let mut cancelled = ReadCancellation::new();
    cancelled.cancel();
    assert_eq!(
        three_members(false)
            .stage_rewrite_sources(&[0], &cancelled, &staging(9), &decode)
            .unwrap_err(),
        Error::Cancelled
    );
}

#[test]
fn a_member_larger_than_declared_runs_into_the_limit() {
    let decode = |_: usize| Ok(vec![0; 5]);
    assert_eq!(
        three_members(false)
            .stage_rewrite_sources(&[0, 1], &ReadCancellation::new(), &staging(8), &decode)
            .unwrap_err(),
        Error::RewriteStagingLimitExceeded {
            limit: 8,
            required: 10
        }
    );
    let failing = |_: usize| Err(Error::WrongPasswordOrCorruptData);
    assert_eq!(
        three_members(false)
            .stage_rewrite_sources(&[0], &ReadCancellation::new(), &staging(8), &failing)
            .unwrap_err(),
        Error::WrongPasswordOrCorruptData
    );
}

struct Listener {
    seen: RefCell<Vec<String>>,
    stop_after: Cell<usize>,
}

impl WriteProgress for Listener {
    fn report(&self, event: WriteProgressEvent<'_>) {
        let line = match event {
            WriteProgressEvent::OperationStarted {
                operation,
                total_bytes,
                total_entries,
                ..
            } => format!("{operation:?} {total_bytes:?} {total_entries:?}"),
            WriteProgressEvent::EntryStarted { index, name, .. } => {
                format!("start {index} {name:?}")
            }
            WriteProgressEvent::EntryFinished { index, name, .. } => {
                format!("finish {index} {name:?}")
            }
            WriteProgressEvent::Advanced {
                completed_bytes,
                total_bytes,
                ..
            } => format!("{completed_bytes} of {total_bytes}"),
            WriteProgressEvent::OperationFinished { .. } => String::from("done"),
            _ => String::from("other"),
        };
        self.seen.borrow_mut().push(line);
    }

    fn is_cancelled(&self) -> bool {
        self.seen.borrow().len() >= self.stop_after.get()
    }
}

#[test]
fn staging_reports_what_it_decodes() {
    let listener = Listener {
        seen: RefCell::new(Vec::new()),
        stop_after: Cell::new(usize::MAX),
    };
    let decode = |index: usize| Ok(contents(index));
    let solid = three_members(true);
    solid
        .stage_rewrite_sources_with_progress(
            &[1],
            &ReadCancellation::new(),
            &staging(9),
            &decode,
            Some(&listener),
        )
        .unwrap();
    assert_eq!(
        *listener.seen.borrow(),
        [
            "Staging Some(3) Some(2)",
            "start 0 [97]",
            "1 of 3",
            "finish 0 [97]",
            "start 1 [98]",
            "3 of 3",
            "finish 1 [98]",
            "done",
        ]
    );
    listener.seen.borrow_mut().clear();
    listener.stop_after.set(3);
    assert_eq!(
        solid
            .stage_rewrite_sources_with_progress(
                &[1],
                &ReadCancellation::new(),
                &staging(9),
                &decode,
                Some(&listener),
            )
            .unwrap_err(),
        Error::Cancelled
    );
    assert_eq!(listener.seen.borrow().len(), 3);
}

#[test]
fn payloads_are_handed_over_on_demand() {
    let mut delivery = Delivery::new(10);
    assert_eq!(delivery.wait_for(2), Demand::Wait);
    delivery.request(2);
    assert_eq!(delivery.open(2), Opening::Wait);
    assert_eq!(delivery.wait_for(2), Demand::Requested);
    assert_eq!(delivery.wait_for(3), Demand::Wait);
    delivery.reserve(6).unwrap();
    delivery.publish(2, 6).unwrap();
    assert_eq!(
        delivery.reserve(5),
        Err(Error::RewriteStagingLimitExceeded {
            limit: 10,
            required: 11
        })
    );
    assert_eq!(delivery.open(2), Opening::Opened);
    delivery.release(2);
    // Its bytes stay counted while it is being read.
    assert_eq!(delivery.staged.used, 6);
    delivery.close(2);
    assert_eq!(delivery.staged.used, 0);
    assert_eq!(
        delivery.open(2),
        Opening::Failed(Error::WriterFailure("rewrite source already consumed"))
    );
    delivery.finish(Ok(()));
    assert_eq!(delivery.open(5), Opening::Failed(Error::Cancelled));
    delivery.finish(Err(Error::TooShort));
    assert_eq!(delivery.open(5), Opening::Failed(Error::TooShort));
}

#[test]
fn stopping_a_delivery_drops_what_nobody_reads() {
    let mut delivery = Delivery::new(10);
    delivery.reserve(3).unwrap();
    delivery.publish(0, 3).unwrap();
    delivery.reserve(4).unwrap();
    delivery.publish(1, 4).unwrap();
    assert_eq!(delivery.open(1), Opening::Opened);
    delivery.stop();
    assert_eq!(delivery.staged.used, 4);
    assert_eq!(delivery.wait_for(0), Demand::Cancelled);
    assert_eq!(delivery.publish(2, 0), Err(Error::Cancelled));
    delivery.close(1);
    assert_eq!(delivery.staged.used, 0);
}

#[test]
fn a_delivery_knows_its_sources_and_its_end() {
    let members = three_members(false).members;
    assert_eq!(
        delivery_sources(&members, &[2, 0]).unwrap(),
        [
            DeliverySource { index: 2, size: 3 },
            DeliverySource { index: 0, size: 1 }
        ]
    );
    assert_eq!(
        delivery_sources(&members, &[3]),
        Err(Error::EntryNotFound)
    );
    assert_eq!(next_selected(&[7, 3, 5], 4, 7), 5);
    assert!(!ends_early(&[1, 2], Some(2), false));
    assert!(ends_early(&[1, 2], Some(1), false));
    assert!(ends_early(&[1, 2], Some(2), true));
    assert!(!ends_early(&[], None, false));
    // The writer's failure comes first; a decoder that was stopped has not
    // failed.
    assert_eq!(
        resolve::<u8>(&[1], None, Err(Error::TooShort), Err(Error::Cancelled)),
        Err(Error::TooShort)
    );
    assert_eq!(
        resolve(&[1], None, Ok(7), Err(Error::Cancelled)),
        Ok(7)
    );
    assert_eq!(
        resolve(&[1], Some(1), Ok(7), Err(Error::Cancelled)),
        Err(Error::Cancelled)
    );
    assert_eq!(
        resolve(&[1], None, Ok(7), Err(Error::TooShort)),
        Err(Error::TooShort)
    );
}

#[test]
fn comments_belong_to_the_member_before_them() {
    let blocks = vec![
        Block::Service(service(b"CMT")),
        plain_file(),
        Block::Service(service(b"CMT")),
        plain_file(),
        Block::Service(service(b"ACL")),
    ];
    assert_eq!(find_comments(&blocks).unwrap(), [Some(2), None]);
    assert_eq!(find_comment_at(&blocks, 0).unwrap(), Some(2));
    assert_eq!(find_comment_at(&blocks, 1).unwrap(), None);
    assert_eq!(find_comment_at(&blocks, 2), Err(Error::EntryNotFound));
    let archive = archive(vec![member(b"a", 1), member(b"b", 1)], false, blocks);
    let legacy = |_: usize| -> Result<Option<Vec<u8>>, Error> { panic!("not an older format") };
    let decode = |block: usize| Ok(vec![block as u8]);
    assert_eq!(
        archive.member_comments(&legacy, &decode).unwrap(),
        [Some(vec![2]), None]
    );
    assert_eq!(
        archive.member_comment_at(0, &legacy, &decode).unwrap(),
        Some(vec![2])
    );

    let twice = vec![
        plain_file(),
        Block::Service(service(b"CMT")),
        Block::Service(service(b"CMT")),
    ];
    assert!(find_comments(&twice).is_err());
    assert!(find_comment_at(&twice, 0).is_err());
}

#[test]
fn a_plain_archive_loses_nothing() {
    let plain = archive(
        vec![member(b"a", 1)],
        false,
        vec![
            Block::Service(service(b"CMT")),
            plain_file(),
            Block::Service(service(b"CMT")),
            Block::End(EndHeader {
                flags: 0,
                block_flags: 0,
                header_size: 3,
            }),
        ],
    );
    assert!(plain.rewrite_preservation_issues().is_empty());
}

#[test]
fn what_a_rewrite_would_lose_is_told_in_order() {
    let mut odd = archive(
        vec![member(b"a\"\xff", 1), member(b"b", 1), member(b"b", 1)],
        true,
        vec![
            plain_file(),
            Block::Service(service(b"ACL")),
            plain_file(),
            Block::File(FileHeader {
                rewrite_metadata_complete: true,
                file_flags: 4,
                block_flags: 3,
                compression_info: 128 + 64 + 1,
            }),
            Block::End(EndHeader {
                flags: 1,
                block_flags: 0,
                header_size: 3,
            }),
            Block::Unknown,
        ],
    );
    odd.sfx_offset = 512;
    odd.members[0].is_encrypted = true;
    odd.members[1].is_redirection = true;
    assert_eq!(
        odd.rewrite_preservation_issues(),
        [
            "SFX executable prefix",
            "member 0 (\"a\\\"\u{fffd}\"): data encryption",
            "member 1 (\"b\"): special entry type or directory contents",
            "member 2 (\"b\"): duplicate name",
            "solid archive",
            "service record \"ACL\"",
            "member 2: source format requires conversion to RAR5",
            "member 2: solid dependency",
            "end header flags, volume continuation or extra metadata",
            "unknown archive block",
        ]
    );
    let legacy = Archive {
        sfx_offset: 0,
        members: Vec::new(),
        format: ArchiveFormat::Rar13(LegacyMain {
            solid: true,
            volume: false,
            encrypted_headers: true,
            recovery_record: true,
        }),
    };
    assert_eq!(
        legacy.rewrite_preservation_issues(),
        [
            "legacy source format and metadata require preservation adapters",
            "solid archive"
        ]
    );
}

#[test]
fn issues_name_a_member_as_it_is_shown() {
    let mut meta = member(b"a", 1);
    meta.has_writable_name = false;
    assert_eq!(
        issues_of_member(3, "<a>", &meta, true),
        [
            "member 3 (<a>): duplicate name",
            "member 3 (<a>): unsupported output name"
        ]
    );
    assert_eq!(
        issues_of_service("<ACL>", &service(b"ACL"), false),
        ["service record <ACL>"]
    );
    assert!(issues_of_service("<CMT>", &service(b"CMT"), false).is_empty());
    assert!(!special_entry(&meta));
}

#[test]
fn work_is_counted_up_to_its_total() {
    let mut tracker = WorkTracker::new(WriteOperation::Compression, 10);
    let listener = Listener {
        seen: RefCell::new(Vec::new()),
        stop_after: Cell::new(usize::MAX),
    };
    assert!(tracker.report_advance(Some(&listener), 4));
    assert!(tracker.report_advance(Some(&listener), u64::MAX));
    assert_eq!(*listener.seen.borrow(), ["4 of 10", "10 of 10"]);
    assert!(matches!(
        tracker.finish(),
        WriteProgressEvent::Advanced {
            completed_bytes: 10,
            total_bytes: 10,
            ..
        }
    ));
    assert!(matches!(
        tracker.entry_started(1, 2, b"n", 5),
        WriteProgressEvent::EntryStarted { index: 1, .. }
    ));
    let mut latch = CancelLatch::new();
    assert!(!latch.observe(false, false));
    assert!(latch.observe(false, true));
    assert!(latch.observe(false, false));
}

#[test]
fn scratch_keeps_its_filter_limit() {
    let scratch = Rar50Scratch::new(String::from("/tmp"), 9).with_filter_memory_limit(5);
    assert_eq!(scratch.directory, "/tmp");
    assert_eq!(scratch.max_bytes, 9);
    assert_eq!(scratch.filter_memory_limit, 5);
}

#[test]
fn staging_counts_large_payloads_in_chunks() {
    let listener = Listener {
        seen: RefCell::new(Vec::new()),
        stop_after: Cell::new(usize::MAX),
    };
    let decode = |_: usize| Ok(vec![7; 0x1_0005]);
    three_members(false)
        .stage_rewrite_sources_with_progress(
            &[0],
            &ReadCancellation::new(),
            &staging(1 << 20),
            &decode,
            Some(&listener),
        )
        .unwrap();
    assert_eq!(
        *listener.seen.borrow(),
        [
            "Staging Some(1) Some(1)",
            "start 0 [97]",
            "65536 of 1",
            "65541 of 1",
            "finish 0 [97]",
            "done",
        ]
    );
}

#[test]
fn a_staging_that_is_told_as_done_has_succeeded() {
    let listener = Listener {
        seen: RefCell::new(Vec::new()),
        stop_after: Cell::new(5),
    };
    let decode = |index: usize| Ok(contents(index));
    let stage = |indices: &[usize], listener: &Listener| {
        three_members(false).stage_rewrite_sources_with_progress(
            indices,
            &ReadCancellation::new(),
            &staging(9),
            &decode,
            Some(listener),
        )
    };
    // The request to stop comes with the last event.
    assert!(stage(&[0], &listener).is_ok());
    assert_eq!(listener.seen.borrow().last().unwrap(), "done");

    // What is refused or empty is not told of at all.
    listener.stop_after.set(usize::MAX);
    listener.seen.borrow_mut().clear();
    assert!(stage(&[0, 0], &listener).is_err());
    assert!(stage(&[99], &listener).is_err());
    assert!(stage(&[], &listener).unwrap().is_empty());
    assert!(listener.seen.borrow().is_empty());
}
