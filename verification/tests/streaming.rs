//! Sources, spools, outputs and the quotas that they count against.

use rars::archive_source::{archive_len, check_range, MemoryArchive, SourceCursor};
use rars::error::{Error, ErrorKind};
use rars::rewrite_staging::{Sink, StagedBytes};
use rars::streaming::cancellation::WriteCancellation;
use rars::streaming::ledger::{Admission, StorageBudget, StorageCharge, StorageResource};
use rars::streaming::memory_spool::{MemorySpool, SeekFrom, BLOCK_BYTES, INDEX_ENTRY_BYTES};
use rars::streaming::output::{CollectedVolumes, VolumeSink, WriterOutput, WriterVolumes};
use rars::streaming::preparation::{Bytes, Records};
use rars::streaming::resources::{CapacityClass, WriterResources};
use rars::streaming::source::{
    EntrySource, LoadedBytes, MemberBytes, MemberPayload, MemoryReader, SourceCheck, WALK_CHUNK,
};
use rars::streaming::spool::{spool_name, spool_path_capacity, SpoolAccount};
use std::cell::Cell;

#[test]
fn writer_memory_reader_retains_payload_after_source_drop() {
    let mut resources = WriterResources::default().with_max_memory_bytes(8192);
    let (source, mut held) = EntrySource::copy_for_writer(&[42; 4096], &mut resources).unwrap();
    let retained = resources.managed_memory_in_use();
    assert!(retained >= 4096);
    let (mut reader, mut open) = source.open_for_writer(&mut resources).unwrap().unwrap();
    drop(source);
    assert!(resources.managed_memory_in_use() > retained);
    assert_eq!(reader.read(4096), [42; 4096]);
    assert!(reader.read(1).is_empty());
    open.shrink_to(0, &mut resources);
    held.shrink_to(0, &mut resources);
    assert_eq!(resources.managed_memory_in_use(), 0);
}

#[test]
fn spool_reservations_refuse_arithmetic_overflow() {
    let mut budget = StorageBudget::new(StorageResource::LogicalBytes, u64::MAX);
    let mut first = StorageCharge::new();
    let mut second = StorageCharge::new();
    first.grow_to(u64::MAX, &mut budget).unwrap();
    assert_eq!(
        second.grow_to(1, &mut budget).unwrap_err(),
        Error::WriterSpoolLimitExceeded {
            limit: u64::MAX,
            required: u64::MAX,
            used: u64::MAX,
        }
    );
    first.shrink_to(0, &mut budget);
    second.grow_to(1, &mut budget).unwrap();
    assert_eq!(budget.used(), 1);
}

/// A spool over bytes in memory, accounted like one over a file.
struct Backed {
    account: SpoolAccount,
    data: Vec<u8>,
}

impl Backed {
    fn create() -> Backed {
        Backed {
            account: SpoolAccount::new(),
            data: Vec::new(),
        }
    }

    fn write_with(
        &mut self,
        bytes: &[u8],
        resources: &mut WriterResources,
        backing: impl FnOnce(&[u8], &WriterResources) -> usize,
    ) -> Result<usize, Error> {
        self.account.begin_write(bytes.len(), resources)?;
        let written = backing(bytes, resources);
        let start = self.account.stream_position() as usize;
        if written > 0 && self.data.len() < start + written {
            self.data.resize(start + written, 0);
        }
        if written > 0 {
            self.data[start..start + written].copy_from_slice(&bytes[..written]);
        }
        self.account.end_write(written, resources);
        Ok(written)
    }

    fn write(&mut self, bytes: &[u8], resources: &mut WriterResources) -> Result<usize, Error> {
        self.write_with(bytes, resources, |bytes, _| bytes.len())
    }

    fn seek_to(&mut self, position: u64) {
        assert_eq!(
            self.account.seek(SeekFrom::Start(position)),
            Some(position)
        );
    }

    fn read(&mut self, count: usize) -> Vec<u8> {
        let start = (self.account.stream_position() as usize).min(self.data.len());
        let end = (start + count).min(self.data.len());
        self.account.note_read(end - start);
        self.data[start..end].to_vec()
    }
}

#[test]
fn spool_quota_counts_live_extents_across_parking_and_overwrites() {
    let mut resources = WriterResources::default().with_max_spool_bytes(10);
    let mut first = Backed::create();
    first.write(b"abcdef", &mut resources).unwrap();
    let mut second = Backed::create();
    second.write(b"1234", &mut resources).unwrap();
    assert_eq!(resources.spool_in_use(), 10);
    let error = second.write(b"x", &mut resources).unwrap_err();
    assert_eq!(
        error,
        Error::WriterSpoolLimitExceeded {
            limit: 10,
            required: 11,
            used: 10
        }
    );
    assert_eq!(second.account.len(), 4);
    first.seek_to(1);
    first.write(b"XY", &mut resources).unwrap();
    assert_eq!(resources.spool_in_use(), 10);
    second.account.close(true, &mut resources);
    assert_eq!(resources.spool_in_use(), 6);
    first.seek_to(9);
    assert_eq!(resources.spool_in_use(), 6);
    first.write(b"Z", &mut resources).unwrap(); // charge the hole as well
    assert_eq!(resources.spool_in_use(), 10);
    assert_eq!(first.data, b"aXYdef\0\0\0Z");
    first.account.close(true, &mut resources);
    assert_eq!(resources.spool_in_use(), 0);
}

#[test]
fn spool_short_writes_hold_then_reconcile_the_growth_reservation() {
    let mut resources = WriterResources::default().with_max_spool_bytes(10);
    let mut spool = Backed::create();
    let written = spool
        .write_with(b"0123456789", &mut resources, |_, resources| {
            assert_eq!(resources.spool_in_use(), 10);
            3
        })
        .unwrap();
    assert_eq!(written, 3);
    assert_eq!(spool.account.len(), 3);
    assert_eq!(resources.spool_in_use(), 3);
    spool.seek_to(9);
    assert_eq!(
        spool
            .write_with(b"x", &mut resources, |_, resources| {
                assert_eq!(resources.spool_in_use(), 10);
                0
            })
            .unwrap(),
        0
    );
    assert_eq!(spool.account.len(), 3);
    assert_eq!(resources.spool_in_use(), 3);
    assert!(spool
        .write_with(b"xx", &mut resources, |_, _| panic!(
            "refusal must precede backing I/O"
        ))
        .is_err());
    assert_eq!(resources.spool_in_use(), 3);
}

#[test]
fn spool_zero_limit_allows_empty_writes_but_no_growth() {
    let mut resources = WriterResources::default().with_max_spool_bytes(0);
    let mut spool = Backed::create();
    spool.seek_to(100);
    assert_eq!(spool.write(b"", &mut resources).unwrap(), 0);
    assert_eq!(spool.account.len(), 0);
    assert_eq!(resources.spool_in_use(), 0);
    assert!(matches!(
        spool.write(b"x", &mut resources).unwrap_err(),
        Error::WriterSpoolLimitExceeded {
            limit: 0,
            required: 101,
            used: 0
        }
    ));
    assert_eq!(spool.account.len(), 0);
}

#[test]
fn spool_tracks_length_across_seeks_and_overwrites() {
    let mut resources = WriterResources::default();
    let mut spool = Backed::create();
    spool.write(b"0123456789", &mut resources).unwrap();
    assert_eq!(spool.account.len(), 10);

    // Rewriting earlier bytes must not extend the spool.
    spool.seek_to(4);
    spool.write(b"ab", &mut resources).unwrap();
    assert_eq!(spool.account.len(), 10);

    // Writing past the end does extend it.
    spool.seek_to(9);
    spool.write(b"xyz", &mut resources).unwrap();
    assert_eq!(spool.account.len(), 12);
    assert_eq!(spool.data, b"0123ab678xyz");
}

#[test]
fn spool_reads_from_the_seeked_position() {
    let mut resources = WriterResources::default();
    let mut spool = Backed::create();
    spool.write(b"abcdefgh", &mut resources).unwrap();
    spool.seek_to(3);

    assert_eq!(spool.read(4), b"defg");
    assert_eq!(spool.account.stream_position(), 7);
}

#[test]
fn a_file_that_stays_keeps_its_debt() {
    let mut resources = WriterResources::default().with_max_spool_bytes(3);
    let mut spool = Backed::create();
    spool.write(b"abc", &mut resources).unwrap();
    spool.account.close(false, &mut resources);
    assert_eq!(resources.spool_in_use(), 3);
    let mut another = Backed::create();
    assert!(another.write(b"x", &mut resources).is_err());
}

#[test]
fn spool_files_are_named_apart() {
    assert_eq!(spool_name(7, 12), b".rars-spool-7-000000000000000c");
    assert_ne!(spool_name(1, 11), spool_name(11, 1));
    assert_eq!(spool_path_capacity(4, 13).unwrap(), 18);
    assert!(spool_path_capacity(usize::MAX, 1).is_err());
}

#[test]
fn byte_sources_are_rewindable_without_copying() {
    let source = EntrySource::from_bytes(b"hello".to_vec());
    let mut first = source.open().unwrap().unwrap();
    let mut second = source.open().unwrap().unwrap();
    assert_eq!(first.read(usize::MAX), b"hello");
    assert_eq!(second.read(usize::MAX), b"hello");
    assert_eq!(first.seek(SeekFrom::End(-2)), Some(3));
    assert_eq!(first.read(8), b"lo");
    assert_eq!(first.seek(SeekFrom::Current(-9)), None);
}

#[test]
fn oversized_workspace_is_rejected_before_waiting() {
    let mut resources = WriterResources::new(1024);
    assert!(matches!(
        resources.acquire(1025, 512, false),
        Admission::Refused(Error::MemoryLimitExceeded { .. })
    ));
}

#[test]
fn workspace_is_waited_for_and_given_back() {
    let mut resources = WriterResources::new(1024);
    assert_eq!(resources.acquire(1000, 0, false), Admission::Granted(1000));
    assert_eq!(resources.acquire(100, 0, false), Admission::Wait);
    assert_eq!(
        resources.acquire(100, 0, true),
        Admission::Refused(Error::Cancelled)
    );
    assert_eq!(resources.workspace_in_use(), 1000);
    resources.release_workspace(1000);
    // What needs more than the budget runs alone.
    assert_eq!(
        resources.acquire_serialising(5000, false),
        Admission::Granted(1024)
    );
    assert_eq!(resources.acquire_serialising(1, false), Admission::Wait);
}

#[test]
fn a_policy_keeps_what_it_was_given() {
    let signal = WriteCancellation::new();
    let resources = WriterResources::new(7)
        .with_max_memory_bytes(1)
        .with_max_spool_bytes(2)
        .with_max_spool_memory_bytes(3)
        .with_max_prepared_header_bytes(4)
        .with_max_preparation_bytes(5)
        .with_temp_dir(String::from("/tmp/spools"))
        .with_cancellation(signal);
    assert_eq!(resources.memory_limit(), 7);
    assert_eq!(resources.max_memory_bytes(), Some(1));
    assert_eq!(resources.max_spool_bytes(), Some(2));
    assert_eq!(resources.max_spool_memory_bytes(), Some(3));
    assert_eq!(resources.max_prepared_header_bytes(), Some(4));
    assert_eq!(resources.max_preparation_bytes(), Some(5));
    assert_eq!(resources.temp_dir().unwrap(), "/tmp/spools");
    assert!(!resources.is_cancelled());
    let mut signal = WriteCancellation::new();
    signal.cancel();
    assert!(signal.is_cancelled());
    assert!(resources.with_cancellation(signal).is_cancelled());
}

/// What a memory spool of so many blocks counts for: as many index slots as the
/// next power of two, and the blocks.
fn capacity(blocks: usize) -> u64 {
    (blocks.next_power_of_two() * INDEX_ENTRY_BYTES + blocks * BLOCK_BYTES) as u64
}

#[test]
fn quota_admits_payload_capacity_before_allocating_any_blocks() {
    for limit in [0, BLOCK_BYTES as u64, capacity(1) - 1] {
        let mut resources = WriterResources::default().with_max_spool_memory_bytes(limit);
        let mut spool = MemorySpool::new();
        let error = spool.write(b"x", &mut resources).unwrap_err();
        assert_eq!(
            error,
            Error::WriterSpoolMemoryLimitExceeded {
                limit,
                required: capacity(1),
                used: 0,
            }
        );
        assert_eq!(error.kind(), ErrorKind::ResourceLimit);
        assert_eq!(resources.spool_memory_in_use(), 0);
        assert_eq!(spool.len(), 0);
        assert_eq!(spool.stream_position(), 0);
    }
}

#[test]
fn spare_payload_capacity_is_shared_and_stays_charged_until_drop() {
    let mut resources = WriterResources::default().with_max_spool_memory_bytes(capacity(1));
    let mut first = MemorySpool::new();
    first.write(b"x", &mut resources).unwrap();
    assert_eq!(resources.spool_memory_in_use(), capacity(1));
    let mut second = MemorySpool::new();
    assert!(second.write(b"y", &mut resources).is_err());
    first.seek(SeekFrom::Start(0)).unwrap();
    first.write(b"replacement", &mut resources).unwrap();
    assert_eq!(resources.spool_memory_in_use(), capacity(1));
    first
        .seek(SeekFrom::Start(BLOCK_BYTES as u64 - 1))
        .unwrap();
    assert!(first.write(b"ab", &mut resources).is_err());
    assert_eq!(resources.spool_memory_in_use(), capacity(1));
    first.seek(SeekFrom::Start(0)).unwrap();
    assert_eq!(first.read(usize::MAX), b"replacement");
    first.release(&mut resources);
    second.write(b"y", &mut resources).unwrap();
    assert_eq!(resources.spool_memory_in_use(), capacity(1));
    second.release(&mut resources);
    assert_eq!(resources.spool_memory_in_use(), 0);
}

#[test]
fn index_replacement_requires_both_indexes_before_growth() {
    let peak = capacity(2) + INDEX_ENTRY_BYTES as u64;
    for limit in [peak - 1, peak] {
        let mut resources = WriterResources::default().with_max_spool_memory_bytes(limit);
        let mut spool = MemorySpool::new();
        spool.write(b"original", &mut resources).unwrap();
        spool.seek(SeekFrom::Start(BLOCK_BYTES as u64)).unwrap();
        let result = spool.write(b"next", &mut resources);
        if limit < peak {
            assert_eq!(
                result.unwrap_err(),
                Error::WriterSpoolMemoryLimitExceeded {
                    limit,
                    required: peak,
                    used: capacity(1),
                }
            );
            assert_eq!(resources.spool_memory_in_use(), capacity(1));
            assert_eq!(spool.stream_position(), BLOCK_BYTES as u64);
            assert_eq!(spool.seek(SeekFrom::End(0)).unwrap(), 8);
        } else {
            assert_eq!(result.unwrap(), 4);
            // The replaced index is no longer charged after growth.
            assert_eq!(resources.spool_memory_in_use(), capacity(2));
        }
        spool.seek(SeekFrom::Start(0)).unwrap();
        assert_eq!(spool.read(8), b"original");
        spool.release(&mut resources);
        assert_eq!(resources.spool_memory_in_use(), 0);
    }
}

#[test]
fn unused_index_slots_remain_charged_and_reused() {
    let mut resources = WriterResources::default().with_max_spool_memory_bytes(capacity(4));
    let mut spool = MemorySpool::new();
    // Three payload blocks allocate four index slots.
    spool
        .write(&vec![7; BLOCK_BYTES * 3], &mut resources)
        .unwrap();
    assert_eq!(resources.spool_memory_in_use(), capacity(3));
    spool.write(b"fourth", &mut resources).unwrap();
    assert_eq!(resources.spool_memory_in_use(), capacity(4));
    // A second spool cannot use the retained capacity.
    assert!(MemorySpool::new().write(b"x", &mut resources).is_err());
    assert_eq!(resources.spool_memory_in_use(), capacity(4));
    spool.release(&mut resources);
    assert_eq!(resources.spool_memory_in_use(), 0);
}

#[test]
fn block_boundaries_overwrites_and_holes_match_cursor_contents() {
    let mut resources =
        WriterResources::default().with_max_spool_memory_bytes((BLOCK_BYTES * 8) as u64);
    let mut actual = MemorySpool::new();
    let mut expected: Vec<u8> = Vec::new();
    for (position, data) in [
        (0, b"start".as_slice()),
        (BLOCK_BYTES - 3, b"cross a block boundary".as_slice()),
        (BLOCK_BYTES * 3 + 1, b"after a zero-filled hole".as_slice()),
        (2, b"overwrite".as_slice()),
    ] {
        actual.seek(SeekFrom::Start(position as u64)).unwrap();
        actual.write(data, &mut resources).unwrap();
        let end = expected.len().max(position + data.len());
        expected.resize(end, 0);
        expected[position..position + data.len()].copy_from_slice(data);
    }
    assert_eq!(resources.spool_memory_in_use(), capacity(4));
    let tail = expected.len() - 5;
    assert_eq!(actual.seek(SeekFrom::End(-5)).unwrap(), tail as u64);
    actual.write(b"tail!", &mut resources).unwrap();
    expected[tail..].copy_from_slice(b"tail!");
    actual.seek(SeekFrom::Start(0)).unwrap();
    let mut bytes = Vec::new();
    loop {
        let chunk = actual.read(73);
        if chunk.is_empty() {
            break;
        }
        bytes.extend_from_slice(&chunk);
    }
    assert_eq!(bytes, expected);
}

#[test]
fn seek_and_empty_io_do_not_allocate_or_change_length() {
    let mut resources = WriterResources::default().with_max_spool_memory_bytes(0);
    let mut spool = MemorySpool::new();
    spool.seek(SeekFrom::Start(u64::MAX)).unwrap();
    assert_eq!(spool.write(b"", &mut resources).unwrap(), 0);
    assert_eq!(spool.read(1).len(), 0);
    assert!(spool.write(b"x", &mut resources).is_err());
    assert_eq!(resources.spool_memory_in_use(), 0);
    assert!(spool.seek(SeekFrom::Current(1)).is_err());
    assert_eq!(spool.stream_position(), u64::MAX);
    assert!(spool.seek(SeekFrom::End(-1)).is_err());
    assert_eq!(spool.seek(SeekFrom::End(0)).unwrap(), 0);
}

#[test]
fn default_storage_remains_the_unbounded_cursor() {
    let mut resources = WriterResources::default();
    let mut spool = MemorySpool::new();
    spool.write(b"payload", &mut resources).unwrap();
    spool.seek(SeekFrom::Start(0)).unwrap();
    assert_eq!(spool.read(usize::MAX), b"payload");
    assert_eq!(resources.max_spool_memory_bytes(), None);
}

#[test]
fn refused_adapter_copy_keeps_source_charged_and_never_calls_adapter() {
    let mut resources = WriterResources::default().with_max_memory_bytes(4096);
    let mut output = WriterOutput::new();
    output.write(&[42; 4096], &mut resources).unwrap();
    assert_eq!(resources.managed_memory_in_use(), 4096);
    let error = output
        .copy_with(&mut resources, |_: &[u8], _: u64| -> Vec<u8> {
            panic!("copy must be refused before allocation")
        })
        .unwrap_err();
    assert_eq!(error.kind(), ErrorKind::ResourceLimit);
    assert_eq!(output.as_bytes(), &[42; 4096]);
    assert_eq!(resources.managed_memory_in_use(), 4096);
    output.release(&mut resources);
    assert_eq!(resources.managed_memory_in_use(), 0);
}

#[test]
fn adapter_copy_charges_source_and_destination_until_handoff() {
    let mut resources = WriterResources::default().with_max_memory_bytes(8192);
    let mut output = WriterOutput::new();
    output.write(&[42; 4096], &mut resources).unwrap();
    let copied = output
        .copy_with(&mut resources, |bytes: &[u8], in_use: u64| {
            assert_eq!(in_use, 8192);
            bytes.to_vec()
        })
        .unwrap();
    assert_eq!(resources.managed_memory_in_use(), 4096);
    assert_eq!(output.into_vec(&mut resources), copied);
    assert_eq!(resources.managed_memory_in_use(), 0);
}

#[test]
fn volumes_arrive_in_order_and_whole() {
    let mut resources = WriterResources::default();
    let mut volumes = WriterVolumes::new(&mut resources).unwrap();
    volumes.start_volume(0, &mut resources).unwrap();
    volumes.write(b"first", &mut resources).unwrap();
    volumes.start_volume(1, &mut resources).unwrap();
    volumes.write(b"second", &mut resources).unwrap();
    assert!(volumes.start_volume(5, &mut resources).is_err());
    assert_eq!(volumes.volumes().len(), 2);
    assert_eq!(volumes.volumes()[1].as_bytes(), b"second");
    assert_eq!(
        volumes.into_vec(&mut resources).unwrap(),
        vec![b"first".to_vec(), b"second".to_vec()]
    );

    let mut sink = CollectedVolumes::new();
    VolumeSink::start_volume(&mut sink, 0).unwrap();
    sink.write_volume(0, b"ab").unwrap();
    sink.write_volume(0, b"c").unwrap();
    VolumeSink::finish_volume(&mut sink, 0, 3).unwrap();
    assert_eq!(sink.take(), vec![b"abc".to_vec()]);
    assert!(sink.take().is_empty());
}

#[test]
fn a_volume_set_stays_charged_until_it_is_handed_out() {
    let mut resources = WriterResources::default().with_max_memory_bytes(8192);
    let mut volumes = WriterVolumes::new(&mut resources).unwrap();
    assert_eq!(resources.managed_memory_in_use(), 0);
    volumes.start_volume(0, &mut resources).unwrap();
    let descriptors = resources.managed_memory_in_use();
    assert!(descriptors > 0);
    volumes.write(&[1; 1000], &mut resources).unwrap();
    assert_eq!(resources.managed_memory_in_use(), descriptors + 1024);
    volumes.start_volume(1, &mut resources).unwrap();
    volumes.write(&[2; 5], &mut resources).unwrap();
    assert_eq!(resources.managed_memory_in_use(), descriptors + 1024 + 8);
    // What does not fit leaves everything as it was.
    assert!(volumes.write(&[3; 8192], &mut resources).is_err());
    assert_eq!(volumes.volumes()[1].as_bytes(), [2; 5]);
    let held = descriptors + 1024 + 8;
    assert_eq!(resources.managed_memory_in_use(), held);
    // A copy counts the payloads beside what is held, and is told so.
    let lens = volumes
        .copy_with(&mut resources, |outputs: &[WriterOutput], in_use: u64| {
            assert_eq!(in_use, held + 1005);
            outputs.iter().map(WriterOutput::len).collect::<Vec<_>>()
        })
        .unwrap();
    assert_eq!(lens, [1000, 5]);
    assert_eq!(resources.managed_memory_in_use(), held);
    let handed = volumes.into_vec(&mut resources).unwrap();
    assert_eq!(handed, [vec![1; 1000], vec![2; 5]]);
    assert_eq!(resources.managed_memory_in_use(), 0);

    // Where the array that volumes go into does not fit, they are freed.
    let mut narrow = WriterResources::default().with_max_memory_bytes(descriptors + 4);
    let mut volumes = WriterVolumes::new(&mut narrow).unwrap();
    volumes.start_volume(0, &mut narrow).unwrap();
    volumes.write(&[7; 4], &mut narrow).unwrap();
    let refused = volumes.into_vec(&mut narrow).unwrap_err();
    assert_eq!(refused.kind(), ErrorKind::ResourceLimit);
    assert_eq!(narrow.managed_memory_in_use(), 0);
}

#[test]
fn preparation_growth_satisfies_both_ledgers_or_leaves_both_unchanged() {
    let mut resources = WriterResources::default()
        .with_max_preparation_bytes(64)
        .with_max_memory_bytes(1024);
    let class = CapacityClass::Preparation;
    let mut bytes = Bytes::zeroed(32, class, &mut resources).unwrap();
    assert!(bytes
        .extend_from_slice(&[1; 40], &mut resources)
        .is_err());
    assert_eq!(bytes.as_slice(), &[0; 32]);
    assert_eq!(resources.managed_memory_in_use(), 32);
    bytes.release(&mut resources);
    assert_eq!(resources.managed_memory_in_use(), 0);
    Bytes::zeroed(64, class, &mut resources)
        .unwrap()
        .release(&mut resources);
    let mut constrained = WriterResources::default()
        .with_max_preparation_bytes(64)
        .with_max_memory_bytes(16);
    assert!(Bytes::zeroed(32, class, &mut constrained).is_err());
    assert_eq!(constrained.managed_memory_in_use(), 0);
    assert_eq!(constrained.preparation_in_use(), 0);
    Bytes::zeroed(64, class, &mut resources)
        .unwrap()
        .release(&mut resources);
    assert_eq!(resources.managed_memory_in_use(), 0);
}

#[test]
fn descriptor_growth_counts_replacement_peak_and_preserves_refused_input() {
    let mut resources = WriterResources::default().with_max_preparation_bytes(23);
    let class = CapacityClass::Preparation;
    let mut records = Records::new(1, class, &mut resources).unwrap();
    records.push(7u64).unwrap();
    assert!(matches!(
        records.push_growing(9, &mut resources),
        Err(Error::WriterPreparationLimitExceeded { required: 24, .. })
    ));
    assert_eq!(records.as_slice(), &[7]);
    assert_eq!(resources.preparation_in_use(), 8);
    assert_eq!(records.into_vec(&mut resources), vec![7]);
    assert_eq!(resources.preparation_in_use(), 0);
    let mut resources = resources.with_max_preparation_bytes(24);
    let mut records = Records::new(1, class, &mut resources).unwrap();
    records.push(7u64).unwrap();
    records.push_growing(9, &mut resources).unwrap();
    assert_eq!(records.as_slice(), &[7, 9]);
    assert_eq!(resources.preparation_in_use(), 16);
    assert_eq!(records.into_vec(&mut resources), vec![7, 9]);
    assert_eq!(resources.preparation_in_use(), 0);
}

#[test]
fn byte_growth_admits_replacement_peak_and_preserves_refused_contents() {
    let mut resources = WriterResources::default().with_max_preparation_bytes(11);
    let class = CapacityClass::Preparation;
    let mut bytes = Bytes::new(class);
    bytes.extend_from_slice(b"abcd", &mut resources).unwrap();
    assert_eq!(resources.preparation_in_use(), 4);
    assert_eq!(
        bytes.extend_from_slice(b"e", &mut resources).unwrap_err(),
        Error::WriterPreparationLimitExceeded {
            limit: 11,
            required: 12,
            used: 4
        }
    );
    assert_eq!(bytes.as_slice(), b"abcd");
    assert_eq!(resources.preparation_in_use(), 4);
    bytes.release(&mut resources);
    assert_eq!(resources.preparation_in_use(), 0);
    let mut resources = resources.with_max_preparation_bytes(12);
    let mut bytes = Bytes::new(class);
    bytes.extend_from_slice(b"abcd", &mut resources).unwrap();
    bytes.extend_from_slice(b"e", &mut resources).unwrap();
    assert_eq!(bytes.capacity(), 8);
    assert_eq!(resources.preparation_in_use(), 8);
    let mut other = Bytes::new(class);
    assert!(other.extend_from_slice(b"12345", &mut resources).is_err());
    bytes.release(&mut resources);
    other.extend_from_slice(b"12345", &mut resources).unwrap();
    other.release(&mut resources);
    assert_eq!(resources.preparation_in_use(), 0);
}

#[test]
fn changed_sources_are_bounded_and_rejected() {
    for expected in [0u64, 8] {
        for actual in [0usize, 3, 8, 1024 * 1024] {
            let opens = Cell::new(0);
            let source = EntrySource::from_opener(expected, || {
                opens.set(opens.get() + 1);
                Ok(MemoryReader::new(vec![42; actual]))
            });
            let bytes = MemberBytes::Source(&source);
            let valid = actual as u64 == expected;
            assert_eq!(bytes.load().is_ok(), valid);
            let walked = bytes.walk();
            assert_eq!(walked.is_ok(), valid);
            let visited: usize = walked
                .unwrap_or_default()
                .iter()
                .map(|chunk| chunk.as_slice().len())
                .sum();
            assert!(visited as u64 <= expected);
            let mut output = Vec::new();
            assert_eq!(
                MemberPayload::Copied(&source)
                    .write_to(&mut output, expected)
                    .is_ok(),
                valid
            );
            assert!(output.len() as u64 <= expected);
            // One opening each.
            assert_eq!(opens.get(), 3);

            // However the source answers, no more is asked of it than it
            // announced and one byte to see that it ends there.
            let mut check = SourceCheck::new(expected);
            let mut read = 0;
            loop {
                let count = check.next_read(WALK_CHUNK).min(actual - read);
                if count == 0 {
                    break;
                }
                check.note(count);
                read += count;
            }
            let probe = if check.observed == expected && actual > read {
                1
            } else {
                0
            };
            assert!((read + probe) as u64 <= expected + 1);
            assert_eq!(check.finish(probe, "source changed").is_ok(), valid);
        }
    }
}

#[test]
fn an_opener_is_called_once_for_each_opening_and_answers_for_it() {
    let opens = Cell::new(0);
    let source = EntrySource::from_opener(5, || {
        opens.set(opens.get() + 1);
        match opens.get() {
            1 => Ok(MemoryReader::new(b"first".to_vec())),
            2 => Err(Error::DuplicateEntry),
            _ => Ok(MemoryReader::new(b"other!".to_vec())),
        }
    });
    assert_eq!(source.len(), Some(5));
    assert_eq!(source.is_empty(), Some(false));
    assert!(source.path().is_none());
    assert_eq!(opens.get(), 0);
    let copy = source.clone();
    assert_eq!(copy.open().unwrap().unwrap().read(64), b"first");
    assert_eq!(opens.get(), 1);
    assert_eq!(
        MemberBytes::Source(&source).load().unwrap_err(),
        Error::DuplicateEntry
    );
    assert_eq!(opens.get(), 2);
    assert_eq!(
        MemberBytes::Source(&copy).walk().unwrap_err(),
        Error::InvalidHeader("entry source size changed while reading")
    );
    let mut output = b"before ".to_vec();
    assert_eq!(
        MemberPayload::Copied(&source).write_to(&mut output, 5),
        Err(Error::InvalidHeader("entry source size changed while writing"))
    );
    assert_eq!(output, b"before other");
    assert_eq!(opens.get(), 4);
}

#[test]
fn copies_of_a_source_share_its_bytes() {
    let source = EntrySource::from_bytes(b"shared".to_vec());
    let copy = source.clone();
    let mut reader = source.open().unwrap().unwrap();
    drop(source);
    assert_eq!(copy.len(), Some(6));
    drop(copy);
    assert_eq!(reader.read(3), b"sha");
    assert_eq!(reader.read(64), b"red");
    let file = EntrySource::from_path(String::from("member.txt")).clone();
    assert_eq!(file.path().unwrap(), "member.txt");
    assert!(file.open().is_none());
    assert_eq!(file.len(), None);
}

#[test]
fn a_source_walks_in_chunks_and_loads_whole() {
    let data: Vec<u8> = (0..WALK_CHUNK * 2 + 7).map(|index| index as u8).collect();
    let source = EntrySource::from_bytes(data.clone());
    let bytes = MemberBytes::Source(&source);

    assert_eq!(bytes.len().unwrap(), data.len() as u64);
    assert_eq!(bytes.load().unwrap().as_slice(), data.as_slice());

    let mut chunks = Vec::new();
    let mut seen = Vec::new();
    for chunk in bytes.walk().unwrap() {
        chunks.push(chunk.as_slice().len());
        seen.extend_from_slice(chunk.as_slice());
    }
    assert_eq!(seen, data);
    assert!(chunks.len() > 1, "a large source should arrive in pieces");
}

#[test]
fn borrowed_bytes_are_never_copied() {
    let data = b"already in memory".to_vec();
    let bytes: MemberBytes<'_> = MemberBytes::Borrowed(&data);
    assert!(matches!(bytes.load().unwrap(), LoadedBytes::Borrowed(_)));
    assert!(bytes.source().is_none());
}

#[test]
fn runtime_limit_counts_all_sinks_and_refuses_before_writing() {
    let mut resources = WriterResources::new(0);
    let mut staged = StagedBytes::new(5);
    let mut first = Sink::new();
    let mut second = Sink::new();
    first.write_all(b"abc", &mut staged, &mut resources).unwrap();
    second.write_all(b"de", &mut staged, &mut resources).unwrap();
    let error = second
        .write_all(b"f", &mut staged, &mut resources)
        .unwrap_err();
    assert_eq!(
        error,
        Error::RewriteStagingLimitExceeded {
            limit: 5,
            required: 6
        }
    );
    assert_eq!(staged.used, 5);
    assert_eq!(second.spool.len(), 2);
}

#[test]
fn sibling_cursors_keep_independent_positions_and_range_boundaries() {
    let source = MemoryArchive {
        data: b"0123456789".to_vec(),
    };
    fn read(source: &MemoryArchive, cursor: &mut SourceCursor, wanted: usize) -> Vec<u8> {
        let (start, count) = cursor.next_read(wanted);
        let bytes = source
            .read_range(start as usize..start as usize + count)
            .unwrap();
        cursor.advance(count);
        bytes
    }
    let mut first = SourceCursor::new(source.len());
    let mut second = SourceCursor::new(source.len());
    second.seek(SeekFrom::End(-3)).unwrap();
    assert_eq!(read(&source, &mut first, 2), b"01");
    assert_eq!(read(&source, &mut second, 2), b"78");
    assert_eq!(read(&source, &mut first, 2), b"23");
    assert!(first.seek(SeekFrom::Current(-5)).is_none());
    assert_eq!(first.next_read(0).0, 4);
    let mut result = Vec::new();
    source.copy_range_to(4..6, &mut result).unwrap();
    assert_eq!(result, b"45");
    assert!(source.copy_range_to(9..11, &mut result).is_err());
    assert!(check_range(&(9..10), 10).is_ok());
    assert!(check_range(&(9..11), 10).is_err());
    assert_eq!(source.bytes(), b"0123456789");
    assert_eq!(archive_len(10).unwrap(), 10);
}
