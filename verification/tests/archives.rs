//! Whole archives and volume sets, written and taken apart again.

use rars::crc32::crc32;
use rars::error::{Error, ErrorKind};
use rars::features::FeatureSet;
use rars::filter::{FilterPolicy, FilterSpec};
use rars::rar50::archive::write_plain_archive;
use rars::rar50::assembly::{assemble_archive, SecondReading};
use rars::rar50::blocks::CompressedMember;
use rars::rar50::compress::{reread_member, settle_member, MemberSource};
use rars::rar50::dispatch::{compress_members, MemberCodec};
use rars::rar50::encryption::{encrypted_payload, seal_header, PayloadKeys};
use rars::rar50::engine::{HeaderKeys, MemberWork};
use rars::rar50::entry::{ArchiveEntry, ArchiveExtras, ServiceEntry};
use rars::rar50::ladder::{
    dictionary_size_for_options, encode_options_for_level, EncodeOptions,
};
use rars::rar50::member_progress::MemberProgress;
use rars::rar50::options::WriterOptions;
use rars::rar50::plan::{CompressPlan, ExecutionPlan};
use rars::rar50::readings::{read_again, read_member};
use rars::rar50::requests::{dictionary_reach, streaming_compress_plan};
use rars::rar50::runs::BlockJob;
use rars::rar50::share::{EncodeProgress, Turn};
use rars::rar50::sealing::{header_encryption_keys, prepare_work, seal_data, Sealer};
use rars::rar50::volume_assembly::assemble_volumes;
use rars::rar50::writer::{
    plan_archive, write_streaming_archive_to, write_streaming_archive_with_progress,
    write_streaming_volumes_to, write_streaming_volumes_with_progress, PreparedWork, Rar50Writer,
};
use rars::recovery::rar5::archive::repair_inline_recovery_archive;
use rars::streaming::cancellation::WriteCancellation;
use rars::streaming::resources::{WriterResources, DEFAULT_WRITER_MEMORY_LIMIT};
use rars::streaming::source::{EntrySource, MemoryReader};
use rars::version::ArchiveVersion;
use rars::write_progress::{Unobserved, WriteOperation, WriteProgress, WriteProgressEvent};
use std::cell::{Cell, RefCell};

const PLENTY: u64 = 1 << 40;

fn plenty() -> WriterResources {
    WriterResources::new(PLENTY)
}

/// Packs eight characters of seven bits into seven bytes.
fn seven_bits(data: &[u8]) -> Vec<u8> {
    let mut out = Vec::new();
    let mut held: u32 = 0;
    let mut bits = 0;
    for &byte in data {
        assert!(byte < 128);
        held |= u32::from(byte) << bits;
        bits += 7;
        while bits >= 8 {
            out.push(held as u8);
            held >>= 8;
            bits -= 8;
        }
    }
    if bits > 0 {
        out.push(held as u8);
    }
    out
}

fn from_seven_bits(packed: &[u8], len: usize) -> Vec<u8> {
    let mut out = Vec::new();
    let mut held: u32 = 0;
    let mut bits = 0;
    for &byte in packed {
        held |= u32::from(byte) << bits;
        bits += 8;
        while bits >= 7 && out.len() < len {
            out.push((held & 0x7f) as u8);
            held >>= 7;
            bits -= 7;
        }
    }
    out
}

/// Unpacks a member whose blocks were packed one by one.
fn unpack(packed: &[u8], len: usize, block_size: usize) -> Vec<u8> {
    let mut out = Vec::new();
    let mut at = 0;
    while out.len() < len {
        let block = block_size.min(len - out.len());
        let size = (block * 7).div_ceil(8);
        out.extend(from_seven_bits(&packed[at..at + size], block));
        at += size;
    }
    assert_eq!(at, packed.len());
    out
}

/// Packs any bytes as runs, a count and a byte each.
fn runs(data: &[u8]) -> Vec<u8> {
    let mut out: Vec<u8> = Vec::new();
    for &byte in data {
        match out.len().checked_sub(2) {
            Some(at) if out[at + 1] == byte && out[at] < u8::MAX => out[at] += 1,
            _ => out.extend([1, byte]),
        }
    }
    out
}

fn pack_blocks(job: &BlockJob) -> Result<Vec<Vec<u8>>, Error> {
    let mut start = 0;
    let mut packed = Vec::new();
    for mark in &job.blocks {
        let block = &job.data[start..mark.end];
        packed.push(if block.is_ascii() {
            seven_bits(block)
        } else {
            runs(block)
        });
        start = mark.end;
    }
    Ok(packed)
}

fn source(data: &[u8]) -> MemberSource {
    MemberSource {
        input_size: data.len() as u64,
        data: data.to_vec(),
        hash: toy_hash(data),
    }
}

fn toy_hash(data: &[u8]) -> [u8; 32] {
    let mut hash = [0; 32];
    for (at, byte) in data.iter().enumerate() {
        hash[at % 32] ^= byte.wrapping_add(at as u8);
    }
    hash
}

fn entry(name: &[u8], data: &[u8]) -> ArchiveEntry {
    ArchiveEntry::new(name.to_vec(), EntrySource::from_bytes(data.to_vec()))
        .with_attributes(0x20)
        .with_host_os(1)
}

fn plan_for(options: WriterOptions, sizes: &[Option<u64>], memory_limit: u64) -> CompressPlan {
    let reach = dictionary_reach(sizes, options.features.solid);
    streaming_compress_plan(options, FilterPolicy::Off, reach, memory_limit).unwrap()
}

fn packed_members(
    plan: &CompressPlan,
    datas: &[Vec<u8>],
    memory_limit: u64,
) -> Result<Vec<CompressedMember>, Error> {
    let sources: Vec<MemberSource> = datas.iter().map(|data| source(data)).collect();
    let codec = MemberCodec {
        extends: |_: &[u8], _: &[u8]| false,
        pack: pack_blocks,
        applies: |_: &[u8], _: usize| None,
        search: |_: &[u8], _: EncodeOptions, _: usize| panic!("nothing to search"),
        encode: |data: &[u8], _: Vec<FilterSpec>, _: EncodeOptions, _: usize| {
            Ok(Turn::Done(seven_bits(data)))
        },
    };
    let entries: Vec<ArchiveEntry> = datas.iter().map(|data| entry(b"member", data)).collect();
    let mut watch = MemberProgress::new(&entries, &sources, None::<&Unobserved>);
    let members = compress_members(&sources, plan, memory_limit, 1, &codec, &mut watch)?;
    Ok(members
        .into_iter()
        .enumerate()
        .map(|(index, member)| reread_member(member, datas[index].clone(), sources[index].hash))
        .collect())
}

fn clear_works(members: Vec<CompressedMember>) -> PreparedWork {
    PreparedWork {
        works: members
            .into_iter()
            .map(|member| MemberWork {
                member,
                sealed: None,
                services: Vec::new(),
            })
            .collect(),
        comment_seal: None,
        keys: None,
    }
}

fn in_the_clear(image: Vec<u8>) -> Result<Vec<u8>, Error> {
    Ok(image)
}

/// Writes members packed by the stand-in codec.
fn write_packed(
    options: WriterOptions,
    entries: &[ArchiveEntry],
    datas: &[Vec<u8>],
    extras: ArchiveExtras<'_>,
    memory_limit: u64,
) -> Result<Vec<u8>, Error> {
    let sizes: Vec<Option<u64>> = datas.iter().map(|data| Some(data.len() as u64)).collect();
    let plan = plan_for(options, &sizes, memory_limit);
    let members = packed_members(&plan, datas, memory_limit)?;
    write_streaming_archive_to(
        entries,
        &sizes,
        options,
        extras,
        clear_works(members),
        &mut WriterResources::new(memory_limit),
        &in_the_clear,
    )
}

struct Cursor<'a> {
    bytes: &'a [u8],
    at: usize,
}

impl<'a> Cursor<'a> {
    fn take(&mut self, count: usize) -> &'a [u8] {
        let taken = &self.bytes[self.at..self.at + count];
        self.at += count;
        taken
    }

    fn vint(&mut self) -> u64 {
        let mut value = 0;
        let mut shift = 0;
        loop {
            let byte = self.take(1)[0];
            value |= u64::from(byte & 0x7f) << shift;
            shift += 7;
            if byte < 0x80 {
                return value;
            }
        }
    }
}

struct Block {
    position: usize,
    kind: u64,
    flags: u64,
    specific: Vec<u8>,
    extra: Vec<u8>,
    data: Vec<u8>,
}

impl Block {
    fn records(&self) -> Vec<(u64, Vec<u8>)> {
        let mut cursor = Cursor {
            bytes: &self.extra,
            at: 0,
        };
        let mut records = Vec::new();
        while cursor.at < self.extra.len() {
            let size = cursor.vint() as usize;
            let start = cursor.at;
            let kind = cursor.vint();
            let left = size - (cursor.at - start);
            records.push((kind, cursor.take(left).to_vec()));
        }
        records
    }

    fn file(&self) -> File {
        let mut cursor = Cursor {
            bytes: &self.specific,
            at: 0,
        };
        let flags = cursor.vint();
        let unpacked_size = cursor.vint();
        let attributes = cursor.vint();
        if flags & 2 != 0 {
            cursor.take(4);
        }
        let crc = if flags & 4 != 0 {
            Some(u32::from_le_bytes(cursor.take(4).try_into().unwrap()))
        } else {
            None
        };
        let info = cursor.vint();
        let host_os = cursor.vint();
        let len = cursor.vint() as usize;
        File {
            unpacked_size,
            attributes,
            crc,
            info,
            host_os,
            name: cursor.take(len).to_vec(),
        }
    }
}

struct File {
    unpacked_size: u64,
    attributes: u64,
    crc: Option<u32>,
    info: u64,
    host_os: u64,
    name: Vec<u8>,
}

impl File {
    fn algorithm_version(&self) -> u64 {
        self.info & 0x3f
    }

    fn method(&self) -> u64 {
        (self.info >> 7) & 7
    }

    fn dictionary_size(&self) -> u64 {
        let base = 128 * 1024u64 << ((self.info >> 10) & 0x1f);
        if self.algorithm_version() == 0 {
            base
        } else {
            base + base / 32 * ((self.info >> 15) & 0x1f)
        }
    }
}

/// Reads the blocks behind the signature, checking every checksum.
fn blocks_of(archive: &[u8]) -> Vec<Block> {
    assert_eq!(&archive[..8], b"Rar!\x1a\x07\x01\x00");
    let mut cursor = Cursor {
        bytes: archive,
        at: 8,
    };
    let mut blocks = Vec::new();
    while cursor.at < archive.len() {
        let position = cursor.at;
        let crc = u32::from_le_bytes(cursor.take(4).try_into().unwrap());
        let checked = cursor.at;
        let size = cursor.vint() as usize;
        let start = cursor.at;
        assert_eq!(crc32(&archive[checked..start + size]), crc);
        let kind = cursor.vint();
        let flags = cursor.vint();
        let extra_len = if flags & 1 != 0 {
            cursor.vint() as usize
        } else {
            0
        };
        let data_len = if flags & 2 != 0 {
            cursor.vint() as usize
        } else {
            0
        };
        let specific_len = start + size - extra_len - cursor.at;
        let specific = cursor.take(specific_len).to_vec();
        let extra = cursor.take(extra_len).to_vec();
        let data = cursor.take(data_len).to_vec();
        blocks.push(Block {
            position,
            kind,
            flags,
            specific,
            extra,
            data,
        });
    }
    blocks
}

fn kinds(blocks: &[Block]) -> Vec<u64> {
    blocks.iter().map(|block| block.kind).collect()
}

#[test]
fn streaming_writer_round_trips_across_input_blocks() {
    let data = b"bounded streaming member data\n".repeat(80_000);
    let options = WriterOptions::new(ArchiveVersion::Rar50, FeatureSet::store_only());
    let entries = [entry(b"large.txt", &data).with_mtime(None)];
    let bytes = write_packed(
        options,
        &entries,
        &[data.clone()],
        ArchiveExtras::default(),
        PLENTY,
    )
    .unwrap();
    let blocks = blocks_of(&bytes);
    assert_eq!(kinds(&blocks), [1, 2, 5]);
    let file = blocks[1].file();
    assert_eq!(file.name, b"large.txt");
    assert_eq!(file.attributes, 0x20);
    assert_eq!(file.host_os, 1);
    assert_eq!(file.crc, Some(crc32(&data)));
    assert_ne!(file.method(), 0);
    let plan = plan_for(options, &[Some(data.len() as u64)], PLENTY);
    assert_eq!(
        unpack(
            &blocks[1].data,
            file.unpacked_size as usize,
            plan.block_size
        ),
        data
    );
}

#[test]
fn streaming_writer_rejects_workspace_larger_than_budget() {
    let options = WriterOptions::new(ArchiveVersion::Rar50, FeatureSet::store_only());
    let entries = [entry(b"small.txt", b"small").with_mtime(None)];
    let result = write_packed(
        options,
        &entries,
        &[b"small".to_vec()],
        ArchiveExtras::default(),
        1024,
    );
    assert!(matches!(result, Err(Error::MemoryLimitExceeded { .. })));
}

#[test]
fn streaming_entry_order_is_identical_at_one_and_many_job_budgets() {
    let datas: Vec<Vec<u8>> = (0..4u8)
        .map(|index| {
            let mut data = vec![index; 1_300_000];
            data.extend((0..300_000).map(|offset| (offset as u8).wrapping_add(index)));
            data
        })
        .collect();
    let entries: Vec<ArchiveEntry> = datas
        .iter()
        .enumerate()
        .map(|(index, data)| {
            entry(format!("entry-{index}.bin").as_bytes(), data).with_mtime(None)
        })
        .collect();
    let options = WriterOptions::new(ArchiveVersion::Rar50, FeatureSet::store_only());
    let sizes: Vec<Option<u64>> = datas.iter().map(|data| Some(data.len() as u64)).collect();
    let dictionary_size =
        dictionary_size_for_options(options, dictionary_reach(&sizes, false), u64::MAX).unwrap();
    assert!(
        encode_options_for_level(options.compression_level, dictionary_size)
            .unwrap()
            .optimal_parse
    );
    // Exactly what the writer charges itself, so the budget admits one job and
    // no more.
    let plan = plan_for(options, &sizes, u64::MAX);
    let lens: Vec<u64> = datas.iter().map(|data| data.len() as u64).collect();
    let required = match ExecutionPlan::new(&plan, &lens, u64::MAX) {
        ExecutionPlan::Blocks { workspace } => workspace,
        _ => panic!("block by block"),
    };
    let one_job = write_packed(
        options,
        &entries,
        &datas,
        ArchiveExtras::default(),
        required,
    )
    .unwrap();
    let many_jobs = write_packed(
        options,
        &entries,
        &datas,
        ArchiveExtras::default(),
        required.saturating_mul(4),
    )
    .unwrap();
    assert_eq!(many_jobs, one_job);
    let names: Vec<Vec<u8>> = blocks_of(&one_job)
        .iter()
        .filter(|block| block.kind == 2)
        .map(|block| block.file().name)
        .collect();
    assert_eq!(
        names,
        [
            b"entry-0.bin",
            b"entry-1.bin",
            b"entry-2.bin",
            b"entry-3.bin"
        ]
    );
}

#[test]
fn a_reading_goes_one_byte_beyond_what_was_announced() {
    let read = |announced: u64, actual: usize| {
        let source =
            EntrySource::from_opener(announced, || Ok(MemoryReader::new(vec![42; actual])));
        let member = read_member(&source, &toy_hash).unwrap();
        assert_eq!(member.input_size, announced);
        assert_eq!(member.hash, toy_hash(&member.data));
        assert_eq!(member.check_source_end().is_ok(), announced == actual as u64);
        member.data.len()
    };
    assert_eq!(read(8, 8), 8);
    assert_eq!(read(8, 3), 3);
    assert_eq!(read(8, 1024), 9);
    assert_eq!(read(0, 0), 0);
    let failing = EntrySource::from_opener(1, || Err(Error::EntryNotFound));
    assert_eq!(read_member(&failing, &toy_hash).unwrap_err(), Error::EntryNotFound);
    assert!(matches!(
        read_again(&failing, &toy_hash),
        Err(Error::EntryNotFound)
    ));
}

#[test]
fn streaming_writer_rejects_a_source_that_grows_between_passes() {
    let options = WriterOptions::new(ArchiveVersion::Rar50, FeatureSet::store_only());
    let opens = Cell::new(0);
    let source = EntrySource::from_opener(4, || {
        opens.set(opens.get() + 1);
        let data: &[u8] = if opens.get() == 1 { b"data" } else { b"data!" };
        Ok(MemoryReader::new(data.to_vec()))
    });
    let sizes = [source.len()];
    let entry = ArchiveEntry::new(b"changing.bin".to_vec(), EntrySource::from_bytes(Vec::new()))
        .with_attributes(0x20)
        .with_host_os(1);
    let plan = plan_for(options, &sizes, DEFAULT_WRITER_MEMORY_LIMIT);
    let first = read_member(&source, &toy_hash).unwrap();
    let mut members =
        packed_members(&plan, &[first.data], DEFAULT_WRITER_MEMORY_LIMIT).unwrap();
    let second = read_again(&source, &toy_hash).unwrap();
    assert_eq!(opens.get(), 2);
    let member = reread_member(members.remove(0), second.bytes, second.hash);
    let result = write_streaming_archive_to(
        &[entry],
        &sizes,
        options,
        ArchiveExtras::default(),
        clear_works(vec![member]),
        &mut WriterResources::default(),
        &in_the_clear,
    );
    assert!(matches!(
        result,
        Err(Error::InvalidHeader(
            "entry source size changed while compressing"
        ))
    ));
}

/// Stands in for a block cipher under a key: its own inverse.
fn toy_cipher(key: &[u8], iv: [u8; 16], plain: Vec<u8>) -> Result<Vec<u8>, Error> {
    Ok(plain
        .iter()
        .enumerate()
        .map(|(at, byte)| byte ^ iv[at % 16] ^ key[at % key.len()])
        .collect())
}

fn keyed_cipher(
    password: &[u8],
    _salt: [u8; 16],
    iv: [u8; 16],
    plain: Vec<u8>,
) -> Result<Vec<u8>, Error> {
    toy_cipher(password, iv, plain)
}

fn toy_keys(
    password: &[u8],
    _salt: [u8; 16],
    checksum: u32,
    hash: [u8; 32],
) -> Result<PayloadKeys, Error> {
    Ok(PayloadKeys {
        check_value: [password[0]; 12],
        crc32_mac: checksum ^ u32::from(password[0]),
        blake2sp_mac: hash,
    })
}

#[test]
fn an_archive_is_assembled_from_what_its_members_hold() {
    let text = b"assembled from its members ".repeat(300);
    let features = FeatureSet {
        header_encryption: true,
        ..FeatureSet::store_only()
    };
    let options = WriterOptions::new(ArchiveVersion::Rar50, features);
    let password = b"secret";
    let entries = [
        entry(b"packed.txt", &text)
            .with_password(password.to_vec())
            .with_service(ServiceEntry {
                name: b"CMT".to_vec(),
                data: b"about it".to_vec(),
                password: Some(password.to_vec()),
            }),
        entry(b"stored.bin", &[1, 2, 3]).with_password(password.to_vec()),
    ];
    let sources = [source(&text), source(&[1, 2, 3])];
    let readings = |last: u8| {
        vec![
            SecondReading {
                bytes: text.clone(),
                hash: toy_hash(&text),
            },
            SecondReading {
                bytes: vec![1, 2, last],
                hash: toy_hash(&[1, 2, last]),
            },
        ]
    };
    let codec = MemberCodec {
        extends: |_: &[u8], _: &[u8]| false,
        pack: pack_blocks,
        applies: |_: &[u8], _: usize| None,
        search: |_: &[u8], _: EncodeOptions, _: usize| panic!("nothing to search"),
        encode: |data: &[u8], _: Vec<FilterSpec>, _: EncodeOptions, _: usize| {
            Ok(Turn::Done(seven_bits(data)))
        },
    };
    let sealer = Sealer {
        hash: toy_hash,
        derive: toy_keys,
        cipher: keyed_cipher,
    };
    let keys = header_encryption_keys(password, &|key: &[u8], _: [u8; 16]| {
        Ok([key.len() as u8; 12])
    })
    .unwrap();
    assert_eq!(keys.check_value, [6; 12]);
    // Headers stay in the clear as far as the test is concerned, at the length
    // that encrypted ones have.
    let seal = |image: Vec<u8>| {
        let mut out = image.clone();
        out.resize(16 + image.len().div_ceil(16) * 16, 0);
        Ok(out)
    };
    let assemble = |last: u8, keys: Option<HeaderKeys>| {
        assemble_archive(
            &entries,
            &sources,
            readings(last),
            options,
            ArchiveExtras::default(),
            keys,
            2,
            &codec,
            &sealer,
            &seal,
            &mut plenty(),
            None::<&Unobserved>,
        )
    };
    let archive = assemble(3, Some(keys)).unwrap();
    let packed = seven_bits(&text);
    let holds = |bytes: &[u8]| archive.windows(bytes.len()).any(|window| window == bytes);
    assert!(holds(b"packed.txt") && holds(b"stored.bin"));
    assert!(!holds(&packed[..32]));
    assert!(!holds(b"about it"));
    // The keyed checksum of the first member is in its header.
    let mac = crc32(&text) ^ u32::from(b's');
    assert!(holds(&mac.to_le_bytes()));

    // A stored member that has changed since it was read is not written.
    assert_eq!(
        assemble(4, Some(keys)),
        Err(Error::SourceChanged(
            "entry source contents changed while writing"
        ))
    );
}

#[test]
fn work_is_prepared_where_passwords_ask_for_it() {
    let sealer = Sealer {
        hash: toy_hash,
        derive: toy_keys,
        cipher: keyed_cipher,
    };
    let plain = entry(b"plain", b"1");
    let locked = entry(b"locked", b"2").with_password(b"key".to_vec());
    let work = prepare_work(
        &[plain, locked],
        vec![stored_member(b"1"), stored_member(b"2")],
        &ArchiveExtras::default().with_encrypted_comment(b"comment", b"other"),
        None,
        &sealer,
    )
    .unwrap();
    assert!(work.works[0].sealed.is_none());
    let sealed = work.works[1].sealed.as_ref().unwrap();
    assert_eq!(sealed.data.len(), 16);
    let opened = toy_cipher(b"key", sealed.iv, sealed.data.clone()).unwrap();
    assert_eq!(&opened[..2], b"2\0");
    assert_eq!(sealed.blake2sp_mac, toy_hash(b"2"));
    let comment = work.comment_seal.unwrap();
    assert_eq!(comment.check_value, [b'o'; 12]);
    assert_eq!(comment.crc32_mac, crc32(b"comment") ^ u32::from(b'o'));

    let failing = Sealer {
        hash: toy_hash,
        derive: |_: &[u8], _: [u8; 16], _: u32, _: [u8; 32]| Err(Error::NeedPassword),
        cipher: keyed_cipher,
    };
    let nothing_locked = prepare_work(
        &[entry(b"plain", b"1")],
        vec![stored_member(b"1")],
        &ArchiveExtras::default(),
        None,
        &failing,
    );
    assert!(nothing_locked.is_ok());
    assert_eq!(
        seal_data(b"data", b"key", &failing).unwrap_err(),
        Error::NeedPassword
    );
}

#[test]
fn encrypted_streaming_writer_round_trips_across_input_blocks() {
    let data = b"encrypted bounded streaming member data\n".repeat(40_000);
    let password = b"password";
    let options = WriterOptions::new(ArchiveVersion::Rar50, FeatureSet::store_only());
    let entries = [entry(b"secret.txt", &data)
        .with_mtime(None)
        .with_password(password.to_vec())];
    let sizes = [Some(data.len() as u64)];
    let plan = plan_for(options, &sizes, PLENTY);
    let mut members = packed_members(&plan, &[data.clone()], PLENTY).unwrap();
    let member = members.pop().unwrap();
    let packed_len = member.packed.len();
    let sealed = encrypted_payload(
        &member.packed,
        member.crc32,
        member.hash,
        password,
        &|_: &[u8], _: [u8; 16], _: u32, _: [u8; 32]| {
            Ok(PayloadKeys {
                check_value: [1; 12],
                crc32_mac: 0x1234_5678,
                blake2sp_mac: [2; 32],
            })
        },
        &keyed_cipher,
    )
    .unwrap();
    let bytes = write_streaming_archive_to(
        &entries,
        &sizes,
        options,
        ArchiveExtras::default(),
        PreparedWork {
            works: vec![MemberWork {
                member,
                sealed: Some(sealed),
                services: Vec::new(),
            }],
            comment_seal: None,
            keys: None,
        },
        &mut plenty(),
        &in_the_clear,
    )
    .unwrap();
    let blocks = blocks_of(&bytes);
    assert_eq!(kinds(&blocks), [1, 2, 5]);
    let file = blocks[1].file();
    assert_eq!(file.name, b"secret.txt");
    assert_eq!(file.crc, Some(0x1234_5678));
    let records = blocks[1].records();
    let crypt = &records.iter().find(|record| record.0 == 1).unwrap().1;
    // Version, flags and rounds, then salt, IV and check value.
    let iv: [u8; 16] = crypt[19..35].try_into().unwrap();
    assert_eq!(&crypt[35..47], &[1; 12]);
    let plain = toy_cipher(password, iv, blocks[1].data.clone()).unwrap();
    assert_eq!(
        unpack(&plain[..packed_len], data.len(), plan.block_size),
        data
    );
}

#[test]
fn writer_stamps_requested_rar50_dictionary_size() {
    let data = b"RAR5 dictionary-size writer option fixture".repeat(64);
    let options = WriterOptions::new(ArchiveVersion::Rar50, FeatureSet::store_only())
        .with_dictionary_size(512 * 1024);
    let entries = [entry(b"dict.bin", &data).with_host_os(3)];
    let archive = write_packed(
        options,
        &entries,
        &[data.clone()],
        ArchiveExtras::default(),
        PLENTY,
    )
    .unwrap();
    let blocks = blocks_of(&archive);
    let file = blocks[1].file();
    assert_eq!(file.algorithm_version(), 0);
    assert_eq!(file.dictionary_size(), 512 * 1024);
    assert_eq!(unpack(&blocks[1].data, data.len(), usize::MAX), data);
}

#[test]
fn writer_uses_rar7_dictionary_fields_when_size_needs_v1_encoding() {
    let data = b"RAR7 dictionary-size writer option fixture".repeat(64);
    let options = WriterOptions::new(ArchiveVersion::Rar70, FeatureSet::store_only())
        .with_dictionary_size(192 * 1024);
    let entries = [entry(b"dict7.bin", &data).with_host_os(3)];
    let archive = write_packed(
        options,
        &entries,
        &[data.clone()],
        ArchiveExtras::default(),
        PLENTY,
    )
    .unwrap();
    let blocks = blocks_of(&archive);
    let file = blocks[1].file();
    assert_eq!(file.algorithm_version(), 1);
    assert_eq!(file.dictionary_size(), 192 * 1024);
    assert_eq!(unpack(&blocks[1].data, data.len(), usize::MAX), data);
}

#[test]
fn writer_rejects_unencodable_rar50_dictionary_size() {
    let options = WriterOptions::new(ArchiveVersion::Rar50, FeatureSet::store_only())
        .with_dictionary_size(192 * 1024);
    let data = b"data data data data";
    let member = settle_member(
        &source(data),
        &plan_for(WriterOptions::default(), &[Some(19)], PLENTY),
        0,
        vec![1],
    );
    let refused = Rar50Writer::new(options)
        .entry(entry(b"bad.bin", data).with_host_os(3))
        .finish(&[Some(19)], clear_works(vec![member]), &mut plenty(), &in_the_clear);
    assert!(matches!(
        refused,
        Err(Error::InvalidHeader(
            "RAR 5 v0 dictionary size must be a power-of-two multiple of 128 KiB"
        ))
    ));
}

fn stored_options() -> WriterOptions {
    WriterOptions::new(ArchiveVersion::Rar50, FeatureSet::store_only()).with_compression_level(0)
}

fn stored_member(data: &[u8]) -> CompressedMember {
    let plan = plan_for(stored_options(), &[Some(data.len() as u64)], PLENTY);
    let member = settle_member(&source(data), &plan, 0, Vec::new());
    reread_member(member, data.to_vec(), toy_hash(data))
}

#[test]
fn an_archive_with_everything_is_found_its_way_through() {
    let data = b"quick open and recovery".repeat(500);
    let options = WriterOptions {
        features: FeatureSet {
            quick_open: true,
            ..FeatureSet::store_only()
        },
        ..stored_options()
    };
    let archive = Rar50Writer::new(options)
        .entries(vec![
            entry(b"first", &data),
            entry(b"second", b"two").with_service(ServiceEntry::new(
                b"CMT".to_vec(),
                b"about the second".to_vec(),
            )),
        ])
        .archive_comment(Some(b"about the archive"))
        .recovery_percent(Some(10))
        .finish(
            &[Some(data.len() as u64), Some(3)],
            PreparedWork {
                works: vec![
                    MemberWork {
                        member: stored_member(&data),
                        sealed: None,
                        services: Vec::new(),
                    },
                    MemberWork {
                        member: stored_member(b"two"),
                        sealed: None,
                        services: vec![None],
                    },
                ],
                comment_seal: None,
                keys: None,
            },
            &mut plenty(),
            &in_the_clear,
        )
        .unwrap();
    let blocks = blocks_of(&archive);
    assert_eq!(kinds(&blocks), [1, 3, 2, 2, 3, 3, 3, 5]);
    assert_eq!(blocks[1].file().name, b"CMT");
    assert_eq!(blocks[1].data, b"about the archive");
    assert_eq!(blocks[2].data, data);
    assert_eq!(blocks[4].data, b"about the second");
    assert_eq!(blocks[5].file().name, b"QO");
    assert_eq!(blocks[6].file().name, b"RR");

    // The locator leads to the quick-open and recovery blocks.
    let records = blocks[0].records();
    let locator = &records.iter().find(|record| record.0 == 1).unwrap().1;
    let mut cursor = Cursor {
        bytes: locator,
        at: 0,
    };
    assert_eq!(cursor.vint(), 3);
    assert_eq!(cursor.vint() as usize + 8, blocks[5].position);
    assert_eq!(cursor.vint() as usize + 8, blocks[6].position);

    // The quick-open entries repeat headers, and lead back to them.
    let mut cursor = Cursor {
        bytes: &blocks[5].data,
        at: 0,
    };
    let mut found = 0;
    while cursor.at < blocks[5].data.len() {
        let crc = u32::from_le_bytes(cursor.take(4).try_into().unwrap());
        let start = cursor.at;
        let size = cursor.vint() as usize;
        let body = cursor.at;
        assert_eq!(crc32(&blocks[5].data[start..body + size]), crc);
        assert_eq!(cursor.vint(), 0);
        let distance = cursor.vint() as usize;
        let len = cursor.vint() as usize;
        let header = cursor.take(len);
        let position = blocks[5].position - distance;
        assert_eq!(&archive[position..position + len], header);
        found += 1;
    }
    assert_eq!(found, 3);

    // The recovery record repairs what comes before it.
    let mut damaged = archive.clone();
    damaged[100..120].fill(0xee);
    assert_eq!(repair_inline_recovery_archive(&damaged).unwrap(), archive);
}

#[test]
fn headers_that_wait_count_against_their_quota() {
    let write = |limit: u64| {
        let mut resources = plenty().with_max_prepared_header_bytes(limit);
        let r = write_streaming_archive_to(
            &[entry(b"one", b"1"), entry(b"two", b"2")],
            &[Some(1), Some(1)],
            stored_options(),
            ArchiveExtras::default(),
            clear_works(vec![stored_member(b"1"), stored_member(b"2")]),
            &mut resources,
            &in_the_clear,
        );
        assert_eq!(resources.prepared_headers_in_use(), 0);
        r
    };
    let archive = write(1 << 20).unwrap();
    let blocks = blocks_of(&archive);
    let held = (blocks[2].position - blocks[1].position - 1) as u64;
    assert_eq!(write(2 * held).unwrap(), archive);
    assert_eq!(
        write(2 * held - 1),
        Err(Error::WriterPreparedHeaderLimitExceeded {
            limit: 2 * held - 1,
            required: 2 * held,
            used: held
        })
    );
}

#[test]
fn encrypted_headers_hide_everything_but_their_own_header() {
    let options = WriterOptions {
        features: FeatureSet {
            header_encryption: true,
            ..FeatureSet::store_only()
        },
        ..stored_options()
    };
    let password = b"secret";
    let seal = |image: Vec<u8>| {
        seal_header(&image, &|iv: [u8; 16], plain: Vec<u8>| {
            toy_cipher(password, iv, plain)
        })
    };
    let member = stored_member(b"hidden");
    let sealed = encrypted_payload(
        &member.packed,
        member.crc32,
        member.hash,
        password,
        &toy_keys,
        &keyed_cipher,
    )
    .unwrap();
    let archive = Rar50Writer::new(options)
        .entry(entry(b"name", b"hidden").with_password(password.to_vec()))
        .finish(
            &[Some(6)],
            PreparedWork {
                works: vec![MemberWork {
                    member,
                    sealed: Some(sealed),
                    services: Vec::new(),
                }],
                comment_seal: None,
                keys: Some(HeaderKeys {
                    salt: [4; 16],
                    check_value: [5; 12],
                }),
            },
            &mut plenty(),
            &seal,
        )
        .unwrap();
    // The encryption header stands in the clear, the main header behind it not.
    let mut cursor = Cursor {
        bytes: &archive,
        at: 12,
    };
    let size = cursor.vint() as usize;
    let end = cursor.at + size;
    assert_eq!(cursor.vint(), 4);
    let iv: [u8; 16] = archive[end..end + 16].try_into().unwrap();
    let first = toy_cipher(password, iv, archive[end + 16..end + 32].to_vec()).unwrap();
    let mut main = Cursor {
        bytes: &first,
        at: 4,
    };
    main.vint();
    assert_eq!(main.vint(), 1);
    assert!(!archive.windows(4).any(|window| window == b"name"));
}

#[test]
fn a_set_of_volumes_holds_the_member_in_fragments() {
    let data = b"0123456789";
    let volumes = write_streaming_volumes_to(
        &[entry(b"split.bin", data)],
        &[Some(10)],
        stored_options(),
        ArchiveExtras::default(),
        4,
        clear_works(vec![stored_member(data)]),
        &vec![vec![[1; 32], [2; 32]]],
        &mut plenty(),
        &in_the_clear,
    )
    .unwrap();
    assert_eq!(volumes.len(), 3);
    let mut joined = Vec::new();
    for (index, volume) in volumes.iter().enumerate() {
        let blocks = blocks_of(volume);
        assert_eq!(kinds(&blocks), [1, 2, 5]);
        let file = &blocks[1];
        assert_eq!(file.flags & 8 != 0, index > 0, "split before");
        assert_eq!(file.flags & 16 != 0, index < 2, "split after");
        assert_eq!(file.file().unpacked_size, 10);
        joined.extend_from_slice(&file.data);
    }
    assert_eq!(joined, data);

    let refused = write_streaming_volumes_to(
        &[entry(b"split.bin", data)],
        &[Some(10)],
        stored_options(),
        ArchiveExtras::default(),
        0,
        clear_works(vec![stored_member(data)]),
        &vec![Vec::new()],
        &mut plenty(),
        &in_the_clear,
    );
    assert_eq!(
        refused,
        Err(Error::InvalidArgument("RAR 5 volume payload size is zero"))
    );
}

#[test]
fn a_set_has_as_many_volumes_as_its_payload_takes() {
    let count = |datas: &[&[u8]]| {
        let entries: Vec<ArchiveEntry> = datas.iter().map(|data| entry(b"part", data)).collect();
        let sizes: Vec<Option<u64>> = datas.iter().map(|data| Some(data.len() as u64)).collect();
        write_streaming_volumes_to(
            &entries,
            &sizes,
            stored_options(),
            ArchiveExtras::default(),
            4,
            clear_works(datas.iter().map(|data| stored_member(data)).collect()),
            &datas.iter().map(|_| vec![[0; 32]; 8]).collect(),
            &mut plenty(),
            &in_the_clear,
        )
        .unwrap()
        .len()
    };
    assert_eq!(count(&[b""]), 1);
    assert_eq!(count(&[b"1234"]), 1);
    assert_eq!(count(&[b"12345"]), 2);
    assert_eq!(count(&[b"123", b"4567", b"8"]), 2);
    assert_eq!(count(&[b"123", b"4567", b"89"]), 3);
    assert_eq!(count(&[b"12", b"", b"34"]), 1);
    // An empty member does not fit behind a full volume.
    assert_eq!(count(&[b"1234", b""]), 2);
}

#[test]
fn archive_and_volume_emission_keep_the_ledger_reusable() {
    let data = vec![7u8; 16384];
    let codec = MemberCodec {
        extends: |_: &[u8], _: &[u8]| false,
        pack: pack_blocks,
        applies: |_: &[u8], _: usize| None,
        search: |_: &[u8], _: EncodeOptions, _: usize| panic!("nothing to search"),
        encode: |data: &[u8], _: Vec<FilterSpec>, _: EncodeOptions, _: usize| {
            Ok(Turn::Done(seven_bits(data)))
        },
    };
    let sealer = Sealer {
        hash: toy_hash,
        derive: toy_keys,
        cipher: keyed_cipher,
    };
    let seal = |image: Vec<u8>| {
        let mut out = image.clone();
        out.resize(16 + image.len().div_ceil(16) * 16, 0);
        Ok(out)
    };
    for encrypted in [false, true] {
        let mut options = stored_options();
        options.features.header_encryption = encrypted;
        let mut member = entry(b"payload", &data);
        let mut extras = ArchiveExtras::default();
        if encrypted {
            member = member.with_password(b"secret".to_vec());
        }
        extras.recovery_percent = Some(10);
        let commented = if encrypted {
            extras.with_encrypted_comment(b"comment", b"secret")
        } else {
            extras.with_comment(b"comment")
        };
        let entries = [member];
        let keys = || {
            encrypted.then(|| {
                header_encryption_keys(b"secret", &|key: &[u8], _: [u8; 16]| {
                    Ok([key.len() as u8; 12])
                })
                .unwrap()
            })
        };
        let readings = || {
            vec![SecondReading {
                bytes: data.clone(),
                hash: toy_hash(&data),
            }]
        };
        let archive = |resources: &mut WriterResources| {
            assemble_archive(
                &entries,
                &[source(&data)],
                readings(),
                options,
                commented,
                keys(),
                1,
                &codec,
                &sealer,
                &|image: Vec<u8>| if encrypted { seal(image) } else { Ok(image) },
                resources,
                None::<&Unobserved>,
            )
        };
        let volumes = |resources: &mut WriterResources| {
            assemble_volumes(
                &entries,
                &[source(&data)],
                readings(),
                options,
                extras,
                4096,
                keys(),
                1,
                &codec,
                &sealer,
                &|image: Vec<u8>| if encrypted { seal(image) } else { Ok(image) },
                resources,
                None::<&Unobserved>,
            )
        };
        let mut resources = plenty().with_max_memory_bytes(8 * 1024 * 1024);
        let expected = archive(&mut plenty()).unwrap();
        let actual = archive(&mut resources).unwrap();
        if encrypted {
            assert_eq!(actual.len(), expected.len());
        } else {
            assert_eq!(actual, expected);
        }
        assert_eq!(resources.managed_memory_in_use(), 0);

        let expected = volumes(&mut plenty()).unwrap();
        let mut constrained = plenty().with_max_memory_bytes(32768);
        assert_eq!(
            volumes(&mut constrained).unwrap_err().kind(),
            ErrorKind::ResourceLimit
        );
        assert_eq!(constrained.managed_memory_in_use(), 0);
        let actual = volumes(&mut resources).unwrap();
        assert_eq!(actual.len(), 4);
        if encrypted {
            assert_eq!(
                actual.iter().map(Vec::len).collect::<Vec<_>>(),
                expected.iter().map(Vec::len).collect::<Vec<_>>()
            );
        } else {
            assert_eq!(actual, expected);
        }
        assert_eq!(resources.managed_memory_in_use(), 0);
        assert_eq!(resources.workspace_in_use(), 0);
    }
}

#[test]
fn a_set_keeps_to_the_memory_ceiling_and_gives_back_what_it_held() {
    let data = vec![7; 16384];
    let write = |resources: &mut WriterResources| {
        write_streaming_volumes_to(
            &[entry(b"split.bin", &data)],
            &[Some(16384)],
            stored_options(),
            ArchiveExtras::default(),
            4096,
            clear_works(vec![stored_member(&data)]),
            &vec![vec![[1; 32], [2; 32], [3; 32]]],
            resources,
            &in_the_clear,
        )
    };
    let mut tight = plenty().with_max_memory_bytes(32768);
    let refused = write(&mut tight).unwrap_err();
    assert_eq!(refused.kind(), ErrorKind::ResourceLimit);
    assert_eq!(tight.managed_memory_in_use(), 0);
    let mut roomy = plenty().with_max_memory_bytes(8 << 20);
    assert_eq!(write(&mut roomy).unwrap(), write(&mut plenty()).unwrap());
    assert_eq!(roomy.managed_memory_in_use(), 0);
}

#[test]
fn an_archive_keeps_to_the_memory_ceiling_and_the_spool_quotas() {
    let text = vec![b'x'; 4096];
    let options = WriterOptions::new(ArchiveVersion::Rar50, FeatureSet::store_only());
    let plan = plan_for(options, &[Some(4096)], PLENTY);
    let write = |resources: &mut WriterResources| {
        let members = packed_members(&plan, &[text.clone()], PLENTY).unwrap();
        assert!(!members[0].store);
        let spooled = members[0].packed.len() as u64;
        let result = write_streaming_archive_to(
            &[entry(b"text", &text)],
            &[Some(4096)],
            options,
            ArchiveExtras::default(),
            clear_works(members),
            resources,
            &in_the_clear,
        );
        assert_eq!(resources.managed_memory_in_use(), 0);
        assert_eq!(resources.spool_in_use(), 0);
        assert_eq!(resources.spool_memory_in_use(), 0);
        (spooled, result)
    };
    let (spooled, written) = write(&mut plenty());
    let written = written.unwrap();
    assert_eq!(
        write(&mut plenty().with_max_spool_bytes(spooled - 1)).1,
        Err(Error::WriterSpoolLimitExceeded {
            limit: spooled - 1,
            required: spooled,
            used: 0,
        })
    );
    let refused = write(&mut plenty().with_max_memory_bytes(1)).1;
    assert_eq!(refused.unwrap_err().kind(), ErrorKind::ResourceLimit);
    // Packed members wait in files, and the archive belongs to the caller.
    let mut enough = plenty()
        .with_max_spool_bytes(spooled)
        .with_max_spool_memory_bytes(0)
        .with_max_memory_bytes(1024);
    assert_eq!(write(&mut enough).1.unwrap(), written);
}

#[test]
fn a_recovery_record_spools_the_archive_and_itself() {
    let data = vec![7u8; 5000];
    let write = |resources: &mut WriterResources| {
        write_streaming_archive_to(
            &[entry(b"stored.bin", &data)],
            &[Some(5000)],
            stored_options(),
            ArchiveExtras {
                recovery_percent: Some(10),
                ..ArchiveExtras::default()
            },
            clear_works(vec![stored_member(&data)]),
            resources,
            &in_the_clear,
        )
    };
    let written = write(&mut plenty()).unwrap();
    let blocks = blocks_of(&written);
    let record = &blocks[blocks.len() - 2];
    let peak = (record.position + record.data.len()) as u64;
    assert_eq!(
        write(&mut plenty().with_max_spool_bytes(peak - 1)),
        Err(Error::WriterSpoolLimitExceeded {
            limit: peak - 1,
            required: peak,
            used: 0,
        })
    );
    let mut enough = plenty().with_max_spool_bytes(peak);
    assert_eq!(write(&mut enough).unwrap(), written);
    assert_eq!(enough.spool_in_use(), 0);
}

#[test]
fn a_volume_set_spools_the_volume_that_it_fills() {
    let data = vec![7u8; 5000];
    let write = |resources: &mut WriterResources| {
        write_streaming_volumes_to(
            &[entry(b"stored.bin", &data)],
            &[Some(5000)],
            stored_options(),
            ArchiveExtras::default(),
            4000,
            clear_works(vec![stored_member(&data)]),
            &vec![vec![[1; 32]]],
            resources,
            &in_the_clear,
        )
    };
    let volumes = write(&mut plenty()).unwrap();
    let blocks = blocks_of(&volumes[0]);
    let body = (blocks[2].position - blocks[1].position) as u64;
    assert!(body > 4000);
    assert_eq!(
        write(&mut plenty().with_max_spool_bytes(body - 1)),
        Err(Error::WriterSpoolLimitExceeded {
            limit: body - 1,
            required: body,
            used: 0,
        })
    );
    let mut enough = plenty().with_max_spool_bytes(body);
    assert_eq!(write(&mut enough).unwrap(), volumes);
    // The copies of stored fragments go through a buffer.
    let refused = write(&mut plenty().with_max_memory_bytes(0xffff)).unwrap_err();
    assert_eq!(refused.kind(), ErrorKind::ResourceLimit);
    assert_eq!(
        write(&mut plenty().with_max_memory_bytes(0x1_0000)).unwrap(),
        volumes
    );
}

#[test]
fn a_set_is_assembled_with_the_hashes_of_its_fragments() {
    let data = b"0123456789";
    let codec = MemberCodec {
        extends: |_: &[u8], _: &[u8]| false,
        pack: pack_blocks,
        applies: |_: &[u8], _: usize| None,
        search: |_: &[u8], _: EncodeOptions, _: usize| panic!("nothing to search"),
        encode: |data: &[u8], _: Vec<FilterSpec>, _: EncodeOptions, _: usize| {
            Ok(Turn::Done(seven_bits(data)))
        },
    };
    let sealer = Sealer {
        hash: toy_hash,
        derive: toy_keys,
        cipher: keyed_cipher,
    };
    let assemble = |entries: &[ArchiveEntry], max: u64| {
        assemble_volumes(
            entries,
            &[source(data)],
            vec![SecondReading {
                bytes: data.to_vec(),
                hash: toy_hash(data),
            }],
            stored_options(),
            ArchiveExtras::default(),
            max,
            None,
            1,
            &codec,
            &sealer,
            &in_the_clear,
            &mut plenty(),
            None::<&Unobserved>,
        )
    };
    let volumes = assemble(&[entry(b"split.bin", data)], 4).unwrap();
    assert_eq!(volumes.len(), 3);
    let pieces: [&[u8]; 3] = [b"0123", b"4567", b"89"];
    for (volume, piece) in volumes.iter().zip(pieces) {
        let blocks = blocks_of(volume);
        assert_eq!(blocks[1].data, piece);
        let records = blocks[1].records();
        let hash = &records.iter().find(|record| record.0 == 2).unwrap().1;
        // The last fragment carries the hash of the member.
        let expected = if piece == b"89" {
            toy_hash(data)
        } else {
            toy_hash(piece)
        };
        assert_eq!(hash[1..], expected);
    }
    assert_eq!(
        assemble(&[entry(b"split.bin", data)], 0),
        Err(Error::InvalidArgument("RAR 5 volume payload size is zero"))
    );
}

#[test]
fn headers_in_the_clear_leave_one_way_to_write() {
    let entries = [entry(b"one", b"first"), entry(b"two", b"second")];
    let sizes = [Some(5), Some(6)];
    let extras = ArchiveExtras::default()
        .with_comment(b"about both")
        .with_recovery_percent(Some(20));
    let works = || clear_works(vec![stored_member(b"first"), stored_member(b"second")]);
    let plan = plan_archive(&entries, &sizes, stored_options(), extras, PLENTY).unwrap();
    let plain = write_plain_archive(&entries, works().works, &plan, None, &mut plenty()).unwrap();
    let sealed = write_streaming_archive_to(
        &entries,
        &sizes,
        stored_options(),
        extras,
        works(),
        &mut plenty(),
        &in_the_clear,
    )
    .unwrap();
    assert_eq!(plain, sealed);
    assert_eq!(kinds(&blocks_of(&plain)), [1, 3, 2, 2, 3, 5]);

    // What it protects can be repaired from its recovery record.
    let mut damaged = plain.clone();
    damaged[20] ^= 0xff;
    assert_eq!(repair_inline_recovery_archive(&damaged).unwrap(), plain);
}

struct Listener {
    events: RefCell<Vec<String>>,
    stop: Cell<bool>,
}

impl WriteProgress for Listener {
    fn report(&self, event: WriteProgressEvent<'_>) {
        self.events.borrow_mut().push(format!("{event:?}"));
    }

    fn is_cancelled(&self) -> bool {
        self.stop.get()
    }
}

#[test]
fn emission_is_framed_and_can_be_stopped() {
    let listener = Listener {
        events: RefCell::new(Vec::new()),
        stop: Cell::new(false),
    };
    let write = |listener: &Listener| {
        write_streaming_archive_with_progress(
            &[entry(b"one", b"1")],
            &[Some(1)],
            stored_options(),
            ArchiveExtras::default(),
            clear_works(vec![stored_member(b"1")]),
            &mut plenty(),
            &in_the_clear,
            Some(listener),
        )
    };
    let archive = write(&listener).unwrap();
    assert_eq!(blocks_of(&archive)[1].data, b"1");
    let events = listener.events.borrow().clone();
    assert_eq!(events.len(), 2);
    assert!(events[0].starts_with("OperationStarted"));
    assert!(events[1].starts_with("OperationFinished"));
    listener.stop.set(true);
    assert_eq!(write(&listener), Err(Error::Cancelled));
    assert!(!Unobserved.is_cancelled());
    // A request that cannot be met is refused before anyone is asked or told.
    let refused = write_streaming_archive_with_progress(
        &[entry(b"one", b"1")],
        &[Some(1)],
        stored_options(),
        ArchiveExtras::default().with_recovery_percent(Some(101)),
        clear_works(vec![stored_member(b"1")]),
        &mut plenty(),
        &in_the_clear,
        Some(&listener),
    )
    .unwrap_err();
    assert_ne!(refused, Error::Cancelled);
    assert_eq!(listener.events.borrow().len(), 2);
}

#[test]
fn a_signal_stops_writes_that_nobody_watches() {
    let set = || {
        let mut signal = WriteCancellation::new();
        signal.cancel();
        signal
    };
    let write = |signal: WriteCancellation, name: &[u8]| {
        write_streaming_archive_to(
            &[entry(name, b"1")],
            &[Some(1)],
            stored_options(),
            ArchiveExtras::default(),
            clear_works(vec![stored_member(b"1")]),
            &mut plenty().with_cancellation(signal),
            &in_the_clear,
        )
    };
    let cut = |signal: WriteCancellation, max: u64| {
        write_streaming_volumes_to(
            &[entry(b"one", b"1")],
            &[Some(1)],
            stored_options(),
            ArchiveExtras::default(),
            max,
            clear_works(vec![stored_member(b"1")]),
            &vec![Vec::new()],
            &mut plenty().with_cancellation(signal),
            &in_the_clear,
        )
    };
    assert!(write(WriteCancellation::new(), b"one").is_ok());
    assert!(cut(WriteCancellation::new(), 4).is_ok());
    assert_eq!(write(set(), b"one"), Err(Error::Cancelled));
    assert_eq!(cut(set(), 4), Err(Error::Cancelled));
    // What is refused anyway is refused for its own reason.
    assert_ne!(write(set(), b""), Err(Error::Cancelled));
    assert_eq!(
        cut(set(), 0),
        Err(Error::InvalidArgument("RAR 5 volume payload size is zero"))
    );
}

#[test]
fn a_write_is_told_of_from_its_members_to_its_end() {
    let codec = MemberCodec {
        extends: |_: &[u8], _: &[u8]| false,
        pack: pack_blocks,
        applies: |_: &[u8], _: usize| None,
        search: |_: &[u8], _: EncodeOptions, _: usize| panic!("nothing to search"),
        encode: |data: &[u8], _: Vec<FilterSpec>, _: EncodeOptions, _: usize| {
            Ok(Turn::Done(seven_bits(data)))
        },
    };
    let sealer = Sealer {
        hash: toy_hash,
        derive: toy_keys,
        cipher: keyed_cipher,
    };
    let data = b"some bytes";
    let entries = [entry(b"one", data)];
    let write = |listener: &Listener, signal: WriteCancellation| {
        assemble_archive(
            &entries,
            &[source(data)],
            vec![SecondReading {
                bytes: data.to_vec(),
                hash: toy_hash(data),
            }],
            stored_options(),
            ArchiveExtras::default(),
            None,
            1,
            &codec,
            &sealer,
            &in_the_clear,
            &mut plenty().with_cancellation(signal),
            Some(listener),
        )
    };
    let listener = Listener {
        events: RefCell::new(Vec::new()),
        stop: Cell::new(false),
    };
    write(&listener, WriteCancellation::new()).unwrap();
    let kinds: Vec<String> = listener
        .events
        .borrow()
        .iter()
        .map(|event| event.split(' ').next().unwrap().to_string())
        .collect();
    assert_eq!(
        kinds,
        [
            "OperationStarted",
            "EntryStarted",
            "Advanced",
            "EntryFinished",
            "Advanced",
            "OperationFinished",
            "OperationStarted",
            "OperationFinished",
        ]
    );
    // Where nobody asks to stop the signal of the policy still counts.
    let mut signal = WriteCancellation::new();
    signal.cancel();
    assert_eq!(write(&listener, signal), Err(Error::Cancelled));
    listener.stop.set(true);
    assert_eq!(
        write(&listener, WriteCancellation::new()),
        Err(Error::Cancelled)
    );
}

#[derive(Default)]
struct RecoveryListener {
    starts: Cell<usize>,
    advances: Cell<usize>,
    finishes: Cell<usize>,
    last: Cell<u64>,
    total: Cell<u64>,
}

impl WriteProgress for RecoveryListener {
    fn report(&self, event: WriteProgressEvent<'_>) {
        match event {
            WriteProgressEvent::OperationStarted {
                operation: WriteOperation::Recovery,
                total_bytes: Some(total),
                ..
            } => {
                assert!(total > 0);
                self.total.set(total);
                self.starts.set(self.starts.get() + 1);
            }
            WriteProgressEvent::Advanced {
                operation: WriteOperation::Recovery,
                completed_bytes,
                total_bytes,
                ..
            } => {
                assert!(completed_bytes <= total_bytes);
                assert!(completed_bytes >= self.last.get());
                self.last.set(completed_bytes);
                self.advances.set(self.advances.get() + 1);
            }
            WriteProgressEvent::OperationFinished {
                operation: WriteOperation::Recovery,
                ..
            } => self.finishes.set(self.finishes.get() + 1),
            _ => {}
        }
    }
}

#[test]
fn recovery_writer_reports_determinate_pass_progress() {
    let data = b"recovery progress payload";
    let entry = entry(b"payload.bin", data)
        .with_attributes(0x20)
        .with_host_os(1);
    let reporter = RecoveryListener::default();
    Rar50Writer::new(stored_options())
        .entries(vec![entry])
        .recovery_percent(Some(10))
        .progress(&reporter)
        .finish(
            &[Some(data.len() as u64)],
            clear_works(vec![stored_member(data)]),
            &mut plenty(),
            &in_the_clear,
        )
        .unwrap();

    assert!(reporter.starts.get() >= 1);
    assert!(reporter.advances.get() >= 1);
    assert_eq!(reporter.starts.get(), reporter.finishes.get());
    assert_eq!(reporter.last.get(), reporter.total.get());
}

/// Packs a member in turns of 32 KiB into half of its bytes.
fn halved(
    data: &[u8],
    _filters: Vec<FilterSpec>,
    _options: EncodeOptions,
    turn: usize,
) -> Result<Turn<Vec<u8>>, Error> {
    let position = turn * 32 * 1024;
    Ok(if turn == 0 {
        Turn::Report(EncodeProgress::PassStarted)
    } else if position <= data.len() {
        Turn::Report(EncodeProgress::Advanced(position as u64))
    } else {
        Turn::Done(data.iter().step_by(2).copied().collect())
    })
}

#[test]
fn compressed_writer_reports_determinate_progress() {
    let data: Vec<u8> = (0usize..128 * 1024)
        .map(|i| (i.wrapping_mul(37) % 251) as u8)
        .collect();
    let entry = entry(b"payload.bin", &data)
        .with_attributes(0x20)
        .with_host_os(1);
    let last = Cell::new(0);
    let advances = Cell::new(0);
    let intermediate = Cell::new(false);
    let finished = RefCell::new(Vec::new());
    let reporter = |event: WriteProgressEvent<'_>| match event {
        WriteProgressEvent::Advanced {
            operation: WriteOperation::Compression,
            completed_bytes,
            total_bytes,
            ..
        } => {
            assert!(completed_bytes >= last.replace(completed_bytes));
            assert!(completed_bytes <= total_bytes);
            if completed_bytes < total_bytes {
                intermediate.set(true);
            }
            advances.set(advances.get() + 1);
        }
        WriteProgressEvent::OperationFinished { operation, .. } => {
            finished.borrow_mut().push(operation);
        }
        _ => {}
    };
    let codec = MemberCodec {
        extends: |_: &[u8], _: &[u8]| false,
        pack: pack_blocks,
        applies: |_: &[u8], _: usize| None,
        search: |_: &[u8], _: EncodeOptions, _: usize| panic!("nothing to search"),
        encode: halved,
    };
    let sealer = Sealer {
        hash: toy_hash,
        derive: toy_keys,
        cipher: keyed_cipher,
    };
    let entries = [entry];
    let assemble = |reporter: Option<&dyn Fn(WriteProgressEvent<'_>)>| {
        assemble_archive(
            &entries,
            &[source(&data)],
            vec![SecondReading {
                bytes: data.clone(),
                hash: toy_hash(&data),
            }],
            WriterOptions::new(ArchiveVersion::Rar70, FeatureSet::default()),
            ArchiveExtras {
                filter_policy: FilterPolicy::Auto,
                ..ArchiveExtras::default()
            },
            None,
            1,
            &codec,
            &sealer,
            &in_the_clear,
            &mut plenty(),
            reporter.as_ref(),
        )
    };
    let watched = assemble(Some(&reporter)).unwrap();

    assert!(advances.get() >= 1);
    assert!(intermediate.get());
    // Progress is counted in input bytes, however many passes the filter search
    // makes over them.
    assert_eq!(last.get(), data.len() as u64);
    assert_eq!(
        finished.into_inner(),
        [WriteOperation::Compression, WriteOperation::Emission]
    );
    // Nobody's watching changes anything.
    assert_eq!(assemble(None).unwrap(), watched);
}

#[test]
fn a_failed_write_reports_no_operation_as_finished() {
    let data = vec![7u8; 5000];
    let finished = Cell::new(0);
    let reporter = |event: WriteProgressEvent<'_>| {
        if matches!(event, WriteProgressEvent::OperationFinished { .. }) {
            finished.set(finished.get() + 1);
        }
    };
    let write = |resources: &mut WriterResources| {
        write_streaming_archive_with_progress(
            &[entry(b"stored.bin", &data)],
            &[Some(5000)],
            stored_options(),
            ArchiveExtras::default().with_recovery_percent(Some(10)),
            clear_works(vec![stored_member(&data)]),
            resources,
            &in_the_clear,
            Some(&reporter),
        )
    };
    assert!(write(&mut plenty().with_max_spool_bytes(10)).is_err());
    assert_eq!(finished.get(), 0);
    assert!(write(&mut plenty()).is_ok());
    // The record, and the archive with it.
    assert_eq!(finished.get(), 2);
}

#[test]
fn every_volume_reports_its_recovery_record() {
    let reporter = RecoveryListener::default();
    let volumes = write_streaming_volumes_with_progress(
        &[entry(b"split.bin", b"0123456789")],
        &[Some(10)],
        stored_options(),
        ArchiveExtras::default().with_recovery_percent(Some(10)),
        5,
        clear_works(vec![stored_member(b"0123456789")]),
        &vec![vec![[1; 32]]],
        &mut plenty(),
        &in_the_clear,
        Some(&FreshStarts(&reporter)),
    )
    .unwrap();
    assert_eq!(volumes.len(), 2);
    assert_eq!(reporter.starts.get(), 2);
    assert_eq!(reporter.finishes.get(), 2);
    // Nobody's watching changes anything.
    let unwatched = write_streaming_volumes_to(
        &[entry(b"split.bin", b"0123456789")],
        &[Some(10)],
        stored_options(),
        ArchiveExtras::default().with_recovery_percent(Some(10)),
        5,
        clear_works(vec![stored_member(b"0123456789")]),
        &vec![vec![[1; 32]]],
        &mut plenty(),
        &in_the_clear,
    )
    .unwrap();
    assert_eq!(volumes, unwatched);
}

/// Counts every recovery record from nothing.
struct FreshStarts<'a>(&'a RecoveryListener);

impl WriteProgress for FreshStarts<'_> {
    fn report(&self, event: WriteProgressEvent<'_>) {
        if matches!(event, WriteProgressEvent::OperationStarted { .. }) {
            self.0.last.set(0);
        }
        self.0.report(event);
    }
}

#[test]
fn a_stored_source_that_changed_is_not_written() {
    let mut member = stored_member(b"data");
    member.packed = b"date".to_vec();
    let refused = write_streaming_archive_to(
        &[entry(b"changing.bin", b"data")],
        &[Some(4)],
        stored_options(),
        ArchiveExtras::default(),
        clear_works(vec![member]),
        &mut plenty(),
        &in_the_clear,
    );
    assert_eq!(
        refused,
        Err(Error::SourceChanged(
            "entry source contents changed while writing"
        ))
    );
}

#[test]
fn requests_that_cannot_be_met_are_refused() {
    let work = || clear_works(vec![stored_member(b"1")]);
    let write = |entry: ArchiveEntry, options: WriterOptions, extras: ArchiveExtras<'static>| {
        write_streaming_archive_to(
            &[entry],
            &[Some(1)],
            options,
            extras,
            work(),
            &mut plenty(),
            &in_the_clear,
        )
    };
    assert!(matches!(
        write(
            entry(b"one", b"1"),
            WriterOptions {
                target: ArchiveVersion::Rar40,
                ..stored_options()
            },
            ArchiveExtras::default()
        ),
        Err(Error::UnsupportedVersion(ArchiveVersion::Rar40))
    ));
    assert_eq!(
        write(
            entry(b"one", b"1"),
            stored_options(),
            ArchiveExtras::default().with_recovery_percent(Some(101))
        ),
        Err(Error::InvalidHeader(
            "RAR 5 recovery percent must be in 1..=100"
        ))
    );
    assert!(write(entry(b"", b"1"), stored_options(), ArchiveExtras::default()).is_err());
}
