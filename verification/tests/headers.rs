//! Header images, records, layout and quick-open entries.

use rars::crc32::{crc32, Crc32};
use rars::error::{Error, ErrorKind};
use rars::rar50::encryption::{
    encrypt_buffer_size, encrypt_chunk_size, encrypted_len, encrypted_payload, fresh_iv,
    fresh_or_refused, fresh_salt, next_cipher_chunk, pad_for_cipher, seal_header, PayloadKeys,
};
use rars::rar50::file_header::file_specific;
use rars::rar50::format::{
    write_signature, FHEXTRA_CRYPT, FHEXTRA_HASH, FHEXTRA_HTIME, FHFL_CRC32, FHFL_DIRECTORY,
    FHFL_MTIME, HFL_EXTRA, MHEXTRA_ARCHIVE_METADATA, MHEXTRA_LOCATOR, MHEXTRA_LOCATOR_QUICK_OPEN,
    MHEXTRA_LOCATOR_RECOVERY, SIGNATURE_LEN, WRITE_KDF_COUNT_LOG,
};
use rars::rar50::headers::{block_header_image, plain_header_len, write_block};
use rars::rar50::layout::{
    main_header_len, resolve_layout, stored_service_block_len, LayoutInputs, ResolvedLayout,
};
use rars::rar50::link_name::decoded_rar50_name_len;
use rars::rar50::main_header::header_encryption_password;
use rars::rar50::metadata::{
    archive_metadata_record, retained_archive_metadata, ArchiveMetadataEntry,
    ArchiveMetadataRecord,
};
use rars::rar50::prepared_header::prepared_header_image;
use rars::rar50::quick_open::append_quick_open_entry;
use rars::rar50::records::{
    write_extra_record, write_file_encryption_record, write_hash_record_with_value,
    write_locator_record, write_mtime_record,
};
use rars::rar50::vint::{vint_width, write_vint};
use rars::streaming::resources::{CapacityCharge, CapacityClass, WriterResources};

fn buffered_record(kind: u64, data: &[u8]) -> Vec<u8> {
    let mut body = Vec::new();
    write_vint(&mut body, kind);
    body.extend_from_slice(data);
    let mut out = Vec::new();
    write_vint(&mut out, body.len() as u64);
    out.extend_from_slice(&body);
    out
}

#[test]
fn vints_carry_seven_bits_a_byte() {
    for (value, bytes) in [
        (0u64, &b"\x00"[..]),
        (127, b"\x7f"),
        (128, b"\x80\x01"),
        (16_383, b"\xff\x7f"),
        (16_384, b"\x80\x80\x01"),
    ] {
        let mut out = Vec::new();
        write_vint(&mut out, value);
        assert_eq!(out, bytes);
        assert_eq!(vint_width(value), bytes.len() as u64);
    }
    let mut widest = Vec::new();
    write_vint(&mut widest, u64::MAX);
    assert_eq!(widest, b"\xff\xff\xff\xff\xff\xff\xff\xff\xff\x01");
}

#[test]
fn stack_framing_matches_buffered_encoding_at_vint_boundaries() {
    for len in [0, 1, 127, 128, 16384] {
        let data = vec![0xa5; len];
        for kind in [0, 127, 128, u64::MAX] {
            let mut record = vec![0x5a];
            write_extra_record(&mut record, kind, &data);
            let mut expected = vec![0x5a];
            expected.extend(buffered_record(kind, &data));
            assert_eq!(record, expected);
            for flags in [0, HFL_EXTRA, u64::MAX] {
                for size in [None, Some(u64::MAX)] {
                    let mut body = Vec::new();
                    write_vint(&mut body, kind);
                    write_vint(&mut body, flags);
                    if flags & HFL_EXTRA != 0 {
                        write_vint(&mut body, data.len() as u64);
                    }
                    if let Some(size) = size {
                        write_vint(&mut body, size);
                    }
                    body.extend_from_slice(b"specific");
                    body.extend_from_slice(&data);
                    let mut expected = vec![0; 4];
                    write_vint(&mut expected, body.len() as u64);
                    expected.extend_from_slice(&body);
                    let crc = crc32(&expected[4..]);
                    expected[..4].copy_from_slice(&crc.to_le_bytes());
                    assert_eq!(
                        block_header_image(kind, flags, size, b"specific", &data).unwrap(),
                        expected
                    );
                    assert_eq!(
                        plain_header_len(kind, flags, size, 8, data.len()).unwrap(),
                        expected.len()
                    );
                }
            }
        }
    }
}

#[test]
fn a_block_is_its_header_and_the_data_behind_it() {
    let mut out = vec![1, 2, 3];
    write_block(&mut out, 2, 0, Some(4), b"ab", &[], b"data").unwrap();
    let mut expected = vec![1, 2, 3];
    expected.extend(block_header_image(2, 0, Some(4), b"ab", &[]).unwrap());
    expected.extend_from_slice(b"data");
    assert_eq!(out, expected);
    let mut signature = Vec::new();
    write_signature(&mut signature);
    assert_eq!(signature, b"Rar!\x1a\x07\x01\x00");
    assert_eq!(
        plain_header_len(2, 0, None, usize::MAX, usize::MAX),
        Err(Error::InvalidArgument("RAR 5 header size overflows"))
    );
}

#[test]
fn fixed_records_fit_their_stack_capacity_and_keep_wire_bytes() {
    let mut actual = Vec::new();
    write_file_encryption_record(&mut actual, [1; 16], [2; 16], [3; 12]);
    let mut body = vec![0, 3, WRITE_KDF_COUNT_LOG];
    body.extend_from_slice(&[1; 16]);
    body.extend_from_slice(&[2; 16]);
    body.extend_from_slice(&[3; 12]);
    assert_eq!(actual, buffered_record(FHEXTRA_CRYPT, &body));
    actual.clear();
    write_hash_record_with_value(&mut actual, [7; 32]);
    let mut body = vec![0];
    body.extend_from_slice(&[7; 32]);
    assert_eq!(actual, buffered_record(FHEXTRA_HASH, &body));
    actual.clear();
    write_mtime_record(&mut actual, Some(u32::MAX), Some(u32::MAX));
    let mut body = vec![0x13];
    body.extend_from_slice(&[0xff; 8]);
    assert_eq!(actual, buffered_record(FHEXTRA_HTIME, &body));
    actual.clear();
    write_locator_record(&mut actual, Some(u64::MAX), Some(u64::MAX));
    let mut body = Vec::new();
    write_vint(
        &mut body,
        MHEXTRA_LOCATOR_QUICK_OPEN | MHEXTRA_LOCATOR_RECOVERY,
    );
    write_vint(&mut body, u64::MAX);
    write_vint(&mut body, u64::MAX);
    assert_eq!(actual, buffered_record(MHEXTRA_LOCATOR, &body));
}

#[test]
fn metadata_images_keep_all_supported_time_encodings_and_name_lengths() {
    for length in [1, 127, 128, 16384] {
        let name = vec![b'n'; length];
        for flags in [1u64, 2, 3, 6, 7, 14, 15] {
            let time = if flags & 4 != 0 && flags & 8 == 0 {
                u32::MAX as u64
            } else {
                u64::MAX
            };
            let record = ArchiveMetadataRecord {
                flags,
                name: if flags & 1 != 0 {
                    Some(name.clone())
                } else {
                    None
                },
                creation_time: if flags & 2 != 0 { Some(time) } else { None },
            };
            let mut body = Vec::new();
            write_vint(&mut body, flags);
            if let Some(name) = &record.name {
                write_vint(&mut body, name.len() as u64);
                body.extend_from_slice(name);
            }
            if record.creation_time.is_some() {
                if flags & 4 != 0 && flags & 8 == 0 {
                    body.extend_from_slice(&(time as u32).to_le_bytes());
                } else {
                    body.extend_from_slice(&time.to_le_bytes());
                }
            }
            let mut expected = Vec::new();
            write_extra_record(&mut expected, MHEXTRA_ARCHIVE_METADATA, &body);
            let actual = retained_archive_metadata(&record).unwrap();
            assert_eq!(actual, expected);
            if flags == 2 || flags == 3 {
                assert_eq!(
                    archive_metadata_record(ArchiveMetadataEntry {
                        name: record.name.as_deref(),
                        creation_time: record.creation_time,
                    })
                    .unwrap(),
                    expected
                );
            }
        }
    }
}

#[test]
fn metadata_that_cannot_be_read_again_is_refused() {
    assert_eq!(
        archive_metadata_record(ArchiveMetadataEntry {
            name: Some(b"name"),
            creation_time: None,
        }),
        Err(Error::InvalidArgument(
            "RAR 5 archive metadata name needs a creation time"
        ))
    );
    // A name that is no text is not retained.
    let record = ArchiveMetadataRecord {
        flags: 3,
        name: Some(vec![0xff]),
        creation_time: Some(1),
    };
    assert!(retained_archive_metadata(&record).is_err());
}

#[test]
fn file_specific_fields_keep_maximum_widths_without_growing_the_record() {
    let name = vec![b'n'; 16384];
    let actual = file_specific(
        &name,
        u64::MAX,
        Some(u32::MAX),
        u64::MAX,
        Some(u32::MAX),
        u64::MAX,
        u64::MAX,
        true,
    )
    .unwrap();
    let mut expected = Vec::new();
    for value in [FHFL_CRC32 | FHFL_DIRECTORY | FHFL_MTIME, u64::MAX, u64::MAX] {
        write_vint(&mut expected, value);
    }
    expected.extend_from_slice(&[0xff; 8]);
    for value in [u64::MAX, u64::MAX, name.len() as u64] {
        write_vint(&mut expected, value);
    }
    expected.extend_from_slice(&name);
    assert_eq!(actual, expected);
}

/// Stands in for a block cipher: its own inverse, and mixed with the IV.
fn toy_cipher(iv: [u8; 16], plain: Vec<u8>) -> Result<Vec<u8>, Error> {
    Ok(plain
        .iter()
        .enumerate()
        .map(|(at, byte)| byte ^ iv[at % 16] ^ 0x5a)
        .collect())
}

#[test]
fn exact_images_match_existing_serialization_and_include_encryption_padding() {
    for len in [0, 1, 15, 16, 120, 127, 128, 16384] {
        let specific = vec![0x51; len];
        for encrypted in [false, true] {
            let expected =
                block_header_image(2, HFL_EXTRA, Some(u64::MAX), &specific, b"extra").unwrap();
            let size = if encrypted {
                16 + expected.len().div_ceil(16) * 16
            } else {
                expected.len()
            };
            let mut limited =
                WriterResources::default().with_max_prepared_header_bytes(size as u64 - 1);
            let error = prepared_header_image(
                2,
                HFL_EXTRA,
                Some(u64::MAX),
                &specific,
                b"extra",
                encrypted,
                &mut limited,
            )
            .err()
            .unwrap();
            assert_eq!(error.kind(), ErrorKind::ResourceLimit);
            assert_eq!(
                error,
                Error::WriterPreparedHeaderLimitExceeded {
                    limit: size as u64 - 1,
                    required: size as u64,
                    used: 0
                }
            );
            let mut resources =
                WriterResources::default().with_max_prepared_header_bytes(size as u64);
            let header = prepared_header_image(
                2,
                HFL_EXTRA,
                Some(u64::MAX),
                &specific,
                b"extra",
                encrypted,
                &mut resources,
            )
            .unwrap();
            assert_eq!(resources.prepared_headers_in_use(), size as u64);
            let mut another = CapacityCharge::new(CapacityClass::PreparedHeaders);
            assert!(another.grow_to(1, &mut resources).is_err());
            if encrypted {
                let sealed = seal_header(&header.image, &toy_cipher).unwrap();
                assert_eq!(sealed.len(), size);
                let iv: [u8; 16] = sealed[..16].try_into().unwrap();
                let plain = toy_cipher(iv, sealed[16..].to_vec()).unwrap();
                assert_eq!(&plain[..expected.len()], expected.as_slice());
                assert!(plain[expected.len()..].iter().all(|byte| *byte == 0));
            } else {
                assert_eq!(header.image, expected);
            }
            header.release(&mut resources);
            assert!(another.grow_to(size as u64, &mut resources).is_ok());
        }
    }
}

#[test]
fn fresh_values_differ_from_one_draw_to_the_next() {
    assert_ne!(fresh_salt().unwrap(), fresh_salt().unwrap());
    assert_ne!(fresh_iv().unwrap(), fresh_iv().unwrap());
    assert_eq!(
        fresh_or_refused(None, "no entropy"),
        Err(Error::InvalidHeader("no entropy"))
    );
    assert_eq!(fresh_or_refused(Some([9; 16]), "no entropy"), Ok([9; 16]));
}

#[test]
fn payloads_are_padded_and_ciphered_in_chunks() {
    assert_eq!(encrypted_len(0).unwrap(), 0);
    assert_eq!(encrypted_len(17).unwrap(), 32);
    assert!(encrypted_len(u64::MAX).is_err());
    assert_eq!(pad_for_cipher(b"abc").unwrap(), b"abc\0\0\0\0\0\0\0\0\0\0\0\0\0");

    let data: Vec<u8> = (0..100_000u32).map(|index| index as u8).collect();
    let size = encrypt_chunk_size(1000);
    assert_eq!(size % 16, 0);
    assert!(encrypt_buffer_size(100) >= 100);
    let mut done = 0;
    let mut joined = Vec::new();
    while let Some(chunk) = next_cipher_chunk(&data, done, size) {
        done += chunk.len().min(data.len() - done);
        joined.extend_from_slice(&chunk);
    }
    assert_eq!(joined, pad_for_cipher(&data).unwrap());

    let sealed = encrypted_payload(
        &data,
        6,
        [7; 32],
        b"key",
        &|password: &[u8], _: [u8; 16], checksum: u32, hash: [u8; 32]| {
            assert_eq!(password, b"key");
            Ok(PayloadKeys {
                check_value: [4; 12],
                crc32_mac: checksum + 1,
                blake2sp_mac: hash,
            })
        },
        &|_: &[u8], _: [u8; 16], iv: [u8; 16], plain: Vec<u8>| toy_cipher(iv, plain),
    )
    .unwrap();
    assert_eq!(sealed.data.len(), 100_000);
    assert_ne!(sealed.data, data);
    let opened = toy_cipher(sealed.iv, sealed.data.clone()).unwrap();
    assert_eq!(opened, data);
    assert_eq!(sealed.check_value, [4; 12]);
    assert_eq!(sealed.crc32_mac, 7);
}

fn inputs(body_len: u64) -> LayoutInputs<'static> {
    LayoutInputs {
        header_encrypted: false,
        head_crypt_len: 0,
        main_flags: 0,
        volume_number: None,
        archive_metadata: None,
        metadata_record: None,
        body_len,
        quick_open_payload_len: None,
        recovery_percent: Some(5),
    }
}

/// The offsets a layout reports must be exactly where the blocks land when
/// the archive is assembled from the sizes it computed.
fn assert_self_consistent(inputs: &LayoutInputs<'_>, layout: &ResolvedLayout) {
    let signature_len = SIGNATURE_LEN;
    let quick_open_position =
        signature_len + inputs.head_crypt_len + layout.main_header_len + inputs.body_len;

    // Rebuilding the header with the settled offsets must not resize it.
    let rebuilt = main_header_len(inputs, &layout.main_extra).unwrap();
    assert_eq!(rebuilt, layout.main_header_len, "main header size moved");

    if let Some(offset) = layout.recovery_offset {
        let quick_open_block_len = match inputs.quick_open_payload_len {
            Some(len) => {
                stored_service_block_len(b"QO", len, &[], inputs.header_encrypted).unwrap()
            }
            None => 0,
        };
        assert_eq!(
            offset,
            quick_open_position + quick_open_block_len - signature_len
        );
        assert_eq!(
            layout.recovery_prefix_len,
            Some(offset + signature_len),
            "recovery protects everything before its own block"
        );
    }
}

#[test]
fn layout_settles_across_vint_width_boundaries() {
    // Body sizes chosen so the resulting offsets sit either side of each
    // vint width step, which is where a naive single pass gets it wrong.
    for boundary in [0x7fu64, 0x3fff, 0x1f_ffff, 0x0fff_ffff] {
        for delta in [-3i64, -2, -1, 0, 1, 2, 3] {
            let body_len = (boundary as i64 + delta).max(0) as u64;
            let inputs = inputs(body_len);
            let layout = resolve_layout(&inputs).unwrap();
            assert_self_consistent(&inputs, &layout);
        }
    }
}

#[test]
fn layout_settles_with_quick_open_and_recovery_together() {
    for body_len in [0u64, 100, 0x3ffe, 0x4001, 1 << 20] {
        let mut inputs = inputs(body_len);
        inputs.quick_open_payload_len = Some(4096);
        let layout = resolve_layout(&inputs).unwrap();

        // assert_self_consistent checks that the recovery offset leaves
        // room for the whole quick-open block ahead of it.
        assert!(layout.recovery_offset.is_some());
        assert_self_consistent(&inputs, &layout);
    }
}

#[test]
fn layout_accounts_for_encrypted_header_padding() {
    let mut inputs = inputs(1024);
    inputs.header_encrypted = true;
    inputs.head_crypt_len = 60;
    let layout = resolve_layout(&inputs).unwrap();

    assert_eq!(
        layout.main_header_len % 16,
        0,
        "an IV plus padded ciphertext is a multiple of the block size"
    );
    assert_self_consistent(&inputs, &layout);
}

#[test]
fn layout_without_locator_features_has_no_offsets() {
    let mut inputs = inputs(4096);
    inputs.recovery_percent = None;
    let layout = resolve_layout(&inputs).unwrap();

    assert_eq!(layout.recovery_offset, None);
    assert_eq!(layout.recovery_prefix_len, None);
    assert!(layout.main_extra.is_empty());
}

#[test]
fn streamed_records_match_buffered_encoding_at_vint_boundaries() {
    for distance in [0, 127, 128, 16383, 16384, u64::MAX] {
        for size in [0, 1, 123, 127, 128, 16383, 16384] {
            let header = vec![0xa5; size];
            let mut body = Vec::new();
            write_vint(&mut body, 0);
            write_vint(&mut body, distance);
            write_vint(&mut body, size as u64);
            body.extend_from_slice(&header);
            let mut framed = Vec::new();
            write_vint(&mut framed, body.len() as u64);
            framed.extend_from_slice(&body);
            let mut expected = crc32(&framed).to_le_bytes().to_vec();
            expected.extend_from_slice(&framed);
            let mut actual = Vec::new();
            let mut crc = Crc32::new();
            append_quick_open_entry(&mut actual, &mut crc, distance, &header).unwrap();
            assert_eq!(actual, expected);
            assert_eq!(crc.finish(), crc32(&actual));
        }
    }
}

#[test]
fn allocation_free_target_length_preserves_rar50_mapping_rules() {
    for (bytes, decoded) in [
        (b"plain".as_slice(), 5),
        (b"\xffinvalid", 8),
        ("\u{e9}/\u{540d}\u{5b57}".as_bytes(), 9),
        ("\u{e080}".as_bytes(), 3),
        // Behind the mark a mapped character stands for one byte.
        ("\u{fffe}a\u{e080}\u{e0ff}\u{e9}".as_bytes(), 5),
        ("\u{fffe}\u{fffe}".as_bytes(), 0),
    ] {
        assert_eq!(decoded_rar50_name_len(bytes), decoded);
    }
}

#[test]
fn encrypted_headers_need_one_shared_password() {
    assert_eq!(
        header_encryption_password(&[b"one", b"one"]).unwrap(),
        b"one"
    );
    assert_eq!(header_encryption_password(&[]), Err(Error::NeedPassword));
    assert_eq!(
        header_encryption_password(&[b"one", b"two"]),
        Err(Error::InvalidArgument(
            "RAR 5 header-encrypted writer needs one shared password"
        ))
    );
}
