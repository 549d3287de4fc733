//! What is made of drawn salts and IVs, and of draws that failed.

use rars::crc32::crc32;
use rars::error::Error;
use rars::rar50::blocks::CompressedMember;
use rars::rar50::encryption::{
    encrypted_payload_by, encrypted_payload_under, seal_header_under, Draw, PayloadKeys,
};
use rars::rar50::entry::{ArchiveEntry, ArchiveExtras};
use rars::rar50::sealing::{
    header_encryption_keys_under, prepare_work_by, seal_data_by, MemberDraws, Sealer, WorkDraws,
};
use rars::streaming::source::EntrySource;

const NO_SALT: Error = Error::InvalidHeader("RAR 5 writer could not generate encryption salt");
const NO_IV: Error = Error::InvalidHeader("RAR 5 writer could not generate encryption IV");

fn xor(iv: [u8; 16], plain: Vec<u8>) -> Result<Vec<u8>, Error> {
    Ok(plain
        .iter()
        .enumerate()
        .map(|(at, byte)| byte ^ iv[at % 16])
        .collect())
}

fn keys(
    password: &[u8],
    salt: [u8; 16],
    checksum: u32,
    hash: [u8; 32],
) -> Result<PayloadKeys, Error> {
    Ok(PayloadKeys {
        check_value: [password[0] ^ salt[0]; 12],
        crc32_mac: checksum ^ u32::from(salt[1]),
        blake2sp_mac: hash,
    })
}

fn cipher(
    _password: &[u8],
    salt: [u8; 16],
    iv: [u8; 16],
    plain: Vec<u8>,
) -> Result<Vec<u8>, Error> {
    let mut mixed = iv;
    mixed[0] ^= salt[0];
    xor(mixed, plain)
}

fn drawn(salt: u8, iv: u8) -> Draw {
    Draw {
        salt: Some([salt; 16]),
        iv: Some([iv; 16]),
    }
}

fn stored(data: &[u8]) -> CompressedMember {
    CompressedMember {
        input_size: data.len() as u64,
        crc32: crc32(data),
        hash: [9; 32],
        packed: data.to_vec(),
        packed_hash: [9; 32],
        store: true,
        solid_continuation: false,
    }
}

#[test]
fn a_header_is_sealed_under_the_iv_that_was_drawn() {
    let sealed = seal_header_under(b"header", [3; 16], &xor).unwrap();
    assert_eq!(&sealed[..16], &[3; 16]);
    assert_eq!(sealed.len(), 32);
    assert_eq!(xor([3; 16], sealed[16..].to_vec()).unwrap(), b"header\0\0\0\0\0\0\0\0\0\0");
    assert_eq!(
        seal_header_under(b"header", [3; 16], &|_: [u8; 16], _: Vec<u8>| Err(
            Error::NeedPassword
        )),
        Err(Error::NeedPassword)
    );
}

#[test]
fn header_keys_hold_the_salt_that_was_drawn() {
    let derived = header_encryption_keys_under(b"key", [7; 16], &|key: &[u8], salt: [u8; 16]| {
        Ok([key[0] ^ salt[0]; 12])
    })
    .unwrap();
    assert_eq!(derived.salt, [7; 16]);
    assert_eq!(derived.check_value, [b'k' ^ 7; 12]);
}

#[test]
fn a_payload_is_encrypted_under_what_was_drawn() {
    let sealed = encrypted_payload_under(
        b"payload", 0x55, [1; 32], b"key", [4; 16], [6; 16], &keys, &cipher,
    )
    .unwrap();
    assert_eq!((sealed.salt, sealed.iv), ([4; 16], [6; 16]));
    assert_eq!(sealed.check_value, [b'k' ^ 4; 12]);
    assert_eq!(sealed.crc32_mac, 0x51);
    assert_eq!(sealed.blake2sp_mac, [1; 32]);
    assert_eq!(sealed.data.len(), 16);
    assert_eq!(
        cipher(b"key", [4; 16], [6; 16], sealed.data).unwrap(),
        b"payload\0\0\0\0\0\0\0\0\0"
    );
}

#[test]
fn a_draw_that_failed_refuses_the_payload() {
    let encrypt = |draw: Draw| {
        encrypted_payload_by(b"data", 0, [0; 32], b"key", draw, &keys, &cipher)
            .map(|sealed| sealed.iv)
    };
    assert_eq!(encrypt(drawn(1, 2)), Ok([2; 16]));
    assert_eq!(
        encrypt(Draw {
            salt: None,
            iv: Some([2; 16]),
        }),
        Err(NO_SALT)
    );
    assert_eq!(
        encrypt(Draw {
            salt: Some([1; 16]),
            iv: None,
        }),
        Err(NO_IV)
    );
}

#[test]
fn work_is_prepared_with_the_draws_of_each_payload() {
    let sealer = Sealer {
        hash: |_: &[u8]| [9; 32],
        derive: keys,
        cipher,
    };
    let sealed = seal_data_by(b"data", b"key", drawn(8, 5), &sealer).unwrap();
    assert_eq!((sealed.salt, sealed.iv), ([8; 16], [5; 16]));
    assert_eq!(sealed.crc32_mac, crc32(b"data") ^ 8);

    let entries = [
        ArchiveEntry::new(b"open".to_vec(), EntrySource::from_bytes(b"1".to_vec())),
        ArchiveEntry::new(b"locked".to_vec(), EntrySource::from_bytes(b"2".to_vec()))
            .with_password(b"key".to_vec()),
    ];
    let extras = ArchiveExtras::default().with_encrypted_comment(b"comment", b"other");
    let nothing = Draw {
        salt: None,
        iv: None,
    };
    let prepare = |comment: Draw, locked: Draw| {
        prepare_work_by(
            &entries,
            vec![stored(b"1"), stored(b"2")],
            &extras,
            None,
            &WorkDraws {
                comment,
                members: vec![
                    MemberDraws {
                        payload: nothing,
                        services: vec![],
                    },
                    MemberDraws {
                        payload: locked,
                        services: vec![],
                    },
                ],
            },
            &sealer,
        )
        .map(|work| {
            let comment = work.comment_seal.unwrap();
            let member = work.works[1].sealed.as_ref().unwrap();
            assert!(work.works[0].sealed.is_none());
            (comment.salt[0], comment.iv[0], member.salt[0], member.iv[0])
        })
    };
    assert_eq!(prepare(drawn(1, 2), drawn(3, 4)), Ok((1, 2, 3, 4)));
    assert_eq!(prepare(drawn(1, 2), nothing), Err(NO_SALT));
    assert_eq!(
        prepare(
            Draw {
                salt: Some([1; 16]),
                iv: None,
            },
            drawn(3, 4)
        ),
        Err(NO_IV)
    );
}
