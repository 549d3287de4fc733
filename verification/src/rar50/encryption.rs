//! Encrypted headers.
//!
//! Each encrypted block gets its own IV and its own cipher chain, so headers
//! are built and emitted one at a time without any state between blocks.

use getrandom::Error as RandomError;
use vstd::prelude::*;

use crate::bytes::{copy_bytes, copy_zero_padded, push_all};
#[allow(unused_imports)]
use crate::bytes::zero_padded;
use crate::error::{Error, Result};
#[allow(unused_imports)]
use crate::rar50::headers::emitted_len;
#[allow(unused_imports)]
use crate::rar50::metadata::bytes_result;

verus! {

/// The block size of the cipher.
pub const CIPHER_BLOCK: usize = 16;

/// The error of the system's random number source.
#[verifier::external_type_specification]
#[verifier::external_body]
pub struct ExRandomError(RandomError);

/// Calls [`getrandom::fill`] for sixteen bytes. It fills all of them or fails;
/// which bytes come is left to the system.
#[verifier::external_body]
fn random_bytes() -> (r: std::result::Result<[u8; 16], RandomError>) {
    let mut block = [0u8; 16];
    getrandom::fill(&mut block)?;
    Ok(block)
}

/// What fresh random bytes come to: the bytes, or the refusal that names what
/// they were for.
pub fn fresh_or_refused(
    drawn: Option<[u8; 16]>,
    message: &'static str,
) -> (r: Result<[u8; 16]>)
    ensures
        r == (match drawn {
            Some(bytes) => Ok::<[u8; 16], Error>(bytes),
            None => Err(Error::InvalidHeader(message)),
        }),
{
    match drawn {
        Some(bytes) => Ok(bytes),
        None => Err(Error::InvalidHeader(message)),
    }
}

/// Draws sixteen bytes. Which bytes come, and whether any do, is chance.
fn drawn_bytes() -> Option<[u8; 16]> {
    match random_bytes() {
        Ok(bytes) => Some(bytes),
        Err(_) => None,
    }
}

/// The refusal where no salt could be drawn.
pub open spec fn salt_error() -> Error {
    Error::InvalidHeader("RAR 5 writer could not generate encryption salt")
}

/// The refusal where no IV could be drawn.
pub open spec fn iv_error() -> Error {
    Error::InvalidHeader("RAR 5 writer could not generate encryption IV")
}

/// A fresh salt.
pub fn fresh_salt() -> (r: Result<[u8; 16]>)
    ensures
        r matches Err(error) ==> error == salt_error(),
{
    fresh_or_refused(drawn_bytes(), "RAR 5 writer could not generate encryption salt")
}

/// A fresh IV.
pub fn fresh_iv() -> (r: Result<[u8; 16]>)
    ensures
        r matches Err(error) ==> error == iv_error(),
{
    fresh_or_refused(drawn_bytes(), "RAR 5 writer could not generate encryption IV")
}

/// What was drawn for one payload. A draw that failed refuses the payload when it
/// comes to be encrypted.
#[derive(Debug, Clone, Copy)]
pub struct Draw {
    pub salt: Option<[u8; 16]>,
    pub iv: Option<[u8; 16]>,
}

impl Draw {
    /// Draws a salt and an IV where there is something to encrypt.
    pub fn new(wanted: bool) -> (draw: Draw)
        ensures
            !wanted ==> draw == (Draw { salt: None, iv: None }),
    {
        if wanted {
            Draw { salt: drawn_bytes(), iv: drawn_bytes() }
        } else {
            Draw { salt: None, iv: None }
        }
    }
}

/// The length of data filled up to the cipher's block size.
pub open spec fn padded_len(len: nat) -> nat {
    ((len + 15) / 16) * 16
}

/// Data filled up with zeros to the cipher's block size.
pub open spec fn padded(data: Seq<u8>) -> Seq<u8> {
    zero_padded(data, padded_len(data.len()))
}

/// The length of encrypted data.
pub fn encrypted_len(len: u64) -> (r: Result<u64>)
    ensures
        r == (if len + 15 > u64::MAX {
            Err::<u64, Error>(Error::InvalidArgument("RAR 5 encrypted data size overflows"))
        } else {
            Ok(padded_len(len as nat) as u64)
        }),
{
    match len.checked_add(15) {
        Some(sum) => Ok((sum / 16) * 16),
        None => Err(Error::InvalidArgument("RAR 5 encrypted data size overflows")),
    }
}

/// Data ready for the cipher.
pub fn pad_for_cipher(data: &[u8]) -> (r: Result<Vec<u8>>)
    ensures
        bytes_result(r) == (if data@.len() + 15 > usize::MAX {
            Err::<Seq<u8>, Error>(Error::InvalidArgument("RAR 5 encrypted data size overflows"))
        } else {
            Ok(padded(data@))
        }),
{
    let len: usize = data.len();
    match len.checked_add(15) {
        Some(sum) => Ok(copy_zero_padded(data, (sum / 16) * 16)),
        None => Err(Error::InvalidArgument("RAR 5 encrypted data size overflows")),
    }
}

/// Whether a cipher takes any padded data and keeps its length.
pub open spec fn is_cipher<C: Fn([u8; 16], Vec<u8>) -> Result<Vec<u8>>>(cipher: C) -> bool {
    &&& forall|iv: [u8; 16], plain: Vec<u8>| #[trigger] call_requires(cipher, (iv, plain))
    &&& forall|iv: [u8; 16], plain: Vec<u8>, sealed: Vec<u8>| #[trigger]
        call_ensures(cipher, (iv, plain), Ok::<Vec<u8>, Error>(sealed)) ==> sealed@.len()
            == plain@.len()
}

/// Whether `sealed` is what the cipher makes of `image` under `iv`, behind that
/// IV.
pub open spec fn is_sealed<C: Fn([u8; 16], Vec<u8>) -> Result<Vec<u8>>>(
    cipher: C,
    image: Seq<u8>,
    sealed: Seq<u8>,
) -> bool {
    exists|iv: [u8; 16], plain: Vec<u8>, body: Vec<u8>|
        plain@ == padded(image) && sealed == iv@ + body@ && #[trigger] call_ensures(
            cipher,
            (iv, plain),
            Ok::<Vec<u8>, Error>(body),
        )
}

/// Whether this is what comes of encrypting a header under an IV.
pub open spec fn is_sealed_under<C: Fn([u8; 16], Vec<u8>) -> Result<Vec<u8>>>(
    cipher: C,
    image: Seq<u8>,
    iv: [u8; 16],
    r: std::result::Result<Seq<u8>, Error>,
) -> bool {
    exists|plain: Vec<u8>, answer: Result<Vec<u8>>|
        plain@ == padded(image) && #[trigger] call_ensures(cipher, (iv, plain), answer) && r == (
        match answer {
            Ok(body) => Ok(iv@ + body@),
            Err(error) => Err(error),
        })
}

/// Encrypts a header under an IV: the IV, and behind it what the cipher makes of the
/// padded header. The length is known beforehand.
pub fn seal_header_under<C: Fn([u8; 16], Vec<u8>) -> Result<Vec<u8>>>(
    image: &[u8],
    iv: [u8; 16],
    cipher: &C,
) -> (r: Result<Vec<u8>>)
    requires
        is_cipher(*cipher),
        image@.len() + 31 <= isize::MAX,
    ensures
        is_sealed_under(*cipher, image@, iv, bytes_result(r)),
        r matches Ok(sealed) ==> is_sealed(*cipher, image@, sealed@) && sealed@.len()
            == emitted_len(image@.len(), true),
{
    let plain = match pad_for_cipher(image) {
        Ok(plain) => plain,
        Err(error) => {
            return Err(error);
        },
    };
    let ghost given = plain;
    let answer = cipher(iv, plain);
    let ghost told = answer;
    assert(call_ensures(*cipher, (iv, given), told));
    match answer {
        Ok(body) => {
            let mut sealed: Vec<u8> = Vec::new();
            push_all(&mut sealed, &iv);
            push_all(&mut sealed, &body);
            assert(sealed@ =~= iv@ + body@);
            Ok(sealed)
        },
        Err(error) => Err(error),
    }
}

/// Encrypts a header under a fresh IV.
pub fn seal_header<C: Fn([u8; 16], Vec<u8>) -> Result<Vec<u8>>>(image: &[u8], cipher: &C) -> (r:
    Result<Vec<u8>>)
    requires
        is_cipher(*cipher),
    ensures
        image@.len() + 31 > isize::MAX ==> r == Err::<Vec<u8>, Error>(
            Error::InvalidArgument("RAR 5 header size overflows"),
        ),
        image@.len() + 31 <= isize::MAX ==> r == Err::<Vec<u8>, Error>(iv_error()) || exists|
            iv: [u8; 16],
        | #[trigger] is_sealed_under(*cipher, image@, iv, bytes_result(r)),
        r matches Ok(sealed) ==> is_sealed(*cipher, image@, sealed@) && sealed@.len()
            == emitted_len(image@.len(), true),
{
    let len: usize = image.len();
    if len as u128 + 31 > isize::MAX as u128 {
        return Err(Error::InvalidArgument("RAR 5 header size overflows"));
    }
    match fresh_iv() {
        Ok(iv) => seal_header_under(image, iv, cipher),
        Err(error) => Err(error),
    }
}

/// What a key derivation yields for one payload: the value that lets a reader
/// check the password, and the keyed checksum and hash of the plain data.
#[derive(Debug, Clone, Copy)]
pub struct PayloadKeys {
    pub check_value: [u8; 12],
    pub crc32_mac: u32,
    pub blake2sp_mac: [u8; 32],
}

/// An encrypted payload and what its header has to say about it.
#[derive(Debug)]
pub struct EncryptedStoredPayload {
    pub data: Vec<u8>,
    pub salt: [u8; 16],
    pub iv: [u8; 16],
    pub check_value: [u8; 12],
    pub crc32_mac: u32,
    pub blake2sp_mac: [u8; 32],
}

/// Whether a derivation takes any password, salt and integrity values.
pub open spec fn is_derivation<D: Fn(&[u8], [u8; 16], u32, [u8; 32]) -> Result<PayloadKeys>>(
    derive: D,
) -> bool {
    forall|password: &[u8], salt: [u8; 16], checksum: u32, hash: [u8; 32]| #[trigger]
        call_requires(derive, (password, salt, checksum, hash))
}

/// Whether a keyed cipher takes any padded data and keeps its length.
pub open spec fn is_payload_cipher<C: Fn(&[u8], [u8; 16], [u8; 16], Vec<u8>) -> Result<Vec<u8>>>(
    cipher: C,
) -> bool {
    &&& forall|password: &[u8], salt: [u8; 16], iv: [u8; 16], plain: Vec<u8>| #[trigger]
        call_requires(cipher, (password, salt, iv, plain))
    &&& forall|
        password: &[u8],
        salt: [u8; 16],
        iv: [u8; 16],
        plain: Vec<u8>,
        sealed: Vec<u8>,
    | #[trigger]
        call_ensures(cipher, (password, salt, iv, plain), Ok::<Vec<u8>, Error>(sealed))
            ==> sealed@.len() == plain@.len()
}

/// What is encrypted: the data, and the checksum and the hash of what it stands
/// for, under a password.
pub struct Sealing {
    pub password: Seq<u8>,
    pub checksum: u32,
    pub hash: [u8; 32],
    pub data: Seq<u8>,
}

/// Whether a derivation may give these keys.
pub open spec fn derives_to<D: Fn(&[u8], [u8; 16], u32, [u8; 32]) -> Result<PayloadKeys>>(
    derive: D,
    sealing: Sealing,
    salt: [u8; 16],
    r: Result<PayloadKeys>,
) -> bool {
    exists|key: &[u8]|
        key@ == sealing.password && #[trigger] call_ensures(
            derive,
            (key, salt, sealing.checksum, sealing.hash),
            r,
        )
}

/// Whether a cipher may give this of the padded data.
pub open spec fn enciphers_to<C: Fn(&[u8], [u8; 16], [u8; 16], Vec<u8>) -> Result<Vec<u8>>>(
    cipher: C,
    sealing: Sealing,
    salt: [u8; 16],
    iv: [u8; 16],
    r: Result<Vec<u8>>,
) -> bool {
    exists|key: &[u8], plain: Vec<u8>|
        key@ == sealing.password && plain@ == padded(sealing.data) && #[trigger] call_ensures(
            cipher,
            (key, salt, iv, plain),
            r,
        )
}

/// Whether a payload is what derivation and cipher make of some data under the
/// payload's own salt and IV.
pub open spec fn is_encryption_of<
    D: Fn(&[u8], [u8; 16], u32, [u8; 32]) -> Result<PayloadKeys>,
    C: Fn(&[u8], [u8; 16], [u8; 16], Vec<u8>) -> Result<Vec<u8>>,
>(derive: D, cipher: C, sealing: Sealing, payload: EncryptedStoredPayload) -> bool {
    &&& derives_to(
        derive,
        sealing,
        payload.salt,
        Ok::<PayloadKeys, Error>(
            PayloadKeys {
                check_value: payload.check_value,
                crc32_mac: payload.crc32_mac,
                blake2sp_mac: payload.blake2sp_mac,
            },
        ),
    )
    &&& enciphers_to(
        cipher,
        sealing,
        payload.salt,
        payload.iv,
        Ok::<Vec<u8>, Error>(payload.data),
    )
    &&& payload.data@.len() == padded_len(sealing.data.len())
}

/// Whether this is what comes of encrypting some data under a salt and an IV.
pub open spec fn is_encrypted_under<
    D: Fn(&[u8], [u8; 16], u32, [u8; 32]) -> Result<PayloadKeys>,
    C: Fn(&[u8], [u8; 16], [u8; 16], Vec<u8>) -> Result<Vec<u8>>,
>(
    derive: D,
    cipher: C,
    sealing: Sealing,
    salt: [u8; 16],
    iv: [u8; 16],
    r: Result<EncryptedStoredPayload>,
) -> bool {
    match r {
        Ok(payload) => payload.salt == salt && payload.iv == iv && is_encryption_of(
            derive,
            cipher,
            sealing,
            payload,
        ),
        Err(error) => {
            ||| derives_to(derive, sealing, salt, Err::<PayloadKeys, Error>(error))
            ||| sealing.data.len() + 15 > usize::MAX && error == Error::InvalidHeader(
                "RAR 5 encrypted data size overflows",
            )
            ||| enciphers_to(cipher, sealing, salt, iv, Err::<Vec<u8>, Error>(error))
        },
    }
}

/// Whether this is what comes of encrypting some data with what was drawn for it.
pub open spec fn is_encrypted_by<
    D: Fn(&[u8], [u8; 16], u32, [u8; 32]) -> Result<PayloadKeys>,
    C: Fn(&[u8], [u8; 16], [u8; 16], Vec<u8>) -> Result<Vec<u8>>,
>(
    derive: D,
    cipher: C,
    sealing: Sealing,
    draw: Draw,
    r: Result<EncryptedStoredPayload>,
) -> bool {
    match (draw.salt, draw.iv) {
        (None, _) => r == Err::<EncryptedStoredPayload, Error>(salt_error()),
        (Some(_), None) => r == Err::<EncryptedStoredPayload, Error>(iv_error()),
        (Some(salt), Some(iv)) => is_encrypted_under(derive, cipher, sealing, salt, iv, r),
    }
}

/// Encrypts a payload under a salt and an IV. The keyed checksum and hash are of what
/// the payload stands for, which compression may have changed.
pub fn encrypted_payload_under<
    D: Fn(&[u8], [u8; 16], u32, [u8; 32]) -> Result<PayloadKeys>,
    C: Fn(&[u8], [u8; 16], [u8; 16], Vec<u8>) -> Result<Vec<u8>>,
>(
    packed_data: &[u8],
    checksum: u32,
    hash: [u8; 32],
    password: &[u8],
    salt: [u8; 16],
    iv: [u8; 16],
    derive: &D,
    cipher: &C,
) -> (r: Result<EncryptedStoredPayload>)
    requires
        is_derivation(*derive),
        is_payload_cipher(*cipher),
    ensures
        is_encrypted_under(
            *derive,
            *cipher,
            (Sealing { password: password@, checksum, hash, data: packed_data@ }),
            salt,
            iv,
            r,
        ),
{
    let ghost sealing = Sealing { password: password@, checksum, hash, data: packed_data@ };
    let keys = match derive(password, salt, checksum, hash) {
        Ok(keys) => keys,
        Err(error) => {
            assert(derives_to(*derive, sealing, salt, Err::<PayloadKeys, Error>(error)));
            return Err(error);
        },
    };
    let plain = match pad_for_cipher(packed_data) {
        Ok(plain) => plain,
        Err(_) => {
            return Err(Error::InvalidHeader("RAR 5 encrypted data size overflows"));
        },
    };
    let ghost given = plain;
    match cipher(password, salt, iv, plain) {
        Ok(data) => {
            let payload = EncryptedStoredPayload {
                data,
                salt,
                iv,
                check_value: keys.check_value,
                crc32_mac: keys.crc32_mac,
                blake2sp_mac: keys.blake2sp_mac,
            };
            assert(call_ensures(
                *cipher,
                (password, payload.salt, payload.iv, given),
                Ok::<Vec<u8>, Error>(payload.data),
            ));
            assert(call_ensures(
                *derive,
                (password, salt, checksum, hash),
                Ok::<PayloadKeys, Error>(keys),
            ));
            assert(keys == (PayloadKeys {
                check_value: payload.check_value,
                crc32_mac: payload.crc32_mac,
                blake2sp_mac: payload.blake2sp_mac,
            }));
            Ok(payload)
        },
        Err(error) => {
            assert(call_ensures(*cipher, (password, salt, iv, given), Err::<Vec<u8>, Error>(error)));
            assert(enciphers_to(*cipher, sealing, salt, iv, Err::<Vec<u8>, Error>(error)));
            Err(error)
        },
    }
}

/// Encrypts a payload with what was drawn for it.
pub fn encrypted_payload_by<
    D: Fn(&[u8], [u8; 16], u32, [u8; 32]) -> Result<PayloadKeys>,
    C: Fn(&[u8], [u8; 16], [u8; 16], Vec<u8>) -> Result<Vec<u8>>,
>(
    packed_data: &[u8],
    checksum: u32,
    hash: [u8; 32],
    password: &[u8],
    draw: Draw,
    derive: &D,
    cipher: &C,
) -> (r: Result<EncryptedStoredPayload>)
    requires
        is_derivation(*derive),
        is_payload_cipher(*cipher),
    ensures
        is_encrypted_by(
            *derive,
            *cipher,
            (Sealing { password: password@, checksum, hash, data: packed_data@ }),
            draw,
            r,
        ),
{
    let salt = match fresh_or_refused(
        draw.salt,
        "RAR 5 writer could not generate encryption salt",
    ) {
        Ok(salt) => salt,
        Err(error) => {
            return Err(error);
        },
    };
    let iv = match fresh_or_refused(draw.iv, "RAR 5 writer could not generate encryption IV") {
        Ok(iv) => iv,
        Err(error) => {
            return Err(error);
        },
    };
    encrypted_payload_under(packed_data, checksum, hash, password, salt, iv, derive, cipher)
}

/// Encrypts a payload under a fresh salt and IV.
pub fn encrypted_payload<
    D: Fn(&[u8], [u8; 16], u32, [u8; 32]) -> Result<PayloadKeys>,
    C: Fn(&[u8], [u8; 16], [u8; 16], Vec<u8>) -> Result<Vec<u8>>,
>(
    packed_data: &[u8],
    checksum: u32,
    hash: [u8; 32],
    password: &[u8],
    derive: &D,
    cipher: &C,
) -> (r: Result<EncryptedStoredPayload>)
    requires
        is_derivation(*derive),
        is_payload_cipher(*cipher),
    ensures
        exists|draw: Draw| #[trigger]
            is_encrypted_by(
                *derive,
                *cipher,
                (Sealing { password: password@, checksum, hash, data: packed_data@ }),
                draw,
                r,
            ),
{
    let draw = Draw::new(true);
    encrypted_payload_by(packed_data, checksum, hash, password, draw, derive, cipher)
}

/// How much of a payload is encrypted at a time.
pub const ENCRYPT_CHUNK: usize = 0x1_0000;

/// The size of the pieces that a payload is encrypted in: whole cipher blocks,
/// one at least.
pub open spec fn chunk_size_of(block_size: nat) -> nat {
    if block_size < 16 {
        16
    } else {
        (block_size / 16) * 16
    }
}

/// The pieces that a payload is encrypted in, the last one filled up with
/// zeros. An empty payload has none.
pub open spec fn cipher_chunks(data: Seq<u8>, chunk_size: nat) -> Seq<Seq<u8>>
    decreases data.len(),
{
    if chunk_size == 0 || data.len() == 0 {
        Seq::empty()
    } else if data.len() < chunk_size {
        seq![padded(data)]
    } else {
        seq![data.take(chunk_size as int)] + cipher_chunks(data.skip(chunk_size as int), chunk_size)
    }
}

/// Pieces put together.
pub open spec fn joined_chunks(chunks: Seq<Seq<u8>>) -> Seq<u8>
    decreases chunks.len(),
{
    if chunks.len() == 0 {
        Seq::empty()
    } else {
        chunks[0] + joined_chunks(chunks.skip(1))
    }
}

/// Cutting a payload up for the cipher changes nothing of what is encrypted:
/// put together, the pieces are the padded payload.
pub proof fn law_chunks_join_to_the_padded_payload(data: Seq<u8>, chunk_size: nat)
    requires
        chunk_size > 0,
        chunk_size % 16 == 0,
    ensures
        joined_chunks(cipher_chunks(data, chunk_size)) == padded(data),
    decreases data.len(),
{
    let chunks = cipher_chunks(data, chunk_size);
    if data.len() == 0 {
        assert(padded(data) =~= Seq::empty());
    } else if data.len() < chunk_size {
        assert(chunks.skip(1) =~= Seq::empty());
        assert(joined_chunks(chunks.skip(1)) =~= Seq::empty());
        assert(chunks[0] + Seq::<u8>::empty() =~= chunks[0]);
    } else {
        let rest = data.skip(chunk_size as int);
        law_chunks_join_to_the_padded_payload(rest, chunk_size);
        assert(chunks.skip(1) =~= cipher_chunks(rest, chunk_size));
        assert(padded_len(data.len()) == chunk_size + padded_len(rest.len())) by {
            assert((data.len() + 15) / 16 == chunk_size / 16 + (rest.len() + 15) / 16);
        }
        assert(data.take(chunk_size as int) + padded(rest) =~= padded(data));
    }
}

/// The size of the pieces for a given buffer.
pub fn encrypt_chunk_size(block_size: usize) -> (size: usize)
    ensures
        size == chunk_size_of(block_size as nat),
        size > 0,
        size % 16 == 0,
{
    if block_size < 16 {
        16
    } else {
        (block_size / 16) * 16
    }
}

/// How many bytes an encryption holds at a time: a small payload is done in
/// one piece of its own size.
pub open spec fn encrypt_buffer_of(data_len: nat) -> nat {
    if data_len == 0 {
        16
    } else if data_len < ENCRYPT_CHUNK {
        padded_len(data_len)
    } else {
        ENCRYPT_CHUNK as nat
    }
}

pub fn encrypt_buffer_size(data_len: usize) -> (size: usize)
    ensures
        size == encrypt_buffer_of(data_len as nat),
{
    if data_len == 0 {
        16
    } else if data_len < ENCRYPT_CHUNK {
        ((data_len + 15) / 16) * 16
    } else {
        ENCRYPT_CHUNK
    }
}

/// The piece to encrypt next when `done` bytes of the payload are behind, or
/// none at the end.
pub fn next_cipher_chunk(data: &[u8], done: usize, chunk_size: usize) -> (chunk: Option<Vec<u8>>)
    requires
        done <= data@.len(),
        0 < chunk_size <= 0x4000_0000,
        chunk_size % 16 == 0,
    ensures
        match chunk {
            Some(chunk) => cipher_chunks(data@.skip(done as int), chunk_size as nat).len() > 0
                && chunk@ == cipher_chunks(data@.skip(done as int), chunk_size as nat)[0],
            None => cipher_chunks(data@.skip(done as int), chunk_size as nat).len() == 0,
        },
{
    let total: usize = data.len();
    let left: usize = total - done;
    let ghost rest = data@.skip(done as int);
    if left == 0 {
        return None;
    }
    if left < chunk_size {
        let piece = vstd::slice::slice_subrange(data, done, total);
        assert(piece@ =~= rest);
        return Some(copy_zero_padded(piece, ((left + 15) / 16) * 16));
    }
    let piece = vstd::slice::slice_subrange(data, done, done + chunk_size);
    assert(piece@ =~= rest.take(chunk_size as int));
    Some(copy_bytes(piece))
}

} // verus!
