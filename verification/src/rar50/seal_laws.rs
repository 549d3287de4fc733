//! What encrypting comments and services comes to.

use vstd::prelude::*;

#[allow(unused_imports)]
use crate::crc32::crc32_of;
#[allow(unused_imports)]
use crate::error::{Error, Result};
#[allow(unused_imports)]
use crate::rar50::archive_walk::is_whole;
#[allow(unused_imports)]
use crate::rar50::blocks::CompressedMember;
#[allow(unused_imports)]
use crate::rar50::encryption::{
    derives_to, enciphers_to, is_encrypted_by, padded, Draw, EncryptedStoredPayload, PayloadKeys,
};
#[allow(unused_imports)]
use crate::rar50::engine::MemberWork;
#[allow(unused_imports)]
use crate::rar50::entry::{ArchiveEntry, ArchiveExtras};
#[allow(unused_imports)]
use crate::rar50::read_back::is_ciphertext_of;
#[allow(unused_imports)]
use crate::rar50::sealing::{
    is_comment_seal, is_data_seal, is_service_seal, is_work_of, may_hash, plain_sealing,
    MemberDraws, Sealer,
};

verus! {

/// Whether these keys are what key derivation made of a password, a salt, and the checksum
/// and the hash of the data itself.
pub open spec fn are_keys_of<
    H: Fn(&[u8]) -> [u8; 32],
    D: Fn(&[u8], [u8; 16], u32, [u8; 32]) -> Result<PayloadKeys>,
    C: Fn(&[u8], [u8; 16], [u8; 16], Vec<u8>) -> Result<Vec<u8>>,
>(
    sealer: Sealer<H, D, C>,
    password: Seq<u8>,
    salt: [u8; 16],
    data: Seq<u8>,
    keys: PayloadKeys,
) -> bool {
    exists|key: &[u8], held: &[u8], digest: [u8; 32]|
        key@ == password && held@ == data && #[trigger] call_ensures(
            sealer.hash,
            (held,),
            digest,
        ) && #[trigger] call_ensures(
            sealer.derive,
            (key, salt, crc32_of(data), digest),
            Ok::<PayloadKeys, Error>(keys),
        )
}

/// Whether a payload is data encrypted under a password with what was drawn for it.
pub open spec fn is_sealed_data<
    H: Fn(&[u8]) -> [u8; 32],
    D: Fn(&[u8], [u8; 16], u32, [u8; 32]) -> Result<PayloadKeys>,
    C: Fn(&[u8], [u8; 16], [u8; 16], Vec<u8>) -> Result<Vec<u8>>,
>(
    sealer: Sealer<H, D, C>,
    password: Seq<u8>,
    data: Seq<u8>,
    draw: Draw,
    payload: EncryptedStoredPayload,
) -> bool {
    &&& draw.salt == Some(payload.salt)
    &&& draw.iv == Some(payload.iv)
    &&& are_keys_of(
        sealer,
        password,
        payload.salt,
        data,
        PayloadKeys {
            check_value: payload.check_value,
            crc32_mac: payload.crc32_mac,
            blake2sp_mac: payload.blake2sp_mac,
        },
    )
    &&& exists|key: &[u8]|
        key@ == password && #[trigger] is_ciphertext_of(
            sealer.cipher,
            key,
            payload.salt,
            payload.iv,
            data,
            payload.data@,
        )
}

/// Data that stands for itself is encrypted under its password: keys from the salt that was
/// drawn, its own checksum and its own hash; ciphertext of all of it, filled up with zeros,
/// under the same salt and the IV.
pub proof fn law_data_is_sealed_under_its_password<
    H: Fn(&[u8]) -> [u8; 32],
    D: Fn(&[u8], [u8; 16], u32, [u8; 32]) -> Result<PayloadKeys>,
    C: Fn(&[u8], [u8; 16], [u8; 16], Vec<u8>) -> Result<Vec<u8>>,
>(
    sealer: Sealer<H, D, C>,
    password: Seq<u8>,
    data: Seq<u8>,
    draw: Draw,
    payload: EncryptedStoredPayload,
)
    requires
        is_data_seal(
            sealer,
            password,
            data,
            draw,
            Ok::<EncryptedStoredPayload, Error>(payload),
        ),
    ensures
        is_sealed_data(sealer, password, data, draw, payload),
        is_whole(data, Some(payload)),
{
    let digest = choose|digest: [u8; 32]| #[trigger]
        may_hash(sealer.hash, data, digest) && is_encrypted_by(
            sealer.derive,
            sealer.cipher,
            plain_sealing(password, data, digest),
            draw,
            Ok::<EncryptedStoredPayload, Error>(payload),
        );
    let held = choose|held: &[u8]|
        held@ == data && #[trigger] call_ensures(sealer.hash, (held,), digest);
    let sealing = plain_sealing(password, data, digest);
    let keys = PayloadKeys {
        check_value: payload.check_value,
        crc32_mac: payload.crc32_mac,
        blake2sp_mac: payload.blake2sp_mac,
    };
    assert(derives_to(sealer.derive, sealing, payload.salt, Ok::<PayloadKeys, Error>(keys)));
    let key = choose|key: &[u8]|
        key@ == sealing.password && #[trigger] call_ensures(
            sealer.derive,
            (key, payload.salt, sealing.checksum, sealing.hash),
            Ok::<PayloadKeys, Error>(keys),
        );
    assert(call_ensures(sealer.hash, (held,), digest));
    assert(call_ensures(
        sealer.derive,
        (key, payload.salt, crc32_of(data), digest),
        Ok::<PayloadKeys, Error>(keys),
    ));
    assert(are_keys_of(sealer, password, payload.salt, data, keys));
    assert(enciphers_to(
        sealer.cipher,
        sealing,
        payload.salt,
        payload.iv,
        Ok::<Vec<u8>, Error>(payload.data),
    ));
    let (other, plain) = choose|key: &[u8], plain: Vec<u8>|
        key@ == sealing.password && plain@ == padded(sealing.data) && #[trigger] call_ensures(
            sealer.cipher,
            (key, payload.salt, payload.iv, plain),
            Ok::<Vec<u8>, Error>(payload.data),
        );
    assert(call_ensures(
        sealer.cipher,
        (other, payload.salt, payload.iv, plain),
        Ok::<Vec<u8>, Error>(payload.data),
    ));
    assert(is_ciphertext_of(
        sealer.cipher,
        other,
        payload.salt,
        payload.iv,
        data,
        payload.data@,
    ));
}

/// A member's service is encrypted if and only if it has a password, and under that.
pub proof fn law_services_are_sealed_under_their_password<
    H: Fn(&[u8]) -> [u8; 32],
    D: Fn(&[u8], [u8; 16], u32, [u8; 32]) -> Result<PayloadKeys>,
    C: Fn(&[u8], [u8; 16], [u8; 16], Vec<u8>) -> Result<Vec<u8>>,
>(
    sealer: Sealer<H, D, C>,
    entry: ArchiveEntry,
    member: CompressedMember,
    draws: MemberDraws,
    work: MemberWork,
    k: int,
)
    requires
        is_work_of(sealer, entry, member, draws, work),
        0 <= k < entry.services@.len(),
    ensures
        work.services@.len() == entry.services@.len(),
        work.services@[k] is Some <==> entry.services@[k].password is Some,
        entry.services@[k].password matches Some(password) ==> is_sealed_data(
            sealer,
            password@,
            entry.services@[k].data@,
            draws.services@[k],
            work.services@[k]->0,
        ),
        is_whole(entry.services@[k].data@, work.services@[k]),
{
    let service = entry.services@[k];
    assert(is_service_seal(sealer, service, draws.services@[k], work.services@[k]));
    if let Some(password) = service.password {
        law_data_is_sealed_under_its_password(
            sealer,
            password@,
            service.data@,
            draws.services@[k],
            work.services@[k]->0,
        );
    }
}

/// An archive's comment is encrypted if and only if there is one and it has a password, and
/// under that.
pub proof fn law_comments_are_sealed_under_their_password<
    H: Fn(&[u8]) -> [u8; 32],
    D: Fn(&[u8], [u8; 16], u32, [u8; 32]) -> Result<PayloadKeys>,
    C: Fn(&[u8], [u8; 16], [u8; 16], Vec<u8>) -> Result<Vec<u8>>,
>(
    sealer: Sealer<H, D, C>,
    extras: ArchiveExtras<'_>,
    draw: Draw,
    sealed: Option<EncryptedStoredPayload>,
)
    requires
        is_comment_seal(sealer, extras, draw, sealed),
    ensures
        sealed is Some <==> extras.comment is Some && extras.comment_password is Some,
        sealed matches Some(payload) ==> is_sealed_data(
            sealer,
            extras.comment_password->0@,
            extras.comment->0@,
            draw,
            payload,
        ) && is_whole(extras.comment->0@, sealed),
{
    if let Some(payload) = sealed {
        law_data_is_sealed_under_its_password(
            sealer,
            extras.comment_password->0@,
            extras.comment->0@,
            draw,
            payload,
        );
    }
}

} // verus!
