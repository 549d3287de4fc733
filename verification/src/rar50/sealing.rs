//! Encrypting what an archive holds under passwords: members, services and the
//! archive comment, each under a salt and an IV of its own.

use vstd::prelude::*;

use crate::crc32::crc32;
#[allow(unused_imports)]
use crate::crc32::crc32_of;
use crate::error::{Error, Result};
use crate::rar50::blocks::CompressedMember;
use crate::rar50::encryption::{
    encrypted_payload_by, fresh_salt, Draw, EncryptedStoredPayload, PayloadKeys,
};
#[allow(unused_imports)]
use crate::rar50::encryption::{
    is_derivation, is_encrypted_by, is_payload_cipher, salt_error, Sealing,
};
use crate::rar50::engine::{no_work, HeaderKeys, MemberWork};
use crate::rar50::entry::{ArchiveEntry, ArchiveExtras, ServiceEntry};
#[allow(unused_imports)]
use crate::rar50::options::WriterOptions;
use crate::rar50::writer::PreparedWork;

verus! {

/// The keys that the headers of an archive are encrypted with under a salt: the
/// salt, and the value that lets a reader check the password.
pub fn header_encryption_keys_under<D: Fn(&[u8], [u8; 16]) -> Result<[u8; 12]>>(
    password: &[u8],
    salt: [u8; 16],
    derive: &D,
) -> (r: Result<HeaderKeys>)
    requires
        call_requires(*derive, (password, salt)),
    ensures
        match r {
            Ok(keys) => keys.salt == salt && call_ensures(
                *derive,
                (password, salt),
                Ok::<[u8; 12], Error>(keys.check_value),
            ),
            Err(error) => call_ensures(
                *derive,
                (password, salt),
                Err::<[u8; 12], Error>(error),
            ),
        },
{
    match derive(password, salt) {
        Ok(check_value) => Ok(HeaderKeys { salt, check_value }),
        Err(error) => Err(error),
    }
}

/// The keys that the headers of an archive are encrypted with, under a fresh salt.
pub fn header_encryption_keys<D: Fn(&[u8], [u8; 16]) -> Result<[u8; 12]>>(
    password: &[u8],
    derive: &D,
) -> (r: Result<HeaderKeys>)
    requires
        forall|salt: [u8; 16]| #[trigger] call_requires(*derive, (password, salt)),
    ensures
        match r {
            Ok(keys) => call_ensures(
                *derive,
                (password, keys.salt),
                Ok::<[u8; 12], Error>(keys.check_value),
            ),
            Err(error) => error == salt_error() || exists|salt: [u8; 16]| #[trigger]
                call_ensures(*derive, (password, salt), Err::<[u8; 12], Error>(error)),
        },
{
    match fresh_salt() {
        Ok(salt) => header_encryption_keys_under(password, salt, derive),
        Err(error) => Err(error),
    }
}

/// What encrypts payloads: a hash, a key derivation and a cipher.
pub struct Sealer<H, D, C> {
    pub hash: H,
    pub derive: D,
    pub cipher: C,
}

/// Whether a sealer takes anything it can be given.
pub open spec fn is_sealer<
    H: Fn(&[u8]) -> [u8; 32],
    D: Fn(&[u8], [u8; 16], u32, [u8; 32]) -> Result<PayloadKeys>,
    C: Fn(&[u8], [u8; 16], [u8; 16], Vec<u8>) -> Result<Vec<u8>>,
>(sealer: Sealer<H, D, C>) -> bool {
    &&& forall|held: &[u8]| #[trigger] call_requires(sealer.hash, (held,))
    &&& is_derivation(sealer.derive)
    &&& is_payload_cipher(sealer.cipher)
}

/// Whether data may have this hash.
pub open spec fn may_hash<H: Fn(&[u8]) -> [u8; 32]>(
    hash: H,
    data: Seq<u8>,
    digest: [u8; 32],
) -> bool {
    exists|held: &[u8]| held@ == data && #[trigger] call_ensures(hash, (held,), digest)
}

/// What is encrypted of data that stands for itself.
pub open spec fn plain_sealing(password: Seq<u8>, data: Seq<u8>, digest: [u8; 32]) -> Sealing {
    Sealing { password, checksum: crc32_of(data), hash: digest, data }
}

/// What was drawn for a member: for its payload, and for each of its services.
#[derive(Debug)]
pub struct MemberDraws {
    pub payload: Draw,
    pub services: Vec<Draw>,
}

/// What was drawn for all that a request has to encrypt.
#[derive(Debug)]
pub struct WorkDraws {
    pub comment: Draw,
    pub members: Vec<MemberDraws>,
}

impl WorkDraws {
    /// Whether there is a draw for each member and each service.
    pub open spec fn suit(self, entries: Seq<ArchiveEntry>) -> bool {
        &&& self.members@.len() == entries.len()
        &&& forall|i: int|
            0 <= i < entries.len() ==> (#[trigger] self.members@[i]).services@.len()
                == entries[i].services@.len()
    }

    /// Draws for everything that has a password. Which bytes come, and whether any
    /// do, is chance.
    pub fn new(entries: &[ArchiveEntry], extras: &ArchiveExtras<'_>) -> (draws: WorkDraws)
        ensures
            draws.suit(entries@),
    {
        let mut members: Vec<MemberDraws> = Vec::new();
        while members.len() < entries.len()
            invariant
                members@.len() <= entries@.len(),
                forall|i: int|
                    0 <= i < members@.len() ==> (#[trigger] members@[i]).services@.len()
                        == entries@[i].services@.len(),
            decreases entries@.len() - members@.len(),
        {
            let entry: &ArchiveEntry = &entries[members.len()];
            let mut services: Vec<Draw> = Vec::new();
            while services.len() < entry.services.len()
                invariant
                    services@.len() <= entry.services@.len(),
                decreases entry.services@.len() - services@.len(),
            {
                services.push(Draw::new(entry.services[services.len()].password.is_some()));
            }
            members.push(MemberDraws { payload: Draw::new(entry.password.is_some()), services });
        }
        WorkDraws { comment: Draw::new(extras.comment_password.is_some()), members }
    }
}

/// What comes of encrypting data that stands for itself.
pub open spec fn is_data_seal<
    H: Fn(&[u8]) -> [u8; 32],
    D: Fn(&[u8], [u8; 16], u32, [u8; 32]) -> Result<PayloadKeys>,
    C: Fn(&[u8], [u8; 16], [u8; 16], Vec<u8>) -> Result<Vec<u8>>,
>(
    sealer: Sealer<H, D, C>,
    password: Seq<u8>,
    data: Seq<u8>,
    draw: Draw,
    r: Result<EncryptedStoredPayload>,
) -> bool {
    exists|digest: [u8; 32]| #[trigger]
        may_hash(sealer.hash, data, digest) && is_encrypted_by(
            sealer.derive,
            sealer.cipher,
            plain_sealing(password, data, digest),
            draw,
            r,
        )
}

/// Encrypts data that stands for itself, such as a comment, with what was drawn for
/// it.
pub fn seal_data_by<
    H: Fn(&[u8]) -> [u8; 32],
    D: Fn(&[u8], [u8; 16], u32, [u8; 32]) -> Result<PayloadKeys>,
    C: Fn(&[u8], [u8; 16], [u8; 16], Vec<u8>) -> Result<Vec<u8>>,
>(
    data: &[u8],
    password: &[u8],
    draw: Draw,
    sealer: &Sealer<H, D, C>,
) -> (r: Result<EncryptedStoredPayload>)
    requires
        is_sealer(*sealer),
    ensures
        is_data_seal(*sealer, password@, data@, draw, r),
{
    let hash = &sealer.hash;
    let digest: [u8; 32] = hash(data);
    assert(call_ensures(sealer.hash, (data,), digest));
    assert(may_hash(sealer.hash, data@, digest));
    encrypted_payload_by(
        data,
        crc32(data),
        digest,
        password,
        draw,
        &sealer.derive,
        &sealer.cipher,
    )
}

/// Encrypts data that stands for itself under a fresh salt and IV.
pub fn seal_data<
    H: Fn(&[u8]) -> [u8; 32],
    D: Fn(&[u8], [u8; 16], u32, [u8; 32]) -> Result<PayloadKeys>,
    C: Fn(&[u8], [u8; 16], [u8; 16], Vec<u8>) -> Result<Vec<u8>>,
>(data: &[u8], password: &[u8], sealer: &Sealer<H, D, C>) -> (r: Result<EncryptedStoredPayload>)
    requires
        is_sealer(*sealer),
    ensures
        exists|draw: Draw| #[trigger] is_data_seal(*sealer, password@, data@, draw, r),
{
    let draw = Draw::new(true);
    seal_data_by(data, password, draw, sealer)
}

/// Whether a service is encrypted where it has a password, and only there.
pub open spec fn is_service_seal<
    H: Fn(&[u8]) -> [u8; 32],
    D: Fn(&[u8], [u8; 16], u32, [u8; 32]) -> Result<PayloadKeys>,
    C: Fn(&[u8], [u8; 16], [u8; 16], Vec<u8>) -> Result<Vec<u8>>,
>(
    sealer: Sealer<H, D, C>,
    service: ServiceEntry,
    draw: Draw,
    sealed: Option<EncryptedStoredPayload>,
) -> bool {
    match (service.password, sealed) {
        (None, None) => true,
        (Some(password), Some(payload)) => is_data_seal(
            sealer,
            password@,
            service.data@,
            draw,
            Ok::<EncryptedStoredPayload, Error>(payload),
        ),
        _ => false,
    }
}

/// Whether encrypting a service may fail with this error.
pub open spec fn is_service_error<
    H: Fn(&[u8]) -> [u8; 32],
    D: Fn(&[u8], [u8; 16], u32, [u8; 32]) -> Result<PayloadKeys>,
    C: Fn(&[u8], [u8; 16], [u8; 16], Vec<u8>) -> Result<Vec<u8>>,
>(sealer: Sealer<H, D, C>, service: ServiceEntry, draw: Draw, error: Error) -> bool {
    service.password matches Some(password) && is_data_seal(
        sealer,
        password@,
        service.data@,
        draw,
        Err::<EncryptedStoredPayload, Error>(error),
    )
}

fn seal_services<
    H: Fn(&[u8]) -> [u8; 32],
    D: Fn(&[u8], [u8; 16], u32, [u8; 32]) -> Result<PayloadKeys>,
    C: Fn(&[u8], [u8; 16], [u8; 16], Vec<u8>) -> Result<Vec<u8>>,
>(services: &Vec<ServiceEntry>, draws: &Vec<Draw>, sealer: &Sealer<H, D, C>) -> (r: Result<
    Vec<Option<EncryptedStoredPayload>>,
>)
    requires
        is_sealer(*sealer),
        draws@.len() == services@.len(),
    ensures
        match r {
            Ok(seals) => seals@.len() == services@.len() && forall|k: int|
                0 <= k < services@.len() ==> is_service_seal(
                    *sealer,
                    services@[k],
                    draws@[k],
                    #[trigger] seals@[k],
                ),
            Err(error) => exists|k: int|
                0 <= k < services@.len() && is_service_error(
                    *sealer,
                    #[trigger] services@[k],
                    draws@[k],
                    error,
                ),
        },
{
    let mut seals: Vec<Option<EncryptedStoredPayload>> = Vec::new();
    while seals.len() < services.len()
        invariant
            is_sealer(*sealer),
            draws@.len() == services@.len(),
            seals@.len() <= services@.len(),
            forall|k: int|
                0 <= k < seals@.len() ==> is_service_seal(
                    *sealer,
                    services@[k],
                    draws@[k],
                    #[trigger] seals@[k],
                ),
        decreases services@.len() - seals@.len(),
    {
        let at: usize = seals.len();
        let service: &ServiceEntry = &services[at];
        let sealed: Option<EncryptedStoredPayload> = match &service.password {
            None => None,
            Some(password) => match seal_data_by(&service.data, password, draws[at], sealer) {
                Ok(payload) => Some(payload),
                Err(error) => {
                    assert(is_service_error(*sealer, services@[at as int], draws@[at as int], error));
                    return Err(error);
                },
            },
        };
        assert(is_service_seal(*sealer, services@[at as int], draws@[at as int], sealed));
        seals.push(sealed);
    }
    Ok(seals)
}

/// What is encrypted of a member: its payload, with the checksum and the hash of
/// the member itself.
pub open spec fn member_sealing(password: Seq<u8>, member: CompressedMember) -> Sealing {
    Sealing {
        password,
        checksum: member.crc32,
        hash: member.hash,
        data: member.packed@,
    }
}

/// Whether this is the work on a member: the member as it was compressed, and
/// what passwords ask to be encrypted.
pub open spec fn is_work_of<
    H: Fn(&[u8]) -> [u8; 32],
    D: Fn(&[u8], [u8; 16], u32, [u8; 32]) -> Result<PayloadKeys>,
    C: Fn(&[u8], [u8; 16], [u8; 16], Vec<u8>) -> Result<Vec<u8>>,
>(
    sealer: Sealer<H, D, C>,
    entry: ArchiveEntry,
    member: CompressedMember,
    draws: MemberDraws,
    work: MemberWork,
) -> bool {
    &&& work.member == member
    &&& match (entry.password, work.sealed) {
        (None, None) => true,
        (Some(password), Some(payload)) => is_encrypted_by(
            sealer.derive,
            sealer.cipher,
            member_sealing(password@, member),
            draws.payload,
            Ok::<EncryptedStoredPayload, Error>(payload),
        ),
        _ => false,
    }
    &&& work.services@.len() == entry.services@.len()
    &&& forall|k: int|
        0 <= k < entry.services@.len() ==> is_service_seal(
            sealer,
            entry.services@[k],
            draws.services@[k],
            #[trigger] work.services@[k],
        )
}

/// Whether the work on a member may fail with this error.
pub open spec fn is_work_error<
    H: Fn(&[u8]) -> [u8; 32],
    D: Fn(&[u8], [u8; 16], u32, [u8; 32]) -> Result<PayloadKeys>,
    C: Fn(&[u8], [u8; 16], [u8; 16], Vec<u8>) -> Result<Vec<u8>>,
>(
    sealer: Sealer<H, D, C>,
    entry: ArchiveEntry,
    member: CompressedMember,
    draws: MemberDraws,
    error: Error,
) -> bool {
    ||| entry.password matches Some(password) && is_encrypted_by(
        sealer.derive,
        sealer.cipher,
        member_sealing(password@, member),
        draws.payload,
        Err::<EncryptedStoredPayload, Error>(error),
    )
    ||| exists|k: int|
        0 <= k < entry.services@.len() && is_service_error(
            sealer,
            #[trigger] entry.services@[k],
            draws.services@[k],
            error,
        )
}

/// Encrypts what a member and its services have passwords for, with what was drawn
/// for them.
pub fn seal_member_by<
    H: Fn(&[u8]) -> [u8; 32],
    D: Fn(&[u8], [u8; 16], u32, [u8; 32]) -> Result<PayloadKeys>,
    C: Fn(&[u8], [u8; 16], [u8; 16], Vec<u8>) -> Result<Vec<u8>>,
>(
    entry: &ArchiveEntry,
    member: CompressedMember,
    draws: &MemberDraws,
    sealer: &Sealer<H, D, C>,
) -> (r: Result<MemberWork>)
    requires
        is_sealer(*sealer),
        draws.services@.len() == entry.services@.len(),
    ensures
        match r {
            Ok(work) => is_work_of(*sealer, *entry, member, *draws, work),
            Err(error) => is_work_error(*sealer, *entry, member, *draws, error),
        },
{
    let sealed: Option<EncryptedStoredPayload> = match &entry.password {
        None => None,
        Some(password) => match encrypted_payload_by(
            &member.packed,
            member.crc32,
            member.hash,
            password,
            draws.payload,
            &sealer.derive,
            &sealer.cipher,
        ) {
            Ok(payload) => Some(payload),
            Err(error) => {
                return Err(error);
            },
        },
    };
    match seal_services(&entry.services, &draws.services, sealer) {
        Ok(services) => Ok(MemberWork { member, sealed, services }),
        Err(error) => Err(error),
    }
}

/// Whether the work on members is done, one for one.
pub open spec fn are_works_of<
    H: Fn(&[u8]) -> [u8; 32],
    D: Fn(&[u8], [u8; 16], u32, [u8; 32]) -> Result<PayloadKeys>,
    C: Fn(&[u8], [u8; 16], [u8; 16], Vec<u8>) -> Result<Vec<u8>>,
>(
    sealer: Sealer<H, D, C>,
    entries: Seq<ArchiveEntry>,
    members: Seq<CompressedMember>,
    draws: Seq<MemberDraws>,
    works: Seq<MemberWork>,
) -> bool {
    &&& works.len() == entries.len()
    &&& forall|i: int|
        0 <= i < works.len() ==> is_work_of(
            sealer,
            entries[i],
            members[i],
            draws[i],
            #[trigger] works[i],
        )
}

/// Encrypts what the members of an archive have passwords for, with what was drawn
/// for them.
pub fn seal_members_by<
    H: Fn(&[u8]) -> [u8; 32],
    D: Fn(&[u8], [u8; 16], u32, [u8; 32]) -> Result<PayloadKeys>,
    C: Fn(&[u8], [u8; 16], [u8; 16], Vec<u8>) -> Result<Vec<u8>>,
>(
    entries: &[ArchiveEntry],
    members: Vec<CompressedMember>,
    draws: &WorkDraws,
    sealer: &Sealer<H, D, C>,
) -> (r: Result<Vec<MemberWork>>)
    requires
        is_sealer(*sealer),
        members@.len() == entries@.len(),
        draws.suit(entries@),
    ensures
        match r {
            Ok(works) => are_works_of(*sealer, entries@, members@, draws.members@, works@),
            Err(error) => exists|i: int|
                0 <= i < entries@.len() && is_work_error(
                    *sealer,
                    #[trigger] entries@[i],
                    members@[i],
                    draws.members@[i],
                    error,
                ),
        },
{
    let ghost given = members@;
    let mut left = members;
    let mut works: Vec<MemberWork> = Vec::new();
    while works.len() < entries.len()
        invariant
            is_sealer(*sealer),
            draws.suit(entries@),
            given == members@,
            given.len() == entries@.len(),
            left@.len() == given.len(),
            works@.len() <= entries@.len(),
            forall|i: int| works@.len() <= i < given.len() ==> #[trigger] left@[i] == given[i],
            forall|i: int|
                0 <= i < works@.len() ==> is_work_of(
                    *sealer,
                    entries@[i],
                    given[i],
                    draws.members@[i],
                    #[trigger] works@[i],
                ),
        decreases entries@.len() - works@.len(),
    {
        let at: usize = works.len();
        let mut member: CompressedMember = no_work().member;
        std::mem::swap(&mut left[at], &mut member);
        assert(member == given[at as int]);
        match seal_member_by(&entries[at], member, &draws.members[at], sealer) {
            Ok(work) => {
                works.push(work);
            },
            Err(error) => {
                assert(is_work_error(
                    *sealer,
                    entries@[at as int],
                    given[at as int],
                    draws.members@[at as int],
                    error,
                ));
                return Err(error);
            },
        }
    }
    Ok(works)
}

/// Whether an archive comment is encrypted where it has a password, and only
/// there.
pub open spec fn is_comment_seal<
    H: Fn(&[u8]) -> [u8; 32],
    D: Fn(&[u8], [u8; 16], u32, [u8; 32]) -> Result<PayloadKeys>,
    C: Fn(&[u8], [u8; 16], [u8; 16], Vec<u8>) -> Result<Vec<u8>>,
>(
    sealer: Sealer<H, D, C>,
    extras: ArchiveExtras<'_>,
    draw: Draw,
    sealed: Option<EncryptedStoredPayload>,
) -> bool {
    match (extras.comment, extras.comment_password, sealed) {
        (Some(comment), Some(password), Some(payload)) => is_data_seal(
            sealer,
            password@,
            comment@,
            draw,
            Ok::<EncryptedStoredPayload, Error>(payload),
        ),
        (Some(_), Some(_), None) => false,
        (_, _, sealed) => sealed is None,
    }
}

/// Whether work is all that a request asks for.
pub open spec fn is_prepared<
    H: Fn(&[u8]) -> [u8; 32],
    D: Fn(&[u8], [u8; 16], u32, [u8; 32]) -> Result<PayloadKeys>,
    C: Fn(&[u8], [u8; 16], [u8; 16], Vec<u8>) -> Result<Vec<u8>>,
>(
    sealer: Sealer<H, D, C>,
    entries: Seq<ArchiveEntry>,
    members: Seq<CompressedMember>,
    extras: ArchiveExtras<'_>,
    keys: Option<HeaderKeys>,
    draws: WorkDraws,
    work: PreparedWork,
) -> bool {
    &&& are_works_of(sealer, entries, members, draws.members@, work.works@)
    &&& is_comment_seal(sealer, extras, draws.comment, work.comment_seal)
    &&& work.keys == keys
}

/// What comes of encrypting all that a request has passwords for.
pub open spec fn is_preparation<
    H: Fn(&[u8]) -> [u8; 32],
    D: Fn(&[u8], [u8; 16], u32, [u8; 32]) -> Result<PayloadKeys>,
    C: Fn(&[u8], [u8; 16], [u8; 16], Vec<u8>) -> Result<Vec<u8>>,
>(
    sealer: Sealer<H, D, C>,
    entries: Seq<ArchiveEntry>,
    members: Seq<CompressedMember>,
    extras: ArchiveExtras<'_>,
    keys: Option<HeaderKeys>,
    draws: WorkDraws,
    r: Result<PreparedWork>,
) -> bool {
    match r {
        Ok(work) => is_prepared(sealer, entries, members, extras, keys, draws, work),
        Err(error) => {
            ||| exists|i: int|
                0 <= i < entries.len() && is_work_error(
                    sealer,
                    #[trigger] entries[i],
                    members[i],
                    draws.members@[i],
                    error,
                )
            ||| extras.comment matches Some(comment)
                && (extras.comment_password matches Some(password) && is_data_seal(
                sealer,
                password@,
                comment@,
                draws.comment,
                Err::<EncryptedStoredPayload, Error>(error),
            ))
        },
    }
}

/// Encrypts everything that a request has passwords for, with what was drawn for it:
/// its members and their services, and the comment. Stored members hold the bytes to
/// be written.
pub fn prepare_work_by<
    H: Fn(&[u8]) -> [u8; 32],
    D: Fn(&[u8], [u8; 16], u32, [u8; 32]) -> Result<PayloadKeys>,
    C: Fn(&[u8], [u8; 16], [u8; 16], Vec<u8>) -> Result<Vec<u8>>,
>(
    entries: &[ArchiveEntry],
    members: Vec<CompressedMember>,
    extras: &ArchiveExtras<'_>,
    keys: Option<HeaderKeys>,
    draws: &WorkDraws,
    sealer: &Sealer<H, D, C>,
) -> (r: Result<PreparedWork>)
    requires
        is_sealer(*sealer),
        members@.len() == entries@.len(),
        draws.suit(entries@),
    ensures
        is_preparation(*sealer, entries@, members@, *extras, keys, *draws, r),
{
    let comment_seal: Option<EncryptedStoredPayload> = match (
        extras.comment,
        extras.comment_password,
    ) {
        (Some(comment), Some(password)) => match seal_data_by(
            comment,
            password,
            draws.comment,
            sealer,
        ) {
            Ok(payload) => Some(payload),
            Err(error) => {
                return Err(error);
            },
        },
        _ => None,
    };
    match seal_members_by(entries, members, draws, sealer) {
        Ok(works) => Ok(PreparedWork { works, comment_seal, keys }),
        Err(error) => Err(error),
    }
}

/// Encrypts everything that a request has passwords for under fresh salts and IVs.
pub fn prepare_work<
    H: Fn(&[u8]) -> [u8; 32],
    D: Fn(&[u8], [u8; 16], u32, [u8; 32]) -> Result<PayloadKeys>,
    C: Fn(&[u8], [u8; 16], [u8; 16], Vec<u8>) -> Result<Vec<u8>>,
>(
    entries: &[ArchiveEntry],
    members: Vec<CompressedMember>,
    extras: &ArchiveExtras<'_>,
    keys: Option<HeaderKeys>,
    sealer: &Sealer<H, D, C>,
) -> (r: Result<PreparedWork>)
    requires
        is_sealer(*sealer),
        members@.len() == entries@.len(),
    ensures
        exists|draws: WorkDraws| #[trigger]
            is_preparation(*sealer, entries@, members@, *extras, keys, draws, r),
{
    let draws = WorkDraws::new(entries, extras);
    prepare_work_by(entries, members, extras, keys, &draws, sealer)
}

/// Prepared work is what a writer asks for.
pub proof fn law_prepared_work_suits<
    H: Fn(&[u8]) -> [u8; 32],
    D: Fn(&[u8], [u8; 16], u32, [u8; 32]) -> Result<PayloadKeys>,
    C: Fn(&[u8], [u8; 16], [u8; 16], Vec<u8>) -> Result<Vec<u8>>,
>(
    sealer: Sealer<H, D, C>,
    entries: Seq<ArchiveEntry>,
    members: Seq<CompressedMember>,
    options: WriterOptions,
    extras: ArchiveExtras<'_>,
    keys: Option<HeaderKeys>,
    draws: WorkDraws,
    work: PreparedWork,
)
    requires
        is_prepared(sealer, entries, members, extras, keys, draws, work),
        keys is Some <==> options.features.header_encryption,
    ensures
        work.suits(entries, options, extras),
{
    assert forall|i: int, k: int|
        0 <= i < work.works@.len() && 0 <= k < work.works@[i].services@.len() implies (
    #[trigger] work.works@[i].services@[k] is Some <==> entries[i].services@[k].password
        is Some) by {
        assert(is_work_of(
            sealer,
            entries[i],
            members[i],
            draws.members@[i],
            work.works@[i],
        ));
        assert(is_service_seal(
            sealer,
            entries[i].services@[k],
            draws.members@[i].services@[k],
            work.works@[i].services@[k],
        ));
    }
    assert forall|i: int| 0 <= i < work.works@.len() implies ((
    #[trigger] work.works@[i]).sealed is Some <==> entries[i].password is Some) by {
        assert(is_work_of(
            sealer,
            entries[i],
            members[i],
            draws.members@[i],
            work.works@[i],
        ));
    }
    assert forall|i: int| 0 <= i < work.works@.len() implies (
    #[trigger] work.works@[i]).services@.len() == entries[i].services@.len() by {
        assert(is_work_of(
            sealer,
            entries[i],
            members[i],
            draws.members@[i],
            work.works@[i],
        ));
    }
}

} // verus!
