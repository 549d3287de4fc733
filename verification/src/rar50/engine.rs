//! Assembling an archive from prepared members.

use vstd::prelude::*;

use crate::error::{Error, Result};
use crate::rar50::blocks::{prepare_comment, prepare_service, CompressedMember, PreparedBlock};
#[allow(unused_imports)]
use crate::rar50::blocks::{service_of, BlockView};
use crate::rar50::encryption::EncryptedStoredPayload;
use crate::rar50::entry::{ArchiveEntry, ServiceEntry};
#[allow(unused_imports)]
use crate::rar50::entry::comment_name;
use crate::rar50::main_header::header_encryption_password;
#[allow(unused_imports)]
use crate::rar50::main_header::{all_same, passwords_view};
use crate::rar50::members::prepare_member;
#[allow(unused_imports)]
use crate::rar50::members::member_block_of;
use crate::rar50::metadata::{ArchiveMetadataEntry, ArchiveMetadataRecord};
use crate::rar50::plan::CompressPlan;
#[allow(unused_imports)]
use crate::rar50::quick_open::blocks_view;

verus! {

/// An archive comment, in the clear or encrypted.
#[derive(Debug)]
pub enum ArchiveCommentPlan<'a> {
    Plain(&'a [u8]),
    Encrypted { data: &'a [u8], password: &'a [u8] },
}

/// What is decided of an archive before anything is written.
#[derive(Debug)]
pub struct EnginePlan<'a> {
    pub compress: CompressPlan,
    pub recovery_percent: Option<u64>,
    pub header_encrypted: bool,
    pub header_password: Option<&'a [u8]>,
    pub archive_comment: Option<ArchiveCommentPlan<'a>>,
    pub archive_metadata: Option<ArchiveMetadataEntry<'a>>,
    pub metadata_record: Option<&'a ArchiveMetadataRecord>,
    pub locked: bool,
    pub quick_open: bool,
}

/// What the encryption header says about the key of the headers.
#[derive(Debug, Clone, Copy)]
pub struct HeaderKeys {
    pub salt: [u8; 16],
    pub check_value: [u8; 12],
}

/// One member with everything that its blocks are made of: the member as the
/// compressor left it, and the encrypted payloads of the member and of its
/// services, where they are encrypted.
#[derive(Debug)]
pub struct MemberWork {
    pub member: CompressedMember,
    pub sealed: Option<EncryptedStoredPayload>,
    pub services: Vec<Option<EncryptedStoredPayload>>,
}

/// The passwords that an archive is locked with, in order.
pub open spec fn entry_passwords(entries: Seq<ArchiveEntry>) -> Seq<Seq<u8>>
    decreases entries.len(),
{
    if entries.len() == 0 {
        Seq::empty()
    } else {
        let before = entry_passwords(entries.drop_last());
        match entries.last().password {
            Some(password) => before.push(password@),
            None => before,
        }
    }
}

pub open spec fn archive_passwords(
    header_password: Option<&[u8]>,
    entries: Seq<ArchiveEntry>,
) -> Seq<Seq<u8>> {
    (match header_password {
        Some(password) => seq![password@],
        None => Seq::empty(),
    }) + entry_passwords(entries)
}

/// Why headers cannot be encrypted: header encryption covers the whole archive,
/// so there has to be one password.
pub open spec fn header_password_error(
    header_encrypted: bool,
    header_password: Option<&[u8]>,
    entries: Seq<ArchiveEntry>,
) -> Option<Error> {
    let passwords = archive_passwords(header_password, entries);
    if !header_encrypted {
        None
    } else if passwords.len() == 0 {
        Some(Error::NeedPassword)
    } else if !all_same(passwords) {
        Some(Error::InvalidArgument("RAR 5 header-encrypted writer needs one shared password"))
    } else {
        None
    }
}

/// The password that the headers are encrypted with, where they are.
pub fn archive_header_password<'a>(
    header_encrypted: bool,
    header_password: Option<&'a [u8]>,
    entries: &'a [ArchiveEntry],
) -> (r: Result<Option<&'a [u8]>>)
    ensures
        match r {
            Ok(password) => header_password_error(header_encrypted, header_password, entries@)
                is None && match password {
                Some(password) => header_encrypted && password@ == archive_passwords(
                    header_password,
                    entries@,
                )[0],
                None => !header_encrypted,
            },
            Err(error) => header_password_error(header_encrypted, header_password, entries@)
                == Some(error),
        },
{
    if !header_encrypted {
        return Ok(None);
    }
    let mut passwords: Vec<&'a [u8]> = Vec::new();
    if let Some(password) = header_password {
        passwords.push(password);
    }
    let ghost first = passwords_view(passwords@);
    assert(first =~= archive_passwords(header_password, Seq::empty()));
    let mut at: usize = 0;
    assert(entries@.take(0) =~= Seq::empty());
    while at < entries.len()
        invariant
            at <= entries@.len(),
            passwords_view(passwords@) =~= archive_passwords(
                header_password,
                entries@.take(at as int),
            ),
        decreases entries@.len() - at,
    {
        let ghost longer = entries@.take(at + 1);
        assert(longer.drop_last() =~= entries@.take(at as int));
        let ghost before = passwords@;
        if let Some(password) = &entries[at].password {
            passwords.push(password.as_slice());
            assert(passwords_view(passwords@) =~= passwords_view(before).push(password@));
        }
        at = at + 1;
    }
    assert(entries@.take(entries@.len() as int) =~= entries@);
    match header_encryption_password(&passwords) {
        Ok(password) => {
            assert(passwords_view(passwords@)[0] == password@);
            Ok(Some(password))
        },
        Err(error) => Err(error),
    }
}

/// Blocks, or the first refusal.
pub open spec fn service_blocks_of(
    services: Seq<ServiceEntry>,
    sealed: Seq<Option<EncryptedStoredPayload>>,
) -> std::result::Result<Seq<BlockView>, Error>
    decreases services.len(),
{
    if services.len() == 0 {
        Ok(Seq::empty())
    } else {
        let last = services.last();
        match service_blocks_of(services.drop_last(), sealed.drop_last()) {
            Err(error) => Err(error),
            Ok(before) => match service_of(last.name@, last.data@, sealed.last(), false) {
                Err(error) => Err(error),
                Ok(block) => Ok(before.push(block)),
            },
        }
    }
}

/// The blocks of one member: its own, and those of its services.
#[verifier::opaque]
pub open spec fn member_blocks_of(
    entry: ArchiveEntry,
    work: MemberWork,
    plan: CompressPlan,
) -> std::result::Result<Seq<BlockView>, Error> {
    match member_block_of(entry, work.member, work.sealed, plan) {
        Err(error) => Err(error),
        Ok(block) => match service_blocks_of(entry.services@, work.services@) {
            Err(error) => Err(error),
            Ok(services) => Ok(seq![block] + services),
        },
    }
}

/// The blocks of some members.
pub open spec fn entry_blocks_of(
    entries: Seq<ArchiveEntry>,
    works: Seq<MemberWork>,
    plan: CompressPlan,
) -> std::result::Result<Seq<BlockView>, Error>
    decreases entries.len(),
{
    if entries.len() == 0 {
        Ok(Seq::empty())
    } else {
        match entry_blocks_of(entries.drop_last(), works.drop_last(), plan) {
            Err(error) => Err(error),
            Ok(before) => match member_blocks_of(entries.last(), works.last(), plan) {
                Err(error) => Err(error),
                Ok(own) => Ok(before + own),
            },
        }
    }
}

/// Whether every header fits in memory.
pub open spec fn headers_fit(blocks: Seq<PreparedBlock>) -> bool {
    forall|i: int| 0 <= i < blocks.len() ==> (#[trigger] blocks[i]).header@.len() <= isize::MAX
}

pub open spec fn blocks_result(
    before: Seq<BlockView>,
    own: std::result::Result<Seq<BlockView>, Error>,
    r: Result<()>,
    after: Seq<BlockView>,
) -> bool {
    match own {
        Ok(own) => r is Ok && after == before + own,
        Err(error) => r == Err::<(), Error>(error),
    }
}

fn append_service_blocks(
    blocks: &mut Vec<PreparedBlock>,
    services: &Vec<ServiceEntry>,
    sealed: Vec<Option<EncryptedStoredPayload>>,
) -> (r: Result<()>)
    requires
        sealed@.len() == services@.len(),
    ensures
        blocks_result(
            blocks_view(old(blocks)@),
            service_blocks_of(services@, sealed@),
            r,
            blocks_view(final(blocks)@),
        ),
        headers_fit(old(blocks)@) ==> headers_fit(final(blocks)@),
{
    let ghost before = blocks_view(blocks@);
    let ghost given = sealed@;
    let mut left = sealed;
    let mut at: usize = 0;
    assert(services@.take(0) =~= Seq::empty());
    assert(before + Seq::<BlockView>::empty() =~= before);
    while at < services.len()
        invariant
            at <= services@.len(),
            given == sealed@,
            given.len() == services@.len(),
            left@.len() == given.len(),
            forall|i: int| at <= i < given.len() ==> #[trigger] left@[i] == given[i],
            service_blocks_of(services@.take(at as int), given.take(at as int)) matches Ok(own)
                && blocks_view(blocks@) == before + own,
            headers_fit(old(blocks)@) ==> headers_fit(blocks@),
        decreases services@.len() - at,
    {
        let ghost so_far = service_blocks_of(services@.take(at as int), given.take(at as int));
        proof {
            assert(services@.take(at + 1).drop_last() =~= services@.take(at as int));
            assert(given.take(at + 1).drop_last() =~= given.take(at as int));
            assert(services@.take(at + 1).last() == services@[at as int]);
            assert(given.take(at + 1).last() == given[at as int]);
        }
        let mut taken: Option<EncryptedStoredPayload> = None;
        std::mem::swap(&mut left[at], &mut taken);
        assert(taken == given[at as int]);
        match prepare_service(&services[at], taken) {
            Ok(block) => {
                let ghost earlier = blocks_view(blocks@);
                blocks.push(block);
                assert(blocks_view(blocks@) =~= earlier.push(block@));
                assert(before + so_far->Ok_0.push(block@) =~= (before + so_far->Ok_0).push(
                    block@,
                ));
            },
            Err(error) => {
                proof {
                    lemma_failed_services_stay_failed(services@, given, at + 1);
                }
                return Err(error);
            },
        }
        at = at + 1;
    }
    assert(services@.take(services@.len() as int) =~= services@);
    assert(given.take(services@.len() as int) =~= given);
    Ok(())
}

proof fn lemma_failed_services_stay_failed(
    services: Seq<ServiceEntry>,
    sealed: Seq<Option<EncryptedStoredPayload>>,
    at: int,
)
    requires
        services.len() == sealed.len(),
        0 <= at <= services.len(),
        service_blocks_of(services.take(at), sealed.take(at)) is Err,
    ensures
        service_blocks_of(services, sealed) == service_blocks_of(
            services.take(at),
            sealed.take(at),
        ),
    decreases services.len() - at,
{
    if at == services.len() {
        assert(services.take(at) =~= services);
        assert(sealed.take(at) =~= sealed);
    } else {
        assert(services.take(at + 1).drop_last() =~= services.take(at));
        assert(sealed.take(at + 1).drop_last() =~= sealed.take(at));
        lemma_failed_services_stay_failed(services, sealed, at + 1);
    }
}

fn append_member_blocks(
    blocks: &mut Vec<PreparedBlock>,
    entry: &ArchiveEntry,
    work: MemberWork,
    plan: &CompressPlan,
) -> (r: Result<()>)
    requires
        work.services@.len() == entry.services@.len(),
    ensures
        blocks_result(
            blocks_view(old(blocks)@),
            member_blocks_of(*entry, work, *plan),
            r,
            blocks_view(final(blocks)@),
        ),
        headers_fit(old(blocks)@) ==> headers_fit(final(blocks)@),
{
    proof {
        reveal(member_blocks_of);
    }
    let ghost given = work;
    let ghost before = blocks_view(blocks@);
    let MemberWork { member, sealed, services } = work;
    match prepare_member(entry, member, sealed, plan) {
        Ok(block) => {
            blocks.push(block);
            assert(blocks_view(blocks@) =~= before.push(block@));
            let ghost with_member = blocks_view(blocks@);
            let r = append_service_blocks(blocks, &entry.services, services);
            proof {
                if let Ok(own) = service_blocks_of(entry.services@, given.services@) {
                    assert(with_member + own =~= before + (seq![block@] + own));
                }
            }
            r
        },
        Err(error) => Err(error),
    }
}

/// A place holder without content: an empty member that is not stored, in the
/// clear and without services.
pub(crate) fn no_work() -> (work: MemberWork)
    ensures
        work.member.input_size == 0,
        work.member.crc32 == 0,
        work.member.hash@ == Seq::new(32, |i: int| 0u8),
        work.member.packed@ == Seq::<u8>::empty(),
        work.member.packed_hash@ == Seq::new(32, |i: int| 0u8),
        !work.member.store,
        !work.member.solid_continuation,
        work.sealed is None,
        work.services@ == Seq::<Option<EncryptedStoredPayload>>::empty(),
{
    MemberWork {
        member: CompressedMember {
            input_size: 0,
            crc32: 0,
            hash: [0; 32],
            packed: Vec::new(),
            packed_hash: [0; 32],
            store: false,
            solid_continuation: false,
        },
        sealed: None,
        services: Vec::new(),
    }
}

/// Whether there is work for every member, encrypted where the member has a
/// password and only there.
pub open spec fn are_sealed_as_asked(
    entries: Seq<ArchiveEntry>,
    works: Seq<MemberWork>,
) -> bool {
    &&& works.len() == entries.len()
    &&& forall|i: int|
        0 <= i < works.len() ==> ((#[trigger] works[i]).sealed is Some <==> entries[i].password is Some)
}

/// Whether there is work for every member and service, encrypted where they have
/// a password and only there.
pub open spec fn is_complete(entries: Seq<ArchiveEntry>, works: Seq<MemberWork>) -> bool {
    &&& are_sealed_as_asked(entries, works)
    &&& forall|i: int|
        0 <= i < works.len() ==> (#[trigger] works[i]).services@.len()
            == entries[i].services@.len()
    &&& forall|i: int, k: int|
        0 <= i < works.len() && 0 <= k < works[i].services@.len() ==> (
        #[trigger] works[i].services@[k] is Some <==> entries[i].services@[k].password is Some)
}

/// Whether an archive comment is encrypted where the plan says so and only there,
/// and there are keys where headers are encrypted and only there.
pub open spec fn is_keyed_as_planned(
    plan: EnginePlan<'_>,
    comment_seal: Option<EncryptedStoredPayload>,
    keys: Option<HeaderKeys>,
) -> bool {
    &&& comment_seal is Some <==> (plan.archive_comment matches Some(comment)
        && comment is Encrypted)
    &&& keys is Some <==> plan.header_encrypted
}

proof fn lemma_failed_entries_stay_failed(
    entries: Seq<ArchiveEntry>,
    works: Seq<MemberWork>,
    plan: CompressPlan,
    at: int,
)
    requires
        entries.len() == works.len(),
        0 <= at <= entries.len(),
        entry_blocks_of(entries.take(at), works.take(at), plan) is Err,
    ensures
        entry_blocks_of(entries, works, plan) == entry_blocks_of(
            entries.take(at),
            works.take(at),
            plan,
        ),
    decreases entries.len() - at,
{
    if at == entries.len() {
        assert(entries.take(at) =~= entries);
        assert(works.take(at) =~= works);
    } else {
        assert(entries.take(at + 1).drop_last() =~= entries.take(at));
        assert(works.take(at + 1).drop_last() =~= works.take(at));
        lemma_failed_entries_stay_failed(entries, works, plan, at + 1);
    }
}

fn append_entry_blocks(
    blocks: &mut Vec<PreparedBlock>,
    entries: &[ArchiveEntry],
    works: Vec<MemberWork>,
    plan: &CompressPlan,
) -> (r: Result<()>)
    requires
        is_complete(entries@, works@),
    ensures
        blocks_result(
            blocks_view(old(blocks)@),
            entry_blocks_of(entries@, works@, *plan),
            r,
            blocks_view(final(blocks)@),
        ),
        headers_fit(old(blocks)@) ==> headers_fit(final(blocks)@),
{
    let ghost before = blocks_view(blocks@);
    let ghost given = works@;
    let mut left = works;
    let mut at: usize = 0;
    assert(entries@.take(0) =~= Seq::empty());
    assert(before + Seq::<BlockView>::empty() =~= before);
    while at < entries.len()
        invariant
            at <= entries@.len(),
            given == works@,
            is_complete(entries@, given),
            left@.len() == given.len(),
            forall|i: int| at <= i < given.len() ==> #[trigger] left@[i] == given[i],
            entry_blocks_of(entries@.take(at as int), given.take(at as int), *plan) matches Ok(own)
                && blocks_view(blocks@) == before + own,
            headers_fit(old(blocks)@) ==> headers_fit(blocks@),
        decreases entries@.len() - at,
    {
        let ghost so_far = entry_blocks_of(
            entries@.take(at as int),
            given.take(at as int),
            *plan,
        );
        let ghost earlier = blocks_view(blocks@);
        proof {
            assert(entries@.take(at + 1).drop_last() =~= entries@.take(at as int));
            assert(given.take(at + 1).drop_last() =~= given.take(at as int));
            assert(entries@.take(at + 1).last() == entries@[at as int]);
            assert(given.take(at + 1).last() == given[at as int]);
        }
        let mut taken = no_work();
        std::mem::swap(&mut left[at], &mut taken);
        assert(taken == given[at as int]);
        match append_member_blocks(blocks, &entries[at], taken, plan) {
            Ok(()) => {
                proof {
                    let own = member_blocks_of(entries@[at as int], given[at as int], *plan)->Ok_0;
                    assert(earlier + own =~= before + (so_far->Ok_0 + own));
                }
            },
            Err(error) => {
                proof {
                    lemma_failed_entries_stay_failed(entries@, given, *plan, at + 1);
                }
                return Err(error);
            },
        }
        at = at + 1;
    }
    assert(entries@.take(entries@.len() as int) =~= entries@);
    assert(given.take(entries@.len() as int) =~= given);
    Ok(())
}

/// The text of an archive comment.
pub open spec fn comment_data(comment: ArchiveCommentPlan<'_>) -> Seq<u8> {
    match comment {
        ArchiveCommentPlan::Plain(data) => data@,
        ArchiveCommentPlan::Encrypted { data, .. } => data@,
    }
}

/// The blocks between the main header and the quick-open block, in order, with
/// their headers in the clear.
pub open spec fn archive_blocks_of(
    plan: EnginePlan<'_>,
    comment_seal: Option<EncryptedStoredPayload>,
    entries: Seq<ArchiveEntry>,
    works: Seq<MemberWork>,
) -> std::result::Result<Seq<BlockView>, Error> {
    match plan.archive_comment {
        None => entry_blocks_of(entries, works, plan.compress),
        Some(comment) => match service_of(
            comment_name(),
            comment_data(comment),
            comment_seal,
            !plan.header_encrypted,
        ) {
            Err(error) => Err(error),
            Ok(block) => match entry_blocks_of(entries, works, plan.compress) {
                Err(error) => Err(error),
                Ok(own) => Ok(seq![block] + own),
            },
        },
    }
}

/// Prepares every block of an archive's body.
pub fn prepare_blocks(
    plan: &EnginePlan<'_>,
    comment_seal: Option<EncryptedStoredPayload>,
    entries: &[ArchiveEntry],
    works: Vec<MemberWork>,
) -> (r: Result<Vec<PreparedBlock>>)
    requires
        is_complete(entries@, works@),
    ensures
        match archive_blocks_of(*plan, comment_seal, entries@, works@) {
            Ok(views) => r is Ok && blocks_view(r->Ok_0@) == views && headers_fit(r->Ok_0@),
            Err(error) => r == Err::<Vec<PreparedBlock>, Error>(error),
        },
{
    let ghost given = works@;
    let mut blocks: Vec<PreparedBlock> = Vec::new();
    if let Some(comment) = &plan.archive_comment {
        let data: &[u8] = match comment {
            ArchiveCommentPlan::Plain(data) => *data,
            ArchiveCommentPlan::Encrypted { data, .. } => *data,
        };
        match prepare_comment(data, comment_seal, plan.header_encrypted) {
            Ok(block) => {
                blocks.push(block);
                assert(blocks_view(blocks@) =~= seq![block@]);
            },
            Err(error) => {
                return Err(error);
            },
        }
    }
    let ghost before = blocks_view(blocks@);
    match append_entry_blocks(&mut blocks, entries, works, &plan.compress) {
        Ok(()) => {
            proof {
                if plan.archive_comment is None {
                    let own = entry_blocks_of(entries@, given, plan.compress)->Ok_0;
                    assert(before + own =~= own);
                }
            }
            Ok(blocks)
        },
        Err(error) => Err(error),
    }
}

} // verus!
