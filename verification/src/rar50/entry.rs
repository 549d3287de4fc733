//! Members, services and archive-level extras, and what a writer refuses of
//! them.

use vstd::prelude::*;

use crate::bytes::same_bytes;
use crate::error::{Error, Result};
use crate::filter::FilterPolicy;
use crate::rar50::metadata::ArchiveMetadataEntry;
use crate::streaming::source::EntrySource;
use crate::version::ArchiveVersion;

verus! {

/// A link, with the name that it leads to.
#[derive(Debug, Clone)]
pub struct Redirection {
    pub redirection_type: u64,
    pub flags: u64,
    pub target_name: Vec<u8>,
}

/// A small named record attached to an archive or a member.
#[derive(Debug, Clone)]
pub struct ServiceEntry {
    /// Service name, such as `CMT`, `ACL` or `STM`.
    pub name: Vec<u8>,
    pub data: Vec<u8>,
    pub password: Option<Vec<u8>>,
}

impl ServiceEntry {
    pub fn new(name: Vec<u8>, data: Vec<u8>) -> (service: ServiceEntry)
        ensures
            service == (ServiceEntry { name, data, password: None }),
    {
        ServiceEntry { name, data, password: None }
    }

    pub fn with_password(self, password: Vec<u8>) -> (service: ServiceEntry)
        ensures
            service == (ServiceEntry { password: Some(password), ..self }),
    {
        ServiceEntry { password: Some(password), ..self }
    }
}

/// An archive member, read from a reopenable source when it is needed.
#[derive(Debug, Clone)]
pub struct ArchiveEntry {
    pub name: Vec<u8>,
    pub source: EntrySource,
    pub mtime: Option<u32>,
    /// With nanoseconds the whole time moves into a record of its own.
    pub mtime_nanoseconds: Option<u32>,
    /// Further times, as their record holds them.
    pub file_times: Option<Vec<u8>>,
    pub attributes: u64,
    pub host_os: u64,
    pub is_directory: bool,
    pub redirection: Option<Redirection>,
    /// The size that a link reports; without it, that of its target's name.
    pub redirection_size: Option<u64>,
    /// Encrypts this member's payload. With header encryption every member
    /// must use the same password.
    pub password: Option<Vec<u8>>,
    /// Service records attached to this member, such as a file comment.
    pub services: Vec<ServiceEntry>,
}

impl ArchiveEntry {
    pub fn new(name: Vec<u8>, source: EntrySource) -> (entry: ArchiveEntry)
        ensures
            entry.name == name,
            entry.source == source,
            entry.mtime is None,
            entry.mtime_nanoseconds is None,
            entry.file_times is None,
            entry.attributes == 0,
            entry.host_os == 0,
            !entry.is_directory,
            entry.redirection is None,
            entry.redirection_size is None,
            entry.password is None,
            entry.services@ == Seq::<ServiceEntry>::empty(),
    {
        ArchiveEntry {
            name,
            source,
            mtime: None,
            mtime_nanoseconds: None,
            file_times: None,
            attributes: 0,
            host_os: 0,
            is_directory: false,
            redirection: None,
            redirection_size: None,
            password: None,
            services: Vec::new(),
        }
    }

    pub fn with_service(self, service: ServiceEntry) -> (entry: ArchiveEntry)
        ensures
            entry.services@ == self.services@.push(service),
            entry == (ArchiveEntry { services: entry.services, ..self }),
    {
        let mut entry = self;
        entry.services.push(service);
        entry
    }

    pub fn with_mtime(self, mtime: Option<u32>) -> (entry: ArchiveEntry)
        ensures
            entry == (ArchiveEntry { mtime, ..self }),
    {
        ArchiveEntry { mtime, ..self }
    }

    pub fn with_attributes(self, attributes: u64) -> (entry: ArchiveEntry)
        ensures
            entry == (ArchiveEntry { attributes, ..self }),
    {
        ArchiveEntry { attributes, ..self }
    }

    pub fn with_host_os(self, host_os: u64) -> (entry: ArchiveEntry)
        ensures
            entry == (ArchiveEntry { host_os, ..self }),
    {
        ArchiveEntry { host_os, ..self }
    }

    pub fn with_password(self, password: Vec<u8>) -> (entry: ArchiveEntry)
        ensures
            entry == (ArchiveEntry { password: Some(password), ..self }),
    {
        ArchiveEntry { password: Some(password), ..self }
    }
}

/// Archive-level options that sit alongside the members.
#[derive(Debug, Clone, Copy)]
pub struct ArchiveExtras<'a> {
    /// Archive comment, stored as a `CMT` service record.
    pub comment: Option<&'a [u8]>,
    /// Encrypts the comment. Without it the comment is stored in the clear.
    pub comment_password: Option<&'a [u8]>,
    pub metadata: Option<ArchiveMetadataEntry<'a>>,
    /// Whether to look for a data filter that makes members compress better.
    pub filter_policy: FilterPolicy,
    /// Percentage of the archive to spend on a recovery record.
    pub recovery_percent: Option<u64>,
}

impl<'a> Default for ArchiveExtras<'a> {
    fn default() -> (extras: ArchiveExtras<'a>)
        ensures
            extras == (ArchiveExtras {
                comment: None,
                comment_password: None,
                metadata: None,
                filter_policy: FilterPolicy::Off,
                recovery_percent: None,
            }),
    {
        ArchiveExtras {
            comment: None,
            comment_password: None,
            metadata: None,
            filter_policy: FilterPolicy::Off,
            recovery_percent: None,
        }
    }
}

impl<'a> ArchiveExtras<'a> {
    pub fn with_comment(self, comment: &'a [u8]) -> (extras: ArchiveExtras<'a>)
        ensures
            extras == (ArchiveExtras { comment: Some(comment), ..self }),
    {
        ArchiveExtras { comment: Some(comment), ..self }
    }

    pub fn with_encrypted_comment(
        self,
        comment: &'a [u8],
        password: &'a [u8],
    ) -> (extras: ArchiveExtras<'a>)
        ensures
            extras == (ArchiveExtras {
                comment: Some(comment),
                comment_password: Some(password),
                ..self
            }),
    {
        ArchiveExtras { comment: Some(comment), comment_password: Some(password), ..self }
    }

    pub fn with_metadata(self, metadata: ArchiveMetadataEntry<'a>) -> (extras: ArchiveExtras<'a>)
        ensures
            extras == (ArchiveExtras { metadata: Some(metadata), ..self }),
    {
        ArchiveExtras { metadata: Some(metadata), ..self }
    }

    pub fn with_filter_policy(self, policy: FilterPolicy) -> (extras: ArchiveExtras<'a>)
        ensures
            extras == (ArchiveExtras { filter_policy: policy, ..self }),
    {
        ArchiveExtras { filter_policy: policy, ..self }
    }

    pub fn with_recovery_percent(self, percent: Option<u64>) -> (extras: ArchiveExtras<'a>)
        ensures
            extras == (ArchiveExtras { recovery_percent: percent, ..self }),
    {
        ArchiveExtras { recovery_percent: percent, ..self }
    }
}

/// The name of comments.
pub open spec fn comment_name() -> Seq<u8> {
    seq![0x43u8, 0x4d, 0x54]
}

pub open spec fn acl_name() -> Seq<u8> {
    seq![0x41u8, 0x43, 0x4c]
}

pub open spec fn stream_name() -> Seq<u8> {
    seq![0x53u8, 0x54, 0x4d]
}

/// Whether a member's service may have this name. Only comments can be
/// encrypted: an ACL or a stream would be written in the clear.
pub open spec fn is_service_name(name: Seq<u8>, encrypted: bool) -> bool {
    name == comment_name() || (!encrypted && (name == acl_name() || name == stream_name()))
}

pub open spec fn empty_password_error() -> Error {
    Error::InvalidHeader("RAR 5 encrypted writer needs a non-empty password")
}

/// What a password is refused with.
pub open spec fn password_error(password: Option<Vec<u8>>) -> Option<Error> {
    match password {
        Some(password) => if password@.len() == 0 {
            Some(empty_password_error())
        } else {
            None
        },
        None => None,
    }
}

/// What a service is refused with.
pub open spec fn service_error(service: ServiceEntry) -> Option<Error> {
    if !is_service_name(service.name@, service.password is Some) {
        Some(
            Error::UnsupportedFeature {
                version: ArchiveVersion::Rar50,
                feature: "RAR 5 file service name",
            },
        )
    } else if service.data@.len() == 0 {
        Some(Error::InvalidHeader("RAR 5 file service data is empty"))
    } else {
        password_error(service.password)
    }
}

/// The first refusal among some services.
pub open spec fn services_error(services: Seq<ServiceEntry>) -> Option<Error>
    decreases services.len(),
{
    if services.len() == 0 {
        None
    } else {
        match service_error(services[0]) {
            Some(error) => Some(error),
            None => services_error(services.skip(1)),
        }
    }
}

/// What a member is refused with.
pub open spec fn entry_error(entry: ArchiveEntry) -> Option<Error> {
    if entry.name@.len() == 0 {
        Some(Error::InvalidHeader("RAR 5 file name is empty"))
    } else {
        match password_error(entry.password) {
            Some(error) => Some(error),
            None => services_error(entry.services@),
        }
    }
}

/// The first refusal among some members.
pub open spec fn entries_error(entries: Seq<ArchiveEntry>) -> Option<Error>
    decreases entries.len(),
{
    if entries.len() == 0 {
        None
    } else {
        match entry_error(entries[0]) {
            Some(error) => Some(error),
            None => entries_error(entries.skip(1)),
        }
    }
}

/// A refusal as a result.
pub open spec fn refusal(error: Option<Error>) -> Result<()> {
    match error {
        Some(error) => Err(error),
        None => Ok(()),
    }
}

pub fn validate_nonempty_password(password: &[u8]) -> (r: Result<()>)
    ensures
        r == refusal(
            if password@.len() == 0 {
                Some(empty_password_error())
            } else {
                None
            },
        ),
{
    if password.len() == 0 {
        return Err(Error::InvalidHeader("RAR 5 encrypted writer needs a non-empty password"));
    }
    Ok(())
}

pub fn validate_file_entry(name: &[u8]) -> (r: Result<()>)
    ensures
        r == refusal(
            if name@.len() == 0 {
                Some(Error::InvalidHeader("RAR 5 file name is empty"))
            } else {
                None
            },
        ),
{
    if name.len() == 0 {
        return Err(Error::InvalidHeader("RAR 5 file name is empty"));
    }
    Ok(())
}

fn is_allowed_name(name: &[u8], encrypted: bool) -> (answer: bool)
    ensures
        answer == is_service_name(name@, encrypted),
{
    let comment: [u8; 3] = [0x43, 0x4d, 0x54];
    let acl: [u8; 3] = [0x41, 0x43, 0x4c];
    let stream: [u8; 3] = [0x53, 0x54, 0x4d];
    assert(comment@ =~= comment_name());
    assert(acl@ =~= acl_name());
    assert(stream@ =~= stream_name());
    same_bytes(name, &comment) || (!encrypted && (same_bytes(name, &acl) || same_bytes(
        name,
        &stream,
    )))
}

pub fn validate_service(service: &ServiceEntry) -> (r: Result<()>)
    ensures
        r == refusal(service_error(*service)),
{
    if !is_allowed_name(&service.name, service.password.is_some()) {
        return Err(
            Error::UnsupportedFeature {
                version: ArchiveVersion::Rar50,
                feature: "RAR 5 file service name",
            },
        );
    }
    if service.data.len() == 0 {
        return Err(Error::InvalidHeader("RAR 5 file service data is empty"));
    }
    match &service.password {
        Some(password) => validate_nonempty_password(password),
        None => Ok(()),
    }
}

/// Checks one member and everything hanging off it.
pub fn validate_entry(entry: &ArchiveEntry) -> (r: Result<()>)
    ensures
        r == refusal(entry_error(*entry)),
{
    match validate_file_entry(&entry.name) {
        Ok(()) => {},
        Err(error) => {
            return Err(error);
        },
    }
    if let Some(password) = &entry.password {
        match validate_nonempty_password(password) {
            Ok(()) => {},
            Err(error) => {
                return Err(error);
            },
        }
    }
    let mut at: usize = 0;
    assert(entry.services@.skip(0) =~= entry.services@);
    while at < entry.services.len()
        invariant
            at <= entry.services@.len(),
            entry.name@.len() > 0,
            password_error(entry.password) is None,
            services_error(entry.services@) == services_error(entry.services@.skip(at as int)),
        decreases entry.services@.len() - at,
    {
        let ghost rest = entry.services@.skip(at as int);
        assert(rest[0] == entry.services@[at as int]);
        assert(rest.skip(1) =~= entry.services@.skip(at + 1));
        match validate_service(&entry.services[at]) {
            Ok(()) => {},
            Err(error) => {
                return Err(error);
            },
        }
        at = at + 1;
    }
    Ok(())
}

/// Checks every member.
pub fn validate_entries(entries: &[ArchiveEntry]) -> (r: Result<()>)
    ensures
        r == refusal(entries_error(entries@)),
{
    let mut at: usize = 0;
    assert(entries@.skip(0) =~= entries@);
    while at < entries.len()
        invariant
            at <= entries@.len(),
            entries_error(entries@) == entries_error(entries@.skip(at as int)),
        decreases entries@.len() - at,
    {
        let ghost rest = entries@.skip(at as int);
        assert(rest[0] == entries@[at as int]);
        assert(rest.skip(1) =~= entries@.skip(at + 1));
        match validate_entry(&entries[at]) {
            Ok(()) => {},
            Err(error) => {
                return Err(error);
            },
        }
        at = at + 1;
    }
    Ok(())
}

/// Members that were let through can each stand on their own.
pub proof fn law_valid_entries_are_valid_each(entries: Seq<ArchiveEntry>)
    ensures
        entries_error(entries) is None <==> forall|i: int|
            0 <= i < entries.len() ==> entry_error(#[trigger] entries[i]) is None,
    decreases entries.len(),
{
    if entries.len() > 0 {
        let rest = entries.skip(1);
        law_valid_entries_are_valid_each(rest);
        if entry_error(entries[0]) is None {
            assert forall|i: int|
                (entries_error(rest) is None && 0 <= i < entries.len()) implies entry_error(
                #[trigger] entries[i],
            ) is None by {
                if i > 0 {
                    assert(rest[i - 1] == entries[i]);
                }
            }
            assert forall|i: int|
                ((forall|k: int|
                    0 <= k < entries.len() ==> entry_error(#[trigger] entries[k]) is None) && 0
                    <= i < rest.len()) implies entry_error(#[trigger] rest[i]) is None by {
                assert(rest[i] == entries[i + 1]);
            }
        }
    }
}

/// Whether a service can be written: a comment, `CMT`, or in the clear an access list,
/// `ACL`, or a stream, `STM`; never without data, and not under an empty password.
pub open spec fn is_writable_service(service: ServiceEntry) -> bool {
    &&& service.data@.len() > 0
    &&& service.password matches Some(password) ==> password@.len() > 0
    &&& service.name@.len() == 3
    &&& {
        ||| service.name@ == seq![0x43u8, 0x4du8, 0x54u8]
        ||| service.password is None && service.name@ == seq![0x41u8, 0x43u8, 0x4cu8]
        ||| service.password is None && service.name@ == seq![0x53u8, 0x54u8, 0x4du8]
    }
}

/// Whether a member can be written: under a name, not under an empty password, and with
/// services that can be.
pub open spec fn is_writable_entry(entry: ArchiveEntry) -> bool {
    &&& entry.name@.len() > 0
    &&& entry.password matches Some(password) ==> password@.len() > 0
    &&& forall|k: int|
        0 <= k < entry.services@.len() ==> is_writable_service(#[trigger] entry.services@[k])
}

proof fn lemma_services_error(services: Seq<ServiceEntry>)
    ensures
        services_error(services) is None <==> forall|k: int|
            0 <= k < services.len() ==> is_writable_service(#[trigger] services[k]),
    decreases services.len(),
{
    if services.len() > 0 {
        let rest = services.skip(1);
        lemma_services_error(rest);
        let first = services[0];
        assert(comment_name() =~= seq![0x43u8, 0x4du8, 0x54u8]);
        assert(acl_name() =~= seq![0x41u8, 0x43u8, 0x4cu8]);
        assert(stream_name() =~= seq![0x53u8, 0x54u8, 0x4du8]);
        assert(service_error(first) is None <==> is_writable_service(first));
        assert((forall|k: int|
            0 <= k < services.len() ==> is_writable_service(#[trigger] services[k])) <==> (
        is_writable_service(first) && forall|k: int|
            0 <= k < rest.len() ==> is_writable_service(#[trigger] rest[k]))) by {
            if is_writable_service(first) && (forall|k: int|
                0 <= k < rest.len() ==> is_writable_service(#[trigger] rest[k])) {
                assert forall|k: int| 0 <= k < services.len() implies is_writable_service(
                    #[trigger] services[k],
                ) by {
                    if k > 0 {
                        assert(rest[k - 1] == services[k]);
                    }
                }
            }
            if forall|k: int|
                0 <= k < services.len() ==> is_writable_service(#[trigger] services[k]) {
                assert forall|k: int| 0 <= k < rest.len() implies is_writable_service(
                    #[trigger] rest[k],
                ) by {
                    assert(rest[k] == services[k + 1]);
                }
            }
        }
    }
}

/// Members are accepted if and only if each of them can be written.
pub proof fn law_writable_entries_are_accepted(entries: Seq<ArchiveEntry>)
    ensures
        entries_error(entries) is None <==> forall|i: int|
            0 <= i < entries.len() ==> is_writable_entry(#[trigger] entries[i]),
{
    law_valid_entries_are_valid_each(entries);
    assert forall|i: int| 0 <= i < entries.len() implies (entry_error(#[trigger] entries[i])
        is None <==> is_writable_entry(entries[i])) by {
        lemma_services_error(entries[i].services@);
    }
}

} // verus!
