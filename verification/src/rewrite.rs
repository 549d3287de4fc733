//! What a rewrite of an archive could not promise to preserve.

use vstd::prelude::*;
use vstd::string::StringExecFns;

use crate::archive_model::{
    special_entry, Archive, ArchiveFormat, ArchiveMemberMeta, AttrSource, Block, EndHeader,
    FileHeader, LegacyMain, MainHeader, ServiceHeader,
};
#[allow(unused_imports)]
use crate::archive_model::{has_attr, is_special, mode_kind};
use crate::bytes::same_bytes;
#[allow(unused_imports)]
use crate::rar50::entry::comment_name;
use crate::text::{decimal_text, lossy_text, quoted_text};
#[allow(unused_imports)]
use crate::text::{decimal_chars, lossy_chars, quoted_chars};

verus! {

pub open spec fn texts(issues: Seq<String>) -> Seq<Seq<char>> {
    Seq::new(issues.len(), |i: int| issues[i]@)
}

/// A sentence where it applies.
#[verifier::opaque]
pub open spec fn when(applies: bool, text: Seq<char>) -> Seq<Seq<char>> {
    if applies {
        seq![text]
    } else {
        Seq::empty()
    }
}

fn no_issues() -> (issues: Vec<String>)
    ensures
        texts(issues@) == Seq::<Seq<char>>::empty(),
{
    let issues: Vec<String> = Vec::new();
    assert(texts(issues@) =~= Seq::<Seq<char>>::empty());
    issues
}

/// Puts further issues behind those that are there.
fn append_issues(issues: &mut Vec<String>, more: Vec<String>)
    ensures
        texts(final(issues)@) == texts(old(issues)@) + texts(more@),
{
    let ghost before = issues@;
    let ghost added = more@;
    let mut rest = more;
    issues.append(&mut rest);
    assert(issues@ =~= before + added);
    assert(texts(issues@) =~= texts(before) + texts(added));
}

fn note_if(issues: &mut Vec<String>, applies: bool, text: &str)
    ensures
        texts(final(issues)@) == texts(old(issues)@) + when(applies, text@),
{
    let ghost before = texts(issues@);
    reveal(when);
    if applies {
        issues.push(String::from_str(text));
    }
    assert(texts(issues@) =~= before + when(applies, text@));
}

fn note_labelled_if(issues: &mut Vec<String>, applies: bool, label: &String, text: &str)
    ensures
        texts(final(issues)@) == texts(old(issues)@) + when(applies, label@ + text@),
{
    let ghost before = texts(issues@);
    reveal(when);
    if applies {
        let mut issue = String::from_str(label.as_str());
        issue.append(text);
        issues.push(issue);
    }
    assert(texts(issues@) =~= before + when(applies, label@ + text@));
}

/// How a name is shown: as text, and quoted.
pub open spec fn shown_name(name: Seq<u8>) -> Seq<char> {
    quoted_chars(lossy_chars(name))
}

fn show_name(name: &[u8]) -> (shown: String)
    ensures
        shown@ == shown_name(name@),
{
    quoted_text(lossy_text(name).as_str())
}

/// How a member is named in a sentence.
pub open spec fn member_label(index: nat, shown: Seq<char>) -> Seq<char> {
    "member "@ + decimal_chars(index) + " ("@ + shown + ")"@
}

fn label_member(index: usize, shown: &str) -> (label: String)
    ensures
        label@ == member_label(index as nat, shown@),
{
    let mut label = String::from_str("member ");
    label.append(decimal_text(index as u64).as_str());
    label.append(" (");
    label.append(shown);
    label.append(")");
    label
}

/// Whether a member's attributes do not fit what it is.
pub open spec fn has_odd_attributes(meta: ArchiveMemberMeta) -> bool {
    ||| meta.attr_source == AttrSource::Unix && (meta.file_attr >= 0x1_0000 || (meta.is_directory
        && mode_kind(meta.file_attr) == 8))
    ||| meta.attr_source == AttrSource::Dos && has_attr(meta.file_attr, 0x10) != meta.is_directory
}

fn odd_attributes(meta: &ArchiveMemberMeta) -> (answer: bool)
    ensures
        answer == has_odd_attributes(*meta),
{
    (matches!(meta.attr_source, AttrSource::Unix) && (meta.file_attr >= 0x1_0000 || (
    meta.is_directory && (meta.file_attr / 4096) % 16 == 8))) || (matches!(
        meta.attr_source,
        AttrSource::Dos
    ) && ((meta.file_attr / 0x10) % 2 == 1) != meta.is_directory)
}

/// What speaks against one member whose name is shown so. `repeated` says that an
/// earlier member has its name.
pub open spec fn member_issues(
    index: nat,
    shown: Seq<char>,
    meta: ArchiveMemberMeta,
    repeated: bool,
) -> Seq<Seq<char>> {
    let label = member_label(index, shown);
    Seq::empty() + when(repeated, label + ": duplicate name"@) + when(
        !meta.has_writable_name,
        label + ": unsupported output name"@,
    ) + when(meta.is_encrypted, label + ": data encryption"@) + when(
        meta.is_split_before || meta.is_split_after,
        label + ": split-volume layout"@,
    ) + when(
        meta.attr_source == AttrSource::Unknown,
        label + ": unknown host attributes"@,
    ) + when(is_special(meta), label + ": special entry type or directory contents"@) + when(
        has_odd_attributes(meta),
        label + ": unsupported or inconsistent attributes"@,
    )
}

/// Tells what speaks against one member.
pub fn issues_of_member(
    index: usize,
    shown: &str,
    meta: &ArchiveMemberMeta,
    repeated: bool,
) -> (issues: Vec<String>)
    ensures
        texts(issues@) == member_issues(index as nat, shown@, *meta, repeated),
{
    let mut issues = no_issues();
    let label = label_member(index, shown);
    note_labelled_if(&mut issues, repeated, &label, ": duplicate name");
    note_labelled_if(&mut issues, !meta.has_writable_name, &label, ": unsupported output name");
    note_labelled_if(&mut issues, meta.is_encrypted, &label, ": data encryption");
    note_labelled_if(
        &mut issues,
        meta.is_split_before || meta.is_split_after,
        &label,
        ": split-volume layout",
    );
    note_labelled_if(
        &mut issues,
        matches!(meta.attr_source, AttrSource::Unknown),
        &label,
        ": unknown host attributes",
    );
    note_labelled_if(
        &mut issues,
        special_entry(meta),
        &label,
        ": special entry type or directory contents",
    );
    note_labelled_if(
        &mut issues,
        odd_attributes(meta),
        &label,
        ": unsupported or inconsistent attributes",
    );
    issues
}

/// Whether an earlier member has the name of member `at`.
pub open spec fn is_repeated(members: Seq<ArchiveMemberMeta>, at: int) -> bool {
    exists|i: int| 0 <= i < at && (#[trigger] members[i]).name@ == members[at].name@
}

fn repeats_a_name(members: &Vec<ArchiveMemberMeta>, at: usize) -> (answer: bool)
    requires
        at < members@.len(),
    ensures
        answer == is_repeated(members@, at as int),
{
    let mut i: usize = 0;
    while i < at
        invariant
            i <= at < members@.len(),
            forall|k: int| 0 <= k < i ==> (#[trigger] members@[k]).name@ != members@[at as int].name@,
        decreases at - i,
    {
        if same_bytes(&members[i].name, &members[at].name) {
            return true;
        }
        i = i + 1;
    }
    false
}

/// What speaks against the first `count` members.
pub open spec fn all_member_issues(members: Seq<ArchiveMemberMeta>, count: nat) -> Seq<Seq<char>>
    decreases count,
{
    if count == 0 {
        Seq::empty()
    } else {
        let at = (count - 1) as nat;
        all_member_issues(members, at) + member_issues(
            at,
            shown_name(members[at as int].name@),
            members[at as int],
            is_repeated(members, at as int),
        )
    }
}

/// What speaks against an archive in an older format.
pub open spec fn legacy_issues(main: LegacyMain, newer: bool) -> Seq<Seq<char>> {
    Seq::empty() + when(
        true,
        "legacy source format and metadata require preservation adapters"@,
    ) + when(main.solid, "solid archive"@) + when(main.volume, "volume layout"@) + when(
        newer && main.encrypted_headers,
        "header encryption"@,
    ) + when(newer && main.recovery_record, "recovery records"@)
}

fn issues_of_legacy(main: &LegacyMain, newer: bool) -> (issues: Vec<String>)
    ensures
        texts(issues@) == legacy_issues(*main, newer),
{
    let mut issues = no_issues();
    note_if(&mut issues, true, "legacy source format and metadata require preservation adapters");
    note_if(&mut issues, main.solid, "solid archive");
    note_if(&mut issues, main.volume, "volume layout");
    note_if(&mut issues, newer && main.encrypted_headers, "header encryption");
    note_if(&mut issues, newer && main.recovery_record, "recovery records");
    issues
}

/// Whether a main header holds what a writer would not write.
pub open spec fn is_odd_main(main: MainHeader) -> bool {
    ||| !main.rewrite_metadata_complete
    ||| main.archive_flags >= 0x20
    ||| main.block_flags >= 2
    ||| main.data_size matches Some(size) && size != 0
}

/// What speaks against a main header.
pub open spec fn main_issues(main: MainHeader) -> Seq<Seq<char>> {
    Seq::empty() + when(main.encrypted_headers, "header encryption"@) + when(main.solid, "solid archive"@) + when(
        main.volume || main.has_volume_number,
        "volume layout"@,
    ) + when(main.recovery_record, "recovery records"@) + when(
        main.locked,
        "archive lock flag"@,
    ) + when(is_odd_main(main), "main header metadata, extra records or unknown flags"@)
}

fn issues_of_main(main: &MainHeader) -> (issues: Vec<String>)
    ensures
        texts(issues@) == main_issues(*main),
{
    let mut issues = no_issues();
    let has_data: bool = match main.data_size {
        Some(size) => size != 0,
        None => false,
    };
    note_if(&mut issues, main.encrypted_headers, "header encryption");
    note_if(&mut issues, main.solid, "solid archive");
    note_if(&mut issues, main.volume || main.has_volume_number, "volume layout");
    note_if(&mut issues, main.recovery_record, "recovery records");
    note_if(&mut issues, main.locked, "archive lock flag");
    note_if(
        &mut issues,
        !main.rewrite_metadata_complete || main.archive_flags >= 0x20 || main.block_flags >= 2
            || has_data,
        "main header metadata, extra records or unknown flags",
    );
    issues
}

/// How a file header is named in a sentence.
pub open spec fn header_label(index: nat) -> Seq<char> {
    "member "@ + decimal_chars(index)
}

/// Whether a file header holds what a writer would not write.
pub open spec fn is_odd_file(file: FileHeader) -> bool {
    ||| !file.rewrite_metadata_complete
    ||| file.file_flags >= 8
    ||| file.block_flags >= 0x20
    ||| (file.block_flags / 4) % 2 == 1
    ||| file.compression_info >= 0x8000
}

/// What speaks against the header of member `index`.
pub open spec fn file_issues(index: nat, file: FileHeader) -> Seq<Seq<char>> {
    let label = header_label(index);
    Seq::empty() + when(
        is_odd_file(file),
        label + ": unsupported, duplicate or incomplete metadata"@,
    ) + when(
        file.compression_info % 64 != 0,
        label + ": source format requires conversion to RAR5"@,
    ) + when((file.compression_info / 64) % 2 == 1, label + ": solid dependency"@)
}

fn issues_of_file(index: usize, file: &FileHeader) -> (issues: Vec<String>)
    ensures
        texts(issues@) == file_issues(index as nat, *file),
{
    let mut issues = no_issues();
    let mut label = String::from_str("member ");
    label.append(decimal_text(index as u64).as_str());
    note_labelled_if(
        &mut issues,
        !file.rewrite_metadata_complete || file.file_flags >= 8 || file.block_flags >= 0x20 || (
        file.block_flags / 4) % 2 == 1 || file.compression_info >= 0x8000,
        &label,
        ": unsupported, duplicate or incomplete metadata",
    );
    note_labelled_if(
        &mut issues,
        file.compression_info % 64 != 0,
        &label,
        ": source format requires conversion to RAR5",
    );
    note_labelled_if(
        &mut issues,
        (file.compression_info / 64) % 2 == 1,
        &label,
        ": solid dependency",
    );
    issues
}

/// Whether a service is anything but the one plain comment that each owner, the
/// archive or the member before, may have.
pub open spec fn is_odd_service(service: ServiceHeader, service_seen: bool) -> bool {
    ||| service_seen
    ||| service.name@ != comment_name()
    ||| service.encrypted
    ||| !service.rewrite_metadata_complete
    ||| service.has_modification_time
    ||| service.file_flags != 0 && service.file_flags != 4
    ||| service.block_flags >= 4
    ||| service.attributes != 0
    ||| service.host_os != 0
    ||| service.compression_info >= 0x8000
    ||| service.compression_info % 128 != 0
}

/// What speaks against a service whose name is shown so.
pub open spec fn service_issues(
    shown: Seq<char>,
    service: ServiceHeader,
    service_seen: bool,
) -> Seq<Seq<char>> {
    Seq::empty() + when(is_odd_service(service, service_seen), "service record "@ + shown)
}

/// Tells what speaks against a service.
pub fn issues_of_service(shown: &str, service: &ServiceHeader, service_seen: bool) -> (issues: Vec<
    String,
>)
    ensures
        texts(issues@) == service_issues(shown@, *service, service_seen),
{
    let name: [u8; 3] = [0x43, 0x4d, 0x54];
    assert(name@ =~= comment_name());
    let odd: bool = service_seen || !same_bytes(&service.name, &name) || service.encrypted
        || !service.rewrite_metadata_complete || service.has_modification_time || (
    service.file_flags != 0 && service.file_flags != 4) || service.block_flags >= 4
        || service.attributes != 0 || service.host_os != 0 || service.compression_info >= 0x8000
        || service.compression_info % 128 != 0;
    let mut issues = no_issues();
    let label = String::from_str("service record ");
    note_labelled_if(&mut issues, odd, &label, shown);
    issues
}

/// Whether an end header holds more than type, block flags and end flags.
pub open spec fn is_odd_end(end: EndHeader) -> bool {
    end.flags != 0 || end.block_flags != 0 || end.header_size != 3
}

/// What speaks against a block, `index` members and perhaps a service of the
/// same owner being behind.
pub open spec fn block_issues(block: Block, index: nat, service_seen: bool) -> Seq<Seq<char>> {
    match block {
        Block::File(file) => file_issues(index, file),
        Block::Service(service) => service_issues(
            shown_name(service.name@),
            service,
            service_seen,
        ),
        Block::End(end) => Seq::empty() + when(
            is_odd_end(end),
            "end header flags, volume continuation or extra metadata"@,
        ),
        Block::Unknown => Seq::empty() + when(true, "unknown archive block"@),
    }
}

fn issues_of_block(block: &Block, index: usize, service_seen: bool) -> (issues: Vec<String>)
    ensures
        texts(issues@) == block_issues(*block, index as nat, service_seen),
{
    match block {
        Block::File(file) => issues_of_file(index, file),
        Block::Service(service) => {
            let shown = show_name(&service.name);
            issues_of_service(shown.as_str(), service, service_seen)
        },
        Block::End(end) => {
            let mut issues = no_issues();
            note_if(
                &mut issues,
                end.flags != 0 || end.block_flags != 0 || end.header_size != 3,
                "end header flags, volume continuation or extra metadata",
            );
            issues
        },
        Block::Unknown => {
            let mut issues = no_issues();
            note_if(&mut issues, true, "unknown archive block");
            issues
        },
    }
}

/// How many members stand before block `at`.
pub open spec fn files_before(blocks: Seq<Block>, at: nat) -> nat
    decreases at,
{
    if at == 0 {
        0
    } else {
        files_before(blocks, (at - 1) as nat) + (if blocks[at - 1] is File {
            1nat
        } else {
            0
        })
    }
}

/// Whether the owner that block `at` would belong to has a service already.
pub open spec fn service_before(blocks: Seq<Block>, at: nat) -> bool
    decreases at,
{
    if at == 0 || blocks[at - 1] is File {
        false
    } else {
        blocks[at - 1] is Service || service_before(blocks, (at - 1) as nat)
    }
}

/// What speaks against the first `count` blocks.
pub open spec fn all_block_issues(blocks: Seq<Block>, count: nat) -> Seq<Seq<char>>
    decreases count,
{
    if count == 0 {
        Seq::empty()
    } else {
        let at = (count - 1) as nat;
        all_block_issues(blocks, at) + block_issues(
            blocks[at as int],
            files_before(blocks, at),
            service_before(blocks, at),
        )
    }
}

fn issues_of_blocks(blocks: &Vec<Block>) -> (issues: Vec<String>)
    ensures
        texts(issues@) == all_block_issues(blocks@, blocks@.len()),
{
    let mut issues = no_issues();
    let mut index: usize = 0;
    let mut service_seen: bool = false;
    let mut at: usize = 0;
    while at < blocks.len()
        invariant
            at <= blocks@.len(),
            index <= at,
            index == files_before(blocks@, at as nat),
            service_seen == service_before(blocks@, at as nat),
            texts(issues@) == all_block_issues(blocks@, at as nat),
        decreases blocks@.len() - at,
    {
        let own = issues_of_block(&blocks[at], index, service_seen);
        append_issues(&mut issues, own);
        match &blocks[at] {
            Block::File(_) => {
                index = index + 1;
                service_seen = false;
            },
            Block::Service(_) => {
                service_seen = true;
            },
            _ => {},
        }
        at = at + 1;
    }
    issues
}

fn issues_of_members(members: &Vec<ArchiveMemberMeta>) -> (issues: Vec<String>)
    ensures
        texts(issues@) == all_member_issues(members@, members@.len()),
{
    let mut issues = no_issues();
    let mut at: usize = 0;
    while at < members.len()
        invariant
            at <= members@.len(),
            texts(issues@) == all_member_issues(members@, at as nat),
        decreases members@.len() - at,
    {
        let repeated: bool = repeats_a_name(members, at);
        let shown = show_name(&members[at].name);
        let own = issues_of_member(at, shown.as_str(), &members[at], repeated);
        append_issues(&mut issues, own);
        at = at + 1;
    }
    issues
}

/// What speaks against the container of an archive.
pub open spec fn format_issues(format: ArchiveFormat) -> Seq<Seq<char>> {
    match format {
        ArchiveFormat::Rar13(main) => legacy_issues(main, false),
        ArchiveFormat::Rar15To40(main) => legacy_issues(main, true),
        ArchiveFormat::Rar50Plus { main, blocks } => main_issues(main) + all_block_issues(
            blocks@,
            blocks@.len(),
        ),
    }
}

fn issues_of_format(format: &ArchiveFormat) -> (issues: Vec<String>)
    ensures
        texts(issues@) == format_issues(*format),
{
    match format {
        ArchiveFormat::Rar13(main) => issues_of_legacy(main, false),
        ArchiveFormat::Rar15To40(main) => issues_of_legacy(main, true),
        ArchiveFormat::Rar50Plus { main, blocks } => {
            let mut issues = issues_of_main(main);
            append_issues(&mut issues, issues_of_blocks(blocks));
            issues
        },
    }
}

/// Everything that speaks against rewriting an archive.
pub open spec fn archive_issues(archive: Archive) -> Seq<Seq<char>> {
    Seq::empty() + when(archive.sfx_offset != 0, "SFX executable prefix"@) + all_member_issues(
        archive.members@,
        archive.members@.len(),
    ) + format_issues(archive.format)
}

impl Archive {
    /// Properties that a rewrite could not promise to preserve.
    ///
    /// An empty list certifies only the supported metadata, not payload
    /// integrity or byte-identical output. Older formats are always refused.
    pub fn rewrite_preservation_issues(&self) -> (issues: Vec<String>)
        ensures
            texts(issues@) == archive_issues(*self),
    {
        let mut issues = no_issues();
        note_if(&mut issues, self.sfx_offset != 0, "SFX executable prefix");
        append_issues(&mut issues, issues_of_members(&self.members));
        append_issues(&mut issues, issues_of_format(&self.format));
        issues
    }
}

proof fn lemma_member_issues_grow(members: Seq<ArchiveMemberMeta>, small: nat, large: nat)
    requires
        small <= large,
    ensures
        all_member_issues(members, small).len() <= all_member_issues(members, large).len(),
    decreases large,
{
    if small < large {
        lemma_member_issues_grow(members, small, (large - 1) as nat);
    }
}

/// An archive without issues holds only what a rewrite preserves: a RAR 5
/// archive that is not solid, locked, split, encrypted or protected, no two
/// members of one name, and no member that is encrypted, split or special.
pub proof fn law_no_issue_means_plain_members(archive: Archive, at: int)
    requires
        archive_issues(archive).len() == 0,
        0 <= at < archive.members@.len(),
    ensures
        archive.sfx_offset == 0,
        archive.format is Rar50Plus,
        !archive.solid(),
        !is_repeated(archive.members@, at),
        !archive.members@[at].is_encrypted,
        !archive.members@[at].is_split_before,
        !archive.members@[at].is_split_after,
        !is_special(archive.members@[at]),
{
    reveal(when);
    let members = archive.members@;
    lemma_member_issues_grow(members, (at + 1) as nat, members.len());
    assert(all_member_issues(members, (at + 1) as nat).len() == 0);
    let shown = shown_name(members[at].name@);
    assert(member_issues(at as nat, shown, members[at], is_repeated(members, at)).len() == 0);
    match archive.format {
        ArchiveFormat::Rar13(main) => {
            assert(legacy_issues(main, false).len() > 0);
        },
        ArchiveFormat::Rar15To40(main) => {
            assert(legacy_issues(main, true).len() > 0);
        },
        ArchiveFormat::Rar50Plus { main, blocks } => {
            assert(main_issues(main).len() == 0);
        },
    }
}

/// Whether a rewrite preserves all that is known of a member: a plain file or a plain
/// directory under a name that can be written, with attributes that say the same.
pub open spec fn is_plain_member(meta: ArchiveMemberMeta) -> bool {
    let kind = (meta.file_attr / 4096) % 16;
    &&& meta.has_writable_name
    &&& !meta.is_encrypted
    &&& !meta.is_split_before
    &&& !meta.is_split_after
    &&& !meta.is_redirection
    &&& meta.is_directory ==> meta.unpacked_size == 0
    &&& match meta.attr_source {
        AttrSource::Unknown => false,
        AttrSource::Unix => meta.file_attr <= 0xffff && (kind == 0 || kind == (
        if meta.is_directory {
            4u64
        } else {
            8
        })),
        AttrSource::Dos => (meta.is_directory <==> (meta.file_attr / 16) % 2 == 1) && (
        meta.file_attr / 1024) % 2 == 0,
    }
}

/// Whether a rewrite preserves all that a main header says.
pub open spec fn is_plain_main(main: MainHeader) -> bool {
    &&& main.rewrite_metadata_complete
    &&& !main.encrypted_headers
    &&& !main.solid
    &&& !main.volume
    &&& !main.has_volume_number
    &&& !main.recovery_record
    &&& !main.locked
    &&& main.archive_flags <= 31
    &&& main.block_flags <= 1
    &&& main.data_size is Some ==> main.data_size == Some(0u64)
}

/// Whether a rewrite preserves all that a file header says.
pub open spec fn is_plain_file(file: FileHeader) -> bool {
    &&& file.rewrite_metadata_complete
    // Directory, time, checksum.
    &&& file.file_flags <= 7
    // Extra area, data, split before, split after.
    &&& file.block_flags <= 31 && (file.block_flags / 4) % 2 == 0
    // The first algorithm, no dictionary of another member, nothing unknown.
    &&& file.compression_info <= 0x7fff
    &&& file.compression_info % 64 == 0
    &&& (file.compression_info / 64) % 2 == 0
}

/// Whether a service is a plain comment, `CMT`.
pub open spec fn is_plain_comment(service: ServiceHeader) -> bool {
    &&& service.rewrite_metadata_complete
    &&& service.name@ == seq![0x43u8, 0x4du8, 0x54u8]
    &&& !service.encrypted
    &&& !service.has_modification_time
    &&& service.file_flags == 0 || service.file_flags == 4
    &&& service.block_flags <= 3
    &&& service.attributes == 0
    &&& service.host_os == 0
    &&& service.compression_info <= 0x7fff
    &&& service.compression_info % 64 == 0
    &&& (service.compression_info / 64) % 2 == 0
}

/// Whether a member stands between two services.
pub open spec fn has_file_between(blocks: Seq<Block>, first: int, second: int) -> bool {
    exists|k: int| first < k < second && #[trigger] blocks[k] is File
}

/// Whether a rewrite preserves a block: every file and every comment is plain, an owner
/// has one comment at most, and the end header says nothing.
pub open spec fn is_plain_block(blocks: Seq<Block>, at: int) -> bool {
    match blocks[at] {
        Block::File(file) => is_plain_file(file),
        Block::Service(service) => is_plain_comment(service) && forall|other: int|
            0 <= other < at && #[trigger] blocks[other] is Service ==> has_file_between(
                blocks,
                other,
                at,
            ),
        Block::End(end) => end.flags == 0 && end.block_flags == 0 && end.header_size == 3,
        Block::Unknown => false,
    }
}

proof fn lemma_member_issues_none(
    index: nat,
    shown: Seq<char>,
    meta: ArchiveMemberMeta,
    repeated: bool,
)
    ensures
        member_issues(index, shown, meta, repeated).len() == 0 <==> is_plain_member(meta)
            && !repeated,
{
    reveal(when);
}

proof fn lemma_all_member_issues_none(members: Seq<ArchiveMemberMeta>, count: nat)
    requires
        count <= members.len(),
    ensures
        all_member_issues(members, count).len() == 0 <==> (forall|at: int|
            0 <= at < count ==> is_plain_member(#[trigger] members[at]) && !is_repeated(
                members,
                at,
            )),
    decreases count,
{
    if count > 0 {
        let at = (count - 1) as nat;
        lemma_all_member_issues_none(members, at);
        lemma_member_issues_none(
            at,
            shown_name(members[at as int].name@),
            members[at as int],
            is_repeated(members, at as int),
        );
    }
}

proof fn lemma_main_issues_none(main: MainHeader)
    ensures
        main_issues(main).len() == 0 <==> is_plain_main(main),
{
    reveal(when);
}

proof fn lemma_file_issues_none(index: nat, file: FileHeader)
    ensures
        file_issues(index, file).len() == 0 <==> is_plain_file(file),
{
    reveal(when);
}

proof fn lemma_service_issues_none(shown: Seq<char>, service: ServiceHeader, seen: bool)
    ensures
        service_issues(shown, service, seen).len() == 0 <==> is_plain_comment(service) && !seen,
{
    reveal(when);
    let info = service.compression_info;
    assert(info % 128 == 0 <==> info % 64 == 0 && (info / 64) % 2 == 0);
    assert(comment_name() =~= seq![0x43u8, 0x4du8, 0x54u8]);
}

/// A service of the same owner was seen if and only if one stands further up with no
/// member between.
proof fn lemma_service_before(blocks: Seq<Block>, at: nat)
    requires
        at <= blocks.len(),
    ensures
        !service_before(blocks, at) <==> (forall|other: int|
            0 <= other < at && #[trigger] blocks[other] is Service ==> has_file_between(
                blocks,
                other,
                at as int,
            )),
    decreases at,
{
    if at > 0 {
        let last = at - 1;
        lemma_service_before(blocks, last as nat);
        if blocks[last] is File {
            assert forall|other: int|
                0 <= other < at && #[trigger] blocks[other] is Service implies has_file_between(
                blocks,
                other,
                at as int,
            ) by {
                assert(other < last < at && blocks[last] is File);
            }
        } else if blocks[last] is Service {
            assert(!has_file_between(blocks, last, at as int));
        } else {
            assert forall|other: int| 0 <= other < at && blocks[other] is Service implies (
            #[trigger] has_file_between(blocks, other, at as int) <==> has_file_between(
                blocks,
                other,
                last,
            )) by {
                if has_file_between(blocks, other, at as int) {
                    let k = choose|k: int| other < k < at && #[trigger] blocks[k] is File;
                    assert(k != last);
                }
                if has_file_between(blocks, other, last) {
                    let k = choose|k: int| other < k < last && #[trigger] blocks[k] is File;
                    assert(other < k < at && blocks[k] is File);
                }
            }
            if service_before(blocks, last as nat) {
                let other = choose|other: int|
                    0 <= other < last && #[trigger] blocks[other] is Service && !has_file_between(
                        blocks,
                        other,
                        last,
                    );
                assert(!has_file_between(blocks, other, at as int));
            }
        }
    }
}

proof fn lemma_block_issues_none(blocks: Seq<Block>, at: nat)
    requires
        at < blocks.len(),
    ensures
        block_issues(
            blocks[at as int],
            files_before(blocks, at),
            service_before(blocks, at),
        ).len() == 0 <==> is_plain_block(blocks, at as int),
{
    match blocks[at as int] {
        Block::File(file) => {
            lemma_file_issues_none(files_before(blocks, at), file);
        },
        Block::Service(service) => {
            lemma_service_before(blocks, at);
            lemma_service_issues_none(
                shown_name(service.name@),
                service,
                service_before(blocks, at),
            );
        },
        _ => {
            reveal(when);
        },
    }
}

proof fn lemma_all_block_issues_none(blocks: Seq<Block>, count: nat)
    requires
        count <= blocks.len(),
    ensures
        all_block_issues(blocks, count).len() == 0 <==> (forall|at: int|
            0 <= at < count ==> #[trigger] is_plain_block(blocks, at)),
    decreases count,
{
    if count > 0 {
        let at = (count - 1) as nat;
        lemma_all_block_issues_none(blocks, at);
        lemma_block_issues_none(blocks, at);
    }
}

/// An archive has no issues if and only if a rewrite preserves all that is known of it:
/// nothing stands before it, it is a RAR 5 archive whose main header is plain, every block
/// in it is plain, and every member is plain and the only one of its name.
pub proof fn law_no_issue_means_all_is_plain(archive: Archive)
    ensures
        archive_issues(archive).len() == 0 <==> {
            &&& archive.sfx_offset == 0
            &&& archive.format matches ArchiveFormat::Rar50Plus { main, blocks }
            &&& is_plain_main(main)
            &&& forall|at: int|
                0 <= at < blocks@.len() ==> #[trigger] is_plain_block(blocks@, at)
            &&& forall|at: int|
                0 <= at < archive.members@.len() ==> is_plain_member(
                    #[trigger] archive.members@[at],
                )
            &&& forall|first: int, second: int|
                0 <= first < second < archive.members@.len()
                    ==> (#[trigger] archive.members@[first]).name@ != (
                #[trigger] archive.members@[second]).name@
        },
{
    let members = archive.members@;
    lemma_all_member_issues_none(members, members.len());
    assert((forall|at: int| 0 <= at < members.len() ==> !#[trigger] is_repeated(members, at))
        <==> (forall|first: int, second: int|
        0 <= first < second < members.len() ==> (#[trigger] members[first]).name@ != (
        #[trigger] members[second]).name@)) by {
        if forall|first: int, second: int|
            0 <= first < second < members.len() ==> (#[trigger] members[first]).name@ != (
            #[trigger] members[second]).name@ {
            assert forall|at: int| 0 <= at < members.len() implies !#[trigger] is_repeated(
                members,
                at,
            ) by {}
        }
        if forall|at: int| 0 <= at < members.len() ==> !#[trigger] is_repeated(members, at) {
            assert forall|first: int, second: int| 0 <= first < second < members.len() implies (
            #[trigger] members[first]).name@ != (#[trigger] members[second]).name@ by {
                assert(!is_repeated(members, second));
            }
        }
    }
    assert((forall|at: int|
        0 <= at < members.len() ==> is_plain_member(#[trigger] members[at]) && !is_repeated(
            members,
            at,
        )) <==> (forall|at: int| 0 <= at < members.len() ==> is_plain_member(#[trigger] members[at]))
        && (forall|at: int| 0 <= at < members.len() ==> !#[trigger] is_repeated(members, at)));
    reveal(when);
    match archive.format {
        ArchiveFormat::Rar13(main) => {
            assert(legacy_issues(main, false).len() > 0);
        },
        ArchiveFormat::Rar15To40(main) => {
            assert(legacy_issues(main, true).len() > 0);
        },
        ArchiveFormat::Rar50Plus { main, blocks } => {
            lemma_main_issues_none(main);
            lemma_all_block_issues_none(blocks@, blocks@.len());
        },
    }
}

} // verus!
