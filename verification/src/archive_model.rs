//! What a reader found in an archive, as far as a rewrite has to know it.

use vstd::prelude::*;

verus! {

/// Which system's attributes a member carries.
#[derive(Debug, Clone, Copy, PartialEq, Eq, Structural)]
pub enum AttrSource {
    Dos,
    Unix,
    Unknown,
}

/// What an archive says of one member.
#[derive(Debug)]
pub struct ArchiveMemberMeta {
    pub name: Vec<u8>,
    /// Whether the name can be given to a new member.
    pub has_writable_name: bool,
    pub unpacked_size: u64,
    pub file_attr: u64,
    pub attr_source: AttrSource,
    pub is_directory: bool,
    pub is_redirection: bool,
    pub is_encrypted: bool,
    pub is_split_before: bool,
    pub is_split_after: bool,
}

/// The main header of an archive in an older format.
#[derive(Debug, Clone, Copy, PartialEq, Eq, Structural)]
pub struct LegacyMain {
    pub solid: bool,
    pub volume: bool,
    pub encrypted_headers: bool,
    pub recovery_record: bool,
}

/// The main header of a RAR 5 archive.
#[derive(Debug, Clone, Copy, PartialEq, Eq, Structural)]
pub struct MainHeader {
    pub encrypted_headers: bool,
    pub solid: bool,
    pub volume: bool,
    pub has_volume_number: bool,
    pub recovery_record: bool,
    pub locked: bool,
    /// Whether everything in the header was understood.
    pub rewrite_metadata_complete: bool,
    pub archive_flags: u64,
    pub block_flags: u64,
    pub data_size: Option<u64>,
}

/// A file header.
#[derive(Debug, Clone, Copy, PartialEq, Eq, Structural)]
pub struct FileHeader {
    pub rewrite_metadata_complete: bool,
    pub file_flags: u64,
    pub block_flags: u64,
    pub compression_info: u64,
}

/// A service header.
#[derive(Debug)]
pub struct ServiceHeader {
    pub name: Vec<u8>,
    pub encrypted: bool,
    pub rewrite_metadata_complete: bool,
    pub has_modification_time: bool,
    pub file_flags: u64,
    pub block_flags: u64,
    pub attributes: u64,
    pub host_os: u64,
    pub compression_info: u64,
}

/// An end header.
#[derive(Debug, Clone, Copy, PartialEq, Eq, Structural)]
pub struct EndHeader {
    pub flags: u64,
    pub block_flags: u64,
    pub header_size: u64,
}

/// A block behind the main header.
#[derive(Debug)]
pub enum Block {
    File(FileHeader),
    Service(ServiceHeader),
    End(EndHeader),
    Unknown,
}

/// What differs between the formats.
#[derive(Debug)]
pub enum ArchiveFormat {
    Rar13(LegacyMain),
    Rar15To40(LegacyMain),
    Rar50Plus { main: MainHeader, blocks: Vec<Block> },
}

/// An archive that was read.
#[derive(Debug)]
pub struct Archive {
    /// Where the archive starts behind an executable.
    pub sfx_offset: u64,
    pub members: Vec<ArchiveMemberMeta>,
    pub format: ArchiveFormat,
}

impl Archive {
    pub open spec fn solid(self) -> bool {
        match self.format {
            ArchiveFormat::Rar13(main) => main.solid,
            ArchiveFormat::Rar15To40(main) => main.solid,
            ArchiveFormat::Rar50Plus { main, .. } => main.solid,
        }
    }

    /// Whether members share one dictionary.
    pub fn is_solid(&self) -> (answer: bool)
        ensures
            answer == self.solid(),
    {
        match &self.format {
            ArchiveFormat::Rar13(main) => main.solid,
            ArchiveFormat::Rar15To40(main) => main.solid,
            ArchiveFormat::Rar50Plus { main, .. } => main.solid,
        }
    }
}

/// The type bits of a Unix mode.
pub open spec fn mode_kind(file_attr: u64) -> nat {
    ((file_attr / 4096) % 16) as nat
}

/// Whether an attribute bit, given by its weight, is set.
pub open spec fn has_attr(file_attr: u64, weight: nat) -> bool {
    (file_attr as nat / weight) % 2 == 1
}

/// Whether a member is neither a plain file nor a plain directory: a link, a
/// device, a directory that holds bytes, a reparse point.
pub open spec fn is_special(meta: ArchiveMemberMeta) -> bool {
    let kind = mode_kind(meta.file_attr);
    ||| meta.is_redirection
    ||| meta.is_directory && meta.unpacked_size != 0
    ||| meta.attr_source == AttrSource::Unix && kind != 0 && kind != 8 && !(meta.is_directory && kind
        == 4)
    ||| meta.attr_source == AttrSource::Dos && has_attr(meta.file_attr, 0x400)
}

pub fn special_entry(meta: &ArchiveMemberMeta) -> (answer: bool)
    ensures
        answer == is_special(*meta),
{
    let kind: u64 = (meta.file_attr / 4096) % 16;
    meta.is_redirection || (meta.is_directory && meta.unpacked_size != 0) || (matches!(
        meta.attr_source,
        AttrSource::Unix
    ) && kind != 0 && kind != 8 && !(meta.is_directory && kind == 4)) || (matches!(
        meta.attr_source,
        AttrSource::Dos
    ) && (meta.file_attr / 0x400) % 2 == 1)
}

} // verus!
