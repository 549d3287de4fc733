//! The archive formats, and the families they fall into.

use vstd::prelude::*;

verus! {

/// Formats that share one container layout.
#[derive(Debug, Clone, Copy, PartialEq, Eq, Structural)]
pub enum ArchiveFamily {
    Rar13,
    Rar15To40,
    Rar50Plus,
}

/// One archive format.
#[derive(Debug, Clone, Copy, PartialEq, Eq, Structural)]
pub enum ArchiveVersion {
    Rar13,
    Rar14,
    Rar15,
    Rar20,
    Rar29,
    Rar30,
    Rar40,
    Rar50,
    Rar70,
}

/// The family a format belongs to.
pub open spec fn family_of(version: ArchiveVersion) -> ArchiveFamily {
    match version {
        ArchiveVersion::Rar13 | ArchiveVersion::Rar14 => ArchiveFamily::Rar13,
        ArchiveVersion::Rar50 | ArchiveVersion::Rar70 => ArchiveFamily::Rar50Plus,
        _ => ArchiveFamily::Rar15To40,
    }
}

/// The spelling of a format that a user types.
pub open spec fn spelling_of(version: ArchiveVersion) -> Seq<char> {
    match version {
        ArchiveVersion::Rar13 => "rar13"@,
        ArchiveVersion::Rar14 => "rar14"@,
        ArchiveVersion::Rar15 => "rar15"@,
        ArchiveVersion::Rar20 => "rar20"@,
        ArchiveVersion::Rar29 => "rar29"@,
        ArchiveVersion::Rar30 => "rar30"@,
        ArchiveVersion::Rar40 => "rar40"@,
        ArchiveVersion::Rar50 => "rar50"@,
        ArchiveVersion::Rar70 => "rar70"@,
    }
}

/// Every format, oldest first.
pub open spec fn all_versions() -> Seq<ArchiveVersion> {
    seq![
        ArchiveVersion::Rar13,
        ArchiveVersion::Rar14,
        ArchiveVersion::Rar15,
        ArchiveVersion::Rar20,
        ArchiveVersion::Rar29,
        ArchiveVersion::Rar30,
        ArchiveVersion::Rar40,
        ArchiveVersion::Rar50,
        ArchiveVersion::Rar70,
    ]
}

impl ArchiveVersion {
    pub fn family(self) -> (family: ArchiveFamily)
        ensures
            family == family_of(self),
    {
        match self {
            Self::Rar13 | Self::Rar14 => ArchiveFamily::Rar13,
            Self::Rar15 | Self::Rar20 | Self::Rar29 | Self::Rar30 | Self::Rar40 => {
                ArchiveFamily::Rar15To40
            },
            Self::Rar50 | Self::Rar70 => ArchiveFamily::Rar50Plus,
        }
    }

    pub fn is_rar13_family(self) -> (is: bool)
        ensures
            is == (family_of(self) == ArchiveFamily::Rar13),
    {
        matches!(self, Self::Rar13 | Self::Rar14)
    }

    /// Every version, so that a caller can ask what each one supports without
    /// keeping a list of its own.
    pub fn all() -> (versions: Vec<ArchiveVersion>)
        ensures
            versions@ == all_versions(),
    {
        vec![
            ArchiveVersion::Rar13,
            ArchiveVersion::Rar14,
            ArchiveVersion::Rar15,
            ArchiveVersion::Rar20,
            ArchiveVersion::Rar29,
            ArchiveVersion::Rar30,
            ArchiveVersion::Rar40,
            ArchiveVersion::Rar50,
            ArchiveVersion::Rar70,
        ]
    }

    /// The spelling used on a command line and in every message.
    pub fn as_str(self) -> (spelling: &'static str)
        ensures
            spelling@ == spelling_of(self),
    {
        match self {
            Self::Rar13 => "rar13",
            Self::Rar14 => "rar14",
            Self::Rar15 => "rar15",
            Self::Rar20 => "rar20",
            Self::Rar29 => "rar29",
            Self::Rar30 => "rar30",
            Self::Rar40 => "rar40",
            Self::Rar50 => "rar50",
            Self::Rar70 => "rar70",
        }
    }
}

/// A spelling names one format only, so a user can type back what a message
/// printed.
pub proof fn law_spellings_are_distinct(a: ArchiveVersion, b: ArchiveVersion)
    ensures
        spelling_of(a) == spelling_of(b) ==> a == b,
{
    reveal_strlit("rar13");
    reveal_strlit("rar14");
    reveal_strlit("rar15");
    reveal_strlit("rar20");
    reveal_strlit("rar29");
    reveal_strlit("rar30");
    reveal_strlit("rar40");
    reveal_strlit("rar50");
    reveal_strlit("rar70");
    assert(spelling_of(a).len() == 5 && spelling_of(b).len() == 5);
    if spelling_of(a) == spelling_of(b) {
        assert(spelling_of(a)[3] == spelling_of(b)[3]);
        assert(spelling_of(a)[4] == spelling_of(b)[4]);
    }
}

/// The list of every version leaves none out.
pub proof fn law_all_versions_is_complete(version: ArchiveVersion)
    ensures
        all_versions().contains(version),
{
    let all = all_versions();
    match version {
        ArchiveVersion::Rar13 => assert(all[0] == version),
        ArchiveVersion::Rar14 => assert(all[1] == version),
        ArchiveVersion::Rar15 => assert(all[2] == version),
        ArchiveVersion::Rar20 => assert(all[3] == version),
        ArchiveVersion::Rar29 => assert(all[4] == version),
        ArchiveVersion::Rar30 => assert(all[5] == version),
        ArchiveVersion::Rar40 => assert(all[6] == version),
        ArchiveVersion::Rar50 => assert(all[7] == version),
        ArchiveVersion::Rar70 => assert(all[8] == version),
    }
}

} // verus!
