//! Reading members from their sources: once to compress them, and once more for
//! those that are stored.

use vstd::prelude::*;

use crate::error::{Error, Result};
#[allow(unused_imports)]
use crate::rar50::assembly::reread_of;
use crate::rar50::assembly::SecondReading;
#[allow(unused_imports)]
use crate::rar50::blocks::CompressedMember;
use crate::rar50::compress::MemberSource;
#[allow(unused_imports)]
use crate::rar50::compress::{is_member_of, size_change_error};
#[allow(unused_imports)]
use crate::rar50::sealing::may_hash;
#[allow(unused_imports)]
use crate::streaming::source::{bytes_from, law_sources_announce_a_length};
use crate::streaming::source::{EntrySource, MemoryReader, SourceOpener};

verus! {

/// What is read of a source that announced `expected` bytes: those and one more,
/// which only tells that the source has grown.
pub open spec fn reading_of(reader: MemoryReader, expected: u64) -> Seq<u8> {
    let most: nat = if expected < usize::MAX {
        (expected + 1) as nat
    } else {
        usize::MAX as nat
    };
    bytes_from(reader.bytes(), reader.position(), most)
}

/// Whether a source may be read as these bytes.
pub open spec fn may_read<O: SourceOpener>(
    source: EntrySource<O>,
    r: std::result::Result<Seq<u8>, Error>,
) -> bool {
    if source.announced()->0 > usize::MAX {
        r == Err::<Seq<u8>, Error>(
            Error::InvalidHeader("member is larger than this host can hold"),
        )
    } else {
        exists|opened: Result<MemoryReader>| #[trigger]
            source.may_open(opened) && r == (match opened {
                Ok(reader) => Ok(reading_of(reader, source.announced()->0)),
                Err(error) => Err(error),
            })
    }
}

fn read_source<O: SourceOpener>(source: &EntrySource<O>) -> (r: Result<(u64, Vec<u8>)>)
    requires
        source.file() is None,
        source.is_ready(),
    ensures
        match r {
            Ok((size, data)) => source.announced() == Some(size) && may_read(*source, Ok(data@)),
            Err(error) => may_read(*source, Err(error)),
        },
{
    proof {
        law_sources_announce_a_length(*source);
    }
    let expected: u64 = source.len().unwrap();
    if expected > usize::MAX as u64 {
        return Err(Error::InvalidHeader("member is larger than this host can hold"));
    }
    let answer = source.open().unwrap();
    let ghost opened = answer;
    assert(source.may_open(opened));
    match answer {
        Ok(first) => {
            let mut reader = first;
            let most: usize = if (expected as usize) < usize::MAX {
                expected as usize + 1
            } else {
                usize::MAX
            };
            let data = reader.read(most);
            assert(data@ == reading_of(opened->Ok_0, expected));
            Ok((expected, data))
        },
        Err(error) => Err(error),
    }
}

/// Reads a member to compress it. The source is opened once.
pub fn read_member<O: SourceOpener, H: Fn(&[u8]) -> [u8; 32]>(
    source: &EntrySource<O>,
    hash: &H,
) -> (r: Result<MemberSource>)
    requires
        source.file() is None,
        source.is_ready(),
        forall|held: &[u8]| #[trigger] call_requires(*hash, (held,)),
    ensures
        match r {
            Ok(member) => source.announced() == Some(member.input_size) && may_read(
                *source,
                Ok(member.data@),
            ) && may_hash(*hash, member.data@, member.hash),
            Err(error) => may_read(*source, Err(error)),
        },
{
    match read_source(source) {
        Ok((input_size, data)) => {
            let digest: [u8; 32] = hash(data.as_slice());
            assert(may_hash(*hash, data@, digest));
            Ok(MemberSource { input_size, data, hash: digest })
        },
        Err(error) => Err(error),
    }
}

/// Reads a member once more, as it is to be written. The source is opened once.
pub fn read_again<O: SourceOpener, H: Fn(&[u8]) -> [u8; 32]>(
    source: &EntrySource<O>,
    hash: &H,
) -> (r: Result<SecondReading>)
    requires
        source.file() is None,
        source.is_ready(),
        forall|held: &[u8]| #[trigger] call_requires(*hash, (held,)),
    ensures
        match r {
            Ok(reading) => may_read(*source, Ok(reading.bytes@)) && may_hash(
                *hash,
                reading.bytes@,
                reading.hash,
            ),
            Err(error) => may_read(*source, Err(error)),
        },
{
    match read_source(source) {
        Ok((_, bytes)) => {
            let digest: [u8; 32] = hash(bytes.as_slice());
            assert(may_hash(*hash, bytes@, digest));
            Ok(SecondReading { bytes, hash: digest })
        },
        Err(error) => Err(error),
    }
}

/// A reading has the announced length exactly where the source has, though no more
/// than one byte beyond it is read.
pub proof fn law_a_reading_tells_a_changed_length(reader: MemoryReader, expected: u64)
    requires
        reader.bytes().len() < usize::MAX,
    ensures
        reading_of(reader, expected).len() == expected <==> reader.rest().len() == expected,
        reading_of(reader, expected).len() <= expected + 1,
        reader.rest().len() == expected ==> reading_of(reader, expected) == reader.rest(),
{
    assert(reader.rest().len() == expected ==> reading_of(reader, expected) =~= reader.rest());
}

/// A stored member whose source has grown or shrunk between its two readings is not
/// written.
pub proof fn law_a_source_that_changes_its_length_is_refused(
    source: MemberSource,
    packed: Seq<u8>,
    continued: bool,
    member: CompressedMember,
    reading: SecondReading,
)
    requires
        is_member_of(source, true, packed, continued, member),
        reading.bytes@.len() != source.input_size,
    ensures
        reread_of(member, reading).source_error() == Some(size_change_error()),
{
    assert(reading.bytes@.len() == reading.bytes.len());
}

} // verus!
