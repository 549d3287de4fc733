//! Where members come from.
//!
//! A source is not a snapshot: it announces a length, and what it yields is
//! held to that length. A reader takes at most the announced bytes and one
//! more, which only tells whether the source has grown.

use std::sync::Arc;

use vstd::prelude::*;

use crate::bytes::copy_bytes;
use crate::error::{Error, Result};
use crate::streaming::memory_spool::{resolve_seek, SeekFrom};
#[allow(unused_imports)]
use crate::streaming::memory_spool::seek_target;
use crate::streaming::resources::{CapacityCharge, CapacityClass, WriterResources};

verus! {

/// How much of a member is read at a time when it is walked rather than held.
pub const WALK_CHUNK: usize = 0x4_0000;

/// Another handle on a shared value, as `Arc::clone` gives it: the value is the
/// same one, and nothing of it is copied.
#[verifier::external_body]
fn share<T>(value: &Arc<T>) -> (handle: Arc<T>)
    ensures
        handle == *value,
{
    Arc::clone(value)
}

/// What opens a source anew each time it is read.
pub trait SourceOpener {
    /// Whether the source can be opened.
    spec fn is_ready(&self) -> bool;

    /// Whether an opening may come to this.
    spec fn may_yield(&self, r: Result<MemoryReader>) -> bool;

    fn open(&self) -> (r: Result<MemoryReader>)
        requires
            self.is_ready(),
        ensures
            self.may_yield(r),
    ;
}

/// Opens a source by a call.
pub struct CallOpener<F: Fn() -> Result<MemoryReader>> {
    call: F,
}

impl<F: Fn() -> Result<MemoryReader>> SourceOpener for CallOpener<F> {
    closed spec fn is_ready(&self) -> bool {
        call_requires(self.call, ())
    }

    closed spec fn may_yield(&self, r: Result<MemoryReader>) -> bool {
        call_ensures(self.call, (), r)
    }

    fn open(&self) -> (r: Result<MemoryReader>) {
        (self.call)()
    }
}

/// Opens nothing: for sources that are bytes or files.
#[derive(Debug)]
pub struct NoOpener;

impl SourceOpener for NoOpener {
    open spec fn is_ready(&self) -> bool {
        true
    }

    open spec fn may_yield(&self, r: Result<MemoryReader>) -> bool {
        r == Err::<MemoryReader, Error>(Error::InvalidArgument("entry source has no opener"))
    }

    fn open(&self) -> (r: Result<MemoryReader>) {
        Err(Error::InvalidArgument("entry source has no opener"))
    }
}

#[derive(Debug)]
enum Payload<O: SourceOpener> {
    Bytes(Arc<Vec<u8>>),
    /// An opener, beside the length it announces.
    Opened { len: u64, opener: Arc<O> },
    /// A file, which only the file system can measure and read.
    Path(String),
}

/// A source of an archive member.
///
/// A copy of a source is the same source: it shares the bytes or the opener.
#[derive(Debug)]
pub struct EntrySource<O: SourceOpener = NoOpener> {
    payload: Payload<O>,
}

impl<O: SourceOpener> Clone for EntrySource<O> {
    fn clone(&self) -> (copy: EntrySource<O>)
        ensures
            copy.is_same_as(*self),
    {
        let payload = match &self.payload {
            Payload::Bytes(data) => Payload::Bytes(share(data)),
            Payload::Opened { len, opener } => Payload::Opened {
                len: *len,
                opener: share(opener),
            },
            Payload::Path(path) => Payload::Path(path.clone()),
        };
        EntrySource { payload }
    }
}

impl<F: Fn() -> Result<MemoryReader>> EntrySource<CallOpener<F>> {
    /// A source that announces `len`. Every opening calls `open` once and gives
    /// what it answers; to ask for the length calls nothing.
    pub fn from_opener(len: u64, open: F) -> (source: EntrySource<CallOpener<F>>)
        ensures
            source.announced() == Some(len),
            source.file() is None,
            source.bytes() is None,
            source.is_ready() == call_requires(open, ()),
            forall|r: Result<MemoryReader>| #[trigger]
                source.may_open(r) == call_ensures(open, (), r),
    {
        EntrySource { payload: Payload::Opened { len, opener: Arc::new(CallOpener { call: open }) } }
    }
}

impl EntrySource {
    pub fn from_bytes(data: Vec<u8>) -> (source: EntrySource)
        ensures
            source.bytes() == Some(data@),
            source.announced() == Some(data@.len() as u64),
            source.file() is None,
            source.is_ready(),
    {
        EntrySource { payload: Payload::Bytes(Arc::new(data)) }
    }

    pub fn from_path(path: String) -> (source: EntrySource)
        ensures
            source.bytes() is None,
            source.announced() is None,
            source.file() == Some(path@),
            source.is_ready(),
    {
        EntrySource { payload: Payload::Path(path) }
    }

    /// A copy of `data`, with its managed capacity charged.
    pub fn copy_for_writer(data: &[u8], resources: &mut WriterResources) -> (r: Result<
        (EntrySource, CapacityCharge),
    >)
        ensures
            ({
                let needed = data@.len() + vstd::layout::size_of::<EntrySource>();
                if needed > u64::MAX {
                    &&& r == Err::<(EntrySource, CapacityCharge), Error>(
                        Error::InvalidArgument("writer source capacity overflows"),
                    )
                    &&& final(resources)@ == old(resources)@
                } else if needed == 0 {
                    &&& r matches Ok((source, charge)) && source.bytes() == Some(data@)
                        && charge.bytes == 0
                    &&& final(resources)@ == old(resources)@
                } else {
                    match old(resources)@.capacity_refusal(CapacityClass::Managed, needed as u64) {
                        Some(error) => {
                            &&& r == Err::<(EntrySource, CapacityCharge), Error>(error)
                            &&& final(resources)@ == old(resources)@
                        },
                        None => {
                            &&& r matches Ok((source, charge)) && source.bytes() == Some(data@)
                                && charge == (CapacityCharge {
                                class: CapacityClass::Managed,
                                bytes: needed as u64,
                            })
                            &&& final(resources)@ == old(resources)@.after_growth(
                                CapacityClass::Managed,
                                needed as u64,
                            )
                        },
                    }
                }
            }),
    {
        let needed: u128 = data.len() as u128 + std::mem::size_of::<EntrySource>() as u128;
        if needed > u64::MAX as u128 {
            return Err(Error::InvalidArgument("writer source capacity overflows"));
        }
        let mut charge = CapacityCharge::new(CapacityClass::Managed);
        match charge.grow_to(needed as u64, resources) {
            Ok(()) => {},
            Err(error) => {
                return Err(error);
            },
        }
        Ok((EntrySource::from_bytes(copy_bytes(data)), charge))
    }

    /// As [`EntrySource::open`] of bytes, with the capacity of the reader charged.
    /// The reader keeps the bytes, whatever becomes of the source.
    pub fn open_for_writer(&self, resources: &mut WriterResources) -> (r: Result<
        Option<(MemoryReader, CapacityCharge)>,
    >)
        ensures
            ({
                let needed = vstd::layout::size_of::<MemoryReader>() as u64;
                if self.bytes() is None {
                    &&& r matches Ok(None)
                    &&& final(resources)@ == old(resources)@
                } else if needed == 0 {
                    &&& r matches Ok(Some((reader, charge))) && Some(reader.bytes()) == self.bytes()
                        && reader.position() == 0 && charge.bytes == 0
                    &&& final(resources)@ == old(resources)@
                } else {
                    match old(resources)@.capacity_refusal(CapacityClass::Managed, needed) {
                        Some(error) => {
                            &&& r matches Err(refused) && refused == error
                            &&& final(resources)@ == old(resources)@
                        },
                        None => {
                            &&& r matches Ok(Some((reader, charge))) && Some(reader.bytes())
                                == self.bytes() && reader.position() == 0 && charge == (
                            CapacityCharge { class: CapacityClass::Managed, bytes: needed })
                            &&& final(resources)@ == old(resources)@.after_growth(
                                CapacityClass::Managed,
                                needed,
                            )
                        },
                    }
                }
            }),
    {
        let data = match &self.payload {
            Payload::Bytes(data) => data,
            _ => {
                return Ok(None);
            },
        };
        let needed: usize = std::mem::size_of::<MemoryReader>();
        let mut charge = CapacityCharge::new(CapacityClass::Managed);
        match charge.grow_to(needed as u64, resources) {
            Ok(()) => Ok(Some((MemoryReader { data: share(data), pos: 0 }, charge))),
            Err(error) => Err(error),
        }
    }
}

impl<O: SourceOpener> EntrySource<O> {
    /// The length that the source announces.
    pub closed spec fn announced(&self) -> Option<u64> {
        match self.payload {
            Payload::Bytes(data) => Some(data@.len() as u64),
            Payload::Opened { len, .. } => Some(len),
            Payload::Path(_) => None,
        }
    }

    /// The bytes in memory that the source is.
    pub closed spec fn bytes(&self) -> Option<Seq<u8>> {
        match self.payload {
            Payload::Bytes(data) => Some(data@),
            _ => None,
        }
    }

    /// The file behind the source.
    pub closed spec fn file(&self) -> Option<Seq<char>> {
        match self.payload {
            Payload::Path(path) => Some(path@),
            _ => None,
        }
    }

    /// Whether the source can be opened.
    pub closed spec fn is_ready(&self) -> bool {
        self.payload matches Payload::Opened { opener, .. } ==> opener.is_ready()
    }

    /// Whether an opening may come to this: bytes open at their start, and an
    /// opener's answer is handed on.
    pub closed spec fn may_open(&self, r: Result<MemoryReader>) -> bool {
        match self.payload {
            Payload::Bytes(data) => r matches Ok(reader) && reader.bytes() == data@
                && reader.position() == 0,
            Payload::Opened { opener, .. } => opener.may_yield(r),
            Payload::Path(_) => false,
        }
    }

    /// Whether nobody can tell this source from another.
    pub open spec fn is_same_as(&self, other: EntrySource<O>) -> bool {
        &&& self.announced() == other.announced()
        &&& self.bytes() == other.bytes()
        &&& self.file() == other.file()
        &&& self.is_ready() == other.is_ready()
        &&& forall|r: Result<MemoryReader>| #[trigger] self.may_open(r) == other.may_open(r)
    }

    /// The announced length; none for a file.
    pub fn len(&self) -> (len: Option<u64>)
        ensures
            len == self.announced(),
    {
        match &self.payload {
            Payload::Bytes(data) => Some(data.len() as u64),
            Payload::Opened { len, .. } => Some(*len),
            Payload::Path(_) => None,
        }
    }

    pub fn is_empty(&self) -> (answer: Option<bool>)
        ensures
            answer == (match self.announced() {
                Some(len) => Some(len == 0),
                None => None,
            }),
    {
        match self.len() {
            Some(len) => Some(len == 0),
            None => None,
        }
    }

    /// The file to read, where the source is one.
    pub fn path(&self) -> (path: Option<&String>)
        ensures
            match path {
                Some(path) => self.file() == Some(path@),
                None => self.file() is None,
            },
    {
        match &self.payload {
            Payload::Path(path) => Some(path),
            _ => None,
        }
    }

    /// A reader of the source; none for a file. Every reader has a position of its
    /// own and outlives the source, and none copies the bytes.
    pub fn open(&self) -> (r: Option<Result<MemoryReader>>)
        requires
            self.is_ready(),
        ensures
            match r {
                Some(answer) => self.file() is None && self.may_open(answer),
                None => self.file() is Some,
            },
    {
        match &self.payload {
            Payload::Bytes(data) => Some(Ok(MemoryReader { data: share(data), pos: 0 })),
            Payload::Opened { opener, .. } => Some(opener.open()),
            Payload::Path(_) => None,
        }
    }
}

/// Bytes in memory always open, at their start, and announce how many they are.
pub proof fn law_bytes_open_as_they_are<O: SourceOpener>(
    source: EntrySource<O>,
    r: Result<MemoryReader>,
)
    requires
        source.bytes() is Some,
    ensures
        source.is_ready(),
        source.file() is None,
        source.announced() == Some(source.bytes()->0.len() as u64),
        source.may_open(r) <==> (r matches Ok(reader) && Some(reader.bytes()) == source.bytes()
            && reader.position() == 0),
{
}

/// A source that is no file announces a length.
pub proof fn law_sources_announce_a_length<O: SourceOpener>(source: EntrySource<O>)
    ensures
        source.announced() is Some <==> source.file() is None,
{
}

/// A rewindable reader over shared bytes in memory.
#[derive(Debug)]
pub struct MemoryReader {
    data: Arc<Vec<u8>>,
    pos: u64,
}

/// What a read of up to `count` bytes at `position` yields.
pub open spec fn bytes_from(bytes: Seq<u8>, position: u64, count: nat) -> Seq<u8> {
    if position >= bytes.len() {
        Seq::empty()
    } else if position + count < bytes.len() {
        bytes.subrange(position as int, position + count)
    } else {
        bytes.skip(position as int)
    }
}

impl MemoryReader {
    pub closed spec fn bytes(&self) -> Seq<u8> {
        self.data@
    }

    pub closed spec fn position(&self) -> u64 {
        self.pos
    }

    /// What is left to read.
    pub open spec fn rest(&self) -> Seq<u8> {
        bytes_from(self.bytes(), self.position(), self.bytes().len())
    }

    pub fn new(data: Vec<u8>) -> (reader: MemoryReader)
        ensures
            reader.bytes() == data@,
            reader.position() == 0,
    {
        MemoryReader { data: Arc::new(data), pos: 0 }
    }

    /// Reads up to `count` bytes.
    pub fn read(&mut self, count: usize) -> (chunk: Vec<u8>)
        ensures
            final(self).bytes() == old(self).bytes(),
            chunk@ == bytes_from(old(self).bytes(), old(self).position(), count as nat),
            final(self).position() == old(self).position() + chunk@.len(),
    {
        let len: usize = self.data.len();
        let start: usize = if self.pos >= len as u64 {
            len
        } else {
            self.pos as usize
        };
        let take: usize = if count < len - start {
            count
        } else {
            len - start
        };
        let chunk = copy_bytes(
            vstd::slice::slice_subrange(self.data.as_slice(), start, start + take),
        );
        proof {
            assert(chunk@ =~= bytes_from(self.data@, self.pos, count as nat));
        }
        if take > 0 {
            self.pos = self.pos + take as u64;
        }
        chunk
    }

    /// Moves the position; one that is no 64-bit number changes nothing.
    pub fn seek(&mut self, from: SeekFrom) -> (target: Option<u64>)
        ensures
            final(self).bytes() == old(self).bytes(),
            target == seek_target(from, old(self).bytes().len(), old(self).position()),
            final(self).position() == (match target {
                Some(target) => target,
                None => old(self).position(),
            }),
    {
        match resolve_seek(from, self.data.len() as u64, self.pos) {
            Some(target) => {
                self.pos = target;
                Some(target)
            },
            None => None,
        }
    }
}

/// Holds what a source yields to the length that it announced.
#[derive(Debug, Clone, Copy, PartialEq, Eq, Structural)]
pub struct SourceCheck {
    pub expected: u64,
    pub observed: u64,
}

impl SourceCheck {
    pub fn new(expected: u64) -> (check: SourceCheck)
        ensures
            check == (SourceCheck { expected, observed: 0 }),
    {
        SourceCheck { expected, observed: 0 }
    }

    /// How many bytes may be read next, `chunk` at most. Zero means that all
    /// announced bytes are here.
    pub fn next_read(&self, chunk: usize) -> (count: usize)
        ensures
            count == (if self.observed >= self.expected {
                0
            } else if self.expected - self.observed < chunk {
                self.expected - self.observed
            } else {
                chunk as int
            }),
    {
        if self.observed >= self.expected {
            0
        } else if self.expected - self.observed < chunk as u64 {
            (self.expected - self.observed) as usize
        } else {
            chunk
        }
    }

    /// Takes note of `count` bytes.
    pub fn note(&mut self, count: usize)
        ensures
            final(self).expected == old(self).expected,
            final(self).observed == (if old(self).observed + count > u64::MAX {
                u64::MAX as int
            } else {
                old(self).observed + count
            }),
    {
        self.observed = match self.observed.checked_add(count as u64) {
            Some(observed) => observed,
            None => u64::MAX,
        };
    }

    /// The outcome, once a probe for one byte more has yielded `probe` bytes.
    /// The probe is not needed where the length is wrong already.
    pub fn finish(&self, probe: usize, message: &'static str) -> (r: Result<()>)
        ensures
            r == (if self.observed == self.expected && probe == 0 {
                Ok::<(), Error>(())
            } else {
                Err(Error::InvalidHeader(message))
            }),
    {
        if self.observed != self.expected || probe != 0 {
            Err(Error::InvalidHeader(message))
        } else {
            Ok(())
        }
    }
}

/// The bytes of a member: already in memory, or from a source.
#[derive(Debug)]
pub enum MemberBytes<'a, O: SourceOpener = NoOpener> {
    Borrowed(&'a [u8]),
    Source(&'a EntrySource<O>),
}

/// A member, whole or in part: borrowed where the caller had it.
#[derive(Debug)]
pub enum LoadedBytes<'a> {
    Borrowed(&'a [u8]),
    Owned(Vec<u8>),
}

impl<'a> LoadedBytes<'a> {
    pub open spec fn contents(&self) -> Seq<u8> {
        match self {
            LoadedBytes::Borrowed(data) => data@,
            LoadedBytes::Owned(data) => data@,
        }
    }

    pub fn as_slice(&self) -> (bytes: &[u8])
        ensures
            bytes@ == self.contents(),
    {
        match self {
            LoadedBytes::Borrowed(data) => data,
            LoadedBytes::Owned(data) => data.as_slice(),
        }
    }
}

/// Chunks, one after the other.
pub open spec fn joined(chunks: Seq<LoadedBytes<'_>>) -> Seq<u8>
    decreases chunks.len(),
{
    if chunks.len() == 0 {
        Seq::empty()
    } else {
        joined(chunks.drop_last()) + chunks.last().contents()
    }
}

/// What of a source is read where it announced `expected` bytes.
pub open spec fn within(bytes: Seq<u8>, expected: u64) -> Seq<u8> {
    if bytes.len() < expected {
        bytes
    } else {
        bytes.take(expected as int)
    }
}

/// Whether a source has kept to its announced length.
pub open spec fn length_outcome(
    bytes: Seq<u8>,
    expected: u64,
    message: &'static str,
) -> Result<()> {
    if bytes.len() == expected {
        Ok(())
    } else {
        Err(Error::InvalidHeader(message))
    }
}

/// Reads what a source announced, in chunks of up to `chunk` bytes, and holds
/// it to that length.
fn read_announced<'a>(
    opened: MemoryReader,
    expected: u64,
    chunk: usize,
    message: &'static str,
) -> (r: (Vec<LoadedBytes<'a>>, Result<()>))
    requires
        chunk > 0,
    ensures
        joined(r.0@) == within(opened.rest(), expected),
        forall|i: int|
            0 <= i < r.0@.len() ==> 0 < (#[trigger] r.0@[i]).contents().len() <= chunk,
        r.1 == length_outcome(opened.rest(), expected, message),
{
    let ghost bytes = opened.rest();
    let ghost most: int = within(bytes, expected).len() as int;
    let ghost whole = opened.bytes();
    let ghost from = opened.position();
    assert(whole.len() <= usize::MAX) by {
        assert(opened.data@.len() == opened.data.len());
    }
    let mut chunks: Vec<LoadedBytes<'a>> = Vec::new();
    let mut check = SourceCheck::new(expected);
    let mut reader = opened;
    assert(bytes.take(0) =~= Seq::<u8>::empty());
    loop
        invariant
            chunk > 0,
            whole.len() <= usize::MAX,
            bytes == bytes_from(whole, from, whole.len()),
            reader.bytes() == whole,
            reader.position() == from + check.observed,
            most == within(bytes, expected).len(),
            check.expected == expected,
            0 <= check.observed <= most,
            joined(chunks@) == bytes.take(check.observed as int),
            forall|i: int|
                0 <= i < chunks@.len() ==> 0 < (#[trigger] chunks@[i]).contents().len() <= chunk,
        ensures
            reader.bytes() == whole,
            reader.position() == from + check.observed,
            check.expected == expected,
            check.observed == most,
            joined(chunks@) == bytes.take(most),
            forall|i: int|
                0 <= i < chunks@.len() ==> 0 < (#[trigger] chunks@[i]).contents().len() <= chunk,
        decreases most - check.observed,
    {
        let wanted: usize = check.next_read(chunk);
        if wanted == 0 {
            break;
        }
        let piece = reader.read(wanted);
        let count: usize = piece.len();
        if count == 0 {
            break;
        }
        let ghost before = chunks@;
        let ghost start = check.observed as int;
        let ghost read = piece@;
        chunks.push(LoadedBytes::Owned(piece));
        check.note(count);
        proof {
            assert(chunks@.drop_last() =~= before);
            assert(bytes.take(start) + read =~= bytes.take(start + read.len()));
        }
    }
    let probe = reader.read(1);
    proof {
        assert(bytes.take(most) =~= within(bytes, expected));
        if bytes.len() > expected {
            assert(probe@.len() == 1);
        }
    }
    let r = check.finish(probe.len(), message);
    (chunks, r)
}

/// Appends chunks.
fn push_chunks(output: &mut Vec<u8>, chunks: &Vec<LoadedBytes<'_>>)
    ensures
        final(output)@ == old(output)@ + joined(chunks@),
{
    let mut i: usize = 0;
    assert(chunks@.take(0) =~= Seq::<LoadedBytes<'_>>::empty());
    assert(output@ =~= old(output)@ + joined(chunks@.take(0)));
    while i < chunks.len()
        invariant
            i <= chunks@.len(),
            output@ == old(output)@ + joined(chunks@.take(i as int)),
        decreases chunks@.len() - i,
    {
        proof {
            assert(chunks@.take(i + 1).drop_last() =~= chunks@.take(i as int));
            assert(chunks@.take(i + 1).last() == chunks@[i as int]);
        }
        crate::bytes::push_all(output, chunks[i].as_slice());
        proof {
            assert(output@ =~= old(output)@ + joined(chunks@.take(i + 1)));
        }
        i = i + 1;
    }
    assert(chunks@.take(i as int) =~= chunks@);
}

/// Whether a load may come to this where the source opened so.
pub open spec fn is_loaded(
    opened: Result<MemoryReader>,
    expected: u64,
    r: Result<LoadedBytes<'_>>,
) -> bool {
    match opened {
        Err(error) => r == Err::<LoadedBytes<'_>, Error>(error),
        Ok(reader) => if reader.rest().len() == expected {
            r matches Ok(LoadedBytes::Owned(data)) && data@ == reader.rest()
        } else {
            r == Err::<LoadedBytes<'_>, Error>(
                Error::InvalidHeader("entry source size changed while compressing"),
            )
        },
    }
}

/// Whether a walk may come to this where the source opened so.
pub open spec fn is_walked(
    opened: Result<MemoryReader>,
    expected: u64,
    r: Result<Vec<LoadedBytes<'_>>>,
) -> bool {
    match opened {
        Err(error) => r == Err::<Vec<LoadedBytes<'_>>, Error>(error),
        Ok(reader) => if reader.rest().len() == expected {
            r matches Ok(chunks) && joined(chunks@) == reader.rest() && forall|i: int|
                0 <= i < chunks@.len() ==> 0 < (#[trigger] chunks@[i]).contents().len()
                    <= WALK_CHUNK
        } else {
            r == Err::<Vec<LoadedBytes<'_>>, Error>(
                Error::InvalidHeader("entry source size changed while reading"),
            )
        },
    }
}

impl<'a, O: SourceOpener> MemberBytes<'a, O> {
    /// Whether the bytes can be read without the file system.
    pub open spec fn is_readable(&self) -> bool {
        self matches MemberBytes::Source(source) ==> source.file() is None && source.is_ready()
    }

    pub fn len(&self) -> (len: Option<u64>)
        ensures
            len == (match *self {
                MemberBytes::Borrowed(data) => Some(data@.len() as u64),
                MemberBytes::Source(source) => source.announced(),
            }),
    {
        match self {
            MemberBytes::Borrowed(data) => Some(data.len() as u64),
            MemberBytes::Source(source) => source.len(),
        }
    }

    /// The source behind this member, where there is one to copy from.
    pub fn source(&self) -> (source: Option<&'a EntrySource<O>>)
        ensures
            source == (match *self {
                MemberBytes::Borrowed(_) => None,
                MemberBytes::Source(source) => Some(source),
            }),
    {
        match self {
            MemberBytes::Borrowed(_) => None,
            MemberBytes::Source(source) => Some(*source),
        }
    }

    /// The whole member, borrowed where the caller already had it. A source is
    /// opened once.
    pub fn load(&self) -> (r: Result<LoadedBytes<'a>>)
        requires
            self.is_readable(),
        ensures
            match *self {
                MemberBytes::Borrowed(data) => r == Ok::<LoadedBytes<'a>, Error>(
                    LoadedBytes::Borrowed(data),
                ),
                MemberBytes::Source(source) => if source.announced()->0 > usize::MAX {
                    r == Err::<LoadedBytes<'a>, Error>(
                        Error::InvalidHeader("member is larger than this host can hold"),
                    )
                } else {
                    exists|opened: Result<MemoryReader>| #[trigger]
                        source.may_open(opened) && is_loaded(opened, source.announced()->0, r)
                },
            },
    {
        match self {
            MemberBytes::Borrowed(data) => Ok(LoadedBytes::Borrowed(data)),
            MemberBytes::Source(source) => {
                proof {
                    law_sources_announce_a_length(**source);
                }
                let expected: u64 = source.len().unwrap();
                if expected > usize::MAX as u64 {
                    return Err(Error::InvalidHeader("member is larger than this host can hold"));
                }
                let answer = source.open().unwrap();
                let ghost opened = answer;
                let r = match answer {
                    Err(error) => Err(error),
                    Ok(reader) => {
                        let (chunks, outcome) = read_announced(
                            reader,
                            expected,
                            WALK_CHUNK,
                            "entry source size changed while compressing",
                        );
                        proof {
                            let rest = reader.rest();
                            assert(rest.take(rest.len() as int) =~= rest);
                        }
                        match outcome {
                            Ok(()) => {
                                let mut data: Vec<u8> = Vec::new();
                                push_chunks(&mut data, &chunks);
                                assert(data@ =~= joined(chunks@));
                                Ok(LoadedBytes::Owned(data))
                            },
                            Err(error) => Err(error),
                        }
                    },
                };
                assert(source.may_open(opened) && is_loaded(opened, expected, r));
                r
            },
        }
    }

    /// The member in chunks, without holding it, which is how a stored one is
    /// checksummed on its way through. A source is opened once.
    pub fn walk(&self) -> (r: Result<Vec<LoadedBytes<'a>>>)
        requires
            self.is_readable(),
        ensures
            match *self {
                MemberBytes::Borrowed(data) => r matches Ok(chunks) && chunks@ == seq![
                    LoadedBytes::Borrowed(data),
                ],
                MemberBytes::Source(source) => exists|opened: Result<MemoryReader>| #[trigger]
                    source.may_open(opened) && is_walked(opened, source.announced()->0, r),
            },
    {
        match self {
            MemberBytes::Borrowed(data) => {
                let mut chunks: Vec<LoadedBytes<'a>> = Vec::new();
                chunks.push(LoadedBytes::Borrowed(data));
                assert(chunks@ =~= seq![LoadedBytes::Borrowed(*data)]);
                Ok(chunks)
            },
            MemberBytes::Source(source) => {
                proof {
                    law_sources_announce_a_length(**source);
                }
                let expected: u64 = source.len().unwrap();
                let answer = source.open().unwrap();
                let ghost opened = answer;
                let r = match answer {
                    Err(error) => Err(error),
                    Ok(reader) => {
                        let (chunks, outcome) = read_announced(
                            reader,
                            expected,
                            WALK_CHUNK,
                            "entry source size changed while reading",
                        );
                        proof {
                            let rest = reader.rest();
                            assert(rest.take(rest.len() as int) =~= rest);
                        }
                        match outcome {
                            Ok(()) => Ok(chunks),
                            Err(error) => Err(error),
                        }
                    },
                };
                assert(source.may_open(opened) && is_walked(opened, expected, r));
                r
            },
        }
    }
}

/// A member's bytes as they will appear in the archive.
#[derive(Debug)]
pub enum MemberPayload<'a, O: SourceOpener = NoOpener> {
    /// Already in memory: everything compressed, and anything encrypted.
    Packed(Vec<u8>),
    /// Copied from the source as the archive is written.
    Copied(&'a EntrySource<O>),
}

/// Whether copying a source to an output may come to this where it opened so.
pub open spec fn is_copied(
    opened: Result<MemoryReader>,
    expected: u64,
    before: Seq<u8>,
    after: Seq<u8>,
    r: Result<()>,
) -> bool {
    match opened {
        Err(error) => after == before && r == Err::<(), Error>(error),
        Ok(reader) => after == before + within(reader.rest(), expected) && r == length_outcome(
            reader.rest(),
            expected,
            "entry source size changed while writing",
        ),
    }
}

impl<'a, O: SourceOpener> MemberPayload<'a, O> {
    /// How many bytes this payload puts in the archive. A copied member is
    /// stored verbatim, so its packed size is the size it came in at.
    pub fn size(&self, unpacked_size: u64) -> (size: u64)
        ensures
            size == (match *self {
                MemberPayload::Packed(packed) => packed@.len() as u64,
                MemberPayload::Copied(_) => unpacked_size,
            }),
    {
        match self {
            MemberPayload::Packed(packed) => packed.len() as u64,
            MemberPayload::Copied(_) => unpacked_size,
        }
    }

    /// Appends the payload. A source is opened once, and what it yields beyond
    /// `expected` never reaches the output.
    pub fn write_to(&self, output: &mut Vec<u8>, expected: u64) -> (r: Result<()>)
        requires
            self matches MemberPayload::Copied(source) ==> source.file() is None
                && source.is_ready(),
        ensures
            match *self {
                MemberPayload::Packed(packed) => r is Ok && final(output)@ == old(output)@
                    + packed@,
                MemberPayload::Copied(source) => exists|opened: Result<MemoryReader>| #[trigger]
                    source.may_open(opened) && is_copied(
                        opened,
                        expected,
                        old(output)@,
                        final(output)@,
                        r,
                    ),
            },
    {
        match self {
            MemberPayload::Packed(packed) => {
                crate::bytes::push_all(output, packed);
                Ok(())
            },
            MemberPayload::Copied(source) => {
                let answer = source.open().unwrap();
                let ghost opened = answer;
                let r = match answer {
                    Err(error) => Err(error),
                    Ok(reader) => {
                        let (chunks, outcome) = read_announced(
                            reader,
                            expected,
                            WALK_CHUNK,
                            "entry source size changed while writing",
                        );
                        push_chunks(output, &chunks);
                        outcome
                    },
                };
                assert(source.may_open(opened) && is_copied(
                    opened,
                    expected,
                    old(output)@,
                    output@,
                    r,
                ));
                r
            },
        }
    }
}

/// A source of bytes loads to them: it is never taken for a
/// changed one.
pub proof fn law_bytes_are_read_as_they_are<O: SourceOpener>(
    source: EntrySource<O>,
    opened: Result<MemoryReader>,
    loaded: Result<LoadedBytes<'_>>,
)
    requires
        source.bytes() is Some,
        source.bytes()->0.len() <= u64::MAX,
        source.may_open(opened),
        is_loaded(opened, source.announced()->0, loaded),
    ensures
        loaded matches Ok(LoadedBytes::Owned(data)) && Some(data@) == source.bytes(),
{
    let bytes = source.bytes()->0;
    assert(opened->Ok_0.rest() =~= bytes);
}

} // verus!
