//! Which comment belongs to which member.

use vstd::prelude::*;

use crate::archive_model::{Archive, ArchiveFormat, Block};
use crate::bytes::same_bytes;
use crate::error::{Error, Result};
#[allow(unused_imports)]
use crate::rar50::entry::comment_name;

verus! {

/// Whether a block is a comment.
pub open spec fn is_comment(block: Block) -> bool {
    block matches Block::Service(service) && service.name@ == comment_name()
}

fn is_comment_block(block: &Block) -> (answer: bool)
    ensures
        answer == is_comment(*block),
{
    let name: [u8; 3] = [0x43, 0x4d, 0x54];
    assert(name@ =~= comment_name());
    match block {
        Block::Service(service) => same_bytes(&service.name, &name),
        _ => false,
    }
}

pub open spec fn duplicate_error() -> Error {
    Error::InvalidHeader("duplicate member comment records")
}

/// For each member the block of its comment: a comment belongs to the member
/// before it, and one before every member belongs to the archive. Two comments
/// of one member are refused rather than dropping one.
pub open spec fn comment_owners(
    blocks: Seq<Block>,
) -> std::result::Result<Seq<Option<usize>>, Error>
    decreases blocks.len(),
{
    if blocks.len() == 0 {
        Ok(Seq::empty())
    } else {
        let last = blocks.last();
        match comment_owners(blocks.drop_last()) {
            Err(error) => Err(error),
            Ok(list) => if last is File {
                Ok(list.push(None))
            } else if is_comment(last) && list.len() > 0 {
                if list.last() is Some {
                    Err(duplicate_error())
                } else {
                    Ok(list.update(list.len() - 1, Some((blocks.len() - 1) as usize)))
                }
            } else {
                Ok(list)
            },
        }
    }
}

proof fn lemma_failed_owners_stay_failed(blocks: Seq<Block>, at: int)
    requires
        0 <= at <= blocks.len(),
        comment_owners(blocks.take(at)) is Err,
    ensures
        comment_owners(blocks) == comment_owners(blocks.take(at)),
    decreases blocks.len() - at,
{
    if at == blocks.len() {
        assert(blocks.take(at) =~= blocks);
    } else {
        assert(blocks.take(at + 1).drop_last() =~= blocks.take(at));
        lemma_failed_owners_stay_failed(blocks, at + 1);
    }
}

/// Finds the comment block of every member.
pub fn find_comments(blocks: &Vec<Block>) -> (r: Result<Vec<Option<usize>>>)
    ensures
        match comment_owners(blocks@) {
            Ok(list) => r is Ok && r->Ok_0@ == list,
            Err(error) => r == Err::<Vec<Option<usize>>, Error>(error),
        },
{
    let mut list: Vec<Option<usize>> = Vec::new();
    let mut at: usize = 0;
    assert(blocks@.take(0) =~= Seq::empty());
    while at < blocks.len()
        invariant
            at <= blocks@.len(),
            comment_owners(blocks@.take(at as int)) == Ok::<Seq<Option<usize>>, Error>(list@),
        decreases blocks@.len() - at,
    {
        proof {
            assert(blocks@.take(at + 1).drop_last() =~= blocks@.take(at as int));
            assert(blocks@.take(at + 1).last() == blocks@[at as int]);
        }
        if matches!(&blocks[at], Block::File(_)) {
            list.push(None);
        } else if is_comment_block(&blocks[at]) && list.len() > 0 {
            let last: usize = list.len() - 1;
            if list[last].is_some() {
                proof {
                    lemma_failed_owners_stay_failed(blocks@, at + 1);
                }
                return Err(Error::InvalidHeader("duplicate member comment records"));
            }
            list.set(last, Some(at));
        }
        at = at + 1;
    }
    assert(blocks@.take(blocks@.len() as int) =~= blocks@);
    Ok(list)
}

/// The comment block of member `index`, looking at blocks from `at` on, `files`
/// members and this comment being behind.
pub open spec fn comment_from(
    blocks: Seq<Block>,
    at: int,
    files: nat,
    index: nat,
    comment: Option<usize>,
) -> std::result::Result<Option<usize>, Error>
    decreases blocks.len() - at,
{
    if at < 0 || at >= blocks.len() {
        if files > index {
            Ok(comment)
        } else {
            Err(Error::EntryNotFound)
        }
    } else if blocks[at] is File {
        if files == index + 1 {
            Ok(comment)
        } else {
            comment_from(blocks, at + 1, files + 1, index, comment)
        }
    } else if is_comment(blocks[at]) && files == index + 1 {
        if comment is Some {
            Err(duplicate_error())
        } else {
            comment_from(blocks, at + 1, files, index, Some(at as usize))
        }
    } else {
        comment_from(blocks, at + 1, files, index, comment)
    }
}

/// Finds the comment block of one member.
pub fn find_comment_at(blocks: &Vec<Block>, index: usize) -> (r: Result<Option<usize>>)
    ensures
        r == comment_from(blocks@, 0, 0, index as nat, None),
{
    let count: usize = blocks.len();
    let mut files: usize = 0;
    let mut comment: Option<usize> = None;
    let mut at: usize = 0;
    while at < count
        invariant
            at <= count == blocks@.len(),
            files <= at,
            comment_from(blocks@, 0, 0, index as nat, None) == comment_from(
                blocks@,
                at as int,
                files as nat,
                index as nat,
                comment,
            ),
        decreases count - at,
    {
        let current: bool = files > 0 && files - 1 == index;
        if matches!(&blocks[at], Block::File(_)) {
            if current {
                return Ok(comment);
            }
            files = files + 1;
        } else if is_comment_block(&blocks[at]) && current {
            if comment.is_some() {
                return Err(Error::InvalidHeader("duplicate member comment records"));
            }
            comment = Some(at);
        }
        at = at + 1;
    }
    if files > index {
        Ok(comment)
    } else {
        Err(Error::EntryNotFound)
    }
}

/// What a list says of one member.
spec fn listed(list: Seq<Option<usize>>, index: nat) -> Option<usize> {
    if index < list.len() {
        list[index as int]
    } else {
        None
    }
}

/// Once a further member stands behind it, a member's comment is settled.
proof fn lemma_owner_is_settled(blocks: Seq<Block>, at: int, index: nat)
    requires
        0 <= at <= blocks.len(),
        comment_owners(blocks) is Ok,
        comment_owners(blocks.take(at)) is Ok,
        index + 1 < comment_owners(blocks.take(at))->Ok_0.len(),
    ensures
        index + 1 < comment_owners(blocks)->Ok_0.len(),
        comment_owners(blocks)->Ok_0[index as int] == comment_owners(
            blocks.take(at),
        )->Ok_0[index as int],
    decreases blocks.len() - at,
{
    if at == blocks.len() {
        assert(blocks.take(at) =~= blocks);
    } else {
        assert(blocks.take(at + 1).drop_last() =~= blocks.take(at));
        if comment_owners(blocks.take(at + 1)) is Err {
            lemma_failed_owners_stay_failed(blocks, at + 1);
        }
        lemma_owner_is_settled(blocks, at + 1, index);
    }
}

proof fn lemma_comment_from(blocks: Seq<Block>, at: int, index: nat)
    requires
        0 <= at <= blocks.len() <= usize::MAX,
        comment_owners(blocks) is Ok,
        index < comment_owners(blocks)->Ok_0.len(),
        comment_owners(blocks.take(at)) is Ok,
        comment_owners(blocks.take(at))->Ok_0.len() <= index + 1,
    ensures
        comment_from(
            blocks,
            at,
            comment_owners(blocks.take(at))->Ok_0.len(),
            index,
            listed(comment_owners(blocks.take(at))->Ok_0, index),
        ) == Ok::<Option<usize>, Error>(comment_owners(blocks)->Ok_0[index as int]),
    decreases blocks.len() - at,
{
    let list = comment_owners(blocks.take(at))->Ok_0;
    if at == blocks.len() {
        assert(blocks.take(at) =~= blocks);
    } else {
        let longer = blocks.take(at + 1);
        assert(longer.drop_last() =~= blocks.take(at));
        assert(longer.last() == blocks[at]);
        if comment_owners(longer) is Err {
            lemma_failed_owners_stay_failed(blocks, at + 1);
        }
        if blocks[at] is File && list.len() == index + 1 {
            assert(comment_owners(longer)->Ok_0 == list.push(None));
            lemma_owner_is_settled(blocks, at + 1, index);
        } else {
            lemma_comment_from(blocks, at + 1, index);
        }
    }
}

/// Looking up one comment gives what listing all of them gives.
pub proof fn law_comment_lookups_agree(blocks: Seq<Block>, index: nat)
    requires
        blocks.len() <= usize::MAX,
        comment_owners(blocks) is Ok,
        index < comment_owners(blocks)->Ok_0.len(),
    ensures
        comment_from(blocks, 0, 0, index, None) == Ok::<Option<usize>, Error>(
            comment_owners(blocks)->Ok_0[index as int],
        ),
{
    assert(blocks.take(0) =~= Seq::empty());
    lemma_comment_from(blocks, 0, index);
}

/// Whether a comment is what decoding its block gives.
pub open spec fn is_decoded<D: Fn(usize) -> Result<Vec<u8>>>(
    decode: D,
    owner: Option<usize>,
    comment: Option<Vec<u8>>,
) -> bool {
    match owner {
        Some(block) => comment matches Some(data) && call_ensures(
            decode,
            (block,),
            Ok::<Vec<u8>, Error>(data),
        ),
        None => comment is None,
    }
}

fn decode_comment<D: Fn(usize) -> Result<Vec<u8>>>(
    owner: Option<usize>,
    decode: &D,
) -> (r: Result<Option<Vec<u8>>>)
    requires
        owner matches Some(block) ==> call_requires(*decode, (block,)),
    ensures
        match r {
            Ok(comment) => is_decoded(*decode, owner, comment),
            Err(error) => owner matches Some(block) && call_ensures(
                *decode,
                (block,),
                Err::<Vec<u8>, Error>(error),
            ),
        },
{
    match owner {
        Some(block) => match decode(block) {
            Ok(data) => Ok(Some(data)),
            Err(error) => Err(error),
        },
        None => Ok(None),
    }
}

fn legacy_comments<L: Fn(usize) -> Result<Option<Vec<u8>>>>(count: usize, legacy: &L) -> (r:
    Result<Vec<Option<Vec<u8>>>>)
    requires
        forall|index: usize| index < count ==> #[trigger] call_requires(*legacy, (index,)),
    ensures
        match r {
            Ok(list) => list@.len() == count && forall|i: int|
                0 <= i < count ==> call_ensures(
                    *legacy,
                    (i as usize,),
                    Ok::<Option<Vec<u8>>, Error>(#[trigger] list@[i]),
                ),
            Err(error) => exists|i: usize|
                i < count && #[trigger] call_ensures(
                    *legacy,
                    (i,),
                    Err::<Option<Vec<u8>>, Error>(error),
                ),
        },
{
    let mut list: Vec<Option<Vec<u8>>> = Vec::new();
    let mut at: usize = 0;
    while at < count
        invariant
            at <= count,
            list@.len() == at,
            forall|index: usize| index < count ==> #[trigger] call_requires(*legacy, (index,)),
            forall|i: int|
                0 <= i < at ==> call_ensures(
                    *legacy,
                    (i as usize,),
                    Ok::<Option<Vec<u8>>, Error>(#[trigger] list@[i]),
                ),
        decreases count - at,
    {
        match legacy(at) {
            Ok(comment) => {
                list.push(comment);
            },
            Err(error) => {
                assert(call_ensures(*legacy, (at,), Err::<Option<Vec<u8>>, Error>(error)));
                return Err(error);
            },
        }
        at = at + 1;
    }
    Ok(list)
}

/// Whether comments can be decoded from the blocks that hold them.
pub open spec fn takes_owners<D: Fn(usize) -> Result<Vec<u8>>>(
    decode: D,
    owners: Seq<Option<usize>>,
) -> bool {
    forall|i: int|
        0 <= i < owners.len() ==> (#[trigger] owners[i] matches Some(block) ==> call_requires(
            decode,
            (block,),
        ))
}

/// What listing the comments of an archive comes to: the comment of each member, or
/// what reading one of them fails with.
pub open spec fn is_comment_listing<
    L: Fn(usize) -> Result<Option<Vec<u8>>>,
    D: Fn(usize) -> Result<Vec<u8>>,
>(archive: Archive, legacy: L, service: D, r: Result<Vec<Option<Vec<u8>>>>) -> bool {
    match archive.format {
        ArchiveFormat::Rar50Plus { blocks, .. } => match comment_owners(blocks@) {
            Err(error) => r == Err::<Vec<Option<Vec<u8>>>, Error>(error),
            Ok(owners) => match r {
                Ok(list) => list@.len() == owners.len() && forall|i: int|
                    0 <= i < owners.len() ==> is_decoded(service, owners[i], #[trigger] list@[i]),
                Err(error) => exists|i: int|
                    0 <= i < owners.len() && (#[trigger] owners[i] matches Some(block)
                        && call_ensures(service, (block,), Err::<Vec<u8>, Error>(error))),
            },
        },
        _ => match r {
            Ok(list) => list@.len() == archive.members@.len() && forall|i: int|
                0 <= i < list@.len() ==> call_ensures(
                    legacy,
                    (i as usize,),
                    Ok::<Option<Vec<u8>>, Error>(#[trigger] list@[i]),
                ),
            Err(error) => exists|i: usize|
                i < archive.members@.len() && #[trigger] call_ensures(
                    legacy,
                    (i,),
                    Err::<Option<Vec<u8>>, Error>(error),
                ),
        },
    }
}

/// What looking up the comment of one member comes to.
pub open spec fn is_comment_lookup<
    L: Fn(usize) -> Result<Option<Vec<u8>>>,
    D: Fn(usize) -> Result<Vec<u8>>,
>(archive: Archive, index: usize, legacy: L, service: D, r: Result<Option<Vec<u8>>>) -> bool {
    match archive.format {
        ArchiveFormat::Rar50Plus { blocks, .. } => match comment_from(
            blocks@,
            0,
            0,
            index as nat,
            None,
        ) {
            Err(error) => r == Err::<Option<Vec<u8>>, Error>(error),
            Ok(owner) => match r {
                Ok(comment) => is_decoded(service, owner, comment),
                Err(error) => owner matches Some(block) && call_ensures(
                    service,
                    (block,),
                    Err::<Vec<u8>, Error>(error),
                ),
            },
        },
        _ => if index < archive.members@.len() {
            call_ensures(legacy, (index,), r)
        } else {
            r == Err::<Option<Vec<u8>>, Error>(Error::EntryNotFound)
        },
    }
}

/// Whether a decoder has one answer for each block or member.
pub open spec fn is_settled<T, F: Fn(usize) -> Result<T>>(decode: F) -> bool {
    forall|index: usize, a: Result<T>, b: Result<T>| #[trigger]
        call_ensures(decode, (index,), a) && #[trigger] call_ensures(decode, (index,), b)
            ==> a == b
}

/// How many members stand among some blocks.
pub open spec fn files_in(blocks: Seq<Block>) -> nat
    decreases blocks.len(),
{
    if blocks.len() == 0 {
        0
    } else {
        files_in(blocks.drop_last()) + (if blocks.last() is File {
            1nat
        } else {
            0
        })
    }
}

/// A listing has a place for every member, directories with them.
pub proof fn law_every_member_has_a_place(blocks: Seq<Block>)
    ensures
        comment_owners(blocks) matches Ok(owners) ==> owners.len() == files_in(blocks),
    decreases blocks.len(),
{
    if blocks.len() > 0 {
        law_every_member_has_a_place(blocks.drop_last());
    }
}

/// What a listing gives of a member is what looking it up gives, where the decoders
/// have one answer each time.
pub proof fn law_listing_and_lookup_agree<
    L: Fn(usize) -> Result<Option<Vec<u8>>>,
    D: Fn(usize) -> Result<Vec<u8>>,
>(
    archive: Archive,
    index: usize,
    legacy: L,
    service: D,
    list: Vec<Option<Vec<u8>>>,
    r: Result<Option<Vec<u8>>>,
)
    requires
        archive.format matches ArchiveFormat::Rar50Plus { blocks, .. } ==> blocks@.len()
            <= usize::MAX,
        is_settled(legacy),
        is_settled(service),
        index < list@.len(),
        is_comment_listing(archive, legacy, service, Ok(list)),
        is_comment_lookup(archive, index, legacy, service, r),
    ensures
        r == Ok::<Option<Vec<u8>>, Error>(list@[index as int]),
{
    match archive.format {
        ArchiveFormat::Rar50Plus { blocks, .. } => {
            let owners = comment_owners(blocks@)->Ok_0;
            law_comment_lookups_agree(blocks@, index as nat);
            assert(is_decoded(service, owners[index as int], list@[index as int]));
            if let Some(block) = owners[index as int] {
                let listed = Ok::<Vec<u8>, Error>(list@[index as int]->0);
                assert(call_ensures(service, (block,), listed));
                match r {
                    Ok(comment) => {
                        assert(call_ensures(service, (block,), Ok::<Vec<u8>, Error>(comment->0)));
                    },
                    Err(error) => {
                        assert(call_ensures(service, (block,), Err::<Vec<u8>, Error>(error)));
                    },
                }
            }
        },
        _ => {
            assert(call_ensures(
                legacy,
                (index,),
                Ok::<Option<Vec<u8>>, Error>(list@[index as int]),
            ));
        },
    }
}

proof fn lemma_owned_stays_owned(blocks: Seq<Block>, from: int, at: int)
    requires
        0 <= from <= at <= blocks.len(),
        comment_owners(blocks.take(from)) matches Ok(list) && list.len() > 0 && list.last() is Some,
        forall|i: int| from <= i < at ==> !(#[trigger] blocks[i] is File),
    ensures
        comment_owners(blocks.take(at)) == Err::<Seq<Option<usize>>, Error>(duplicate_error()) || (
        comment_owners(blocks.take(at)) matches Ok(list) && list.len() > 0 && list.last() is Some),
    decreases at - from,
{
    if from < at {
        lemma_owned_stays_owned(blocks, from, at - 1);
        assert(blocks.take(at).drop_last() =~= blocks.take(at - 1));
        assert(blocks.take(at).last() == blocks[at - 1]);
    }
}

proof fn lemma_owners_fail_one_way(blocks: Seq<Block>)
    ensures
        comment_owners(blocks) matches Err(error) ==> error == duplicate_error(),
    decreases blocks.len(),
{
    if blocks.len() > 0 {
        lemma_owners_fail_one_way(blocks.drop_last());
    }
}

proof fn lemma_members_stay(blocks: Seq<Block>, from: int, at: int)
    requires
        0 <= from <= at <= blocks.len(),
        comment_owners(blocks.take(from)) matches Ok(list) ==> list.len() > 0,
    ensures
        comment_owners(blocks.take(at)) matches Ok(list) ==> list.len() > 0,
    decreases at - from,
{
    if from < at {
        lemma_members_stay(blocks, from, at - 1);
        assert(blocks.take(at).drop_last() =~= blocks.take(at - 1));
    }
}

/// Two comments behind one member are refused, wherever they stand.
pub proof fn law_two_comments_of_a_member_are_refused(
    blocks: Seq<Block>,
    member: int,
    first: int,
    second: int,
)
    requires
        0 <= member < first < second < blocks.len(),
        blocks[member] is File,
        is_comment(blocks[first]),
        is_comment(blocks[second]),
        forall|i: int| member < i <= second ==> !(#[trigger] blocks[i] is File),
    ensures
        comment_owners(blocks) == Err::<Seq<Option<usize>>, Error>(duplicate_error()),
{
    lemma_owners_fail_one_way(blocks);
    assert(blocks.take(member + 1).drop_last() =~= blocks.take(member));
    assert(blocks.take(member + 1).last() == blocks[member]);
    lemma_members_stay(blocks, member + 1, first);
    assert(blocks.take(first + 1).drop_last() =~= blocks.take(first));
    assert(blocks.take(first + 1).last() == blocks[first]);
    if comment_owners(blocks.take(first + 1)) is Err {
        lemma_failed_owners_stay_failed(blocks, first + 1);
    } else {
        lemma_owned_stays_owned(blocks, first + 1, second);
        assert(blocks.take(second + 1).drop_last() =~= blocks.take(second));
        assert(blocks.take(second + 1).last() == blocks[second]);
        lemma_failed_owners_stay_failed(blocks, second + 1);
    }
}

impl Archive {
    /// Decodes comments in member order with one traversal. `legacy` decodes the
    /// comment of a member in an older format, `service` that in a block.
    pub fn member_comments<
        L: Fn(usize) -> Result<Option<Vec<u8>>>,
        D: Fn(usize) -> Result<Vec<u8>>,
    >(&self, legacy: &L, service: &D) -> (r: Result<Vec<Option<Vec<u8>>>>)
        requires
            match self.format {
                ArchiveFormat::Rar50Plus { blocks, .. } => comment_owners(blocks@) matches Ok(
                    owners,
                ) ==> takes_owners(*service, owners),
                _ => forall|index: usize|
                    index < self.members@.len() ==> #[trigger] call_requires(*legacy, (index,)),
            },
        ensures
            is_comment_listing(*self, *legacy, *service, r),
    {
        let blocks: &Vec<Block> = match &self.format {
            ArchiveFormat::Rar50Plus { blocks, .. } => blocks,
            _ => {
                return legacy_comments(self.members.len(), legacy);
            },
        };
        let owners = match find_comments(blocks) {
            Ok(owners) => owners,
            Err(error) => {
                return Err(error);
            },
        };
        let mut list: Vec<Option<Vec<u8>>> = Vec::new();
        let mut at: usize = 0;
        while at < owners.len()
            invariant
                at <= owners@.len(),
                list@.len() == at,
                self.format matches ArchiveFormat::Rar50Plus { blocks, .. } && comment_owners(
                    blocks@,
                ) == Ok::<Seq<Option<usize>>, Error>(owners@),
                takes_owners(*service, owners@),
                forall|i: int|
                    0 <= i < at ==> is_decoded(*service, owners@[i], #[trigger] list@[i]),
            decreases owners@.len() - at,
        {
            match decode_comment(owners[at], service) {
                Ok(comment) => {
                    list.push(comment);
                },
                Err(error) => {
                    assert(owners@[at as int] is Some);
                    return Err(error);
                },
            }
            at = at + 1;
        }
        Ok(list)
    }

    /// Decodes the comment of one member, counting all members. A member without
    /// a comment has none; an index without a member is refused.
    pub fn member_comment_at<
        L: Fn(usize) -> Result<Option<Vec<u8>>>,
        D: Fn(usize) -> Result<Vec<u8>>,
    >(&self, index: usize, legacy: &L, service: &D) -> (r: Result<Option<Vec<u8>>>)
        requires
            match self.format {
                ArchiveFormat::Rar50Plus { blocks, .. } => comment_from(
                    blocks@,
                    0,
                    0,
                    index as nat,
                    None,
                ) matches Ok(Some(block)) ==> call_requires(*service, (block,)),
                _ => index < self.members@.len() ==> call_requires(*legacy, (index,)),
            },
        ensures
            is_comment_lookup(*self, index, *legacy, *service, r),
    {
        let blocks: &Vec<Block> = match &self.format {
            ArchiveFormat::Rar50Plus { blocks, .. } => blocks,
            _ => {
                if index >= self.members.len() {
                    return Err(Error::EntryNotFound);
                }
                return legacy(index);
            },
        };
        match find_comment_at(blocks, index) {
            Ok(owner) => decode_comment(owner, service),
            Err(error) => Err(error),
        }
    }
}

/// A member's comment is the service named `CMT` that stands behind the member and before
/// the next one; a service before the first member is nobody's.
pub proof fn law_comments_belong_to_the_member_before(blocks: Seq<Block>, member: nat, at: usize)
    requires
        blocks.len() <= usize::MAX,
        comment_owners(blocks) is Ok,
        member < comment_owners(blocks)->Ok_0.len(),
        at < blocks.len(),
    ensures
        comment_owners(blocks)->Ok_0[member as int] == Some(at) <==> {
            &&& blocks[at as int] matches Block::Service(service)
            &&& service.name@ == seq![0x43u8, 0x4du8, 0x54u8]
            &&& files_in(blocks.take(at as int)) == member + 1
        },
    decreases blocks.len(),
{
    let owners = comment_owners(blocks)->Ok_0;
    let last = blocks.len() - 1;
    let before = blocks.drop_last();
    let list = comment_owners(before)->Ok_0;
    assert(comment_name() =~= seq![0x43u8, 0x4du8, 0x54u8]);
    law_every_member_has_a_place(before);
    if at < last {
        assert(blocks.take(at as int) =~= before.take(at as int));
        assert(before[at as int] == blocks[at as int]);
        lemma_files_grow(before, at as int);
        if member < list.len() {
            law_comments_belong_to_the_member_before(before, member, at);
        }
    } else {
        assert(blocks.take(at as int) =~= before);
        if member < list.len() {
            lemma_owners_are_blocks(before, member);
        }
    }
}

proof fn lemma_files_grow(blocks: Seq<Block>, at: int)
    requires
        0 <= at <= blocks.len(),
    ensures
        files_in(blocks.take(at)) <= files_in(blocks),
    decreases blocks.len() - at,
{
    if at == blocks.len() {
        assert(blocks.take(at) =~= blocks);
    } else {
        assert(blocks.take(at + 1).drop_last() =~= blocks.take(at));
        lemma_files_grow(blocks, at + 1);
    }
}

proof fn lemma_owners_are_blocks(blocks: Seq<Block>, member: nat)
    requires
        blocks.len() <= usize::MAX,
        comment_owners(blocks) is Ok,
        member < comment_owners(blocks)->Ok_0.len(),
    ensures
        comment_owners(blocks)->Ok_0[member as int] matches Some(at) ==> at < blocks.len(),
    decreases blocks.len(),
{
    let before = blocks.drop_last();
    let list = comment_owners(before)->Ok_0;
    if member < list.len() {
        lemma_owners_are_blocks(before, member);
    }
}

} // verus!
