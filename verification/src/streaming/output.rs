//! Final collectors. They retain capacity until transfer, adapter copies
//! included.

use vstd::prelude::*;

use crate::error::{Error, Result};
#[allow(unused_imports)]
use crate::streaming::ledger::LedgerView;
use crate::streaming::preparation::{Bytes, Records};
#[allow(unused_imports)]
use crate::streaming::preparation::{allotted_after, append_refusal, records_bytes};
use crate::streaming::resources::{CapacityClass, WriterResources};
#[allow(unused_imports)]
use crate::streaming::resources::{law_capacity_round_trip, ResourcesView};

verus! {

/// Encoded bytes whose managed capacity stays charged until they are freed or
/// handed to the caller.
#[derive(Debug)]
pub struct WriterOutput {
    bytes: Bytes,
}

impl WriterOutput {
    #[verifier::type_invariant]
    spec fn well_formed(self) -> bool {
        self.bytes.class() == CapacityClass::Managed
    }

    pub closed spec fn contents(&self) -> Seq<u8> {
        self.bytes.contents()
    }

    pub closed spec fn allotted(&self) -> nat {
        self.bytes.allotted()
    }

    pub fn new() -> (output: WriterOutput)
        ensures
            output.contents() == Seq::<u8>::empty(),
            output.allotted() == 0,
    {
        WriterOutput { bytes: Bytes::output() }
    }

    pub fn as_bytes(&self) -> (bytes: &[u8])
        ensures
            bytes@ == self.contents(),
    {
        self.bytes.as_slice()
    }

    pub fn len(&self) -> (len: usize)
        ensures
            len == self.contents().len(),
    {
        self.bytes.len()
    }

    /// Appends bytes, or refuses them and stays as it was.
    pub fn write(&mut self, data: &[u8], resources: &mut WriterResources) -> (r: Result<()>)
        ensures
            match append_refusal(
                old(self).contents().len(),
                old(self).allotted(),
                CapacityClass::Managed,
                data@.len(),
                old(resources)@,
            ) {
                Some(error) => {
                    &&& r == Err::<(), Error>(error)
                    &&& final(self).contents() == old(self).contents()
                    &&& final(self).allotted() == old(self).allotted()
                    &&& final(resources)@ == old(resources)@
                },
                None => {
                    let capacity = allotted_after(
                        old(self).contents().len(),
                        old(self).allotted(),
                        data@.len(),
                    );
                    &&& r is Ok
                    &&& final(self).contents() == old(self).contents() + data@
                    &&& final(self).allotted() == capacity
                    &&& final(resources)@ == (if capacity == old(self).allotted() {
                        old(resources)@
                    } else {
                        Bytes::after_growing(
                            old(self).allotted(),
                            CapacityClass::Managed,
                            capacity,
                            old(resources)@,
                        )
                    })
                },
            },
    {
        proof {
            use_type_invariant(&*self);
        }
        let mut bytes = Bytes::output();
        std::mem::swap(&mut bytes, &mut self.bytes);
        let r = bytes.extend_from_slice(data, resources);
        self.bytes = bytes;
        r
    }

    /// Hands the bytes to the caller.
    pub fn into_vec(self, resources: &mut WriterResources) -> (bytes: Vec<u8>)
        ensures
            bytes@ == self.contents(),
            self.allotted() <= u64::MAX,
            final(resources)@ == old(resources)@.after_release(
                CapacityClass::Managed,
                self.allotted() as u64,
            ),
    {
        proof {
            use_type_invariant(&self);
        }
        self.bytes.into_vec(resources)
    }

    /// Frees the bytes.
    pub fn release(self, resources: &mut WriterResources)
        ensures
            final(resources)@ == old(resources)@.after_release(
                CapacityClass::Managed,
                self.allotted() as u64,
            ),
    {
        proof {
            use_type_invariant(&self);
        }
        self.bytes.release(resources)
    }

    /// Reserves the destination payload while this source stays live. `copy`
    /// makes one copy of the bytes and is told how much managed memory is in
    /// use meanwhile; its result belongs to the caller. Where the copy would
    /// pass the limit it is refused, and `copy` is never called.
    pub fn copy_with<T, F: FnOnce(&[u8], u64) -> T>(
        &self,
        resources: &mut WriterResources,
        copy: F,
    ) -> (r: Result<T>)
        requires
            old(resources)@.capacity_refusal(
                CapacityClass::Managed,
                self.contents().len() as u64,
            ) is None ==> forall|bytes: &[u8], in_use: u64|
                bytes@ == self.contents() && in_use == managed_use(
                    old(resources)@.after_growth(
                        CapacityClass::Managed,
                        self.contents().len() as u64,
                    ),
                ) ==> #[trigger] call_requires(copy, (bytes, in_use)),
        ensures
            match old(resources)@.capacity_refusal(
                CapacityClass::Managed,
                self.contents().len() as u64,
            ) {
                Some(error) => r == Err::<T, Error>(error) && final(resources)@ == old(resources)@,
                None => r matches Ok(copied) && final(resources)@ == old(resources)@ && is_copy_of(
                    copy,
                    self.contents(),
                    managed_use(
                        old(resources)@.after_growth(
                            CapacityClass::Managed,
                            self.contents().len() as u64,
                        ),
                    ),
                    copied,
                ),
            },
    {
        let count: u64 = self.bytes.len() as u64;
        match resources.reserve_capacity(CapacityClass::Managed, count) {
            Ok(()) => {},
            Err(error) => {
                return Err(error);
            },
        }
        proof {
            law_capacity_round_trip(old(resources)@, CapacityClass::Managed, count);
        }
        let in_use: u64 = resources.managed_memory_in_use();
        let bytes = self.bytes.as_slice();
        let ghost called = copy;
        let copied = copy(bytes, in_use);
        assert(is_copy_of(called, self.contents(), in_use, copied));
        resources.release_capacity(CapacityClass::Managed, count);
        Ok(copied)
    }
}

/// Whether `copied` is what `copy` makes of these bytes, told of this use.
pub open spec fn is_copy_of<T, F: FnOnce(&[u8], u64) -> T>(
    copy: F,
    contents: Seq<u8>,
    in_use: u64,
    copied: T,
) -> bool {
    exists|bytes: &[u8]|
        bytes@ == contents && #[trigger] call_ensures(copy, (bytes, in_use), copied)
}

/// Whether `copied` is what `copy` makes of these outputs, told of this use.
pub open spec fn is_copy_of_set<T, F: FnOnce(&[WriterOutput], u64) -> T>(
    copy: F,
    outputs: Seq<WriterOutput>,
    in_use: u64,
    copied: T,
) -> bool {
    exists|slice: &[WriterOutput]|
        slice@ == outputs && #[trigger] call_ensures(copy, (slice, in_use), copied)
}

/// Managed memory in use.
pub open spec fn managed_use(resources: ResourcesView) -> u64 {
    match resources.execution {
        Some(ledger) => ledger.used,
        None => 0,
    }
}

/// The ledgers after managed capacity of several owners was given back.
pub open spec fn after_handoff(resources: ResourcesView, held: nat) -> ResourcesView {
    match resources.execution {
        Some(ledger) => ResourcesView {
            execution: Some(
                LedgerView {
                    used: if ledger.used >= held {
                        (ledger.used - held) as u64
                    } else {
                        0
                    },
                    ..ledger
                },
            ),
            ..resources
        },
        None => resources,
    }
}

/// A volume set that is collected in order, and whose payloads and descriptors
/// stay charged until they are handed to the caller.
#[derive(Debug)]
pub struct WriterVolumes {
    outputs: Records<WriterOutput>,
}

/// The contents of volumes.
pub open spec fn volume_contents(outputs: Seq<WriterOutput>) -> Seq<Seq<u8>> {
    outputs.map_values(|output: WriterOutput| output.contents())
}

/// The summed length of volumes.
pub open spec fn volumes_len(volumes: Seq<Seq<u8>>) -> nat
    decreases volumes.len(),
{
    if volumes.len() == 0 {
        0
    } else {
        volumes_len(volumes.drop_last()) + volumes.last().len()
    }
}

/// The summed capacity of outputs.
pub open spec fn allotted_in_all(outputs: Seq<WriterOutput>) -> nat
    decreases outputs.len(),
{
    if outputs.len() == 0 {
        0
    } else {
        allotted_in_all(outputs.drop_last()) + outputs.last().allotted()
    }
}

/// What the array that volumes are handed out in takes.
pub open spec fn handoff_bytes(count: nat) -> nat {
    count * vstd::layout::size_of::<Vec<u8>>()
}

/// Why volumes cannot be handed out, where they cannot: the array they go into is
/// counted while they are still held.
pub open spec fn handoff_refusal(count: nat, resources: ResourcesView) -> Option<Error> {
    if handoff_bytes(count) > usize::MAX {
        Some(Error::InvalidArgument("volume output capacity overflows"))
    } else {
        resources.capacity_refusal(CapacityClass::Managed, handoff_bytes(count) as u64)
    }
}

impl WriterVolumes {
    /// Whether the descriptors count as managed capacity.
    pub closed spec fn is_managed(&self) -> bool {
        self.outputs.class() == CapacityClass::Managed
    }

    pub closed spec fn outputs(&self) -> Seq<WriterOutput> {
        self.outputs.contents()
    }

    /// How many descriptors there is room for.
    pub closed spec fn room(&self) -> nat {
        self.outputs.room()
    }

    pub open spec fn contents(&self) -> Seq<Seq<u8>> {
        volume_contents(self.outputs())
    }

    /// The managed capacity of all payloads and of the descriptors.
    pub open spec fn held(&self) -> nat {
        allotted_in_all(self.outputs()) + records_bytes::<WriterOutput>(self.room())
    }

    pub fn new(resources: &mut WriterResources) -> (r: Result<WriterVolumes>)
        ensures
            r matches Ok(volumes) && volumes.is_managed() && volumes.outputs() == Seq::<WriterOutput>::empty()
                && volumes.contents() == Seq::<Seq<u8>>::empty() && volumes.room() == 0,
            final(resources)@ == old(resources)@,
    {
        proof {
            lemma_no_records();
        }
        match Records::new(0, CapacityClass::Managed, resources) {
            Ok(outputs) => {
                let volumes = WriterVolumes { outputs };
                assert(volumes.contents() =~= Seq::<Seq<u8>>::empty());
                Ok(volumes)
            },
            Err(error) => Err(error),
        }
    }

    pub fn volumes(&self) -> (outputs: &[WriterOutput])
        ensures
            outputs@ == self.outputs(),
    {
        self.outputs.as_slice()
    }

    /// Opens volume `index`. Volumes come in order.
    pub fn start_volume(&mut self, index: u64, resources: &mut WriterResources) -> (r: Result<()>)
        requires
            old(self).is_managed(),
        ensures
            final(self).is_managed(),
            ({
                let refused = if index > usize::MAX {
                    Some(Error::InvalidArgument("volume index overflows"))
                } else if index != old(self).outputs().len() {
                    Some(Error::WriterFailure("nonsequential volume output"))
                } else if old(self).outputs().len() < old(self).room() {
                    None
                } else {
                    Records::<WriterOutput>::doubling_refusal(
                        old(self).room(),
                        CapacityClass::Managed,
                        old(resources)@,
                    )
                };
                match refused {
                    Some(error) => {
                        &&& r == Err::<(), Error>(error)
                        &&& final(self).outputs() == old(self).outputs()
                        &&& final(self).room() == old(self).room()
                        &&& final(resources)@ == old(resources)@
                    },
                    None => {
                        &&& r is Ok
                        &&& final(self).outputs().len() == old(self).outputs().len() + 1
                        &&& final(self).outputs().drop_last() == old(self).outputs()
                        &&& final(self).outputs().last().allotted() == 0
                        &&& final(self).contents() == old(self).contents().push(
                            Seq::<u8>::empty(),
                        )
                        &&& if old(self).outputs().len() < old(self).room() {
                            final(self).room() == old(self).room() && final(resources)@
                                == old(resources)@
                        } else {
                            final(self).room() == Records::<WriterOutput>::doubled(
                                old(self).room(),
                            ) && final(resources)@ == after_doubling(
                                old(self).room(),
                                old(resources)@,
                            )
                        }
                    },
                }
            }),
    {
        let count: usize = self.outputs.len();
        if index > usize::MAX as u64 {
            return Err(Error::InvalidArgument("volume index overflows"));
        }
        if index != count as u64 {
            return Err(Error::WriterFailure("nonsequential volume output"));
        }
        let ghost before = self.outputs.contents();
        let r = self.outputs.push_growing(WriterOutput::new(), resources);
        proof {
            if r is Ok {
                assert(self.outputs().drop_last() =~= before);
                assert(self.contents() =~= old(self).contents().push(Seq::<u8>::empty()));
            }
        }
        r
    }

    /// Appends to the volume that was opened last, or refuses the bytes and
    /// leaves everything as it was.
    pub fn write(&mut self, data: &[u8], resources: &mut WriterResources) -> (r: Result<()>)
        requires
            old(self).is_managed(),
            old(self).outputs().len() > 0,
        ensures
            final(self).is_managed(),
            final(self).outputs().len() == old(self).outputs().len(),
            final(self).outputs().drop_last() == old(self).outputs().drop_last(),
            final(self).room() == old(self).room(),
            ({
                let last = old(self).outputs().last();
                match append_refusal(
                    last.contents().len(),
                    last.allotted(),
                    CapacityClass::Managed,
                    data@.len(),
                    old(resources)@,
                ) {
                    Some(error) => {
                        &&& r == Err::<(), Error>(error)
                        &&& final(self).contents() == old(self).contents()
                        &&& final(self).outputs().last().allotted() == last.allotted()
                        &&& final(resources)@ == old(resources)@
                    },
                    None => {
                        let capacity = allotted_after(
                            last.contents().len(),
                            last.allotted(),
                            data@.len(),
                        );
                        &&& r is Ok
                        &&& final(self).contents() == old(self).contents().update(
                            old(self).contents().len() - 1,
                            last.contents() + data@,
                        )
                        &&& final(self).outputs().last().allotted() == capacity
                        &&& final(resources)@ == (if capacity == last.allotted() {
                            old(resources)@
                        } else {
                            Bytes::after_growing(
                                last.allotted(),
                                CapacityClass::Managed,
                                capacity,
                                old(resources)@,
                            )
                        })
                    },
                }
            }),
    {
        let ghost before = self.outputs.contents();
        let mut last = match self.outputs.pop() {
            Some(last) => last,
            None => WriterOutput::new(),
        };
        let r = last.write(data, resources);
        self.outputs.put_back(last);
        proof {
            assert(self.outputs().drop_last() =~= before.drop_last());
            if r is Ok {
                assert(self.contents() =~= old(self).contents().update(
                    before.len() - 1,
                    before.last().contents() + data@,
                ));
            } else {
                assert(self.contents() =~= old(self).contents());
            }
        }
        r
    }

    /// Counts all destination payloads while the whole source set is retained.
    /// `copy` is told how much managed memory is in use meanwhile. A copy that
    /// would pass the limit is refused before `copy` is called.
    pub fn copy_with<T, F: FnOnce(&[WriterOutput], u64) -> T>(
        &self,
        resources: &mut WriterResources,
        copy: F,
    ) -> (r: Result<T>)
        requires
            volumes_len(self.contents()) <= u64::MAX && old(resources)@.capacity_refusal(
                CapacityClass::Managed,
                volumes_len(self.contents()) as u64,
            ) is None ==> forall|outputs: &[WriterOutput], in_use: u64|
                outputs@ == self.outputs() && in_use == managed_use(
                    old(resources)@.after_growth(
                        CapacityClass::Managed,
                        volumes_len(self.contents()) as u64,
                    ),
                ) ==> #[trigger] call_requires(copy, (outputs, in_use)),
        ensures
            ({
                let total = volumes_len(self.contents());
                if total > u64::MAX {
                    &&& r == Err::<T, Error>(
                        Error::InvalidArgument("volume copy capacity overflows"),
                    )
                    &&& final(resources)@ == old(resources)@
                } else {
                    match old(resources)@.capacity_refusal(CapacityClass::Managed, total as u64) {
                        Some(error) => r == Err::<T, Error>(error) && final(resources)@ == old(resources)@,
                        None => r matches Ok(copied) && final(resources)@ == old(resources)@
                            && is_copy_of_set(
                            copy,
                            self.outputs(),
                            managed_use(
                                old(resources)@.after_growth(CapacityClass::Managed, total as u64),
                            ),
                            copied,
                        ),
                    }
                }
            }),
    {
        let mut total: u64 = 0;
        let mut i: usize = 0;
        let outputs = self.outputs.as_slice();
        let ghost view = self.contents();
        assert(view.take(0) =~= Seq::<Seq<u8>>::empty());
        while i < outputs.len()
            invariant
                i <= outputs@.len(),
                outputs@ == self.outputs(),
                view == self.contents(),
                view.len() == outputs@.len(),
                total == volumes_len(view.take(i as int)),
            decreases outputs@.len() - i,
        {
            let count: u64 = outputs[i].len() as u64;
            proof {
                assert(view.take(i + 1).drop_last() =~= view.take(i as int));
                assert(view.take(i + 1).last() == outputs@[i as int].contents());
            }
            total = match total.checked_add(count) {
                Some(total) => total,
                None => {
                    proof {
                        lemma_volumes_len_grows(view, i + 1);
                    }
                    return Err(Error::InvalidArgument("volume copy capacity overflows"));
                },
            };
            i = i + 1;
        }
        assert(view.take(i as int) =~= view);
        match resources.reserve_capacity(CapacityClass::Managed, total) {
            Ok(()) => {},
            Err(error) => {
                return Err(error);
            },
        }
        proof {
            law_capacity_round_trip(old(resources)@, CapacityClass::Managed, total);
        }
        let in_use: u64 = resources.managed_memory_in_use();
        let ghost called = copy;
        let copied = copy(outputs, in_use);
        assert(is_copy_of_set(called, self.outputs(), in_use, copied));
        resources.release_capacity(CapacityClass::Managed, total);
        Ok(copied)
    }

    /// Hands the volumes to the caller in order, and gives back all that the set
    /// held. The array they are handed out in has to fit beside them; where it
    /// does not, they are freed.
    pub fn into_vec(self, resources: &mut WriterResources) -> (r: Result<Vec<Vec<u8>>>)
        requires
            self.is_managed(),
        ensures
            match handoff_refusal(self.outputs().len(), old(resources)@) {
                Some(error) => r == Err::<Vec<Vec<u8>>, Error>(error),
                None => r matches Ok(volumes) && volumes@.len() == self.contents().len()
                    && forall|i: int|
                    0 <= i < volumes@.len() ==> (#[trigger] volumes@[i])@ == self.contents()[i],
            },
            final(resources)@ == after_handoff(old(resources)@, self.held()),
    {
        let ghost view = self.contents();
        let ghost all = self.outputs();
        let ghost held = self.held();
        let ghost start = resources@;
        let ghost room = self.room();
        let count: usize = self.outputs.len();
        let size: usize = std::mem::size_of::<Vec<u8>>();
        let wanted: Option<usize> = count.checked_mul(size);
        let refused: Option<Error> = match wanted {
            None => Some(Error::InvalidArgument("volume output capacity overflows")),
            Some(bytes) => match resources.reserve_capacity(CapacityClass::Managed, bytes as u64) {
                Ok(()) => {
                    proof {
                        law_capacity_round_trip(start, CapacityClass::Managed, bytes as u64);
                    }
                    // The caller owns the array from here on.
                    resources.release_capacity(CapacityClass::Managed, bytes as u64);
                    None
                },
                Err(error) => Some(error),
            },
        };
        assert(resources@ == start);
        let mut outputs = self.outputs.into_vec(resources);
        proof {
            lemma_handoff_start(start, records_bytes::<WriterOutput>(room));
            assert(all.skip(0) =~= all);
            assert(all.skip(all.len() as int) =~= Seq::empty());
            assert(records_bytes::<WriterOutput>(room) <= u64::MAX);
            assert(resources@ == after_handoff(start, records_bytes::<WriterOutput>(room)));
        }
        let mut reversed: Vec<Vec<u8>> = Vec::new();
        while outputs.len() > 0
            invariant
                outputs@.len() + reversed@.len() == all.len(),
                outputs@ == all.take(outputs@.len() as int),
                view == volume_contents(all),
                forall|k: int|
                    0 <= k < reversed@.len() ==> (#[trigger] reversed@[k])@ == view[all.len() - 1
                        - k],
                resources@ == after_handoff(
                    start,
                    records_bytes::<WriterOutput>(room) + allotted_in_all(
                        all.skip(outputs@.len() as int),
                    ),
                ),
            decreases outputs@.len(),
        {
            let ghost left = outputs@.len();
            if let Some(output) = outputs.pop() {
                let ghost so_far = records_bytes::<WriterOutput>(room) + allotted_in_all(
                    all.skip(left as int),
                );
                assert(output == all[left - 1]);
                let ghost own = output.allotted();
                let bytes = output.into_vec(resources);
                proof {
                    lemma_handoff_more(start, so_far, own);
                    lemma_allotted_front(all.skip(left - 1));
                    assert(all.skip(left - 1).skip(1) =~= all.skip(left as int));
                    assert(all.skip(left - 1)[0] == all[left - 1]);
                }
                reversed.push(bytes);
            }
        }
        assert(all.skip(0) =~= all);
        let mut volumes: Vec<Vec<u8>> = Vec::new();
        while reversed.len() > 0
            invariant
                reversed@.len() + volumes@.len() == view.len(),
                view.len() == all.len(),
                forall|k: int|
                    0 <= k < reversed@.len() ==> (#[trigger] reversed@[k])@ == view[all.len() - 1
                        - k],
                forall|k: int| 0 <= k < volumes@.len() ==> (#[trigger] volumes@[k])@ == view[k],
            decreases reversed@.len(),
        {
            if let Some(bytes) = reversed.pop() {
                volumes.push(bytes);
            }
        }
        match refused {
            Some(error) => Err(error),
            None => Ok(volumes),
        }
    }
}

/// The ledgers after the descriptors of a full set have doubled their room.
pub open spec fn after_doubling(room: nat, resources: ResourcesView) -> ResourcesView {
    let more = records_bytes::<WriterOutput>(
        Records::<WriterOutput>::doubled(room),
    ) as u64;
    (if more == 0 {
        resources
    } else {
        resources.after_growth(CapacityClass::Managed, more)
    }).after_release(CapacityClass::Managed, records_bytes::<WriterOutput>(room) as u64)
}

proof fn lemma_no_records()
    ensures
        records_bytes::<WriterOutput>(0) == 0,
{
    assert(0 * vstd::layout::size_of::<WriterOutput>() == 0) by (nonlinear_arith);
}

proof fn lemma_handoff_start(resources: ResourcesView, held: nat)
    requires
        held <= u64::MAX,
    ensures
        resources.after_release(CapacityClass::Managed, held as u64) == after_handoff(
            resources,
            held,
        ),
{
}

proof fn lemma_handoff_more(resources: ResourcesView, held: nat, more: nat)
    requires
        more <= u64::MAX,
    ensures
        after_handoff(resources, held).after_release(CapacityClass::Managed, more as u64)
            == after_handoff(resources, held + more),
{
}

proof fn lemma_allotted_front(outputs: Seq<WriterOutput>)
    requires
        outputs.len() > 0,
    ensures
        allotted_in_all(outputs) == outputs[0].allotted() + allotted_in_all(outputs.skip(1)),
    decreases outputs.len(),
{
    if outputs.len() == 1 {
        assert(outputs.drop_last() =~= Seq::empty());
        assert(outputs.skip(1) =~= Seq::empty());
    } else {
        lemma_allotted_front(outputs.drop_last());
        assert(outputs.drop_last().skip(1) =~= outputs.skip(1).drop_last());
    }
}

/// What a set is charged with is what it holds: writing to it changes the use of
/// managed memory by as much as it changes what the set holds.
pub proof fn law_use_follows_what_a_set_holds(
    before: Seq<WriterOutput>,
    after: Seq<WriterOutput>,
    resources: ResourcesView,
    capacity: nat,
)
    requires
        before.len() > 0,
        after.len() == before.len(),
        after.drop_last() == before.drop_last(),
        after.last().allotted() == capacity,
        before.last().allotted() < capacity,
        Bytes::growth_refusal(
            before.last().allotted(),
            CapacityClass::Managed,
            capacity,
            resources,
        ) is None,
        resources.execution is Some,
        before.last().allotted() <= managed_use(resources),
    ensures
        managed_use(
            Bytes::after_growing(
                before.last().allotted(),
                CapacityClass::Managed,
                capacity,
                resources,
            ),
        ) - managed_use(resources) == allotted_in_all(after) - allotted_in_all(before),
{
}

/// Without a ceiling on managed memory a set is handed out, unless the array it goes
/// into is larger than can be addressed.
pub proof fn law_a_set_without_a_ceiling_is_handed_out(count: nat, resources: ResourcesView)
    requires
        resources.execution is None,
    ensures
        handoff_refusal(count, resources) is None <==> handoff_bytes(count) <= usize::MAX,
{
}

/// Once a set is handed out, nothing of it counts any more: where it was all that
/// was held, nothing is in use.
pub proof fn law_nothing_is_held_after_handoff(resources: ResourcesView, held: nat)
    requires
        managed_use(resources) == held,
    ensures
        managed_use(after_handoff(resources, held)) == 0,
{
}

proof fn lemma_volumes_len_grows(volumes: Seq<Seq<u8>>, from: int)
    requires
        0 <= from <= volumes.len(),
    ensures
        volumes_len(volumes.take(from)) <= volumes_len(volumes),
    decreases volumes.len() - from,
{
    if from < volumes.len() {
        lemma_volumes_len_grows(volumes, from + 1);
        assert(volumes.take(from + 1).drop_last() =~= volumes.take(from));
    } else {
        assert(volumes.take(from) =~= volumes);
    }
}

/// Keeps a whole volume set in memory, and holds volumes to their order and
/// to the lengths that are announced.
#[derive(Debug)]
pub struct CollectedVolumes {
    volumes: Vec<Vec<u8>>,
}

pub open spec fn volumes_view(volumes: Seq<Vec<u8>>) -> Seq<Seq<u8>> {
    volumes.map_values(|volume: Vec<u8>| volume@)
}

impl CollectedVolumes {
    pub closed spec fn contents(&self) -> Seq<Seq<u8>> {
        volumes_view(self.volumes@)
    }

    pub fn new() -> (volumes: CollectedVolumes)
        ensures
            volumes.contents() == Seq::<Seq<u8>>::empty(),
    {
        let volumes = CollectedVolumes { volumes: Vec::new() };
        assert(volumes.contents() =~= Seq::<Seq<u8>>::empty());
        volumes
    }

    /// The finished set, in order. It is moved out rather than copied.
    pub fn take(&mut self) -> (volumes: Vec<Vec<u8>>)
        ensures
            volumes_view(volumes@) == old(self).contents(),
            final(self).contents() == Seq::<Seq<u8>>::empty(),
    {
        let mut volumes: Vec<Vec<u8>> = Vec::new();
        std::mem::swap(&mut volumes, &mut self.volumes);
        assert(self.contents() =~= Seq::<Seq<u8>>::empty());
        volumes
    }

    /// Opens volume `index`, counted from zero.
    pub fn start_volume(&mut self, index: u64) -> (r: Result<()>)
        ensures
            if index == old(self).contents().len() {
                r is Ok && final(self).contents() == old(self).contents().push(Seq::empty())
            } else {
                r == Err::<(), Error>(Error::InvalidHeader("RAR 5 volumes arrived out of order"))
                    && final(self).contents() == old(self).contents()
            },
    {
        if self.volumes.len() as u64 != index {
            return Err(Error::InvalidHeader("RAR 5 volumes arrived out of order"));
        }
        self.volumes.push(Vec::new());
        assert(self.contents() =~= old(self).contents().push(Seq::empty()));
        Ok(())
    }

    /// Appends to volume `index`, which has been opened.
    pub fn write(&mut self, index: u64, data: &[u8])
        requires
            index < old(self).contents().len(),
        ensures
            final(self).contents() == old(self).contents().update(
                index as int,
                old(self).contents()[index as int] + data@,
            ),
    {
        let count: usize = self.volumes.len();
        assert(self.contents().len() == count);
        let at: usize = index as usize;
        crate::bytes::push_all(&mut self.volumes[at], data);
        assert(self.contents() =~= old(self).contents().update(
            index as int,
            old(self).contents()[index as int] + data@,
        ));
    }

    /// Takes note that volume `index`, which has been opened, is finished.
    pub fn finish_volume(&mut self, index: u64, len: u64) -> (r: Result<()>)
        requires
            index < old(self).contents().len(),
        ensures
            final(self).contents() == old(self).contents(),
            r == (if old(self).contents()[index as int].len() == len {
                Ok::<(), Error>(())
            } else {
                Err(Error::InvalidHeader("RAR 5 volume length does not match what was written"))
            }),
    {
        let count: usize = self.volumes.len();
        assert(self.contents().len() == count);
        let at: usize = index as usize;
        assert(self.contents()[at as int] == self.volumes@[at as int]@);
        if self.volumes[at].len() as u64 != len {
            return Err(
                Error::InvalidHeader("RAR 5 volume length does not match what was written"),
            );
        }
        Ok(())
    }
}

/// Receives each volume of a multi-volume archive as it is finished.
pub trait VolumeSink {
    /// Opens the output for volume `index`, numbered from zero.
    fn start_volume(&mut self, index: u64) -> Result<()>;

    /// Takes bytes of volume `index`.
    fn write_volume(&mut self, index: u64, data: &[u8]) -> Result<()>;

    /// Called once volume `index` has been written.
    fn finish_volume(&mut self, index: u64, len: u64) -> Result<()>;
}

impl VolumeSink for CollectedVolumes {
    fn start_volume(&mut self, index: u64) -> (r: Result<()>)
        ensures
            if index == old(self).contents().len() {
                r is Ok && final(self).contents() == old(self).contents().push(Seq::empty())
            } else {
                r == Err::<(), Error>(Error::InvalidHeader("RAR 5 volumes arrived out of order"))
                    && final(self).contents() == old(self).contents()
            },
    {
        CollectedVolumes::start_volume(self, index)
    }

    fn write_volume(&mut self, index: u64, data: &[u8]) -> (r: Result<()>)
        ensures
            if index < old(self).contents().len() {
                r is Ok && final(self).contents() == old(self).contents().update(
                    index as int,
                    old(self).contents()[index as int] + data@,
                )
            } else {
                r == Err::<(), Error>(Error::InvalidHeader("RAR 5 volumes arrived out of order"))
                    && final(self).contents() == old(self).contents()
            },
    {
        let count: usize = self.volumes.len();
        assert(self.contents().len() == count);
        if index >= count as u64 {
            return Err(Error::InvalidHeader("RAR 5 volumes arrived out of order"));
        }
        self.write(index, data);
        Ok(())
    }

    fn finish_volume(&mut self, index: u64, len: u64) -> (r: Result<()>)
        ensures
            final(self).contents() == old(self).contents(),
            r == (if index >= old(self).contents().len() {
                Err::<(), Error>(Error::InvalidHeader("RAR 5 volumes arrived out of order"))
            } else if old(self).contents()[index as int].len() == len {
                Ok(())
            } else {
                Err(Error::InvalidHeader("RAR 5 volume length does not match what was written"))
            }),
    {
        let count: usize = self.volumes.len();
        assert(self.contents().len() == count);
        if index >= count as u64 {
            return Err(Error::InvalidHeader("RAR 5 volumes arrived out of order"));
        }
        CollectedVolumes::finish_volume(self, index, len)
    }
}

impl Default for CollectedVolumes {
    fn default() -> (volumes: CollectedVolumes)
        ensures
            volumes.contents() == Seq::<Seq<u8>>::empty(),
    {
        CollectedVolumes::new()
    }
}

} // verus!
