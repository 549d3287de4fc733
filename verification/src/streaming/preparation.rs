//! Ownership of preparation capacity, temporary replacement peaks included.

use vstd::prelude::*;

use crate::bytes::{copy_bytes, copy_zero_padded, push_all};
#[allow(unused_imports)]
use crate::bytes::zero_padded;
use crate::error::{Error, Result};
use crate::power::next_power_of_two;
#[allow(unused_imports)]
use crate::power::{lemma_power_reaching, power_reaching};
use crate::rar50::vint::write_vint;
#[allow(unused_imports)]
use crate::rar50::vint::vint;
use crate::streaming::resources::{CapacityCharge, CapacityClass, WriterResources};
#[allow(unused_imports)]
use crate::streaming::resources::ResourcesView;

verus! {

/// What growth beyond the address space is refused with.
pub open spec fn capacity_overflow() -> Error {
    Error::InvalidArgument("preparation capacity overflows")
}

/// Bytes whose capacity is charged.
#[derive(Debug)]
pub struct Bytes {
    bytes: Vec<u8>,
    len: usize,
    charge: CapacityCharge,
}

impl Bytes {
    #[verifier::type_invariant]
    spec fn well_formed(self) -> bool {
        &&& self.len <= self.bytes@.len()
        &&& self.charge.bytes == self.bytes@.len()
    }

    pub closed spec fn contents(&self) -> Seq<u8> {
        self.bytes@.take(self.len as int)
    }

    /// The capacity that is allocated and charged.
    pub closed spec fn allotted(&self) -> nat {
        self.bytes@.len()
    }

    pub closed spec fn class(&self) -> CapacityClass {
        self.charge.class
    }

    /// No bytes yet, to be counted in this class.
    pub fn new(class: CapacityClass) -> (bytes: Bytes)
        ensures
            bytes.contents() == Seq::<u8>::empty(),
            bytes.allotted() == 0,
            bytes.class() == class,
    {
        let bytes = Bytes { bytes: Vec::new(), len: 0, charge: CapacityCharge::new(class) };
        assert(bytes.contents() =~= Seq::<u8>::empty());
        bytes
    }

    /// Bytes of a final output: managed capacity, and no preparation.
    pub fn output() -> (bytes: Bytes)
        ensures
            bytes.contents() == Seq::<u8>::empty(),
            bytes.allotted() == 0,
            bytes.class() == CapacityClass::Managed,
    {
        Bytes::new(CapacityClass::Managed)
    }

    pub fn len(&self) -> (len: usize)
        ensures
            len == self.contents().len(),
    {
        proof {
            use_type_invariant(self);
        }
        self.len
    }

    pub fn capacity(&self) -> (capacity: usize)
        ensures
            capacity == self.allotted(),
    {
        self.bytes.len()
    }

    pub fn as_slice(&self) -> (bytes: &[u8])
        ensures
            bytes@ == self.contents(),
    {
        proof {
            use_type_invariant(self);
        }
        vstd::slice::slice_subrange(self.bytes.as_slice(), 0, self.len)
    }

    /// What comes of growing to `capacity`: the old and the replacement
    /// allocation are both charged while the bytes move, and then only the
    /// replacement.
    pub open spec fn growth_refusal(
        allotted: nat,
        class: CapacityClass,
        capacity: nat,
        resources: ResourcesView,
    ) -> Option<Error> {
        if capacity > isize::MAX || allotted + capacity > usize::MAX {
            Some(capacity_overflow())
        } else {
            resources.capacity_refusal(class, capacity as u64)
        }
    }

    pub open spec fn after_growing(
        allotted: nat,
        class: CapacityClass,
        capacity: nat,
        resources: ResourcesView,
    ) -> ResourcesView {
        resources.after_growth(class, capacity as u64).after_release(class, allotted as u64)
    }

    fn grow(&mut self, capacity: usize, resources: &mut WriterResources) -> (r: Result<()>)
        ensures
            final(self).class() == old(self).class(),
            final(self).contents() == old(self).contents(),
            if capacity <= old(self).allotted() {
                &&& r is Ok
                &&& final(self).allotted() == old(self).allotted()
                &&& final(resources)@ == old(resources)@
            } else {
                match Self::growth_refusal(
                    old(self).allotted(),
                    old(self).class(),
                    capacity as nat,
                    old(resources)@,
                ) {
                    Some(error) => {
                        &&& r == Err::<(), Error>(error)
                        &&& final(self).allotted() == old(self).allotted()
                        &&& final(resources)@ == old(resources)@
                    },
                    None => {
                        &&& r is Ok
                        &&& final(self).allotted() == capacity
                        &&& final(resources)@ == Self::after_growing(
                            old(self).allotted(),
                            old(self).class(),
                            capacity as nat,
                            old(resources)@,
                        )
                    },
                }
            },
    {
        proof {
            use_type_invariant(&*self);
        }
        let held: usize = self.bytes.len();
        if capacity <= held {
            return Ok(());
        }
        if capacity > isize::MAX as usize {
            return Err(Error::InvalidArgument("preparation capacity overflows"));
        }
        let peak: usize = match held.checked_add(capacity) {
            Some(peak) => peak,
            None => {
                return Err(Error::InvalidArgument("preparation capacity overflows"));
            },
        };
        let mut charge = CapacityCharge { class: self.charge.class, bytes: self.charge.bytes };
        match charge.grow_to(peak as u64, resources) {
            Ok(()) => {},
            Err(error) => {
                return Err(error);
            },
        }
        let kept = vstd::slice::slice_subrange(self.bytes.as_slice(), 0, self.len);
        let replacement = copy_zero_padded(kept, capacity);
        charge.shrink_to(capacity as u64, resources);
        let len: usize = self.len;
        *self = Bytes { bytes: replacement, len, charge };
        assert(self.contents() =~= old(self).contents());
        Ok(())
    }

    /// `len` zero bytes.
    pub fn zeroed(len: usize, class: CapacityClass, resources: &mut WriterResources) -> (r: Result<
        Bytes,
    >)
        ensures
            if len == 0 {
                r matches Ok(bytes) && bytes.contents() == Seq::<u8>::empty() && bytes.allotted()
                    == 0 && bytes.class() == class && final(resources)@ == old(resources)@
            } else {
                match Self::growth_refusal(0, class, len as nat, old(resources)@) {
                    Some(error) => r == Err::<Bytes, Error>(error) && final(resources)@ == old(resources)@,
                    None => r matches Ok(bytes) && bytes.contents() == zero_padded(
                        Seq::empty(),
                        len as nat,
                    ) && bytes.allotted() == len && bytes.class() == class && final(resources)@
                        == Self::after_growing(0, class, len as nat, old(resources)@),
                }
            },
    {
        let mut out = Bytes::new(class);
        match out.grow(len, resources) {
            Ok(()) => {},
            Err(error) => {
                return Err(error);
            },
        }
        proof {
            use_type_invariant(&out);
        }
        let held: usize = out.capacity();
        let nothing: Vec<u8> = Vec::new();
        let zeros = copy_zero_padded(&nothing, held);
        let charge = CapacityCharge { class, bytes: held as u64 };
        let out = Bytes { bytes: zeros, len, charge };
        assert(nothing@ =~= Seq::<u8>::empty());
        assert(len > 0 ==> out.contents() =~= zero_padded(Seq::empty(), len as nat));
        assert(len == 0 ==> out.contents() =~= Seq::<u8>::empty());
        Ok(out)
    }
}

/// Why appending to bytes is refused, where it is.
pub open spec fn append_refusal(
    len: nat,
    allotted: nat,
    class: CapacityClass,
    count: nat,
    resources: ResourcesView,
) -> Option<Error> {
    let end = len + count;
    if end > usize::MAX {
        Some(Error::InvalidArgument("preparation length overflows"))
    } else if end <= allotted {
        None
    } else if power_reaching(1, end) > usize::MAX {
        Some(capacity_overflow())
    } else {
        Bytes::growth_refusal(allotted, class, power_reaching(1, end), resources)
    }
}

/// The capacity that bytes have after an append: doubled where it has to grow.
pub open spec fn allotted_after(len: nat, allotted: nat, count: nat) -> nat {
    if len + count <= allotted {
        allotted
    } else {
        power_reaching(1, len + count)
    }
}

impl Bytes {
    /// Appends `data`. A refusal leaves contents and ledgers as they were.
    pub fn extend_from_slice(&mut self, data: &[u8], resources: &mut WriterResources) -> (r: Result<
        (),
    >)
        ensures
            final(self).class() == old(self).class(),
            match append_refusal(
                old(self).contents().len(),
                old(self).allotted(),
                old(self).class(),
                data@.len(),
                old(resources)@,
            ) {
                Some(error) => {
                    &&& r == Err::<(), Error>(error)
                    &&& final(self).contents() == old(self).contents()
                    &&& final(self).allotted() == old(self).allotted()
                    &&& final(resources)@ == old(resources)@
                },
                None => {
                    let capacity = allotted_after(
                        old(self).contents().len(),
                        old(self).allotted(),
                        data@.len(),
                    );
                    &&& r is Ok
                    &&& final(self).contents() == old(self).contents() + data@
                    &&& final(self).allotted() == capacity
                    &&& final(resources)@ == (if capacity == old(self).allotted() {
                        old(resources)@
                    } else {
                        Self::after_growing(
                            old(self).allotted(),
                            old(self).class(),
                            capacity,
                            old(resources)@,
                        )
                    })
                },
            },
    {
        proof {
            use_type_invariant(&*self);
        }
        let end: usize = match self.len.checked_add(data.len()) {
            Some(end) => end,
            None => {
                return Err(Error::InvalidArgument("preparation length overflows"));
            },
        };
        if end > self.bytes.len() {
            let power: u64 = match next_power_of_two(end as u64) {
                Some(power) => power,
                None => {
                    return Err(Error::InvalidArgument("preparation capacity overflows"));
                },
            };
            if power > usize::MAX as u64 {
                return Err(Error::InvalidArgument("preparation capacity overflows"));
            }
            proof {
                lemma_power_reaching(1, end as nat);
            }
            match self.grow(power as usize, resources) {
                Ok(()) => {},
                Err(error) => {
                    return Err(error);
                },
            }
        }
        proof {
            use_type_invariant(&*self);
        }
        let ghost before = self.contents();
        let held: usize = self.bytes.len();
        let mut joined = copy_bytes(self.as_slice());
        push_all(&mut joined, data);
        let bytes = copy_zero_padded(&joined, held);
        let charge = CapacityCharge { class: self.charge.class, bytes: self.charge.bytes };
        *self = Bytes { bytes, len: end, charge };
        assert(self.contents() =~= before + data@);
        Ok(())
    }

    /// Appends a variable-length integer.
    pub fn vint(&mut self, value: u64, resources: &mut WriterResources) -> (r: Result<()>)
        ensures
            final(self).class() == old(self).class(),
            match append_refusal(
                old(self).contents().len(),
                old(self).allotted(),
                old(self).class(),
                vint(value as nat).len(),
                old(resources)@,
            ) {
                Some(error) => {
                    &&& r == Err::<(), Error>(error)
                    &&& final(self).contents() == old(self).contents()
                    &&& final(self).allotted() == old(self).allotted()
                    &&& final(resources)@ == old(resources)@
                },
                None => {
                    let capacity = allotted_after(
                        old(self).contents().len(),
                        old(self).allotted(),
                        vint(value as nat).len(),
                    );
                    &&& r is Ok
                    &&& final(self).contents() == old(self).contents() + vint(value as nat)
                    &&& final(self).allotted() == capacity
                    &&& final(resources)@ == (if capacity == old(self).allotted() {
                        old(resources)@
                    } else {
                        Self::after_growing(
                            old(self).allotted(),
                            old(self).class(),
                            capacity,
                            old(resources)@,
                        )
                    })
                },
            },
    {
        let mut encoded: Vec<u8> = Vec::new();
        write_vint(&mut encoded, value);
        assert(encoded@ =~= vint(value as nat));
        self.extend_from_slice(&encoded, resources)
    }

    /// Hands the bytes out and gives their capacity back.
    pub fn into_vec(self, resources: &mut WriterResources) -> (bytes: Vec<u8>)
        ensures
            bytes@ == self.contents(),
            self.allotted() <= u64::MAX,
            final(resources)@ == old(resources)@.after_release(
                self.class(),
                self.allotted() as u64,
            ),
    {
        proof {
            use_type_invariant(&self);
        }
        let out = copy_bytes(self.as_slice());
        resources.release_capacity(self.charge.class, self.charge.bytes);
        out
    }

    /// Frees the bytes and gives their capacity back.
    pub fn release(self, resources: &mut WriterResources)
        ensures
            final(resources)@ == old(resources)@.after_release(
                self.class(),
                self.allotted() as u64,
            ),
    {
        proof {
            use_type_invariant(&self);
        }
        resources.release_capacity(self.charge.class, self.charge.bytes);
    }
}

/// What a count of records that overflows is refused with.
pub open spec fn records_overflow() -> Error {
    Error::InvalidArgument("preparation records capacity overflows")
}

/// Bytes that `limit` records take.
pub open spec fn records_bytes<T>(limit: nat) -> nat {
    limit * vstd::layout::size_of::<T>()
}

/// An array of records whose capacity is admitted before it is allocated.
#[derive(Debug)]
pub struct Records<T> {
    values: Vec<T>,
    limit: usize,
    charge: CapacityCharge,
}

impl<T> Records<T> {
    #[verifier::type_invariant]
    spec fn well_formed(self) -> bool {
        &&& self.values@.len() <= self.limit
        &&& self.charge.bytes == records_bytes::<T>(self.limit as nat)
    }

    pub closed spec fn contents(&self) -> Seq<T> {
        self.values@
    }

    /// How many records the capacity holds.
    pub closed spec fn room(&self) -> nat {
        self.limit as nat
    }

    pub closed spec fn class(&self) -> CapacityClass {
        self.charge.class
    }

    /// Why room for `limit` records is refused, where it is.
    pub open spec fn room_refusal(
        limit: nat,
        class: CapacityClass,
        resources: ResourcesView,
    ) -> Option<Error> {
        if records_bytes::<T>(limit) > isize::MAX {
            Some(records_overflow())
        } else if records_bytes::<T>(limit) == 0 {
            None
        } else {
            resources.capacity_refusal(class, records_bytes::<T>(limit) as u64)
        }
    }

    pub fn new(limit: usize, class: CapacityClass, resources: &mut WriterResources) -> (r: Result<
        Records<T>,
    >)
        ensures
            match Self::room_refusal(limit as nat, class, old(resources)@) {
                Some(error) => r == Err::<Records<T>, Error>(error) && final(resources)@ == old(resources)@,
                None => r matches Ok(records) && records.contents() == Seq::<T>::empty()
                    && records.room() == limit && records.class() == class && final(resources)@
                    == (if records_bytes::<T>(limit as nat) == 0 {
                    old(resources)@
                } else {
                    old(resources)@.after_growth(class, records_bytes::<T>(limit as nat) as u64)
                }),
            },
    {
        let size: usize = std::mem::size_of::<T>();
        let bytes: usize = match records_size(limit, size) {
            Some(bytes) => bytes,
            None => {
                return Err(Error::InvalidArgument("preparation records capacity overflows"));
            },
        };
        let mut charge = CapacityCharge::new(class);
        match charge.grow_to(bytes as u64, resources) {
            Ok(()) => {},
            Err(error) => {
                return Err(error);
            },
        }
        Ok(Records { values: Vec::new(), limit, charge })
    }

    pub fn len(&self) -> (len: usize)
        ensures
            len == self.contents().len(),
    {
        self.values.len()
    }

    pub fn as_slice(&self) -> (values: &[T])
        ensures
            values@ == self.contents(),
    {
        self.values.as_slice()
    }

    /// Adds a record where there is room for it.
    pub fn push(&mut self, value: T) -> (r: Result<()>)
        ensures
            final(self).room() == old(self).room(),
            final(self).class() == old(self).class(),
            if old(self).contents().len() < old(self).room() {
                r is Ok && final(self).contents() == old(self).contents().push(value)
            } else {
                r == Err::<(), Error>(
                    Error::WriterFailure("preparation record count exceeded admission"),
                ) && final(self).contents() == old(self).contents()
            },
    {
        proof {
            use_type_invariant(&*self);
        }
        if self.values.len() == self.limit {
            return Err(Error::WriterFailure("preparation record count exceeded admission"));
        }
        let mut values: Vec<T> = Vec::new();
        std::mem::swap(&mut values, &mut self.values);
        values.push(value);
        self.values = values;
        Ok(())
    }

    pub fn pop(&mut self) -> (value: Option<T>)
        ensures
            value is Some ==> final(self).contents().len() < final(self).room(),
            final(self).room() == old(self).room(),
            final(self).class() == old(self).class(),
            if old(self).contents().len() == 0 {
                value is None && final(self).contents() == old(self).contents()
            } else {
                value == Some(old(self).contents().last()) && final(self).contents() == old(self).contents().drop_last()
            },
    {
        proof {
            use_type_invariant(&*self);
        }
        let mut values: Vec<T> = Vec::new();
        std::mem::swap(&mut values, &mut self.values);
        let value = values.pop();
        self.values = values;
        value
    }

    /// Puts a record in the room that there is for it.
    pub fn put_back(&mut self, value: T)
        requires
            old(self).contents().len() < old(self).room(),
        ensures
            final(self).room() == old(self).room(),
            final(self).class() == old(self).class(),
            final(self).contents() == old(self).contents().push(value),
    {
        proof {
            use_type_invariant(&*self);
        }
        let mut values: Vec<T> = Vec::new();
        std::mem::swap(&mut values, &mut self.values);
        values.push(value);
        self.values = values;
    }

    /// The room that a full array grows to.
    pub open spec fn doubled(room: nat) -> nat {
        if room == 0 {
            2
        } else {
            2 * room
        }
    }

    /// Why growing is refused, where it is: the old and the replacement array
    /// are both charged while the records move.
    pub open spec fn doubling_refusal(
        room: nat,
        class: CapacityClass,
        resources: ResourcesView,
    ) -> Option<Error> {
        if Self::doubled(room) > usize::MAX {
            Some(records_overflow())
        } else {
            Self::room_refusal(Self::doubled(room), class, resources)
        }
    }

    /// Adds a record, doubling the room where there is none left.
    pub fn push_growing(&mut self, value: T, resources: &mut WriterResources) -> (r: Result<()>)
        ensures
            final(self).class() == old(self).class(),
            if old(self).contents().len() < old(self).room() {
                &&& r is Ok
                &&& final(self).contents() == old(self).contents().push(value)
                &&& final(self).room() == old(self).room()
                &&& final(resources)@ == old(resources)@
            } else {
                match Self::doubling_refusal(old(self).room(), old(self).class(), old(resources)@) {
                    Some(error) => {
                        &&& r == Err::<(), Error>(error)
                        &&& final(self).contents() == old(self).contents()
                        &&& final(self).room() == old(self).room()
                        &&& final(resources)@ == old(resources)@
                    },
                    None => {
                        let more = records_bytes::<T>(Self::doubled(old(self).room())) as u64;
                        &&& r is Ok
                        &&& final(self).contents() == old(self).contents().push(value)
                        &&& final(self).room() == Self::doubled(old(self).room())
                        &&& final(resources)@ == (if more == 0 {
                            old(resources)@
                        } else {
                            old(resources)@.after_growth(old(self).class(), more)
                        }).after_release(
                            old(self).class(),
                            records_bytes::<T>(old(self).room()) as u64,
                        )
                    },
                }
            },
    {
        proof {
            use_type_invariant(&*self);
        }
        if self.values.len() == self.limit {
            let limit: usize = match (if self.limit == 0 {
                1usize
            } else {
                self.limit
            }).checked_mul(2) {
                Some(limit) => limit,
                None => {
                    return Err(Error::InvalidArgument("preparation records capacity overflows"));
                },
            };
            let size: usize = std::mem::size_of::<T>();
            let bytes: usize = match records_size(limit, size) {
                Some(bytes) => bytes,
                None => {
                    return Err(Error::InvalidArgument("preparation records capacity overflows"));
                },
            };
            proof {
                let room = self.limit as nat;
                assert(room * size <= limit * size) by (nonlinear_arith)
                    requires
                        room <= limit,
                ;
            }
            let mut charge = CapacityCharge { class: self.charge.class, bytes: self.charge.bytes };
            match charge.grow_to(bytes as u64 + charge.bytes, resources) {
                Ok(()) => {},
                Err(error) => {
                    return Err(error);
                },
            }
            charge.shrink_to(bytes as u64, resources);
            let mut values: Vec<T> = Vec::new();
            std::mem::swap(&mut values, &mut self.values);
            values.push(value);
            *self = Records { values, limit, charge };
            return Ok(());
        }
        self.push(value)
    }

    /// Hands the records out and gives their capacity back.
    pub fn into_vec(self, resources: &mut WriterResources) -> (values: Vec<T>)
        ensures
            values@ == self.contents(),
            records_bytes::<T>(self.room()) <= u64::MAX,
            final(resources)@ == old(resources)@.after_release(
                self.class(),
                records_bytes::<T>(self.room()) as u64,
            ),
    {
        proof {
            use_type_invariant(&self);
        }
        resources.release_capacity(self.charge.class, self.charge.bytes);
        self.values
    }
}

/// Bytes of `limit` records of `size` each, where they fit in memory.
fn records_size(limit: usize, size: usize) -> (bytes: Option<usize>)
    ensures
        match bytes {
            Some(bytes) => bytes == limit * size && bytes <= isize::MAX,
            None => limit * size > isize::MAX,
        },
{
    match limit.checked_mul(size) {
        Some(bytes) => if bytes <= isize::MAX as usize {
            Some(bytes)
        } else {
            None
        },
        None => None,
    }
}

/// Bytes that grow are charged for their new capacity beside the old one while they move,
/// and for the new one alone from then on.
pub proof fn law_moving_bytes_are_charged_twice(
    allotted: nat,
    class: CapacityClass,
    capacity: nat,
    resources: ResourcesView,
)
    requires
        class is Managed || class is Preparation,
        capacity > 0,
        Bytes::growth_refusal(allotted, class, capacity, resources) is None,
        resources.execution matches Some(ledger) ==> ledger.used >= allotted,
        resources.preparation matches Some(ledger) ==> ledger.used >= allotted,
    ensures
        ({
            let after = Bytes::after_growing(allotted, class, capacity, resources);
            &&& resources.execution matches Some(ledger) ==> {
                &&& ledger.used + capacity <= ledger.limit
                &&& after.execution is Some
                &&& after.execution->0.used == ledger.used + capacity - allotted
            }
            &&& class is Preparation ==> (resources.preparation matches Some(ledger) ==> {
                &&& ledger.used + capacity <= ledger.limit
                &&& after.preparation is Some
                &&& after.preparation->0.used == ledger.used + capacity - allotted
            })
        }),
{
}

/// An append finds room for what it adds. Bytes are moved only where there is none left, and
/// to a capacity less than twice as large as they need.
pub proof fn law_appends_find_room(len: nat, allotted: nat, count: nat)
    requires
        len <= allotted,
    ensures
        allotted_after(len, allotted, count) >= len + count,
        len + count <= allotted <==> allotted_after(len, allotted, count) == allotted,
        len + count > allotted ==> allotted_after(len, allotted, count) < 2 * (len + count),
{
    if len + count > allotted {
        lemma_power_reaching(1, len + count);
    }
}

} // verus!
