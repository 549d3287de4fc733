//! The account of a temporary payload: its length, its cursor and what is
//! reserved for it. Writes go to a backing store that may take less than it
//! was given.

use vstd::prelude::*;

use crate::bytes::push_all;
use crate::error::{Error, Result};
use crate::text::{push_decimal, push_hex};
#[allow(unused_imports)]
use crate::text::{decimal, hex, law_hex_digits_are_distinct, lemma_hex_len};
use crate::streaming::memory_spool::{resolve_seek, SeekFrom};
#[allow(unused_imports)]
use crate::streaming::memory_spool::seek_target;
#[allow(unused_imports)]
use crate::streaming::ledger::growth_to;
use crate::streaming::resources::{CapacityCharge, CapacityClass, WriterResources};

verus! {

/// The start of every spool's file name.
pub open spec fn spool_prefix() -> Seq<u8> {
    seq![0x2eu8, 0x72, 0x61, 0x72, 0x73, 0x2d, 0x73, 0x70, 0x6f, 0x6f, 0x6c, 0x2d]
}

/// The file name of a spool: `.rars-spool-`, the process, and a sequence
/// number in sixteen hexadecimal digits.
pub open spec fn spool_name_of(process: u32, sequence: u64) -> Seq<u8> {
    spool_prefix() + decimal(process as nat) + seq![0x2du8] + hex(sequence as nat, 16)
}

pub fn spool_name(process: u32, sequence: u64) -> (name: Vec<u8>)
    ensures
        name@ == spool_name_of(process, sequence),
{
    let prefix: [u8; 12] = [
        0x2e,
        0x72,
        0x61,
        0x72,
        0x73,
        0x2d,
        0x73,
        0x70,
        0x6f,
        0x6f,
        0x6c,
        0x2d,
    ];
    let mut name: Vec<u8> = Vec::new();
    push_all(&mut name, &prefix);
    push_decimal(&mut name, process as u64);
    name.push(0x2d);
    push_hex(&mut name, sequence, 16);
    assert(prefix@ =~= spool_prefix());
    assert(name@ =~= spool_name_of(process, sequence));
    name
}

/// Spools of one process have different names.
pub proof fn law_spool_names_differ(process: u32, a: u64, b: u64)
    requires
        spool_name_of(process, a) == spool_name_of(process, b),
    ensures
        a == b,
{
    lemma_hex_len(a as nat, 16);
    lemma_hex_len(b as nat, 16);
    let front = spool_prefix() + decimal(process as nat) + seq![0x2du8];
    assert(spool_name_of(process, a).skip(front.len() as int) =~= hex(a as nat, 16));
    assert(spool_name_of(process, b).skip(front.len() as int) =~= hex(b as nat, 16));
    law_hex_digits_are_distinct(a, b);
}

/// The capacity of a spool's path: directory, separator and name.
pub fn spool_path_capacity(directory_len: usize, name_len: usize) -> (r: Result<usize>)
    ensures
        r == (if directory_len + 1 + name_len > usize::MAX {
            Err::<usize, Error>(Error::InvalidArgument("spool path capacity overflows"))
        } else {
            Ok((directory_len + 1 + name_len) as usize)
        }),
{
    let total: u128 = directory_len as u128 + 1 + name_len as u128;
    if total > usize::MAX as u128 {
        Err(Error::InvalidArgument("spool path capacity overflows"))
    } else {
        Ok(total as usize)
    }
}

/// Length, cursor and reservation of a spool.
#[derive(Debug)]
pub struct SpoolAccount {
    len: u64,
    pos: u64,
    charge: CapacityCharge,
}

/// The length that a spool has to reach for a write.
pub open spec fn length_after(len: u64, position: u64, count: nat) -> nat {
    if position + count > len {
        position as nat + count
    } else {
        len as nat
    }
}

impl SpoolAccount {
    #[verifier::type_invariant]
    spec fn well_formed(self) -> bool {
        &&& self.charge.class == CapacityClass::Spool
        &&& self.charge.bytes >= self.len
    }

    pub closed spec fn length(&self) -> u64 {
        self.len
    }

    pub closed spec fn position(&self) -> u64 {
        self.pos
    }

    /// What is reserved, growth under way included.
    pub closed spec fn reserved(&self) -> u64 {
        self.charge.bytes
    }

    pub fn new() -> (account: SpoolAccount)
        ensures
            account.length() == 0,
            account.position() == 0,
            account.reserved() == 0,
    {
        SpoolAccount { len: 0, pos: 0, charge: CapacityCharge::new(CapacityClass::Spool) }
    }

    pub fn len(&self) -> (len: u64)
        ensures
            len == self.length(),
    {
        self.len
    }

    pub fn stream_position(&self) -> (position: u64)
        ensures
            position == self.position(),
    {
        self.pos
    }

    /// Reserves the growth of a write of `count` bytes at the cursor, before
    /// the backing store grows. Overwrites cost nothing.
    pub fn begin_write(&mut self, count: usize, resources: &mut WriterResources) -> (r: Result<()>)
        ensures
            final(self).length() == old(self).length(),
            final(self).position() == old(self).position(),
            if count == 0 {
                &&& r is Ok
                &&& final(self).reserved() == old(self).reserved()
                &&& final(resources)@ == old(resources)@
            } else if old(self).position() + count > u64::MAX {
                &&& r == Err::<(), Error>(Error::InvalidArgument("spool length overflows u64"))
                &&& final(self).reserved() == old(self).reserved()
                &&& final(resources)@ == old(resources)@
            } else {
                let target = length_after(old(self).length(), old(self).position(), count as nat);
                let growth = growth_to(old(self).reserved(), target as u64);
                if growth == 0 {
                    &&& r is Ok
                    &&& final(self).reserved() == old(self).reserved()
                    &&& final(resources)@ == old(resources)@
                } else {
                    match old(resources)@.capacity_refusal(CapacityClass::Spool, growth) {
                        Some(error) => {
                            &&& r == Err::<(), Error>(error)
                            &&& final(self).reserved() == old(self).reserved()
                            &&& final(resources)@ == old(resources)@
                        },
                        None => {
                            &&& r is Ok
                            &&& final(self).reserved() == target
                            &&& final(resources)@ == old(resources)@.after_growth(
                                CapacityClass::Spool,
                                growth,
                            )
                        },
                    }
                }
            },
    {
        proof {
            use_type_invariant(&*self);
        }
        if count == 0 {
            return Ok(());
        }
        let end: u64 = match self.pos.checked_add(count as u64) {
            Some(end) => end,
            None => {
                return Err(Error::InvalidArgument("spool length overflows u64"));
            },
        };
        let target: u64 = if end > self.len {
            end
        } else {
            self.len
        };
        let mut charge = CapacityCharge { class: self.charge.class, bytes: self.charge.bytes };
        let r = charge.grow_to(target, resources);
        let len: u64 = self.len;
        let pos: u64 = self.pos;
        *self = SpoolAccount { len, pos, charge };
        r
    }

    /// Takes note of what the backing store took of the write, nothing where it
    /// failed, and gives the rest of the reservation back.
    pub fn end_write(&mut self, written: usize, resources: &mut WriterResources)
        requires
            old(self).position() + written <= old(self).reserved() || written == 0,
        ensures
            final(self).position() == old(self).position() + written,
            final(self).length() == (if written == 0 {
                old(self).length() as nat
            } else {
                length_after(old(self).length(), old(self).position(), written as nat)
            }),
            final(self).reserved() == final(self).length(),
            final(resources)@ == old(resources)@.after_release(
                CapacityClass::Spool,
                (old(self).reserved() - final(self).length()) as u64,
            ),
    {
        proof {
            use_type_invariant(&*self);
        }
        let pos: u64 = if written == 0 {
            self.pos
        } else {
            self.pos + written as u64
        };
        let len: u64 = if written != 0 && pos > self.len {
            pos
        } else {
            self.len
        };
        let mut charge = CapacityCharge { class: self.charge.class, bytes: self.charge.bytes };
        charge.shrink_to(len, resources);
        *self = SpoolAccount { len, pos, charge };
    }

    /// Moves the cursor past what was read.
    pub fn note_read(&mut self, count: usize)
        ensures
            final(self).length() == old(self).length(),
            final(self).reserved() == old(self).reserved(),
            final(self).position() == (if old(self).position() + count > u64::MAX {
                u64::MAX as int
            } else {
                old(self).position() + count
            }),
    {
        proof {
            use_type_invariant(&*self);
        }
        self.pos = match self.pos.checked_add(count as u64) {
            Some(pos) => pos,
            None => u64::MAX,
        };
    }

    /// Moves the cursor.
    pub fn seek(&mut self, from: SeekFrom) -> (target: Option<u64>)
        ensures
            final(self).length() == old(self).length(),
            final(self).reserved() == old(self).reserved(),
            target == seek_target(from, old(self).length() as nat, old(self).position()),
            final(self).position() == (match target {
                Some(target) => target,
                None => old(self).position(),
            }),
    {
        proof {
            use_type_invariant(&*self);
        }
        match resolve_seek(from, self.len, self.pos) {
            Some(target) => {
                self.pos = target;
                Some(target)
            },
            None => None,
        }
    }

    /// Closes the account. Where the backing file could not be removed it may
    /// still occupy storage, so its reservation stays as a debt.
    pub fn close(self, removed: bool, resources: &mut WriterResources)
        ensures
            final(resources)@ == (if removed {
                old(resources)@.after_release(CapacityClass::Spool, self.reserved())
            } else {
                old(resources)@
            }),
    {
        proof {
            use_type_invariant(&self);
        }
        if removed {
            resources.release_capacity(self.charge.class, self.charge.bytes);
        }
    }
}

} // verus!
