//! Progress of a member that is walked several times.
//!
//! A filter search walks a member many times over. Positions are scaled down
//! to the member's share of that total: many passes, one member's worth of
//! progress.

use vstd::prelude::*;

verus! {

/// What the encoder reports.
#[derive(Debug, Clone, Copy, PartialEq, Eq, Structural)]
pub enum EncodeProgress {
    PassStarted,
    /// The position within the pass.
    Advanced(u64),
}

/// What comes of one turn of an encoder, numbered from zero: it reports how far it
/// has come, and goes on in its next turn if there is one; or it is done.
#[derive(Debug, Clone, Copy)]
pub enum Turn<T> {
    Report(EncodeProgress),
    Done(T),
}

impl EncodeProgress {
    /// Where the pass stands.
    pub open spec fn position(self) -> u64 {
        match self {
            EncodeProgress::PassStarted => 0,
            EncodeProgress::Advanced(position) => position,
        }
    }
}

/// Walked bytes as a share of the member.
pub open spec fn share_of(bytes: nat, input_size: u64, walk: u64) -> nat
    recommends
        walk > 0,
{
    bytes * input_size as nat / walk as nat
}

proof fn lemma_share_grows(few: nat, many: nat, input_size: u64, walk: u64)
    requires
        few <= many,
        walk > 0,
    ensures
        share_of(few, input_size, walk) <= share_of(many, input_size, walk),
        many <= walk ==> share_of(many, input_size, walk) <= input_size,
{
    let size = input_size as int;
    let total = walk as int;
    assert(few * size <= many * size) by (nonlinear_arith)
        requires
            few <= many,
            size >= 0,
    ;
    vstd::arithmetic::div_mod::lemma_div_is_ordered(few * size, many * size, total);
    if many <= walk {
        assert(many * size <= total * size) by (nonlinear_arith)
            requires
                many <= total,
                size >= 0,
        ;
        vstd::arithmetic::div_mod::lemma_div_is_ordered(many * size, total * size, total);
        vstd::arithmetic::div_mod::lemma_div_multiples_vanish(size, total);
    }
}

/// Scales the positions of one member's passes.
#[derive(Debug)]
pub struct MemberShare {
    input_size: u64,
    walk: u64,
    reported: u64,
    charged: u64,
}

impl MemberShare {
    #[verifier::type_invariant]
    spec fn well_formed(self) -> bool {
        &&& self.walk > 0
        &&& self.charged <= self.walk
    }

    /// How much of the walk has been charged.
    pub closed spec fn walked(&self) -> u64 {
        self.charged
    }

    /// The last position reported within the pass.
    pub closed spec fn position(&self) -> u64 {
        self.reported
    }

    pub closed spec fn input_size(&self) -> u64 {
        self.input_size
    }

    pub closed spec fn walk(&self) -> u64 {
        self.walk
    }

    pub fn walk_bytes(&self) -> (walk: u64)
        ensures
            walk == self.walk(),
            self.walked() <= walk,
    {
        proof {
            use_type_invariant(self);
        }
        self.walk
    }

    /// How much of the walk has been charged.
    pub fn walked_bytes(&self) -> (walked: u64)
        ensures
            walked == self.walked(),
            walked <= self.walk(),
    {
        proof {
            use_type_invariant(self);
        }
        self.charged
    }

    /// The last position reported within the pass.
    pub fn last_position(&self) -> (position: u64)
        ensures
            position == self.position(),
    {
        self.reported
    }

    /// How much of the walk has been charged after a report.
    pub open spec fn walked_after(&self, event: EncodeProgress) -> int {
        match event {
            EncodeProgress::PassStarted => self.walked() as int,
            EncodeProgress::Advanced(position) => {
                let step = if position > self.position() {
                    position - self.position()
                } else {
                    0
                };
                if self.walked() + step < self.walk() {
                    self.walked() + step
                } else {
                    self.walk() as int
                }
            },
        }
    }

    /// The share reported so far.
    pub open spec fn total(&self) -> nat {
        share_of(self.walked() as nat, self.input_size(), self.walk())
    }

    /// `walk_bytes` is how many bytes all passes walk; the member itself at
    /// least.
    pub fn new(input_size: u64, walk_bytes: u64) -> (share: MemberShare)
        ensures
            share.walked() == 0,
            share.position() == 0,
            share.input_size() == input_size,
            share.walk() == (if walk_bytes >= input_size && walk_bytes > 0 {
                walk_bytes
            } else if input_size > 0 {
                input_size
            } else {
                1
            }),
            share.total() == 0,
    {
        let walk: u64 = if walk_bytes >= input_size && walk_bytes > 0 {
            walk_bytes
        } else if input_size > 0 {
            input_size
        } else {
            1
        };
        proof {
            vstd::arithmetic::div_mod::lemma_div_of0(walk as int);
            assert(0 * input_size as int == 0);
        }
        MemberShare { input_size, walk, reported: 0, charged: 0 }
    }

    /// Takes in a report, and returns by how much the member has advanced. What
    /// is returned adds up to the share walked, and never exceeds the member.
    pub fn report(&mut self, event: EncodeProgress) -> (advanced: u64)
        ensures
            final(self).input_size() == old(self).input_size(),
            final(self).walk() == old(self).walk(),
            final(self).total() == old(self).total() + advanced,
            final(self).total() <= old(self).input_size(),
            final(self).walked() == old(self).walked_after(event),
            final(self).position() == event.position(),
    {
        proof {
            use_type_invariant(&*self);
            lemma_share_grows(0, self.charged as nat, self.input_size, self.walk);
        }
        let position: u64 = match event {
            EncodeProgress::PassStarted => {
                self.reported = 0;
                return 0;
            },
            EncodeProgress::Advanced(position) => position,
        };
        let step: u64 = if position > self.reported {
            position - self.reported
        } else {
            0
        };
        let room: u64 = self.walk - self.charged;
        let target: u64 = if step < room {
            self.charged + step
        } else {
            self.walk
        };
        proof {
            lemma_share_grows(self.charged as nat, target as nat, self.input_size, self.walk);
        }
        let now: u64 = self.share(target);
        let before: u64 = self.share(self.charged);
        self.reported = position;
        self.charged = target;
        now - before
    }

    fn share(&self, bytes: u64) -> (share: u64)
        requires
            bytes <= self.walk(),
        ensures
            share == share_of(bytes as nat, self.input_size(), self.walk()),
    {
        proof {
            use_type_invariant(self);
            lemma_share_grows(0, bytes as nat, self.input_size, self.walk);
            assert(bytes as int * self.input_size as int <= u64::MAX * u64::MAX)
                by (nonlinear_arith)
                requires
                    0 <= bytes as int <= u64::MAX,
                    0 <= self.input_size as int <= u64::MAX,
            ;
        }
        (bytes as u128 * self.input_size as u128 / self.walk as u128) as u64
    }
}

/// What is told of a member never falls back, starts with nothing, and comes to
/// the whole member when everything is walked, however many passes that takes.
pub proof fn law_shares_grow_to_the_member(few: nat, many: nat, input_size: u64, walk: u64)
    requires
        few <= many <= walk,
        walk > 0,
    ensures
        share_of(few, input_size, walk) <= share_of(many, input_size, walk) <= input_size,
        share_of(0, input_size, walk) == 0,
        share_of(walk as nat, input_size, walk) == input_size,
{
    lemma_share_grows(few, many, input_size, walk);
    assert(0 * input_size as int == 0);
    vstd::arithmetic::div_mod::lemma_div_of0(walk as int);
    vstd::arithmetic::div_mod::lemma_div_multiples_vanish(input_size as int, walk as int);
}

} // verus!
