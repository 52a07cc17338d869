//! The epoch counter.
//!
//! An epoch is one word: a counter of 62 bits above two flags. The lowest
//! bit says that the participant that published the epoch is pinned, the
//! next that an advance is under way.

use vstd::prelude::*;

verus! {

/// The number of values that the counter of an epoch can take: 2^62.
pub const EPOCH_MODULUS: u64 = 0x4000_0000_0000_0000;

/// An epoch: a counter modulo 2^62 with the two flags.
#[derive(Clone, Copy, Debug, PartialEq, Eq, Structural)]
pub struct Epoch {
    /// Four times the counter, plus two if an advance is under way, plus
    /// one if the publisher is pinned.
    pub data: u64,
}

/// How far `a` is ahead of `b`, counting modulo 2^62.
pub open spec fn ahead(a: nat, b: nat) -> nat {
    ((a + EPOCH_MODULUS - b) % (EPOCH_MODULUS as int)) as nat
}

impl Epoch {
    /// The counter.
    pub open spec fn counter(self) -> nat {
        (self.data / 4) as nat
    }

    /// The flag that says a participant is pinned in this epoch.
    pub open spec fn pinned_flag(self) -> bool {
        self.data % 2 == 1
    }

    /// The flag that says an advance is under way.
    pub open spec fn advancing_flag(self) -> bool {
        (self.data / 2) % 2 == 1
    }

    /// This epoch with the pinned flag set.
    pub open spec fn spec_pinned(self) -> Epoch {
        if self.data % 2 == 1 {
            self
        } else {
            Epoch { data: (self.data + 1) as u64 }
        }
    }

    /// The epoch that follows this one.
    pub open spec fn spec_successor(self) -> Epoch {
        if self.data / 4 == EPOCH_MODULUS - 1 {
            Epoch { data: self.data % 4 }
        } else {
            Epoch { data: (self.data + 4) as u64 }
        }
    }

    /// The epoch that everything starts in.
    pub open spec fn spec_starting() -> Epoch {
        Epoch { data: 0 }
    }

    /// The epoch that everything starts in: counter zero, no flag.
    pub fn starting() -> (e: Epoch)
        ensures
            e == Epoch::spec_starting(),
            e.counter() == 0,
            !e.pinned_flag(),
            !e.advancing_flag(),
    {
        Epoch { data: 0 }
    }

    /// How far this epoch is ahead of `rhs`, counting modulo 2^62. The flags
    /// play no part.
    pub fn wrapping_sub(self, rhs: Epoch) -> (d: u64)
        ensures
            d == ahead(self.counter(), rhs.counter()),
            d < EPOCH_MODULUS,
    {
        let a: u64 = self.data / 4;
        let b: u64 = rhs.data / 4;
        if a >= b {
            a - b
        } else {
            EPOCH_MODULUS - b + a
        }
    }

    /// Whether the pinned flag is set.
    pub fn is_pinned(self) -> (b: bool)
        ensures
            b == self.pinned_flag(),
    {
        self.data % 2 == 1
    }

    /// The same epoch with the pinned flag set.
    pub fn pinned(self) -> (e: Epoch)
        ensures
            e == self.spec_pinned(),
            e.counter() == self.counter(),
            e.pinned_flag(),
            e.advancing_flag() == self.advancing_flag(),
    {
        if self.data % 2 == 1 {
            self
        } else {
            Epoch { data: self.data + 1 }
        }
    }

    /// The same epoch with the pinned flag clear.
    pub fn unpinned(self) -> (e: Epoch)
        ensures
            e.counter() == self.counter(),
            !e.pinned_flag(),
            e.advancing_flag() == self.advancing_flag(),
    {
        if self.data % 2 == 1 {
            Epoch { data: self.data - 1 }
        } else {
            self
        }
    }

    /// Whether the advancing flag is set.
    pub fn is_advancing(self) -> (b: bool)
        ensures
            b == self.advancing_flag(),
    {
        (self.data / 2) % 2 == 1
    }

    /// The same epoch with the advancing flag set to `on`.
    pub fn with_advancing(self, on: bool) -> (e: Epoch)
        ensures
            e.counter() == self.counter(),
            e.pinned_flag() == self.pinned_flag(),
            e.advancing_flag() == on,
    {
        let set = (self.data / 2) % 2 == 1;
        if set && !on {
            Epoch { data: self.data - 2 }
        } else if !set && on {
            Epoch { data: self.data + 2 }
        } else {
            self
        }
    }

    /// The epoch that follows this one: the counter goes up by one modulo
    /// 2^62 and the flags stay.
    pub fn successor(self) -> (e: Epoch)
        ensures
            e == self.spec_successor(),
            e.counter() == (self.counter() + 1) % (EPOCH_MODULUS as nat),
            e.pinned_flag() == self.pinned_flag(),
            e.advancing_flag() == self.advancing_flag(),
            ahead(e.counter(), self.counter()) == 1,
    {
        if self.data / 4 == EPOCH_MODULUS - 1 {
            Epoch { data: self.data % 4 }
        } else {
            Epoch { data: self.data + 4 }
        }
    }
}

impl Default for Epoch {
    fn default() -> (e: Epoch)
        ensures
            e.counter() == 0,
            !e.pinned_flag(),
            !e.advancing_flag(),
    {
        Epoch::starting()
    }
}

/// If the global epoch is two or more ahead of the epoch that a bag was
/// sealed in, and a participant is pinned at most one epoch behind the global
/// one, then the participant was pinned after the bag was sealed: its epoch is
/// at least one ahead of the bag's.
pub proof fn lemma_pinned_after_sealed(global: nat, pinned: nat, sealed: nat)
    requires
        global < EPOCH_MODULUS,
        pinned < EPOCH_MODULUS,
        sealed < EPOCH_MODULUS,
        ahead(global, sealed) >= 2,
        ahead(global, pinned) <= 1,
    ensures
        ahead(pinned, sealed) >= 1,
        pinned != sealed,
{
}

/// An object that is retired while a participant is pinned in epoch `pinned`
/// lies in a bag that is sealed in that epoch or the next. Its destructor is
/// not due before the bag has expired, that is, as long as the counter has not
/// gone round once in between, not before the global epoch is two or more
/// ahead of `pinned`.
pub proof fn lemma_retired_waits_two_epochs(global: nat, sealed: nat, pinned: nat)
    requires
        global < EPOCH_MODULUS,
        sealed < EPOCH_MODULUS,
        pinned < EPOCH_MODULUS,
        ahead(sealed, pinned) <= 1,
        ahead(global, sealed) >= 2,
        ahead(global, sealed) + ahead(sealed, pinned) < EPOCH_MODULUS,
    ensures
        ahead(global, pinned) >= 2,
{
}

} // verus!
