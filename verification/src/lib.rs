//! Building blocks for detectably recoverable objects on persistent memory:
//! tagged persistent pointers and a pool, epoch-based reclamation that also
//! defers cache-line flushes, and detectable single- and multi-word
//! compare-and-swap with a combining lock on top.
//!
//! Every piece of shared state is an explicit value that is handed to the
//! operation that works on it. A persistent word carries both the value that
//! loads observe and the value that a crash would leave behind, so each
//! contract can say what is visible and what is durable.

pub mod ds;
pub mod pepoch;
pub mod ploc;
pub mod pmem;

use vstd::prelude::*;

verus! {

/// A record that an operation keeps in persistent memory so that it can be
/// re-executed after a crash. A memento serves one operation at a time, and
/// is cleared before it serves the next.
pub trait Memento {
    /// The memento has seen no operation.
    spec fn is_clear(&self) -> bool;

    /// Forgets the operation that the memento has seen, durably.
    fn clear(&mut self)
        ensures
            final(self).is_clear(),
    ;
}

impl Memento for crate::ploc::checkpoint::Checkpoint {
    open spec fn is_clear(&self) -> bool {
        self@ == crate::ploc::checkpoint::CheckpointView::empty()
    }

    fn clear(&mut self) {
        crate::ploc::checkpoint::Checkpoint::clear(self)
    }
}

impl Memento for crate::ploc::detectable_cas::Cas {
    open spec fn is_clear(&self) -> bool {
        self@ == crate::ploc::checkpoint::CheckpointView::empty()
    }

    fn clear(&mut self) {
        crate::ploc::detectable_cas::Cas::clear(self)
    }
}

impl Memento for crate::ds::comb::CombMemento {
    open spec fn is_clear(&self) -> bool {
        crate::ds::comb::Combinable::activate(self) is None && crate::ds::comb::Combinable::retval(
            self,
        ) == 0
    }

    fn clear(&mut self) {
        crate::ds::comb::CombMemento::clear(self)
    }
}

impl Memento for u64 {
    open spec fn is_clear(&self) -> bool {
        *self == 0
    }

    fn clear(&mut self) {
        *self = 0;
    }
}

impl Memento for bool {
    open spec fn is_clear(&self) -> bool {
        !*self
    }

    fn clear(&mut self) {
        *self = false;
    }
}

/// A persistent object that has a value to start from.
pub trait PDefault: Sized {
    /// The value that `pdefault` gives.
    spec fn spec_pdefault() -> Self;

    /// The value that an object of this type starts from, made on behalf of
    /// the thread of `handle`.
    fn pdefault(handle: &crate::ploc::handle::Handle) -> (r: Self)
        ensures
            r == Self::spec_pdefault(),
    ;
}

impl PDefault for u64 {
    open spec fn spec_pdefault() -> u64 {
        0
    }

    fn pdefault(handle: &crate::ploc::handle::Handle) -> (r: u64) {
        0
    }
}

} // verus!
