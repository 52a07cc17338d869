//! The execution context of one thread.

use vstd::prelude::*;
use crate::pepoch::internal::Guard;

verus! {

/// The largest number of threads. Thread ids run from 1 to this number.
pub const MAX_THREADS: usize = 64;

/// What a thread carries through an operation: its id, the guard that keeps
/// it pinned, and whether it is re-executing after a crash.
pub struct Handle {
    tid: usize,
    guard: Guard,
    rec: bool,
}

/// A handle as a value.
pub ghost struct HandleView {
    pub tid: usize,
    pub slot: Option<usize>,
    pub rec: bool,
}

impl View for Handle {
    type V = HandleView;

    closed spec fn view(&self) -> HandleView {
        HandleView { tid: self.tid, slot: self.guard.slot(), rec: self.rec }
    }
}

impl Handle {
    /// The handle's thread id is one that a thread can have.
    pub open spec fn wf(&self) -> bool {
        1 <= self@.tid <= MAX_THREADS
    }

    /// The handle of thread `tid` under `guard`. `rec` says that the thread
    /// re-executes the operation it was in when it crashed. There is no
    /// handle for a thread id outside 1 to `MAX_THREADS`.
    pub fn new(tid: usize, guard: Guard, rec: bool) -> (h: Option<Handle>)
        ensures
            match h {
                Some(h) => 1 <= tid <= MAX_THREADS && h@ == (HandleView {
                    tid,
                    slot: guard.slot(),
                    rec,
                }) && h.wf(),
                None => !(1 <= tid <= MAX_THREADS),
            },
    {
        if 1 <= tid && tid <= MAX_THREADS {
            Some(Handle { tid, guard, rec })
        } else {
            None
        }
    }

    /// The thread id.
    pub fn tid(&self) -> (t: usize)
        ensures
            t == self@.tid,
    {
        self.tid
    }

    /// The guard that keeps the thread pinned.
    pub closed spec fn spec_guard(&self) -> Guard {
        self.guard
    }

    /// The guard that keeps the thread pinned.
    pub fn guard(&self) -> (g: &Guard)
        ensures
            *g == self.spec_guard(),
            g.slot() == self@.slot,
    {
        &self.guard
    }

    /// Whether the thread is re-executing after a crash.
    pub fn rec(&self) -> (r: bool)
        ensures
            r == self@.rec,
    {
        self.rec
    }

    /// Sets whether the thread is re-executing after a crash. An operation
    /// clears the flag once it has found out how far it had come.
    pub fn set_rec(&mut self, rec: bool)
        ensures
            final(self)@ == (HandleView { rec, ..old(self)@ }),
            final(self).spec_guard() == old(self).spec_guard(),
    {
        self.rec = rec;
    }

    /// Gives up the handle for its guard.
    pub fn into_guard(self) -> (g: Guard)
        ensures
            g.slot() == self@.slot,
    {
        self.guard
    }
}

} // verus!
