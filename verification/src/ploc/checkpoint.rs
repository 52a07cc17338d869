//! Checkpoints: a value written so that a crash leaves either the old value
//! or the new one, never a mixture.
//!
//! A checkpoint keeps two slots, each a generation and a value. A write goes
//! to the slot with the older generation and is flushed; only then is that
//! slot's generation raised above the other's and flushed in turn. A read
//! takes the slot with the higher generation.

use vstd::prelude::*;

verus! {

/// One slot of a checkpoint as a value: what is visible and what is durable.
pub ghost struct SlotView {
    pub gen: u64,
    pub value: u64,
    pub durable_gen: u64,
    pub durable_value: u64,
}

/// A checkpoint as a value.
pub ghost struct CheckpointView {
    pub first: SlotView,
    pub second: SlotView,
}

impl SlotView {
    /// The slot after a crash.
    pub open spec fn crash(self) -> SlotView {
        SlotView { gen: self.durable_gen, value: self.durable_value, ..self }
    }

    /// A crash would leave the slot as it is.
    pub open spec fn is_persisted(self) -> bool {
        self.gen == self.durable_gen && self.value == self.durable_value
    }
}

impl CheckpointView {
    /// The checkpoint that holds nothing.
    pub open spec fn empty() -> CheckpointView {
        CheckpointView {
            first: SlotView { gen: 0, value: 0, durable_gen: 0, durable_value: 0 },
            second: SlotView { gen: 0, value: 0, durable_gen: 0, durable_value: 0 },
        }
    }

    /// The second slot is the one that the next write goes to.
    pub open spec fn second_is_stale(self) -> bool {
        self.second.gen <= self.first.gen
    }

    /// The value that was checkpointed last, if any was.
    pub open spec fn latest(self) -> Option<u64> {
        if self.first.gen == 0 && self.second.gen == 0 {
            None
        } else if self.second_is_stale() {
            Some(self.first.value)
        } else {
            Some(self.second.value)
        }
    }

    /// The higher of the two generations.
    pub open spec fn generation(self) -> u64 {
        if self.second_is_stale() {
            self.first.gen
        } else {
            self.second.gen
        }
    }

    /// The checkpoint after a crash.
    pub open spec fn crash(self) -> CheckpointView {
        CheckpointView { first: self.first.crash(), second: self.second.crash() }
    }

    /// A crash would leave the checkpoint as it is.
    pub open spec fn is_persisted(self) -> bool {
        self.first.is_persisted() && self.second.is_persisted()
    }

    /// The two slots never share a generation, but for the zero of a
    /// checkpoint that holds nothing.
    pub open spec fn wf(self) -> bool {
        self.first.gen == self.second.gen ==> self.first.gen == 0
    }

    /// The checkpoint after `value` has been written to the stale slot and
    /// flushed, the generations untouched.
    pub open spec fn write(self, value: u64) -> CheckpointView {
        if self.second_is_stale() {
            CheckpointView {
                second: SlotView { value, durable_value: value, ..self.second },
                ..self
            }
        } else {
            CheckpointView { first: SlotView { value, durable_value: value, ..self.first }, ..self }
        }
    }

    /// The checkpoint after the stale slot's generation has been raised
    /// above the other's and flushed.
    pub open spec fn commit(self) -> CheckpointView {
        let next = (self.generation() + 1) as u64;
        if self.second_is_stale() {
            CheckpointView {
                second: SlotView { gen: next, durable_gen: next, ..self.second },
                ..self
            }
        } else {
            CheckpointView { first: SlotView { gen: next, durable_gen: next, ..self.first }, ..self }
        }
    }
}

struct Slot {
    gen: u64,
    value: u64,
    durable_gen: u64,
    durable_value: u64,
}

impl View for Slot {
    type V = SlotView;

    closed spec fn view(&self) -> SlotView {
        SlotView {
            gen: self.gen,
            value: self.value,
            durable_gen: self.durable_gen,
            durable_value: self.durable_value,
        }
    }
}

/// A checkpoint of one word.
pub struct Checkpoint {
    first: Slot,
    second: Slot,
}

impl View for Checkpoint {
    type V = CheckpointView;

    closed spec fn view(&self) -> CheckpointView {
        CheckpointView { first: self.first@, second: self.second@ }
    }
}

impl Checkpoint {
    /// A checkpoint that holds nothing.
    pub fn new() -> (c: Checkpoint)
        ensures
            c@ == CheckpointView::empty(),
    {
        Checkpoint {
            first: Slot { gen: 0, value: 0, durable_gen: 0, durable_value: 0 },
            second: Slot { gen: 0, value: 0, durable_gen: 0, durable_value: 0 },
        }
    }

    /// The first half of a checkpoint: writes `value` to the stale slot and
    /// flushes it. What `peek` returns does not change yet.
    pub fn write(&mut self, value: u64)
        ensures
            final(self)@ == old(self)@.write(value),
    {
        if self.second.gen <= self.first.gen {
            self.second.value = value;
            self.second.durable_value = value;
        } else {
            self.first.value = value;
            self.first.durable_value = value;
        }
    }

    /// The second half of a checkpoint: raises the stale slot's generation
    /// above the other's and flushes it, so that `peek` returns what was
    /// written. A checkpoint whose generation cannot be raised stays as it
    /// is, and the answer is `false`.
    pub fn commit(&mut self) -> (done: bool)
        ensures
            done == (old(self)@.generation() < u64::MAX),
            final(self)@ == if done {
                old(self)@.commit()
            } else {
                old(self)@
            },
    {
        if self.second.gen <= self.first.gen {
            if self.first.gen == u64::MAX {
                return false;
            }
            self.second.gen = self.first.gen + 1;
            self.second.durable_gen = self.second.gen;
        } else {
            if self.second.gen == u64::MAX {
                return false;
            }
            self.first.gen = self.second.gen + 1;
            self.first.durable_gen = self.first.gen;
        }
        true
    }

    /// Checkpoints `value`: writes it, then commits it. The answer is
    /// `false`, and `peek` returns what it did before, when the generations
    /// are used up.
    pub fn checkpoint(&mut self, value: u64) -> (done: bool)
        ensures
            done == (old(self)@.generation() < u64::MAX),
            final(self)@ == if done {
                old(self)@.write(value).commit()
            } else {
                old(self)@.write(value)
            },
            done ==> final(self)@.latest() == Some(value),
            !done ==> final(self)@.latest() == old(self)@.latest(),
    {
        self.write(value);
        self.commit()
    }

    /// The value that was checkpointed last, if any was.
    pub fn peek(&self) -> (v: Option<u64>)
        ensures
            v == self@.latest(),
    {
        if self.first.gen == 0 && self.second.gen == 0 {
            None
        } else if self.second.gen <= self.first.gen {
            Some(self.first.value)
        } else {
            Some(self.second.value)
        }
    }

    /// What a crash does to the checkpoint: both slots hold again what was
    /// durable.
    pub fn crash(&mut self)
        ensures
            final(self)@ == old(self)@.crash(),
    {
        self.first.gen = self.first.durable_gen;
        self.first.value = self.first.durable_value;
        self.second.gen = self.second.durable_gen;
        self.second.value = self.second.durable_value;
    }

    /// Forgets what was checkpointed, durably.
    pub fn clear(&mut self)
        ensures
            final(self)@ == CheckpointView::empty(),
    {
        *self = Checkpoint::new();
    }
}

impl Default for Checkpoint {
    fn default() -> (c: Checkpoint)
        ensures
            c@ == CheckpointView::empty(),
    {
        Checkpoint::new()
    }
}

/// A checkpoint is atomic. Whatever is durable before it starts, a crash
/// after the write and before the commit leaves what was checkpointed
/// before, and a crash after the commit leaves the new value.
pub proof fn lemma_checkpoint_atomic(c: CheckpointView, value: u64)
    requires
        c.wf(),
        c.is_persisted(),
        c.generation() < u64::MAX,
    ensures
        c.write(value).latest() == c.latest(),
        c.write(value).crash().latest() == c.latest(),
        c.write(value).commit().latest() == Some(value),
        c.write(value).commit().crash().latest() == Some(value),
        c.write(value).commit().wf(),
        c.write(value).commit().is_persisted(),
{
}

} // verus!
