//! The registry of participants and the queue of sealed bags.
//!
//! A participant retires objects into its bag and defers flushes into its
//! persist set. Bags are sealed with the global epoch and queued; a sealed bag
//! is reclaimed once the global epoch is two ahead of its seal. What the
//! registry decides to run, destructors and flushes, it puts into two
//! outboxes, from which the caller takes and performs them.

use vstd::prelude::*;
use vstd::multiset::Multiset;
use crate::pepoch::deferred::dedup;
use crate::pepoch::deferred::dedup_by_key;
use crate::pepoch::deferred::Deferred;
use crate::pepoch::epoch::ahead;
use crate::pepoch::epoch::Epoch;
use crate::pepoch::epoch::lemma_pinned_after_sealed;

verus! {

/// The number of records that a bag holds at most.
pub const MAX_OBJECTS: usize = 40;

/// The number of sealed bags that one round of collection reclaims at most.
pub const COLLECT_STEPS: usize = 8;

/// The number of pinnings between two rounds of collection.
pub const PINNINGS_BETWEEN_COLLECT: usize = 128;

/// The function that gives an object back to its pool.
pub const DESTROY_FUNC: usize = 1;

/// A witness that a participant is pinned. While it is held, no object that
/// the participant could have seen is reclaimed.
///
/// A guard names the participant by its slot in the registry. The guard from
/// `unprotected` names none: it is for data that no other thread can reach.
pub struct Guard {
    local: Option<usize>,
}

impl Guard {
    /// The slot of the participant that this guard keeps pinned, if any.
    pub closed spec fn slot(&self) -> Option<usize> {
        self.local
    }

    /// The slot of the participant that this guard keeps pinned, if any.
    pub fn local(&self) -> (s: Option<usize>)
        ensures
            s == self.slot(),
    {
        self.local
    }
}

/// A guard that pins nobody.
pub fn unprotected() -> (g: Guard)
    ensures
        g.slot() is None,
{
    Guard { local: None }
}

/// A bag of deferred records, at most `MAX_OBJECTS` of them, oldest first.
pub struct Bag {
    deferreds: Vec<Deferred>,
}

impl View for Bag {
    type V = Seq<Deferred>;

    closed spec fn view(&self) -> Seq<Deferred> {
        self.deferreds@
    }
}

impl Bag {
    /// The bag holds no more than it may.
    pub open spec fn wf(&self) -> bool {
        self@.len() <= MAX_OBJECTS
    }

    /// A new, empty bag.
    pub fn new() -> (b: Bag)
        ensures
            b@ == Seq::<Deferred>::empty(),
            b.wf(),
    {
        Bag { deferreds: Vec::new() }
    }

    /// Whether the bag is empty.
    pub fn is_empty(&self) -> (b: bool)
        ensures
            b == (self@.len() == 0),
    {
        self.deferreds.len() == 0
    }

    /// Puts `deferred` into the bag. A full bag stays as it is and hands the
    /// record back.
    pub fn try_push(&mut self, deferred: Deferred) -> (r: Result<(), Deferred>)
        requires
            old(self).wf(),
        ensures
            final(self).wf(),
            match r {
                Ok(_) => old(self)@.len() < MAX_OBJECTS && final(self)@ == old(self)@.push(deferred),
                Err(d) => old(self)@.len() == MAX_OBJECTS && d == deferred && final(self)@ == old(self)@,
            },
    {
        if self.deferreds.len() < MAX_OBJECTS {
            self.deferreds.push(deferred);
            Ok(())
        } else {
            Err(deferred)
        }
    }

    /// Seals the bag with `epoch`.
    pub fn seal(self, epoch: Epoch) -> (s: SealedBag)
        ensures
            s@ == (SealedView { epoch, bag: self@ }),
    {
        SealedBag { epoch, bag: self }
    }

    /// Gives up the bag for its records, oldest first: the work that is due
    /// when a bag is destroyed.
    pub fn into_deferreds(self) -> (v: Vec<Deferred>)
        ensures
            v@ == self@,
    {
        self.deferreds
    }
}

impl Default for Bag {
    fn default() -> (b: Bag)
        ensures
            b@ == Seq::<Deferred>::empty(),
    {
        Bag::new()
    }
}

/// A sealed bag as a value: its records and the epoch it was sealed in.
pub ghost struct SealedView {
    pub epoch: Epoch,
    pub bag: Seq<Deferred>,
}

/// A bag together with the global epoch at the time it was queued.
pub struct SealedBag {
    epoch: Epoch,
    bag: Bag,
}

impl View for SealedBag {
    type V = SealedView;

    closed spec fn view(&self) -> SealedView {
        SealedView { epoch: self.epoch, bag: self.bag@ }
    }
}

/// Whether a bag sealed in `sealed` may be reclaimed when the global epoch is
/// `global`: the global epoch is two or more ahead.
pub open spec fn expired(sealed: Epoch, global: Epoch) -> bool {
    ahead(global.counter(), sealed.counter()) >= 2
}

impl SealedBag {
    /// Whether the bag may be reclaimed when the global epoch is
    /// `global_epoch`.
    pub fn is_expired(&self, global_epoch: Epoch) -> (b: bool)
        ensures
            b == expired(self@.epoch, global_epoch),
    {
        global_epoch.wrapping_sub(self.epoch) >= 2
    }

    /// The epoch that the bag was sealed in.
    pub fn epoch(&self) -> (e: Epoch)
        ensures
            e == self@.epoch,
    {
        self.epoch
    }

    /// Gives up the sealed bag for its records, oldest first.
    pub fn into_deferreds(self) -> (v: Vec<Deferred>)
        ensures
            v@ == self@.bag,
    {
        self.bag.into_deferreds()
    }
}

/// A participant as a value.
pub ghost struct LocalView {
    /// The thread that owns the participant, if any.
    pub tid: Option<usize>,
    /// The epoch that the participant has published.
    pub epoch: Epoch,
    /// The participant has left the registry.
    pub deleted: bool,
    /// The records retired and not yet sealed, oldest first.
    pub bag: Seq<Deferred>,
    /// The number of guards that keep the participant pinned.
    pub guard_count: nat,
    /// The number of handles to the participant.
    pub handle_count: nat,
    /// The number of pinnings so far, modulo the machine word.
    pub pin_count: nat,
    /// The regions to flush at the next unpin, ordered by where they start.
    pub persists: Seq<(u64, u64)>,
    /// The participant is in the middle of a repin.
    pub is_repinning: bool,
}

/// A participant in reclamation.
pub struct Local {
    tid: Option<usize>,
    epoch: Epoch,
    deleted: bool,
    bag: Vec<Deferred>,
    guard_count: usize,
    handle_count: usize,
    pin_count: usize,
    persists: Vec<(u64, u64)>,
    is_repinning: bool,
}

impl View for Local {
    type V = LocalView;

    closed spec fn view(&self) -> LocalView {
        LocalView {
            tid: self.tid,
            epoch: self.epoch,
            deleted: self.deleted,
            bag: self.bag@,
            guard_count: self.guard_count as nat,
            handle_count: self.handle_count as nat,
            pin_count: self.pin_count as nat,
            persists: self.persists@,
            is_repinning: self.is_repinning,
        }
    }
}

/// The regions of `s` start at strictly increasing places.
pub open spec fn sorted_by_ptr(s: Seq<(u64, u64)>) -> bool {
    forall|i: int, j: int| 0 <= i < j < s.len() ==> (#[trigger] s[i]).0 < (#[trigger] s[j]).0
}

/// Whether a region of `s` starts at `ptr`.
pub open spec fn has_ptr(s: Seq<(u64, u64)>, ptr: u64) -> bool {
    exists|i: int| 0 <= i < s.len() && (#[trigger] s[i]).0 == ptr
}

/// The number of regions of `s` that start below `ptr`.
pub open spec fn rank(s: Seq<(u64, u64)>, ptr: u64) -> int
    decreases s.len(),
{
    if s.len() == 0 {
        0
    } else {
        rank(s.drop_last(), ptr) + if s.last().0 < ptr {
            1int
        } else {
            0int
        }
    }
}

/// The persist set `s` after a request to flush `len` bytes at `ptr`: a
/// region that starts at `ptr` is in the set once, whatever was asked first.
pub open spec fn with_persist(s: Seq<(u64, u64)>, ptr: u64, len: u64) -> Seq<(u64, u64)> {
    if has_ptr(s, ptr) {
        s
    } else {
        s.insert(rank(s, ptr), (ptr, len))
    }
}

/// The `j`-th run of at most `MAX_OBJECTS` records of `s`.
pub open spec fn chunk(s: Seq<Deferred>, j: int) -> Seq<Deferred> {
    s.subrange(
        MAX_OBJECTS * j,
        if MAX_OBJECTS * (j + 1) <= s.len() {
            MAX_OBJECTS * (j + 1)
        } else {
            s.len() as int
        },
    )
}

/// The number of bags that `len` records fill.
pub open spec fn nr_chunks(len: nat) -> nat {
    ((len + MAX_OBJECTS - 1) / (MAX_OBJECTS as int)) as nat
}

/// The records that leave a participant's bag when it is emptied, in the
/// order in which they leave: without duplicates of a key, newest first.
pub open spec fn drained(bag: Seq<Deferred>) -> Seq<Deferred> {
    dedup(bag).reverse()
}

/// The registry as a value.
pub ghost struct GlobalView {
    /// The participants, by slot.
    pub locals: Seq<LocalView>,
    /// The sealed bags that wait to be reclaimed, oldest first.
    pub queue: Seq<SealedView>,
    /// The global epoch.
    pub epoch: Epoch,
    /// The destructors that are due, oldest first.
    pub reclaimed: Seq<Deferred>,
    /// The flushes that are due, oldest first.
    pub flushes: Seq<(u64, u64)>,
}

impl GlobalView {
    /// The registry is consistent: every participant is, a pinned
    /// participant is at most one epoch behind the global epoch, and no
    /// queued bag holds more than a bag may.
    pub open spec fn wf(self) -> bool {
        &&& forall|i: int| 0 <= i < self.locals.len() ==> (#[trigger] self.locals[i]).wf()
        &&& forall|i: int|
            0 <= i < self.locals.len() && (#[trigger] self.locals[i]).guard_count > 0 ==> ahead(
                self.epoch.counter(),
                self.locals[i].epoch.counter(),
            ) <= 1
        &&& forall|j: int|
            0 <= j < self.queue.len() ==> (#[trigger] self.queue[j]).bag.len() <= MAX_OBJECTS
        &&& !self.epoch.pinned_flag()
        &&& !self.epoch.advancing_flag()
    }

    /// `slot` names a participant that has not left.
    pub open spec fn member(self, slot: int) -> bool {
        0 <= slot < self.locals.len() && !self.locals[slot].deleted
    }

    /// The registry with participant `slot` replaced by `l`.
    pub open spec fn with_local(self, slot: int, l: LocalView) -> GlobalView {
        GlobalView { locals: self.locals.update(slot, l), ..self }
    }

    /// The registry with one more participant, owned by `tid`.
    pub open spec fn register(self, tid: Option<usize>) -> GlobalView {
        GlobalView { locals: self.locals.push(LocalView::fresh(tid)), ..self }
    }

    /// Participant `i` keeps the global epoch from advancing: it is pinned
    /// in another epoch than the global one.
    pub open spec fn blocks(self, i: int) -> bool {
        self.locals[i].epoch.pinned_flag() && self.locals[i].epoch.counter()
            != self.epoch.counter()
    }

    /// No participant keeps the global epoch from advancing.
    pub open spec fn can_advance(self) -> bool {
        forall|i: int| 0 <= i < self.locals.len() ==> !#[trigger] self.blocks(i)
    }

    /// The registry after an attempt to advance the global epoch.
    pub open spec fn try_advance(self) -> GlobalView {
        if self.can_advance() {
            GlobalView { epoch: self.epoch.spec_successor(), ..self }
        } else {
            self
        }
    }

    /// The registry after at most `steps` bags have been taken off the head
    /// of the queue, each one expired, and their records made due.
    pub open spec fn collect_steps(self, steps: nat) -> GlobalView
        decreases steps,
    {
        if steps == 0 || self.queue.len() == 0 || !expired(self.queue[0].epoch, self.epoch) {
            self
        } else {
            (GlobalView {
                queue: self.queue.drop_first(),
                reclaimed: self.reclaimed + self.queue[0].bag,
                ..self
            }).collect_steps((steps - 1) as nat)
        }
    }

    /// The registry after a round of collection: an attempt to advance, then
    /// at most `COLLECT_STEPS` expired bags reclaimed.
    pub open spec fn collect(self) -> GlobalView {
        self.try_advance().collect_steps(COLLECT_STEPS as nat)
    }

    /// The registry with `bag` sealed in the global epoch and queued.
    pub open spec fn push_bag(self, bag: Seq<Deferred>) -> GlobalView {
        GlobalView { queue: self.queue.push(SealedView { epoch: self.epoch, bag }), ..self }
    }

    /// The registry after participant `slot` has emptied its bag into the
    /// queue: the records without duplicates, newest first, cut into bags
    /// that are sealed in the global epoch and queued, the last bag first.
    pub open spec fn flush_bags(self, slot: int) -> GlobalView {
        let s = drained(self.locals[slot].bag);
        let n = nr_chunks(s.len());
        GlobalView {
            locals: self.locals.update(
                slot,
                LocalView { bag: Seq::empty(), ..self.locals[slot] },
            ),
            queue: self.queue + Seq::new(
                n,
                |i: int| SealedView { epoch: self.epoch, bag: chunk(s, n - 1 - i) },
            ),
            ..self
        }
    }

    /// The registry after participant `slot` has flushed: its bag emptied
    /// into the queue, then a round of collection.
    pub open spec fn flush(self, slot: int) -> GlobalView {
        self.flush_bags(slot).collect()
    }

    /// The registry after participant `slot` has been pinned once more. The
    /// first guard publishes the global epoch as pinned and counts a pinning;
    /// every `PINNINGS_BETWEEN_COLLECT`-th pinning starts a round of
    /// collection.
    pub open spec fn pin(self, slot: int) -> GlobalView {
        let l = self.locals[slot];
        if l.guard_count == 0 {
            let pinned = self.with_local(
                slot,
                LocalView {
                    guard_count: 1,
                    epoch: self.epoch.spec_pinned(),
                    pin_count: if l.pin_count == usize::MAX {
                        0
                    } else {
                        l.pin_count + 1
                    },
                    ..l
                },
            );
            if l.pin_count % (PINNINGS_BETWEEN_COLLECT as nat) == 0 {
                pinned.collect()
            } else {
                pinned
            }
        } else {
            self.with_local(slot, LocalView { guard_count: l.guard_count + 1, ..l })
        }
    }

    /// The registry after participant `slot` has given up one guard, short
    /// of leaving the registry. With the last guard a bag that has reached
    /// `MAX_OBJECTS` records is emptied into the queue, every region of the
    /// persist set becomes a flush that is due and the set is cleared, and
    /// the participant publishes that it is unpinned.
    pub open spec fn unpin_core(self, slot: int) -> GlobalView {
        let l = self.locals[slot];
        if l.guard_count == 1 {
            let g = if l.bag.len() >= MAX_OBJECTS {
                self.flush_bags(slot)
            } else {
                self
            };
            GlobalView {
                locals: g.locals.update(
                    slot,
                    LocalView {
                        guard_count: 0,
                        persists: Seq::empty(),
                        epoch: Epoch::spec_starting(),
                        ..g.locals[slot]
                    },
                ),
                flushes: g.flushes + l.persists,
                ..g
            }
        } else {
            self.with_local(slot, LocalView { guard_count: (l.guard_count - 1) as nat, ..l })
        }
    }

    /// The registry after participant `slot` has made its deferred flushes
    /// due ahead of its unpin: every region of the persist set becomes a flush
    /// that is due, and the set is cleared.
    pub open spec fn persist_now(self, slot: int) -> GlobalView {
        GlobalView {
            locals: self.locals.update(
                slot,
                LocalView { persists: Seq::empty(), ..self.locals[slot] },
            ),
            flushes: self.flushes + self.locals[slot].persists,
            ..self
        }
    }

    /// The registry after participant `slot`, without guard or handle, has
    /// left: it is pinned once to empty its bag into the queue, unpinned
    /// again, and marked as deleted.
    pub open spec fn finalize(self, slot: int) -> GlobalView {
        let held = self.with_local(slot, LocalView { handle_count: 1, ..self.locals[slot] });
        let done = held.pin(slot).flush_bags(slot).unpin_core(slot);
        done.with_local(slot, LocalView { handle_count: 0, deleted: true, ..done.locals[slot] })
    }

    /// The registry after participant `slot` has given up one guard. A
    /// participant that gives up its last guard and has no handle leaves.
    pub open spec fn unpin(self, slot: int) -> GlobalView {
        let l = self.locals[slot];
        if l.guard_count == 1 && l.handle_count == 0 {
            self.unpin_core(slot).finalize(slot)
        } else {
            self.unpin_core(slot)
        }
    }

    /// The registry after participant `slot` has given up one handle. A
    /// participant that gives up its last handle and has no guard leaves.
    pub open spec fn release_handle(self, slot: int) -> GlobalView {
        let l = self.locals[slot];
        let g = self.with_local(slot, LocalView { handle_count: (l.handle_count - 1) as nat, ..l });
        if l.guard_count == 0 && l.handle_count == 1 {
            g.finalize(slot)
        } else {
            g
        }
    }

    /// The registry after participant `slot` has been unpinned and pinned
    /// again. Only a participant with exactly one guard whose epoch is not
    /// the global one changes anything: as at an unpin, a bag that has
    /// reached `MAX_OBJECTS` records is emptied and the persist set becomes
    /// due flushes; then the global epoch is published as pinned.
    pub open spec fn repin(self, slot: int) -> GlobalView {
        let l = self.locals[slot];
        if l.guard_count == 1 && l.epoch != self.epoch.spec_pinned() {
            let g = if l.bag.len() >= MAX_OBJECTS {
                self.flush_bags(slot)
            } else {
                self
            };
            GlobalView {
                locals: g.locals.update(
                    slot,
                    LocalView {
                        persists: Seq::empty(),
                        epoch: self.epoch.spec_pinned(),
                        is_repinning: false,
                        ..g.locals[slot]
                    },
                ),
                flushes: g.flushes + l.persists,
                ..g
            }
        } else {
            self.with_local(slot, LocalView { is_repinning: false, ..l })
        }
    }

    /// The newest participant that `tid` owns and that has not left, if
    /// there is one among the first `n`.
    pub open spec fn find_upto(self, tid: usize, n: int) -> Option<int>
        decreases n,
    {
        if n <= 0 {
            None
        } else if !self.locals[n - 1].deleted && self.locals[n - 1].tid == Some(tid) {
            Some(n - 1)
        } else {
            self.find_upto(tid, n - 1)
        }
    }

    /// The newest participant that `tid` owns and that has not left.
    pub open spec fn find(self, tid: usize) -> Option<int> {
        self.find_upto(tid, self.locals.len() as int)
    }
}

/// The registry of participants, the queue of sealed bags and the global
/// epoch, with the two outboxes of destructors and flushes that are due.
pub struct Global {
    locals: Vec<Local>,
    queue: Vec<SealedBag>,
    epoch: Epoch,
    reclaimed: Vec<Deferred>,
    flushes: Vec<(u64, u64)>,
}

impl View for Global {
    type V = GlobalView;

    closed spec fn view(&self) -> GlobalView {
        GlobalView {
            locals: self.locals@.map_values(|l: Local| l@),
            queue: self.queue@.map_values(|b: SealedBag| b@),
            epoch: self.epoch,
            reclaimed: self.reclaimed@,
            flushes: self.flushes@,
        }
    }
}

impl Global {
    /// A registry without participants, in the starting epoch.
    pub fn new() -> (g: Global)
        ensures
            g@ == (GlobalView {
                locals: Seq::empty(),
                queue: Seq::empty(),
                epoch: Epoch::spec_starting(),
                reclaimed: Seq::empty(),
                flushes: Seq::empty(),
            }),
            g@.wf(),
    {
        let g = Global {
            locals: Vec::new(),
            queue: Vec::new(),
            epoch: Epoch::starting(),
            reclaimed: Vec::new(),
            flushes: Vec::new(),
        };
        assert(g@.locals =~= Seq::empty());
        assert(g@.queue =~= Seq::empty());
        g
    }

    /// The view holds the participants and the queued bags one for one.
    proof fn lemma_views(&self)
        ensures
            self@.locals.len() == self.locals@.len(),
            forall|i: int|
                0 <= i < self.locals@.len() ==> self@.locals[i] == (#[trigger] self.locals@[i])@,
            self@.queue.len() == self.queue@.len(),
            forall|i: int|
                0 <= i < self.queue@.len() ==> self@.queue[i] == (#[trigger] self.queue@[i])@,
    {
    }

    /// The global epoch.
    pub fn epoch(&self) -> (e: Epoch)
        ensures
            e == self@.epoch,
    {
        self.epoch
    }

    /// The number of slots in the registry.
    pub fn len(&self) -> (n: usize)
        ensures
            n == self@.locals.len(),
    {
        self.locals.len()
    }

    /// Participant `slot`.
    pub fn local(&self, slot: usize) -> (l: &Local)
        requires
            slot < self@.locals.len(),
        ensures
            l@ == self@.locals[slot as int],
    {
        &self.locals[slot]
    }

    /// Seals `bag` in the global epoch, queues it, and leaves an empty bag
    /// in its place.
    pub fn push_bag(&mut self, bag: &mut Bag, guard: &Guard)
        requires
            old(bag).wf(),
        ensures
            final(self)@ == old(self)@.push_bag(old(bag)@),
            final(bag)@ == Seq::<Deferred>::empty(),
            final(bag).wf(),
            old(self)@.wf() ==> final(self)@.wf(),
    {
        let mut taken = Bag::new();
        core::mem::swap(bag, &mut taken);
        let epoch = self.epoch;
        self.queue.push(taken.seal(epoch));
        assert(self@.queue =~= old(self)@.queue.push(SealedView { epoch, bag: old(bag)@ }));
        assert(self@.locals =~= old(self)@.locals);
    }

    /// Tries to advance the global epoch and returns the global epoch as it
    /// then is. The epoch advances only if every pinned participant is pinned
    /// in it.
    pub fn try_advance(&mut self, guard: &Guard) -> (e: Epoch)
        ensures
            final(self)@ == old(self)@.try_advance(),
            e == final(self)@.epoch,
            old(self)@.wf() ==> final(self)@.wf(),
    {
        let global_epoch = self.epoch;
        let mut i: usize = 0;
        while i < self.locals.len()
            invariant
                *self == *old(self),
                global_epoch == self.epoch,
                i <= self.locals@.len(),
                forall|k: int| 0 <= k < i ==> !#[trigger] self@.blocks(k),
            decreases self.locals@.len() - i,
        {
            let local_epoch = self.locals[i].epoch;
            if local_epoch.is_pinned() && global_epoch.wrapping_sub(local_epoch) != 0 {
                assert(self@.blocks(i as int));
                return global_epoch;
            }
            assert(!self@.blocks(i as int));
            i = i + 1;
        }
        assert(self@.can_advance());
        let new_epoch = global_epoch.successor();
        self.epoch = new_epoch;
        proof {
            assert(self@.locals =~= old(self)@.locals);
            assert(self@.queue =~= old(self)@.queue);
            if old(self)@.wf() {
                lemma_try_advance_wf(old(self)@);
            }
        }
        new_epoch
    }

    /// A round of collection: tries to advance the global epoch, then takes
    /// up to `COLLECT_STEPS` bags off the head of the queue, as long as the
    /// head has expired, and makes their records due.
    pub fn collect(&mut self, guard: &Guard)
        ensures
            final(self)@ == old(self)@.collect(),
            old(self)@.wf() ==> final(self)@.wf(),
    {
        let global_epoch = self.try_advance(guard);
        let ghost start = self@;
        let mut step: usize = 0;
        while step < COLLECT_STEPS && self.queue.len() > 0 && self.queue[0].is_expired(global_epoch)
            invariant
                step <= COLLECT_STEPS,
                global_epoch == self@.epoch,
                start.collect_steps(COLLECT_STEPS as nat) == self@.collect_steps(
                    (COLLECT_STEPS - step) as nat,
                ),
                start.wf() ==> self@.wf(),
            decreases COLLECT_STEPS - step,
        {
            let ghost before = self@;
            let sealed = self.queue.remove(0);
            let mut records = sealed.into_deferreds();
            self.reclaimed.append(&mut records);
            step = step + 1;
            proof {
                assert(self@.queue =~= before.queue.drop_first());
                assert(self@.locals =~= before.locals);
                assert(self@ == (GlobalView {
                    queue: before.queue.drop_first(),
                    reclaimed: before.reclaimed + before.queue[0].bag,
                    ..before
                }));
                if before.wf() {
                    assert forall|j: int| 0 <= j < self@.queue.len() implies (
                    #[trigger] self@.queue[j]).bag.len() <= MAX_OBJECTS by {
                        assert(self@.queue[j] == before.queue[j + 1]);
                    }
                }
            }
        }
    }

    /// Takes the destructors that are due, oldest first, and leaves none.
    pub fn take_reclaimed(&mut self) -> (v: Vec<Deferred>)
        ensures
            v@ == old(self)@.reclaimed,
            final(self)@ == (GlobalView { reclaimed: Seq::empty(), ..old(self)@ }),
            old(self)@.wf() ==> final(self)@.wf(),
    {
        let mut taken: Vec<Deferred> = Vec::new();
        core::mem::swap(&mut self.reclaimed, &mut taken);
        assert(self@.locals =~= old(self)@.locals);
        assert(self@.queue =~= old(self)@.queue);
        taken
    }

    /// Takes the flushes that are due, oldest first, and leaves none.
    pub fn take_flushes(&mut self) -> (v: Vec<(u64, u64)>)
        ensures
            v@ == old(self)@.flushes,
            final(self)@ == (GlobalView { flushes: Seq::empty(), ..old(self)@ }),
            old(self)@.wf() ==> final(self)@.wf(),
    {
        let mut taken: Vec<(u64, u64)> = Vec::new();
        core::mem::swap(&mut self.flushes, &mut taken);
        assert(self@.locals =~= old(self)@.locals);
        assert(self@.queue =~= old(self)@.queue);
        taken
    }
}

/// Advancing keeps the registry consistent: the epoch moves only when every
/// pinned participant is pinned in it, so afterwards each is one behind.
pub proof fn lemma_try_advance_wf(g: GlobalView)
    requires
        g.wf(),
    ensures
        g.try_advance().wf(),
{
    if g.can_advance() {
        let h = g.try_advance();
        assert forall|i: int|
            0 <= i < h.locals.len() && (#[trigger] h.locals[i]).guard_count > 0 implies ahead(
            h.epoch.counter(),
            h.locals[i].epoch.counter(),
        ) <= 1 by {
            assert(g.locals[i].wf());
            assert(!g.blocks(i));
        }
    }
}

impl LocalView {
    /// A participant that has just registered.
    pub open spec fn fresh(tid: Option<usize>) -> LocalView {
        LocalView {
            tid,
            epoch: Epoch::spec_starting(),
            deleted: false,
            bag: Seq::empty(),
            guard_count: 0,
            handle_count: 1,
            pin_count: 0,
            persists: Seq::empty(),
            is_repinning: false,
        }
    }

    /// The participant's own state is consistent: it has published a pinned
    /// epoch exactly while a guard pins it, and its persist set is ordered.
    pub open spec fn wf(self) -> bool {
        &&& self.epoch.pinned_flag() == (self.guard_count > 0)
        &&& !self.epoch.advancing_flag()
        &&& sorted_by_ptr(self.persists)
        &&& self.guard_count <= usize::MAX
        &&& self.handle_count <= usize::MAX
        &&& self.pin_count <= usize::MAX
        &&& self.bag.len() <= usize::MAX
        &&& self.deleted ==> self.guard_count == 0 && self.handle_count == 0
    }
}

impl Local {
    /// A participant that has just registered.
    pub fn new(tid: Option<usize>) -> (l: Local)
        ensures
            l@ == LocalView::fresh(tid),
    {
        Local {
            tid,
            epoch: Epoch::starting(),
            deleted: false,
            bag: Vec::new(),
            guard_count: 0,
            handle_count: 1,
            pin_count: 0,
            persists: Vec::new(),
            is_repinning: false,
        }
    }

    /// The thread that owns the participant, if any.
    pub fn owner(&self) -> (t: Option<usize>)
        ensures
            t == self@.tid,
    {
        self.tid
    }

    /// Puts the counts back to where recovery wants them: one handle, no
    /// guard, one pinning, no repin under way. The participant's epoch is
    /// published as unpinned to match.
    pub fn reset_count(&mut self)
        ensures
            final(self)@ == (LocalView {
                handle_count: 1,
                guard_count: 0,
                pin_count: 1,
                is_repinning: false,
                epoch: Epoch::spec_starting(),
                ..old(self)@
            }),
    {
        self.handle_count = 1;
        self.guard_count = 0;
        self.pin_count = 1;
        self.is_repinning = false;
        self.epoch = Epoch::starting();
    }

    /// Whether a guard keeps the participant pinned.
    pub fn is_pinned(&self) -> (b: bool)
        ensures
            b == (self@.guard_count > 0),
    {
        self.guard_count > 0
    }

    /// Retires `deferred` into the participant's bag.
    pub fn defer(&mut self, deferred: Deferred, guard: &Guard)
        requires
            old(self)@.bag.len() < usize::MAX,
        ensures
            final(self)@ == (LocalView { bag: old(self)@.bag.push(deferred), ..old(self)@ }),
    {
        self.bag.push(deferred);
    }

    /// Counts one more handle to the participant.
    pub fn acquire_handle(&mut self)
        requires
            old(self)@.handle_count < usize::MAX,
        ensures
            final(self)@ == (LocalView {
                handle_count: old(self)@.handle_count + 1,
                ..old(self)@
            }),
    {
        self.handle_count = self.handle_count + 1;
    }

    /// Asks for `len` bytes at `ptr` to be flushed when the participant is
    /// next unpinned. A region that starts at `ptr` is remembered once.
    pub fn push_persist(&mut self, ptr: u64, len: u64)
        requires
            sorted_by_ptr(old(self)@.persists),
        ensures
            final(self)@ == (LocalView {
                persists: with_persist(old(self)@.persists, ptr, len),
                ..old(self)@
            }),
            sorted_by_ptr(final(self)@.persists),
    {
        let mut lo: usize = 0;
        let mut hi: usize = self.persists.len();
        while lo < hi
            invariant
                *self == *old(self),
                sorted_by_ptr(self.persists@),
                0 <= lo <= hi <= self.persists@.len(),
                forall|i: int| 0 <= i < lo ==> (#[trigger] self.persists@[i]).0 < ptr,
                forall|i: int| hi <= i < self.persists@.len() ==> (#[trigger] self.persists@[i]).0 >= ptr,
            decreases hi - lo,
        {
            let mid = lo + (hi - lo) / 2;
            if self.persists[mid].0 < ptr {
                lo = mid + 1;
            } else {
                hi = mid;
            }
        }
        proof {
            lemma_rank(self.persists@, ptr, lo as int);
        }
        if lo < self.persists.len() && self.persists[lo].0 == ptr {
            assert(has_ptr(self.persists@, ptr));
        } else {
            assert(!has_ptr(self.persists@, ptr));
            self.persists.insert(lo, (ptr, len));
        }
    }
}

/// In an ordered set, the regions that start below `ptr` are the first
/// `rank` ones.
pub proof fn lemma_rank(s: Seq<(u64, u64)>, ptr: u64, pos: int)
    requires
        sorted_by_ptr(s),
        0 <= pos <= s.len(),
        forall|i: int| 0 <= i < pos ==> (#[trigger] s[i]).0 < ptr,
        forall|i: int| pos <= i < s.len() ==> (#[trigger] s[i]).0 >= ptr,
    ensures
        rank(s, ptr) == pos,
    decreases s.len(),
{
    if s.len() > 0 {
        let t = s.drop_last();
        assert(sorted_by_ptr(t)) by {
            assert forall|i: int, j: int| 0 <= i < j < t.len() implies (#[trigger] t[i]).0 < (
            #[trigger] t[j]).0 by {
                assert(s[i].0 < s[j].0);
            }
        }
        if pos == s.len() {
            assert(s[s.len() - 1].0 < ptr);
            assert forall|i: int| 0 <= i < pos - 1 implies (#[trigger] t[i]).0 < ptr by {
                assert(s[i].0 < ptr);
            }
            lemma_rank(t, ptr, pos - 1);
        } else {
            assert(s[s.len() - 1].0 >= ptr);
            assert forall|i: int| 0 <= i < pos implies (#[trigger] t[i]).0 < ptr by {
                assert(s[i].0 < ptr);
            }
            assert forall|i: int| pos <= i < t.len() implies (#[trigger] t[i]).0 >= ptr by {
                assert(s[i].0 >= ptr);
            }
            lemma_rank(t, ptr, pos);
        }
    }
}

impl Local {
    /// Empties the participant's bag: the records without duplicates of a
    /// key, newest first, cut into bags of `MAX_OBJECTS` records, of which
    /// only the last may hold fewer.
    pub fn dedup_as_bags(&mut self) -> (bags: Vec<Bag>)
        ensures
            final(self)@ == (LocalView { bag: Seq::empty(), ..old(self)@ }),
            bags@.len() == nr_chunks(drained(old(self)@.bag).len()),
            forall|j: int|
                0 <= j < bags@.len() ==> (#[trigger] bags@[j])@ == chunk(
                    drained(old(self)@.bag),
                    j,
                ),
            forall|j: int| 0 <= j < bags@.len() ==> (#[trigger] bags@[j]).wf(),
    {
        let mut rest = dedup_by_key(&self.bag);
        self.bag.clear();
        let ghost d = rest@;
        let ghost s = d.reverse();
        let mut bags: Vec<Bag> = Vec::new();
        let mut new = Bag::new();
        while rest.len() > 0
            invariant
                d == dedup(old(self)@.bag),
                s == d.reverse(),
                rest@ == d.take(rest@.len() as int),
                rest@.len() <= d.len(),
                new.wf(),
                s.len() - rest@.len() == MAX_OBJECTS * bags@.len() + new@.len(),
                rest@.len() < d.len() ==> new@.len() >= 1,
                new@ == s.subrange(MAX_OBJECTS * bags@.len(), s.len() - rest@.len()),
                forall|j: int|
                    0 <= j < bags@.len() ==> (#[trigger] bags@[j])@ == s.subrange(
                        MAX_OBJECTS * j,
                        MAX_OBJECTS * (j + 1),
                    ),
                forall|j: int| 0 <= j < bags@.len() ==> (#[trigger] bags@[j]).wf(),
            decreases rest@.len(),
        {
            let ghost m = s.len() - rest@.len();
            let deferred = rest.pop().unwrap();
            assert(deferred == s[m]);
            assert(rest@ =~= d.take(rest@.len() as int));
            match new.try_push(deferred) {
                Ok(_) => {
                    assert(new@ =~= s.subrange(MAX_OBJECTS * bags@.len(), m + 1));
                },
                Err(back) => {
                    let ghost q = bags@.len();
                    bags.push(new);
                    new = Bag::new();
                    let _ = new.try_push(back);
                    assert(new@ =~= s.subrange(MAX_OBJECTS * bags@.len(), m + 1));
                    assert(bags@[q as int]@ == s.subrange(MAX_OBJECTS * q, MAX_OBJECTS * (q + 1)));
                },
            }
        }
        assert(self@.bag =~= Seq::<Deferred>::empty());
        if !new.is_empty() {
            bags.push(new);
        }
        bags
    }

    /// Adds a participant owned by `tid` to the registry and returns the
    /// first handle to it.
    pub fn register(global: &mut Global, tid: Option<usize>) -> (h: LocalHandle)
        ensures
            final(global)@ == old(global)@.register(tid),
            h.slot() == old(global)@.locals.len(),
            old(global)@.wf() ==> final(global)@.wf(),
    {
        let slot = global.locals.len();
        global.locals.push(Local::new(tid));
        assert(global@.locals =~= old(global)@.locals.push(LocalView::fresh(tid)));
        assert(global@.queue =~= old(global)@.queue);
        LocalHandle { local: slot }
    }

    /// Looks for the newest participant that `tid` owns and that has not
    /// left, and returns one more handle to it. Without such a participant the
    /// registry stays as it is.
    pub fn find(global: &mut Global, tid: usize) -> (r: Option<LocalHandle>)
        requires
            old(global)@.wf(),
            forall|i: int|
                0 <= i < old(global)@.locals.len() ==> (#[trigger] old(global)@.locals[i]).handle_count < usize::MAX,
        ensures
            final(global)@.wf(),
            match r {
                Some(h) => {
                    &&& old(global)@.find(tid) == Some(h.slot() as int)
                    &&& old(global)@.member(h.slot() as int)
                    &&& old(global)@.locals[h.slot() as int].tid == Some(tid)
                    &&& final(global)@ == old(global)@.with_local(
                        h.slot() as int,
                        LocalView {
                            handle_count: old(global)@.locals[h.slot() as int].handle_count + 1,
                            ..old(global)@.locals[h.slot() as int]
                        },
                    )
                },
                None => old(global)@.find(tid) is None && final(global)@ == old(global)@,
            },
    {
        proof {
            global.lemma_views();
        }
        let mut n: usize = global.locals.len();
        while n > 0
            invariant
                *global == *old(global),
                global@.wf(),
                forall|i: int|
                    0 <= i < global@.locals.len() ==> (#[trigger] global@.locals[i]).handle_count
                        < usize::MAX,
                n <= global.locals@.len(),
                global@.find(tid) == global@.find_upto(tid, n as int),
            decreases n,
        {
            proof {
                global.lemma_views();
            }
            let found = !global.locals[n - 1].deleted && match global.locals[n - 1].owner() {
                Some(owner) => owner == tid,
                None => false,
            };
            if found {
                let slot = n - 1;
                let entry = &mut global.locals[slot];
                entry.acquire_handle();
                proof {
                    let l = old(global)@.locals[slot as int];
                    assert(global@.locals =~= old(global)@.locals.update(
                        slot as int,
                        LocalView { handle_count: l.handle_count + 1, ..l },
                    ));
                    assert(global@.queue =~= old(global)@.queue);
                    assert(l.wf());
                }
                return Some(LocalHandle { local: slot });
            }
            n = n - 1;
        }
        None
    }

    /// Empties participant `slot`'s bag into the queue, the last bag first.
    fn flush_bags(global: &mut Global, slot: usize, guard: &Guard)
        requires
            slot < old(global)@.locals.len(),
        ensures
            final(global)@ == old(global)@.flush_bags(slot as int),
            old(global)@.wf() ==> final(global)@.wf(),
    {
        proof {
            global.lemma_views();
        }
        let ghost g0 = global@;
        let ghost s = drained(g0.locals[slot as int].bag);
        let ghost n = nr_chunks(s.len());
        let entry = &mut global.locals[slot];
        let mut bags = entry.dedup_as_bags();
        let ghost g1 = global@;
        proof {
            assert(g1.locals =~= g0.locals.update(
                slot as int,
                LocalView { bag: Seq::empty(), ..g0.locals[slot as int] },
            ));
            assert(g1.queue =~= g0.queue);
            if g0.wf() {
                assert(g0.locals[slot as int].wf());
                assert(g1.wf());
            }
        }
        while bags.len() > 0
            invariant
                bags@.len() <= n,
                forall|j: int| 0 <= j < bags@.len() ==> (#[trigger] bags@[j])@ == chunk(s, j),
                forall|j: int| 0 <= j < bags@.len() ==> (#[trigger] bags@[j]).wf(),
                global@.locals == g1.locals,
                global@.epoch == g1.epoch,
                global@.reclaimed == g1.reclaimed,
                global@.flushes == g1.flushes,
                global@.queue == g1.queue + Seq::new(
                    (n - bags@.len()) as nat,
                    |i: int| SealedView { epoch: g1.epoch, bag: chunk(s, n - 1 - i) },
                ),
                g1.wf() ==> global@.wf(),
            decreases bags@.len(),
        {
            let mut bag = bags.pop().unwrap();
            global.push_bag(&mut bag, guard);
            assert(global@.queue =~= g1.queue + Seq::new(
                (n - bags@.len()) as nat,
                |i: int| SealedView { epoch: g1.epoch, bag: chunk(s, n - 1 - i) },
            ));
        }
        assert(global@.queue =~= g0.flush_bags(slot as int).queue);
    }

    /// Empties participant `slot`'s bag into the queue and runs a round of
    /// collection.
    pub fn flush(global: &mut Global, slot: usize, guard: &Guard)
        requires
            slot < old(global)@.locals.len(),
        ensures
            final(global)@ == old(global)@.flush(slot as int),
            old(global)@.wf() ==> final(global)@.wf(),
    {
        Self::flush_bags(global, slot, guard);
        global.collect(guard);
    }

    /// Pins participant `slot` and returns the guard that witnesses it.
    pub fn pin(global: &mut Global, slot: usize) -> (guard: Guard)
        requires
            old(global)@.wf(),
            old(global)@.member(slot as int),
            old(global)@.locals[slot as int].guard_count < usize::MAX,
        ensures
            final(global)@ == old(global)@.pin(slot as int),
            final(global)@.wf(),
            final(global)@.member(slot as int),
            guard.slot() == Some(slot),
    {
        proof {
            global.lemma_views();
        }
        let guard = Guard { local: Some(slot) };
        let ghost g0 = global@;
        let ghost l = g0.locals[slot as int];
        let global_epoch = global.epoch;
        let entry = &mut global.locals[slot];
        let guard_count = entry.guard_count;
        entry.guard_count = guard_count + 1;
        if guard_count == 0 {
            entry.epoch = global_epoch.pinned();
            let count = entry.pin_count;
            entry.pin_count = count.wrapping_add(1);
            proof {
                let pinned = g0.with_local(
                    slot as int,
                    LocalView {
                        guard_count: 1,
                        epoch: g0.epoch.spec_pinned(),
                        pin_count: if l.pin_count == usize::MAX {
                            0
                        } else {
                            l.pin_count + 1
                        },
                        ..l
                    },
                );
                assert(global@.locals =~= pinned.locals);
                assert(global@.queue =~= g0.queue);
                assert(l.wf());
                assert(pinned.wf());
            }
            if count % PINNINGS_BETWEEN_COLLECT == 0 {
                global.collect(&guard);
                proof {
                    lemma_collect_keeps_locals(g0.pin(slot as int));
                    let pinned = g0.with_local(
                        slot as int,
                        LocalView {
                            guard_count: 1,
                            epoch: g0.epoch.spec_pinned(),
                            pin_count: if l.pin_count == usize::MAX {
                                0
                            } else {
                                l.pin_count + 1
                            },
                            ..l
                        },
                    );
                    lemma_collect_keeps_locals(pinned);
                }
            }
        } else {
            proof {
                assert(global@.locals =~= g0.locals.update(
                    slot as int,
                    LocalView { guard_count: l.guard_count + 1, ..l },
                ));
                assert(global@.queue =~= g0.queue);
                assert(l.wf());
            }
        }
        guard
    }

    /// Gives up one guard of participant `slot`, short of leaving the
    /// registry.
    fn unpin_core(global: &mut Global, slot: usize)
        requires
            old(global)@.wf(),
            slot < old(global)@.locals.len(),
            old(global)@.locals[slot as int].guard_count > 0,
        ensures
            final(global)@ == old(global)@.unpin_core(slot as int),
            final(global)@.wf(),
    {
        proof {
            global.lemma_views();
        }
        let ghost g0 = global@;
        let ghost l = g0.locals[slot as int];
        assert(l.wf());
        let guard_count = global.locals[slot].guard_count;
        if guard_count == 1 {
            if global.locals[slot].bag.len() >= MAX_OBJECTS {
                let guard = Guard { local: None };
                Self::flush_bags(global, slot, &guard);
            }
            let ghost g1 = global@;
            proof {
                global.lemma_views();
            }
            let entry = &mut global.locals[slot];
            entry.guard_count = 0;
            let mut due: Vec<(u64, u64)> = Vec::new();
            core::mem::swap(&mut entry.persists, &mut due);
            entry.epoch = Epoch::starting();
            global.flushes.append(&mut due);
            proof {
                assert(global@.locals =~= g1.locals.update(
                    slot as int,
                    LocalView {
                        guard_count: 0,
                        persists: Seq::empty(),
                        epoch: Epoch::spec_starting(),
                        ..g1.locals[slot as int]
                    },
                ));
                assert(global@.queue =~= g1.queue);
                assert(g1.locals[slot as int].persists == l.persists);
                assert(g1.locals[slot as int].wf());
            }
        } else {
            let entry = &mut global.locals[slot];
            entry.guard_count = guard_count - 1;
            proof {
                assert(global@.locals =~= g0.locals.update(
                    slot as int,
                    LocalView { guard_count: (l.guard_count - 1) as nat, ..l },
                ));
                assert(global@.queue =~= g0.queue);
            }
        }
    }

    /// Takes participant `slot`, which has neither guard nor handle, out of
    /// the registry, after its bag has been emptied into the queue.
    fn finalize(global: &mut Global, slot: usize)
        requires
            old(global)@.wf(),
            old(global)@.member(slot as int),
            old(global)@.locals[slot as int].guard_count == 0,
            old(global)@.locals[slot as int].handle_count == 0,
        ensures
            final(global)@ == old(global)@.finalize(slot as int),
            final(global)@.wf(),
    {
        proof {
            global.lemma_views();
        }
        let ghost g0 = global@;
        let entry = &mut global.locals[slot];
        entry.handle_count = 1;
        proof {
            assert(global@.locals =~= g0.locals.update(
                slot as int,
                LocalView { handle_count: 1, ..g0.locals[slot as int] },
            ));
            assert(global@.queue =~= g0.queue);
            assert(g0.locals[slot as int].wf());
        }
        let ghost held = global@;
        let guard = Self::pin(global, slot);
        let ghost g1 = global@;
        Self::flush_bags(global, slot, &guard);
        let ghost g2 = global@;
        proof {
            lemma_pin_counts(held, slot as int);
            assert(g1 == held.pin(slot as int));
            assert(g2 == g1.flush_bags(slot as int));
            assert(g2.locals.len() == g0.locals.len());
            assert(g2.locals[slot as int].guard_count == 1);
        }
        Self::unpin_core(global, slot);
        let ghost g3 = global@;
        proof {
            lemma_flush_bags_keeps_counts(g2, slot as int);
            assert(g3.locals.len() == g0.locals.len());
            global.lemma_views();
        }
        let entry = &mut global.locals[slot];
        entry.handle_count = 0;
        entry.deleted = true;
        proof {
            assert(global@.locals =~= g3.locals.update(
                slot as int,
                LocalView { handle_count: 0, deleted: true, ..g3.locals[slot as int] },
            ));
            assert(global@.queue =~= g3.queue);
            assert(g3.locals[slot as int].wf());
        }
    }

    /// Gives up the pin that `guard` witnesses. With its last guard the
    /// participant publishes that it is unpinned and its deferred flushes
    /// become due; one without a handle then leaves the registry.
    pub fn unpin(global: &mut Global, guard: Guard)
        requires
            old(global)@.wf(),
            guard.slot() is Some,
            old(global)@.member(guard.slot().unwrap() as int),
            old(global)@.locals[guard.slot().unwrap() as int].guard_count > 0,
        ensures
            final(global)@ == old(global)@.unpin(guard.slot().unwrap() as int),
            final(global)@.wf(),
    {
        proof {
            global.lemma_views();
        }
        let slot = guard.local.unwrap();
        let last = global.locals[slot].guard_count == 1 && global.locals[slot].handle_count == 0;
        Self::unpin_core(global, slot);
        if last {
            proof {
                lemma_flush_bags_keeps_counts(old(global)@, slot as int);
            }
            Self::finalize(global, slot);
        }
    }

    /// Unpins participant `slot` and pins it again, so that it catches up
    /// with the global epoch.
    pub fn repin(global: &mut Global, slot: usize)
        requires
            old(global)@.wf(),
            slot < old(global)@.locals.len(),
        ensures
            final(global)@ == old(global)@.repin(slot as int),
            final(global)@.wf(),
    {
        proof {
            global.lemma_views();
        }
        let ghost g0 = global@;
        let ghost l = g0.locals[slot as int];
        assert(l.wf());
        let global_epoch = global.epoch.pinned();
        let entry = &mut global.locals[slot];
        entry.is_repinning = true;
        let guard_count = entry.guard_count;
        let epoch = entry.epoch;
        proof {
            assert(global@.locals =~= g0.locals.update(
                slot as int,
                LocalView { is_repinning: true, ..l },
            ));
            assert(global@.queue =~= g0.queue);
        }
        if guard_count == 1 && epoch != global_epoch {
            let ghost g0r = global@;
            if global.locals[slot].bag.len() >= MAX_OBJECTS {
                let guard = Guard { local: None };
                Self::flush_bags(global, slot, &guard);
            }
            let ghost g1 = global@;
            proof {
                global.lemma_views();
            }
            let entry = &mut global.locals[slot];
            let mut due: Vec<(u64, u64)> = Vec::new();
            core::mem::swap(&mut entry.persists, &mut due);
            entry.epoch = global_epoch;
            entry.is_repinning = false;
            global.flushes.append(&mut due);
            proof {
                let base = if l.bag.len() >= MAX_OBJECTS {
                    g0.flush_bags(slot as int)
                } else {
                    g0
                };
                assert(g0r.locals[slot as int] == (LocalView { is_repinning: true, ..l }));
                assert(g1.locals.len() == base.locals.len());
                assert(g1.locals[slot as int] == (LocalView {
                    is_repinning: true,
                    ..base.locals[slot as int]
                }));
                assert forall|i: int| 0 <= i < g1.locals.len() && i != slot implies g1.locals[i]
                    == base.locals[i] by {}
                assert(g1.queue =~= base.queue);
                assert(global@.locals =~= base.locals.update(
                    slot as int,
                    LocalView {
                        persists: Seq::empty(),
                        epoch: g0.epoch.spec_pinned(),
                        is_repinning: false,
                        ..base.locals[slot as int]
                    },
                ));
                assert(global@.queue =~= base.queue);
                assert(g1.locals[slot as int].wf());
            }
        } else {
            let entry = &mut global.locals[slot];
            entry.is_repinning = false;
            proof {
                assert(global@.locals =~= g0.locals.update(
                    slot as int,
                    LocalView { is_repinning: false, ..l },
                ));
                assert(global@.queue =~= g0.queue);
            }
        }
    }

    /// Gives up one handle to participant `slot`. A participant without
    /// guard that gives up its last handle leaves the registry.
    pub fn release_handle(global: &mut Global, slot: usize)
        requires
            old(global)@.wf(),
            old(global)@.member(slot as int),
            old(global)@.locals[slot as int].handle_count >= 1,
        ensures
            final(global)@ == old(global)@.release_handle(slot as int),
            final(global)@.wf(),
    {
        proof {
            global.lemma_views();
        }
        let ghost g0 = global@;
        let ghost l = g0.locals[slot as int];
        assert(l.wf());
        let entry = &mut global.locals[slot];
        let guard_count = entry.guard_count;
        let handle_count = entry.handle_count;
        entry.handle_count = handle_count - 1;
        proof {
            assert(global@.locals =~= g0.locals.update(
                slot as int,
                LocalView { handle_count: (l.handle_count - 1) as nat, ..l },
            ));
            assert(global@.queue =~= g0.queue);
        }
        if guard_count == 0 && handle_count == 1 {
            Self::finalize(global, slot);
        }
    }
}

/// A handle to a participant: the slot that the registry keeps it in.
pub struct LocalHandle {
    local: usize,
}

impl LocalHandle {
    /// The slot of the participant.
    pub closed spec fn slot(&self) -> usize {
        self.local
    }

    /// The slot of the participant.
    pub fn index(&self) -> (s: usize)
        ensures
            s == self.slot(),
    {
        self.local
    }
}

impl Guard {
    /// Retires the object at `offset`: its destructor is due once no pinned
    /// participant can still reach it. The record goes into the bag of the
    /// guard's participant; a guard that pins nobody makes it due at once.
    pub fn defer_destroy(&self, global: &mut Global, offset: u64)
        requires
            old(global)@.wf(),
            match self.slot() {
                Some(slot) => old(global)@.member(slot as int) && old(global)@.locals[slot as int].bag.len() < usize::MAX,
                None => true,
            },
        ensures
            final(global)@.wf(),
            final(global)@ == match self.slot() {
                Some(slot) => old(global)@.with_local(
                    slot as int,
                    LocalView {
                        bag: old(global)@.locals[slot as int].bag.push(
                            Deferred { func: DESTROY_FUNC, key: Some(offset), arg: offset },
                        ),
                        ..old(global)@.locals[slot as int]
                    },
                ),
                None => GlobalView {
                    reclaimed: old(global)@.reclaimed.push(
                        Deferred { func: DESTROY_FUNC, key: Some(offset), arg: offset },
                    ),
                    ..old(global)@
                },
            },
    {
        proof {
            global.lemma_views();
        }
        let deferred = Deferred::new(DESTROY_FUNC, Some(offset), offset);
        match self.local {
            Some(slot) => {
                let entry = &mut global.locals[slot];
                entry.defer(deferred, self);
                proof {
                    let l = old(global)@.locals[slot as int];
                    assert(l.wf());
                    assert(global@.locals =~= old(global)@.locals.update(
                        slot as int,
                        LocalView { bag: l.bag.push(deferred), ..l },
                    ));
                    assert(global@.queue =~= old(global)@.queue);
                }
            },
            None => {
                global.reclaimed.push(deferred);
                proof {
                    assert(global@.locals =~= old(global)@.locals);
                    assert(global@.queue =~= old(global)@.queue);
                }
            },
        }
    }

    /// Asks for `len` bytes at `ptr` to be flushed when the guard's
    /// participant is unpinned. Asking again for a region that starts at
    /// `ptr` changes nothing. A guard that pins nobody makes the flush due at
    /// once.
    pub fn defer_persist(&self, global: &mut Global, ptr: u64, len: u64)
        requires
            old(global)@.wf(),
            match self.slot() {
                Some(slot) => old(global)@.member(slot as int),
                None => true,
            },
        ensures
            final(global)@.wf(),
            final(global)@ == match self.slot() {
                Some(slot) => old(global)@.with_local(
                    slot as int,
                    LocalView {
                        persists: with_persist(
                            old(global)@.locals[slot as int].persists,
                            ptr,
                            len,
                        ),
                        ..old(global)@.locals[slot as int]
                    },
                ),
                None => GlobalView {
                    flushes: old(global)@.flushes.push((ptr, len)),
                    ..old(global)@
                },
            },
    {
        proof {
            global.lemma_views();
        }
        match self.local {
            Some(slot) => {
                proof {
                    assert(old(global)@.locals[slot as int].wf());
                }
                let entry = &mut global.locals[slot];
                entry.push_persist(ptr, len);
                proof {
                    let l = old(global)@.locals[slot as int];
                    assert(global@.locals =~= old(global)@.locals.update(
                        slot as int,
                        LocalView { persists: with_persist(l.persists, ptr, len), ..l },
                    ));
                    assert(global@.queue =~= old(global)@.queue);
                }
            },
            None => {
                global.flushes.push((ptr, len));
                proof {
                    assert(global@.locals =~= old(global)@.locals);
                    assert(global@.queue =~= old(global)@.queue);
                }
            },
        }
    }

    /// Makes the deferred flushes of the guard's participant due now, ahead
    /// of its unpin, so that they can be performed before the participant
    /// publishes that it is unpinned. The unpin then finds the set empty. A
    /// guard that pins nobody has nothing deferred.
    pub fn persist_now(&self, global: &mut Global)
        requires
            old(global)@.wf(),
            match self.slot() {
                Some(slot) => old(global)@.member(slot as int),
                None => true,
            },
        ensures
            final(global)@.wf(),
            final(global)@ == match self.slot() {
                Some(slot) => old(global)@.persist_now(slot as int),
                None => old(global)@,
            },
    {
        proof {
            global.lemma_views();
        }
        match self.local {
            Some(slot) => {
                let entry = &mut global.locals[slot];
                let mut due: Vec<(u64, u64)> = Vec::new();
                core::mem::swap(&mut entry.persists, &mut due);
                global.flushes.append(&mut due);
                proof {
                    let l = old(global)@.locals[slot as int];
                    assert(l.wf());
                    assert(global@.locals =~= old(global)@.locals.update(
                        slot as int,
                        LocalView { persists: Seq::empty(), ..l },
                    ));
                    assert(global@.queue =~= old(global)@.queue);
                }
            },
            None => {},
        }
    }

    /// Empties the bag of the guard's participant into the queue and runs a
    /// round of collection. A guard that pins nobody does nothing.
    pub fn flush(&self, global: &mut Global)
        requires
            old(global)@.wf(),
            match self.slot() {
                Some(slot) => old(global)@.member(slot as int),
                None => true,
            },
        ensures
            final(global)@.wf(),
            final(global)@ == match self.slot() {
                Some(slot) => old(global)@.flush(slot as int),
                None => old(global)@,
            },
    {
        match self.local {
            Some(slot) => Local::flush(global, slot, self),
            None => {},
        }
    }

    /// Unpins and pins the guard's participant, so that it catches up with
    /// the global epoch. A guard that pins nobody does nothing.
    pub fn repin(&mut self, global: &mut Global)
        requires
            old(global)@.wf(),
            match old(self).slot() {
                Some(slot) => old(global)@.member(slot as int),
                None => true,
            },
        ensures
            final(self).slot() == old(self).slot(),
            final(global)@.wf(),
            final(global)@ == match old(self).slot() {
                Some(slot) => old(global)@.repin(slot as int),
                None => old(global)@,
            },
    {
        match self.local {
            Some(slot) => Local::repin(global, slot),
            None => {},
        }
    }
}

impl LocalHandle {
    /// Pins the participant and returns the guard that witnesses it.
    pub fn pin(&self, global: &mut Global) -> (guard: Guard)
        requires
            old(global)@.wf(),
            old(global)@.member(self.slot() as int),
            old(global)@.locals[self.slot() as int].guard_count < usize::MAX,
        ensures
            final(global)@ == old(global)@.pin(self.slot() as int),
            final(global)@.wf(),
            final(global)@.member(self.slot() as int),
            guard.slot() == Some(self.slot()),
    {
        Local::pin(global, self.local)
    }

    /// Whether a guard keeps the participant pinned.
    pub fn is_pinned(&self, global: &Global) -> (b: bool)
        requires
            self.slot() < global@.locals.len(),
        ensures
            b == (global@.locals[self.slot() as int].guard_count > 0),
    {
        proof {
            global.lemma_views();
        }
        global.locals[self.local].is_pinned()
    }

    /// Gives up the handle. A participant without guard that loses its last
    /// handle leaves the registry.
    pub fn release(self, global: &mut Global)
        requires
            old(global)@.wf(),
            old(global)@.member(self.slot() as int),
            old(global)@.locals[self.slot() as int].handle_count >= 1,
        ensures
            final(global)@ == old(global)@.release_handle(self.slot() as int),
            final(global)@.wf(),
    {
        Local::release_handle(global, self.local)
    }
}

/// Epoch safety. In a consistent registry, a bag that has expired was
/// sealed before every participant that is pinned now was pinned: each of
/// them is pinned in an epoch at least one ahead of the bag's.
pub proof fn lemma_epoch_safety(g: GlobalView, sealed: Epoch, i: int)
    requires
        g.wf(),
        expired(sealed, g.epoch),
        0 <= i < g.locals.len(),
        g.locals[i].guard_count > 0,
    ensures
        ahead(g.locals[i].epoch.counter(), sealed.counter()) >= 1,
        g.locals[i].epoch.counter() != sealed.counter(),
{
    lemma_pinned_after_sealed(g.epoch.counter(), g.locals[i].epoch.counter(), sealed.counter());
}

/// The records of the bags of `q`, bag after bag.
pub open spec fn records_of(q: Seq<SealedView>) -> Seq<Deferred>
    decreases q.len(),
{
    if q.len() == 0 {
        Seq::empty()
    } else {
        q[0].bag + records_of(q.drop_first())
    }
}

/// At-most-once destruction, as far as collection goes. Reclaiming takes
/// whole bags off the head of the queue, each one expired by the global
/// epoch, and makes their records due in the order in which they were queued:
/// no record is dropped and none is made due twice.
pub proof fn lemma_collect_only_expired(g: GlobalView, steps: nat)
    ensures
        ({
            let h = g.collect_steps(steps);
            let taken = g.queue.len() - h.queue.len();
            &&& 0 <= taken <= steps
            &&& h.queue == g.queue.skip(taken)
            &&& h.epoch == g.epoch
            &&& h.locals == g.locals
            &&& h.flushes == g.flushes
            &&& forall|j: int| 0 <= j < taken ==> expired((#[trigger] g.queue[j]).epoch, g.epoch)
            &&& h.reclaimed == g.reclaimed + records_of(g.queue.take(taken))
        }),
    decreases steps,
{
    let h = g.collect_steps(steps);
    if steps == 0 || g.queue.len() == 0 || !expired(g.queue[0].epoch, g.epoch) {
        assert(g.queue.skip(0) =~= g.queue);
        assert(g.queue.take(0) =~= Seq::<SealedView>::empty());
        assert(g.reclaimed + records_of(g.queue.take(0)) =~= g.reclaimed);
    } else {
        let next = GlobalView {
            queue: g.queue.drop_first(),
            reclaimed: g.reclaimed + g.queue[0].bag,
            ..g
        };
        lemma_collect_only_expired(next, (steps - 1) as nat);
        let taken = g.queue.len() - h.queue.len();
        assert(h.queue =~= g.queue.skip(taken));
        assert forall|j: int| 0 <= j < taken implies expired((#[trigger] g.queue[j]).epoch, g.epoch) by {
            if j > 0 {
                assert(next.queue[j - 1] == g.queue[j]);
            }
        }
        assert(g.queue.take(taken).drop_first() =~= next.queue.take(taken - 1));
        assert(g.queue.take(taken)[0] == g.queue[0]);
        assert(h.reclaimed =~= g.reclaimed + records_of(g.queue.take(taken)));
    }
}

/// The records that are queued or due, whatever their order.
pub open spec fn pending(g: GlobalView) -> Multiset<Deferred> {
    records_of(g.queue).to_multiset().add(g.reclaimed.to_multiset())
}

/// The records of `q` followed by those of `r` are the records of `q` and
/// `r` one after the other.
pub proof fn lemma_records_of_concat(q: Seq<SealedView>, r: Seq<SealedView>)
    ensures
        records_of(q + r) == records_of(q) + records_of(r),
    decreases q.len(),
{
    if q.len() == 0 {
        assert(q + r =~= r);
        assert(records_of(q) + records_of(r) =~= records_of(r));
    } else {
        lemma_records_of_concat(q.drop_first(), r);
        assert((q + r).drop_first() =~= q.drop_first() + r);
        assert((q + r)[0] == q[0]);
        assert(records_of(q + r) =~= records_of(q) + records_of(r));
    }
}

/// Cutting a run of records into sealed bags, in whatever epoch, keeps each
/// record exactly as often as it was there.
pub proof fn lemma_cut_keeps_records(s: Seq<Deferred>, epoch: Epoch)
    ensures
        records_of(
            Seq::new(
                nr_chunks(s.len()),
                |i: int| SealedView { epoch, bag: chunk(s, nr_chunks(s.len()) - 1 - i) },
            ),
        ).to_multiset() == s.to_multiset(),
    decreases s.len(),
{
    let n = nr_chunks(s.len()) as int;
    let q = Seq::new(n as nat, |i: int| SealedView { epoch, bag: chunk(s, n - 1 - i) });
    if s.len() == 0 {
        assert(n == 0);
        assert(records_of(q) =~= s);
    } else {
        let last = chunk(s, n - 1);
        let init = s.take(MAX_OBJECTS * (n - 1));
        let m = nr_chunks(init.len()) as int;
        assert(m == n - 1);
        assert(s =~= init + last);
        let rest = Seq::new(m as nat, |i: int| SealedView { epoch, bag: chunk(init, m - 1 - i) });
        assert(q.drop_first() =~= rest) by {
            assert forall|i: int| 0 <= i < m implies q.drop_first()[i] == rest[i] by {
                assert(chunk(s, n - 2 - i) =~= chunk(init, m - 1 - i));
            }
        }
        lemma_cut_keeps_records(init, epoch);
        assert(records_of(q) == last + records_of(rest));
        vstd::seq_lib::lemma_multiset_commutative(last, records_of(rest));
        vstd::seq_lib::lemma_multiset_commutative(init, last);
        assert(records_of(q).to_multiset() =~= s.to_multiset());
    }
}

/// At-most-once destruction. When a participant empties its bag into the
/// queue, what is queued or due grows by the records of the bag without
/// duplicates of a key, each once; and in what was added, each key of the bag
/// is carried by exactly one record. A round of collection only moves records
/// from queued to due. So each retired object gets one destructor, which
/// becomes due once.
pub proof fn lemma_retired_once(g: GlobalView, slot: int)
    requires
        0 <= slot < g.locals.len(),
    ensures
        pending(g.flush_bags(slot)) == pending(g).add(dedup(g.locals[slot].bag).to_multiset()),
        pending(g.flush_bags(slot).collect()) == pending(g.flush_bags(slot)),
        forall|k: u64|
            crate::pepoch::deferred::count_key(dedup(g.locals[slot].bag), k)
                == if crate::pepoch::deferred::has_key(g.locals[slot].bag, k) {
                1nat
            } else {
                0nat
            },
{
    let bag = g.locals[slot].bag;
    let s = drained(bag);
    let n = nr_chunks(s.len());
    let added = Seq::new(n, |i: int| SealedView { epoch: g.epoch, bag: chunk(s, n - 1 - i) });
    let h = g.flush_bags(slot);
    assert(h.queue == g.queue + added);
    lemma_records_of_concat(g.queue, added);
    lemma_cut_keeps_records(s, g.epoch);
    dedup(bag).lemma_reverse_to_multiset();
    vstd::seq_lib::lemma_multiset_commutative(records_of(g.queue), records_of(added));
    assert(pending(h) =~= pending(g).add(dedup(bag).to_multiset()));
    lemma_collect_keeps_pending(h.try_advance(), COLLECT_STEPS as nat);
    crate::pepoch::deferred::lemma_dedup_distinct(bag);
}

/// Reclaiming moves records from queued to due and changes nothing else
/// about them.
pub proof fn lemma_collect_keeps_pending(g: GlobalView, steps: nat)
    ensures
        pending(g.collect_steps(steps)) == pending(g),
    decreases steps,
{
    if !(steps == 0 || g.queue.len() == 0 || !expired(g.queue[0].epoch, g.epoch)) {
        let next = GlobalView {
            queue: g.queue.drop_first(),
            reclaimed: g.reclaimed + g.queue[0].bag,
            ..g
        };
        lemma_collect_keeps_pending(next, (steps - 1) as nat);
        vstd::seq_lib::lemma_multiset_commutative(g.queue[0].bag, records_of(g.queue.drop_first()));
        vstd::seq_lib::lemma_multiset_commutative(g.reclaimed, g.queue[0].bag);
        assert(pending(next) =~= pending(g));
    }
}

/// In an ordered persist set, the regions that start below `ptr` are
/// exactly the first `rank` ones.
pub proof fn lemma_rank_splits(s: Seq<(u64, u64)>, ptr: u64)
    requires
        sorted_by_ptr(s),
    ensures
        0 <= rank(s, ptr) <= s.len(),
        forall|i: int| 0 <= i < rank(s, ptr) ==> (#[trigger] s[i]).0 < ptr,
        forall|i: int| rank(s, ptr) <= i < s.len() ==> (#[trigger] s[i]).0 >= ptr,
    decreases s.len(),
{
    if s.len() > 0 {
        let t = s.drop_last();
        assert(sorted_by_ptr(t)) by {
            assert forall|i: int, j: int| 0 <= i < j < t.len() implies (#[trigger] t[i]).0 < (
            #[trigger] t[j]).0 by {
                assert(s[i].0 < s[j].0);
            }
        }
        lemma_rank_splits(t, ptr);
        assert forall|i: int| 0 <= i < rank(s, ptr) implies (#[trigger] s[i]).0 < ptr by {
            if i < t.len() {
                if i < rank(t, ptr) {
                    assert(t[i].0 < ptr);
                } else {
                    assert(s[i].0 < s[s.len() - 1].0);
                }
            }
        }
        assert forall|i: int| rank(s, ptr) <= i < s.len() implies (#[trigger] s[i]).0 >= ptr by {
            if i < t.len() {
                assert(t[i].0 >= ptr);
            }
        }
    }
}

/// The persist set is a set. After a request to flush at `ptr` exactly one
/// region of the set starts there, the set is still ordered, and a second
/// request for the same place, whatever its length, changes nothing: so the
/// unpin that makes every region of the set due makes one flush at `ptr` due.
pub proof fn lemma_persist_once(s: Seq<(u64, u64)>, ptr: u64, len: u64, again: u64)
    requires
        sorted_by_ptr(s),
    ensures
        sorted_by_ptr(with_persist(s, ptr, len)),
        has_ptr(with_persist(s, ptr, len), ptr),
        with_persist(with_persist(s, ptr, len), ptr, again) == with_persist(s, ptr, len),
        forall|i: int, j: int|
            0 <= i < with_persist(s, ptr, len).len() && 0 <= j < with_persist(s, ptr, len).len()
                && (#[trigger] with_persist(s, ptr, len)[i]).0 == ptr && (#[trigger] with_persist(
                s,
                ptr,
                len,
            )[j]).0 == ptr ==> i == j,
        !has_ptr(s, ptr) ==> with_persist(s, ptr, len).len() == s.len() + 1,
{
    let t = with_persist(s, ptr, len);
    lemma_rank_splits(s, ptr);
    if !has_ptr(s, ptr) {
        let r = rank(s, ptr);
        assert(t[r] == (ptr, len));
        assert forall|i: int, j: int| 0 <= i < j < t.len() implies (#[trigger] t[i]).0 < (
        #[trigger] t[j]).0 by {
            if i < r {
                assert(t[i] == s[i]);
            } else if i > r {
                assert(t[i] == s[i - 1]);
            }
            if j < r {
                assert(t[j] == s[j]);
            } else if j > r {
                assert(t[j] == s[j - 1]);
                assert(s[j - 1].0 >= ptr);
                assert(s[j - 1].0 != ptr);
            }
        }
    }
    assert forall|i: int, j: int|
        0 <= i < t.len() && 0 <= j < t.len() && (#[trigger] t[i]).0 == ptr && (#[trigger] t[j]).0
            == ptr implies i == j by {
        if i < j {
            assert(t[i].0 < t[j].0);
        } else if j < i {
            assert(t[j].0 < t[i].0);
        }
    }
}

/// Cutting a run of records into bags loses and repeats nothing: the record
/// at place `x` lies in bag `x / MAX_OBJECTS` at place `x % MAX_OBJECTS`, and
/// every place of every bag holds such a record.
pub proof fn lemma_chunks_partition(s: Seq<Deferred>)
    ensures
        forall|x: int|
            0 <= x < s.len() ==> x / (MAX_OBJECTS as int) < nr_chunks(s.len()) && x % (
            MAX_OBJECTS as int) < chunk(s, x / (MAX_OBJECTS as int)).len() && chunk(
                s,
                x / (MAX_OBJECTS as int),
            )[x % (MAX_OBJECTS as int)] == #[trigger] s[x],
        forall|j: int, k: int|
            0 <= j < nr_chunks(s.len()) && 0 <= k < chunk(s, j).len() ==> MAX_OBJECTS * j + k
                < s.len() && #[trigger] chunk(s, j)[k] == s[MAX_OBJECTS * j + k],
        forall|j: int| 0 <= j < nr_chunks(s.len()) ==> 1 <= (#[trigger] chunk(s, j)).len()
            <= MAX_OBJECTS,
{
}

/// A round of collection leaves the participants as they are.
pub proof fn lemma_collect_keeps_locals(g: GlobalView)
    ensures
        g.collect().locals == g.locals,
        g.collect().flushes == g.flushes,
{
    lemma_collect_steps_keeps_locals(g.try_advance(), COLLECT_STEPS as nat);
}

/// Reclaiming bags leaves the participants and the epoch as they are.
pub proof fn lemma_collect_steps_keeps_locals(g: GlobalView, steps: nat)
    ensures
        g.collect_steps(steps).locals == g.locals,
        g.collect_steps(steps).epoch == g.epoch,
        g.collect_steps(steps).flushes == g.flushes,
    decreases steps,
{
    if !(steps == 0 || g.queue.len() == 0 || !expired(g.queue[0].epoch, g.epoch)) {
        lemma_collect_steps_keeps_locals(
            GlobalView {
                queue: g.queue.drop_first(),
                reclaimed: g.reclaimed + g.queue[0].bag,
                ..g
            },
            (steps - 1) as nat,
        );
    }
}

/// Pinning a participant without guard leaves it with one guard and with
/// the handles it had.
pub proof fn lemma_pin_counts(g: GlobalView, slot: int)
    requires
        0 <= slot < g.locals.len(),
        g.locals[slot].guard_count == 0,
    ensures
        g.pin(slot).locals.len() == g.locals.len(),
        g.pin(slot).locals[slot].guard_count == 1,
        g.pin(slot).locals[slot].handle_count == g.locals[slot].handle_count,
        g.pin(slot).locals[slot].deleted == g.locals[slot].deleted,
        g.pin(slot).flush_bags(slot).locals[slot].guard_count == 1,
{
    let l = g.locals[slot];
    let pinned = g.with_local(
        slot,
        LocalView {
            guard_count: 1,
            epoch: g.epoch.spec_pinned(),
            pin_count: if l.pin_count == usize::MAX {
                0
            } else {
                l.pin_count + 1
            },
            ..l
        },
    );
    lemma_collect_keeps_locals(pinned);
}

/// Giving up the last guard leaves the participant in its slot, without
/// guard and with the handles it had.
pub proof fn lemma_flush_bags_keeps_counts(g: GlobalView, slot: int)
    requires
        0 <= slot < g.locals.len(),
        g.locals[slot].guard_count == 1,
    ensures
        g.unpin_core(slot).locals.len() == g.locals.len(),
        g.unpin_core(slot).locals[slot].guard_count == 0,
        g.unpin_core(slot).locals[slot].handle_count == g.locals[slot].handle_count,
        g.unpin_core(slot).locals[slot].deleted == g.locals[slot].deleted,
{
}

} // verus!
