//! A pool of persistent objects of one type, with its table of roots.

use vstd::prelude::*;
use crate::pmem::ptr::PoolPtr;
use crate::pmem::ptr::NULL_OFFSET;

verus! {

/// Number of entries in a pool's root table.
pub const NR_ROOTS: usize = 16;

/// One more than the largest offset that a tagged pointer can hold.
pub const OFFSET_LIMIT: u64 = 0x400_0000_0000;

/// The distance in bytes between the offsets of two neighbouring slots. No type
/// with a stricter alignment can live in a pool.
pub const GRANULE: u64 = 128;

/// The largest number of slots whose offsets fit a tagged pointer.
pub const MAX_SLOTS: u64 = 0x7_ffff_fffe;

/// Why a pool operation failed.
#[derive(Clone, Copy, Debug, PartialEq, Eq, Structural)]
pub enum PoolError {
    /// The pool has no room left for the request.
    OutOfPool,
    /// The pool's header does not carry the expected magic number or version.
    Corrupted,
}

/// A pool of objects of type `T`.
///
/// Slot `i` of the user region is named by the offset `(i + 1) * GRANULE`, so
/// no object lies at the null offset and every offset leaves the low tag bits
/// of a pointer to `T` clear.
pub struct Pool<T> {
    base: u64,
    capacity: usize,
    slots: Vec<Option<T>>,
    roots: Vec<u64>,
}

impl<T> Pool<T> {
    /// The address at which the pool is mapped.
    pub closed spec fn base(&self) -> u64 {
        self.base
    }

    /// The number of objects that the pool has room for.
    pub closed spec fn capacity(&self) -> nat {
        self.capacity as nat
    }

    /// The user region: slot by slot, the object that lives there, if any.
    pub closed spec fn slots(&self) -> Seq<Option<T>> {
        self.slots@
    }

    /// The root table.
    pub closed spec fn roots(&self) -> Seq<u64> {
        self.roots@
    }

    /// The pool's bookkeeping is consistent.
    pub closed spec fn wf(&self) -> bool {
        &&& vstd::layout::align_of::<T>() <= GRANULE
        &&& self.slots@.len() <= self.capacity <= MAX_SLOTS
        &&& self.base + (self.capacity + 1) * GRANULE <= u64::MAX
        &&& self.roots@.len() == NR_ROOTS
    }

    /// The slot that `offset` names, if it names one.
    pub open spec fn slot_of(&self, offset: u64) -> Option<int> {
        if offset != NULL_OFFSET && offset as int % GRANULE as int == 0 && offset as int
            / GRANULE as int - 1 < self.slots().len() {
            Some(offset as int / GRANULE as int - 1)
        } else {
            None
        }
    }

    /// A live object lies at `offset`.
    pub open spec fn contains(&self, offset: u64) -> bool {
        match self.slot_of(offset) {
            Some(i) => self.slots()[i] is Some,
            None => false,
        }
    }

    /// The object that lies at `offset`.
    pub open spec fn object(&self, offset: u64) -> T
        recommends
            self.contains(offset),
    {
        self.slots()[self.slot_of(offset).unwrap()].unwrap()
    }

    /// The number of objects that the pool still has room for.
    pub open spec fn room(&self) -> nat {
        (self.capacity() - live_count(self.slots())) as nat
    }

    /// A pool has no room left exactly if it is full, and never holds more
    /// than its capacity.
    pub proof fn lemma_room(&self)
        requires
            self.wf(),
        ensures
            live_count(self.slots()) <= self.slots().len() <= self.capacity(),
            (self.room() == 0) == self.is_full(),
    {
        lemma_live_bound(self.slots());
    }

    /// Every slot holds a live object and no slot can be added.
    pub open spec fn is_full(&self) -> bool {
        &&& self.slots().len() == self.capacity()
        &&& forall|i: int| 0 <= i < self.slots().len() ==> #[trigger] self.slots()[i] is Some
    }

    /// This pool is `before` but for what lies at `offset`: the same base,
    /// capacity and roots, and away from `offset` the same objects.
    pub open spec fn differs_at(&self, before: &Pool<T>, offset: u64) -> bool {
        &&& self.base() == before.base()
        &&& self.capacity() == before.capacity()
        &&& self.roots() == before.roots()
        &&& forall|o: u64| o != offset ==> #[trigger] self.contains(o) == before.contains(o)
        &&& forall|o: u64|
            o != offset && before.contains(o) ==> #[trigger] self.object(o) == before.object(o)
    }

    /// This pool is `before` with `init` put at `offset`, where nothing lived.
    pub open spec fn grown_by(&self, before: &Pool<T>, offset: u64, init: T) -> bool {
        &&& self.differs_at(before, offset)
        &&& !before.contains(offset)
        &&& self.contains(offset)
        &&& self.object(offset) == init
        &&& offset != NULL_OFFSET
        &&& offset < OFFSET_LIMIT
        &&& offset % GRANULE == 0
    }

    /// The low tag of a pointer to a type that lives in a pool lies below
    /// the other tags: no type with a stricter alignment than the granule has
    /// a pool.
    pub proof fn lemma_low_mask(&self)
        requires
            self.wf(),
        ensures
            crate::pepoch::atomic::low_mask_of::<T>() & crate::pepoch::atomic::TAGS_MASK == 0,
            crate::pepoch::atomic::low_mask_of::<T>() < GRANULE,
    {
        broadcast use vstd::layout::align_nonzero;

        lemma_granule_bits(0, crate::pepoch::atomic::low_mask_of::<T>());
        lemma_low_bits(crate::pepoch::atomic::low_mask_of::<T>());
    }

    /// The offset of every live object fits the offset field of a pointer
    /// to `T` and leaves its low tag clear.
    pub proof fn lemma_wf_granule(&self)
        requires
            self.wf(),
        ensures
            forall|o: u64| #[trigger]
                self.contains(o) ==> o & (crate::pepoch::atomic::TAGS_MASK
                    | crate::pepoch::atomic::low_mask_of::<T>()) == 0 && o != NULL_OFFSET,
    {
        broadcast use vstd::layout::align_nonzero;

        let low = crate::pepoch::atomic::low_mask_of::<T>();
        assert forall|o: u64| #[trigger] self.contains(o) implies o & (
        crate::pepoch::atomic::TAGS_MASK | low) == 0 && o != NULL_OFFSET by {
            assert(o % 128 == 0 && o < 0x400_0000_0000);
            assert(low <= 127);
            lemma_granule_bits(o, low);
        }
    }

    /// A new pool mapped at `base` with room for `capacity` objects, empty and
    /// with every root null. Fails with `OutOfPool` when `T` asks for a
    /// stricter alignment than the pool's granule, or when the offsets of that
    /// many objects do not fit a tagged pointer or the address space.
    pub fn create(base: u64, capacity: usize) -> (r: Result<Self, PoolError>)
        ensures
            match r {
                Ok(pool) => {
                    &&& pool.wf()
                    &&& pool.base() == base
                    &&& pool.capacity() == capacity
                    &&& pool.slots().len() == 0
                    &&& pool.roots() == Seq::new(NR_ROOTS as nat, |i: int| NULL_OFFSET)
                },
                Err(e) => e == PoolError::OutOfPool,
            },
            r is Ok <==> vstd::layout::align_of::<T>() <= GRANULE && capacity <= MAX_SLOTS && base
                + (capacity + 1) * GRANULE <= u64::MAX,
    {
        let align: usize = core::mem::align_of::<T>();
        if align > 128 || capacity as u64 > MAX_SLOTS {
            return Err(PoolError::OutOfPool);
        }
        let span: u64 = (capacity as u64 + 1) * GRANULE;
        if base > u64::MAX - span {
            return Err(PoolError::OutOfPool);
        }
        let mut roots: Vec<u64> = Vec::new();
        let mut i: usize = 0;
        while i < NR_ROOTS
            invariant
                i <= NR_ROOTS,
                roots@ == Seq::new(i as nat, |j: int| NULL_OFFSET),
            decreases NR_ROOTS - i,
        {
            roots.push(NULL_OFFSET);
            i = i + 1;
            assert(roots@ =~= Seq::new(i as nat, |j: int| NULL_OFFSET));
        }
        Ok(Pool { base, capacity, slots: Vec::new(), roots })
    }

    /// The address at which the pool is mapped.
    pub fn base_addr(&self) -> (a: u64)
        ensures
            a == self.base(),
    {
        self.base
    }

    /// The address of the byte that lies `offset` bytes into the pool, or
    /// `None` when that is past the end of the address space.
    pub fn offset_to_addr(&self, offset: u64) -> (a: Option<u64>)
        ensures
            a == if self.base() + offset <= u64::MAX {
                Some((self.base() + offset) as u64)
            } else {
                None
            },
    {
        self.base.checked_add(offset)
    }

    /// The offset of the address `addr` into the pool, or `None` when `addr`
    /// lies below the pool's base.
    pub fn addr_to_offset(&self, addr: u64) -> (o: Option<u64>)
        ensures
            o == if addr >= self.base() {
                Some((addr - self.base()) as u64)
            } else {
                None
            },
    {
        if addr >= self.base {
            Some(addr - self.base)
        } else {
            None
        }
    }

    /// Puts `init` into a free slot and returns its place. The lowest free
    /// slot is taken. Fails with `OutOfPool`, leaving the pool as it was, when
    /// every slot holds a live object and the pool has reached its capacity.
    pub fn allocate(&mut self, init: T) -> (r: Result<PoolPtr<T>, PoolError>)
        requires
            old(self).wf(),
        ensures
            final(self).wf(),
            r is Ok <==> old(self).room() > 0,
            match r {
                Ok(p) => {
                    &&& final(self).grown_by(old(self), p@, init)
                    &&& final(self).room() == old(self).room() - 1
                    &&& forall|i: int|
                        0 <= i < final(self).slot_of(p@).unwrap() ==> #[trigger] old(self).slots()[i] is Some
                },
                Err(e) => {
                    &&& e == PoolError::OutOfPool
                    &&& *final(self) == *old(self)
                    &&& old(self).is_full()
                },
            },
    {
        proof {
            self.lemma_room();
        }
        let mut i: usize = 0;
        while i < self.slots.len() && self.slots[i].is_some()
            invariant
                *self == *old(self),
                self.wf(),
                i <= self.slots@.len(),
                forall|j: int| 0 <= j < i ==> #[trigger] self.slots@[j] is Some,
            decreases self.slots@.len() - i,
        {
            i = i + 1;
        }
        if i == self.slots.len() && i == self.capacity {
            return Err(PoolError::OutOfPool);
        }
        let offset: u64 = (i as u64 + 1) * GRANULE;
        if i == self.slots.len() {
            self.slots.push(Some(init));
            proof {
                assert(self.slots@.drop_last() =~= old(self).slots@);
                lemma_live_bound(old(self).slots@);
            }
        } else {
            self.slots.set(i, Some(init));
            proof {
                lemma_live_update(old(self).slots@, i as int, Some(init));
            }
        }
        assert(self.slot_of(offset) == Some(i as int));
        Ok(PoolPtr::from(offset))
    }

    /// Gives the slot at `ptr` back to the pool. Nothing happens when no live
    /// object lies there.
    pub fn free(&mut self, ptr: PoolPtr<T>)
        requires
            old(self).wf(),
        ensures
            final(self).wf(),
            final(self).differs_at(old(self), ptr@),
            !final(self).contains(ptr@),
            final(self).room() == old(self).room() + if old(self).contains(ptr@) {
                1nat
            } else {
                0nat
            },
    {
        let offset = ptr.into_offset();
        proof {
            self.lemma_room();
        }
        match self.index_of(offset) {
            Some(i) => {
                self.slots.set(i, None);
                proof {
                    lemma_live_update(old(self).slots@, i as int, None);
                }
            },
            None => {},
        }
    }

    /// The slot that `offset` names, if it names one.
    pub fn index_of(&self, offset: u64) -> (r: Option<usize>)
        requires
            self.wf(),
        ensures
            match r {
                Some(i) => self.slot_of(offset) == Some(i as int),
                None => self.slot_of(offset) is None,
            },
    {
        if offset == NULL_OFFSET || offset % GRANULE != 0 {
            return None;
        }
        let k: u64 = offset / GRANULE;
        if k - 1 < self.slots.len() as u64 {
            Some((k - 1) as usize)
        } else {
            None
        }
    }

    /// Whether a live object lies at `ptr`.
    pub fn is_live(&self, ptr: &PoolPtr<T>) -> (b: bool)
        requires
            self.wf(),
        ensures
            b == self.contains(ptr@),
    {
        match self.index_of(ptr.offset()) {
            Some(i) => self.slots[i].is_some(),
            None => false,
        }
    }

    /// The object at `ptr`, or `None` when no live object lies there.
    pub fn deref(&self, ptr: &PoolPtr<T>) -> (r: Option<&T>)
        requires
            self.wf(),
        ensures
            match r {
                Some(t) => self.contains(ptr@) && *t == self.object(ptr@),
                None => !self.contains(ptr@),
            },
    {
        match self.index_of(ptr.offset()) {
            Some(i) => self.slots[i].as_ref(),
            None => None,
        }
    }

    /// The object at `ptr`, for changing it in place.
    pub fn deref_mut(&mut self, ptr: &PoolPtr<T>) -> (r: &mut T)
        requires
            old(self).wf(),
            old(self).contains(ptr@),
        ensures
            *r == old(self).object(ptr@),
            final(self).wf(),
            final(self).differs_at(old(self), ptr@),
            final(self).contains(ptr@),
            final(self).object(ptr@) == *final(r),
            final(self).room() == old(self).room(),
    {
        let i = self.index_of(ptr.offset()).unwrap();
        proof {
            let slots = self.slots@;
            assert forall|v: T| live_count(#[trigger] slots.update(i as int, Some(v)))
                == live_count(slots) by {
                lemma_live_update(slots, i as int, Some(v));
            }
        }
        let slot = &mut self.slots[i];
        slot.as_mut().unwrap()
    }

    /// Replaces the object at `ptr` by `value` and returns the object that
    /// was there. When no live object lies there, the pool stays as it is and
    /// `value` comes back as the error.
    pub fn replace(&mut self, ptr: &PoolPtr<T>, value: T) -> (r: Result<T, T>)
        requires
            old(self).wf(),
        ensures
            final(self).wf(),
            match r {
                Ok(prev) => {
                    &&& old(self).contains(ptr@)
                    &&& prev == old(self).object(ptr@)
                    &&& final(self).differs_at(old(self), ptr@)
                    &&& final(self).contains(ptr@)
                    &&& final(self).object(ptr@) == value
                    &&& final(self).room() == old(self).room()
                },
                Err(v) => {
                    &&& !old(self).contains(ptr@)
                    &&& v == value
                    &&& *final(self) == *old(self)
                },
            },
    {
        let offset = ptr.offset();
        match self.index_of(offset) {
            Some(i) => {
                if self.slots[i].is_none() {
                    return Err(value);
                }
                let slot = &mut self.slots[i];
                let prev = slot.take();
                *slot = Some(value);
                proof {
                    lemma_live_agree(old(self).slots@, self.slots@);
                }
                Ok(prev.unwrap())
            },
            None => Err(value),
        }
    }

    /// The offset stored in root `i`, or `None` when the table has no such
    /// entry.
    pub fn root(&self, i: usize) -> (r: Option<PoolPtr<T>>)
        requires
            self.wf(),
        ensures
            match r {
                Some(p) => i < NR_ROOTS && p@ == self.roots()[i as int],
                None => i >= NR_ROOTS,
            },
    {
        if i < NR_ROOTS {
            Some(PoolPtr::from(self.roots[i]))
        } else {
            None
        }
    }

    /// Stores `ptr` in root `i` and returns the offset that was there, or
    /// `None`, with the table unchanged, when the table has no such entry.
    pub fn set_root(&mut self, i: usize, ptr: PoolPtr<T>) -> (r: Option<PoolPtr<T>>)
        requires
            old(self).wf(),
        ensures
            final(self).wf(),
            final(self).base() == old(self).base(),
            final(self).capacity() == old(self).capacity(),
            final(self).slots() == old(self).slots(),
            match r {
                Some(p) => {
                    &&& i < NR_ROOTS
                    &&& p@ == old(self).roots()[i as int]
                    &&& final(self).roots() == old(self).roots().update(i as int, ptr@)
                },
                None => i >= NR_ROOTS && final(self).roots() == old(self).roots(),
            },
    {
        if i < NR_ROOTS {
            let prev = self.roots[i];
            self.roots.set(i, ptr.into_offset());
            Some(PoolPtr::from(prev))
        } else {
            None
        }
    }
}

/// The number of live objects among `slots`.
pub open spec fn live_count<T>(slots: Seq<Option<T>>) -> nat
    decreases slots.len(),
{
    if slots.len() == 0 {
        0
    } else {
        live_count(slots.drop_last()) + if slots.last() is Some {
            1nat
        } else {
            0nat
        }
    }
}

/// No more objects are live than there are slots, and as many exactly if
/// every slot holds one.
pub proof fn lemma_live_bound<T>(slots: Seq<Option<T>>)
    ensures
        live_count(slots) <= slots.len(),
        (live_count(slots) == slots.len()) == (forall|i: int|
            0 <= i < slots.len() ==> #[trigger] slots[i] is Some),
    decreases slots.len(),
{
    if slots.len() > 0 {
        let init = slots.drop_last();
        lemma_live_bound(init);
        if live_count(slots) == slots.len() {
            assert forall|i: int| 0 <= i < slots.len() implies #[trigger] slots[i] is Some by {
                if i < init.len() {
                    assert(init[i] is Some);
                }
            }
        }
        if forall|i: int| 0 <= i < slots.len() ==> #[trigger] slots[i] is Some {
            assert forall|i: int| 0 <= i < init.len() implies #[trigger] init[i] is Some by {
                assert(slots[i] is Some);
            }
            assert(slots[slots.len() - 1] is Some);
        }
    }
}

/// Two rows of slots that are live in the same places hold as many live
/// objects.
pub proof fn lemma_live_agree<T>(a: Seq<Option<T>>, b: Seq<Option<T>>)
    requires
        a.len() == b.len(),
        forall|i: int| 0 <= i < a.len() ==> (#[trigger] a[i] is Some) == (b[i] is Some),
    ensures
        live_count(a) == live_count(b),
    decreases a.len(),
{
    if a.len() > 0 {
        assert forall|i: int| 0 <= i < a.len() - 1 implies (#[trigger] a.drop_last()[i] is Some) == (
        b.drop_last()[i] is Some) by {
            assert((a[i] is Some) == (b[i] is Some));
        }
        lemma_live_agree(a.drop_last(), b.drop_last());
        assert((a[a.len() - 1] is Some) == (b[a.len() - 1] is Some));
    }
}

/// Putting `v` into slot `i` changes the number of live objects by what
/// the slot gains or loses.
pub proof fn lemma_live_update<T>(slots: Seq<Option<T>>, i: int, v: Option<T>)
    requires
        0 <= i < slots.len(),
    ensures
        live_count(slots.update(i, v)) + if slots[i] is Some {
            1nat
        } else {
            0nat
        } == live_count(slots) + if v is Some {
            1nat
        } else {
            0nat
        },
    decreases slots.len(),
{
    let after = slots.update(i, v);
    if i == slots.len() - 1 {
        assert(after.drop_last() =~= slots.drop_last());
    } else {
        assert(after.drop_last() =~= slots.drop_last().update(i, v));
        lemma_live_update(slots.drop_last(), i, v);
    }
}

proof fn lemma_low_bits(low: u64)
    by (bit_vector)
    requires
        low <= 127,
    ensures
        low & 0xffff_fc00_0000_0000u64 == 0,
{
}

proof fn lemma_granule_bits(o: u64, low: u64)
    by (bit_vector)
    requires
        o % 128 == 0,
        o < 0x400_0000_0000,
        low <= 127,
    ensures
        o & (0xffff_fc00_0000_0000u64 | low) == 0,
{
}

} // verus!
