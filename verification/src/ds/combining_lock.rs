//! The lock that makes one thread the combiner.
//!
//! The lock is one word. Its low nine bits hold the id of the thread that
//! owns the lock, zero when nobody does; the fifty-five bits above hold the
//! pointer to the state that the last combiner published.

use vstd::prelude::*;

verus! {

/// Distance of the pointer field from the most significant bit.
pub const POS_AUX_BITS: u32 = 0;

/// Width of the pointer field.
pub const NR_AUX_BITS: u32 = 55;

/// The pointer field: every bit but the low nine.
pub const PTR_MASK: u64 = 0xffff_ffff_ffff_fe00;

/// The owner field: the low nine bits.
pub const TID_MASK: u64 = 0x1ff;

/// The pointer that a lock publishes before any combiner has.
pub const PTR_NULL: u64 = 0;

/// The owner of a lock that nobody owns.
pub const RELEASED: u64 = 0;

/// The word that holds the low 55 bits of `aux` as pointer and the low nine
/// bits of `data` as owner.
pub open spec fn spec_compose_aux_bit(aux: u64, data: u64) -> u64 {
    (PTR_MASK & (aux << 9)) | (!PTR_MASK & data)
}

/// The pointer and the owner that `data` holds.
pub open spec fn spec_decompose_aux_bit(data: u64) -> (u64, u64) {
    (data >> 9, data & TID_MASK)
}

proof fn lemma_lock_bits(aux: u64, data: u64)
    by (bit_vector)
    ensures
        (0xffff_ffff_ffff_ffffu64 >> 0u32) ^ (0xffff_ffff_ffff_ffffu64 >> 55u32)
            == 0xffff_ffff_ffff_fe00u64,
        !0xffff_ffff_ffff_fe00u64 == 0x1ffu64,
        data & 0x1ff <= 0x1ff,
        data >> 9 <= 0x7f_ffff_ffff_ffff,
        ((0xffff_ffff_ffff_fe00u64 & (aux << 9)) | (!0xffff_ffff_ffff_fe00u64 & data)) >> 9 == aux
            & 0x7f_ffff_ffff_ffff,
        ((0xffff_ffff_ffff_fe00u64 & (aux << 9)) | (!0xffff_ffff_ffff_fe00u64 & data)) & 0x1ff
            == data & 0x1ff,
        (0xffff_ffff_ffff_fe00u64 & ((data >> 9) << 9)) | (!0xffff_ffff_ffff_fe00u64 & (data
            & 0x1ff)) == data,
        aux <= 0x7f_ffff_ffff_ffff ==> aux & 0x7f_ffff_ffff_ffff == aux,
        data <= 0x1ff ==> data & 0x1ff == data,
{
}

/// Composing and decomposing a lock word undo each other: a word holds the
/// pointer and the owner it was made of, each cut to its width, and is made
/// again of what it holds.
pub proof fn lemma_compose_decompose(aux: u64, data: u64)
    ensures
        spec_decompose_aux_bit(spec_compose_aux_bit(aux, data)) == (
            aux & 0x7f_ffff_ffff_ffff,
            data & TID_MASK,
        ),
        spec_compose_aux_bit(spec_decompose_aux_bit(data).0, spec_decompose_aux_bit(data).1)
            == data,
        spec_decompose_aux_bit(data).0 <= 0x7f_ffff_ffff_ffff,
        spec_decompose_aux_bit(data).1 <= TID_MASK,
        aux <= 0x7f_ffff_ffff_ffff && data <= TID_MASK ==> spec_decompose_aux_bit(
            spec_compose_aux_bit(aux, data),
        ) == (aux, data),
{
    lemma_lock_bits(aux, data);
    lemma_lock_bits(data >> 9, data & 0x1ff);
}

/// The mask of the pointer field.
pub fn aux_bits() -> (m: u64)
    ensures
        m == PTR_MASK,
{
    proof {
        lemma_lock_bits(0, 0);
    }
    (u64::MAX >> POS_AUX_BITS) ^ (u64::MAX >> (POS_AUX_BITS + NR_AUX_BITS))
}

/// The word that holds the low 55 bits of `aux` as pointer and the low nine
/// bits of `data` as owner.
pub fn compose_aux_bit(aux: u64, data: u64) -> (r: u64)
    ensures
        r == spec_compose_aux_bit(aux, data),
{
    (aux_bits() & (aux << 9)) | (!aux_bits() & data)
}

/// The pointer and the owner that `data` holds.
pub fn decompose_aux_bit(data: u64) -> (r: (u64, u64))
    ensures
        r == spec_decompose_aux_bit(data),
{
    (data >> 9, data & TID_MASK)
}

/// A lock as a value: the pointer it publishes and the thread that owns it.
pub ghost struct LockView {
    pub ptr: u64,
    pub tid: u64,
}

/// The lock that makes its owner the combiner. A thread that crashes while
/// it owns the lock still owns it when it comes back.
#[derive(Debug)]
pub struct CombiningLock {
    inner: u64,
}

impl View for CombiningLock {
    type V = LockView;

    closed spec fn view(&self) -> LockView {
        LockView {
            ptr: spec_decompose_aux_bit(self.inner).0,
            tid: spec_decompose_aux_bit(self.inner).1,
        }
    }
}

impl CombiningLock {
    /// A lock that nobody owns and that publishes the null pointer.
    pub fn new() -> (l: CombiningLock)
        ensures
            l@ == (LockView { ptr: PTR_NULL, tid: RELEASED }),
    {
        proof {
            lemma_lock_bits(0, 0);
            lemma_compose_decompose(0, 0);
            assert(0u64 >> 9 == 0 && 0u64 & 0x1ff == 0) by (bit_vector);
        }
        CombiningLock { inner: 0 }
    }

    /// Tries to take the lock for thread `tid`. The thread gets it if it
    /// owns it already or if nobody does; taking it resets the published
    /// pointer to null. Else the lock stays, and the pointer and the owner
    /// that it holds come back.
    pub fn try_lock(&mut self, tid: u64) -> (r: Result<(), (u64, u64)>)
        ensures
            match r {
                Ok(_) => {
                    &&& old(self)@.tid == tid || old(self)@.tid == RELEASED
                    &&& final(self)@ == if old(self)@.tid == tid {
                        old(self)@
                    } else {
                        LockView { ptr: PTR_NULL, tid: tid & TID_MASK }
                    }
                },
                Err(held) => {
                    &&& old(self)@.tid != tid
                    &&& old(self)@.tid != RELEASED
                    &&& held == (old(self)@.ptr, old(self)@.tid)
                    &&& final(self)@ == old(self)@
                },
            },
    {
        let current = self.inner;
        let (ptr, owner) = decompose_aux_bit(current);
        if self.is_owner(tid) {
            return Ok(());
        }
        if owner != RELEASED {
            return Err((ptr, owner));
        }
        proof {
            lemma_compose_decompose(PTR_NULL, tid);
            assert(0u64 & 0x7f_ffff_ffff_ffff == 0) by (bit_vector);
        }
        self.inner = compose_aux_bit(PTR_NULL, tid);
        Ok(())
    }

    /// The pointer that the lock publishes and the thread that owns it.
    pub fn peek(&self) -> (r: (u64, u64))
        ensures
            r == (self@.ptr, self@.tid),
    {
        decompose_aux_bit(self.inner)
    }

    /// Whether thread `tid` owns the lock.
    pub fn is_owner(&self, tid: u64) -> (b: bool)
        ensures
            b == (self@.tid == tid),
    {
        let (_, owner) = decompose_aux_bit(self.inner);
        tid == owner
    }

    /// Gives the lock up and publishes `ptr`, cut to 55 bits.
    pub fn unlock(&mut self, ptr: u64)
        ensures
            final(self)@ == (LockView { ptr: ptr & 0x7f_ffff_ffff_ffff, tid: RELEASED }),
    {
        proof {
            lemma_compose_decompose(ptr, RELEASED);
            assert(0u64 & 0x1ff == 0) by (bit_vector);
        }
        self.inner = compose_aux_bit(ptr, RELEASED);
    }
}

impl Default for CombiningLock {
    fn default() -> (l: CombiningLock)
        ensures
            l@ == (LockView { ptr: PTR_NULL, tid: RELEASED }),
    {
        CombiningLock::new()
    }
}

} // verus!
