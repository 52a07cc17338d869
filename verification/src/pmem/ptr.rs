//! Pool-relative pointers.

use vstd::prelude::*;
use core::marker::PhantomData;

verus! {

/// The offset that stands for "no object".
pub const NULL_OFFSET: u64 = 0;

/// A pointer into the pool, kept as an offset from the pool's base so that it
/// stays meaningful when the pool is mapped at another address.
pub struct PoolPtr<T> {
    offset: u64,
    _marker: PhantomData<T>,
}

impl<T> View for PoolPtr<T> {
    type V = u64;

    closed spec fn view(&self) -> u64 {
        self.offset
    }
}

impl<T> PoolPtr<T> {
    /// The null pointer.
    pub fn null() -> (p: Self)
        ensures
            p@ == NULL_OFFSET,
    {
        PoolPtr { offset: NULL_OFFSET, _marker: PhantomData }
    }

    /// The pointer that lies `offset` bytes past the pool's base.
    pub fn from(offset: u64) -> (p: Self)
        ensures
            p@ == offset,
    {
        PoolPtr { offset, _marker: PhantomData }
    }

    /// The offset of this pointer from the pool's base.
    pub fn into_offset(self) -> (offset: u64)
        ensures
            offset == self@,
    {
        self.offset
    }

    /// The offset of this pointer from the pool's base.
    pub fn offset(&self) -> (offset: u64)
        ensures
            offset == self@,
    {
        self.offset
    }

    /// Whether this is the null pointer.
    pub fn is_null(&self) -> (b: bool)
        ensures
            b == (self@ == NULL_OFFSET),
    {
        self.offset == NULL_OFFSET
    }
}

} // verus!
