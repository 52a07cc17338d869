//! Persistent tagged pointers.
//!
//! A persistent pointer is one 64-bit word. From the most significant bit
//! down it holds an auxiliary bit, a descriptor bit, nine bits of thread id,
//! eleven bits of client-defined high tag, the pool-relative offset, and a low
//! tag in the bits that the pointee's alignment leaves unused.

use vstd::prelude::*;
use core::marker::PhantomData;
use crate::pepoch::internal::Guard;
use crate::pmem::pool::Pool;
use crate::pmem::pool::PoolError;
use crate::pmem::ptr::PoolPtr;
use crate::pmem::ptr::NULL_OFFSET;

verus! {

/// Distance of the auxiliary bit from the most significant bit.
pub const POS_AUX_BITS: u32 = 0;

/// Width of the auxiliary field.
pub const NR_AUX_BITS: u32 = 1;

/// Distance of the descriptor bit from the most significant bit.
pub const POS_DESC_BITS: u32 = 1;

/// Width of the descriptor field.
pub const NR_DESC_BITS: u32 = 1;

/// Distance of the thread-id field from the most significant bit.
pub const POS_TID_BITS: u32 = 2;

/// Width of the thread-id field.
pub const NR_TID_BITS: u32 = 9;

/// Distance of the high tag from the most significant bit.
pub const POS_HIGH_BITS: u32 = 11;

/// Width of the high tag.
pub const NR_HIGH_BITS: u32 = 11;

/// Bit 63.
pub const AUX_MASK: u64 = 0x8000_0000_0000_0000;

/// Bit 62.
pub const DESC_MASK: u64 = 0x4000_0000_0000_0000;

/// Bits 61 down to 53.
pub const TID_MASK: u64 = 0x3fe0_0000_0000_0000;

/// Bits 52 down to 42.
pub const HIGH_MASK: u64 = 0x001f_fc00_0000_0000;

/// Every bit above the offset field.
pub const TAGS_MASK: u64 = 0xffff_fc00_0000_0000;

/// The fields of a tagged word, each as a number of its own.
pub ghost struct Tagged {
    pub aux: u64,
    pub desc: u64,
    pub tid: u64,
    pub high: u64,
    pub offset: u64,
    pub low: u64,
}

/// The mask of the low tag for a pointee aligned to `align` bytes.
pub open spec fn low_mask(align: nat) -> u64 {
    (align - 1) as u64
}

/// The mask of the low tag for a pointee of type `T`.
pub open spec fn low_mask_of<T>() -> u64 {
    low_mask(vstd::layout::align_of::<T>())
}

/// What `word` holds when `low` masks its low tag.
pub open spec fn decode(word: u64, low: u64) -> Tagged {
    Tagged {
        aux: (word >> 63) & 0x1,
        desc: (word >> 62) & 0x1,
        tid: (word >> 53) & 0x1ff,
        high: (word >> 42) & 0x7ff,
        offset: word & !TAGS_MASK & !low,
        low: word & low,
    }
}

/// The word that holds the fields of `t`.
pub open spec fn encode(t: Tagged) -> u64 {
    (t.aux << 63) | (t.desc << 62) | (t.tid << 53) | (t.high << 42) | t.offset | t.low
}

/// The fields of `t` fit their places: each tag is within its width, the low
/// tag within `low`, and the offset touches neither the tags nor the low tag.
pub open spec fn legal(t: Tagged, low: u64) -> bool {
    &&& t.aux <= 0x1
    &&& t.desc <= 0x1
    &&& t.tid <= 0x1ff
    &&& t.high <= 0x7ff
    &&& t.offset & (TAGS_MASK | low) == 0
    &&& t.low & !low == 0
}

/// `word` with its low tag replaced by `ltag`, cut to `low`.
pub open spec fn spec_compose_tag(word: u64, ltag: u64, low: u64) -> u64 {
    (word & !low) | (ltag & low)
}

/// `word` with its thread id replaced by the low nine bits of `tid`.
pub open spec fn spec_compose_tid(tid: u64, word: u64) -> u64 {
    (TID_MASK & (tid << 53)) | (!TID_MASK & word)
}

/// `word` with its high tag replaced by the low eleven bits of `htag`.
pub open spec fn spec_compose_high_tag(htag: u64, word: u64) -> u64 {
    (HIGH_MASK & (htag << 42)) | (!HIGH_MASK & word)
}

/// `word` with its descriptor bit replaced by the lowest bit of `bit`.
pub open spec fn spec_compose_desc_bit(bit: u64, word: u64) -> u64 {
    (DESC_MASK & (bit << 62)) | (!DESC_MASK & word)
}

/// `word` with its auxiliary bit replaced by the lowest bit of `bit`.
pub open spec fn spec_compose_aux_bit(bit: u64, word: u64) -> u64 {
    (AUX_MASK & (bit << 63)) | (!AUX_MASK & word)
}

/// `after` is `before` with the thread id `tid`, cut to nine bits: the other
/// tags and the offset are as they were, no bit outside the field differs, and
/// the low tag stays if it lies below the tags.
pub open spec fn sets_tid(before: u64, after: u64, tid: u64, low: u64) -> bool {
    let b = decode(before, low);
    let a = decode(after, low);
    &&& a.tid == tid & 0x1ff
    &&& a.aux == b.aux
    &&& a.desc == b.desc
    &&& a.high == b.high
    &&& a.offset == b.offset
    &&& (before ^ after) & !TID_MASK == 0
    &&& low & TAGS_MASK == 0 ==> a.low == b.low
}

/// `after` is `before` with the high tag `htag`, cut to eleven bits.
pub open spec fn sets_high_tag(before: u64, after: u64, htag: u64, low: u64) -> bool {
    let b = decode(before, low);
    let a = decode(after, low);
    &&& a.high == htag & 0x7ff
    &&& a.aux == b.aux
    &&& a.desc == b.desc
    &&& a.tid == b.tid
    &&& a.offset == b.offset
    &&& (before ^ after) & !HIGH_MASK == 0
    &&& low & TAGS_MASK == 0 ==> a.low == b.low
}

/// `after` is `before` with the descriptor bit set to the lowest bit of
/// `bit`.
pub open spec fn sets_desc_bit(before: u64, after: u64, bit: u64, low: u64) -> bool {
    let b = decode(before, low);
    let a = decode(after, low);
    &&& a.desc == bit & 0x1
    &&& a.aux == b.aux
    &&& a.tid == b.tid
    &&& a.high == b.high
    &&& a.offset == b.offset
    &&& (before ^ after) & !DESC_MASK == 0
    &&& low & TAGS_MASK == 0 ==> a.low == b.low
}

/// `after` is `before` with the auxiliary bit set to the lowest bit of
/// `bit`.
pub open spec fn sets_aux_bit(before: u64, after: u64, bit: u64, low: u64) -> bool {
    let b = decode(before, low);
    let a = decode(after, low);
    &&& a.aux == bit & 0x1
    &&& a.desc == b.desc
    &&& a.tid == b.tid
    &&& a.high == b.high
    &&& a.offset == b.offset
    &&& (before ^ after) & !AUX_MASK == 0
    &&& low & TAGS_MASK == 0 ==> a.low == b.low
}

/// `after` is `before` with the low tag `ltag`, cut to `low`: the offset is
/// as it was, no bit outside `low` differs, and the tags stay if `low` lies
/// below them.
pub open spec fn sets_tag(before: u64, after: u64, ltag: u64, low: u64) -> bool {
    let b = decode(before, low);
    let a = decode(after, low);
    &&& a.low == ltag & low
    &&& a.offset == b.offset
    &&& (before ^ after) & !low == 0
    &&& low & TAGS_MASK == 0 ==> a.aux == b.aux && a.desc == b.desc && a.tid == b.tid && a.high
        == b.high
}

proof fn lemma_sets_bits(w: u64, v: u64, low: u64)
    by (bit_vector)
    ensures
        ({
            let r = (0x3fe0_0000_0000_0000u64 & (v << 53)) | (!0x3fe0_0000_0000_0000u64 & w);
            &&& (r >> 63) & 0x1 == (w >> 63) & 0x1
            &&& (r >> 62) & 0x1 == (w >> 62) & 0x1
            &&& (r >> 53) & 0x1ff == v & 0x1ff
            &&& (r >> 42) & 0x7ff == (w >> 42) & 0x7ff
            &&& r & !0xffff_fc00_0000_0000u64 & !low == w & !0xffff_fc00_0000_0000u64 & !low
            &&& (w ^ r) & !0x3fe0_0000_0000_0000u64 == 0
        }),
        ({
            let r = (0x001f_fc00_0000_0000u64 & (v << 42)) | (!0x001f_fc00_0000_0000u64 & w);
            &&& (r >> 63) & 0x1 == (w >> 63) & 0x1
            &&& (r >> 62) & 0x1 == (w >> 62) & 0x1
            &&& (r >> 53) & 0x1ff == (w >> 53) & 0x1ff
            &&& (r >> 42) & 0x7ff == v & 0x7ff
            &&& r & !0xffff_fc00_0000_0000u64 & !low == w & !0xffff_fc00_0000_0000u64 & !low
            &&& (w ^ r) & !0x001f_fc00_0000_0000u64 == 0
        }),
        ({
            let r = (0x4000_0000_0000_0000u64 & (v << 62)) | (!0x4000_0000_0000_0000u64 & w);
            &&& (r >> 63) & 0x1 == (w >> 63) & 0x1
            &&& (r >> 62) & 0x1 == v & 0x1
            &&& (r >> 53) & 0x1ff == (w >> 53) & 0x1ff
            &&& (r >> 42) & 0x7ff == (w >> 42) & 0x7ff
            &&& r & !0xffff_fc00_0000_0000u64 & !low == w & !0xffff_fc00_0000_0000u64 & !low
            &&& (w ^ r) & !0x4000_0000_0000_0000u64 == 0
        }),
        ({
            let r = (0x8000_0000_0000_0000u64 & (v << 63)) | (!0x8000_0000_0000_0000u64 & w);
            &&& (r >> 63) & 0x1 == v & 0x1
            &&& (r >> 62) & 0x1 == (w >> 62) & 0x1
            &&& (r >> 53) & 0x1ff == (w >> 53) & 0x1ff
            &&& (r >> 42) & 0x7ff == (w >> 42) & 0x7ff
            &&& r & !0xffff_fc00_0000_0000u64 & !low == w & !0xffff_fc00_0000_0000u64 & !low
            &&& (w ^ r) & !0x8000_0000_0000_0000u64 == 0
        }),
        ({
            let r = (w & !low) | (v & low);
            &&& r & low == v & low
            &&& r & !0xffff_fc00_0000_0000u64 & !low == w & !0xffff_fc00_0000_0000u64 & !low
            &&& (w ^ r) & !low == 0
        }),
{
}

/// What replacing one field of a tagged word does to its fields, whatever
/// the low mask: the field holds the new value cut to its width, the offset
/// and the other tags stay, and no bit outside the field differs. The low tag
/// stays, and a new low tag leaves the tags alone, if the low mask lies below
/// the tags.
pub proof fn lemma_sets(word: u64, v: u64, low: u64)
    ensures
        sets_tid(word, spec_compose_tid(v, word), v, low),
        sets_high_tag(word, spec_compose_high_tag(v, word), v, low),
        sets_desc_bit(word, spec_compose_desc_bit(v, word), v, low),
        sets_aux_bit(word, spec_compose_aux_bit(v, word), v, low),
        sets_tag(word, spec_compose_tag(word, v, low), v, low),
{
    lemma_sets_bits(word, v, low);
    if low & TAGS_MASK == 0 {
        lemma_compose_fields(word, v, low);
    }
}

/// The round trip, field by field. Composing a word from an offset and five
/// tags, one after the other, and decomposing it gives the six back, whenever
/// each fits its place and the low mask lies below the tags.
pub proof fn lemma_compose_round_trip(
    aux: u64,
    desc: u64,
    tid: u64,
    high: u64,
    offset: u64,
    ltag: u64,
    low: u64,
)
    requires
        low & TAGS_MASK == 0,
        legal(Tagged { aux, desc, tid, high, offset, low: ltag }, low),
    ensures
        decode(
            spec_compose_aux_bit(
                aux,
                spec_compose_desc_bit(
                    desc,
                    spec_compose_tid(
                        tid,
                        spec_compose_high_tag(high, spec_compose_tag(offset, ltag, low)),
                    ),
                ),
            ),
            low,
        ) == (Tagged { aux, desc, tid, high, offset, low: ltag }),
{
    let w1 = spec_compose_tag(offset, ltag, low);
    let w2 = spec_compose_high_tag(high, w1);
    let w3 = spec_compose_tid(tid, w2);
    let w4 = spec_compose_desc_bit(desc, w3);
    lemma_plain_offset(offset, low);
    lemma_compose_fields(offset, ltag, low);
    lemma_compose_fields(w1, high, low);
    lemma_compose_fields(w2, tid, low);
    lemma_compose_fields(w3, desc, low);
    lemma_compose_fields(w4, aux, low);
    lemma_fits(aux, desc, tid, high, ltag, low);
}

proof fn lemma_fits(aux: u64, desc: u64, tid: u64, high: u64, ltag: u64, low: u64)
    by (bit_vector)
    requires
        aux <= 0x1,
        desc <= 0x1,
        tid <= 0x1ff,
        high <= 0x7ff,
        ltag & !low == 0,
    ensures
        aux & 0x1 == aux,
        desc & 0x1 == desc,
        tid & 0x1ff == tid,
        high & 0x7ff == high,
        ltag & low == ltag,
{
}

proof fn lemma_field_masks()
    by (bit_vector)
    ensures
        (0xffff_ffff_ffff_ffffu64 >> 0u32) ^ (0xffff_ffff_ffff_ffffu64 >> 1u32)
            == 0x8000_0000_0000_0000u64,
        (0xffff_ffff_ffff_ffffu64 >> 1u32) ^ (0xffff_ffff_ffff_ffffu64 >> 2u32)
            == 0x4000_0000_0000_0000u64,
        (0xffff_ffff_ffff_ffffu64 >> 2u32) ^ (0xffff_ffff_ffff_ffffu64 >> 11u32)
            == 0x3fe0_0000_0000_0000u64,
        (0xffff_ffff_ffff_ffffu64 >> 11u32) ^ (0xffff_ffff_ffff_ffffu64 >> 22u32)
            == 0x001f_fc00_0000_0000u64,
        !(0xffff_ffff_ffff_ffffu64 << 11u32) == 0x7ffu64,
        forall|raw: u64| #[trigger] (raw & 0x7ff) <= 0x7ff,
{
}

/// The mask of the auxiliary bit.
pub fn aux_bits() -> (m: u64)
    ensures
        m == AUX_MASK,
{
    proof {
        lemma_field_masks();
    }
    (u64::MAX >> POS_AUX_BITS) ^ (u64::MAX >> (POS_AUX_BITS + NR_AUX_BITS))
}

/// The mask of the descriptor bit.
pub fn desc_bits() -> (m: u64)
    ensures
        m == DESC_MASK,
{
    proof {
        lemma_field_masks();
    }
    (u64::MAX >> POS_DESC_BITS) ^ (u64::MAX >> (POS_DESC_BITS + NR_DESC_BITS))
}

/// The mask of the thread-id field.
pub fn tid_bits() -> (m: u64)
    ensures
        m == TID_MASK,
{
    proof {
        lemma_field_masks();
    }
    (u64::MAX >> POS_TID_BITS) ^ (u64::MAX >> (POS_TID_BITS + NR_TID_BITS))
}

/// The mask of the high tag.
pub fn high_bits() -> (m: u64)
    ensures
        m == HIGH_MASK,
{
    proof {
        lemma_field_masks();
    }
    (u64::MAX >> POS_HIGH_BITS) ^ (u64::MAX >> (POS_HIGH_BITS + NR_HIGH_BITS))
}

/// Keeps of `raw` what fits into a high tag: its low eleven bits.
pub fn cut_as_high_tag_len(raw: u64) -> (r: u64)
    ensures
        r == raw & 0x7ff,
        r <= 0x7ff,
{
    proof {
        lemma_field_masks();
    }
    raw & !(u64::MAX << NR_HIGH_BITS)
}

/// The mask of the bits that an aligned pointer to `T` leaves unused.
pub fn low_bits<T>() -> (m: u64)
    ensures
        m == low_mask_of::<T>(),
{
    broadcast use vstd::layout::align_nonzero;

    let align: usize = core::mem::align_of::<T>();
    (align - 1) as u64
}

/// Whether `offset` is a multiple of `T`'s alignment, so that it leaves the
/// low tag clear.
pub fn is_aligned<T>(offset: u64) -> (b: bool)
    ensures
        b == (offset & low_mask_of::<T>() == 0),
{
    offset & low_bits::<T>() == 0
}

/// `data` with its low tag replaced by `ltag`, which is cut to fit.
pub fn compose_tag<T>(data: u64, ltag: u64) -> (r: u64)
    ensures
        r == spec_compose_tag(data, ltag, low_mask_of::<T>()),
        sets_tag(data, r, ltag, low_mask_of::<T>()),
{
    proof {
        lemma_sets(data, ltag, low_mask_of::<T>());
    }
    let low = low_bits::<T>();
    (data & !low) | (ltag & low)
}

/// `data` with its thread id replaced by `tid`, which is cut to nine bits.
pub fn compose_tid(tid: u64, data: u64) -> (r: u64)
    ensures
        r == spec_compose_tid(tid, data),
        forall|low: u64| #[trigger] sets_tid(data, r, tid, low),
{
    let r = (tid_bits() & (tid << 53)) | (!tid_bits() & data);
    proof {
        assert forall|low: u64| #[trigger] sets_tid(data, r, tid, low) by {
            lemma_sets(data, tid, low);
        }
    }
    r
}

/// `data` with its high tag replaced by `htag`, which is cut to eleven bits.
pub fn compose_high_tag(htag: u64, data: u64) -> (r: u64)
    ensures
        r == spec_compose_high_tag(htag, data),
        forall|low: u64| #[trigger] sets_high_tag(data, r, htag, low),
{
    let r = (high_bits() & (htag << 42)) | (!high_bits() & data);
    proof {
        assert forall|low: u64| #[trigger] sets_high_tag(data, r, htag, low) by {
            lemma_sets(data, htag, low);
        }
    }
    r
}

/// `data` with its descriptor bit replaced by the lowest bit of `desc_bit`.
pub fn compose_desc_bit(desc_bit: u64, data: u64) -> (r: u64)
    ensures
        r == spec_compose_desc_bit(desc_bit, data),
        forall|low: u64| #[trigger] sets_desc_bit(data, r, desc_bit, low),
{
    let r = (desc_bits() & (desc_bit << 62)) | (!desc_bits() & data);
    proof {
        assert forall|low: u64| #[trigger] sets_desc_bit(data, r, desc_bit, low) by {
            lemma_sets(data, desc_bit, low);
        }
    }
    r
}

/// `data` with its auxiliary bit replaced by the lowest bit of `aux_bit`.
pub fn compose_aux_bit(aux_bit: u64, data: u64) -> (r: u64)
    ensures
        r == spec_compose_aux_bit(aux_bit, data),
        forall|low: u64| #[trigger] sets_aux_bit(data, r, aux_bit, low),
{
    let r = (aux_bits() & (aux_bit << 63)) | (!aux_bits() & data);
    proof {
        assert forall|low: u64| #[trigger] sets_aux_bit(data, r, aux_bit, low) by {
            lemma_sets(data, aux_bit, low);
        }
    }
    r
}

/// Splits a tagged word into (aux, desc, tid, high tag, offset, low tag).
pub fn decompose_tag<T>(data: u64) -> (r: (u64, u64, u64, u64, u64, u64))
    ensures
        r.0 == decode(data, low_mask_of::<T>()).aux,
        r.1 == decode(data, low_mask_of::<T>()).desc,
        r.2 == decode(data, low_mask_of::<T>()).tid,
        r.3 == decode(data, low_mask_of::<T>()).high,
        r.4 == decode(data, low_mask_of::<T>()).offset,
        r.5 == decode(data, low_mask_of::<T>()).low,
{
    let low = low_bits::<T>();
    (
        (data >> 63) & 0x1,
        (data >> 62) & 0x1,
        (data >> 53) & 0x1ff,
        (data >> 42) & 0x7ff,
        data & !TAGS_MASK & !low,
        data & low,
    )
}

/// How strongly an access to a persistent word is ordered against the
/// accesses around it.
#[derive(Clone, Copy, Debug, PartialEq, Eq, Structural)]
pub enum MemOrder {
    Relaxed,
    Release,
    Acquire,
    AcqRel,
    SeqCst,
}

/// The strongest ordering that a failed compare-exchange may have when its
/// success ordering is `ord`.
pub open spec fn spec_strongest_failure_ordering(ord: MemOrder) -> MemOrder {
    match ord {
        MemOrder::Relaxed | MemOrder::Release => MemOrder::Relaxed,
        MemOrder::Acquire | MemOrder::AcqRel => MemOrder::Acquire,
        MemOrder::SeqCst => MemOrder::SeqCst,
    }
}

/// The strongest ordering that a failed compare-exchange may have when its
/// success ordering is `ord`.
pub fn strongest_failure_ordering(ord: MemOrder) -> (r: MemOrder)
    ensures
        r == spec_strongest_failure_ordering(ord),
{
    match ord {
        MemOrder::Relaxed | MemOrder::Release => MemOrder::Relaxed,
        MemOrder::Acquire | MemOrder::AcqRel => MemOrder::Acquire,
        MemOrder::SeqCst => MemOrder::SeqCst,
    }
}

/// The two orderings of a compare-and-set: one for when it succeeds and one
/// for when it fails.
pub trait CompareAndSetOrdering {
    /// The ordering of the operation when it succeeds.
    spec fn spec_success(&self) -> MemOrder;

    /// The ordering of the operation when it fails.
    spec fn spec_failure(&self) -> MemOrder;

    /// The ordering of the operation when it succeeds.
    fn success(&self) -> (r: MemOrder)
        ensures
            r == self.spec_success(),
    ;

    /// The ordering of the operation when it fails.
    fn failure(&self) -> (r: MemOrder)
        ensures
            r == self.spec_failure(),
    ;
}

impl CompareAndSetOrdering for MemOrder {
    open spec fn spec_success(&self) -> MemOrder {
        *self
    }

    open spec fn spec_failure(&self) -> MemOrder {
        spec_strongest_failure_ordering(*self)
    }

    fn success(&self) -> (r: MemOrder) {
        *self
    }

    fn failure(&self) -> (r: MemOrder) {
        strongest_failure_ordering(*self)
    }
}

impl CompareAndSetOrdering for (MemOrder, MemOrder) {
    open spec fn spec_success(&self) -> MemOrder {
        self.0
    }

    open spec fn spec_failure(&self) -> MemOrder {
        self.1
    }

    fn success(&self) -> (r: MemOrder) {
        self.0
    }

    fn failure(&self) -> (r: MemOrder) {
        self.1
    }
}

/// A pointer that fits one word and can be stored into a `PAtomic`.
pub trait Pointer<T>: Sized {
    /// The word that stands for this pointer.
    spec fn spec_word(&self) -> u64;

    /// Whether `data` can stand for a pointer of this kind.
    spec fn admits(data: u64) -> bool;

    /// Gives up the pointer for the word that stands for it.
    fn into_usize(self) -> (data: u64)
        ensures
            data == self.spec_word(),
            Self::admits(data),
    ;

    /// The pointer that `data` stands for.
    fn from_usize(data: u64) -> (p: Self)
        requires
            Self::admits(data),
        ensures
            p.spec_word() == data,
    ;
}

/// A pointer to an object that is shared and protected by a pin.
pub struct PShared<'g, T> {
    data: u64,
    _marker: PhantomData<&'g T>,
}

impl<'g, T> View for PShared<'g, T> {
    type V = u64;

    closed spec fn view(&self) -> u64 {
        self.data
    }
}

impl<'g, T> Clone for PShared<'g, T> {
    fn clone(&self) -> (r: Self)
        ensures
            r == *self,
    {
        PShared { data: self.data, _marker: PhantomData }
    }
}

impl<'g, T> Copy for PShared<'g, T> {

}

impl<'g, T> PartialEq for PShared<'g, T> {
    /// Two pointers are equal if they are the same word, tags included.
    fn eq(&self, other: &Self) -> (r: bool) {
        self.data == other.data
    }
}

impl<'g, T> Eq for PShared<'g, T> {

}

impl<'g, T> vstd::std_specs::cmp::PartialEqSpecImpl for PShared<'g, T> {
    open spec fn obeys_eq_spec() -> bool {
        true
    }

    open spec fn eq_spec(&self, other: &Self) -> bool {
        self@ == other@
    }
}

impl<'g, T> Default for PShared<'g, T> {
    fn default() -> (p: Self)
        ensures
            p@ == NULL_OFFSET,
    {
        PShared::null()
    }
}

impl<'g, T> Pointer<T> for PShared<'g, T> {
    open spec fn spec_word(&self) -> u64 {
        self@
    }

    open spec fn admits(data: u64) -> bool {
        true
    }

    fn into_usize(self) -> (data: u64) {
        self.data
    }

    fn from_usize(data: u64) -> (p: Self) {
        PShared { data, _marker: PhantomData }
    }
}

impl<'g, T> PShared<'g, T> {
    /// The fields of this pointer.
    pub open spec fn fields(&self) -> Tagged {
        decode(self@, low_mask_of::<T>())
    }

    /// The null pointer, with every tag clear.
    pub fn null() -> (p: Self)
        ensures
            p@ == NULL_OFFSET,
    {
        PShared { data: NULL_OFFSET, _marker: PhantomData }
    }

    /// The pointer to the object at `ptr`, with every tag clear. The offset
    /// must be a multiple of `T`'s alignment.
    pub fn from_ptr(ptr: PoolPtr<T>) -> (p: Self)
        requires
            ptr@ & low_mask_of::<T>() == 0,
        ensures
            p@ == ptr@,
    {
        PShared { data: ptr.into_offset(), _marker: PhantomData }
    }

    /// The place of the pointee in the pool: the offset without any tag.
    pub fn as_ptr(&self) -> (ptr: PoolPtr<T>)
        ensures
            ptr@ == self.fields().offset,
    {
        let (_, _, _, _, offset, _) = decompose_tag::<T>(self.data);
        PoolPtr::from(offset)
    }

    /// Whether the offset is null, whatever the tags say.
    pub fn is_null(&self) -> (b: bool)
        ensures
            b == (self.fields().offset == NULL_OFFSET),
    {
        let (_, _, _, _, offset, _) = decompose_tag::<T>(self.data);
        offset == NULL_OFFSET
    }

    /// Turns the pointer into an owning one. The word must not be zero.
    pub fn into_owned(self) -> (o: POwned<T>)
        requires
            self@ != 0,
        ensures
            o@ == self@,
    {
        POwned { data: self.data, _marker: PhantomData }
    }

    /// The low tag.
    pub fn tag(&self) -> (t: u64)
        ensures
            t == self.fields().low,
    {
        let (_, _, _, _, _, tag) = decompose_tag::<T>(self.data);
        tag
    }

    /// The auxiliary bit.
    pub fn aux_bit(&self) -> (b: u64)
        ensures
            b == self.fields().aux,
    {
        let (aux_bit, _, _, _, _, _) = decompose_tag::<T>(self.data);
        aux_bit
    }

    /// The descriptor bit.
    pub fn desc_bit(&self) -> (b: u64)
        ensures
            b == self.fields().desc,
    {
        let (_, desc_bit, _, _, _, _) = decompose_tag::<T>(self.data);
        desc_bit
    }

    /// The thread id.
    pub fn tid(&self) -> (t: u64)
        ensures
            t == self.fields().tid,
    {
        let (_, _, tid, _, _, _) = decompose_tag::<T>(self.data);
        tid
    }

    /// The high tag.
    pub fn high_tag(&self) -> (t: u64)
        ensures
            t == self.fields().high,
    {
        let (_, _, _, tag, _, _) = decompose_tag::<T>(self.data);
        tag
    }

    /// The same pointer with the low tag `tag`, cut to the bits that `T`'s
    /// alignment leaves unused.
    pub fn with_tag(&self, tag: u64) -> (p: PShared<'g, T>)
        ensures
            p@ == spec_compose_tag(self@, tag, low_mask_of::<T>()),
            sets_tag(self@, p@, tag, low_mask_of::<T>()),
    {
        PShared { data: compose_tag::<T>(self.data, tag), _marker: PhantomData }
    }

    /// The same pointer with the auxiliary bit set to the lowest bit of
    /// `aux_bit`.
    pub fn with_aux_bit(&self, aux_bit: u64) -> (p: PShared<'g, T>)
        ensures
            p@ == spec_compose_aux_bit(aux_bit, self@),
            sets_aux_bit(self@, p@, aux_bit, low_mask_of::<T>()),
    {
        PShared { data: compose_aux_bit(aux_bit, self.data), _marker: PhantomData }
    }

    /// The same pointer with the descriptor bit set to the lowest bit of
    /// `desc_bit`.
    pub fn with_desc_bit(&self, desc_bit: u64) -> (p: PShared<'g, T>)
        ensures
            p@ == spec_compose_desc_bit(desc_bit, self@),
            sets_desc_bit(self@, p@, desc_bit, low_mask_of::<T>()),
    {
        PShared { data: compose_desc_bit(desc_bit, self.data), _marker: PhantomData }
    }

    /// The same pointer with the thread id `tid`, cut to nine bits.
    pub fn with_tid(&self, tid: u64) -> (p: PShared<'g, T>)
        ensures
            p@ == spec_compose_tid(tid, self@),
            sets_tid(self@, p@, tid, low_mask_of::<T>()),
    {
        PShared { data: compose_tid(tid, self.data), _marker: PhantomData }
    }

    /// The same pointer with the high tag `tag`, cut to eleven bits.
    pub fn with_high_tag(&self, tag: u64) -> (p: PShared<'g, T>)
        ensures
            p@ == spec_compose_high_tag(tag, self@),
            sets_high_tag(self@, p@, tag, low_mask_of::<T>()),
    {
        PShared { data: compose_high_tag(tag, self.data), _marker: PhantomData }
    }

    /// The pointee. It must be alive in `pool`.
    pub fn deref<'a>(&self, pool: &'a Pool<T>) -> (t: &'a T)
        requires
            pool.wf(),
            pool.contains(self.fields().offset),
        ensures
            *t == pool.object(self.fields().offset),
    {
        let ptr = self.as_ptr();
        pool.deref(&ptr).unwrap()
    }

    /// The pointee, for changing it in place. It must be alive in `pool`.
    pub fn deref_mut<'a>(&mut self, pool: &'a mut Pool<T>) -> (t: &'a mut T)
        requires
            old(pool).wf(),
            old(pool).contains(old(self).fields().offset),
        ensures
            *final(self) == *old(self),
            *t == old(pool).object(old(self).fields().offset),
            final(pool).wf(),
            final(pool).differs_at(old(pool), old(self).fields().offset),
            final(pool).contains(old(self).fields().offset),
            final(pool).object(old(self).fields().offset) == *final(t),
    {
        let ptr = self.as_ptr();
        pool.deref_mut(&ptr)
    }

    /// The pointee, or `None` when the pointer is null or nothing lives at
    /// its offset in `pool`.
    pub fn as_ref<'a>(&self, pool: &'a Pool<T>) -> (r: Option<&'a T>)
        requires
            pool.wf(),
        ensures
            match r {
                Some(t) => pool.contains(self.fields().offset) && *t == pool.object(
                    self.fields().offset,
                ),
                None => !pool.contains(self.fields().offset),
            },
    {
        let ptr = self.as_ptr();
        pool.deref(&ptr)
    }
}

/// A pointer that owns its pointee.
pub struct POwned<T> {
    data: u64,
    _marker: PhantomData<T>,
}

impl<T> View for POwned<T> {
    type V = u64;

    closed spec fn view(&self) -> u64 {
        self.data
    }
}

impl<T> Pointer<T> for POwned<T> {
    open spec fn spec_word(&self) -> u64 {
        self@
    }

    open spec fn admits(data: u64) -> bool {
        true
    }

    fn into_usize(self) -> (data: u64) {
        self.data
    }

    fn from_usize(data: u64) -> (p: Self) {
        POwned { data, _marker: PhantomData }
    }
}

impl<T> POwned<T> {
    /// The fields of this pointer.
    pub open spec fn fields(&self) -> Tagged {
        decode(self@, low_mask_of::<T>())
    }

    /// The owning pointer to the object at `ptr`, with every tag clear. The
    /// offset must be a multiple of `T`'s alignment.
    pub fn from_ptr(ptr: PoolPtr<T>) -> (o: POwned<T>)
        requires
            ptr@ & low_mask_of::<T>() == 0,
        ensures
            o@ == ptr@,
    {
        POwned { data: ptr.into_offset(), _marker: PhantomData }
    }

    /// Puts `init` into `pool` and returns the pointer that owns it, with
    /// every tag clear. Fails with `OutOfPool` when the pool is full.
    pub fn new(init: T, pool: &mut Pool<T>) -> (r: Result<POwned<T>, PoolError>)
        requires
            old(pool).wf(),
        ensures
            final(pool).wf(),
            match r {
                Ok(o) => {
                    &&& o.fields() == (Tagged {
                        aux: 0,
                        desc: 0,
                        tid: 0,
                        high: 0,
                        offset: o@,
                        low: 0,
                    })
                    &&& final(pool).grown_by(old(pool), o@, init)
                },
                Err(e) => {
                    &&& e == PoolError::OutOfPool
                    &&& *final(pool) == *old(pool)
                    &&& old(pool).is_full()
                },
            },
    {
        Self::init(init, pool)
    }

    /// Puts `init` into `pool` and returns the pointer that owns it, with
    /// every tag clear. Fails with `OutOfPool` when the pool is full.
    pub fn init(init: T, pool: &mut Pool<T>) -> (r: Result<POwned<T>, PoolError>)
        requires
            old(pool).wf(),
        ensures
            final(pool).wf(),
            match r {
                Ok(o) => {
                    &&& o.fields() == (Tagged {
                        aux: 0,
                        desc: 0,
                        tid: 0,
                        high: 0,
                        offset: o@,
                        low: 0,
                    })
                    &&& final(pool).grown_by(old(pool), o@, init)
                },
                Err(e) => {
                    &&& e == PoolError::OutOfPool
                    &&& *final(pool) == *old(pool)
                    &&& old(pool).is_full()
                },
            },
    {
        match pool.allocate(init) {
            Ok(ptr) => {
                let data = ptr.into_offset();
                proof {
                    pool.lemma_wf_granule();
                    lemma_plain_offset(data, low_mask_of::<T>());
                }
                Ok(POwned { data, _marker: PhantomData })
            },
            Err(e) => Err(e),
        }
    }

    /// Turns the pointer into a shared one that lives as long as `guard`.
    pub fn into_shared<'g>(self, guard: &'g Guard) -> (p: PShared<'g, T>)
        ensures
            p@ == self@,
    {
        PShared { data: self.data, _marker: PhantomData }
    }

    /// The low tag.
    pub fn tag(&self) -> (t: u64)
        ensures
            t == self.fields().low,
    {
        let (_, _, _, _, _, tag) = decompose_tag::<T>(self.data);
        tag
    }

    /// The auxiliary bit.
    pub fn aux_bit(&self) -> (b: u64)
        ensures
            b == self.fields().aux,
    {
        let (aux_bit, _, _, _, _, _) = decompose_tag::<T>(self.data);
        aux_bit
    }

    /// The descriptor bit.
    pub fn desc_bit(&self) -> (b: u64)
        ensures
            b == self.fields().desc,
    {
        let (_, desc_bit, _, _, _, _) = decompose_tag::<T>(self.data);
        desc_bit
    }

    /// The thread id.
    pub fn tid(&self) -> (t: u64)
        ensures
            t == self.fields().tid,
    {
        let (_, _, tid, _, _, _) = decompose_tag::<T>(self.data);
        tid
    }

    /// The high tag.
    pub fn high_tag(&self) -> (t: u64)
        ensures
            t == self.fields().high,
    {
        let (_, _, _, tag, _, _) = decompose_tag::<T>(self.data);
        tag
    }

    /// The same pointer with the low tag `tag`, cut to the bits that `T`'s
    /// alignment leaves unused.
    pub fn with_tag(self, tag: u64) -> (o: POwned<T>)
        ensures
            o@ == spec_compose_tag(self@, tag, low_mask_of::<T>()),
            sets_tag(self@, o@, tag, low_mask_of::<T>()),
    {
        POwned { data: compose_tag::<T>(self.data, tag), _marker: PhantomData }
    }

    /// The same pointer with the auxiliary bit set to the lowest bit of
    /// `aux_bit`.
    pub fn with_aux_bit(self, aux_bit: u64) -> (o: POwned<T>)
        ensures
            o@ == spec_compose_aux_bit(aux_bit, self@),
            sets_aux_bit(self@, o@, aux_bit, low_mask_of::<T>()),
    {
        POwned { data: compose_aux_bit(aux_bit, self.data), _marker: PhantomData }
    }

    /// A pointer to the same object with the descriptor bit set to the lowest
    /// bit of `desc_bit`.
    pub fn with_desc_bit(&self, desc_bit: u64) -> (o: POwned<T>)
        ensures
            o@ == spec_compose_desc_bit(desc_bit, self@),
            sets_desc_bit(self@, o@, desc_bit, low_mask_of::<T>()),
    {
        POwned { data: compose_desc_bit(desc_bit, self.data), _marker: PhantomData }
    }

    /// The same pointer with the thread id `tid`, cut to nine bits.
    pub fn with_tid(self, tid: u64) -> (o: POwned<T>)
        ensures
            o@ == spec_compose_tid(tid, self@),
            sets_tid(self@, o@, tid, low_mask_of::<T>()),
    {
        POwned { data: compose_tid(tid, self.data), _marker: PhantomData }
    }

    /// The same pointer with the high tag `tag`, cut to eleven bits.
    pub fn with_high_tag(self, tag: u64) -> (o: POwned<T>)
        ensures
            o@ == spec_compose_high_tag(tag, self@),
            sets_high_tag(self@, o@, tag, low_mask_of::<T>()),
    {
        POwned { data: compose_high_tag(tag, self.data), _marker: PhantomData }
    }

    /// The pointee. It must be alive in `pool`.
    pub fn deref<'a>(&self, pool: &'a Pool<T>) -> (t: &'a T)
        requires
            pool.wf(),
            pool.contains(self.fields().offset),
        ensures
            *t == pool.object(self.fields().offset),
    {
        let (_, _, _, _, offset, _) = decompose_tag::<T>(self.data);
        pool.deref(&PoolPtr::from(offset)).unwrap()
    }

    /// The pointee, for changing it in place. It must be alive in `pool`.
    pub fn deref_mut<'a>(&mut self, pool: &'a mut Pool<T>) -> (t: &'a mut T)
        requires
            old(pool).wf(),
            old(pool).contains(old(self).fields().offset),
        ensures
            *final(self) == *old(self),
            *t == old(pool).object(old(self).fields().offset),
            final(pool).wf(),
            final(pool).differs_at(old(pool), old(self).fields().offset),
            final(pool).contains(old(self).fields().offset),
            final(pool).object(old(self).fields().offset) == *final(t),
    {
        let (_, _, _, _, offset, _) = decompose_tag::<T>(self.data);
        pool.deref_mut(&PoolPtr::from(offset))
    }

    /// The pointee. It must be alive in `pool`.
    pub fn borrow<'a>(&self, pool: &'a Pool<T>) -> (t: &'a T)
        requires
            pool.wf(),
            pool.contains(self.fields().offset),
        ensures
            *t == pool.object(self.fields().offset),
    {
        self.deref(pool)
    }

    /// The pointee. It must be alive in `pool`.
    pub fn as_ref<'a>(&self, pool: &'a Pool<T>) -> (t: &'a T)
        requires
            pool.wf(),
            pool.contains(self.fields().offset),
        ensures
            *t == pool.object(self.fields().offset),
    {
        self.deref(pool)
    }

    /// Gives the pointee back to `pool`.
    pub fn free(self, pool: &mut Pool<T>)
        requires
            old(pool).wf(),
        ensures
            final(pool).wf(),
            final(pool).differs_at(old(pool), self.fields().offset),
            !final(pool).contains(self.fields().offset),
    {
        let (_, _, _, _, offset, _) = decompose_tag::<T>(self.data);
        pool.free(PoolPtr::from(offset))
    }
}

/// What a failed compare-exchange hands back.
pub struct CompareExchangeError<'g, T, P: Pointer<T>> {
    /// The value that the word held when the operation failed.
    pub current: PShared<'g, T>,
    /// The value that the operation failed to store.
    pub new: P,
}

/// A persistent word that holds a tagged pointer.
///
/// The word has two values: the one that loads observe, and the one that has
/// reached persistence and that a crash leaves behind. Stores change the
/// first; `persist` copies it to the second; `crash` throws the first away.
pub struct PAtomic<T> {
    data: u64,
    durable: u64,
    _marker: PhantomData<T>,
}

impl<T> View for PAtomic<T> {
    type V = u64;

    /// The value that loads observe.
    closed spec fn view(&self) -> u64 {
        self.data
    }
}

impl<T> PAtomic<T> {
    /// The value that a crash would leave behind.
    pub closed spec fn durable(&self) -> u64 {
        self.durable
    }

    /// The flushed word that holds `data`.
    pub closed spec fn spec_flushed(data: u64) -> Self {
        PAtomic { data, durable: data, _marker: PhantomData }
    }

    /// Puts `init` into `pool` and returns a flushed word that points to it,
    /// with every tag clear. Fails with `OutOfPool` when the pool is full.
    pub fn new(init: T, pool: &mut Pool<T>) -> (r: Result<PAtomic<T>, PoolError>)
        requires
            old(pool).wf(),
        ensures
            final(pool).wf(),
            match r {
                Ok(a) => {
                    &&& decode(a@, low_mask_of::<T>()) == (Tagged {
                        aux: 0,
                        desc: 0,
                        tid: 0,
                        high: 0,
                        offset: a@,
                        low: 0,
                    })
                    &&& a.durable() == a@
                    &&& final(pool).grown_by(old(pool), a@, init)
                },
                Err(e) => {
                    &&& e == PoolError::OutOfPool
                    &&& *final(pool) == *old(pool)
                    &&& old(pool).is_full()
                },
            },
    {
        Self::init(init, pool)
    }

    /// Puts `init` into `pool` and returns a flushed word that points to it,
    /// with every tag clear. Fails with `OutOfPool` when the pool is full.
    pub fn init(init: T, pool: &mut Pool<T>) -> (r: Result<PAtomic<T>, PoolError>)
        requires
            old(pool).wf(),
        ensures
            final(pool).wf(),
            match r {
                Ok(a) => {
                    &&& decode(a@, low_mask_of::<T>()) == (Tagged {
                        aux: 0,
                        desc: 0,
                        tid: 0,
                        high: 0,
                        offset: a@,
                        low: 0,
                    })
                    &&& a.durable() == a@
                    &&& final(pool).grown_by(old(pool), a@, init)
                },
                Err(e) => {
                    &&& e == PoolError::OutOfPool
                    &&& *final(pool) == *old(pool)
                    &&& old(pool).is_full()
                },
            },
    {
        match POwned::init(init, pool) {
            Ok(owned) => Ok(Self::from_owned(owned)),
            Err(e) => Err(e),
        }
    }

    /// A flushed word that holds `data`.
    pub fn from_usize(data: u64) -> (a: Self)
        ensures
            a == Self::spec_flushed(data),
            a@ == data,
            a.durable() == data,
    {
        PAtomic { data, durable: data, _marker: PhantomData }
    }

    /// A flushed word that holds the null pointer.
    pub fn null() -> (a: PAtomic<T>)
        ensures
            a@ == NULL_OFFSET,
            a.durable() == NULL_OFFSET,
    {
        PAtomic { data: NULL_OFFSET, durable: NULL_OFFSET, _marker: PhantomData }
    }

    /// A flushed word that holds `owned`.
    pub fn from_owned(owned: POwned<T>) -> (a: Self)
        ensures
            a == Self::spec_flushed(owned@),
            a@ == owned@,
            a.durable() == owned@,
    {
        Self::from_usize(owned.into_usize())
    }

    /// A flushed word that holds `ptr`.
    pub fn from_shared<'g>(ptr: PShared<'g, T>) -> (a: Self)
        ensures
            a == Self::spec_flushed(ptr@),
            a@ == ptr@,
            a.durable() == ptr@,
    {
        Self::from_usize(ptr.into_usize())
    }

    /// A flushed word that holds the offset of `ptr`.
    pub fn from_ptr(ptr: PoolPtr<T>) -> (a: Self)
        ensures
            a == Self::spec_flushed(ptr@),
            a@ == ptr@,
            a.durable() == ptr@,
    {
        Self::from_usize(ptr.into_offset())
    }

    /// The pointer that the word holds.
    pub fn load<'g>(&self, ord: MemOrder, guard: &'g Guard) -> (p: PShared<'g, T>)
        ensures
            p@ == self@,
    {
        PShared::from_usize(self.data)
    }

    /// The pointer that the word holds, for uses that depend on the loaded
    /// value only.
    pub fn load_consume<'g>(&self, guard: &'g Guard) -> (p: PShared<'g, T>)
        ensures
            p@ == self@,
    {
        PShared::from_usize(self.data)
    }

    /// Stores `new` into the word. What is durable stays.
    pub fn store<P: Pointer<T>>(&mut self, new: P, ord: MemOrder)
        ensures
            final(self)@ == new.spec_word(),
            final(self).durable() == old(self).durable(),
    {
        self.data = new.into_usize();
    }

    /// Stores `new` into the word and returns what it held. What is durable
    /// stays.
    pub fn swap<'g, P: Pointer<T>>(&mut self, new: P, ord: MemOrder, guard: &'g Guard) -> (p:
        PShared<'g, T>)
        ensures
            p@ == old(self)@,
            final(self)@ == new.spec_word(),
            final(self).durable() == old(self).durable(),
    {
        let prev = self.data;
        self.data = new.into_usize();
        PShared::from_usize(prev)
    }

    /// Stores `new` into the word if it holds `current`, tags included, and
    /// returns the pointer that was written. If the word holds anything else
    /// it stays as it is, and what it holds comes back together with `new`.
    /// What is durable stays either way.
    pub fn compare_exchange<'g, P: Pointer<T>>(
        &mut self,
        current: PShared<'_, T>,
        new: P,
        success: MemOrder,
        failure: MemOrder,
        guard: &'g Guard,
    ) -> (r: Result<PShared<'g, T>, CompareExchangeError<'g, T, P>>)
        ensures
            final(self).durable() == old(self).durable(),
            match r {
                Ok(p) => {
                    &&& old(self)@ == current@
                    &&& p@ == new.spec_word()
                    &&& final(self)@ == new.spec_word()
                },
                Err(e) => {
                    &&& old(self)@ != current@
                    &&& e.current@ == old(self)@
                    &&& e.new.spec_word() == new.spec_word()
                    &&& final(self)@ == old(self)@
                },
            },
    {
        let new = new.into_usize();
        let held = self.data;
        if held == current.into_usize() {
            self.data = new;
            Ok(PShared::from_usize(new))
        } else {
            Err(CompareExchangeError { current: PShared::from_usize(held), new: P::from_usize(new) })
        }
    }

    /// As `compare_exchange`. A word that one thread has to itself never
    /// fails without cause, so the two agree.
    pub fn compare_exchange_weak<'g, P: Pointer<T>>(
        &mut self,
        current: PShared<'_, T>,
        new: P,
        success: MemOrder,
        failure: MemOrder,
        guard: &'g Guard,
    ) -> (r: Result<PShared<'g, T>, CompareExchangeError<'g, T, P>>)
        ensures
            final(self).durable() == old(self).durable(),
            match r {
                Ok(p) => {
                    &&& old(self)@ == current@
                    &&& p@ == new.spec_word()
                    &&& final(self)@ == new.spec_word()
                },
                Err(e) => {
                    &&& old(self)@ != current@
                    &&& e.current@ == old(self)@
                    &&& e.new.spec_word() == new.spec_word()
                    &&& final(self)@ == old(self)@
                },
            },
    {
        self.compare_exchange(current, new, success, failure, guard)
    }

    /// Applies `func` to the pointer that the word holds. If it answers with
    /// a new pointer, that is stored and returned; if it answers `None`, the
    /// word stays and what it holds comes back as the error.
    pub fn fetch_update<'g, F>(
        &mut self,
        set_order: MemOrder,
        fail_order: MemOrder,
        guard: &'g Guard,
        func: F,
    ) -> (r: Result<PShared<'g, T>, PShared<'g, T>>) where
        F: FnOnce(PShared<'g, T>) -> Option<PShared<'g, T>>,

        requires
            forall|p: PShared<'g, T>| p@ == old(self)@ ==> func.requires((p,)),
        ensures
            final(self).durable() == old(self).durable(),
            match r {
                Ok(next) => {
                    &&& exists|p: PShared<'g, T>|
                        p@ == old(self)@ && #[trigger] func.ensures((p,), Some(next))
                    &&& final(self)@ == next@
                },
                Err(prev) => {
                    &&& prev@ == old(self)@
                    &&& func.ensures((prev,), None)
                    &&& final(self)@ == old(self)@
                },
            },
    {
        let prev = self.load(fail_order, guard);
        match func(prev) {
            Some(next) => {
                self.data = next.into_usize();
                Ok(next)
            },
            None => Err(prev),
        }
    }

    /// As `compare_exchange`, with both orderings taken from `ord`.
    pub fn compare_and_set<'g, O: CompareAndSetOrdering, P: Pointer<T>>(
        &mut self,
        current: PShared<'_, T>,
        new: P,
        ord: O,
        guard: &'g Guard,
    ) -> (r: Result<PShared<'g, T>, CompareExchangeError<'g, T, P>>)
        ensures
            final(self).durable() == old(self).durable(),
            match r {
                Ok(p) => {
                    &&& old(self)@ == current@
                    &&& p@ == new.spec_word()
                    &&& final(self)@ == new.spec_word()
                },
                Err(e) => {
                    &&& old(self)@ != current@
                    &&& e.current@ == old(self)@
                    &&& e.new.spec_word() == new.spec_word()
                    &&& final(self)@ == old(self)@
                },
            },
    {
        self.compare_exchange(current, new, ord.success(), ord.failure(), guard)
    }

    /// As `compare_exchange_weak`, with both orderings taken from `ord`.
    pub fn compare_and_set_weak<'g, O: CompareAndSetOrdering, P: Pointer<T>>(
        &mut self,
        current: PShared<'_, T>,
        new: P,
        ord: O,
        guard: &'g Guard,
    ) -> (r: Result<PShared<'g, T>, CompareExchangeError<'g, T, P>>)
        ensures
            final(self).durable() == old(self).durable(),
            match r {
                Ok(p) => {
                    &&& old(self)@ == current@
                    &&& p@ == new.spec_word()
                    &&& final(self)@ == new.spec_word()
                },
                Err(e) => {
                    &&& old(self)@ != current@
                    &&& e.current@ == old(self)@
                    &&& e.new.spec_word() == new.spec_word()
                    &&& final(self)@ == old(self)@
                },
            },
    {
        self.compare_exchange_weak(current, new, ord.success(), ord.failure(), guard)
    }

    /// Replaces the low tag by its bitwise "and" with `val` and returns what
    /// the word held. Everything above the low tag stays.
    pub fn fetch_and<'g>(&mut self, val: u64, ord: MemOrder, guard: &'g Guard) -> (p: PShared<
        'g,
        T,
    >)
        ensures
            p@ == old(self)@,
            final(self)@ == old(self)@ & (val | !low_mask_of::<T>()),
            final(self).durable() == old(self).durable(),
    {
        let prev = self.data;
        self.data = prev & (val | !low_bits::<T>());
        PShared::from_usize(prev)
    }

    /// Replaces the low tag by its bitwise "or" with `val` and returns what
    /// the word held. Everything above the low tag stays.
    pub fn fetch_or<'g>(&mut self, val: u64, ord: MemOrder, guard: &'g Guard) -> (p: PShared<
        'g,
        T,
    >)
        ensures
            p@ == old(self)@,
            final(self)@ == old(self)@ | (val & low_mask_of::<T>()),
            final(self).durable() == old(self).durable(),
    {
        let prev = self.data;
        self.data = prev | (val & low_bits::<T>());
        PShared::from_usize(prev)
    }

    /// Replaces the low tag by its bitwise "xor" with `val` and returns what
    /// the word held. Everything above the low tag stays.
    pub fn fetch_xor<'g>(&mut self, val: u64, ord: MemOrder, guard: &'g Guard) -> (p: PShared<
        'g,
        T,
    >)
        ensures
            p@ == old(self)@,
            final(self)@ == old(self)@ ^ (val & low_mask_of::<T>()),
            final(self).durable() == old(self).durable(),
    {
        let prev = self.data;
        self.data = prev ^ (val & low_bits::<T>());
        PShared::from_usize(prev)
    }

    /// Gives up the word for an owning pointer to what it points to. The
    /// word must not be zero.
    pub fn into_owned(self) -> (o: POwned<T>)
        requires
            self@ != 0,
        ensures
            o@ == self@,
    {
        POwned::from_usize(self.data)
    }

    /// Flushes the word: what it holds becomes durable.
    pub fn persist(&mut self)
        ensures
            final(self)@ == old(self)@,
            final(self).durable() == old(self)@,
    {
        self.durable = self.data;
    }

    /// What a crash does to the word: it holds again what was durable.
    pub fn crash(&mut self)
        ensures
            final(self)@ == old(self).durable(),
            final(self).durable() == old(self).durable(),
    {
        self.data = self.durable;
    }

    /// Whether a crash would leave the word as it is.
    pub fn is_persisted(&self) -> (b: bool)
        ensures
            b == (self@ == self.durable()),
    {
        self.data == self.durable
    }
}

impl<T> From<POwned<T>> for PAtomic<T> {
    /// A flushed word that holds `owned`.
    fn from(owned: POwned<T>) -> (a: Self) {
        PAtomic::from_owned(owned)
    }
}

impl<T> vstd::std_specs::convert::FromSpecImpl<POwned<T>> for PAtomic<T> {
    open spec fn obeys_from_spec() -> bool {
        true
    }

    open spec fn from_spec(owned: POwned<T>) -> Self {
        PAtomic::spec_flushed(owned@)
    }
}

impl<'g, T> From<PShared<'g, T>> for PAtomic<T> {
    /// A flushed word that holds `ptr`.
    fn from(ptr: PShared<'g, T>) -> (a: Self) {
        PAtomic::from_shared(ptr)
    }
}

impl<'g, T> vstd::std_specs::convert::FromSpecImpl<PShared<'g, T>> for PAtomic<T> {
    open spec fn obeys_from_spec() -> bool {
        true
    }

    open spec fn from_spec(ptr: PShared<'g, T>) -> Self {
        PAtomic::spec_flushed(ptr@)
    }
}

impl<T> From<PoolPtr<T>> for PAtomic<T> {
    /// A flushed word that holds the offset of `ptr`.
    fn from(ptr: PoolPtr<T>) -> (a: Self) {
        PAtomic::from_ptr(ptr)
    }
}

impl<T> vstd::std_specs::convert::FromSpecImpl<PoolPtr<T>> for PAtomic<T> {
    open spec fn obeys_from_spec() -> bool {
        true
    }

    open spec fn from_spec(ptr: PoolPtr<T>) -> Self {
        PAtomic::spec_flushed(ptr@)
    }
}

impl<T> Clone for PAtomic<T> {
    /// A copy of the word: it holds and has durable what this one has.
    fn clone(&self) -> (r: Self)
        ensures
            r@ == self@,
            r.durable() == self.durable(),
    {
        PAtomic { data: self.data, durable: self.durable, _marker: PhantomData }
    }
}

impl<T> Default for PAtomic<T> {
    fn default() -> (a: Self)
        ensures
            a@ == NULL_OFFSET,
            a.durable() == NULL_OFFSET,
    {
        PAtomic::null()
    }
}

/// An offset with no tag and inside the offset field decodes to itself.
pub proof fn lemma_plain_offset(offset: u64, low: u64)
    requires
        offset & (TAGS_MASK | low) == 0,
    ensures
        decode(offset, low) == (Tagged {
            aux: 0,
            desc: 0,
            tid: 0,
            high: 0,
            offset: offset,
            low: 0,
        }),
{
    lemma_plain_offset_bits(offset, low);
}

proof fn lemma_plain_offset_bits(w: u64, low: u64)
    by (bit_vector)
    requires
        w & (0xffff_fc00_0000_0000u64 | low) == 0,
    ensures
        (w >> 63) & 0x1 == 0,
        (w >> 62) & 0x1 == 0,
        (w >> 53) & 0x1ff == 0,
        (w >> 42) & 0x7ff == 0,
        w & !0xffff_fc00_0000_0000u64 & !low == w,
        w & low == 0,
{
}

/// Encoding the fields of a tagged word and decoding the result gives the
/// fields back, whenever each field fits its place and the low tag lies below
/// the high tag.
pub proof fn lemma_decode_encode(t: Tagged, low: u64)
    requires
        legal(t, low),
        low & TAGS_MASK == 0,
    ensures
        decode(encode(t), low) == t,
{
    lemma_round_trip_bits(t.aux, t.desc, t.tid, t.high, t.offset, t.low, low);
}

/// Decoding a word and encoding its fields gives the word back, and the
/// fields of any word fit their places.
pub proof fn lemma_encode_decode(word: u64, low: u64)
    ensures
        encode(decode(word, low)) == word,
        legal(decode(word, low), low),
{
    lemma_decode_bits(word, low);
}

/// Replacing one tag of a word leaves every other field as it was, and the
/// replaced field holds the new value cut to the field's width.
pub proof fn lemma_compose_fields(word: u64, v: u64, low: u64)
    requires
        low & TAGS_MASK == 0,
    ensures
        decode(spec_compose_tag(word, v, low), low) == (Tagged {
            low: v & low,
            ..decode(word, low)
        }),
        decode(spec_compose_tid(v, word), low) == (Tagged {
            tid: v & 0x1ff,
            ..decode(word, low)
        }),
        decode(spec_compose_high_tag(v, word), low) == (Tagged {
            high: v & 0x7ff,
            ..decode(word, low)
        }),
        decode(spec_compose_desc_bit(v, word), low) == (Tagged {
            desc: v & 0x1,
            ..decode(word, low)
        }),
        decode(spec_compose_aux_bit(v, word), low) == (Tagged {
            aux: v & 0x1,
            ..decode(word, low)
        }),
{
    lemma_compose_low_bits(word, v, low);
    lemma_compose_tid_bits(word, v, low);
    lemma_compose_high_bits(word, v, low);
    lemma_compose_desc_bits(word, v, low);
    lemma_compose_aux_bits(word, v, low);
}

proof fn lemma_round_trip_bits(aux: u64, desc: u64, tid: u64, high: u64, offset: u64, lo: u64, low: u64)
    by (bit_vector)
    requires
        aux <= 0x1,
        desc <= 0x1,
        tid <= 0x1ff,
        high <= 0x7ff,
        offset & (0xffff_fc00_0000_0000u64 | low) == 0,
        lo & !low == 0,
        low & 0xffff_fc00_0000_0000u64 == 0,
    ensures
        ({
            let w = (aux << 63) | (desc << 62) | (tid << 53) | (high << 42) | offset | lo;
            &&& (w >> 63) & 0x1 == aux
            &&& (w >> 62) & 0x1 == desc
            &&& (w >> 53) & 0x1ff == tid
            &&& (w >> 42) & 0x7ff == high
            &&& w & !0xffff_fc00_0000_0000u64 & !low == offset
            &&& w & low == lo
        }),
{
}

proof fn lemma_decode_bits(w: u64, low: u64)
    by (bit_vector)
    ensures
        ((((w >> 63) & 0x1) << 63) | (((w >> 62) & 0x1) << 62) | (((w >> 53) & 0x1ff) << 53) | (((w
            >> 42) & 0x7ff) << 42) | (w & !0xffff_fc00_0000_0000u64 & !low) | (w & low)) == w,
        (w >> 63) & 0x1 <= 0x1,
        (w >> 62) & 0x1 <= 0x1,
        (w >> 53) & 0x1ff <= 0x1ff,
        (w >> 42) & 0x7ff <= 0x7ff,
        (w & !0xffff_fc00_0000_0000u64 & !low) & (0xffff_fc00_0000_0000u64 | low) == 0,
        (w & low) & !low == 0,
{
}

proof fn lemma_compose_low_bits(w: u64, v: u64, low: u64)
    by (bit_vector)
    requires
        low & 0xffff_fc00_0000_0000u64 == 0,
    ensures
        ({
            let r = (w & !low) | (v & low);
            &&& (r >> 63) & 0x1 == (w >> 63) & 0x1
            &&& (r >> 62) & 0x1 == (w >> 62) & 0x1
            &&& (r >> 53) & 0x1ff == (w >> 53) & 0x1ff
            &&& (r >> 42) & 0x7ff == (w >> 42) & 0x7ff
            &&& r & !0xffff_fc00_0000_0000u64 & !low == w & !0xffff_fc00_0000_0000u64 & !low
            &&& r & low == v & low
        }),
{
}

proof fn lemma_compose_tid_bits(w: u64, v: u64, low: u64)
    by (bit_vector)
    requires
        low & 0xffff_fc00_0000_0000u64 == 0,
    ensures
        ({
            let r = (0x3fe0_0000_0000_0000u64 & (v << 53)) | (!0x3fe0_0000_0000_0000u64 & w);
            &&& (r >> 63) & 0x1 == (w >> 63) & 0x1
            &&& (r >> 62) & 0x1 == (w >> 62) & 0x1
            &&& (r >> 53) & 0x1ff == v & 0x1ff
            &&& (r >> 42) & 0x7ff == (w >> 42) & 0x7ff
            &&& r & !0xffff_fc00_0000_0000u64 & !low == w & !0xffff_fc00_0000_0000u64 & !low
            &&& r & low == w & low
        }),
{
}

proof fn lemma_compose_high_bits(w: u64, v: u64, low: u64)
    by (bit_vector)
    requires
        low & 0xffff_fc00_0000_0000u64 == 0,
    ensures
        ({
            let r = (0x001f_fc00_0000_0000u64 & (v << 42)) | (!0x001f_fc00_0000_0000u64 & w);
            &&& (r >> 63) & 0x1 == (w >> 63) & 0x1
            &&& (r >> 62) & 0x1 == (w >> 62) & 0x1
            &&& (r >> 53) & 0x1ff == (w >> 53) & 0x1ff
            &&& (r >> 42) & 0x7ff == v & 0x7ff
            &&& r & !0xffff_fc00_0000_0000u64 & !low == w & !0xffff_fc00_0000_0000u64 & !low
            &&& r & low == w & low
        }),
{
}

proof fn lemma_compose_desc_bits(w: u64, v: u64, low: u64)
    by (bit_vector)
    requires
        low & 0xffff_fc00_0000_0000u64 == 0,
    ensures
        ({
            let r = (0x4000_0000_0000_0000u64 & (v << 62)) | (!0x4000_0000_0000_0000u64 & w);
            &&& (r >> 63) & 0x1 == (w >> 63) & 0x1
            &&& (r >> 62) & 0x1 == v & 0x1
            &&& (r >> 53) & 0x1ff == (w >> 53) & 0x1ff
            &&& (r >> 42) & 0x7ff == (w >> 42) & 0x7ff
            &&& r & !0xffff_fc00_0000_0000u64 & !low == w & !0xffff_fc00_0000_0000u64 & !low
            &&& r & low == w & low
        }),
{
}

proof fn lemma_compose_aux_bits(w: u64, v: u64, low: u64)
    by (bit_vector)
    requires
        low & 0xffff_fc00_0000_0000u64 == 0,
    ensures
        ({
            let r = (0x8000_0000_0000_0000u64 & (v << 63)) | (!0x8000_0000_0000_0000u64 & w);
            &&& (r >> 63) & 0x1 == v & 0x1
            &&& (r >> 62) & 0x1 == (w >> 62) & 0x1
            &&& (r >> 53) & 0x1ff == (w >> 53) & 0x1ff
            &&& (r >> 42) & 0x7ff == (w >> 42) & 0x7ff
            &&& r & !0xffff_fc00_0000_0000u64 & !low == w & !0xffff_fc00_0000_0000u64 & !low
            &&& r & low == w & low
        }),
{
}

} // verus!
