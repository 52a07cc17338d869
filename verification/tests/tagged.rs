use memento::pepoch::atomic::compose_aux_bit;
use memento::pepoch::atomic::compose_desc_bit;
use memento::pepoch::atomic::compose_high_tag;
use memento::pepoch::atomic::compose_tag;
use memento::pepoch::atomic::compose_tid;
use memento::pepoch::atomic::cut_as_high_tag_len;
use memento::pepoch::atomic::decompose_tag;
use memento::pepoch::atomic::is_aligned;
use memento::pepoch::atomic::low_bits;
use memento::pepoch::atomic::strongest_failure_ordering;
use memento::pepoch::atomic::CompareAndSetOrdering;
use memento::pepoch::atomic::MemOrder;
use memento::pepoch::atomic::PAtomic;
use memento::pepoch::atomic::POwned;
use memento::pepoch::atomic::PShared;
use memento::pepoch::atomic::Pointer;
use memento::pepoch::atomic::{aux_bits, desc_bits, high_bits, tid_bits};
use memento::pepoch::internal::unprotected;
use memento::pmem::pool::Pool;
use memento::pmem::pool::PoolError;
use memento::pmem::ptr::PoolPtr;

#[test]
fn valid_tag_i8() {
    let _ = PShared::<i8>::null().with_tag(0);
}

#[test]
fn valid_tag_i64() {
    let _ = PShared::<i64>::null().with_tag(7);
}

#[test]
fn const_atomic_null() {
    let _u: PAtomic<u8> = PAtomic::<u8>::null();
}

#[test]
fn field_masks_are_where_the_layout_puts_them() {
    assert_eq!(aux_bits(), 1u64 << 63);
    assert_eq!(desc_bits(), 1u64 << 62);
    assert_eq!(tid_bits(), 0x1ffu64 << 53);
    assert_eq!(high_bits(), 0x7ffu64 << 42);
    assert_eq!(low_bits::<u64>(), 7);
    assert_eq!(low_bits::<u8>(), 0);
    assert_eq!(low_bits::<u32>(), 3);
}

#[test]
fn cut_keeps_eleven_bits() {
    assert_eq!(cut_as_high_tag_len(0xffff), 0x7ff);
    assert_eq!(cut_as_high_tag_len(0x123), 0x123);
    assert_eq!(cut_as_high_tag_len(0x800), 0);
}

#[test]
fn compose_puts_each_field_in_its_place() {
    assert_eq!(compose_tid(5, 0), 5u64 << 53);
    assert_eq!(compose_tid(0x3ff, 0), 0x1ffu64 << 53);
    assert_eq!(compose_high_tag(3, 0), 3u64 << 42);
    assert_eq!(compose_high_tag(0xfff, 0), 0x7ffu64 << 42);
    assert_eq!(compose_desc_bit(1, 0), 1u64 << 62);
    assert_eq!(compose_desc_bit(2, 0), 0);
    assert_eq!(compose_aux_bit(1, 0), 1u64 << 63);
    assert_eq!(compose_aux_bit(0, u64::MAX), u64::MAX >> 1);
    assert_eq!(compose_tag::<u64>(0x1000, 0xff), 0x1007);
    assert_eq!(compose_tag::<u8>(0x1000, 0xff), 0x1000);
}

#[test]
fn tagged_pointer_round_trip() {
    let offset = 0x1234_5680u64;
    let word = compose_aux_bit(
        1,
        compose_desc_bit(1, compose_tid(77, compose_high_tag(1234, compose_tag::<u64>(offset, 5)))),
    );
    assert_eq!(decompose_tag::<u64>(word), (1, 1, 77, 1234, offset, 5));
    let plain = compose_tag::<u64>(offset, 0);
    assert_eq!(decompose_tag::<u64>(plain), (0, 0, 0, 0, offset, 0));
    assert_eq!(decompose_tag::<u64>(u64::MAX), (1, 1, 0x1ff, 0x7ff, 0x3ff_ffff_fff8, 7));
}

#[test]
fn alignment_is_checked_against_the_low_mask() {
    assert!(is_aligned::<u64>(64));
    assert!(!is_aligned::<u64>(65));
    assert!(is_aligned::<u8>(65));
}

#[test]
fn shared_pointer_accessors_and_builders() {
    let p = PShared::<u64>::from_ptr(PoolPtr::from(256));
    assert!(!p.is_null());
    assert!(PShared::<u64>::null().is_null());
    assert!(PShared::<u64>::null().with_tag(3).with_tid(9).is_null());
    let q = p.with_tag(3).with_tid(9).with_high_tag(17).with_aux_bit(1).with_desc_bit(1);
    assert_eq!(q.tag(), 3);
    assert_eq!(q.tid(), 9);
    assert_eq!(q.high_tag(), 17);
    assert_eq!(q.aux_bit(), 1);
    assert_eq!(q.desc_bit(), 1);
    assert_eq!(q.as_ptr().into_offset(), 256);
    assert_eq!(q.with_tag(0).with_tid(0).with_high_tag(0).with_aux_bit(0).with_desc_bit(0).into_usize(), 256);
    let copy = q;
    assert_eq!(copy.into_usize(), q.into_usize());
    assert_eq!(q.into_owned().into_usize(), copy.into_usize());
}

#[test]
fn owned_pointer_lives_in_its_pool() {
    let mut pool = Pool::<u64>::create(0x1000, 4).unwrap();
    let owned = POwned::new(1234u64, &mut pool).unwrap();
    assert_eq!(owned.tag(), 0);
    assert_eq!(owned.aux_bit(), 0);
    assert_eq!(owned.desc_bit(), 0);
    assert_eq!(owned.tid(), 0);
    assert_eq!(owned.high_tag(), 0);
    assert_eq!(*owned.deref(&pool), 1234);
    assert_eq!(*owned.borrow(&pool), 1234);
    assert_eq!(*owned.as_ref(&pool), 1234);
    let mut owned = owned.with_tag(2).with_tid(3).with_high_tag(4).with_aux_bit(1);
    assert_eq!((owned.tag(), owned.tid(), owned.high_tag(), owned.aux_bit()), (2, 3, 4, 1));
    assert_eq!(owned.with_desc_bit(1).desc_bit(), 1);
    *owned.deref_mut(&mut pool) = 99;
    assert_eq!(*owned.deref(&pool), 99);
    let guard = unprotected();
    let offset = owned.with_tag(0).with_tid(0).with_high_tag(0).with_aux_bit(0);
    let shared = POwned::<u64>::from_ptr(PoolPtr::from(offset.into_usize())).into_shared(&guard);
    assert_eq!(shared.as_ref(&pool), Some(&99));
    assert_eq!(*shared.deref(&pool), 99);
    let mut writer = shared;
    *writer.deref_mut(&mut pool) = 100;
    assert_eq!(shared.as_ref(&pool), Some(&100));
    POwned::<u64>::from_ptr(shared.as_ptr()).free(&mut pool);
    assert_eq!(shared.as_ref(&pool), None);
}

#[test]
fn owned_pointer_reports_a_full_pool() {
    let mut pool = Pool::<u64>::create(0, 1).unwrap();
    assert!(POwned::new(1u64, &mut pool).is_ok());
    assert_eq!(POwned::new(2u64, &mut pool).err(), Some(PoolError::OutOfPool));
    assert_eq!(PAtomic::new(2u64, &mut pool).err(), Some(PoolError::OutOfPool));
    assert_eq!(POwned::init(2u64, &mut pool).err(), Some(PoolError::OutOfPool));
}

#[test]
fn atomic_new_points_to_what_it_allocated() {
    let mut pool = Pool::<u64>::create(0, 2).unwrap();
    let guard = unprotected();
    let a = PAtomic::new(1234u64, &mut pool).unwrap();
    assert_eq!(a.load(MemOrder::SeqCst, &guard).as_ref(&pool), Some(&1234));
    let b = PAtomic::init(5678u64, &mut pool).unwrap();
    assert_eq!(b.load_consume(&guard).as_ref(&pool), Some(&5678));
    assert!(a.is_persisted());
}

#[test]
fn atomic_store_load_swap() {
    let guard = unprotected();
    let mut a = PAtomic::<u64>::null();
    assert!(a.load(MemOrder::SeqCst, &guard).is_null());
    a.store(PShared::<u64>::from_usize(128), MemOrder::SeqCst);
    assert_eq!(a.load(MemOrder::SeqCst, &guard).into_usize(), 128);
    let prev = a.swap(PShared::<u64>::from_usize(256), MemOrder::SeqCst, &guard);
    assert_eq!(prev.into_usize(), 128);
    assert_eq!(a.load_consume(&guard).into_usize(), 256);
    assert_eq!(a.clone().load(MemOrder::Relaxed, &guard).into_usize(), 256);
    assert!(PAtomic::<u64>::default().load(MemOrder::Relaxed, &guard).is_null());
    assert_eq!(a.into_owned().into_usize(), 256);
}

#[test]
fn atomic_compare_exchange_succeeds_only_on_the_current_value() {
    let guard = unprotected();
    let mut a = PAtomic::<u64>::from_usize(128);
    let curr = a.load(MemOrder::SeqCst, &guard);
    let res1 = a.compare_exchange(curr, PShared::null(), MemOrder::SeqCst, MemOrder::SeqCst, &guard);
    assert_eq!(res1.ok().map(|p| p.into_usize()), Some(0));
    let res2 = a.compare_exchange(
        curr,
        PShared::from_usize(512),
        MemOrder::SeqCst,
        MemOrder::SeqCst,
        &guard,
    );
    match res2 {
        Ok(_) => panic!("the word no longer held the expected value"),
        Err(e) => {
            assert_eq!(e.current.into_usize(), 0);
            assert_eq!(e.new.into_usize(), 512);
        }
    }
    assert!(a.load(MemOrder::SeqCst, &guard).is_null());
    let res3 = a.compare_exchange_weak(
        PShared::null(),
        PShared::from_usize(640),
        MemOrder::AcqRel,
        MemOrder::Acquire,
        &guard,
    );
    assert!(res3.is_ok());
    assert_eq!(a.load(MemOrder::SeqCst, &guard).into_usize(), 640);
    // A tag makes two pointers to the same object different.
    let tagged = PShared::<u64>::from_usize(640).with_tag(1);
    assert!(a
        .compare_exchange(tagged, PShared::null(), MemOrder::SeqCst, MemOrder::SeqCst, &guard)
        .is_err());
}

#[test]
fn atomic_compare_and_set_takes_its_orderings_from_one_value() {
    let guard = unprotected();
    let mut a = PAtomic::<u64>::from_usize(128);
    let curr = a.load(MemOrder::SeqCst, &guard);
    assert!(a.compare_and_set(curr, PShared::null(), MemOrder::SeqCst, &guard).is_ok());
    assert!(a.compare_and_set(curr, PShared::null(), MemOrder::SeqCst, &guard).is_err());
    assert!(a
        .compare_and_set_weak(
            PShared::null(),
            PShared::from_usize(8),
            (MemOrder::Release, MemOrder::Relaxed),
            &guard
        )
        .is_ok());
    assert_eq!(a.load(MemOrder::SeqCst, &guard).into_usize(), 8);
}

#[test]
fn failure_ordering_is_the_strongest_allowed() {
    assert_eq!(strongest_failure_ordering(MemOrder::Relaxed), MemOrder::Relaxed);
    assert_eq!(strongest_failure_ordering(MemOrder::Release), MemOrder::Relaxed);
    assert_eq!(strongest_failure_ordering(MemOrder::Acquire), MemOrder::Acquire);
    assert_eq!(strongest_failure_ordering(MemOrder::AcqRel), MemOrder::Acquire);
    assert_eq!(strongest_failure_ordering(MemOrder::SeqCst), MemOrder::SeqCst);
    assert_eq!(MemOrder::AcqRel.success(), MemOrder::AcqRel);
    assert_eq!(MemOrder::AcqRel.failure(), MemOrder::Acquire);
    assert_eq!((MemOrder::SeqCst, MemOrder::Relaxed).success(), MemOrder::SeqCst);
    assert_eq!((MemOrder::SeqCst, MemOrder::Relaxed).failure(), MemOrder::Relaxed);
}

#[test]
fn atomic_fetch_update_stores_what_the_function_answers() {
    let guard = unprotected();
    let mut a = PAtomic::<u64>::from_usize(128);
    let res1 = a.fetch_update(MemOrder::SeqCst, MemOrder::SeqCst, &guard, |x| Some(x.with_tag(1)));
    assert_eq!(res1.ok().map(|p| p.into_usize()), Some(129));
    assert_eq!(a.load(MemOrder::SeqCst, &guard).tag(), 1);
    let res2 = a.fetch_update(MemOrder::SeqCst, MemOrder::SeqCst, &guard, |_| None);
    assert_eq!(res2.err().map(|p| p.into_usize()), Some(129));
    assert_eq!(a.load(MemOrder::SeqCst, &guard).into_usize(), 129);
}

#[test]
fn atomic_fetch_and_or_xor_work_on_the_low_tag() {
    let guard = unprotected();
    let mut a = PAtomic::<i32>::from_shared(PShared::null().with_tag(3));
    assert_eq!(a.fetch_and(2, MemOrder::SeqCst, &guard).tag(), 3);
    assert_eq!(a.load(MemOrder::SeqCst, &guard).tag(), 2);

    let mut a = PAtomic::<i32>::from_shared(PShared::null().with_tag(1));
    assert_eq!(a.fetch_or(2, MemOrder::SeqCst, &guard).tag(), 1);
    assert_eq!(a.load(MemOrder::SeqCst, &guard).tag(), 3);

    let mut a = PAtomic::<i32>::from_shared(PShared::null().with_tag(1));
    assert_eq!(a.fetch_xor(3, MemOrder::SeqCst, &guard).tag(), 1);
    assert_eq!(a.load(MemOrder::SeqCst, &guard).tag(), 2);

    // Nothing above the low tag is touched.
    let mut a = PAtomic::<i32>::from_usize(0x1003);
    let _ = a.fetch_and(0, MemOrder::SeqCst, &guard);
    assert_eq!(a.load(MemOrder::SeqCst, &guard).into_usize(), 0x1000);
    let _ = a.fetch_or(0xffff, MemOrder::SeqCst, &guard);
    assert_eq!(a.load(MemOrder::SeqCst, &guard).into_usize(), 0x1003);
}

#[test]
fn persist_makes_durable_and_crash_forgets_the_rest() {
    let guard = unprotected();
    let mut a = PAtomic::<u64>::from_ptr(PoolPtr::from(128));
    assert!(a.is_persisted());
    a.store(PShared::<u64>::from_usize(256), MemOrder::SeqCst);
    assert!(!a.is_persisted());
    a.crash();
    assert_eq!(a.load(MemOrder::SeqCst, &guard).into_usize(), 128);
    a.store(PShared::<u64>::from_usize(256), MemOrder::SeqCst);
    a.persist();
    a.store(PShared::<u64>::from_usize(384), MemOrder::SeqCst);
    a.crash();
    assert_eq!(a.load(MemOrder::SeqCst, &guard).into_usize(), 256);
    let owned_word = PAtomic::<u64>::from_owned(POwned::from_usize(128));
    assert_eq!(owned_word.load(MemOrder::SeqCst, &guard).into_usize(), 128);
}

#[test]
fn shared_pointers_are_equal_when_the_words_are() {
    let p = PShared::<u64>::from_usize(128);
    assert!(p == PShared::from_usize(128));
    assert!(p != p.with_tag(1));
    assert!(p.with_tag(1) == p.with_tag(9));
    assert!(PShared::<u64>::default() == PShared::null());
}

#[test]
fn atomic_from_a_pointer_holds_it_flushed() {
    let guard = unprotected();
    let a = PAtomic::<i32>::from(PShared::null().with_tag(3));
    assert_eq!(a.load(MemOrder::SeqCst, &guard).tag(), 3);
    assert!(a.is_persisted());
    let b = PAtomic::<u64>::from(POwned::from_usize(256));
    assert_eq!(b.load(MemOrder::SeqCst, &guard).into_usize(), 256);
    let c = PAtomic::<u64>::from(PoolPtr::<u64>::null());
    assert!(c.load(MemOrder::SeqCst, &guard).is_null());
}
