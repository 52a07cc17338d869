use memento::pepoch::atomic::MemOrder;
use memento::pepoch::atomic::PAtomic;
use memento::pepoch::atomic::PShared;
use memento::pepoch::atomic::Pointer;
use memento::pepoch::internal::unprotected;
use memento::ploc::checkpoint::Checkpoint;
use memento::ploc::detectable_cas::dcas;
use memento::ploc::detectable_cas::dcas_commit;
use memento::ploc::detectable_cas::dcas_prepare;
use memento::ploc::detectable_cas::dcas_read;
use memento::ploc::detectable_cas::pcas;
use memento::ploc::detectable_cas::pcas_read;
use memento::ploc::detectable_cas::persist;
use memento::ploc::detectable_cas::persistent_cas;
use memento::ploc::detectable_cas::Cas;
use memento::ploc::detectable_cas::DIRTY_MASK;
use memento::ploc::handle::Handle;
use memento::ploc::handle::MAX_THREADS;
use memento::Memento;
use memento::PDefault;

fn handle(tid: usize, rec: bool) -> Handle {
    Handle::new(tid, unprotected(), rec).unwrap()
}

fn value(v: u64) -> PShared<'static, u64> {
    PShared::from_usize(v)
}

#[test]
fn handle_exists_for_thread_ids_one_to_sixty_four() {
    assert!(Handle::new(0, unprotected(), false).is_none());
    assert!(Handle::new(MAX_THREADS + 1, unprotected(), false).is_none());
    let mut h = Handle::new(MAX_THREADS, unprotected(), true).unwrap();
    assert_eq!(h.tid(), 64);
    assert!(h.rec());
    assert_eq!(h.guard().local(), None);
    h.set_rec(false);
    assert!(!h.rec());
    assert_eq!(h.into_guard().local(), None);
    assert_eq!(Handle::new(1, unprotected(), false).map(|h| h.tid()), Some(1));
}

#[test]
fn checkpoint_returns_the_last_value() {
    let mut c = Checkpoint::new();
    assert_eq!(c.peek(), None);
    assert!(c.checkpoint(10));
    assert_eq!(c.peek(), Some(10));
    assert!(c.checkpoint(20));
    assert_eq!(c.peek(), Some(20));
    assert!(c.checkpoint(30));
    assert_eq!(c.peek(), Some(30));
    c.clear();
    assert_eq!(c.peek(), None);
    assert_eq!(Checkpoint::default().peek(), None);
}

#[test]
fn crash_inside_a_checkpoint_leaves_old_or_new() {
    let mut c = Checkpoint::new();
    assert!(c.checkpoint(10));
    // Written but not committed: the old value stands, before and after a
    // crash.
    c.write(20);
    assert_eq!(c.peek(), Some(10));
    c.crash();
    assert_eq!(c.peek(), Some(10));
    // Committed: the new value stands.
    c.write(20);
    assert!(c.commit());
    c.crash();
    assert_eq!(c.peek(), Some(20));
    // A crash before the very first commit leaves nothing.
    let mut c = Checkpoint::new();
    c.write(5);
    c.crash();
    assert_eq!(c.peek(), None);
}

#[test]
fn helping_read_flushes_and_cleans_a_dirty_word() {
    let guard = unprotected();
    let mut a = PAtomic::<u64>::from_usize(8);
    a.store(value(16 | DIRTY_MASK), MemOrder::SeqCst);
    assert_eq!(pcas_read(&mut a, &guard).into_usize(), 16);
    assert_eq!(a.load(MemOrder::SeqCst, &guard).into_usize(), 16);
    a.crash();
    assert_eq!(a.load(MemOrder::SeqCst, &guard).into_usize(), 16 | DIRTY_MASK);
    // A clean word is left alone: it is not flushed.
    let mut b = PAtomic::<u64>::from_usize(8);
    b.store(value(24), MemOrder::SeqCst);
    assert_eq!(pcas_read(&mut b, &guard).into_usize(), 24);
    b.crash();
    assert_eq!(b.load(MemOrder::SeqCst, &guard).into_usize(), 8);
}

#[test]
fn persist_flushes_and_cleans_only_the_value_it_was_given() {
    let guard = unprotected();
    let mut a = PAtomic::<u64>::from_usize(0);
    a.store(value(16 | DIRTY_MASK), MemOrder::SeqCst);
    persist(&mut a, value(32 | DIRTY_MASK), &guard);
    assert_eq!(a.load(MemOrder::SeqCst, &guard).into_usize(), 16 | DIRTY_MASK);
    assert!(a.is_persisted());
    persist(&mut a, value(16 | DIRTY_MASK), &guard);
    assert_eq!(a.load(MemOrder::SeqCst, &guard).into_usize(), 16);
}

#[test]
fn persistent_cas_installs_dirty_and_fails_on_another_value() {
    let guard = unprotected();
    let mut a = PAtomic::<u64>::from_usize(8);
    let r = persistent_cas(&mut a, value(8), value(16), &guard);
    assert_eq!(r.ok().map(|p| p.into_usize()), Some(16 | DIRTY_MASK));
    assert_eq!(a.load(MemOrder::SeqCst, &guard).into_usize(), 16 | DIRTY_MASK);
    match persistent_cas(&mut a, value(8), value(24), &guard) {
        Ok(_) => panic!("the word held 16"),
        Err(e) => {
            assert_eq!(e.current.into_usize(), 16);
            assert_eq!(e.new.into_usize(), 24 | DIRTY_MASK);
        }
    }
    assert_eq!(a.load(MemOrder::SeqCst, &guard).into_usize(), 16);
    assert!(pcas(&mut a, 5, &guard));
    assert_eq!(a.load(MemOrder::SeqCst, &guard).into_usize(), 5 | DIRTY_MASK);
    assert!(!pcas(&mut a, 6, &guard));
    assert_eq!(a.load(MemOrder::SeqCst, &guard).into_usize(), 5);
}

#[test]
fn single_word_swap_is_observable_and_cleaned_by_the_next_load() {
    // Initial word = 0. Thread 1 swaps 0 for 1.
    let guard = unprotected();
    let mut addr = PAtomic::<u64>::null();
    let mut mmt = Cas::new();
    let mut t1 = handle(1, false);
    let r = dcas(&mut addr, value(0), value(1), &mut mmt, &mut t1);
    assert_eq!(r.ok().map(|p| p.into_usize()), Some(1));
    let raw = addr.load(MemOrder::SeqCst, &guard).into_usize();
    assert_ne!(raw & DIRTY_MASK, 0);
    // One load by any thread later the mark is gone, and the value is 1.
    assert_eq!(dcas_read(&mut addr, &guard).into_usize(), 1);
    let raw = addr.load(MemOrder::SeqCst, &guard).into_usize();
    assert_eq!(raw & DIRTY_MASK, 0);
    assert_eq!(addr.load(MemOrder::SeqCst, &guard).tid(), 1);
    assert_eq!(dcas_read(&mut addr, &guard).into_usize(), 1);
}

#[test]
fn of_two_swaps_from_the_same_value_one_wins() {
    // addr = 0. Thread 1 swaps 0 for 1 while thread 2 swaps 0 for 2: both
    // read the word before either installs.
    let guard = unprotected();
    let mut addr = PAtomic::<u64>::null();
    let mut m1 = Cas::new();
    let mut m2 = Cas::new();
    let p1 = dcas_prepare(&mut addr, value(0), value(1), &mut m1, 1, &guard).ok().unwrap();
    let p2 = dcas_prepare(&mut addr, value(0), value(2), &mut m2, 2, &guard).ok().unwrap();
    let r2 = dcas_commit(&mut addr, p2, &guard);
    let r1 = dcas_commit(&mut addr, p1, &guard);
    assert_eq!(r2.ok().map(|p| p.into_usize()), Some(2));
    assert_eq!(r1.err().map(|c| c.current.into_usize()), Some(2));
    // The winner's value is durable once it has been read.
    assert_eq!(dcas_read(&mut addr, &guard).into_usize(), 2);
    addr.crash();
    assert_eq!(dcas_read(&mut addr, &guard).into_usize(), 2);

    // The other way round, run to the end one after the other.
    let mut addr = PAtomic::<u64>::null();
    let mut t1 = handle(1, false);
    let mut t2 = handle(2, false);
    let r1 = dcas(&mut addr, value(0), value(1), &mut m1, &mut t1);
    assert!(r1.is_ok());
    let r2 = dcas(&mut addr, value(0), value(2), &mut m2, &mut t2);
    assert_eq!(r2.err().map(|c| c.current.into_usize()), Some(1));
    assert_eq!(dcas_read(&mut addr, &guard).into_usize(), 1);
}

#[test]
fn swap_by_the_same_thread_alternates_parity() {
    let guard = unprotected();
    let mut addr = PAtomic::<u64>::null();
    let mut t1 = handle(1, false);
    let mut mmt = Cas::new();
    assert!(dcas(&mut addr, value(0), value(8), &mut mmt, &mut t1).is_ok());
    let first = pcas_read(&mut addr, &guard);
    mmt.clear();
    assert!(dcas(&mut addr, value(8), value(16), &mut mmt, &mut t1).is_ok());
    let second = pcas_read(&mut addr, &guard);
    mmt.clear();
    assert!(dcas(&mut addr, value(16), value(24), &mut mmt, &mut t1).is_ok());
    let third = pcas_read(&mut addr, &guard);
    assert_eq!((first.tid(), second.tid(), third.tid()), (1, 1, 1));
    assert_eq!((first.high_tag() & 1, second.high_tag() & 1, third.high_tag() & 1), (0, 1, 0));
    assert_eq!(dcas_read(&mut addr, &guard).into_usize(), 24);
}

#[test]
fn verdict_survives_a_crash_after_the_swap_was_flushed() {
    let guard = unprotected();
    let mut addr = PAtomic::<u64>::null();
    let mut mmt = Cas::default();
    let mut t1 = handle(1, false);
    assert!(dcas(&mut addr, value(0), value(8), &mut mmt, &mut t1).is_ok());
    // Somebody reads the word, which flushes it. Then everything crashes.
    assert_eq!(dcas_read(&mut addr, &guard).into_usize(), 8);
    let before = addr.load(MemOrder::SeqCst, &guard).into_usize();
    addr.crash();
    mmt.crash();
    let mut t1 = handle(1, true);
    let again = dcas(&mut addr, value(0), value(8), &mut mmt, &mut t1);
    assert_eq!(again.ok().map(|p| p.into_usize()), Some(8));
    // The thread found its swap done: the flag stays, the word is as it was.
    assert!(t1.rec());
    assert_eq!(addr.load(MemOrder::SeqCst, &guard).into_usize(), before);
}

#[test]
fn verdict_survives_a_crash_before_the_swap_was_flushed() {
    let guard = unprotected();
    let mut addr = PAtomic::<u64>::null();
    let mut mmt = Cas::new();
    let mut t1 = handle(1, false);
    assert!(dcas(&mut addr, value(0), value(8), &mut mmt, &mut t1).is_ok());
    // Nobody has read the word: the crash takes the swap away.
    addr.crash();
    mmt.crash();
    assert_eq!(addr.load(MemOrder::SeqCst, &guard).into_usize(), 0);
    let mut t1 = handle(1, true);
    let again = dcas(&mut addr, value(0), value(8), &mut mmt, &mut t1);
    assert_eq!(again.ok().map(|p| p.into_usize()), Some(8));
    assert!(!t1.rec());
    assert_eq!(dcas_read(&mut addr, &guard).into_usize(), 8);
}

#[test]
fn conflict_survives_a_crash() {
    let guard = unprotected();
    let mut addr = PAtomic::<u64>::from_usize(16);
    let mut mmt = Cas::new();
    let mut t1 = handle(1, false);
    let first = dcas(&mut addr, value(0), value(8), &mut mmt, &mut t1);
    assert_eq!(first.err().map(|c| c.current.into_usize()), Some(16));
    addr.crash();
    mmt.crash();
    let mut t1 = handle(1, true);
    let again = dcas(&mut addr, value(0), value(8), &mut mmt, &mut t1);
    assert_eq!(again.err().map(|c| c.current.into_usize()), Some(16));
    assert_eq!(addr.load(MemOrder::SeqCst, &guard).into_usize(), 16);
}

#[test]
fn cleared_memento_has_seen_nothing() {
    let mut c = Checkpoint::new();
    assert!(c.checkpoint(3));
    Memento::clear(&mut c);
    assert_eq!(c.peek(), None);
    let mut word = 17u64;
    Memento::clear(&mut word);
    assert_eq!(word, 0);
    let mut flag = true;
    Memento::clear(&mut flag);
    assert!(!flag);
    assert_eq!(<u64 as PDefault>::pdefault(&handle(1, false)), 0);
    // A memento that was cleared serves the next swap from the start.
    let mut addr = PAtomic::<u64>::null();
    let mut mmt = Cas::new();
    let mut t1 = handle(1, false);
    assert!(dcas(&mut addr, value(0), value(8), &mut mmt, &mut t1).is_ok());
    Memento::clear(&mut mmt);
    let mut t1 = handle(1, true);
    let r = dcas(&mut addr, value(0), value(16), &mut mmt, &mut t1);
    assert_eq!(r.err().map(|c| c.current.into_usize()), Some(8));
    assert!(!t1.rec());
}
