use memento::pepoch::atomic::MemOrder;
use memento::pepoch::atomic::PAtomic;
use memento::pepoch::atomic::PShared;
use memento::pepoch::atomic::Pointer;
use memento::pepoch::internal::unprotected;
use memento::ploc::detectable_cas::DIRTY_MASK;
use memento::ploc::handle::Handle;
use memento::ploc::pmwcas::complete_install;
use memento::ploc::pmwcas::install_mwcas_descriptor;
use memento::ploc::pmwcas::pmwcas;
use memento::ploc::pmwcas::pmwcas_inner;
use memento::ploc::pmwcas::pmwcas_recover;
use memento::ploc::pmwcas::PMwCasDescriptor;
use memento::ploc::pmwcas::DESC_BIT;
use memento::ploc::pmwcas::FAILED;
use memento::ploc::pmwcas::HELP_LIMIT;
use memento::ploc::pmwcas::MAX_WORDS;
use memento::ploc::pmwcas::RDCSS_FLAG;
use memento::ploc::pmwcas::SUCCEEDED;
use memento::ploc::pmwcas::UNDECIDED;
use memento::pmem::pool::Pool;
use memento::pmem::ptr::PoolPtr;

struct Fixture {
    words: Pool<PAtomic<u64>>,
    descs: Pool<PMwCasDescriptor>,
    a: u64,
    b: u64,
    c: u64,
}

fn fixture(a: u64, b: u64, c: u64) -> Fixture {
    let mut words = Pool::<PAtomic<u64>>::create(0, 8).unwrap();
    let a = words.allocate(PAtomic::from_usize(a)).unwrap().into_offset();
    let b = words.allocate(PAtomic::from_usize(b)).unwrap().into_offset();
    let c = words.allocate(PAtomic::from_usize(c)).unwrap().into_offset();
    let descs = Pool::<PMwCasDescriptor>::create(0, 8).unwrap();
    Fixture { words, descs, a, b, c }
}

fn load(f: &Fixture, addr: u64) -> u64 {
    let guard = unprotected();
    f.words.deref(&PoolPtr::from(addr)).unwrap().load(MemOrder::SeqCst, &guard).into_usize()
}

fn store(f: &mut Fixture, addr: u64, v: u64) {
    f.words.deref_mut(&PoolPtr::from(addr)).store(PShared::<u64>::from_usize(v), MemOrder::SeqCst);
}

fn crash(f: &mut Fixture, d: u64) {
    for addr in [f.a, f.b, f.c] {
        f.words.deref_mut(&PoolPtr::from(addr)).crash();
    }
    f.descs.deref_mut(&PoolPtr::from(d)).crash();
}

fn status(f: &Fixture, d: u64) -> u64 {
    f.descs.deref(&PoolPtr::from(d)).unwrap().status()
}

fn describe(f: &mut Fixture, entries: &[(u64, u64, u64)]) -> u64 {
    let mut desc = PMwCasDescriptor::new();
    for (addr, old, new) in entries {
        assert!(desc.add_word(*addr, *old, *new));
    }
    f.descs.allocate(desc).unwrap().into_offset()
}

fn handle(rec: bool) -> Handle {
    Handle::new(1, unprotected(), rec).unwrap()
}

#[test]
fn descriptor_keeps_its_entries_in_address_order() {
    let mut desc = PMwCasDescriptor::default();
    assert_eq!(desc.count(), 0);
    assert_eq!(desc.status(), UNDECIDED);
    assert!(desc.add_word(384, 0, 1));
    assert!(desc.add_word(128, 2, 3));
    assert!(desc.add_word(256, 4, 5));
    assert!(!desc.add_word(256, 6, 7));
    assert!(!desc.add_word(512, DESC_BIT, 0));
    assert!(!desc.add_word(512, 0, DIRTY_MASK));
    assert!(desc.add_word(512, 8, 9));
    assert_eq!(desc.count(), MAX_WORDS);
    assert!(!desc.add_word(640, 0, 1));
    let addresses: Vec<u64> = (0..4).map(|i| desc.word(i).unwrap().address).collect();
    assert_eq!(addresses, vec![128, 256, 384, 512]);
    assert_eq!(desc.word(0).map(|w| (w.old_value, w.new_value)), Some((2, 3)));
    assert!(desc.word(4).is_none());
}

#[test]
fn all_words_commit_together() {
    let mut f = fixture(0, 0, 7);
    let (a, b) = (f.a, f.b);
    let d = describe(&mut f, &[(a, 0, 1), (b, 0, 1)]);
    assert!(pmwcas(&mut f.words, &mut f.descs, &PoolPtr::from(d), &mut handle(false)));
    assert_eq!((load(&f, f.a), load(&f, f.b), load(&f, f.c)), (1, 1, 7));
    assert_eq!(status(&f, d), SUCCEEDED);
    // The outcome and the values are durable.
    crash(&mut f, d);
    assert_eq!(status(&f, d), SUCCEEDED);
    assert_eq!((load(&f, f.a) & !DIRTY_MASK, load(&f, f.b) & !DIRTY_MASK), (1, 1));
}

#[test]
fn no_word_commits_when_one_does_not_match() {
    let mut f = fixture(0, 5, 7);
    let (a, b, c) = (f.a, f.b, f.c);
    let d = describe(&mut f, &[(a, 0, 1), (b, 0, 1), (c, 7, 8)]);
    assert!(!pmwcas(&mut f.words, &mut f.descs, &PoolPtr::from(d), &mut handle(false)));
    assert_eq!((load(&f, f.a), load(&f, f.b), load(&f, f.c)), (0, 5, 7));
    assert_eq!(status(&f, d), FAILED);
    // Running the swap again only reports what was decided.
    assert!(!pmwcas_inner(&mut f.words, &mut f.descs, d, HELP_LIMIT));
    assert_eq!((load(&f, f.a), load(&f, f.b), load(&f, f.c)), (0, 5, 7));
}

#[test]
fn a_dirty_word_does_not_match() {
    let mut f = fixture(0, 0, 0);
    let a = f.a;
    store(&mut f, a, 0 | DIRTY_MASK);
    let (a, b) = (f.a, f.b);
    let d = describe(&mut f, &[(a, 0, 1), (b, 0, 1)]);
    assert!(!pmwcas(&mut f.words, &mut f.descs, &PoolPtr::from(d), &mut handle(false)));
    assert_eq!((load(&f, f.a) & !DIRTY_MASK, load(&f, f.b)), (0, 0));
}

#[test]
fn recovery_clears_the_flag_so_that_the_next_swap_runs() {
    let mut f = fixture(0, 0, 0);
    let (a, b) = (f.a, f.b);
    let interrupted = describe(&mut f, &[(a, 0, 1)]);
    let mut h = handle(true);
    assert!(!pmwcas(&mut f.words, &mut f.descs, &PoolPtr::from(interrupted), &mut h));
    assert!(!h.rec());
    assert_eq!(status(&f, interrupted), FAILED);
    // The same handle now runs a fresh swap instead of failing it at once.
    let fresh = describe(&mut f, &[(a, 0, 1), (b, 0, 1)]);
    assert!(pmwcas(&mut f.words, &mut f.descs, &PoolPtr::from(fresh), &mut h));
    assert_eq!((load(&f, f.a), load(&f, f.b)), (1, 1));
    assert!(!h.rec());
}

#[test]
fn missing_descriptor_or_word_fails() {
    let mut f = fixture(0, 0, 0);
    assert!(!pmwcas(&mut f.words, &mut f.descs, &PoolPtr::from(128), &mut handle(false)));
    assert!(!pmwcas(&mut f.words, &mut f.descs, &PoolPtr::from(128), &mut handle(true)));
    let a = f.a;
    let d = describe(&mut f, &[(a, 0, 1), (4096, 0, 1)]);
    assert!(!pmwcas(&mut f.words, &mut f.descs, &PoolPtr::from(d), &mut handle(false)));
    assert_eq!(load(&f, f.a), 0);
    assert_eq!(status(&f, d), FAILED);
}

#[test]
fn install_puts_the_pointer_where_the_old_value_is() {
    let mut f = fixture(0, 5, 0);
    let (a, b) = (f.a, f.b);
    let d = describe(&mut f, &[(a, 0, 1), (b, 0, 1)]);
    assert_eq!(install_mwcas_descriptor(&mut f.words, &f.descs, d, 0), 0);
    assert_eq!(load(&f, f.a), d | DESC_BIT | DIRTY_MASK);
    assert_eq!(install_mwcas_descriptor(&mut f.words, &f.descs, d, 1), 5);
    assert_eq!(load(&f, f.b), 5);
    // A second install sees the pointer and changes nothing.
    assert_eq!(install_mwcas_descriptor(&mut f.words, &f.descs, d, 0), d | DESC_BIT | DIRTY_MASK);
    assert_eq!(load(&f, f.a), d | DESC_BIT | DIRTY_MASK);
}

#[test]
fn short_lived_pointer_is_resolved_by_whoever_meets_it() {
    let mut f = fixture(0, 0, 0);
    let (a, b) = (f.a, f.b);
    let first = describe(&mut f, &[(a, 0, 1)]);
    let second = describe(&mut f, &[(a, 0, 2), (b, 0, 2)]);
    // The first swap got as far as its short-lived pointer.
    store(&mut f, a, first | DESC_BIT | RDCSS_FLAG);
    // The second meets it, turns it into the first one's pointer, finds the
    // word taken, finishes the first swap, and then fails on the new value.
    assert!(!pmwcas(&mut f.words, &mut f.descs, &PoolPtr::from(second), &mut handle(false)));
    assert_eq!(status(&f, first), SUCCEEDED);
    assert_eq!(status(&f, second), FAILED);
    assert_eq!((load(&f, f.a), load(&f, f.b)), (1, 0));
    // Once the outcome is decided, a short-lived pointer goes back to the
    // old value.
    store(&mut f, a, first | DESC_BIT | RDCSS_FLAG);
    complete_install(&mut f.words, &f.descs, first, 0);
    assert_eq!(load(&f, f.a), 0);
}

#[test]
fn crash_during_install_rolls_the_swap_back() {
    // Words [A: 0 -> 1, B: 0 -> 1]. Crash after A was installed, before B.
    // The pointer in A had been flushed.
    let mut f = fixture(0, 0, 0);
    let (a, b) = (f.a, f.b);
    let d = describe(&mut f, &[(a, 0, 1), (b, 0, 1)]);
    assert_eq!(install_mwcas_descriptor(&mut f.words, &f.descs, d, 0), 0);
    f.words.deref_mut(&PoolPtr::from(a)).persist();
    crash(&mut f, d);
    assert_eq!(load(&f, f.a), d | DESC_BIT | DIRTY_MASK);
    assert!(!pmwcas(&mut f.words, &mut f.descs, &PoolPtr::from(d), &mut handle(true)));
    assert_eq!(status(&f, d), FAILED);
    assert_eq!((load(&f, f.a), load(&f, f.b)), (0, 0));

    // The same when the pointer in A had not been flushed: the crash takes
    // it away, and recovery finds nothing to undo.
    let mut f = fixture(0, 0, 0);
    let (a, b) = (f.a, f.b);
    let d = describe(&mut f, &[(a, 0, 1), (b, 0, 1)]);
    assert_eq!(install_mwcas_descriptor(&mut f.words, &f.descs, d, 0), 0);
    crash(&mut f, d);
    assert_eq!(load(&f, f.a), 0);
    assert!(!pmwcas_recover(&mut f.words, &mut f.descs, d));
    assert_eq!(status(&f, d), FAILED);
    assert_eq!((load(&f, f.a), load(&f, f.b)), (0, 0));
}

#[test]
fn crash_after_the_decision_rolls_the_swap_forward() {
    // Crash after status = Succeeded was persisted, before word A was
    // replaced: the state is that of a finished swap whose words still hold
    // the flushed pointers.
    let mut f = fixture(0, 0, 0);
    let (a, b) = (f.a, f.b);
    let d = describe(&mut f, &[(a, 0, 1), (b, 0, 1)]);
    assert!(pmwcas(&mut f.words, &mut f.descs, &PoolPtr::from(d), &mut handle(false)));
    for addr in [a, b] {
        store(&mut f, addr, d | DESC_BIT | DIRTY_MASK);
        f.words.deref_mut(&PoolPtr::from(addr)).persist();
    }
    crash(&mut f, d);
    assert_eq!(load(&f, f.a), d | DESC_BIT | DIRTY_MASK);
    assert!(pmwcas(&mut f.words, &mut f.descs, &PoolPtr::from(d), &mut handle(true)));
    assert_eq!(status(&f, d), SUCCEEDED);
    assert_eq!((load(&f, f.a), load(&f, f.b)), (1, 1));
    crash(&mut f, d);
    assert_eq!((load(&f, f.a) & !DIRTY_MASK, load(&f, f.b) & !DIRTY_MASK), (1, 1));
}

#[test]
fn a_helper_finishes_a_swap_it_finds_in_its_way() {
    let mut f = fixture(0, 0, 0);
    let (a, b, c) = (f.a, f.b, f.c);
    let stuck = describe(&mut f, &[(a, 0, 1), (b, 0, 1)]);
    let mine = describe(&mut f, &[(b, 1, 2), (c, 0, 2)]);
    // The first swap installed both words and stopped.
    assert_eq!(install_mwcas_descriptor(&mut f.words, &f.descs, stuck, 0), 0);
    assert_eq!(install_mwcas_descriptor(&mut f.words, &f.descs, stuck, 1), 0);
    // The second finds the first one's pointer in B, finishes the first
    // swap, and then swaps B from the value that left there.
    assert!(pmwcas(&mut f.words, &mut f.descs, &PoolPtr::from(mine), &mut handle(false)));
    assert_eq!(status(&f, stuck), SUCCEEDED);
    assert_eq!(status(&f, mine), SUCCEEDED);
    assert_eq!((load(&f, f.a), load(&f, f.b), load(&f, f.c)), (1, 2, 2));
    // No pointer to a descriptor is left anywhere.
    for addr in [a, b, c] {
        assert_eq!(load(&f, addr) & DESC_BIT, 0);
    }
}

#[test]
fn without_fuel_a_swap_in_the_way_makes_the_swap_fail() {
    let mut f = fixture(0, 0, 0);
    let (a, b) = (f.a, f.b);
    let stuck = describe(&mut f, &[(a, 0, 1)]);
    let mine = describe(&mut f, &[(a, 1, 2), (b, 0, 2)]);
    assert_eq!(install_mwcas_descriptor(&mut f.words, &f.descs, stuck, 0), 0);
    assert!(!pmwcas_inner(&mut f.words, &mut f.descs, mine, 0));
    assert_eq!(status(&f, mine), FAILED);
    assert_eq!(status(&f, stuck), UNDECIDED);
    assert_eq!(load(&f, f.b), 0);
}
