use memento::ds::comb::CombError;
use memento::ds::comb::CombMemento;
use memento::ds::comb::CombRequest;
use memento::ds::comb::CombStateRec;
use memento::ds::comb::CombStruct;
use memento::ds::comb::CombThreadState;
use memento::ds::comb::Combinable;
use memento::ds::comb::Combining;
use memento::ds::comb::Node;
use memento::ds::comb::MAX_THREADS;
use memento::ds::comb::NR_SLOTS;
use memento::ds::combining_lock::aux_bits;
use memento::ds::combining_lock::compose_aux_bit;
use memento::ds::combining_lock::decompose_aux_bit;
use memento::ds::combining_lock::CombiningLock;
use memento::pepoch::atomic::PAtomic;
use memento::pepoch::internal::Guard;
use memento::pepoch::internal::unprotected;
use memento::ploc::handle::Handle;
use memento::pmem::pool::Pool;
use memento::pmem::pool::PoolError;
use memento::pmem::ptr::PoolPtr;
use memento::Memento;

type Hook = fn(&CombStruct, &Guard, &Pool<CombStateRec>);

const NO_HOOK: Option<&Hook> = None;

fn handle(tid: usize, rec: bool) -> Handle {
    Handle::new(tid, unprotected(), rec).unwrap()
}

fn add(data: u64, arg: u64) -> (u64, u64) {
    (data + arg, data)
}

struct Fixture {
    pool: Pool<CombStateRec>,
    s: CombStruct,
    threads: Vec<CombThreadState>,
}

fn fixture(initial: u64, nr_threads: usize) -> Fixture {
    let mut pool = Pool::<CombStateRec>::create(0, 2 * nr_threads + 1).unwrap();
    let stable = pool.allocate(CombStateRec::new(initial)).unwrap();
    let threads = (0..=nr_threads)
        .map(|_| CombThreadState::new(initial, &mut pool).unwrap())
        .take(nr_threads)
        .collect();
    let s = CombStruct::new(
        CombiningLock::new(),
        [CombRequest::new(); 65],
        PAtomic::from_ptr(PoolPtr::from(stable.into_offset())),
        nr_threads,
    );
    Fixture { pool, s, threads }
}

#[test]
fn lock_word_packs_pointer_and_owner() {
    assert_eq!(aux_bits(), !0x1ffu64);
    assert_eq!(compose_aux_bit(0, 5), 5);
    assert_eq!(compose_aux_bit(3, 5), (3 << 9) | 5);
    assert_eq!(compose_aux_bit(3, 0x3ff), (3 << 9) | 0x1ff);
    assert_eq!(compose_aux_bit(u64::MAX, 0), !0x1ffu64);
    assert_eq!(decompose_aux_bit((3 << 9) | 5), (3, 5));
    assert_eq!(decompose_aux_bit(u64::MAX), (u64::MAX >> 9, 0x1ff));
    assert_eq!(decompose_aux_bit(0), (0, 0));
}

#[test]
fn lock_goes_to_the_first_and_stays_until_unlock() {
    let mut lock = CombiningLock::default();
    assert_eq!(lock.peek(), (0, 0));
    assert!(!lock.is_owner(1));
    assert_eq!(lock.try_lock(1), Ok(()));
    assert!(lock.is_owner(1));
    assert_eq!(lock.peek(), (0, 1));
    // The owner gets it again; nobody else does.
    assert_eq!(lock.try_lock(1), Ok(()));
    assert_eq!(lock.try_lock(2), Err((0, 1)));
    assert_eq!(lock.peek(), (0, 1));
    lock.unlock(0x1234);
    assert_eq!(lock.peek(), (0x1234, 0));
    assert!(!lock.is_owner(1));
    // Taking the lock resets the published pointer.
    assert_eq!(lock.try_lock(2), Ok(()));
    assert_eq!(lock.peek(), (0, 2));
    lock.unlock(u64::MAX);
    assert_eq!(lock.peek(), (u64::MAX >> 9, 0));
}

#[test]
fn new_state_has_performed_nothing() {
    let state = CombStateRec::new(17);
    assert_eq!(state.data, 17);
    for t in 0..NR_SLOTS {
        assert_eq!(state.return_value(t), 0);
        assert_eq!(state.deactivate(t), 0);
    }
    assert_eq!(NR_SLOTS, MAX_THREADS + 1);
    let node = Node { data: 1, next: 0 };
    assert_eq!((node.data, node.next), (1, 0));
}

#[test]
fn thread_state_needs_room_for_two_versions() {
    let mut pool = Pool::<CombStateRec>::create(0, 3).unwrap();
    assert!(CombThreadState::new(0, &mut pool).is_ok());
    assert_eq!(CombThreadState::new(0, &mut pool).err(), Some(PoolError::OutOfPool));
    assert!(Pool::<CombStateRec>::create(0, 0).map(|mut p| CombThreadState::new(0, &mut p).is_err()).unwrap());
    assert!(Pool::<CombStateRec>::create(0, 2).map(|mut p| CombThreadState::new(0, &mut p).is_ok()).unwrap());
    // The failed attempt gave back what it had taken.
    assert!(pool.allocate(CombStateRec::new(0)).is_ok());
    assert_eq!(pool.allocate(CombStateRec::new(0)).err(), Some(PoolError::OutOfPool));
}

#[test]
fn memento_keeps_a_checkpointed_count_across_a_crash() {
    let mut mmt = CombMemento::new();
    assert_eq!(mmt.chk_activate(5, &handle(1, false)), 5);
    assert_eq!(mmt.chk_activate(6, &handle(1, false)), 6);
    assert_eq!(mmt.chk_activate(9, &handle(1, true)), 6);
    mmt.backup_retval(42);
    assert_eq!(mmt.peek_retval(), 42);
    mmt.clear();
    assert_eq!(mmt.peek_retval(), 0);
    assert_eq!(mmt.chk_activate(9, &handle(1, true)), 9);
    assert_eq!(CombMemento::default().peek_retval(), 0);
}

#[test]
fn each_of_n_increments_is_performed_once() {
    // N threads each ask for an increment of a counter. Afterwards the
    // counter is initial + N, and each caller got its place in the order.
    let n = 8usize;
    let mut f = fixture(100, n);
    let mut returned = Vec::new();
    for tid in 1..=n {
        let mut mmt = CombMemento::new();
        let mut h = handle(tid, false);
        let r = Combining::apply_op(
            1,
            &mut f.s,
            &mut f.threads[tid - 1],
            &add,
            NO_HOOK,
            NO_HOOK,
            &mut mmt,
            &mut h,
            &mut f.pool,
        );
        returned.push(r.unwrap());
        assert_eq!(mmt.peek_retval(), returned[tid - 1]);
    }
    assert_eq!(returned, (100..108).collect::<Vec<u64>>());
    let guard = unprotected();
    let stable = f.s.pstate.load(memento::pepoch::atomic::MemOrder::SeqCst, &guard);
    let state = f.pool.deref(&stable.as_ptr()).unwrap();
    assert_eq!(state.data, 108);
    assert!(f.s.pstate.is_persisted());
    assert_eq!(f.s.lock().peek().1, 0);
    for tid in 1..=n {
        assert_eq!(state.deactivate(tid), 1);
        assert_eq!(state.return_value(tid), 99 + tid as u64);
        assert_eq!((f.s.request(tid).arg(), f.s.request(tid).activate()), (1, 1));
    }
}

#[test]
fn a_combiner_performs_the_requests_of_the_others() {
    let n = 4usize;
    let mut f = fixture(0, n);
    // Thread 3 owns the lock and has stopped; threads 1 and 2 register
    // their requests and find the lock taken.
    let mut m3 = CombMemento::new();
    assert!(f.s.lock_mut().try_lock(3).is_ok());
    let mut mementos: Vec<CombMemento> = Vec::new();
    for tid in 1..=2usize {
        let mut mmt = CombMemento::new();
        let mut h = handle(tid, false);
        let r = Combining::apply_op(
            10 * tid as u64,
            &mut f.s,
            &mut f.threads[tid - 1],
            &add,
            NO_HOOK,
            NO_HOOK,
            &mut mmt,
            &mut h,
            &mut f.pool,
        );
        assert_eq!(r, Err(CombError::Stalled));
        assert_eq!(Combining::do_non_combine(&f.s, &mut mmt, tid, &f.pool), Err(()));
        mementos.push(mmt);
    }
    // Thread 3 comes back, registers its own request, and performs all
    // three, in the order of the thread ids.
    let mut h3 = handle(3, false);
    let r3 = Combining::apply_op(
        5,
        &mut f.s,
        &mut f.threads[2],
        &add,
        NO_HOOK,
        NO_HOOK,
        &mut m3,
        &mut h3,
        &mut f.pool,
    );
    assert_eq!(r3, Ok(30));
    // The others read their answers from what the combiner published.
    assert_eq!(Combining::do_non_combine(&f.s, &mut mementos[0], 1, &f.pool), Ok(0));
    assert_eq!(Combining::do_non_combine(&f.s, &mut mementos[1], 2, &f.pool), Ok(10));
    assert_eq!(mementos[1].peek_retval(), 10);
    // Thread 4 has asked for nothing, and finds its slot as it was.
    let mut m4 = CombMemento::new();
    assert_eq!(Combining::do_non_combine(&f.s, &mut m4, 4, &f.pool), Ok(0));
    let (ptr, owner) = f.s.lock().peek();
    assert_eq!(owner, 0);
    assert_eq!(f.pool.deref(&PoolPtr::from(ptr)).map(|s| s.data), Some(35));
}

#[test]
fn a_thread_that_re_executes_does_not_repeat_its_request() {
    let mut f = fixture(0, 2);
    let mut mmt = CombMemento::new();
    let mut h = handle(1, false);
    let first =
        Combining::apply_op(7, &mut f.s, &mut f.threads[0], &add, NO_HOOK, NO_HOOK, &mut mmt, &mut h, &mut f.pool);
    assert_eq!(first, Ok(0));
    // The thread crashes after the request was performed and comes back
    // with the same memento.
    let mut h = handle(1, true);
    let again =
        Combining::apply_op(7, &mut f.s, &mut f.threads[0], &add, NO_HOOK, NO_HOOK, &mut mmt, &mut h, &mut f.pool);
    assert_eq!(again, Ok(0));
    assert!(h.rec());
    let (ptr, _) = f.s.lock().peek();
    assert_eq!(f.pool.deref(&PoolPtr::from(ptr)).map(|s| s.data), Some(7));
    // Another thread has combined since: the stable state is past the
    // request, and the answer is the one backed up.
    let mut m2 = CombMemento::new();
    let mut h2 = handle(2, false);
    assert_eq!(
        Combining::apply_op(1, &mut f.s, &mut f.threads[1], &add, NO_HOOK, NO_HOOK, &mut m2, &mut h2, &mut f.pool),
        Ok(7)
    );
    let mut h = handle(1, true);
    assert_eq!(
        Combining::apply_op(7, &mut f.s, &mut f.threads[0], &add, NO_HOOK, NO_HOOK, &mut mmt, &mut h, &mut f.pool),
        Ok(0)
    );
    // A thread that crashed before its request was registered performs it
    // when it comes back.
    let mut fresh = CombMemento::new();
    let mut h = handle(1, true);
    assert_eq!(
        Combining::apply_op(3, &mut f.s, &mut f.threads[0], &add, NO_HOOK, NO_HOOK, &mut fresh, &mut h, &mut f.pool),
        Ok(8)
    );
    assert!(!h.rec());
}

#[test]
fn a_combiner_that_crashed_with_the_lock_finishes_the_combine() {
    let mut f = fixture(0, 2);
    let mut mmt = CombMemento::new();
    // Thread 1 checkpointed its count, registered its request and took the
    // lock, and crashed before it performed anything.
    let mut h = handle(1, false);
    assert_eq!(mmt.chk_activate(1, &h), 1);
    assert!(f.s.lock_mut().try_lock(1).is_ok());
    h.set_rec(true);
    let r = Combining::apply_op(4, &mut f.s, &mut f.threads[0], &add, NO_HOOK, NO_HOOK, &mut mmt, &mut h, &mut f.pool);
    assert_eq!(r, Ok(0));
    assert!(!h.rec());
    assert_eq!(f.s.lock().peek().1, 0);
    let (ptr, _) = f.s.lock().peek();
    assert_eq!(f.pool.deref(&PoolPtr::from(ptr)).map(|s| s.data), Some(4));
}

#[test]
fn cleared_combining_memento_starts_over() {
    let mut mmt = CombMemento::new();
    assert_eq!(mmt.chk_activate(5, &handle(1, false)), 5);
    mmt.backup_retval(9);
    Memento::clear(&mut mmt);
    assert_eq!(mmt.peek_retval(), 0);
    assert_eq!(mmt.chk_activate(7, &handle(1, true)), 7);
}

#[test]
fn hooks_run_before_and_after_the_commit() {
    let mut f = fixture(5, 2);
    let before = f.s.pstate.load(memento::pepoch::atomic::MemOrder::SeqCst, &unprotected()).as_ptr().into_offset();
    let seen: std::cell::RefCell<Vec<(u64, u64, u64)>> = std::cell::RefCell::new(Vec::new());
    let record = |s: &CombStruct, g: &Guard, pool: &Pool<CombStateRec>| {
        let stable = s.pstate.load(memento::pepoch::atomic::MemOrder::SeqCst, g).as_ptr();
        let data = pool.deref(&stable).map(|state| state.data).unwrap();
        seen.borrow_mut().push((stable.into_offset(), data, s.lock().peek().1));
    };
    let mut mmt = CombMemento::new();
    let mut h = handle(2, false);
    let r = Combining::apply_op(
        3,
        &mut f.s,
        &mut f.threads[1],
        &add,
        Some(&record),
        Some(&record),
        &mut mmt,
        &mut h,
        &mut f.pool,
    );
    assert_eq!(r, Ok(5));
    let after = f.s.lock().peek().0;
    // The first hook saw the old stable state, the second the new one; both
    // ran while the combiner owned the lock.
    assert_eq!(*seen.borrow(), vec![(before, 5, 2), (after, 8, 2)]);
    assert_ne!(before, after);
    // A thread that finds the lock taken runs no hook.
    seen.borrow_mut().clear();
    assert!(f.s.lock_mut().try_lock(2).is_ok());
    let mut h1 = handle(1, false);
    let mut m1 = CombMemento::new();
    let r = Combining::apply_op(
        1,
        &mut f.s,
        &mut f.threads[0],
        &add,
        Some(&record),
        NO_HOOK,
        &mut m1,
        &mut h1,
        &mut f.pool,
    );
    assert_eq!(r, Err(CombError::Stalled));
    assert!(seen.borrow().is_empty());
}
