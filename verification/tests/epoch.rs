use memento::pepoch::deferred::dedup_by_key;
use memento::pepoch::deferred::Deferred;
use memento::pepoch::deferred::NO_OP_FUNC;
use memento::pepoch::epoch::Epoch;
use memento::pepoch::epoch::EPOCH_MODULUS;
use memento::pepoch::internal::unprotected;
use memento::pepoch::internal::Bag;
use memento::pepoch::internal::Global;
use memento::pepoch::internal::Local;
use memento::pepoch::internal::DESTROY_FUNC;
use memento::pepoch::internal::MAX_OBJECTS;
use memento::pepoch::internal::PINNINGS_BETWEEN_COLLECT;

const SET: usize = 2;
const INCR: usize = 3;

fn run(func: usize, arg: u64, flag: &mut u64) {
    if func == SET {
        *flag = arg;
    } else if func == INCR {
        *flag += 1;
    }
}

#[test]
fn local_size() {
    assert!(
        core::mem::size_of::<Local>() <= 2048,
        "An allocation of `Local` should be <= 2048 bytes."
    );
}

#[test]
fn check_defer() {
    let mut flag = 0u64;
    let d = Deferred::new(SET, None, 42);
    assert_eq!(flag, 0);
    let (func, arg) = d.call();
    run(func, arg, &mut flag);
    assert_eq!(flag, 42);
}

#[test]
fn check_bag() {
    let mut flag = 0u64;
    let mut bag = Bag::new();
    assert!(bag.is_empty());

    for _ in 0..MAX_OBJECTS {
        assert!(bag.try_push(Deferred::new(INCR, None, 0)).is_ok());
        assert!(!bag.is_empty());
        assert_eq!(flag, 0);
    }

    let result = bag.try_push(Deferred::new(INCR, None, 0));
    assert!(result.is_err());
    assert!(!bag.is_empty());
    assert_eq!(flag, 0);

    for d in bag.into_deferreds() {
        let (func, arg) = d.call();
        run(func, arg, &mut flag);
    }
    assert_eq!(flag, MAX_OBJECTS as u64);
}

#[test]
fn no_op_does_nothing() {
    let mut flag = 7u64;
    let (func, arg) = Deferred::no_op().call();
    assert_eq!(func, NO_OP_FUNC);
    run(func, arg, &mut flag);
    assert_eq!(flag, 7);
    assert_eq!(Deferred::new(SET, Some(9), 1).key(), Some(9));
    assert!(Bag::default().is_empty());
}

#[test]
fn epoch_counts_modulo_two_to_the_sixty_two() {
    let e0 = Epoch::starting();
    assert!(!e0.is_pinned());
    assert!(!e0.is_advancing());
    let e1 = e0.successor();
    let e2 = e1.successor();
    assert_eq!(e1.wrapping_sub(e0), 1);
    assert_eq!(e2.wrapping_sub(e0), 2);
    assert_eq!(e0.wrapping_sub(e1), EPOCH_MODULUS - 1);
    assert_eq!(e0.wrapping_sub(e0), 0);
    let last = Epoch { data: (EPOCH_MODULUS - 1) * 4 + 1 };
    assert!(last.is_pinned());
    assert_eq!(last.successor(), Epoch { data: 1 });
    assert_eq!(last.successor().wrapping_sub(last), 1);
    assert_eq!(last.wrapping_sub(last.successor()), EPOCH_MODULUS - 1);
    assert_eq!(Epoch::default(), e0);
}

#[test]
fn epoch_flags_do_not_touch_the_counter() {
    let e = Epoch::starting().successor().successor().successor();
    assert_eq!(e, Epoch { data: 12 });
    assert_eq!(e.pinned(), Epoch { data: 13 });
    assert_eq!(e.pinned().pinned(), Epoch { data: 13 });
    assert_eq!(e.pinned().unpinned(), e);
    assert_eq!(e.unpinned(), e);
    assert_eq!(e.with_advancing(true), Epoch { data: 14 });
    assert!(e.with_advancing(true).is_advancing());
    assert_eq!(e.with_advancing(true).with_advancing(false), e);
    assert_eq!(e.pinned().with_advancing(true).wrapping_sub(Epoch::starting()), 3);
}

#[test]
fn sealed_bag_expires_two_epochs_later() {
    let e = Epoch::starting().successor();
    let mut bag = Bag::new();
    assert!(bag.try_push(Deferred::new(INCR, None, 0)).is_ok());
    let sealed = bag.seal(e);
    assert_eq!(sealed.epoch(), e);
    assert!(!sealed.is_expired(e));
    assert!(!sealed.is_expired(e.successor()));
    assert!(sealed.is_expired(e.successor().successor()));
    assert_eq!(sealed.into_deferreds().len(), 1);
}

#[test]
fn dedup_keeps_the_first_record_of_each_key() {
    let records = vec![
        Deferred::new(INCR, Some(1), 10),
        Deferred::new(INCR, None, 11),
        Deferred::new(INCR, Some(2), 12),
        Deferred::new(INCR, Some(1), 13),
        Deferred::new(INCR, None, 14),
        Deferred::new(INCR, Some(2), 15),
        Deferred::new(INCR, Some(1), 16),
    ];
    let kept = dedup_by_key(&records);
    let args: Vec<u64> = kept.iter().map(|d| d.arg).collect();
    assert_eq!(args, vec![10, 11, 12, 14]);
}

#[test]
fn destructor_runs_once_for_an_object_retired_twice() {
    let mut global = Global::new();
    let handle = Local::register(&mut global, Some(1));
    let guard = handle.pin(&mut global);
    guard.defer_destroy(&mut global, 128);
    guard.defer_destroy(&mut global, 256);
    guard.defer_destroy(&mut global, 128);
    guard.flush(&mut global);
    Local::unpin(&mut global, guard);
    assert!(global.take_reclaimed().is_empty());
    for _ in 0..3 {
        let guard = handle.pin(&mut global);
        guard.flush(&mut global);
        Local::unpin(&mut global, guard);
    }
    let due = global.take_reclaimed();
    let mut destroyed: Vec<u64> = due.iter().map(|d| d.arg).collect();
    destroyed.sort();
    assert_eq!(destroyed, vec![128, 256]);
    assert!(due.iter().all(|d| d.func == DESTROY_FUNC));
    assert!(global.take_reclaimed().is_empty());
}

#[test]
fn unprotected_guard_makes_work_due_at_once() {
    let mut global = Global::new();
    let guard = unprotected();
    assert_eq!(guard.local(), None);
    guard.defer_destroy(&mut global, 128);
    guard.defer_persist(&mut global, 64, 8);
    guard.flush(&mut global);
    assert_eq!(global.take_reclaimed().len(), 1);
    assert_eq!(global.take_flushes(), vec![(64, 8)]);
}

#[test]
fn repeated_defer_persist_issues_one_flush() {
    let mut global = Global::new();
    let handle = Local::register(&mut global, Some(1));
    let guard = handle.pin(&mut global);
    guard.defer_persist(&mut global, 0x2000, 64);
    guard.defer_persist(&mut global, 0x1000, 8);
    guard.defer_persist(&mut global, 0x2000, 64);
    guard.defer_persist(&mut global, 0x2000, 128);
    guard.defer_persist(&mut global, 0x1000, 8);
    assert!(global.take_flushes().is_empty());
    Local::unpin(&mut global, guard);
    assert_eq!(global.take_flushes(), vec![(0x1000, 8), (0x2000, 64)]);
    // The set was cleared: the next unpin issues nothing.
    let guard = handle.pin(&mut global);
    Local::unpin(&mut global, guard);
    assert!(global.take_flushes().is_empty());
}

#[test]
fn full_bag_is_cut_into_sealed_bags_at_unpin() {
    let mut global = Global::new();
    let handle = Local::register(&mut global, Some(1));
    let guard = handle.pin(&mut global);
    for i in 0..85u64 {
        guard.defer_destroy(&mut global, 128 * (i + 1));
    }
    Local::unpin(&mut global, guard);
    assert!(global.local(handle.index()).owner() == Some(1));
    // Nothing is due while the global epoch is that of the seal.
    assert!(global.take_reclaimed().is_empty());
    let guard = unprotected();
    global.collect(&guard);
    assert!(global.take_reclaimed().is_empty());
    global.collect(&guard);
    // Two epochs on, the bags come off the queue in the order they went in:
    // the last one cut first, each holding the newest records first.
    let due: Vec<u64> = global.take_reclaimed().iter().map(|d| d.arg / 128).collect();
    let mut expected: Vec<u64> = vec![5, 4, 3, 2, 1];
    expected.extend((6..=45).rev());
    expected.extend((46..=85).rev());
    assert_eq!(due, expected);
}

#[test]
fn short_bag_waits_for_a_flush() {
    let mut global = Global::new();
    let handle = Local::register(&mut global, Some(1));
    let guard = handle.pin(&mut global);
    for i in 0..(MAX_OBJECTS as u64 - 1) {
        guard.defer_destroy(&mut global, 128 * (i + 1));
    }
    Local::unpin(&mut global, guard);
    let guard = unprotected();
    global.collect(&guard);
    global.collect(&guard);
    global.collect(&guard);
    assert!(global.take_reclaimed().is_empty());
}

#[test]
fn epoch_does_not_advance_past_a_pinned_participant() {
    // A participant pinned in epoch e retires an object; another stays
    // pinned in e. The object's destructor is not due before the second
    // one unpins.
    let mut global = Global::new();
    let t1 = Local::register(&mut global, Some(1));
    let t2 = Local::register(&mut global, Some(2));
    let g1 = t1.pin(&mut global);
    let g2 = t2.pin(&mut global);
    let e = global.local(t2.index()).owner().map(|_| global.epoch()).unwrap();
    g1.defer_destroy(&mut global, 128);
    g1.flush(&mut global);
    Local::unpin(&mut global, g1);
    for _ in 0..10 {
        let g1 = t1.pin(&mut global);
        g1.flush(&mut global);
        Local::unpin(&mut global, g1);
        assert!(global.take_reclaimed().is_empty());
        assert!(global.epoch().wrapping_sub(e) <= 1);
        assert!(t2.is_pinned(&global));
    }
    Local::unpin(&mut global, g2);
    let g1 = t1.pin(&mut global);
    g1.flush(&mut global);
    g1.flush(&mut global);
    Local::unpin(&mut global, g1);
    assert!(global.epoch().wrapping_sub(e) >= 2);
    let due: Vec<u64> = global.take_reclaimed().iter().map(|d| d.arg).collect();
    assert_eq!(due, vec![128]);
}

#[test]
fn try_advance_moves_one_epoch_when_nobody_blocks() {
    let mut global = Global::new();
    let guard = unprotected();
    let e0 = global.epoch();
    assert_eq!(global.try_advance(&guard).wrapping_sub(e0), 1);
    let handle = Local::register(&mut global, None);
    let pinned_in = global.epoch();
    // The first pinning collects, and so advances past the epoch that the
    // participant is pinned in. From there the epoch is stuck.
    let g = handle.pin(&mut global);
    assert_eq!(global.epoch().wrapping_sub(pinned_in), 1);
    assert_eq!(global.try_advance(&guard).wrapping_sub(pinned_in), 1);
    assert_eq!(global.try_advance(&guard).wrapping_sub(pinned_in), 1);
    Local::unpin(&mut global, g);
    assert_eq!(global.try_advance(&guard).wrapping_sub(pinned_in), 2);
}

#[test]
fn every_128th_pinning_collects() {
    let mut global = Global::new();
    let handle = Local::register(&mut global, Some(1));
    let e0 = global.epoch();
    // The first pinning is one of them.
    let g = handle.pin(&mut global);
    assert_eq!(global.epoch().wrapping_sub(e0), 1);
    Local::unpin(&mut global, g);
    for _ in 1..PINNINGS_BETWEEN_COLLECT {
        let g = handle.pin(&mut global);
        Local::unpin(&mut global, g);
    }
    assert_eq!(global.epoch().wrapping_sub(e0), 1);
    let g = handle.pin(&mut global);
    assert_eq!(global.epoch().wrapping_sub(e0), 2);
    Local::unpin(&mut global, g);
}

#[test]
fn nested_guards_unpin_with_the_last_one() {
    let mut global = Global::new();
    let handle = Local::register(&mut global, Some(1));
    let g1 = handle.pin(&mut global);
    let g2 = handle.pin(&mut global);
    g2.defer_persist(&mut global, 8, 8);
    Local::unpin(&mut global, g2);
    assert!(handle.is_pinned(&global));
    assert!(global.take_flushes().is_empty());
    Local::unpin(&mut global, g1);
    assert!(!handle.is_pinned(&global));
    assert_eq!(global.take_flushes(), vec![(8, 8)]);
}

#[test]
fn find_returns_the_newest_participant_of_a_thread() {
    let mut global = Global::new();
    let a = Local::register(&mut global, Some(7));
    let _b = Local::register(&mut global, Some(8));
    let c = Local::register(&mut global, Some(7));
    assert_eq!(global.len(), 3);
    let slot = c.index();
    let found = Local::find(&mut global, 7).unwrap();
    assert_eq!(found.index(), slot);
    assert!(Local::find(&mut global, 9).is_none());
    // The participant has two handles now, and leaves with the last one.
    c.release(&mut global);
    assert_eq!(Local::find(&mut global, 7).map(|h| h.index()), Some(slot));
    found.release(&mut global);
    Local::release_handle(&mut global, slot);
    assert_eq!(Local::find(&mut global, 7).map(|h| h.index()), Some(a.index()));
}

#[test]
fn leaving_participant_hands_its_bag_over() {
    let mut global = Global::new();
    let handle = Local::register(&mut global, Some(1));
    let guard = handle.pin(&mut global);
    guard.defer_destroy(&mut global, 128);
    guard.defer_persist(&mut global, 16, 4);
    let slot = handle.index();
    handle.release(&mut global);
    // Still pinned, so still there.
    assert_eq!(Local::find(&mut global, 1).map(|h| h.index()), Some(slot));
    Local::release_handle(&mut global, slot);
    Local::unpin(&mut global, guard);
    assert!(Local::find(&mut global, 1).is_none());
    assert_eq!(global.take_flushes(), vec![(16, 4)]);
    let guard = unprotected();
    global.collect(&guard);
    global.collect(&guard);
    let due: Vec<u64> = global.take_reclaimed().iter().map(|d| d.arg).collect();
    assert_eq!(due, vec![128]);
}

#[test]
fn repin_catches_up_with_the_global_epoch() {
    let mut global = Global::new();
    let handle = Local::register(&mut global, Some(1));
    let other = Local::register(&mut global, Some(2));
    let mut guard = handle.pin(&mut global);
    let pinned_in = global.epoch();
    let g = unprotected();
    // The participant is pinned one epoch back, so the epoch is stuck.
    assert_eq!(global.try_advance(&g).wrapping_sub(pinned_in), 0);
    guard.defer_persist(&mut global, 32, 8);
    guard.repin(&mut global);
    assert_eq!(global.take_flushes(), vec![(32, 8)]);
    assert_eq!(global.try_advance(&g).wrapping_sub(pinned_in), 1);
    // Already in the global epoch before the advance; nothing to catch up
    // with afterwards but the epoch itself.
    guard.defer_persist(&mut global, 48, 8);
    guard.repin(&mut global);
    assert_eq!(global.take_flushes(), vec![(48, 8)]);
    guard.repin(&mut global);
    assert!(global.take_flushes().is_empty());
    Local::unpin(&mut global, guard);
    assert!(!other.is_pinned(&global));
    // Resetting the counts makes the participant look new.
    let mut fresh = Local::new(Some(3));
    fresh.acquire_handle();
    fresh.reset_count();
    assert!(!fresh.is_pinned());
    assert_eq!(fresh.owner(), Some(3));
}

#[test]
fn flushes_can_be_made_due_ahead_of_the_unpin() {
    let mut global = Global::new();
    let handle = Local::register(&mut global, Some(1));
    let guard = handle.pin(&mut global);
    guard.defer_persist(&mut global, 0x40, 8);
    guard.defer_persist(&mut global, 0x10, 8);
    guard.persist_now(&mut global);
    // Due before the participant is unpinned, in the order of the set.
    assert!(handle.is_pinned(&global));
    assert_eq!(global.take_flushes(), vec![(0x10, 8), (0x40, 8)]);
    Local::unpin(&mut global, guard);
    assert!(global.take_flushes().is_empty());
    unprotected().persist_now(&mut global);
    assert!(global.take_flushes().is_empty());
}
