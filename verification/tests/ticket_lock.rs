use memento::ds::ticket_lock::Lock;
use memento::ds::ticket_lock::LockStep;
use memento::ds::ticket_lock::Membership;
use memento::ds::ticket_lock::State;
use memento::ds::ticket_lock::TicketLock;
use memento::ds::ticket_lock::Unlock;
use memento::ds::ticket_lock::NO_TICKET;
use memento::ds::ticket_lock::TICKET_LOCK_INIT;

const NR_THREAD: usize = 12;
const COUNT: usize = 100_000;

#[test]
fn concur_add() {
    const FILE_NAME: &str = "ticket_concur_add.pool";
    assert!(!FILE_NAME.is_empty());
    let mut lock = TicketLock::default();
    let mut clients: Vec<Lock> = (0..NR_THREAD).map(|_| Lock::default()).collect();
    let mut sum = 0usize;
    for _ in 0..COUNT {
        // Every thread draws its ticket before any of them enters.
        for client in clients.iter_mut() {
            let _ = client.run(&mut lock);
        }
        for client in clients.iter_mut() {
            let ticket = match client.run(&mut lock) {
                LockStep::Acquired(ticket) => ticket,
                other => panic!("the lock should serve the next ticket, not {:?}", other),
            };
            sum += 1;
            Unlock::default().run(&mut lock, ticket);
            client.reset(&mut lock);
        }
    }
    assert_eq!(sum, NR_THREAD * COUNT);
}

#[test]
fn membership_starts_ready_without_a_ticket() {
    let m = Membership::default();
    assert_eq!(m, Membership { ticket: NO_TICKET, state: State::Ready });
    assert!(!m.is_ticketing());
    assert!(Membership { ticket: NO_TICKET, state: State::Trying }.is_ticketing());
    assert!(!Membership { ticket: 3, state: State::Trying }.is_ticketing());
    assert!(!Membership { ticket: NO_TICKET, state: State::Recovering }.is_ticketing());
    assert_eq!(Lock::new().id(), None);
}

#[test]
fn tickets_are_served_in_the_order_they_were_drawn() {
    let mut lock = TicketLock::new();
    assert_eq!(lock.curr(), TICKET_LOCK_INIT);
    let mut a = Lock::new();
    let mut b = Lock::new();
    let mut c = Lock::new();
    assert_eq!(a.run(&mut lock), LockStep::Acquired(1));
    assert_eq!((a.id(), b.id()), (Some(0), None));
    assert_eq!(b.run(&mut lock), LockStep::Waiting(2));
    assert_eq!(c.run(&mut lock), LockStep::Waiting(3));
    // Asking again changes nothing.
    assert_eq!(b.run(&mut lock), LockStep::Waiting(2));
    assert_eq!(a.run(&mut lock), LockStep::Acquired(1));
    lock.unlock(1);
    assert_eq!(lock.curr(), 2);
    assert_eq!(c.run(&mut lock), LockStep::Waiting(3));
    assert_eq!(b.run(&mut lock), LockStep::Acquired(2));
    // Giving up a ticket that the lock has passed changes nothing.
    lock.unlock(1);
    assert_eq!(lock.curr(), 2);
    Unlock::new().run(&mut lock, 2);
    assert_eq!(c.run(&mut lock), LockStep::Acquired(3));
    // A client that is reset draws a new ticket.
    a.reset(&mut lock);
    assert_eq!(a.run(&mut lock), LockStep::Waiting(4));
    lock.unlock(3);
    assert_eq!(a.run(&mut lock), LockStep::Acquired(4));
}

#[test]
fn search_for_a_lost_ticket_waits_for_a_member_that_is_drawing() {
    let mut lock = TicketLock::new();
    let mut a = Lock::new();
    let mut b = Lock::new();
    assert_eq!(a.run(&mut lock), LockStep::Acquired(1));
    lock.unlock(1);
    a.reset(&mut lock);
    assert_eq!(b.run(&mut lock), LockStep::Acquired(2));
    // Nothing is out of line.
    assert!(lock.recover());
    assert_eq!(lock.curr(), 2);
    // A crashes in the middle of drawing; a search has to wait for it.
    lock.interrupt_draw(&a);
    assert!(!lock.recover());
    assert_eq!(lock.curr(), 2);
    // A comes back, does not know whether it drew, searches, finds the
    // tickets that are written down in line, and draws again.
    assert_eq!(a.run(&mut lock), LockStep::Waiting(4));
    assert_eq!(b.run(&mut lock), LockStep::Acquired(2));
    // The ticket that A lost is 3, so 4 is out of line now, and a search
    // has to wait until the lock serves it.
    assert!(!lock.recover());
    assert_eq!(lock.curr(), 2);
    // A client that the lock does not know has nothing to interrupt.
    lock.interrupt_draw(&Lock::new());
    assert_eq!(a.run(&mut lock), LockStep::Waiting(4));
}

#[test]
fn search_waits_for_the_lock_to_reach_a_ticket_that_is_out_of_line() {
    let mut lock = TicketLock::new();
    let mut a = Lock::new();
    let mut b = Lock::new();
    assert_eq!(a.run(&mut lock), LockStep::Acquired(1));
    // A crashes while it draws its next ticket, 2, which is lost. B draws 3.
    a.reset(&mut lock);
    lock.interrupt_draw(&a);
    assert_eq!(b.run(&mut lock), LockStep::Waiting(3));
    // A searches: 3 is out of line, and the lock serves 1.
    assert_eq!(a.run(&mut lock), LockStep::Recovering);
    assert_eq!(a.run(&mut lock), LockStep::Recovering);
    assert_eq!(lock.curr(), 1);
    assert!(!lock.recover());
}
