//! A ticket lock whose tickets survive a crash.
//!
//! A thread that wants the lock draws the next ticket and holds the lock
//! once the lock serves that ticket. What a thread has drawn stands in its
//! membership, so that a thread that comes back after a crash finds its
//! ticket again. A ticket that was drawn and never written down is lost; a
//! thread that cannot tell whether it drew one looks for such a ticket before
//! it draws again.
//!
//! No step waits. A step that would have to wait says so and changes
//! nothing more; the caller makes the step again later.

use vstd::prelude::*;

verus! {

/// The ticket that stands for "none drawn".
pub const NO_TICKET: usize = 0;

/// The first ticket that a lock serves.
pub const TICKET_LOCK_INIT: usize = 1;

/// The distance from one ticket to the next.
pub const TICKET_JUMP: usize = 1;

/// How far a member has come in drawing a ticket.
#[derive(Clone, Copy, Debug, PartialEq, Eq, Structural)]
pub enum State {
    /// The member is not after the lock.
    Ready,
    /// The member is drawing a ticket or has drawn one.
    Trying,
    /// The member does not know whether it drew a ticket, and looks for a
    /// lost one.
    Recovering,
}

/// What a lock knows of one of its clients: the ticket that the client has
/// drawn and how far it has come.
#[derive(Clone, Copy, Debug, PartialEq, Eq, Structural)]
pub struct Membership {
    pub ticket: usize,
    pub state: State,
}

impl Membership {
    /// The membership of a client that is not after the lock.
    pub fn new() -> (m: Membership)
        ensures
            m == (Membership { ticket: NO_TICKET, state: State::Ready }),
    {
        Membership { ticket: NO_TICKET, state: State::Ready }
    }

    /// Whether the member is in the middle of drawing a ticket.
    pub open spec fn spec_is_ticketing(self) -> bool {
        self.ticket == NO_TICKET && self.state == State::Trying
    }

    /// Whether the member is in the middle of drawing a ticket: it is
    /// trying and has none written down.
    pub fn is_ticketing(&self) -> (b: bool)
        ensures
            b == self.spec_is_ticketing(),
    {
        self.ticket == NO_TICKET && self.state == State::Trying
    }
}

impl Default for Membership {
    fn default() -> (m: Membership)
        ensures
            m == (Membership { ticket: NO_TICKET, state: State::Ready }),
    {
        Membership::new()
    }
}

/// A client as a value.
pub ghost struct ClientView {
    pub membership: Option<usize>,
    pub registered: bool,
}

/// The memento of taking the lock: which membership is the client's, and
/// whether the lock knows of it.
#[derive(Debug)]
pub struct Lock {
    membership: Option<usize>,
    registered: bool,
}

impl View for Lock {
    type V = ClientView;

    closed spec fn view(&self) -> ClientView {
        ClientView { membership: self.membership, registered: self.registered }
    }
}

impl Lock {
    /// The memento of a client that the lock does not know yet.
    pub fn new() -> (l: Lock)
        ensures
            l@ == (ClientView { membership: None, registered: false }),
    {
        Lock { membership: None, registered: false }
    }

    /// The number by which the lock knows the client: the place of its
    /// membership, if it has one.
    pub fn id(&self) -> (i: Option<usize>)
        ensures
            i == self@.membership,
    {
        self.membership
    }

    /// One step of taking `lock` for this client.
    pub fn run(&mut self, lock: &mut TicketLock) -> (step: LockStep)
        requires
            old(lock)@.knows(old(self)@),
        ensures
            (step, final(lock)@, final(self)@) == old(lock)@.lock(old(self)@),
            final(lock)@.knows(final(self)@),
    {
        lock.lock(self)
    }

    /// Makes the client ready to take `lock` anew: its membership, if it has
    /// one, is no longer after the lock. The ticket stays written down until
    /// the next is drawn.
    pub fn reset(&mut self, lock: &mut TicketLock)
        requires
            old(lock)@.knows(old(self)@),
        ensures
            final(self)@ == old(self)@,
            final(lock)@ == match old(self)@.membership {
                Some(i) => TicketView {
                    members: old(lock)@.members.update(
                        i as int,
                        Membership { state: State::Ready, ..old(lock)@.members[i as int] },
                    ),
                    ..old(lock)@
                },
                None => old(lock)@,
            },
    {
        match self.membership {
            Some(i) => {
                let m = lock.members[i];
                lock.members.set(i, Membership { ticket: m.ticket, state: State::Ready });
            },
            None => {},
        }
    }
}

impl Default for Lock {
    fn default() -> (l: Lock)
        ensures
            l@ == (ClientView { membership: None, registered: false }),
    {
        Lock::new()
    }
}

/// The memento of giving the lock up, which has nothing to keep.
#[derive(Debug)]
pub struct Unlock {}

impl Unlock {
    /// The memento.
    pub fn new() -> Unlock {
        Unlock {  }
    }

    /// Gives up `lock`, which is held with `ticket`.
    pub fn run(&mut self, lock: &mut TicketLock, ticket: usize)
        requires
            ticket <= old(lock)@.curr,
        ensures
            final(lock)@ == old(lock)@.unlock(ticket),
    {
        lock.unlock(ticket)
    }
}

impl Default for Unlock {
    fn default() -> Unlock {
        Unlock::new()
    }
}

/// How a step of taking the lock ends.
#[derive(Clone, Copy, Debug, PartialEq, Eq, Structural)]
pub enum LockStep {
    /// The client holds the lock with this ticket.
    Acquired(usize),
    /// The client has drawn this ticket, and the lock does not serve it
    /// yet.
    Waiting(usize),
    /// The client looks for a lost ticket and has to wait for another
    /// member before it can go on.
    Recovering,
}

/// A lock as a value: the ticket it serves, the ticket that is drawn next,
/// and its members.
pub ghost struct TicketView {
    pub curr: usize,
    pub next: usize,
    pub members: Seq<Membership>,
}

/// The ticket after `t`.
pub open spec fn ticket_after(t: usize) -> usize {
    if t == usize::MAX {
        0
    } else {
        (t + 1) as usize
    }
}

/// The place in `s`, from `i` on, of the first ticket above `t`.
pub open spec fn place_of(s: Seq<usize>, t: usize, i: int) -> int
    decreases s.len() - i,
{
    if i < 0 || i >= s.len() {
        s.len() as int
    } else if s[i] <= t {
        place_of(s, t, i + 1)
    } else {
        i
    }
}

/// The tickets from `lo` up to, not including, `hi` that the first `n`
/// members have written down, in rising order.
pub open spec fn snapshot(members: Seq<Membership>, lo: usize, hi: usize, n: int) -> Seq<usize>
    decreases n,
{
    if n <= 0 {
        Seq::empty()
    } else {
        let s = snapshot(members, lo, hi, n - 1);
        let t = members[n - 1].ticket;
        if lo <= t < hi {
            s.insert(place_of(s, t, 0), t)
        } else {
            s
        }
    }
}

/// The place in `s`, from `j` on, of the first ticket that is not the
/// `j`-th after `start`.
pub open spec fn first_gap(s: Seq<usize>, start: usize, j: int) -> int
    decreases s.len() - j,
{
    if j < 0 || j >= s.len() {
        s.len() as int
    } else if s[j] == start + j {
        first_gap(s, start, j + 1)
    } else {
        j
    }
}

/// Whether one of the first `n` members is in the middle of drawing a
/// ticket.
pub open spec fn any_ticketing(members: Seq<Membership>, n: int) -> bool {
    exists|i: int| 0 <= i < n && i < members.len() && (#[trigger] members[i]).spec_is_ticketing()
}

impl TicketView {
    /// The lock has a membership for the client, if the client says so.
    pub open spec fn knows(self, c: ClientView) -> bool {
        &&& c.membership is Some ==> c.membership.unwrap() < self.members.len()
        &&& c.registered ==> c.membership is Some
    }

    /// The lock after it was given up with `ticket`: it serves the next
    /// ticket if it served this one, and is as it was if not.
    pub open spec fn unlock(self, ticket: usize) -> TicketView {
        if self.curr == ticket {
            TicketView { curr: ticket_after(ticket), ..self }
        } else {
            self
        }
    }

    /// The search for a lost ticket: whether it has come to an end, and the
    /// lock after it. It has to wait while a member is in the middle of
    /// drawing. Else it lines up the tickets that are written down, from the
    /// one that is served up to the one that is drawn next. If each is the
    /// one after the one before, none is lost. If not, it takes the first
    /// that is out of line: it has to wait until the lock serves that one,
    /// and then lets the lock pass it.
    pub open spec fn recover(self) -> (bool, TicketView) {
        let s = snapshot(self.members, self.curr, self.next, self.members.len() as int);
        let j = first_gap(s, self.curr, 0);
        if any_ticketing(self.members, self.members.len() as int) {
            (false, self)
        } else if j >= s.len() {
            (true, self)
        } else if s[j] != self.curr {
            (false, self)
        } else {
            (true, TicketView { curr: ticket_after(self.curr), ..self })
        }
    }

    /// The lock after member `i` has drawn the next ticket.
    pub open spec fn draw(self, i: int) -> TicketView {
        TicketView {
            next: ticket_after(self.next),
            members: self.members.update(i, Membership { ticket: self.next, state: State::Trying }),
            ..self
        }
    }

    /// What the lock answers to a client whose member has a ticket.
    pub open spec fn serve(self, i: int) -> LockStep {
        if self.curr < self.members[i].ticket {
            LockStep::Waiting(self.members[i].ticket)
        } else {
            LockStep::Acquired(self.members[i].ticket)
        }
    }

    /// One step of member `i` towards the lock.
    ///
    /// A member that is ready draws a ticket. A member that is trying and
    /// has a ticket written down keeps it. A member that is trying and has
    /// none does not know whether it drew one: it looks for a lost ticket
    /// first, and draws once the search has come to an end. With a ticket, the
    /// member holds the lock if the lock serves that ticket or a later one,
    /// and waits if not.
    pub open spec fn step(self, i: int) -> (LockStep, TicketView) {
        let m = self.members[i];
        if m.state == State::Ready {
            (self.draw(i).serve(i), self.draw(i))
        } else if m.state == State::Trying && m.ticket != NO_TICKET {
            (self.serve(i), self)
        } else {
            let searching = TicketView {
                members: self.members.update(i, Membership { state: State::Recovering, ..m }),
                ..self
            };
            let (done, after) = searching.recover();
            if done {
                (after.draw(i).serve(i), after.draw(i))
            } else {
                (LockStep::Recovering, searching)
            }
        }
    }

    /// One step of taking the lock for the client `c`: the lock gets to know
    /// the client if it does not yet, and the client's member makes its step.
    pub open spec fn lock(self, c: ClientView) -> (LockStep, TicketView, ClientView) {
        let i = match c.membership {
            Some(i) => i as int,
            None => self.members.len() as int,
        };
        let known = if c.membership is None {
            TicketView {
                members: self.members.push(Membership { ticket: NO_TICKET, state: State::Ready }),
                ..self
            }
        } else {
            self
        };
        let (step, after) = known.step(i);
        (step, after, ClientView { membership: Some(i as usize), registered: true })
    }
}

/// A ticket lock.
#[derive(Debug)]
pub struct TicketLock {
    curr: usize,
    next: usize,
    members: Vec<Membership>,
}

impl View for TicketLock {
    type V = TicketView;

    closed spec fn view(&self) -> TicketView {
        TicketView { curr: self.curr, next: self.next, members: self.members@ }
    }
}

impl TicketLock {
    /// A lock without members that serves the first ticket and has drawn
    /// none.
    pub fn new() -> (l: TicketLock)
        ensures
            l@ == (TicketView {
                curr: TICKET_LOCK_INIT,
                next: TICKET_LOCK_INIT,
                members: Seq::empty(),
            }),
    {
        TicketLock { curr: TICKET_LOCK_INIT, next: TICKET_LOCK_INIT, members: Vec::new() }
    }

    /// The ticket that the lock serves.
    pub fn curr(&self) -> (t: usize)
        ensures
            t == self@.curr,
    {
        self.curr
    }

    /// One step of taking the lock for `client`. The answer says whether
    /// the client holds the lock, waits for its turn, or waits in its search
    /// for a lost ticket; a client that waits makes the step again later.
    pub fn lock(&mut self, client: &mut Lock) -> (step: LockStep)
        requires
            old(self)@.knows(old(client)@),
        ensures
            (step, final(self)@, final(client)@) == old(self)@.lock(old(client)@),
            final(self)@.knows(final(client)@),
    {
        let i = match client.membership {
            Some(i) => i,
            None => {
                let i = self.members.len();
                self.members.push(Membership::new());
                client.membership = Some(i);
                i
            },
        };
        client.registered = true;
        let m = self.members[i];
        if m.state == State::Ready {
            self.draw(i);
            return self.serve(i);
        }
        if m.state == State::Trying && m.ticket != NO_TICKET {
            return self.serve(i);
        }
        self.members.set(i, Membership { ticket: m.ticket, state: State::Recovering });
        if !self.recover() {
            return LockStep::Recovering;
        }
        self.draw(i);
        self.serve(i)
    }

    /// What a crash in the middle of drawing leaves behind: the client's
    /// member is trying, the ticket is drawn, and it is not written down. A
    /// client that the lock does not know is left alone.
    pub fn interrupt_draw(&mut self, client: &Lock)
        requires
            old(self)@.knows(client@),
        ensures
            final(self)@ == match client@.membership {
                Some(i) => TicketView {
                    next: ticket_after(old(self)@.next),
                    members: old(self)@.members.update(
                        i as int,
                        Membership { ticket: NO_TICKET, state: State::Trying },
                    ),
                    ..old(self)@
                },
                None => old(self)@,
            },
    {
        match client.membership {
            Some(i) => {
                self.next = self.next.wrapping_add(TICKET_JUMP);
                self.members.set(i, Membership { ticket: NO_TICKET, state: State::Trying });
            },
            None => {},
        }
    }

    /// Member `i` draws the next ticket.
    fn draw(&mut self, i: usize)
        requires
            i < old(self)@.members.len(),
        ensures
            final(self)@ == old(self)@.draw(i as int),
    {
        let t = self.next;
        self.next = t.wrapping_add(TICKET_JUMP);
        self.members.set(i, Membership { ticket: t, state: State::Trying });
    }

    /// What the lock answers to member `i`, which has a ticket.
    fn serve(&self, i: usize) -> (step: LockStep)
        requires
            i < self@.members.len(),
        ensures
            step == self@.serve(i as int),
    {
        let ticket = self.members[i].ticket;
        if self.curr < ticket {
            LockStep::Waiting(ticket)
        } else {
            LockStep::Acquired(ticket)
        }
    }

    /// Looks for a lost ticket. Returns whether the search has come to an
    /// end; if not, the caller has to wait and search again.
    pub fn recover(&mut self) -> (done: bool)
        ensures
            (done, final(self)@) == old(self)@.recover(),
    {
        let end = self.next;
        let start = self.curr;
        let mut n: usize = 0;
        while n < self.members.len()
            invariant
                *self == *old(self),
                n <= self.members@.len(),
                !any_ticketing(self.members@, n as int),
            decreases self.members@.len() - n,
        {
            if self.members[n].is_ticketing() {
                assert(any_ticketing(self.members@, self.members@.len() as int));
                return false;
            }
            n = n + 1;
        }
        let mut tickets: Vec<usize> = Vec::new();
        let mut n: usize = 0;
        while n < self.members.len()
            invariant
                *self == *old(self),
                start == self.curr,
                end == self.next,
                n <= self.members@.len(),
                tickets@ == snapshot(self.members@, start, end, n as int),
                forall|k: int| 0 <= k < tickets@.len() ==> start <= #[trigger] tickets@[k],
            decreases self.members@.len() - n,
        {
            let t = self.members[n].ticket;
            if start <= t && t < end {
                let mut pos: usize = 0;
                while pos < tickets.len() && tickets[pos] <= t
                    invariant
                        pos <= tickets@.len(),
                        place_of(tickets@, t, 0) == place_of(tickets@, t, pos as int),
                    decreases tickets@.len() - pos,
                {
                    pos = pos + 1;
                }
                tickets.insert(pos, t);
            }
            n = n + 1;
        }
        let mut j: usize = 0;
        while j < tickets.len() && tickets[j] - start == j
            invariant
                j <= tickets@.len(),
                forall|k: int| 0 <= k < tickets@.len() ==> start <= #[trigger] tickets@[k],
                first_gap(tickets@, start, 0) == first_gap(tickets@, start, j as int),
            decreases tickets@.len() - j,
        {
            j = j + 1;
        }
        if j >= tickets.len() {
            return true;
        }
        if tickets[j] != self.curr {
            return false;
        }
        self.curr = self.curr.wrapping_add(TICKET_JUMP);
        true
    }

    /// Gives up the lock, which is held with `ticket`: the lock serves the
    /// next ticket. Giving up a ticket that the lock has passed changes
    /// nothing, so that giving up can be repeated.
    pub fn unlock(&mut self, ticket: usize)
        requires
            ticket <= old(self)@.curr,
        ensures
            final(self)@ == old(self)@.unlock(ticket),
    {
        if self.curr == ticket {
            self.curr = ticket.wrapping_add(1);
        }
    }
}

impl Default for TicketLock {
    fn default() -> (l: TicketLock)
        ensures
            l@ == (TicketView {
                curr: TICKET_LOCK_INIT,
                next: TICKET_LOCK_INIT,
                members: Seq::empty(),
            }),
    {
        TicketLock::new()
    }
}

/// The tickets of `s` rise.
pub open spec fn rising(s: Seq<usize>) -> bool {
    forall|i: int, j: int| 0 <= i <= j < s.len() ==> s[i] <= s[j]
}

/// In a rising line of tickets, those that are not above `t` stand before
/// the place that `place_of` gives, and those above `t` from there on.
pub proof fn lemma_place_of(s: Seq<usize>, t: usize, i: int)
    requires
        rising(s),
        0 <= i <= s.len(),
        forall|k: int| 0 <= k < i ==> s[k] <= t,
    ensures
        i <= place_of(s, t, i) <= s.len(),
        forall|k: int| 0 <= k < place_of(s, t, i) ==> s[k] <= t,
        forall|k: int| place_of(s, t, i) <= k < s.len() ==> s[k] > t,
    decreases s.len() - i,
{
    if i < s.len() && s[i] <= t {
        lemma_place_of(s, t, i + 1);
    }
}

/// The line of tickets that the search for a lost ticket looks at rises,
/// and holds only tickets from the one that is served up to the one that is
/// drawn next.
pub proof fn lemma_snapshot_rising(members: Seq<Membership>, lo: usize, hi: usize, n: int)
    requires
        0 <= n <= members.len(),
    ensures
        rising(snapshot(members, lo, hi, n)),
        snapshot(members, lo, hi, n).len() <= n,
        forall|k: int|
            0 <= k < snapshot(members, lo, hi, n).len() ==> lo <= #[trigger] snapshot(
                members,
                lo,
                hi,
                n,
            )[k] < hi,
    decreases n,
{
    if n > 0 {
        lemma_snapshot_rising(members, lo, hi, n - 1);
        let s = snapshot(members, lo, hi, n - 1);
        let t = members[n - 1].ticket;
        if lo <= t < hi {
            lemma_place_of(s, t, 0);
        }
    }
}

/// Without a crash no ticket is lost: a lock whose members hold the tickets
/// from the one that is served up to the one that is drawn next, one each,
/// finds none out of line.
pub proof fn lemma_line_without_gap(s: Seq<usize>, start: usize, j: int)
    requires
        0 <= j <= s.len(),
        forall|k: int| j <= k < s.len() ==> s[k] == start + k,
    ensures
        first_gap(s, start, j) == s.len(),
    decreases s.len() - j,
{
    if j < s.len() {
        lemma_line_without_gap(s, start, j + 1);
    }
}

} // verus!
