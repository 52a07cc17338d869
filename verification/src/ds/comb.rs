//! Detectable combining: one thread at a time, the combiner, performs the
//! pending requests of all threads on a copy of the shared state and
//! publishes the copy.

use vstd::prelude::*;
use crate::ds::combining_lock::CombiningLock;
use crate::ds::combining_lock::LockView;
use crate::ds::combining_lock::RELEASED;
use crate::pepoch::atomic::MemOrder;
use crate::pepoch::atomic::PAtomic;
use crate::pepoch::atomic::PShared;
use crate::pepoch::atomic::Pointer;
use crate::pepoch::internal::Guard;
use crate::ploc::detectable_cas::word_of;
use crate::ploc::detectable_cas::Word;
use crate::ploc::handle::Handle;
use crate::ploc::handle::HandleView;
pub use crate::ploc::handle::MAX_THREADS;
use crate::pmem::pool::Pool;
use crate::pmem::pool::PoolError;
use crate::pmem::ptr::PoolPtr;

verus! {

/// The number of rounds in which a combiner looks for pending requests
/// before it publishes.
pub const COMBINING_ROUNDS: usize = 20;

/// The number of per-thread slots: one for each thread id, and slot 0, which
/// no thread uses.
pub const NR_SLOTS: usize = 65;

/// A node of a linked structure: a value and the tagged pointer to the next
/// node, as the word that a `PAtomic` would hold.
#[derive(Clone, Copy, Debug)]
pub struct Node {
    pub data: u64,
    pub next: u64,
}

/// The request of one thread as a value.
pub ghost struct RequestView {
    pub arg: u64,
    pub activate: u64,
}

/// The request of one thread: its argument, and a count that the thread
/// raises with each request it makes.
#[derive(Clone, Copy, Debug)]
pub struct CombRequest {
    arg: u64,
    activate: u64,
}

impl View for CombRequest {
    type V = RequestView;

    closed spec fn view(&self) -> RequestView {
        RequestView { arg: self.arg, activate: self.activate }
    }
}

impl CombRequest {
    /// The request of a thread that has asked for nothing yet.
    pub fn new() -> (r: CombRequest)
        ensures
            r@ == (RequestView { arg: 0, activate: 0 }),
    {
        CombRequest { arg: 0, activate: 0 }
    }
}

impl CombRequest {
    /// The argument of the request.
    pub fn arg(&self) -> (a: u64)
        ensures
            a == self@.arg,
    {
        self.arg
    }

    /// The count of the request.
    pub fn activate(&self) -> (a: u64)
        ensures
            a == self@.activate,
    {
        self.activate
    }
}

impl Default for CombRequest {
    fn default() -> (r: CombRequest)
        ensures
            r@ == (RequestView { arg: 0, activate: 0 }),
    {
        CombRequest::new()
    }
}

/// A state as a value: the data that the requests work on and, for each
/// thread, what its last request returned and the count of the last request
/// that was performed for it.
pub ghost struct StateView {
    pub data: u64,
    pub return_value: Seq<u64>,
    pub deactivate: Seq<u64>,
}

/// One version of the shared state.
#[derive(Clone, Copy, Debug)]
pub struct CombStateRec {
    pub data: u64,
    return_value: [u64; 65],
    deactivate: [u64; 65],
}

impl View for CombStateRec {
    type V = StateView;

    closed spec fn view(&self) -> StateView {
        StateView {
            data: self.data,
            return_value: self.return_value@,
            deactivate: self.deactivate@,
        }
    }
}

/// What a slot holds before anything was stored in it.
fn cleared_slot() -> (v: u64)
    ensures
        v == 0,
{
    0
}

/// `array_init::array_init` with an initializer that gives every place the
/// cleared slot. The outside function calls the initializer once for each
/// index, in order, and returns the array of what it answered; so every place
/// of the array holds zero.
#[verifier::external_body]
fn cleared_slots() -> (a: [u64; 65])
    ensures
        a@ == Seq::new(65, |i: int| 0u64),
{
    array_init::array_init(|_| cleared_slot())
}

impl CombStateRec {
    /// A state with the data `data` in which no request was performed.
    pub fn new(data: u64) -> (s: CombStateRec)
        ensures
            s@ == (StateView {
                data,
                return_value: Seq::new(65, |i: int| 0u64),
                deactivate: Seq::new(65, |i: int| 0u64),
            }),
    {
        CombStateRec { data, return_value: cleared_slots(), deactivate: cleared_slots() }
    }

    /// What the last request of thread `tid` returned.
    pub fn return_value(&self, tid: usize) -> (v: u64)
        requires
            tid < NR_SLOTS,
        ensures
            v == self@.return_value[tid as int],
    {
        self.return_value[tid]
    }

    /// The count of the last request that was performed for thread `tid`.
    pub fn deactivate(&self, tid: usize) -> (v: u64)
        requires
            tid < NR_SLOTS,
        ensures
            v == self@.deactivate[tid as int],
    {
        self.deactivate[tid]
    }
}

/// What a thread keeps for combining: two places for versions of the state,
/// by their offsets in the pool, and which of them it writes next.
#[derive(Debug)]
pub struct CombThreadState {
    index: usize,
    state: [u64; 2],
}

/// A thread's combining state as a value.
pub ghost struct ThreadStateView {
    pub index: usize,
    pub state: Seq<u64>,
}

impl View for CombThreadState {
    type V = ThreadStateView;

    closed spec fn view(&self) -> ThreadStateView {
        ThreadStateView { index: self.index, state: self.state@ }
    }
}

impl CombThreadState {
    /// The two places are in the pool and are not the same.
    pub open spec fn wf(&self, pool: &Pool<CombStateRec>) -> bool {
        &&& self@.index < 2
        &&& self@.state.len() == 2
        &&& pool.contains(self@.state[0])
        &&& pool.contains(self@.state[1])
        &&& self@.state[0] != self@.state[1]
    }

    /// Allocates the two places in `pool`, each with a state that holds
    /// `data`. Fails with `OutOfPool` exactly when the pool has no room for
    /// both, and then leaves every object and the room of the pool as they
    /// were.
    pub fn new(data: u64, pool: &mut Pool<CombStateRec>) -> (r: Result<CombThreadState, PoolError>)
        requires
            old(pool).wf(),
        ensures
            final(pool).wf(),
            r is Ok <==> old(pool).room() >= 2,
            match r {
                Ok(t) => {
                    &&& t.wf(final(pool))
                    &&& t@.index == 0
                    &&& !old(pool).contains(t@.state[0])
                    &&& !old(pool).contains(t@.state[1])
                    &&& final(pool).object(t@.state[0])@ == CombStateRec::new_view(data)
                    &&& final(pool).object(t@.state[1])@ == CombStateRec::new_view(data)
                    &&& final(pool).room() == old(pool).room() - 2
                    &&& forall|o: u64|
                        old(pool).contains(o) ==> #[trigger] final(pool).contains(o) && final(pool).object(o) == old(pool).object(o)
                    &&& forall|o: u64|
                        o != t@.state[0] && o != t@.state[1] && #[trigger] final(pool).contains(o)
                            ==> old(pool).contains(o)
                },
                Err(e) => {
                    &&& e == PoolError::OutOfPool
                    &&& final(pool).room() == old(pool).room()
                    &&& final(pool).base() == old(pool).base()
                    &&& final(pool).capacity() == old(pool).capacity()
                    &&& final(pool).roots() == old(pool).roots()
                    &&& forall|o: u64| #[trigger] final(pool).contains(o) == old(pool).contains(o)
                    &&& forall|o: u64|
                        old(pool).contains(o) ==> #[trigger] final(pool).object(o) == old(pool).object(o)
                },
            },
    {
        let first = match pool.allocate(CombStateRec::new(data)) {
            Ok(p) => p,
            Err(e) => {
                return Err(e);
            },
        };
        let second = match pool.allocate(CombStateRec::new(data)) {
            Ok(p) => p,
            Err(e) => {
                pool.free(first);
                return Err(e);
            },
        };
        let state: [u64; 2] = [first.offset(), second.offset()];
        Ok(CombThreadState { index: 0, state })
    }
}

impl CombStateRec {
    /// A state has a slot for each thread id and slot 0.
    pub proof fn lemma_len(&self)
        ensures
            self@.return_value.len() == NR_SLOTS,
            self@.deactivate.len() == NR_SLOTS,
    {
    }

    /// The view of a state with the data `data` in which no request was
    /// performed.
    pub open spec fn new_view(data: u64) -> StateView {
        StateView {
            data,
            return_value: Seq::new(65, |i: int| 0u64),
            deactivate: Seq::new(65, |i: int| 0u64),
        }
    }
}

/// The central object of combining as a value.
pub ghost struct CombView {
    pub lock: LockView,
    pub requests: Seq<RequestView>,
    pub pstate: Word,
    pub nr_threads: usize,
}

/// The central object of combining: the lock, the request of each thread,
/// the persistent word that points to the stable version of the state, and
/// the number of threads that the combiner serves.
pub struct CombStruct {
    lock: CombiningLock,
    request: [CombRequest; 65],
    pub pstate: PAtomic<CombStateRec>,
    nr_threads: usize,
}

impl View for CombStruct {
    type V = CombView;

    closed spec fn view(&self) -> CombView {
        CombView {
            lock: self.lock@,
            requests: self.request@.map_values(|r: CombRequest| r@),
            pstate: word_of(&self.pstate),
            nr_threads: self.nr_threads,
        }
    }
}

impl CombStruct {
    /// The object serves no more threads than there can be, and has a slot
    /// for each.
    pub open spec fn wf(&self) -> bool {
        self@.nr_threads <= MAX_THREADS && self@.requests.len() == NR_SLOTS
    }

    /// The central object with the lock `lock`, the requests `request` and
    /// the stable state at `pstate`, for `nr_threads` threads; no more than
    /// `MAX_THREADS` are served.
    pub fn new(
        lock: CombiningLock,
        request: [CombRequest; 65],
        pstate: PAtomic<CombStateRec>,
        nr_threads: usize,
    ) -> (s: CombStruct)
        ensures
            s.wf(),
            s@ == (CombView {
                lock: lock@,
                requests: request@.map_values(|r: CombRequest| r@),
                pstate: word_of(&pstate),
                nr_threads: if nr_threads <= MAX_THREADS {
                    nr_threads
                } else {
                    MAX_THREADS
                },
            }),
    {
        let n = if nr_threads <= MAX_THREADS {
            nr_threads
        } else {
            MAX_THREADS
        };
        CombStruct { lock, request, pstate, nr_threads: n }
    }

    /// The request of thread `tid`.
    pub fn request(&self, tid: usize) -> (r: CombRequest)
        requires
            tid < NR_SLOTS,
        ensures
            r@ == self@.requests[tid as int],
    {
        self.request[tid]
    }

    /// The lock.
    pub fn lock(&self) -> (l: &CombiningLock)
        ensures
            l@ == self@.lock,
    {
        &self.lock
    }

    /// The lock, for taking or giving it up.
    pub fn lock_mut(&mut self) -> (l: &mut CombiningLock)
        ensures
            l@ == old(self)@.lock,
            final(self)@ == (CombView { lock: final(l)@, ..old(self)@ }),
    {
        &mut self.lock
    }
}

/// What an operation keeps of a request across a crash: the count that it
/// gave the request, and what the request returned.
pub trait Combinable {
    /// The count that was checkpointed, if one was.
    spec fn activate(&self) -> Option<u64>;

    /// The value that was backed up last.
    spec fn retval(&self) -> u64;

    /// Checkpoints `activate` as the count of the request and returns it. A
    /// thread that re-executes after a crash and finds a count checkpointed
    /// keeps and returns that one.
    fn chk_activate(&mut self, activate: u64, handle: &Handle) -> (r: u64)
        ensures
            r == if handle@.rec && old(self).activate() is Some {
                old(self).activate().unwrap()
            } else {
                activate
            },
            final(self).activate() == Some(r),
            final(self).retval() == old(self).retval(),
    ;

    /// The value that was backed up last.
    fn peek_retval(&mut self) -> (r: u64)
        ensures
            r == old(self).retval(),
            final(self).retval() == old(self).retval(),
            final(self).activate() == old(self).activate(),
    ;

    /// Backs up `return_value` as what the request returned.
    fn backup_retval(&mut self, return_value: u64)
        ensures
            final(self).retval() == return_value,
            final(self).activate() == old(self).activate(),
    ;
}

/// The plain memento of one request.
#[derive(Debug)]
pub struct CombMemento {
    activate: Option<u64>,
    retval: u64,
}

impl CombMemento {
    /// A memento that has seen no request.
    pub fn new() -> (m: CombMemento)
        ensures
            m.activate() is None,
            m.retval() == 0,
    {
        CombMemento { activate: None, retval: 0 }
    }

    /// Forgets the request that the memento has seen, so that it can serve
    /// the next one.
    pub fn clear(&mut self)
        ensures
            final(self).activate() is None,
            final(self).retval() == 0,
    {
        self.activate = None;
        self.retval = 0;
    }
}

impl Default for CombMemento {
    fn default() -> (m: CombMemento)
        ensures
            m.activate() is None,
            m.retval() == 0,
    {
        CombMemento::new()
    }
}

impl Combinable for CombMemento {
    closed spec fn activate(&self) -> Option<u64> {
        self.activate
    }

    closed spec fn retval(&self) -> u64 {
        self.retval
    }

    fn chk_activate(&mut self, activate: u64, handle: &Handle) -> (r: u64) {
        if handle.rec() {
            match self.activate {
                Some(kept) => {
                    return kept;
                },
                None => {},
            }
        }
        self.activate = Some(activate);
        activate
    }

    fn peek_retval(&mut self) -> (r: u64) {
        self.retval
    }

    fn backup_retval(&mut self, return_value: u64) {
        self.retval = return_value;
    }
}

/// Why a request was not performed.
#[derive(Clone, Copy, Debug, PartialEq, Eq, Structural)]
pub enum CombError {
    /// Another thread owns the lock and has not performed the request. The
    /// caller tries again once that thread has moved on.
    Stalled,
}

/// `s1` is `s0` after the request `req` of thread `t` was looked at: if the
/// request is pending, `f` was applied for it to the data and its argument,
/// and the state records what `f` returned and that the request is done.
pub open spec fn serve_one<F: Fn(u64, u64) -> (u64, u64)>(
    f: F,
    req: RequestView,
    t: int,
    s0: StateView,
    s1: StateView,
) -> bool {
    if req.activate > s0.deactivate[t] {
        exists|d: u64, r: u64| #[trigger]
            f.ensures((s0.data, req.arg), (d, r)) && s1 == (StateView {
                data: d,
                return_value: s0.return_value.update(t, r),
                deactivate: s0.deactivate.update(t, req.activate),
            })
    } else {
        s1 == s0
    }
}

/// `s1` is `s0` after the requests of the threads 1 to `n` were looked at,
/// in this order.
pub open spec fn serve_round<F: Fn(u64, u64) -> (u64, u64)>(
    f: F,
    reqs: Seq<RequestView>,
    n: int,
    s0: StateView,
    s1: StateView,
) -> bool
    decreases n,
{
    if n <= 0 {
        s1 == s0
    } else {
        exists|mid: StateView|
            serve_round(f, reqs, n - 1, s0, mid) && #[trigger] serve_one(f, reqs[n], n, mid, s1)
    }
}

/// No request of the threads 1 to `n` is pending in `s`.
pub open spec fn all_served(reqs: Seq<RequestView>, n: int, s: StateView) -> bool {
    forall|t: int| 1 <= t <= n ==> (#[trigger] reqs[t]).activate <= s.deactivate[t]
}

/// In `s` each of the threads 1 to `n` has had exactly the requests
/// performed that it has made.
pub open spec fn settled(reqs: Seq<RequestView>, n: int, s: StateView) -> bool {
    &&& reqs.len() == NR_SLOTS
    &&& s.return_value.len() == NR_SLOTS
    &&& s.deactivate.len() == NR_SLOTS
    &&& 0 <= n <= MAX_THREADS
    &&& forall|t: int| 1 <= t <= n ==> (#[trigger] reqs[t]).activate == s.deactivate[t]
}

/// One request run to its end by a thread that gets the lock: thread `tid`
/// registers the argument `arg` with its next count, and the requests of the
/// threads 1 to `n` are looked at once.
pub open spec fn applied<F: Fn(u64, u64) -> (u64, u64)>(
    f: F,
    n: int,
    reqs: Seq<RequestView>,
    stable: StateView,
    tid: int,
    arg: u64,
    registered: Seq<RequestView>,
    published: StateView,
) -> bool {
    &&& 1 <= tid <= n
    &&& reqs[tid].activate < u64::MAX
    &&& registered == reqs.update(
        tid,
        RequestView { arg, activate: (reqs[tid].activate + 1) as u64 },
    )
    &&& serve_round(f, registered, n, stable, published)
}

/// The requests and the state after the first `k` of the requests that the
/// threads `tids` make one after the other, each with the argument `arg`, can
/// be `reqs` and `s`.
pub open spec fn applied_all<F: Fn(u64, u64) -> (u64, u64)>(
    f: F,
    n: int,
    reqs0: Seq<RequestView>,
    s0: StateView,
    tids: Seq<int>,
    arg: u64,
    k: int,
    reqs: Seq<RequestView>,
    s: StateView,
) -> bool
    decreases k,
{
    if k <= 0 {
        reqs == reqs0 && s == s0
    } else {
        exists|r1: Seq<RequestView>, s1: StateView|
            applied_all(f, n, reqs0, s0, tids, arg, k - 1, r1, s1) && #[trigger] applied(
                f,
                n,
                r1,
                s1,
                tids[k - 1],
                arg,
                reqs,
                s,
            )
    }
}

/// `f` counts: it returns the data it was given and leaves the data raised
/// by the argument, as long as that fits.
pub open spec fn counts<F: Fn(u64, u64) -> (u64, u64)>(f: F) -> bool {
    forall|d: u64, a: u64, r: (u64, u64)| #[trigger]
        f.ensures((d, a), r) ==> r.1 == d && (d + a <= u64::MAX ==> r.0 == d + a)
}

/// A round in which only thread `tid` has a request pending performs that
/// request and nothing else: up to thread `k` the state is untouched if `k`
/// lies before `tid`, and holds the one result if not.
proof fn lemma_serve_single<F: Fn(u64, u64) -> (u64, u64)>(
    f: F,
    reqs: Seq<RequestView>,
    n: int,
    k: int,
    tid: int,
    s0: StateView,
    s1: StateView,
)
    requires
        reqs.len() == NR_SLOTS,
        s0.return_value.len() == NR_SLOTS,
        s0.deactivate.len() == NR_SLOTS,
        0 <= k <= n <= MAX_THREADS,
        1 <= tid <= n,
        reqs[tid].activate > s0.deactivate[tid],
        forall|t: int| 1 <= t <= n && t != tid ==> (#[trigger] reqs[t]).activate == s0.deactivate[t],
        serve_round(f, reqs, k, s0, s1),
    ensures
        k < tid ==> s1 == s0,
        k >= tid ==> exists|d: u64, r: u64| #[trigger]
            f.ensures((s0.data, reqs[tid].arg), (d, r)) && s1 == (StateView {
                data: d,
                return_value: s0.return_value.update(tid, r),
                deactivate: s0.deactivate.update(tid, reqs[tid].activate),
            }),
    decreases k,
{
    if k > 0 {
        let mid = choose|mid: StateView|
            serve_round(f, reqs, k - 1, s0, mid) && #[trigger] serve_one(f, reqs[k], k, mid, s1);
        lemma_serve_single(f, reqs, n, k - 1, tid, s0, mid);
        if k < tid {
            assert(reqs[k].activate == s0.deactivate[k]);
        } else if k == tid {
        } else {
            let (d, r) = choose|d: u64, r: u64| #[trigger]
                f.ensures((s0.data, reqs[tid].arg), (d, r)) && mid == (StateView {
                    data: d,
                    return_value: s0.return_value.update(tid, r),
                    deactivate: s0.deactivate.update(tid, reqs[tid].activate),
                });
            assert(reqs[k].activate == s0.deactivate[k]);
            assert(mid.deactivate[k] == s0.deactivate[k]);
            assert(s1 == mid);
        }
    }
}

/// One request, performed. From a state in which every thread has had its
/// requests performed, a request that is run to its end is performed once, on
/// the data as it stands: the answer to it is what `f` returns, the data is
/// what `f` leaves, nothing is performed for any other thread, and every
/// thread has again had its requests performed.
pub proof fn lemma_applied_once<F: Fn(u64, u64) -> (u64, u64)>(
    f: F,
    n: int,
    reqs: Seq<RequestView>,
    stable: StateView,
    tid: int,
    arg: u64,
    registered: Seq<RequestView>,
    published: StateView,
)
    requires
        settled(reqs, n, stable),
        applied(f, n, reqs, stable, tid, arg, registered, published),
    ensures
        settled(registered, n, published),
        f.ensures((stable.data, arg), (published.data, published.return_value[tid])),
        forall|t: int|
            0 <= t < NR_SLOTS && t != tid ==> published.return_value[t]
                == stable.return_value[t],
{
    assert forall|t: int| 1 <= t <= n && t != tid implies (#[trigger] registered[t]).activate
        == stable.deactivate[t] by {
        assert(reqs[t].activate == stable.deactivate[t]);
    }
    assert(reqs[tid].activate == stable.deactivate[tid]);
    lemma_serve_single(f, registered, n, n, tid, stable, published);
    let (d, r) = choose|d: u64, r: u64| #[trigger]
        f.ensures((stable.data, registered[tid].arg), (d, r)) && published == (StateView {
            data: d,
            return_value: stable.return_value.update(tid, r),
            deactivate: stable.deactivate.update(tid, registered[tid].activate),
        });
    assert forall|t: int| 1 <= t <= n implies (#[trigger] registered[t]).activate
        == published.deactivate[t] by {
        if t != tid {
            assert(reqs[t].activate == stable.deactivate[t]);
        }
    }
}

/// Requests in a row. Let threads make `k` requests one after the other,
/// each run to its end, with a function that counts and the argument `arg`,
/// from a state in which every thread has had its requests performed. Then
/// the function has been applied once for each request, in the order in which
/// they were made: the data has gone up by `arg` for each, and the answer to
/// the last is the data as it stood before it.
pub proof fn lemma_applied_in_a_row<F: Fn(u64, u64) -> (u64, u64)>(
    f: F,
    n: int,
    reqs0: Seq<RequestView>,
    s0: StateView,
    tids: Seq<int>,
    arg: u64,
    k: int,
    reqs: Seq<RequestView>,
    s: StateView,
)
    requires
        counts(f),
        settled(reqs0, n, s0),
        0 <= k <= tids.len(),
        s0.data + k * arg <= u64::MAX,
        applied_all(f, n, reqs0, s0, tids, arg, k, reqs, s),
    ensures
        settled(reqs, n, s),
        s.data == s0.data + k * arg,
        k > 0 ==> s.return_value[tids[k - 1]] == s0.data + (k - 1) * arg,
    decreases k,
{
    if k > 0 {
        let (r1, s1) = choose|r1: Seq<RequestView>, s1: StateView|
            applied_all(f, n, reqs0, s0, tids, arg, k - 1, r1, s1) && #[trigger] applied(
                f,
                n,
                r1,
                s1,
                tids[k - 1],
                arg,
                reqs,
                s,
            );
        assert(s0.data + (k - 1) * arg <= u64::MAX && (k - 1) * arg + arg == k * arg)
            by (nonlinear_arith)
            requires
                s0.data + k * arg <= u64::MAX,
                k > 0,
        ;
        lemma_applied_in_a_row(f, n, reqs0, s0, tids, arg, k - 1, r1, s1);
        lemma_applied_once(f, n, r1, s1, tids[k - 1], arg, reqs, s);
        let r = (s.data, s.return_value[tids[k - 1]]);
        assert(f.ensures((s1.data, arg), r));
        assert(r.1 == s1.data && r.0 == s1.data + arg);
    } else {
        assert(k * arg == 0) by (nonlinear_arith)
            requires
                k == 0,
        ;
    }
}

/// The hook, if there is one, can be called on whatever it is given.
pub open spec fn hook_accepts_all<G: Fn(&CombStruct, &Guard, &Pool<CombStateRec>)>(
    hook: Option<&G>,
) -> bool {
    match hook {
        Some(f) => forall|c: &CombStruct, g: &Guard, p: &Pool<CombStateRec>|
            #[trigger] f.requires((c, g, p)),
        None => true,
    }
}

/// The hook, if there is one, has been called on the central object as it
/// looked like `at`, with the guard `guard` and the pool `pool`.
pub open spec fn hook_ran<G: Fn(&CombStruct, &Guard, &Pool<CombStateRec>)>(
    hook: Option<&G>,
    at: CombView,
    guard: Guard,
    pool: Pool<CombStateRec>,
) -> bool {
    match hook {
        Some(f) => exists|c: CombStruct| c@ == at && #[trigger] f.ensures((&c, &guard, &pool), ()),
        None => true,
    }
}

/// The two roles in combining.
#[derive(Debug)]
pub struct Combining {}

impl Combining {
    /// Looks at the requests of the threads 1 to `nr_threads` once and
    /// performs on `state` those that are pending. Returns how many there
    /// were.
    fn serve<F: Fn(u64, u64) -> (u64, u64)>(
        s: &CombStruct,
        state: &mut CombStateRec,
        sfunc: &F,
    ) -> (served: usize)
        requires
            s.wf(),
            forall|data: u64, arg: u64| sfunc.requires((data, arg)),
        ensures
            serve_round(*sfunc, s@.requests, s@.nr_threads as int, old(state)@, final(state)@),
            all_served(s@.requests, s@.nr_threads as int, final(state)@),
            served == 0 ==> final(state)@ == old(state)@,
            all_served(s@.requests, s@.nr_threads as int, old(state)@) ==> served == 0,
            final(state)@.return_value.len() == 65,
            final(state)@.deactivate.len() == 65,
    {
        let mut served: usize = 0;
        let mut t: usize = 1;
        let ghost reqs = s@.requests;
        while t <= s.nr_threads
            invariant
                s.wf(),
                reqs == s@.requests,
                forall|data: u64, arg: u64| sfunc.requires((data, arg)),
                1 <= t <= s@.nr_threads + 1,
                served < t,
                serve_round(*sfunc, reqs, t - 1, old(state)@, state@),
                all_served(reqs, t - 1, state@),
                served == 0 ==> state@ == old(state)@,
                all_served(reqs, s@.nr_threads as int, old(state)@) ==> served == 0,
                state@.return_value.len() == 65,
                state@.deactivate.len() == 65,
            decreases s@.nr_threads + 1 - t,
        {
            let ghost before = state@;
            let req = s.request[t];
            assert(req@ == reqs[t as int]);
            if req.activate > state.deactivate[t] {
                let (data, ret) = sfunc(state.data, req.arg);
                state.data = data;
                state.return_value[t] = ret;
                state.deactivate[t] = req.activate;
                served = served + 1;
                assert(sfunc.ensures((before.data, req@.arg), (data, ret)));
                assert(state@ == (StateView {
                    data,
                    return_value: before.return_value.update(t as int, ret),
                    deactivate: before.deactivate.update(t as int, req@.activate),
                }));
            }
            assert(serve_one(*sfunc, reqs[t as int], t as int, before, state@));
            proof {
                lemma_serve_step(*sfunc, reqs, t as int, old(state)@, before, state@);
            }
            assert forall|u: int| 1 <= u <= t implies (#[trigger] reqs[u]).activate
                <= state@.deactivate[u] by {
                if u < t {
                    assert(reqs[u].activate <= before.deactivate[u]);
                }
            }
            t = t + 1;
        }
        served
    }

    /// The combiner's part. Thread `handle.tid`, which must own the lock, copies
    /// the stable state, performs the pending requests of all threads on the
    /// copy, writes the copy to the place it writes next, makes that place
    /// the stable state, durably, switches to its other place, and gives up
    /// the lock, publishing the new stable state. Returns what the thread's
    /// own request returned, and backs that up in `mmt`.
    ///
    /// `final_func` is called once the copy is written and before it becomes
    /// the stable state; `after_func` is called once it has become the stable
    /// state and before the lock is given up.
    pub fn do_combine<
        F: Fn(u64, u64) -> (u64, u64),
        G: Fn(&CombStruct, &Guard, &Pool<CombStateRec>),
        H: Fn(&CombStruct, &Guard, &Pool<CombStateRec>),
        M: Combinable,
    >(
        s: &mut CombStruct,
        st_thread: &mut CombThreadState,
        sfunc: &F,
        final_func: Option<&G>,
        after_func: Option<&H>,
        mmt: &mut M,
        handle: &Handle,
        pool: &mut Pool<CombStateRec>,
    ) -> (retval: u64)
        requires
            old(s).wf(),
            handle.wf(),
            old(s)@.lock.tid == handle@.tid,
            old(pool).wf(),
            old(st_thread).wf(old(pool)),
            old(pool).contains(old(s)@.pstate.cur),
            forall|data: u64, arg: u64| sfunc.requires((data, arg)),
            hook_accepts_all(final_func),
            hook_accepts_all(after_func),
        ensures
            final(s).wf(),
            final(pool).wf(),
            final(st_thread).wf(final(pool)),
            ({
                let place = old(st_thread)@.state[old(st_thread)@.index as int];
                let stable = old(pool).object(old(s)@.pstate.cur)@;
                let published = final(pool).object(place)@;
                &&& published.return_value.len() == NR_SLOTS
                &&& published.deactivate.len() == NR_SLOTS
                &&& serve_round(
                    *sfunc,
                    old(s)@.requests,
                    old(s)@.nr_threads as int,
                    stable,
                    published,
                )
                &&& all_served(old(s)@.requests, old(s)@.nr_threads as int, published)
                &&& final(pool).differs_at(old(pool), place)
                &&& final(s)@ == (CombView {
                    lock: LockView { ptr: place & 0x7f_ffff_ffff_ffff, tid: RELEASED },
                    pstate: Word { cur: place, durable: place },
                    ..old(s)@
                })
                &&& final(st_thread)@ == (ThreadStateView {
                    index: (1 - old(st_thread)@.index) as usize,
                    ..old(st_thread)@
                })
                &&& retval == published.return_value[handle@.tid as int]
                &&& final(mmt).retval() == retval
                &&& final(mmt).activate() == old(mmt).activate()
                &&& hook_ran(final_func, old(s)@, handle.spec_guard(), *final(pool))
                &&& hook_ran(
                    after_func,
                    CombView { pstate: Word { cur: place, durable: place }, ..old(s)@ },
                    handle.spec_guard(),
                    *final(pool),
                )
            }),
    {
        let tid = handle.tid();
        let ind = st_thread.index;
        let place = st_thread.state[ind];
        let stable_ptr = PoolPtr::from(
            s.pstate.load(MemOrder::Relaxed, handle.guard()).into_usize(),
        );
        let mut new_state: CombStateRec = *pool.deref(&stable_ptr).unwrap();
        let ghost stable = new_state@;
        let mut round: usize = 0;
        let ghost reqs = s@.requests;
        let ghost n = s@.nr_threads as int;
        loop
            invariant
                s.wf(),
                *s == *old(s),
                reqs == s@.requests,
                n == s@.nr_threads as int,
                forall|data: u64, arg: u64| sfunc.requires((data, arg)),
                round <= COMBINING_ROUNDS,
                round == 0 ==> new_state@ == stable,
                round > 0 ==> serve_round(*sfunc, reqs, n, stable, new_state@) && all_served(
                    reqs,
                    n,
                    new_state@,
                ),
            ensures
                serve_round(*sfunc, reqs, n, stable, new_state@),
                all_served(reqs, n, new_state@),
                new_state@.return_value.len() == 65,
            decreases COMBINING_ROUNDS - round,
        {
            if round >= COMBINING_ROUNDS {
                proof {
                    new_state.lemma_len();
                }
                break ;
            }
            let served = Self::serve(s, &mut new_state, sfunc);
            if served == 0 {
                break ;
            }
            round = round + 1;
        }
        let slot = pool.deref_mut(&PoolPtr::from(place));
        *slot = new_state;
        match final_func {
            Some(f) => {
                f(&*s, handle.guard(), &*pool);
            },
            None => {},
        }
        s.pstate.store(PShared::from_usize(place), MemOrder::Release);
        s.pstate.persist();
        match after_func {
            Some(f) => {
                f(&*s, handle.guard(), &*pool);
            },
            None => {},
        }
        st_thread.index = 1 - ind;
        s.lock.unlock(place);
        let retval = new_state.return_value[tid];
        mmt.backup_retval(retval);
        retval
    }

    /// The part of a thread that is not the combiner. If nobody owns the
    /// lock and the published state shows that the thread's request was
    /// performed, returns what the request returned, and backs that up in
    /// `mmt`. Else the thread has to try again: while another thread owns the
    /// lock, or when the published state is not in the pool, or when the
    /// request is still pending.
    pub fn do_non_combine<M: Combinable>(
        s: &CombStruct,
        mmt: &mut M,
        tid: usize,
        pool: &Pool<CombStateRec>,
    ) -> (r: Result<u64, ()>)
        requires
            s.wf(),
            1 <= tid <= MAX_THREADS,
            pool.wf(),
        ensures
            final(mmt).activate() == old(mmt).activate(),
            match r {
                Ok(retval) => {
                    &&& s@.lock.tid == RELEASED
                    &&& pool.contains(s@.lock.ptr)
                    &&& s@.requests[tid as int].activate <= pool.object(
                        s@.lock.ptr,
                    )@.deactivate[tid as int]
                    &&& retval == pool.object(s@.lock.ptr)@.return_value[tid as int]
                    &&& final(mmt).retval() == retval
                },
                Err(_) => {
                    &&& final(mmt).retval() == old(mmt).retval()
                    &&& (s@.lock.tid != RELEASED || !pool.contains(s@.lock.ptr)
                        || s@.requests[tid as int].activate > pool.object(
                        s@.lock.ptr,
                    )@.deactivate[tid as int])
                },
            },
    {
        let (combined_ptr, combined_tid) = s.lock.peek();
        if combined_tid != RELEASED {
            return Err(());
        }
        let latest = match pool.deref(&PoolPtr::from(combined_ptr)) {
            Some(state) => state,
            None => {
                return Err(());
            },
        };
        if s.request[tid].activate <= latest.deactivate[tid] {
            let retval = latest.return_value[tid];
            mmt.backup_retval(retval);
            return Ok(retval);
        }
        Err(())
    }

    /// Has the request with argument `arg` performed for thread
    /// `handle.tid` and returns what it returned.
    ///
    /// The thread gives the request a count, one more than its last, and
    /// checkpoints it in `mmt`. A thread that re-executes after a crash finds
    /// out first whether the request with the checkpointed count was
    /// performed: if the stable state has moved past it, or the thread has
    /// registered a later one, the backed-up value is the answer; if the
    /// stable state is at it and the thread does not own the lock, the answer
    /// is in the stable state. Else the flag for recovery is cleared, the
    /// request is registered, and the thread tries to become the combiner: if
    /// it gets the lock, it performs the pending requests of all threads, and
    /// calls `final_func` before and `after_func` after the new state becomes
    /// the stable one; if another thread owns the lock, the request stays
    /// registered, no hook is called, and the answer is `Stalled`.
    pub fn apply_op<
        F: Fn(u64, u64) -> (u64, u64),
        G: Fn(&CombStruct, &Guard, &Pool<CombStateRec>),
        H: Fn(&CombStruct, &Guard, &Pool<CombStateRec>),
        M: Combinable,
    >(
        arg: u64,
        s: &mut CombStruct,
        st_thread: &mut CombThreadState,
        sfunc: &F,
        final_func: Option<&G>,
        after_func: Option<&H>,
        mmt: &mut M,
        handle: &mut Handle,
        pool: &mut Pool<CombStateRec>,
    ) -> (r: Result<u64, CombError>)
        requires
            old(s).wf(),
            old(handle).wf(),
            old(pool).wf(),
            old(st_thread).wf(old(pool)),
            old(pool).contains(old(s)@.pstate.cur),
            old(s)@.requests[old(handle)@.tid as int].activate < u64::MAX,
            forall|data: u64, arg: u64| sfunc.requires((data, arg)),
            hook_accepts_all(final_func),
            hook_accepts_all(after_func),
        ensures
            final(s).wf(),
            final(pool).wf(),
            final(st_thread).wf(final(pool)),
            final(pool).contains(final(s)@.pstate.cur),
            final(handle)@.tid == old(handle)@.tid,
            final(handle)@.slot == old(handle)@.slot,
            ({
                let tid = old(handle)@.tid as int;
                let act = if old(handle)@.rec && old(mmt).activate() is Some {
                    old(mmt).activate().unwrap()
                } else {
                    (old(s)@.requests[tid].activate + 1) as u64
                };
                let stable = old(pool).object(old(s)@.pstate.cur)@;
                let done = recovered(old(handle)@.rec, act, stable, old(s)@, tid);
                &&& final(mmt).activate() == Some(act)
                &&& match done {
                    Some(from_state) => {
                        &&& r == Ok::<u64, CombError>(
                            if from_state {
                                stable.return_value[tid]
                            } else {
                                old(mmt).retval()
                            },
                        )
                        &&& final(mmt).retval() == r->Ok_0
                        &&& final(s)@ == old(s)@
                        &&& *final(pool) == *old(pool)
                        &&& final(st_thread)@ == old(st_thread)@
                        &&& final(handle)@.rec == old(handle)@.rec
                    },
                    None => {
                        let registered = old(s)@.requests.update(
                            tid,
                            RequestView { arg, activate: act },
                        );
                        &&& !final(handle)@.rec
                        &&& final(s)@.requests == registered
                        &&& final(s)@.nr_threads == old(s)@.nr_threads
                        &&& if old(s)@.lock.tid == RELEASED || old(s)@.lock.tid == tid {
                            let place = old(st_thread)@.state[old(st_thread)@.index as int];
                            let published = final(pool).object(place)@;
                            &&& published.return_value.len() == NR_SLOTS
                            &&& published.deactivate.len() == NR_SLOTS
                            &&& serve_round(
                                *sfunc,
                                registered,
                                old(s)@.nr_threads as int,
                                stable,
                                published,
                            )
                            &&& all_served(registered, old(s)@.nr_threads as int, published)
                            &&& final(pool).differs_at(old(pool), place)
                            &&& final(s)@.lock == (LockView {
                                ptr: place & 0x7f_ffff_ffff_ffff,
                                tid: RELEASED,
                            })
                            &&& final(s)@.pstate == (Word { cur: place, durable: place })
                            &&& final(st_thread)@ == (ThreadStateView {
                                index: (1 - old(st_thread)@.index) as usize,
                                ..old(st_thread)@
                            })
                            &&& r == Ok::<u64, CombError>(published.return_value[tid])
                            &&& final(mmt).retval() == r->Ok_0
                            &&& hook_ran(
                                final_func,
                                CombView {
                                    lock: taken(old(s)@.lock, tid as u64),
                                    requests: registered,
                                    ..old(s)@
                                },
                                old(handle).spec_guard(),
                                *final(pool),
                            )
                            &&& hook_ran(
                                after_func,
                                CombView {
                                    lock: taken(old(s)@.lock, tid as u64),
                                    requests: registered,
                                    pstate: Word { cur: place, durable: place },
                                    ..old(s)@
                                },
                                old(handle).spec_guard(),
                                *final(pool),
                            )
                        } else {
                            &&& r == Err::<u64, CombError>(CombError::Stalled)
                            &&& final(s)@.lock == old(s)@.lock
                            &&& final(s)@.pstate == old(s)@.pstate
                            &&& *final(pool) == *old(pool)
                            &&& final(st_thread)@ == old(st_thread)@
                            &&& final(mmt).retval() == old(mmt).retval()
                        }
                    },
                }
            }),
    {
        let tid = handle.tid();
        let ghost s0 = s@;
        let activate = mmt.chk_activate(s.request[tid].activate + 1, handle);
        if handle.rec() {
            let stable_ptr = PoolPtr::from(
                s.pstate.load(MemOrder::SeqCst, handle.guard()).into_usize(),
            );
            let latest = pool.deref(&stable_ptr).unwrap();
            let deactivate = latest.deactivate[tid];
            if activate < deactivate {
                let retval = mmt.peek_retval();
                return Ok(retval);
            }
            if activate == deactivate && !s.lock.is_owner(tid as u64) {
                let retval = latest.return_value[tid];
                mmt.backup_retval(retval);
                return Ok(retval);
            }
            if activate < s.request[tid].activate {
                let retval = mmt.peek_retval();
                return Ok(retval);
            }
            handle.set_rec(false);
        }
        s.request[tid] = CombRequest { arg, activate };
        proof {
            assert(s@.requests =~= s0.requests.update(
                tid as int,
                RequestView { arg, activate },
            ));
        }
        match s.lock.try_lock(tid as u64) {
            Ok(_) => {
                proof {
                    assert(tid as u64 & 0x1ff == tid as u64) by (bit_vector)
                        requires
                            tid as u64 <= 64,
                    ;
                }
                Ok(Self::do_combine(s, st_thread, sfunc, final_func, after_func, mmt, handle, pool))
            },
            Err(_) => {
                match Self::do_non_combine(s, mmt, tid, pool) {
                    Ok(retval) => Ok(retval),
                    Err(_) => Err(CombError::Stalled),
                }
            },
        }
    }
}

/// The lock after thread `tid`, which owns it or finds it free, has taken
/// it.
pub open spec fn taken(lock: LockView, tid: u64) -> LockView {
    if lock.tid == tid {
        lock
    } else {
        LockView { ptr: crate::ds::combining_lock::PTR_NULL, tid }
    }
}

/// What a thread that re-executes finds out about the request with count
/// `act` before it registers it again: `Some(true)` if the request was
/// performed and its answer is in the stable state, `Some(false)` if it was
/// performed and its answer is the one backed up, `None` if it has to be
/// registered. A thread that does not re-execute finds out nothing.
pub open spec fn recovered(rec: bool, act: u64, stable: StateView, s: CombView, tid: int) -> Option<
    bool,
> {
    if !rec {
        None
    } else if act < stable.deactivate[tid] {
        Some(false)
    } else if act == stable.deactivate[tid] && s.lock.tid != tid {
        Some(true)
    } else if act < s.requests[tid].activate {
        Some(false)
    } else {
        None
    }
}

/// A round that has looked at the threads before `n` and then looks at
/// thread `n` has looked at the threads up to `n`.
proof fn lemma_serve_step<F: Fn(u64, u64) -> (u64, u64)>(
    f: F,
    reqs: Seq<RequestView>,
    n: int,
    s0: StateView,
    mid: StateView,
    s1: StateView,
)
    requires
        n >= 1,
        serve_round(f, reqs, n - 1, s0, mid),
        serve_one(f, reqs[n], n, mid, s1),
    ensures
        serve_round(f, reqs, n, s0, s1),
{
}

} // verus!
