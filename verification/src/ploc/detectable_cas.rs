//! Compare-and-swap on a persistent word whose outcome survives a crash.
//!
//! The auxiliary bit of a word marks it dirty: written, and perhaps not yet
//! durable. Whoever reads a dirty word flushes it and clears the mark before
//! using the value. A detectable compare-and-swap stamps the word that it
//! installs with the issuing thread's id and with a parity, in the lowest bit
//! of the high tag, and checkpoints that word in a memento first; after a
//! crash the thread finds out from the two whether its swap took effect.

use vstd::prelude::*;
use crate::pepoch::atomic::CompareExchangeError;
use crate::pepoch::atomic::MemOrder;
use crate::pepoch::atomic::PAtomic;
use crate::pepoch::atomic::PShared;
use crate::pepoch::atomic::Pointer;
use crate::pepoch::atomic::spec_compose_aux_bit;
use crate::pepoch::internal::Guard;
use crate::ploc::checkpoint::Checkpoint;
use crate::ploc::checkpoint::CheckpointView;
use crate::ploc::handle::Handle;
use crate::ploc::handle::HandleView;

verus! {

/// The auxiliary bit: the word is dirty.
pub const DIRTY_MASK: u64 = 0x8000_0000_0000_0000;

/// The thread-id field: the thread that installed the word.
pub const OWNER_MASK: u64 = 0x3fe0_0000_0000_0000;

/// The lowest bit of the high tag: the parity of the installing swap.
pub const PARITY_MASK: u64 = 0x0000_0400_0000_0000;

/// The bits that a detectable swap stamps on a word.
pub const STAMP_MASK: u64 = 0xbfe0_0400_0000_0000;

/// A persistent word as a value: what loads observe and what is durable.
pub ghost struct Word {
    pub cur: u64,
    pub durable: u64,
}

/// Whether `w` is marked dirty.
pub open spec fn is_dirty(w: u64) -> bool {
    w & DIRTY_MASK != 0
}

/// `w` without the dirty mark.
pub open spec fn clean(w: u64) -> u64 {
    w & !DIRTY_MASK
}

/// `w` with the dirty mark.
pub open spec fn dirtied(w: u64) -> u64 {
    w | DIRTY_MASK
}

/// What the client stored in `w`: the word without dirty mark, owner and
/// parity.
pub open spec fn client(w: u64) -> u64 {
    w & !STAMP_MASK
}

/// The thread that installed `w`.
pub open spec fn owner(w: u64) -> u64 {
    (w & OWNER_MASK) >> 53
}

/// The parity of the swap that installed `w`.
pub open spec fn parity(w: u64) -> u64 {
    (w & PARITY_MASK) >> 42
}

/// The client's value `w` stamped with owner `tid` and parity `p`, clean.
pub open spec fn stamped(w: u64, tid: u64, p: u64) -> u64 {
    client(w) | ((tid << 53) & OWNER_MASK) | ((p << 42) & PARITY_MASK)
}

/// The parity for a swap by `tid` that replaces `cur`: the other one than
/// `cur` carries if `tid` installed `cur`, else even.
pub open spec fn next_parity(cur: u64, tid: u64) -> u64 {
    if owner(cur) == tid && parity(cur) == 0 {
        1
    } else {
        0
    }
}

/// The word that a swap by `tid` installs over `cur` to store `new`.
pub open spec fn target_of(cur: u64, new: u64, tid: u64) -> u64 {
    stamped(new, tid, next_parity(cur, tid))
}

impl Word {
    /// The word after a crash.
    pub open spec fn crash(self) -> Word {
        Word { cur: self.durable, durable: self.durable }
    }

    /// The word follows the protocol: unless it is dirty, what is durable
    /// is what it holds, up to the dirty mark.
    pub open spec fn settled(self) -> bool {
        is_dirty(self.cur) || clean(self.durable) == self.cur
    }

    /// The word after a helping read: a dirty word has been flushed and its
    /// mark cleared.
    pub open spec fn help(self) -> Word {
        if is_dirty(self.cur) {
            Word { cur: clean(self.cur), durable: self.cur }
        } else {
            self
        }
    }

    /// The word after a swap from `expected` to `target`, dirty: it takes
    /// effect exactly if the word holds `expected`.
    pub open spec fn swap_in(self, expected: u64, target: u64) -> Word {
        if self.cur == expected {
            Word { cur: dirtied(target), ..self }
        } else {
            self
        }
    }
}

/// The state of a persistent word.
pub open spec fn word_of<T>(a: &PAtomic<T>) -> Word {
    Word { cur: a@, durable: a.durable() }
}

proof fn lemma_dirty_bits(w: u64)
    by (bit_vector)
    ensures
        (0x8000_0000_0000_0000u64 & (0u64 << 63)) | (!0x8000_0000_0000_0000u64 & w) == w
            & !0x8000_0000_0000_0000u64,
        (0x8000_0000_0000_0000u64 & (1u64 << 63)) | (!0x8000_0000_0000_0000u64 & w) == w
            | 0x8000_0000_0000_0000u64,
        ((w >> 63) & 0x1 == 1) == (w & 0x8000_0000_0000_0000u64 != 0),
        ((w >> 63) & 0x1 == 0) == (w & 0x8000_0000_0000_0000u64 == 0),
        (w & !0x8000_0000_0000_0000u64) & 0x8000_0000_0000_0000u64 == 0,
        (w | 0x8000_0000_0000_0000u64) & 0x8000_0000_0000_0000u64 != 0,
        (w | 0x8000_0000_0000_0000u64) & !0x8000_0000_0000_0000u64 == w
            & !0x8000_0000_0000_0000u64,
        w & 0x8000_0000_0000_0000u64 == 0 ==> w & !0x8000_0000_0000_0000u64 == w,
        (w & !0x8000_0000_0000_0000u64) & !0xbfe0_0400_0000_0000u64 == w
            & !0xbfe0_0400_0000_0000u64,
        (w | 0x8000_0000_0000_0000u64) & !0xbfe0_0400_0000_0000u64 == w
            & !0xbfe0_0400_0000_0000u64,
{
}

proof fn lemma_stamp_bits(w: u64, tid: u64, p: u64)
    by (bit_vector)
    requires
        tid <= 0x1ff,
        p <= 1,
    ensures
        ({
            let s = (w & !0xbfe0_0400_0000_0000u64) | ((tid << 53) & 0x3fe0_0000_0000_0000u64) | ((p
                << 42) & 0x0000_0400_0000_0000u64);
            &&& s & 0x8000_0000_0000_0000u64 == 0
            &&& (s & 0x3fe0_0000_0000_0000u64) >> 53 == tid
            &&& (s & 0x0000_0400_0000_0000u64) >> 42 == p
            &&& s & !0xbfe0_0400_0000_0000u64 == w & !0xbfe0_0400_0000_0000u64
            &&& (s | 0x8000_0000_0000_0000u64) & !0x8000_0000_0000_0000u64 == s
        }),
        (w & 0x0000_0400_0000_0000u64) >> 42 <= 1,
        (w & 0x3fe0_0000_0000_0000u64) >> 53 <= 0x1ff,
{
}

/// What the dirty mark does: cleaning and dirtying undo each other up to the
/// mark, and neither touches what the client stored.
pub proof fn lemma_dirty(w: u64)
    ensures
        !is_dirty(clean(w)),
        is_dirty(dirtied(w)),
        clean(dirtied(w)) == clean(w),
        !is_dirty(w) ==> clean(w) == w,
        client(clean(w)) == client(w),
        client(dirtied(w)) == client(w),
        spec_compose_aux_bit(0, w) == clean(w),
        spec_compose_aux_bit(1, w) == dirtied(w),
        ((w >> 63) & 0x1 != 0) == is_dirty(w),
{
    lemma_dirty_bits(w);
}

/// What a stamp does: the stamped word is clean, carries the owner and the
/// parity it was given, and stores what the client stored.
pub proof fn lemma_stamped(w: u64, tid: u64, p: u64)
    requires
        tid <= 0x1ff,
        p <= 1,
    ensures
        !is_dirty(stamped(w, tid, p)),
        owner(stamped(w, tid, p)) == tid,
        parity(stamped(w, tid, p)) == p,
        client(stamped(w, tid, p)) == client(w),
        clean(dirtied(stamped(w, tid, p))) == stamped(w, tid, p),
        parity(w) <= 1,
        owner(w) <= 0x1ff,
{
    lemma_stamp_bits(w, tid, p);
}

/// Flushes `address` and clears its dirty mark if it still holds `value`.
pub fn persist<T>(address: &mut PAtomic<T>, value: PShared<'_, T>, guard: &Guard)
    ensures
        word_of(final(address)) == (Word {
            cur: if old(address)@ == value@ {
                clean(value@)
            } else {
                old(address)@
            },
            durable: old(address)@,
        }),
{
    proof {
        lemma_dirty(value@);
    }
    address.persist();
    let _ = address.compare_exchange(
        value,
        value.with_aux_bit(0),
        MemOrder::SeqCst,
        MemOrder::SeqCst,
        guard,
    );
}

/// A helping read: flushes `address` and clears its mark if it is dirty, and
/// returns what it holds, without the mark.
pub fn pcas_read<'g, T>(address: &mut PAtomic<T>, guard: &'g Guard) -> (p: PShared<'g, T>)
    ensures
        word_of(final(address)) == word_of(old(address)).help(),
        p@ == clean(old(address)@),
        p@ == final(address)@,
{
    proof {
        lemma_dirty(address@);
    }
    let word = address.load(MemOrder::SeqCst, guard);
    if word.aux_bit() != 0 {
        persist(address, word, guard);
    }
    word.with_aux_bit(0)
}

/// A persistent compare-and-swap: after a helping read, stores `new_value`,
/// marked dirty, if the word holds `old_value`. On failure what the word
/// holds comes back.
pub fn persistent_cas<'g, T>(
    address: &mut PAtomic<T>,
    old_value: PShared<'_, T>,
    new_value: PShared<'g, T>,
    guard: &'g Guard,
) -> (r: Result<PShared<'g, T>, CompareExchangeError<'g, T, PShared<'g, T>>>)
    ensures
        word_of(final(address)) == word_of(old(address)).help().swap_in(old_value@, new_value@),
        match r {
            Ok(p) => clean(old(address)@) == old_value@ && p@ == dirtied(new_value@),
            Err(e) => clean(old(address)@) != old_value@ && e.current@ == clean(old(address)@)
                && e.new@ == dirtied(new_value@),
        },
{
    proof {
        lemma_dirty(new_value@);
    }
    let _ = pcas_read(address, guard);
    address.compare_exchange(
        old_value,
        new_value.with_aux_bit(1),
        MemOrder::SeqCst,
        MemOrder::SeqCst,
        guard,
    )
}

/// One round of the swap that a thread repeats to measure throughput: tries
/// to replace what `loc` holds by the thread's id. It succeeds exactly if
/// `loc` was not dirty.
pub fn pcas<T>(loc: &mut PAtomic<T>, tid: u64, guard: &Guard) -> (ok: bool)
    ensures
        ok == !is_dirty(old(loc)@),
        word_of(final(loc)) == word_of(old(loc)).help().swap_in(old(loc)@, tid),
{
    proof {
        lemma_dirty(loc@);
    }
    let old = loc.load(MemOrder::SeqCst, guard);
    let new = PShared::from_usize(tid);
    persistent_cas(loc, old, new, guard).is_ok()
}

/// What a failed swap reports: the client's value that stood in the way.
pub struct Conflict<'g, T> {
    /// The value that the word held, without dirty mark, owner and parity.
    pub current: PShared<'g, T>,
}

/// The memento of a detectable swap: the checkpoint of the word that the
/// swap is about to install.
pub struct Cas {
    target: Checkpoint,
}

impl View for Cas {
    type V = CheckpointView;

    closed spec fn view(&self) -> CheckpointView {
        self.target@
    }
}

impl Cas {
    /// A memento that has seen no swap.
    pub fn new() -> (m: Cas)
        ensures
            m@ == CheckpointView::empty(),
    {
        Cas { target: Checkpoint::new() }
    }

    /// Forgets the swap that the memento has seen, durably, so that it can
    /// serve the next one.
    pub fn clear(&mut self)
        ensures
            final(self)@ == CheckpointView::empty(),
    {
        self.target.clear();
    }

    /// What a crash does to the memento.
    pub fn crash(&mut self)
        ensures
            final(self)@ == old(self)@.crash(),
    {
        self.target.crash();
    }
}

impl Default for Cas {
    fn default() -> (m: Cas)
        ensures
            m@ == CheckpointView::empty(),
    {
        Cas::new()
    }
}

/// A swap that has passed its check and is ready to be installed.
pub struct Prepared {
    expected: u64,
    target: u64,
}

/// A prepared swap as a value.
pub ghost struct PreparedView {
    pub expected: u64,
    pub target: u64,
}

impl View for Prepared {
    type V = PreparedView;

    closed spec fn view(&self) -> PreparedView {
        PreparedView { expected: self.expected, target: self.target }
    }
}

/// How a detectable swap ends, as a value: the verdict, `Ok` with the
/// client's value that was installed or `Err` with the one that stood in the
/// way, and what it leaves behind.
pub ghost struct Outcome {
    pub verdict: Result<u64, u64>,
    pub word: Word,
    pub mmt: CheckpointView,
    pub rec: bool,
}

/// Whether the swap that `mmt` has checkpointed is the one that installed
/// what `w` holds: the word, flushed and clean, is the checkpointed target.
pub open spec fn took_effect(w: Word, mmt: CheckpointView) -> bool {
    mmt.latest() is Some && w.help().cur == mmt.latest().unwrap()
}

/// The first half of a detectable swap by `tid`: the helping read, the
/// check of the client's value against `old`, and the checkpoint of the
/// target.
pub open spec fn spec_prepare(w: Word, old: u64, new: u64, tid: u64, mmt: CheckpointView) -> (
    Option<PreparedView>,
    Word,
    CheckpointView,
) {
    let h = w.help();
    let target = target_of(h.cur, new, tid);
    if client(h.cur) != client(old) {
        (None, h, mmt)
    } else if mmt.generation() == u64::MAX {
        (None, h, mmt.write(target))
    } else {
        (Some(PreparedView { expected: h.cur, target }), h, mmt.write(target).commit())
    }
}

/// A detectable swap by `tid` from `old` to `new` on the word `w`, with the
/// memento `mmt`. When `rec` is set and the memento's swap took effect, that
/// is the verdict. Else the swap runs: it fails if the word does not hold
/// `old`, and else installs `new`.
pub open spec fn spec_dcas(w: Word, old: u64, new: u64, tid: u64, mmt: CheckpointView, rec: bool)
    -> Outcome {
    if rec && took_effect(w, mmt) {
        Outcome { verdict: Ok(client(mmt.latest().unwrap())), word: w.help(), mmt, rec }
    } else {
        let (prepared, h, m) = spec_prepare(w, old, new, tid, mmt);
        match prepared {
            Some(p) => Outcome {
                verdict: Ok(client(new)),
                word: h.swap_in(p.expected, p.target),
                mmt: m,
                rec: false,
            },
            None => Outcome { verdict: Err(client(h.cur)), word: h, mmt: m, rec: false },
        }
    }
}

/// A helping read for clients of `dcas`: flushes `addr` and clears its mark
/// if it is dirty, and returns the client's value that it holds.
pub fn dcas_read<'g, T>(addr: &mut PAtomic<T>, guard: &'g Guard) -> (p: PShared<'g, T>)
    ensures
        word_of(final(addr)) == word_of(old(addr)).help(),
        p@ == client(old(addr)@),
{
    proof {
        lemma_dirty(addr@);
    }
    let word = pcas_read(addr, guard);
    PShared::from_usize(word.into_usize() & !STAMP_MASK)
}

/// The first half of a detectable swap: the helping read, the check, and
/// the checkpoint of the word to install. The answer is `Err` with the
/// client's value in the way when that is not `old_value`'s, or when the
/// memento's generations are used up.
pub fn dcas_prepare<'g, T>(
    addr: &mut PAtomic<T>,
    old_value: PShared<'_, T>,
    new_value: PShared<'_, T>,
    mmt: &mut Cas,
    tid: usize,
    guard: &'g Guard,
) -> (r: Result<Prepared, Conflict<'g, T>>)
    requires
        1 <= tid <= crate::ploc::handle::MAX_THREADS,
    ensures
        ({
            let (prepared, word, m) = spec_prepare(
                word_of(old(addr)),
                old_value@,
                new_value@,
                tid as u64,
                old(mmt)@,
            );
            &&& word_of(final(addr)) == word
            &&& final(mmt)@ == m
            &&& match r {
                Ok(p) => prepared == Some(p@),
                Err(c) => prepared is None && c.current@ == client(word.cur),
            }
        }),
{
    let cur = pcas_read(addr, guard).into_usize();
    let value = cur & !STAMP_MASK;
    if value != old_value.into_usize() & !STAMP_MASK {
        return Err(Conflict { current: PShared::from_usize(value) });
    }
    let tid64 = tid as u64;
    let p: u64 = if (cur & OWNER_MASK) >> 53 == tid64 && (cur & PARITY_MASK) >> 42 == 0 {
        1
    } else {
        0
    };
    let target = (new_value.into_usize() & !STAMP_MASK) | ((tid64 << 53) & OWNER_MASK) | ((p << 42)
        & PARITY_MASK);
    if !mmt.target.checkpoint(target) {
        return Err(Conflict { current: PShared::from_usize(value) });
    }
    Ok(Prepared { expected: cur, target })
}

/// The second half of a detectable swap, and its linearisation point:
/// installs the prepared word, marked dirty, if `addr` still holds what the
/// first half read. Whatever has happened to `addr` since, the swap takes
/// effect exactly if `addr` holds that value now; else `addr` stays as it is,
/// and the client's value in the way comes back.
pub fn dcas_commit<'g, T>(addr: &mut PAtomic<T>, prepared: Prepared, guard: &'g Guard) -> (r:
    Result<PShared<'g, T>, Conflict<'g, T>>)
    ensures
        word_of(final(addr)) == word_of(old(addr)).swap_in(prepared@.expected, prepared@.target),
        match r {
            Ok(p) => old(addr)@ == prepared@.expected && p@ == client(prepared@.target),
            Err(c) => old(addr)@ != prepared@.expected && c.current@ == client(old(addr)@),
        },
{
    proof {
        lemma_dirty(prepared@.target);
    }
    let expected: PShared<'g, T> = PShared::from_usize(prepared.expected);
    let target: PShared<'g, T> = PShared::from_usize(prepared.target);
    match addr.compare_exchange(
        expected,
        target.with_aux_bit(1),
        MemOrder::SeqCst,
        MemOrder::SeqCst,
        guard,
    ) {
        Ok(_) => Ok(PShared::from_usize(prepared.target & !STAMP_MASK)),
        Err(e) => Err(Conflict { current: PShared::from_usize(e.current.into_usize() & !STAMP_MASK) }),
    }
}

/// A detectable compare-and-swap: stores `new_value` in `addr` if `addr`
/// holds `old_value`, as far as the client's values go.
///
/// A thread that re-executes after a crash, with the memento of the swap it
/// was in, first finds out whether that swap took effect, and if so answers
/// as it did or would have done; else it clears the handle's flag and runs
/// the swap.
pub fn dcas<'g, T>(
    addr: &mut PAtomic<T>,
    old_value: PShared<'_, T>,
    new_value: PShared<'_, T>,
    mmt: &mut Cas,
    handle: &'g mut Handle,
) -> (r: Result<PShared<'g, T>, Conflict<'g, T>>)
    requires
        old(handle).wf(),
    ensures
        ({
            let o = spec_dcas(
                word_of(old(addr)),
                old_value@,
                new_value@,
                old(handle)@.tid as u64,
                old(mmt)@,
                old(handle)@.rec,
            );
            &&& word_of(final(addr)) == o.word
            &&& final(mmt)@ == o.mmt
            &&& final(handle)@ == (HandleView { rec: o.rec, ..old(handle)@ })
            &&& match r {
                Ok(p) => o.verdict == Ok::<u64, u64>(p@),
                Err(c) => o.verdict == Err::<u64, u64>(c.current@),
            }
        }),
{
    let tid = handle.tid();
    if handle.rec() {
        match mmt.target.peek() {
            Some(target) => {
                let cur = pcas_read(addr, handle.guard());
                if cur.into_usize() == target {
                    return Ok(PShared::from_usize(target & !STAMP_MASK));
                }
                proof {
                    lemma_help_twice(word_of(old(addr)));
                }
            },
            None => {},
        }
        handle.set_rec(false);
    }
    let guard = handle.guard();
    match dcas_prepare(addr, old_value, new_value, mmt, tid, guard) {
        Ok(prepared) => {
            proof {
                lemma_dirty(new_value@);
                lemma_stamped(new_value@, tid as u64, next_parity(addr@, tid as u64));
            }
            match dcas_commit(addr, prepared, guard) {
                Ok(p) => Ok(p),
                Err(c) => Err(c),
            }
        },
        Err(c) => Err(c),
    }
}

/// What a word that held `w` holds after the first `n` swaps of the
/// schedule `ps` have reached their linearisation point, in this order. Each
/// swap was prepared at some earlier time, by any thread; it takes effect
/// exactly if the word holds what it read then.
pub open spec fn word_after(w: u64, ps: Seq<PreparedView>, n: int) -> u64
    decreases n,
{
    if n <= 0 {
        w
    } else {
        let before = word_after(w, ps, n - 1);
        if before == ps[n - 1].expected {
            dirtied(ps[n - 1].target)
        } else {
            before
        }
    }
}

/// Whether swap `k` of the schedule `ps` takes effect.
pub open spec fn takes_effect(w: u64, ps: Seq<PreparedView>, k: int) -> bool {
    word_after(w, ps, k) == ps[k].expected
}

/// The values that the word has held after the first `n` swaps of the
/// schedule `ps`: the one it started with, and then what each swap that took
/// effect installed.
pub open spec fn history(w: u64, ps: Seq<PreparedView>, n: int) -> Seq<u64>
    decreases n,
{
    if n <= 0 {
        seq![w]
    } else if takes_effect(w, ps, n - 1) {
        history(w, ps, n - 1).push(dirtied(ps[n - 1].target))
    } else {
        history(w, ps, n - 1)
    }
}

/// Linearisability. Whatever the schedule, the values that the word holds
/// one after the other are a line: the word always holds the value that was
/// installed last, each swap that takes effect replaces exactly that value,
/// and a swap that does not take effect changes nothing. So the swaps that
/// took effect, in the order of their linearisation points, are a serial
/// execution with the same values.
pub proof fn lemma_commits_linear(w: u64, ps: Seq<PreparedView>, n: int)
    requires
        0 <= n <= ps.len(),
    ensures
        history(w, ps, n).len() >= 1,
        history(w, ps, n).last() == word_after(w, ps, n),
        history(w, ps, n)[0] == w,
        forall|k: int|
            0 <= k < n ==> if #[trigger] takes_effect(w, ps, k) {
                ps[k].expected == history(w, ps, k).last() && history(w, ps, k + 1) == history(
                    w,
                    ps,
                    k,
                ).push(dirtied(ps[k].target))
            } else {
                history(w, ps, k + 1) == history(w, ps, k)
            },
    decreases n,
{
    if n > 0 {
        lemma_commits_linear(w, ps, n - 1);
        assert forall|k: int| 0 <= k < n implies if #[trigger] takes_effect(w, ps, k) {
            ps[k].expected == history(w, ps, k).last() && history(w, ps, k + 1) == history(
                w,
                ps,
                k,
            ).push(dirtied(ps[k].target))
        } else {
            history(w, ps, k + 1) == history(w, ps, k)
        } by {
            lemma_commits_linear(w, ps, k);
        }
    }
}

/// A helping read of a word that has been helped changes nothing.
pub proof fn lemma_help_twice(w: Word)
    ensures
        w.help().help() == w.help(),
        !is_dirty(w.help().cur),
        w.settled() ==> w.help().settled(),
        w.settled() ==> clean(w.help().durable) == w.help().cur,
{
    lemma_dirty(w.cur);
    lemma_dirty(w.durable);
}

/// Detectability. Take a word that follows the protocol and a thread with a
/// fresh memento. Let the thread run a swap to its end, let everything crash,
/// and let the thread re-execute the swap with the same arguments and the
/// flag for recovery set. Then the verdict is the one from before the crash.
/// If the swap was installed and the installed word was flushed before the
/// crash, it is not installed a second time.
pub proof fn lemma_dcas_detectable(w: Word, old: u64, new: u64, tid: u64)
    requires
        w.settled(),
        1 <= tid <= 64,
    ensures
        ({
            let first = spec_dcas(w, old, new, tid, CheckpointView::empty(), false);
            let again = spec_dcas(first.word.crash(), old, new, tid, first.mmt.crash(), true);
            &&& again.verdict == first.verdict
            &&& first.word.settled()
            &&& again.word.settled()
            &&& first.verdict is Ok ==> client(again.word.cur) == client(new)
            &&& first.verdict is Ok ==> again.word.help().cur == first.word.help().cur
            &&& first.verdict is Err ==> again.word.cur == first.word.cur
        }),
{
    let m0 = CheckpointView::empty();
    let h = w.help();
    lemma_help_twice(w);
    lemma_dirty(w.cur);
    lemma_dirty(w.durable);
    lemma_dirty(h.cur);
    lemma_dirty(h.durable);
    let first = spec_dcas(w, old, new, tid, m0, false);
    let hc = h.crash();
    lemma_help_twice(hc);
    lemma_dirty(hc.cur);
    if client(h.cur) == client(old) {
        let target = target_of(h.cur, new, tid);
        lemma_stamped(new, tid, next_parity(h.cur, tid));
        lemma_stamped(h.cur, tid, 0);
        lemma_dirty(target);
        let m1 = m0.write(target).commit();
        assert(m1.crash().latest() == Some(target));
        assert(first.word == (Word { cur: dirtied(target), durable: h.durable }));
        let wc = first.word.crash();
        assert(wc.help().cur == h.cur);
        assert(h.cur != target) by {
            if owner(h.cur) == tid {
                assert(parity(h.cur) != parity(target));
            } else {
                assert(owner(target) == tid);
            }
        }
        assert(!took_effect(wc, m1.crash()));
        let again = spec_dcas(wc, old, new, tid, m1.crash(), true);
        assert(m1.crash().generation() < u64::MAX);
        assert(again.word.help().cur == target);
    } else {
        assert(first.mmt.crash().latest() is None);
    }
}

/// Detectability when the swap had become durable. If the swap was
/// installed and a helping read flushed it before the crash, the thread that
/// re-executes finds that it took effect: it gets the verdict `Ok` with the
/// value it installed, and the word is not written again.
pub proof fn lemma_dcas_detectable_flushed(w: Word, old: u64, new: u64, tid: u64)
    requires
        w.settled(),
        1 <= tid <= 64,
        spec_dcas(w, old, new, tid, CheckpointView::empty(), false).verdict is Ok,
    ensures
        ({
            let first = spec_dcas(w, old, new, tid, CheckpointView::empty(), false);
            let seen = first.word.help();
            let again = spec_dcas(seen.crash(), old, new, tid, first.mmt.crash(), true);
            &&& again.verdict == first.verdict
            &&& again.rec
            &&& again.word.cur == seen.cur
            &&& again.mmt == first.mmt.crash()
        }),
{
    let m0 = CheckpointView::empty();
    let h = w.help();
    lemma_help_twice(w);
    lemma_dirty(h.cur);
    let target = target_of(h.cur, new, tid);
    lemma_stamped(new, tid, next_parity(h.cur, tid));
    lemma_dirty(target);
    let first = spec_dcas(w, old, new, tid, m0, false);
    let seen = first.word.help();
    lemma_dirty(first.word.cur);
    assert(seen == (Word { cur: target, durable: dirtied(target) }));
    let sc = seen.crash();
    lemma_dirty(sc.cur);
    assert(sc.help().cur == target);
    let m1 = m0.write(target).commit();
    assert(m1.crash().latest() == Some(target));
}

} // verus!
