//! A persistent compare-and-swap on up to four words at once.
//!
//! The words to swap are listed in a descriptor. In the first phase a
//! pointer to the descriptor is installed in each word that holds its old
//! value; the install goes through a short-lived pointer to the word's entry
//! in the descriptor, so that no pointer lands in a word once the outcome is
//! decided. The outcome is decided by one swap of the descriptor's status.
//! In the last phase each pointer is replaced by the word's new value, or by
//! its old one when the swap failed. Every pointer carries the descriptor bit,
//! so whoever reads one can tell, and can finish the swap on its own.

use vstd::prelude::*;
use crate::pepoch::atomic::MemOrder;
use crate::pepoch::atomic::PAtomic;
use crate::pepoch::atomic::PShared;
use crate::pepoch::atomic::Pointer;
use crate::pepoch::internal::Guard;
use crate::ploc::detectable_cas::clean;
use crate::ploc::detectable_cas::dirtied;
use crate::ploc::detectable_cas::is_dirty;
use crate::ploc::detectable_cas::lemma_dirty;
use crate::ploc::detectable_cas::word_of;
use crate::ploc::detectable_cas::Word;
use crate::ploc::detectable_cas::DIRTY_MASK;
use crate::ploc::handle::Handle;
use crate::ploc::handle::HandleView;
use crate::pmem::pool::Pool;
use crate::pmem::pool::PoolError;
use crate::pmem::ptr::PoolPtr;

verus! {

/// The status of a swap whose outcome is open.
pub const UNDECIDED: u64 = 0;

/// The status of a swap that has succeeded.
pub const SUCCEEDED: u64 = 2;

/// The status of a swap that has failed.
pub const FAILED: u64 = 4;

/// The mark on a status that is written and perhaps not yet durable.
pub const DIRTY_FLAG: u64 = 1;

/// The largest number of words that one swap covers.
pub const MAX_WORDS: usize = 4;

/// How many foreign swaps one swap finishes, or retries after, before it
/// gives up and fails.
pub const HELP_LIMIT: usize = 64;

/// The descriptor bit of a tagged word.
pub const DESC_BIT: u64 = 0x4000_0000_0000_0000;

/// The mark on a pointer to a descriptor's entry, as opposed to a pointer
/// to the descriptor: the third bit of the high tag.
pub const RDCSS_FLAG: u64 = 0x0000_1000_0000_0000;

/// The bits of a pointer that hold the descriptor's offset.
pub const DESC_OFFSET_MASK: u64 = 0x0000_03ff_ffff_ff80;

/// The bits of a pointer to an entry that hold the entry's number.
pub const ENTRY_MASK: u64 = 0x3;

/// One entry of a descriptor as a value: the word to swap, by its offset in
/// the pool of words, and the values to swap from and to.
pub ghost struct WordDescView {
    pub address: u64,
    pub old_value: u64,
    pub new_value: u64,
}

/// A descriptor as a value: its status and its entries.
pub ghost struct DescView {
    pub status: Word,
    pub words: Seq<WordDescView>,
}

/// The persistent memory that a swap works on, as a value: the words and
/// the descriptors, each by offset.
pub ghost struct Mem {
    pub words: Map<u64, Word>,
    pub descs: Map<u64, DescView>,
}

/// The pointer to the descriptor at `d`.
pub open spec fn mwcas_ptr(d: u64) -> u64 {
    d | DESC_BIT
}

/// The pointer to entry `i` of the descriptor at `d`.
pub open spec fn rdcss_ptr(d: u64, i: u64) -> u64 {
    d | DESC_BIT | RDCSS_FLAG | i
}

/// Whether `w` is a pointer to a descriptor or to an entry of one.
pub open spec fn is_desc(w: u64) -> bool {
    w & DESC_BIT != 0
}

/// Whether `w` is a pointer to an entry of a descriptor.
pub open spec fn is_rdcss(w: u64) -> bool {
    w & DESC_BIT != 0 && w & RDCSS_FLAG != 0
}

/// The offset of the descriptor that the pointer `w` names.
pub open spec fn desc_of(w: u64) -> u64 {
    w & DESC_OFFSET_MASK
}

/// The number of the entry that the pointer `w` names.
pub open spec fn entry_of(w: u64) -> u64 {
    w & ENTRY_MASK
}

/// What a status says once its dirty mark is set aside.
pub open spec fn verdict_of(status: u64) -> u64 {
    status & !DIRTY_FLAG
}

/// The status `s` after the outcome has been decided, if it was open, as
/// success or failure according to `ok`, and the status flushed and its mark
/// cleared. A status that was decided before keeps what it said.
pub open spec fn decided(s: Word, ok: bool) -> Word {
    let wanted = if ok {
        SUCCEEDED
    } else {
        FAILED
    };
    let cur = if s.cur == UNDECIDED {
        wanted | DIRTY_FLAG
    } else {
        s.cur
    };
    if cur & DIRTY_FLAG != 0 {
        Word { cur: verdict_of(cur), durable: cur }
    } else {
        Word { cur, durable: s.durable }
    }
}

impl Mem {
    /// Entry `i` of the descriptor at `d` exists and its word is in the pool.
    pub open spec fn has_entry(self, d: u64, i: int) -> bool {
        &&& self.descs.contains_key(d)
        &&& 0 <= i < self.descs[d].words.len()
        &&& self.words.contains_key(self.descs[d].words[i].address)
    }

    /// The memory with the word at `addr` replaced by `w`.
    pub open spec fn with_word(self, addr: u64, w: Word) -> Mem {
        Mem { words: self.words.insert(addr, w), ..self }
    }

    /// The memory with the status of the descriptor at `d` replaced by `s`.
    pub open spec fn with_status(self, d: u64, s: Word) -> Mem {
        Mem { descs: self.descs.insert(d, DescView { status: s, ..self.descs[d] }), ..self }
    }

    /// The memory after a swap of the word at `addr` from `expected` to
    /// `new`. A word that is not in the pool, or holds something else, stays.
    pub open spec fn cas(self, addr: u64, expected: u64, new: u64) -> Mem {
        if self.words.contains_key(addr) && self.words[addr].cur == expected {
            self.with_word(addr, Word { cur: new, ..self.words[addr] })
        } else {
            self
        }
    }

    /// The memory after the word at `addr` has been flushed and, if it held
    /// `value`, its dirty mark cleared.
    pub open spec fn persist(self, addr: u64, value: u64) -> Mem {
        if self.words.contains_key(addr) {
            let w = self.words[addr];
            self.with_word(
                addr,
                Word {
                    cur: if w.cur == value {
                        clean(value)
                    } else {
                        w.cur
                    },
                    durable: w.cur,
                },
            )
        } else {
            self
        }
    }

    /// The memory after the short-lived pointer to entry `i` of `d` has been
    /// resolved: the word that holds it gets the pointer to `d`, dirty, while
    /// the outcome of `d` is open, and its old value once it is decided.
    pub open spec fn complete_install(self, d: u64, i: int) -> Mem {
        if self.has_entry(d, i) {
            let wd = self.descs[d].words[i];
            self.cas(
                wd.address,
                rdcss_ptr(d, i as u64),
                if self.descs[d].status.cur == UNDECIDED {
                    dirtied(mwcas_ptr(d))
                } else {
                    wd.old_value
                },
            )
        } else {
            self
        }
    }

    /// One attempt to put the short-lived pointer to entry `i` of `d` into
    /// the entry's word: the value that the word held, and the memory after.
    pub open spec fn attempt(self, d: u64, i: int) -> (u64, Mem) {
        let wd = self.descs[d].words[i];
        (self.words[wd.address].cur, self.cas(wd.address, wd.old_value, rdcss_ptr(d, i as u64)))
    }

    /// The install of entry `i` of `d`, which must exist: the value that
    /// the entry's word held, and the memory after. A foreign short-lived
    /// pointer in the word is resolved first. If the word held the entry's old
    /// value, it now holds the pointer to `d`, unless the outcome of `d` is
    /// decided.
    pub open spec fn install(self, d: u64, i: int) -> (u64, Mem) {
        let wd = self.descs[d].words[i];
        let (seen, m1) = self.attempt(d, i);
        let (val, m3) = if is_rdcss(seen) && seen == rdcss_ptr(desc_of(seen), entry_of(seen))
            && m1.has_entry(desc_of(seen), entry_of(seen) as int) && m1.descs[desc_of(
            seen,
        )].words[entry_of(seen) as int].address == wd.address {
            m1.complete_install(desc_of(seen), entry_of(seen) as int).attempt(d, i)
        } else {
            (seen, m1)
        };
        if val == wd.old_value {
            (val, m3.complete_install(d, i))
        } else {
            (val, m3)
        }
    }

    /// The first phase of the swap `d` from entry `i` on: whether every
    /// entry was installed, and the memory after. A word that holds the
    /// pointer to `d` counts as installed. A word that holds the pointer to
    /// another swap has that swap finished first, as long as `fuel` lasts. Any
    /// other value in the way ends the phase at once.
    pub open spec fn phase_one(self, d: u64, i: int, fuel: nat) -> (bool, Mem)
        decreases fuel, self.descs[d].words.len() - i + 1,
    {
        if !self.descs.contains_key(d) || i < 0 || i >= self.descs[d].words.len() {
            (true, self)
        } else if !self.has_entry(d, i) {
            (false, self)
        } else {
            let wd = self.descs[d].words[i];
            let (rval, m1) = self.install(d, i);
            if rval == wd.old_value || clean(rval) == mwcas_ptr(d) {
                if m1.descs.contains_key(d) && m1.descs[d].words == self.descs[d].words {
                    m1.phase_one(d, i + 1, fuel)
                } else {
                    (false, m1)
                }
            } else if is_desc(rval) && !is_rdcss(rval) {
                let m2 = if is_dirty(rval) {
                    m1.persist(wd.address, rval)
                } else {
                    m1
                };
                if fuel > 0 && m2.descs.contains_key(desc_of(clean(rval))) {
                    let m3 = m2.run(desc_of(clean(rval)), (fuel - 1) as nat).1;
                    if m3.descs.contains_key(d) && m3.descs[d].words == self.descs[d].words {
                        m3.phase_one(d, i, (fuel - 1) as nat)
                    } else {
                        (false, m3)
                    }
                } else {
                    (false, m2)
                }
            } else {
                (false, m1)
            }
        }
    }

    /// The memory after every word of `d` from entry `i` on has been
    /// flushed and, where it held the dirty pointer to `d`, its mark cleared.
    pub open spec fn persist_all(self, d: u64, i: int) -> Mem
        decreases self.descs[d].words.len() - i,
    {
        if !self.descs.contains_key(d) || i < 0 || i >= self.descs[d].words.len() {
            self
        } else {
            let m1 = self.persist(self.descs[d].words[i].address, dirtied(mwcas_ptr(d)));
            if m1.descs.contains_key(d) && m1.descs[d].words == self.descs[d].words {
                m1.persist_all(d, i + 1)
            } else {
                m1
            }
        }
    }

    /// The memory after the outcome of `d` has been decided, if it was open,
    /// as success or failure according to `ok`, and the status flushed and its
    /// mark cleared. A status that was decided before stays what it was.
    pub open spec fn decide(self, d: u64, ok: bool) -> Mem {
        self.with_status(d, decided(self.descs[d].status, ok))
    }

    /// The memory after the pointer to `d` in the word of entry `i` has been
    /// replaced by `v`, and the word flushed and cleaned.
    pub open spec fn replace(self, d: u64, addr: u64, v: u64) -> Mem {
        let m1 = self.cas(addr, dirtied(mwcas_ptr(d)), dirtied(v));
        let m2 = m1.cas(addr, mwcas_ptr(d), dirtied(v));
        m2.persist(addr, dirtied(v))
    }

    /// The last phase of the swap `d` from entry `i` on: in each word the
    /// pointer to `d` is replaced by the entry's new value if the swap has
    /// succeeded and by its old value if not, and the word is flushed.
    pub open spec fn finish(self, d: u64, i: int) -> Mem
        decreases self.descs[d].words.len() - i,
    {
        if !self.descs.contains_key(d) || i < 0 || i >= self.descs[d].words.len() {
            self
        } else {
            let wd = self.descs[d].words[i];
            let v = if verdict_of(self.descs[d].status.cur) == SUCCEEDED {
                wd.new_value
            } else {
                wd.old_value
            };
            let m1 = self.replace(d, wd.address, v);
            if m1.descs.contains_key(d) && m1.descs[d].words == self.descs[d].words
                && m1.descs[d].status == self.descs[d].status {
                m1.finish(d, i + 1)
            } else {
                m1
            }
        }
    }

    /// The swap `d`, run or finished on behalf of its owner: whether it has
    /// succeeded, and the memory after.
    pub open spec fn run(self, d: u64, fuel: nat) -> (bool, Mem)
        decreases fuel, self.descs[d].words.len() + 2,
    {
        if !self.descs.contains_key(d) {
            (false, self)
        } else {
            let (ok, m1) = self.phase_one(d, 0, fuel);
            if !m1.descs.contains_key(d) {
                (false, m1)
            } else {
                let m2 = if ok {
                    m1.persist_all(d, 0)
                } else {
                    m1
                };
                if !m2.descs.contains_key(d) {
                    (false, m2)
                } else {
                    let m3 = m2.decide(d, ok);
                    let m4 = m3.finish(d, 0);
                    (verdict_of(m3.descs[d].status.cur) == SUCCEEDED, m4)
                }
            }
        }
    }

    /// The memory after every short-lived pointer to an entry of `d`, from
    /// entry `i` on, has been resolved.
    pub open spec fn resolve_all(self, d: u64, i: int) -> Mem
        decreases self.descs[d].words.len() - i,
    {
        if !self.descs.contains_key(d) || i < 0 || i >= self.descs[d].words.len() {
            self
        } else {
            let m1 = self.complete_install(d, i);
            if m1.descs.contains_key(d) && m1.descs[d].words == self.descs[d].words {
                m1.resolve_all(d, i + 1)
            } else {
                m1
            }
        }
    }

    /// The swap `d` as recovery finds and leaves it after a crash: whether
    /// it has succeeded, and the memory after. A swap whose outcome was open
    /// has failed; every pointer to the descriptor or its entries is replaced.
    pub open spec fn recover(self, d: u64) -> (bool, Mem) {
        if !self.descs.contains_key(d) {
            (false, self)
        } else {
            let m1 = self.decide(d, false);
            let m2 = m1.resolve_all(d, 0);
            let m3 = m2.finish(d, 0);
            (verdict_of(m1.descs[d].status.cur) == SUCCEEDED, m3)
        }
    }

    /// The memory after a crash: every word and every status holds what was
    /// durable.
    pub open spec fn crash(self) -> Mem {
        Mem {
            words: Map::new(|o: u64| self.words.contains_key(o), |o: u64| self.words[o].crash()),
            descs: Map::new(
                |o: u64| self.descs.contains_key(o),
                |o: u64| DescView { status: self.descs[o].status.crash(), ..self.descs[o] },
            ),
        }
    }
}

/// One entry of a descriptor: the word to swap, by its offset in the pool
/// of words, and the values to swap from and to.
#[derive(Clone, Copy, Debug)]
pub struct WordDescriptor {
    pub address: u64,
    pub old_value: u64,
    pub new_value: u64,
}

impl View for WordDescriptor {
    type V = WordDescView;

    open spec fn view(&self) -> WordDescView {
        WordDescView {
            address: self.address,
            old_value: self.old_value,
            new_value: self.new_value,
        }
    }
}

/// The descriptor of a swap: its status and up to `MAX_WORDS` entries, in
/// the order of their words' offsets.
pub struct PMwCasDescriptor {
    status: PAtomic<u64>,
    words: Vec<WordDescriptor>,
}

impl View for PMwCasDescriptor {
    type V = DescView;

    closed spec fn view(&self) -> DescView {
        DescView { status: word_of(&self.status), words: self.words@.map_values(|w: WordDescriptor| w@) }
    }
}

/// The entries of `words` are in the order of their offsets, no two for the
/// same word.
pub open spec fn ascending(words: Seq<WordDescView>) -> bool {
    forall|i: int, j: int|
        0 <= i < j < words.len() ==> (#[trigger] words[i]).address < (#[trigger] words[j]).address
}

/// A value that a client may swap from or to: it carries neither the
/// descriptor bit nor the dirty mark.
pub open spec fn plain(v: u64) -> bool {
    v & (DESC_BIT | DIRTY_MASK) == 0
}

impl DescView {
    /// The descriptor is one that `add_word` builds: at most `MAX_WORDS`
    /// entries, in the order of their words' offsets, with plain values.
    pub open spec fn wf(self) -> bool {
        &&& self.words.len() <= MAX_WORDS
        &&& ascending(self.words)
        &&& forall|i: int|
            0 <= i < self.words.len() ==> plain((#[trigger] self.words[i]).old_value) && plain(
                self.words[i].new_value,
            )
    }
}

impl PMwCasDescriptor {
    /// A descriptor without entries whose outcome is open.
    pub fn new() -> (d: PMwCasDescriptor)
        ensures
            d@ == (DescView {
                status: Word { cur: UNDECIDED, durable: UNDECIDED },
                words: Seq::empty(),
            }),
            d@.wf(),
    {
        let d = PMwCasDescriptor { status: PAtomic::from_usize(UNDECIDED), words: Vec::new() };
        assert(d@.words =~= Seq::empty());
        d
    }

    /// Adds the swap of the word at `address` from `old_value` to
    /// `new_value`, in the place that keeps the entries in the order of their
    /// words' offsets. Nothing is added, and the answer is `false`, when the
    /// descriptor is full, when it has an entry for that word, or when one of
    /// the values carries the descriptor bit or the dirty mark.
    pub fn add_word(&mut self, address: u64, old_value: u64, new_value: u64) -> (added: bool)
        requires
            old(self)@.wf(),
        ensures
            final(self)@.wf(),
            final(self)@.status == old(self)@.status,
            added == (old(self)@.words.len() < MAX_WORDS && plain(old_value) && plain(new_value)
                && forall|i: int|
                0 <= i < old(self)@.words.len() ==> (#[trigger] old(self)@.words[i]).address
                    != address),
            !added ==> final(self)@ == old(self)@,
            added ==> exists|pos: int|
                0 <= pos <= old(self)@.words.len() && #[trigger] final(self)@.words == old(self)@.words.insert(pos, WordDescView { address, old_value, new_value }),
    {
        if self.words.len() >= MAX_WORDS || (old_value & (DESC_BIT | DIRTY_MASK)) != 0 || (new_value
            & (DESC_BIT | DIRTY_MASK)) != 0 {
            return false;
        }
        let mut pos: usize = 0;
        while pos < self.words.len() && self.words[pos].address < address
            invariant
                *self == *old(self),
                pos <= self.words@.len(),
                forall|i: int| 0 <= i < pos ==> (#[trigger] self.words@[i]).address < address,
            decreases self.words@.len() - pos,
        {
            pos = pos + 1;
        }
        if pos < self.words.len() && self.words[pos].address == address {
            assert(old(self)@.words[pos as int].address == address);
            return false;
        }
        proof {
            assert forall|i: int| 0 <= i < old(self)@.words.len() implies (#[trigger] old(self)@.words[i]).address != address by {
                if i >= pos {
                    if i > pos {
                        assert(old(self)@.words[pos as int].address < old(self)@.words[i].address);
                    }
                }
            }
        }
        self.words.insert(pos, WordDescriptor { address, old_value, new_value });
        proof {
            let entry = WordDescView { address, old_value, new_value };
            let before = old(self)@.words;
            assert(self@.words =~= before.insert(pos as int, entry));
            assert forall|i: int, j: int| 0 <= i < j < self@.words.len() implies (
            #[trigger] self@.words[i]).address < (#[trigger] self@.words[j]).address by {
                if i < pos && j > pos {
                    assert(before[i].address < address);
                    assert(before[j - 1].address > address) by {
                        if j - 1 > pos {
                            assert(before[pos as int].address < before[j - 1].address);
                        }
                    }
                } else if i < pos && j < pos {
                    assert(before[i].address < before[j].address);
                } else if i > pos {
                    assert(before[i - 1].address < before[j - 1].address);
                } else if i == pos {
                    if j - 1 > pos {
                        assert(before[pos as int].address < before[j - 1].address);
                    }
                }
            }
        }
        true
    }

    /// The number of entries.
    pub fn count(&self) -> (n: usize)
        ensures
            n == self@.words.len(),
    {
        self.words.len()
    }

    /// Entry `i`, if there is one.
    pub fn word(&self, i: usize) -> (w: Option<WordDescriptor>)
        ensures
            match w {
                Some(w) => i < self@.words.len() && w@ == self@.words[i as int] && i < usize::MAX,
                None => i >= self@.words.len(),
            },
    {
        if i < self.words.len() {
            Some(self.words[i])
        } else {
            None
        }
    }

    /// What the status says: `UNDECIDED`, `SUCCEEDED` or `FAILED`.
    pub fn status(&self) -> (s: u64)
        ensures
            s == verdict_of(self@.status.cur),
    {
        self.status.load(MemOrder::SeqCst, &crate::pepoch::internal::unprotected()).into_usize()
            & !DIRTY_FLAG
    }

    /// What a crash does to the descriptor: its status holds again what was
    /// durable.
    pub fn crash(&mut self)
        ensures
            final(self)@ == (DescView { status: old(self)@.status.crash(), ..old(self)@ }),
    {
        self.status.crash();
    }
}

impl Default for PMwCasDescriptor {
    fn default() -> (d: PMwCasDescriptor)
        ensures
            d@ == (DescView {
                status: Word { cur: UNDECIDED, durable: UNDECIDED },
                words: Seq::empty(),
            }),
    {
        PMwCasDescriptor::new()
    }
}

/// The words of a pool, by offset.
pub open spec fn words_of<T>(words: &Pool<PAtomic<T>>) -> Map<u64, Word> {
    Map::new(|o: u64| words.contains(o), |o: u64| word_of(&words.object(o)))
}

/// The descriptors of a pool, by offset.
pub open spec fn descs_of(descs: &Pool<PMwCasDescriptor>) -> Map<u64, DescView> {
    Map::new(|o: u64| descs.contains(o), |o: u64| descs.object(o)@)
}

/// The memory that two pools make up.
pub open spec fn mem_of<T>(words: &Pool<PAtomic<T>>, descs: &Pool<PMwCasDescriptor>) -> Mem {
    Mem { words: words_of(words), descs: descs_of(descs) }
}

/// Swaps the word at `addr` from `expected` to `new` and returns what the
/// word held, or `None` when no word lives at `addr`.
fn cas_word<T>(words: &mut Pool<PAtomic<T>>, addr: u64, expected: u64, new: u64) -> (seen: Option<
    u64,
>)
    requires
        old(words).wf(),
    ensures
        final(words).wf(),
        words_of(final(words)) == (Mem { words: words_of(old(words)), descs: Map::empty() }).cas(
            addr,
            expected,
            new,
        ).words,
        match seen {
            Some(v) => words_of(old(words)).contains_key(addr) && v == words_of(
                old(words),
            )[addr].cur,
            None => !words_of(old(words)).contains_key(addr),
        },
{
    let ptr = PoolPtr::from(addr);
    if !words.is_live(&ptr) {
        assert(words_of(words) =~= words_of(old(words)));
        return None;
    }
    let guard = crate::pepoch::internal::unprotected();
    let word = words.deref_mut(&ptr);
    let seen = word.load(MemOrder::SeqCst, &guard).into_usize();
    let _ = word.compare_exchange(
        PShared::from_usize(expected),
        PShared::from_usize(new),
        MemOrder::SeqCst,
        MemOrder::SeqCst,
        &guard,
    );
    assert(words_of(words) =~= (Mem { words: words_of(old(words)), descs: Map::empty() }).cas(
        addr,
        expected,
        new,
    ).words);
    Some(seen)
}

/// Flushes the word at `addr` and clears its dirty mark if it holds
/// `value`. Nothing happens when no word lives at `addr`.
fn persist_word<T>(words: &mut Pool<PAtomic<T>>, addr: u64, value: u64)
    requires
        old(words).wf(),
    ensures
        final(words).wf(),
        words_of(final(words)) == (Mem {
            words: words_of(old(words)),
            descs: Map::empty(),
        }).persist(addr, value).words,
{
    let ptr = PoolPtr::from(addr);
    if !words.is_live(&ptr) {
        assert(words_of(words) =~= words_of(old(words)));
        return ;
    }
    let guard = crate::pepoch::internal::unprotected();
    let word = words.deref_mut(&ptr);
    crate::ploc::detectable_cas::persist(word, PShared::from_usize(value), &guard);
    assert(words_of(words) =~= (Mem { words: words_of(old(words)), descs: Map::empty() }).persist(
        addr,
        value,
    ).words);
}

/// Entry `i` of the descriptor at `d`, if both exist.
fn entry_at(descs: &Pool<PMwCasDescriptor>, d: u64, i: usize) -> (w: Option<WordDescriptor>)
    requires
        descs.wf(),
    ensures
        match w {
            Some(w) => descs_of(descs).contains_key(d) && i < descs_of(descs)[d].words.len()
                && w@ == descs_of(descs)[d].words[i as int] && i < usize::MAX,
            None => !(descs_of(descs).contains_key(d) && i < descs_of(descs)[d].words.len()),
        },
{
    match descs.deref(&PoolPtr::from(d)) {
        Some(desc) => desc.word(i),
        None => None,
    }
}

/// Resolves the short-lived pointer to entry `i` of the descriptor at `d`:
/// the word that holds it gets the pointer to the descriptor, dirty, while the
/// outcome is open, and the entry's old value once it is decided.
pub fn complete_install<T>(
    words: &mut Pool<PAtomic<T>>,
    descs: &Pool<PMwCasDescriptor>,
    d: u64,
    i: usize,
)
    requires
        old(words).wf(),
        descs.wf(),
    ensures
        final(words).wf(),
        mem_of(final(words), descs) == mem_of(old(words), descs).complete_install(d, i as int),
{
    let ghost m = mem_of(words, descs);
    match descs.deref(&PoolPtr::from(d)) {
        Some(desc) => {
            match desc.word(i) {
                Some(wd) => {
                    let open = desc.status.load(
                        MemOrder::SeqCst,
                        &crate::pepoch::internal::unprotected(),
                    ).into_usize() == UNDECIDED;
                    let new = if open {
                        (d | DESC_BIT) | DIRTY_MASK
                    } else {
                        wd.old_value
                    };
                    let _ = cas_word(words, wd.address, d | DESC_BIT | RDCSS_FLAG | (i as u64), new);
                    proof {
                        lemma_cas_frame(m, wd.address, rdcss_ptr(d, i as u64), new);
                    }
                },
                None => {},
            }
        },
        None => {},
    }
}

/// One attempt to put the short-lived pointer to entry `i` of the
/// descriptor at `d` into the entry's word. Returns what the word held.
fn attempt<T>(words: &mut Pool<PAtomic<T>>, wd: WordDescriptor, d: u64, i: usize) -> (seen: u64)
    requires
        old(words).wf(),
        words_of(old(words)).contains_key(wd.address),
    ensures
        final(words).wf(),
        seen == words_of(old(words))[wd.address].cur,
        words_of(final(words)) == (Mem { words: words_of(old(words)), descs: Map::empty() }).cas(
            wd.address,
            wd.old_value,
            rdcss_ptr(d, i as u64),
        ).words,
{
    cas_word(words, wd.address, wd.old_value, d | DESC_BIT | RDCSS_FLAG | (i as u64)).unwrap()
}

/// Installs entry `i` of the descriptor at `d`, which must exist and whose
/// word must be in the pool: puts the pointer to the descriptor into the
/// entry's word if the word holds the entry's old value. A foreign
/// short-lived pointer in the word is resolved first. Returns what the word
/// held when the install was tried.
pub fn install_mwcas_descriptor<T>(
    words: &mut Pool<PAtomic<T>>,
    descs: &Pool<PMwCasDescriptor>,
    d: u64,
    i: usize,
) -> (val: u64)
    requires
        old(words).wf(),
        descs.wf(),
        mem_of(old(words), descs).has_entry(d, i as int),
    ensures
        final(words).wf(),
        (val, mem_of(final(words), descs)) == mem_of(old(words), descs).install(d, i as int),
{
    let ghost m = mem_of(words, descs);
    let wd = entry_at(descs, d, i).unwrap();
    let seen = attempt(words, wd, d, i);
    let ghost m1 = mem_of(words, descs);
    proof {
        lemma_cas_frame(m, wd.address, wd.old_value, rdcss_ptr(d, i as u64));
        assert(m1 == m.attempt(d, i as int).1);
    }
    let mut val = seen;
    if (seen & DESC_BIT) != 0 && (seen & RDCSS_FLAG) != 0 {
        let other = seen & DESC_OFFSET_MASK;
        let k = seen & ENTRY_MASK;
        assert(k <= 3) by (bit_vector)
            requires
                k == seen & 0x3,
        ;
        if seen == other | DESC_BIT | RDCSS_FLAG | k {
            match entry_at(descs, other, k as usize) {
                Some(theirs) => {
                    if theirs.address == wd.address {
                        complete_install(words, descs, other, k as usize);
                        val = attempt(words, wd, d, i);
                        proof {
                            let m2 = m1.complete_install(other, k as int);
                            lemma_cas_frame(m2, wd.address, wd.old_value, rdcss_ptr(d, i as u64));
                            assert(m2.has_entry(d, i as int));
                        }
                    }
                },
                None => {},
            }
        }
    }
    if val == wd.old_value {
        complete_install(words, descs, d, i);
    }
    val
}

/// The first phase of the swap at `d` from entry `i` on. Returns whether
/// every entry was installed.
fn phase_one<T>(
    words: &mut Pool<PAtomic<T>>,
    descs: &mut Pool<PMwCasDescriptor>,
    d: u64,
    i: usize,
    fuel: usize,
) -> (ok: bool)
    requires
        old(words).wf(),
        old(descs).wf(),
    ensures
        final(words).wf(),
        final(descs).wf(),
        (ok, mem_of(final(words), final(descs))) == mem_of(old(words), old(descs)).phase_one(
            d,
            i as int,
            fuel as nat,
        ),
    decreases fuel, mem_of(old(words), old(descs)).descs[d].words.len() - i + 1,
{
    let ghost m = mem_of(words, descs);
    let wd = match entry_at(descs, d, i) {
        Some(wd) => wd,
        None => {
            return true;
        },
    };
    if !words.is_live(&PoolPtr::from(wd.address)) {
        return false;
    }
    let rval = install_mwcas_descriptor(words, descs, d, i);
    let ghost m1 = mem_of(words, descs);
    assert(m1.descs == m.descs);
    if rval == wd.old_value || (rval & !DIRTY_MASK) == (d | DESC_BIT) {
        return phase_one(words, descs, d, i + 1, fuel);
    }
    if (rval & DESC_BIT) != 0 && (rval & RDCSS_FLAG) == 0 {
        if (rval & DIRTY_MASK) != 0 {
            persist_word(words, wd.address, rval);
            proof {
                lemma_cas_frame(m1, wd.address, rval, rval);
            }
        }
        let ghost m2 = mem_of(words, descs);
        let other = (rval & !DIRTY_MASK) & DESC_OFFSET_MASK;
        if fuel > 0 && descs.is_live(&PoolPtr::from(other)) {
            let _ = pmwcas_inner(words, descs, other, fuel - 1);
            proof {
                lemma_run_keeps_entries(m2, other, (fuel - 1) as nat);
            }
            return phase_one(words, descs, d, i, fuel - 1);
        }
        return false;
    }
    false
}

/// Flushes every word of the swap at `d` from entry `i` on and clears the
/// mark of each that holds the dirty pointer to the descriptor.
fn persist_all<T>(words: &mut Pool<PAtomic<T>>, descs: &Pool<PMwCasDescriptor>, d: u64, i: usize)
    requires
        old(words).wf(),
        descs.wf(),
    ensures
        final(words).wf(),
        mem_of(final(words), descs) == mem_of(old(words), descs).persist_all(d, i as int),
    decreases mem_of(old(words), descs).descs[d].words.len() - i,
{
    let ghost m = mem_of(words, descs);
    match entry_at(descs, d, i) {
        Some(wd) => {
            persist_word(words, wd.address, (d | DESC_BIT) | DIRTY_MASK);
            proof {
                lemma_cas_frame(m, wd.address, dirtied(mwcas_ptr(d)), dirtied(mwcas_ptr(d)));
            }
            persist_all(words, descs, d, i + 1);
        },
        None => {},
    }
}

/// Decides the outcome of the swap at `d`, which must exist, if it is open:
/// success or failure according to `ok`. The status is flushed and its mark
/// cleared. Returns what the status then says.
fn decide(descs: &mut Pool<PMwCasDescriptor>, d: u64, ok: bool) -> (verdict: u64)
    requires
        old(descs).wf(),
        old(descs).contains(d),
    ensures
        final(descs).wf(),
        descs_of(final(descs)) == descs_of(old(descs)).insert(
            d,
            DescView {
                status: decided(descs_of(old(descs))[d].status, ok),
                ..descs_of(old(descs))[d]
            },
        ),
        verdict == verdict_of(descs_of(final(descs))[d].status.cur),
{
    let guard = crate::pepoch::internal::unprotected();
    let wanted: u64 = if ok {
        SUCCEEDED
    } else {
        FAILED
    };
    let desc = descs.deref_mut(&PoolPtr::from(d));
    let ghost before = desc@;
    let cur = match desc.status.compare_exchange(
        PShared::from_usize(UNDECIDED),
        PShared::from_usize(wanted | DIRTY_FLAG),
        MemOrder::SeqCst,
        MemOrder::SeqCst,
        &guard,
    ) {
        Ok(_) => wanted | DIRTY_FLAG,
        Err(e) => e.current.into_usize(),
    };
    if (cur & DIRTY_FLAG) != 0 {
        desc.status.persist();
        desc.status.store(PShared::from_usize(cur & !DIRTY_FLAG), MemOrder::SeqCst);
    }
    let ghost after = desc@;
    proof {
        assert(after.words =~= before.words);
        assert(descs_of(descs) =~= descs_of(old(descs)).insert(d, after));
        assert(descs_of(descs)[d] == after);
        lemma_verdict(cur);
    }
    cur & !DIRTY_FLAG
}

/// The last phase of the swap at `d` from entry `i` on: replaces the
/// pointer to the descriptor in each word by the entry's new value if the
/// swap has succeeded and by its old value if not, and flushes the word.
fn finish<T>(words: &mut Pool<PAtomic<T>>, descs: &Pool<PMwCasDescriptor>, d: u64, i: usize)
    requires
        old(words).wf(),
        descs.wf(),
    ensures
        final(words).wf(),
        mem_of(final(words), descs) == mem_of(old(words), descs).finish(d, i as int),
    decreases mem_of(old(words), descs).descs[d].words.len() - i,
{
    let ghost m = mem_of(words, descs);
    let desc = match descs.deref(&PoolPtr::from(d)) {
        Some(desc) => desc,
        None => {
            return ;
        },
    };
    match desc.word(i) {
        Some(wd) => {
            let v = if desc.status() == SUCCEEDED {
                wd.new_value
            } else {
                wd.old_value
            };
            let _ = cas_word(words, wd.address, (d | DESC_BIT) | DIRTY_MASK, v | DIRTY_MASK);
            proof {
                lemma_cas_frame(m, wd.address, dirtied(mwcas_ptr(d)), dirtied(v));
            }
            let ghost m1 = mem_of(words, descs);
            let _ = cas_word(words, wd.address, d | DESC_BIT, v | DIRTY_MASK);
            proof {
                lemma_cas_frame(m1, wd.address, mwcas_ptr(d), dirtied(v));
            }
            let ghost m2 = mem_of(words, descs);
            persist_word(words, wd.address, v | DIRTY_MASK);
            proof {
                lemma_cas_frame(m2, wd.address, dirtied(v), dirtied(v));
            }
            finish(words, descs, d, i + 1);
        },
        None => {},
    }
}

/// Runs the swap at `d`, or finishes it on behalf of its owner, and returns
/// whether it has succeeded. A swap that meets the pointer of another swap in
/// one of its words finishes that one first; `fuel` bounds how often.
pub fn pmwcas_inner<T>(
    words: &mut Pool<PAtomic<T>>,
    descs: &mut Pool<PMwCasDescriptor>,
    d: u64,
    fuel: usize,
) -> (ok: bool)
    requires
        old(words).wf(),
        old(descs).wf(),
    ensures
        final(words).wf(),
        final(descs).wf(),
        (ok, mem_of(final(words), final(descs))) == mem_of(old(words), old(descs)).run(
            d,
            fuel as nat,
        ),
    decreases fuel, mem_of(old(words), old(descs)).descs[d].words.len() + 2,
{
    if !descs.is_live(&PoolPtr::from(d)) {
        return false;
    }
    let installed = phase_one(words, descs, d, 0, fuel);
    if !descs.is_live(&PoolPtr::from(d)) {
        return false;
    }
    if installed {
        persist_all(words, descs, d, 0);
    }
    let ghost m2 = mem_of(words, descs);
    let verdict = decide(descs, d, installed);
    let ghost m3 = mem_of(words, descs);
    assert(m3 == m2.decide(d, installed));
    finish(words, descs, d, 0);
    verdict == SUCCEEDED
}

/// Resolves every short-lived pointer to an entry of the descriptor at `d`,
/// from entry `i` on.
fn resolve_all<T>(words: &mut Pool<PAtomic<T>>, descs: &Pool<PMwCasDescriptor>, d: u64, i: usize)
    requires
        old(words).wf(),
        descs.wf(),
    ensures
        final(words).wf(),
        mem_of(final(words), descs) == mem_of(old(words), descs).resolve_all(d, i as int),
    decreases mem_of(old(words), descs).descs[d].words.len() - i,
{
    match entry_at(descs, d, i) {
        Some(_) => {
            complete_install(words, descs, d, i);
            resolve_all(words, descs, d, i + 1);
        },
        None => {},
    }
}

/// Recovers the swap at `d` after a crash and returns whether it has
/// succeeded. A swap whose outcome was still open has failed. Every pointer
/// to the descriptor or to one of its entries is replaced: by the entry's new
/// value if the swap has succeeded, by its old value if not.
pub fn pmwcas_recover<T>(words: &mut Pool<PAtomic<T>>, descs: &mut Pool<PMwCasDescriptor>, d: u64)
    -> (ok: bool)
    requires
        old(words).wf(),
        old(descs).wf(),
    ensures
        final(words).wf(),
        final(descs).wf(),
        (ok, mem_of(final(words), final(descs))) == mem_of(old(words), old(descs)).recover(d),
{
    let ghost m = mem_of(words, descs);
    if !descs.is_live(&PoolPtr::from(d)) {
        return false;
    }
    let verdict = decide(descs, d, false);
    assert(mem_of(words, descs) == m.decide(d, false));
    resolve_all(words, descs, d, 0);
    finish(words, descs, d, 0);
    verdict == SUCCEEDED
}

/// The persistent multi-word compare-and-swap that `descriptor` describes:
/// all of its words are swapped from their old values to their new ones, or
/// none is. Returns whether they were.
///
/// A thread that re-executes after a crash recovers the swap instead: it
/// has succeeded if its success was durable, and has failed if not. With that
/// the thread has found out how far it had come, and the handle's flag for
/// recovery is cleared.
pub fn pmwcas<T>(
    words: &mut Pool<PAtomic<T>>,
    descs: &mut Pool<PMwCasDescriptor>,
    descriptor: &PoolPtr<PMwCasDescriptor>,
    handle: &mut Handle,
) -> (ok: bool)
    requires
        old(words).wf(),
        old(descs).wf(),
    ensures
        final(words).wf(),
        final(descs).wf(),
        final(handle)@ == (HandleView { rec: false, ..old(handle)@ }),
        (ok, mem_of(final(words), final(descs))) == if old(handle)@.rec {
            mem_of(old(words), old(descs)).recover(descriptor@)
        } else {
            mem_of(old(words), old(descs)).run(descriptor@, HELP_LIMIT as nat)
        },
{
    if handle.rec() {
        handle.set_rec(false);
        pmwcas_recover(words, descs, descriptor.offset())
    } else {
        pmwcas_inner(words, descs, descriptor.offset(), HELP_LIMIT)
    }
}

/// The descriptor at `d` is one that `add_word` builds, it lies where a
/// pointer can name it, and each of its words is in the pool.
pub open spec fn valid_desc(m: Mem, d: u64) -> bool {
    &&& m.descs.contains_key(d)
    &&& m.descs[d].wf()
    &&& d & !DESC_OFFSET_MASK == 0
    &&& forall|i: int|
        0 <= i < m.descs[d].words.len() ==> m.words.contains_key(
            (#[trigger] m.descs[d].words[i]).address,
        )
}

/// The swap at `d` has not begun and nothing is in its way: its outcome is
/// open and none of its words holds a pointer to a descriptor.
pub open spec fn quiescent(m: Mem, d: u64) -> bool {
    &&& valid_desc(m, d)
    &&& m.descs[d].status.cur == UNDECIDED
    &&& forall|i: int|
        0 <= i < m.descs[d].words.len() ==> !is_desc(
            m.words[(#[trigger] m.descs[d].words[i]).address].cur,
        )
}

/// The first entry of `d` from `i` on whose word does not hold the entry's
/// old value, or the number of entries if there is none.
pub open spec fn first_mismatch(m: Mem, d: u64, i: int) -> int
    decreases m.descs[d].words.len() - i,
{
    if i < 0 || i >= m.descs[d].words.len() {
        m.descs[d].words.len() as int
    } else if m.words[m.descs[d].words[i].address].cur == m.descs[d].words[i].old_value {
        first_mismatch(m, d, i + 1)
    } else {
        i
    }
}

/// Every word of `d` holds its entry's old value.
pub open spec fn all_match(m: Mem, d: u64) -> bool {
    forall|i: int|
        0 <= i < m.descs[d].words.len() ==> m.words[(#[trigger] m.descs[d].words[i]).address].cur
            == m.descs[d].words[i].old_value
}

proof fn lemma_ptr_bits(d: u64, w: u64, i: u64)
    by (bit_vector)
    requires
        d & !0x0000_03ff_ffff_ff80u64 == 0,
        i <= 3,
    ensures
        (d | 0x4000_0000_0000_0000u64) & 0x4000_0000_0000_0000u64 != 0,
        (d | 0x4000_0000_0000_0000u64) & 0x0000_1000_0000_0000u64 == 0,
        (d | 0x4000_0000_0000_0000u64) & 0x8000_0000_0000_0000u64 == 0,
        ((d | 0x4000_0000_0000_0000u64) | 0x8000_0000_0000_0000u64) & !0x8000_0000_0000_0000u64 == (
        d | 0x4000_0000_0000_0000u64),
        ((d | 0x4000_0000_0000_0000u64) | 0x8000_0000_0000_0000u64) & 0x4000_0000_0000_0000u64
            != 0,
        ((d | 0x4000_0000_0000_0000u64) | 0x8000_0000_0000_0000u64) != (d
            | 0x4000_0000_0000_0000u64),
        (d | 0x4000_0000_0000_0000u64 | 0x0000_1000_0000_0000u64 | i) & 0x4000_0000_0000_0000u64
            != 0,
        (d | 0x4000_0000_0000_0000u64 | 0x0000_1000_0000_0000u64 | i) & 0x0000_1000_0000_0000u64
            != 0,
        (d | 0x4000_0000_0000_0000u64 | 0x0000_1000_0000_0000u64 | i) != ((d
            | 0x4000_0000_0000_0000u64) | 0x8000_0000_0000_0000u64),
        (d | 0x4000_0000_0000_0000u64 | 0x0000_1000_0000_0000u64 | i) != (d
            | 0x4000_0000_0000_0000u64),
        w & 0x4000_0000_0000_0000u64 == 0 ==> (w & !0x8000_0000_0000_0000u64)
            & 0x4000_0000_0000_0000u64 == 0,
        w & 0x4000_0000_0000_0000u64 == 0 ==> (w | 0x8000_0000_0000_0000u64)
            & 0x4000_0000_0000_0000u64 == 0,
        w & (0x4000_0000_0000_0000u64 | 0x8000_0000_0000_0000u64) == 0 ==> w
            & 0x4000_0000_0000_0000u64 == 0 && w & 0x8000_0000_0000_0000u64 == 0 && (w
            | 0x8000_0000_0000_0000u64) & !0x8000_0000_0000_0000u64 == w,
        (w & !0x8000_0000_0000_0000u64) & !0x8000_0000_0000_0000u64 == w
            & !0x8000_0000_0000_0000u64,
        ((w | 0x8000_0000_0000_0000u64) & !0x8000_0000_0000_0000u64) == (w
            & !0x8000_0000_0000_0000u64),
        (w & !0x8000_0000_0000_0000u64) == (d | 0x4000_0000_0000_0000u64) ==> w == (d
            | 0x4000_0000_0000_0000u64) || w == ((d | 0x4000_0000_0000_0000u64)
            | 0x8000_0000_0000_0000u64),
        (w & !0x8000_0000_0000_0000u64) == (d | 0x4000_0000_0000_0000u64) ==> w
            & 0x4000_0000_0000_0000u64 != 0,
{
}

/// What the pointers to a descriptor and the plain values look like, bit
/// for bit: a pointer carries the descriptor bit, a plain value does not, and
/// so the one is never taken for the other.
pub proof fn lemma_pointers(d: u64, w: u64, i: u64)
    requires
        d & !DESC_OFFSET_MASK == 0,
        i <= 3,
    ensures
        is_desc(mwcas_ptr(d)),
        !is_rdcss(mwcas_ptr(d)),
        !is_dirty(mwcas_ptr(d)),
        clean(dirtied(mwcas_ptr(d))) == mwcas_ptr(d),
        is_desc(dirtied(mwcas_ptr(d))),
        dirtied(mwcas_ptr(d)) != mwcas_ptr(d),
        is_rdcss(rdcss_ptr(d, i)),
        is_desc(rdcss_ptr(d, i)),
        rdcss_ptr(d, i) != dirtied(mwcas_ptr(d)),
        rdcss_ptr(d, i) != mwcas_ptr(d),
        !is_desc(w) ==> !is_desc(clean(w)) && !is_desc(dirtied(w)) && !is_rdcss(w),
        plain(w) ==> !is_desc(w) && !is_dirty(w) && clean(dirtied(w)) == w,
        clean(clean(w)) == clean(w),
        clean(dirtied(w)) == clean(w),
        clean(w) == mwcas_ptr(d) ==> (w == mwcas_ptr(d) || w == dirtied(mwcas_ptr(d))) && is_desc(
            w,
        ),
{
    lemma_ptr_bits(d, w, i);
}

/// The first phase of a swap with nothing in its way. From entry `i` on it
/// installs the pointer to the descriptor in each word that holds its old
/// value, up to the first word that does not, and touches nothing else.
pub proof fn lemma_phase_one_quiet(m: Mem, m0: Mem, d: u64, i: int, fuel: nat)
    requires
        valid_desc(m0, d),
        m0.descs[d].status.cur == UNDECIDED,
        0 <= i <= m0.descs[d].words.len(),
        m.descs == m0.descs,
        m.words.dom() == m0.words.dom(),
        forall|j: int|
            i <= j < m0.descs[d].words.len() ==> m.words[(
            #[trigger] m0.descs[d].words[j]).address] == m0.words[m0.descs[d].words[j].address]
                && !is_desc(m0.words[m0.descs[d].words[j].address].cur),
    ensures
        ({
            let (ok, n) = m.phase_one(d, i, fuel);
            let ws = m0.descs[d].words;
            let k = first_mismatch(m0, d, i);
            &&& i <= k <= ws.len()
            &&& ok == (k == ws.len())
            &&& n.descs == m.descs
            &&& n.words.dom() == m.words.dom()
            &&& forall|j: int|
                i <= j < k ==> n.words[(#[trigger] ws[j]).address] == (Word {
                    cur: dirtied(mwcas_ptr(d)),
                    durable: m0.words[ws[j].address].durable,
                }) && m0.words[ws[j].address].cur == ws[j].old_value
            &&& k < ws.len() ==> m0.words[ws[k].address].cur != ws[k].old_value
            &&& forall|a: u64|
                m.words.contains_key(a) && (forall|j: int| i <= j < k ==> (#[trigger] ws[j]).address
                    != a) ==> #[trigger] n.words[a] == m.words[a]
        }),
    decreases m0.descs[d].words.len() - i,
{
    let ws = m0.descs[d].words;
    if i < ws.len() {
        let wd = ws[i];
        assert(m.has_entry(d, i));
        let seen = m.words[wd.address].cur;
        lemma_pointers(d, seen, i as u64);
        let (rval, m1) = m.install(d, i);
        assert(rval == seen);
        if seen == wd.old_value {
            assert(m1.words =~= m.words.insert(
                wd.address,
                Word { cur: dirtied(mwcas_ptr(d)), durable: m.words[wd.address].durable },
            ));
            assert(m1.words.dom() =~= m0.words.dom());
            assert forall|j: int| i + 1 <= j < ws.len() implies m1.words[(#[trigger] ws[j]).address]
                == m0.words[ws[j].address] && !is_desc(m0.words[ws[j].address].cur) by {
                assert(ws[i].address < ws[j].address);
            }
            lemma_phase_one_quiet(m1, m0, d, i + 1, fuel);
            let (ok, n) = m1.phase_one(d, i + 1, fuel);
            let k = first_mismatch(m0, d, i);
            assert forall|j: int| i <= j < k implies n.words[(#[trigger] ws[j]).address] == (Word {
                cur: dirtied(mwcas_ptr(d)),
                durable: m0.words[ws[j].address].durable,
            }) && m0.words[ws[j].address].cur == ws[j].old_value by {
                if j == i {
                    assert forall|x: int| i + 1 <= x < k implies (#[trigger] ws[x]).address
                        != wd.address by {
                        assert(ws[i].address < ws[x].address);
                    }
                    assert(n.words[wd.address] == m1.words[wd.address]);
                }
            }
            assert forall|a: u64|
                m.words.contains_key(a) && (forall|j: int| i <= j < k ==> (#[trigger] ws[j]).address
                    != a) implies #[trigger] n.words[a] == m.words[a] by {
                assert(ws[i].address != a);
                assert(forall|j: int| i + 1 <= j < k ==> (#[trigger] ws[j]).address != a);
                assert(n.words[a] == m1.words[a]);
            }
        } else {
            assert(m1.words =~= m.words);
            assert(m1 == m);
        }
    }
}

/// Flushing the words of a swap, seen from one address: a word that is not
/// among the entries from `i` on stays as it is, and so does every descriptor.
pub proof fn lemma_persist_all_frame(m: Mem, d: u64, i: int, a: u64)
    requires
        m.descs.contains_key(d),
        forall|j: int| i <= j < m.descs[d].words.len() ==> (#[trigger] m.descs[d].words[j]).address
            != a,
    ensures
        m.persist_all(d, i).words.dom() == m.words.dom(),
        m.words.contains_key(a) ==> m.persist_all(d, i).words[a] == m.words[a],
        m.persist_all(d, i).descs == m.descs,
    decreases m.descs[d].words.len() - i,
{
    if !(i < 0 || i >= m.descs[d].words.len()) {
        let wd = m.descs[d].words[i];
        let m1 = m.persist(wd.address, dirtied(mwcas_ptr(d)));
        assert(m1.words.dom() =~= m.words.dom());
        lemma_persist_all_frame(m1, d, i + 1, a);
    } else {
        assert(m.persist_all(d, i) == m);
    }
}

/// Flushing the words of a swap after every entry was installed: each word
/// from `i` on holds the pointer to the descriptor, clean and durable.
pub proof fn lemma_persist_all_installed(m: Mem, d: u64, i: int)
    requires
        valid_desc(m, d),
        0 <= i <= m.descs[d].words.len(),
        forall|j: int|
            i <= j < m.descs[d].words.len() ==> m.words[(
            #[trigger] m.descs[d].words[j]).address].cur == dirtied(mwcas_ptr(d)),
    ensures
        forall|j: int|
            i <= j < m.descs[d].words.len() ==> m.persist_all(d, i).words[(
            #[trigger] m.descs[d].words[j]).address] == (Word {
                cur: mwcas_ptr(d),
                durable: dirtied(mwcas_ptr(d)),
            }),
    decreases m.descs[d].words.len() - i,
{
    let ws = m.descs[d].words;
    if i < ws.len() {
        let wd = ws[i];
        lemma_pointers(d, 0, 0);
        let m1 = m.persist(wd.address, dirtied(mwcas_ptr(d)));
        assert(m1.words.dom() =~= m.words.dom());
        assert forall|j: int| i + 1 <= j < ws.len() implies m1.words[(#[trigger] ws[j]).address].cur
            == dirtied(mwcas_ptr(d)) by {
            assert(ws[i].address < ws[j].address);
        }
        lemma_persist_all_installed(m1, d, i + 1);
        assert forall|j: int| i <= j < ws.len() implies m.persist_all(d, i).words[(
        #[trigger] ws[j]).address] == (Word {
            cur: mwcas_ptr(d),
            durable: dirtied(mwcas_ptr(d)),
        }) by {
            if j == i {
                assert forall|x: int| i + 1 <= x < ws.len() implies (#[trigger] ws[x]).address
                    != wd.address by {
                    assert(ws[i].address < ws[x].address);
                }
                lemma_persist_all_frame(m1, d, i + 1, wd.address);
            }
        }
    }
}

/// The last phase of a swap, seen from one address: a word that is not
/// among the entries from `i` on stays as it is.
pub proof fn lemma_finish_frame(m: Mem, d: u64, i: int, a: u64)
    requires
        m.descs.contains_key(d),
        forall|j: int| i <= j < m.descs[d].words.len() ==> (#[trigger] m.descs[d].words[j]).address
            != a,
    ensures
        m.finish(d, i).words.dom() == m.words.dom(),
        m.words.contains_key(a) ==> m.finish(d, i).words[a] == m.words[a],
        m.finish(d, i).descs == m.descs,
    decreases m.descs[d].words.len() - i,
{
    if !(i < 0 || i >= m.descs[d].words.len()) {
        let wd = m.descs[d].words[i];
        let v = if verdict_of(m.descs[d].status.cur) == SUCCEEDED {
            wd.new_value
        } else {
            wd.old_value
        };
        let m1 = m.replace(d, wd.address, v);
        assert(m1.words.dom() =~= m.words.dom());
        lemma_finish_frame(m1, d, i + 1, a);
    } else {
        assert(m.finish(d, i) == m);
    }
}

/// The last phase of a swap, word by word. A word that holds the pointer
/// to the descriptor, dirty or clean, ends up with the entry's new value if
/// the swap has succeeded and with its old value if not, clean and durable. A
/// word that holds no pointer keeps its value up to the dirty mark.
pub proof fn lemma_finish_words(m: Mem, d: u64, i: int)
    requires
        valid_desc(m, d),
        0 <= i <= m.descs[d].words.len(),
    ensures
        forall|j: int|
            i <= j < m.descs[d].words.len() ==> {
                let wd = #[trigger] m.descs[d].words[j];
                let v = if verdict_of(m.descs[d].status.cur) == SUCCEEDED {
                    wd.new_value
                } else {
                    wd.old_value
                };
                let before = m.words[wd.address];
                let after = m.finish(d, i).words[wd.address];
                &&& clean(before.cur) == mwcas_ptr(d) ==> after == (Word {
                    cur: v,
                    durable: dirtied(v),
                })
                &&& !is_desc(before.cur) ==> clean(after.cur) == clean(before.cur) && !is_desc(
                    after.cur,
                ) && (after.cur == if before.cur == dirtied(v) {
                    v
                } else {
                    before.cur
                }) && after.durable
                    == before.cur
            },
    decreases m.descs[d].words.len() - i,
{
    let ws = m.descs[d].words;
    if i < ws.len() {
        let wd0 = ws[i];
        let v0 = if verdict_of(m.descs[d].status.cur) == SUCCEEDED {
            wd0.new_value
        } else {
            wd0.old_value
        };
        let m1 = m.replace(d, wd0.address, v0);
        assert(m1.words.dom() =~= m.words.dom());
        assert(valid_desc(m1, d));
        lemma_finish_words(m1, d, i + 1);
        assert forall|j: int| i <= j < ws.len() implies {
            let wd = #[trigger] ws[j];
            let v = if verdict_of(m.descs[d].status.cur) == SUCCEEDED {
                wd.new_value
            } else {
                wd.old_value
            };
            let before = m.words[wd.address];
            let after = m.finish(d, i).words[wd.address];
            &&& clean(before.cur) == mwcas_ptr(d) ==> after == (Word { cur: v, durable: dirtied(v) })
            &&& !is_desc(before.cur) ==> clean(after.cur) == clean(before.cur) && !is_desc(
                after.cur,
            ) && (after.cur == if before.cur == dirtied(v) {
                    v
                } else {
                    before.cur
                }) && after.durable
                == before.cur
        } by {
            let wd = ws[j];
            let before = m.words[wd.address];
            assert(m.finish(d, i) == m1.finish(d, i + 1));
            if j == i {
                assert forall|x: int| i + 1 <= x < ws.len() implies (#[trigger] ws[x]).address
                    != wd.address by {
                    assert(ws[i].address < ws[x].address);
                }
                lemma_finish_frame(m1, d, i + 1, wd.address);
                lemma_pointers(d, before.cur, 0);
                lemma_pointers(d, v0, 0);
                lemma_pointers(d, dirtied(v0), 0);
                lemma_dirty(before.cur);
                assert(plain(v0));
                let ma = m.cas(wd.address, dirtied(mwcas_ptr(d)), dirtied(v0));
                let mb = ma.cas(wd.address, mwcas_ptr(d), dirtied(v0));
                assert(m1 == mb.persist(wd.address, dirtied(v0)));
                if clean(before.cur) == mwcas_ptr(d) {
                    assert(mb.words[wd.address].cur == dirtied(v0));
                    assert(m1.words[wd.address] == (Word { cur: v0, durable: dirtied(v0) }));
                } else if !is_desc(before.cur) {
                    assert(mb.words[wd.address] == before);
                }
            } else {
                assert(ws[i].address < ws[j].address);
                assert(m1.words[wd.address] == before);
            }
        }
    }
}

/// Atomicity. A swap that starts with its outcome open and with no pointer
/// to a descriptor in any of its words succeeds exactly if every word holds
/// its old value. If it succeeds, every word holds its new value, clean and
/// durable; if it fails, every word holds what it held, up to the dirty mark.
/// Either way the outcome is durable, no word of the swap holds a pointer to a
/// descriptor afterwards, no word that the swap wrote is left dirty, and no
/// other word has changed.
pub proof fn lemma_pmwcas_atomic(m: Mem, d: u64, fuel: nat)
    requires
        quiescent(m, d),
    ensures
        ({
            let (ok, n) = m.run(d, fuel);
            let ws = m.descs[d].words;
            &&& ok == all_match(m, d)
            &&& n.descs[d].words == ws
            &&& n.descs[d].status == (Word {
                cur: if ok {
                    SUCCEEDED
                } else {
                    FAILED
                },
                durable: if ok {
                    SUCCEEDED | DIRTY_FLAG
                } else {
                    FAILED | DIRTY_FLAG
                },
            })
            &&& n.words.dom() == m.words.dom()
            &&& ok ==> forall|i: int|
                0 <= i < ws.len() ==> n.words[(#[trigger] ws[i]).address] == (Word {
                    cur: ws[i].new_value,
                    durable: dirtied(ws[i].new_value),
                })
            &&& !ok ==> forall|i: int|
                0 <= i < ws.len() ==> clean(n.words[(#[trigger] ws[i]).address].cur) == clean(
                    m.words[ws[i].address].cur,
                ) && clean(n.words[ws[i].address].durable) == clean(m.words[ws[i].address].cur)
            &&& forall|i: int| 0 <= i < ws.len() ==> !is_desc(n.words[(#[trigger] ws[i]).address].cur)
            &&& forall|i: int|
                0 <= i < ws.len() && is_dirty(n.words[(#[trigger] ws[i]).address].cur)
                    ==> n.words[ws[i].address].cur == m.words[ws[i].address].cur
            &&& forall|a: u64|
                m.words.contains_key(a) && (forall|i: int|
                    0 <= i < ws.len() ==> (#[trigger] ws[i]).address != a) ==> #[trigger] n.words[a]
                    == m.words[a]
        }),
{
    let ws = m.descs[d].words;
    let ptr = mwcas_ptr(d);
    lemma_pointers(d, 0, 0);
    lemma_verdict(0);
    lemma_phase_one_quiet(m, m, d, 0, fuel);
    let (installed, m1) = m.phase_one(d, 0, fuel);
    let k = first_mismatch(m, d, 0);
    lemma_first_mismatch(m, d, 0);
    let m2 = if installed {
        m1.persist_all(d, 0)
    } else {
        m1
    };
    assert(valid_desc(m1, d));
    if installed {
        lemma_persist_all_keeps_descs(m1, d, 0);
        lemma_persist_all_installed(m1, d, 0);
        lemma_persist_all_frame(m1, d, ws.len() as int, 0);
        assert forall|a: u64|
            m.words.contains_key(a) && (forall|i: int|
                0 <= i < ws.len() ==> (#[trigger] ws[i]).address != a) implies m2.words[a]
            == m.words[a] by {
            lemma_persist_all_frame(m1, d, 0, a);
        }
        lemma_persist_all_frame(m1, d, ws.len() as int, d);
    }
    assert(m2.words.dom() == m.words.dom()) by {
        if installed {
            lemma_persist_all_frame(m1, d, ws.len() as int, 0);
            lemma_persist_all_dom(m1, d, 0);
        }
    }
    let m3 = m2.decide(d, installed);
    assert(m3.descs[d].words == ws);
    assert(m3.descs.dom() =~= m2.descs.dom());
    assert(m3.words == m2.words);
    assert(m2.descs[d].status.cur == UNDECIDED);
    assert(m3.descs[d].status == (Word {
        cur: if installed {
            SUCCEEDED
        } else {
            FAILED
        },
        durable: if installed {
            SUCCEEDED | DIRTY_FLAG
        } else {
            FAILED | DIRTY_FLAG
        },
    }));
    assert(verdict_of(m3.descs[d].status.cur) == if installed {
        SUCCEEDED
    } else {
        FAILED
    });
    assert(valid_desc(m3, d));
    let m4 = m3.finish(d, 0);
    lemma_finish_keeps_descs(m3, d, 0);
    lemma_finish_words(m3, d, 0);
    lemma_finish_dom(m3, d, 0);
    assert forall|a: u64|
        m.words.contains_key(a) && (forall|i: int|
            0 <= i < ws.len() ==> (#[trigger] ws[i]).address != a) implies #[trigger] m4.words[a]
        == m.words[a] by {
        lemma_finish_frame(m3, d, 0, a);
        assert(forall|j: int| 0 <= j < k ==> (#[trigger] ws[j]).address != a);
    }
    assert forall|i: int| 0 <= i < ws.len() implies !is_desc(
        m4.words[(#[trigger] ws[i]).address].cur,
    ) && (is_dirty(m4.words[ws[i].address].cur) ==> m4.words[ws[i].address].cur
        == m.words[ws[i].address].cur) by {
        let before = m3.words[ws[i].address];
        lemma_pointers(d, before.cur, 0);
        lemma_pointers(d, ws[i].new_value, 0);
        lemma_pointers(d, ws[i].old_value, 0);
        assert(plain(ws[i].new_value) && plain(ws[i].old_value));
        if i < k {
            assert(clean(before.cur) == ptr);
        }
        if i >= k {
            assert(forall|j: int| 0 <= j < k ==> (#[trigger] ws[j]).address != ws[i].address) by {
                assert forall|j: int| 0 <= j < k implies (#[trigger] ws[j]).address
                    != ws[i].address by {
                    assert(ws[j].address < ws[i].address);
                }
            }
            assert(m1.words[ws[i].address] == m.words[ws[i].address]);
        }
    }
    if !installed {
        assert forall|i: int| 0 <= i < ws.len() implies clean(
            m4.words[(#[trigger] ws[i]).address].cur,
        ) == clean(m.words[ws[i].address].cur) && clean(m4.words[ws[i].address].durable) == clean(
            m.words[ws[i].address].cur,
        ) by {
            let before = m3.words[ws[i].address];
            lemma_pointers(d, before.cur, 0);
            lemma_pointers(d, ws[i].old_value, 0);
            lemma_dirty(ws[i].old_value);
            if i < k {
                assert(before.cur == dirtied(ptr));
                assert(m4.words[ws[i].address] == (Word {
                    cur: ws[i].old_value,
                    durable: dirtied(ws[i].old_value),
                }));
            }
            if i >= k {
                assert forall|j: int| 0 <= j < k implies (#[trigger] ws[j]).address
                    != ws[i].address by {
                    assert(ws[j].address < ws[i].address);
                }
                assert(m1.words[ws[i].address] == m.words[ws[i].address]);
            }
        }
    } else {
        assert forall|i: int| 0 <= i < ws.len() implies m4.words[(#[trigger] ws[i]).address] == (
        Word { cur: ws[i].new_value, durable: dirtied(ws[i].new_value) }) by {
            assert(m2.words[ws[i].address].cur == ptr);
            lemma_pointers(d, ptr, 0);
            lemma_dirty(ptr);
            assert(clean(ptr) == ptr);
        }
    }
}

/// A status that the protocol writes: open, or decided one way or the
/// other, with or without the dirty mark.
pub open spec fn valid_status(s: u64) -> bool {
    s == UNDECIDED || s == SUCCEEDED || s == FAILED || s == (SUCCEEDED | DIRTY_FLAG) || s == (FAILED
        | DIRTY_FLAG)
}

/// What a crash can leave of the swap at `d`: each of its words holds a
/// value of its own, or the pointer to the descriptor, or the short-lived
/// pointer to its entry.
pub open spec fn interrupted(m: Mem, d: u64) -> bool {
    &&& valid_desc(m, d)
    &&& valid_status(m.descs[d].status.cur)
    &&& forall|i: int|
        0 <= i < m.descs[d].words.len() ==> {
            let w = m.words[(#[trigger] m.descs[d].words[i]).address].cur;
            !is_desc(w) || clean(w) == mwcas_ptr(d) || w == rdcss_ptr(d, i as u64)
        }
}

/// Resolving the short-lived pointers of a swap, seen from one address: a
/// word that is not among the entries from `i` on stays as it is.
pub proof fn lemma_resolve_all_frame(m: Mem, d: u64, i: int, a: u64)
    requires
        m.descs.contains_key(d),
        forall|j: int| i <= j < m.descs[d].words.len() ==> (#[trigger] m.descs[d].words[j]).address
            != a,
    ensures
        m.resolve_all(d, i).words.dom() == m.words.dom(),
        m.words.contains_key(a) ==> m.resolve_all(d, i).words[a] == m.words[a],
        m.resolve_all(d, i).descs == m.descs,
    decreases m.descs[d].words.len() - i,
{
    if !(i < 0 || i >= m.descs[d].words.len()) {
        let m1 = m.complete_install(d, i);
        assert(m1.words.dom() =~= m.words.dom());
        lemma_resolve_all_frame(m1, d, i + 1, a);
    } else {
        assert(m.resolve_all(d, i) == m);
    }
}

/// Resolving the short-lived pointers of a swap whose outcome is decided,
/// word by word: a word that holds the short-lived pointer to its entry gets
/// the entry's old value back, and every other word stays as it is.
pub proof fn lemma_resolve_all_words(m: Mem, d: u64, i: int)
    requires
        valid_desc(m, d),
        m.descs[d].status.cur != UNDECIDED,
        0 <= i <= m.descs[d].words.len(),
    ensures
        m.resolve_all(d, i).descs == m.descs,
        m.resolve_all(d, i).words.dom() == m.words.dom(),
        forall|j: int|
            i <= j < m.descs[d].words.len() ==> {
                let wd = #[trigger] m.descs[d].words[j];
                let before = m.words[wd.address];
                let after = m.resolve_all(d, i).words[wd.address];
                after == if before.cur == rdcss_ptr(d, j as u64) {
                    Word { cur: wd.old_value, ..before }
                } else {
                    before
                }
            },
    decreases m.descs[d].words.len() - i,
{
    let ws = m.descs[d].words;
    if i < ws.len() {
        let m1 = m.complete_install(d, i);
        assert(m1.words.dom() =~= m.words.dom());
        assert(valid_desc(m1, d));
        lemma_resolve_all_words(m1, d, i + 1);
        assert forall|j: int| i <= j < ws.len() implies {
            let wd = #[trigger] ws[j];
            let before = m.words[wd.address];
            let after = m.resolve_all(d, i).words[wd.address];
            after == if before.cur == rdcss_ptr(d, j as u64) {
                Word { cur: wd.old_value, ..before }
            } else {
                before
            }
        } by {
            let wd = ws[j];
            if j == i {
                assert forall|x: int| i + 1 <= x < ws.len() implies (#[trigger] ws[x]).address
                    != wd.address by {
                    assert(ws[i].address < ws[x].address);
                }
                lemma_resolve_all_frame(m1, d, i + 1, wd.address);
            } else {
                assert(ws[i].address < ws[j].address);
                assert(m1.words[wd.address] == m.words[wd.address]);
            }
        }
    } else {
        assert(m.resolve_all(d, i) == m);
    }
}

/// Recovery. After a crash that interrupted the swap at `d`, recovery
/// decides it: the swap has succeeded exactly if its success was durable, and
/// has failed otherwise, open outcomes included. Every word that held the
/// pointer to the descriptor then holds its entry's new value if the swap has
/// succeeded and its old value if not, clean and durable; a word that held
/// the short-lived pointer to its entry holds the entry's old value; a word
/// that held a value of its own keeps it up to the dirty mark. No word of the
/// swap holds a pointer to a descriptor afterwards, and no other word has
/// changed.
pub proof fn lemma_recover(m: Mem, d: u64)
    requires
        interrupted(m, d),
    ensures
        ({
            let (ok, n) = m.recover(d);
            let ws = m.descs[d].words;
            &&& ok == (verdict_of(m.descs[d].status.cur) == SUCCEEDED)
            &&& n.descs[d].words == ws
            &&& n.descs[d].status.cur == if ok {
                SUCCEEDED
            } else {
                FAILED
            }
            &&& n.words.dom() == m.words.dom()
            &&& forall|i: int|
                0 <= i < ws.len() ==> {
                    let before = m.words[(#[trigger] ws[i]).address];
                    let after = n.words[ws[i].address];
                    let v = if ok {
                        ws[i].new_value
                    } else {
                        ws[i].old_value
                    };
                    &&& !is_desc(after.cur)
                    &&& clean(before.cur) == mwcas_ptr(d) ==> after == (Word {
                        cur: v,
                        durable: dirtied(v),
                    })
                    &&& before.cur == rdcss_ptr(d, i as u64) ==> after.cur == ws[i].old_value
                    &&& !is_desc(before.cur) ==> clean(after.cur) == clean(before.cur)
                }
            &&& forall|a: u64|
                m.words.contains_key(a) && (forall|i: int|
                    0 <= i < ws.len() ==> (#[trigger] ws[i]).address != a) ==> #[trigger] n.words[a]
                    == m.words[a]
        }),
{
    let ws = m.descs[d].words;
    lemma_verdict(m.descs[d].status.cur);
    let m1 = m.decide(d, false);
    assert(m1.descs.dom() =~= m.descs.dom());
    assert(m1.descs[d].words == ws);
    assert(m1.words == m.words);
    assert(valid_desc(m1, d));
    let ok = verdict_of(m1.descs[d].status.cur) == SUCCEEDED;
    assert(m1.descs[d].status.cur == if ok {
        SUCCEEDED
    } else {
        FAILED
    });
    assert(ok == (verdict_of(m.descs[d].status.cur) == SUCCEEDED));
    lemma_resolve_all_words(m1, d, 0);
    let m2 = m1.resolve_all(d, 0);
    assert(valid_desc(m2, d));
    lemma_finish_words(m2, d, 0);
    lemma_finish_keeps_descs(m2, d, 0);
    lemma_finish_dom(m2, d, 0);
    let n = m2.finish(d, 0);
    assert forall|i: int| 0 <= i < ws.len() implies {
        let before = m.words[(#[trigger] ws[i]).address];
        let after = n.words[ws[i].address];
        let v = if ok {
            ws[i].new_value
        } else {
            ws[i].old_value
        };
        &&& !is_desc(after.cur)
        &&& clean(before.cur) == mwcas_ptr(d) ==> after == (Word { cur: v, durable: dirtied(v) })
        &&& before.cur == rdcss_ptr(d, i as u64) ==> after.cur == ws[i].old_value
        &&& !is_desc(before.cur) ==> clean(after.cur) == clean(before.cur)
    } by {
        let before = m.words[ws[i].address];
        let mid = m2.words[ws[i].address];
        let after = n.words[ws[i].address];
        let v = if ok {
            ws[i].new_value
        } else {
            ws[i].old_value
        };
        assert(i <= 3);
        assert(m1.descs[d].words[i] == ws[i]);
        assert(m2.descs[d].words[i] == ws[i]);
        assert(before == m1.words[ws[i].address]);
        lemma_pointers(d, before.cur, i as u64);
        lemma_pointers(d, mid.cur, i as u64);
        lemma_pointers(d, ws[i].old_value, i as u64);
        lemma_pointers(d, ws[i].new_value, i as u64);
        lemma_pointers(d, dirtied(v), i as u64);
        lemma_dirty(before.cur);
        lemma_dirty(v);
        assert(plain(ws[i].old_value) && plain(ws[i].new_value));
        assert(mid == if before.cur == rdcss_ptr(d, i as u64) {
            Word { cur: ws[i].old_value, ..before }
        } else {
            before
        });
        assert(verdict_of(m2.descs[d].status.cur) == SUCCEEDED <==> ok);
        if before.cur == rdcss_ptr(d, i as u64) {
            assert(mid.cur == ws[i].old_value);
            assert(!is_desc(mid.cur));
            assert(is_dirty(dirtied(v)));
            assert(!is_dirty(mid.cur));
            assert(after.cur == mid.cur);
        } else if clean(before.cur) == mwcas_ptr(d) {
            assert(after == (Word { cur: v, durable: dirtied(v) }));
        } else {
            assert(!is_desc(before.cur));
        }
    }
    assert forall|a: u64|
        m.words.contains_key(a) && (forall|i: int|
            0 <= i < ws.len() ==> (#[trigger] ws[i]).address != a) implies #[trigger] n.words[a]
        == m.words[a] by {
        lemma_resolve_all_frame(m1, d, 0, a);
        lemma_finish_frame(m2, d, 0, a);
    }
}

/// Detectability. A swap that starts with its outcome open and with no
/// pointer to a descriptor in any of its words, and that runs to its end, has
/// a verdict that survives a crash: the thread that recovers the swap
/// afterwards gets the same verdict, and finds in each word, up to the dirty
/// mark, the new value if the swap has succeeded and what the word held before
/// the swap if not.
pub proof fn lemma_pmwcas_detectable(m: Mem, d: u64, fuel: nat)
    requires
        quiescent(m, d),
    ensures
        ({
            let (ok, n) = m.run(d, fuel);
            let (again, r) = n.crash().recover(d);
            let ws = m.descs[d].words;
            &&& again == ok
            &&& forall|i: int|
                0 <= i < ws.len() ==> clean(r.words[(#[trigger] ws[i]).address].cur) == if ok {
                    ws[i].new_value
                } else {
                    clean(m.words[ws[i].address].cur)
                }
            &&& forall|i: int| 0 <= i < ws.len() ==> !is_desc(r.words[(#[trigger] ws[i]).address].cur)
        }),
{
    let ws = m.descs[d].words;
    lemma_pmwcas_atomic(m, d, fuel);
    lemma_run_keeps_entries(m, d, fuel);
    let (ok, n) = m.run(d, fuel);
    let c = n.crash();
    assert(n.descs.contains_key(d));
    assert(c.descs.contains_key(d));
    lemma_verdict(n.descs[d].status.durable);
    assert(c.descs[d].words == ws);
    assert(c.words.dom() =~= n.words.dom());
    assert(c.descs.dom() =~= n.descs.dom());
    assert forall|i: int| 0 <= i < ws.len() implies {
        let w = c.words[(#[trigger] ws[i]).address].cur;
        !is_desc(w) && clean(w) == if ok {
            ws[i].new_value
        } else {
            clean(m.words[ws[i].address].cur)
        }
    } by {
        lemma_pointers(d, ws[i].new_value, 0);
        lemma_pointers(d, m.words[ws[i].address].cur, 0);
        lemma_pointers(d, n.words[ws[i].address].durable, 0);
        lemma_dirty(ws[i].new_value);
        lemma_dirty(n.words[ws[i].address].durable);
        assert(plain(ws[i].new_value));
        lemma_clean_keeps_desc(n.words[ws[i].address].durable);
        lemma_clean_keeps_desc(m.words[ws[i].address].cur);
    }
    assert forall|i: int| 0 <= i < ws.len() implies c.words.contains_key(
        (#[trigger] c.descs[d].words[i]).address,
    ) by {
        assert(m.words.contains_key(ws[i].address));
    }
    assert(valid_desc(c, d));
    assert(valid_status(c.descs[d].status.cur));
    assert(interrupted(c, d));
    lemma_recover(c, d);
    assert forall|i: int| 0 <= i < ws.len() implies clean(
        c.recover(d).1.words[(#[trigger] ws[i]).address].cur,
    ) == if ok {
        ws[i].new_value
    } else {
        clean(m.words[ws[i].address].cur)
    } by {
        let w = c.words[ws[i].address].cur;
        assert(!is_desc(w));
    }
}

/// The dirty mark and the descriptor bit do not touch each other.
proof fn lemma_clean_keeps_desc(w: u64)
    by (bit_vector)
    ensures
        (w & 0x4000_0000_0000_0000u64 != 0) == ((w & !0x8000_0000_0000_0000u64)
            & 0x4000_0000_0000_0000u64 != 0),
{
}

/// A status whose outcome is decided, one way or the other.
pub open spec fn is_decided(s: u64) -> bool {
    valid_status(s) && s != UNDECIDED
}

/// What the status of the descriptor at `o` holds.
pub open spec fn status_at(m: Mem, o: u64) -> u64 {
    m.descs[o].status.cur
}

/// Every outcome that is decided in `m` is decided the same way in `n`.
pub open spec fn keeps_verdicts(m: Mem, n: Mem) -> bool {
    forall|o: u64|
        m.descs.contains_key(o) && is_decided(#[trigger] status_at(m, o)) ==> n.descs.contains_key(
            o,
        ) && is_decided(status_at(n, o)) && verdict_of(status_at(n, o)) == verdict_of(
            status_at(m, o),
        )
}

/// Deciding an outcome leaves what was decided as it was decided.
proof fn lemma_decide_keeps_verdicts(m: Mem, d: u64, ok: bool)
    requires
        m.descs.contains_key(d),
    ensures
        keeps_verdicts(m, m.decide(d, ok)),
        is_decided(status_at(m, d)) ==> status_at(m.decide(d, ok), d) == verdict_of(
            status_at(m, d),
        ),
{
    lemma_verdict(m.descs[d].status.cur);
    let n = m.decide(d, ok);
    assert forall|o: u64|
        m.descs.contains_key(o) && is_decided(#[trigger] status_at(m, o)) implies n.descs.contains_key(
        o,
    ) && is_decided(status_at(n, o)) && verdict_of(status_at(n, o)) == verdict_of(
        status_at(m, o),
    ) by {
        if o == d {
        }
    }
}


/// Running a swap, whichever, changes no outcome that was decided.
pub proof fn lemma_run_keeps_verdicts(m: Mem, d: u64, fuel: nat)
    ensures
        keeps_verdicts(m, m.run(d, fuel).1),
    decreases fuel, m.descs[d].words.len() + 2,
{
    if m.descs.contains_key(d) {
        lemma_phase_one_keeps_verdicts(m, d, 0, fuel);
        lemma_phase_one_keeps_entries(m, d, 0, fuel);
        let (ok, m1) = m.phase_one(d, 0, fuel);
        let m2 = if ok {
            m1.persist_all(d, 0)
        } else {
            m1
        };
        if ok {
            lemma_persist_all_keeps_descs(m1, d, 0);
        }
        assert(m1.descs.contains_key(d));
        let m3 = m2.decide(d, ok);
        lemma_decide_keeps_verdicts(m2, d, ok);
        lemma_finish_keeps_descs(m3, d, 0);
        lemma_same_descs_keep_verdicts(m1, m2);
        lemma_keeps_verdicts_trans(m, m1, m2);
        lemma_keeps_verdicts_trans(m, m2, m3);
        lemma_same_descs_keep_verdicts(m3, m3.finish(d, 0));
        lemma_keeps_verdicts_trans(m, m3, m3.finish(d, 0));
    }
}

/// The first phase of a swap changes no outcome that was decided.
pub proof fn lemma_phase_one_keeps_verdicts(m: Mem, d: u64, i: int, fuel: nat)
    ensures
        keeps_verdicts(m, m.phase_one(d, i, fuel).1),
    decreases fuel, m.descs[d].words.len() - i + 1,
{
    if !(!m.descs.contains_key(d) || i < 0 || i >= m.descs[d].words.len()) && m.has_entry(d, i) {
        let wd = m.descs[d].words[i];
        let (rval, m1) = m.install(d, i);
        lemma_install_keeps_descs(m, d, i);
        lemma_same_descs_keep_verdicts(m, m1);
        if rval == wd.old_value || clean(rval) == mwcas_ptr(d) {
            lemma_phase_one_keeps_verdicts(m1, d, i + 1, fuel);
            lemma_keeps_verdicts_trans(m, m1, m1.phase_one(d, i + 1, fuel).1);
        } else if is_desc(rval) && !is_rdcss(rval) {
            let m2 = if is_dirty(rval) {
                m1.persist(wd.address, rval)
            } else {
                m1
            };
            lemma_same_descs_keep_verdicts(m, m2);
            if fuel > 0 && m2.descs.contains_key(desc_of(clean(rval))) {
                lemma_run_keeps_verdicts(m2, desc_of(clean(rval)), (fuel - 1) as nat);
                let m3 = m2.run(desc_of(clean(rval)), (fuel - 1) as nat).1;
                lemma_phase_one_keeps_verdicts(m3, d, i, (fuel - 1) as nat);
                lemma_keeps_verdicts_trans(m, m2, m3);
                lemma_keeps_verdicts_trans(m, m3, m3.phase_one(d, i, (fuel - 1) as nat).1);
            }
        }
    }
}

/// Two memories with the same descriptors have the same outcomes decided.
proof fn lemma_same_descs_keep_verdicts(m: Mem, n: Mem)
    requires
        m.descs == n.descs,
    ensures
        keeps_verdicts(m, n),
{
    assert forall|o: u64|
        m.descs.contains_key(o) && is_decided(#[trigger] status_at(m, o)) implies n.descs.contains_key(
        o,
    ) && is_decided(status_at(n, o)) && verdict_of(status_at(n, o)) == verdict_of(
        status_at(m, o),
    ) by {
        assert(status_at(n, o) == status_at(m, o));
    }
}

/// Keeping what was decided carries over from step to step.
proof fn lemma_keeps_verdicts_trans(a: Mem, b: Mem, c: Mem)
    requires
        keeps_verdicts(a, b),
        keeps_verdicts(b, c) || b == c,
    ensures
        keeps_verdicts(a, c),
{
    assert forall|o: u64|
        a.descs.contains_key(o) && is_decided(#[trigger] status_at(a, o)) implies c.descs.contains_key(
        o,
    ) && is_decided(status_at(c, o)) && verdict_of(status_at(c, o)) == verdict_of(
        status_at(a, o),
    ) by {
        assert(is_decided(status_at(b, o)));
    }
}


/// A decided swap keeps its verdict. Whoever runs a swap whose outcome was
/// decided, the issuer again or a helper, in whatever memory and with
/// whatever is in the way, gets the verdict that was decided, and leaves the
/// status at that verdict with the dirty mark cleared.
pub proof fn lemma_run_decided(m: Mem, d: u64, fuel: nat)
    requires
        m.descs.contains_key(d),
        is_decided(m.descs[d].status.cur),
    ensures
        m.run(d, fuel).0 == (verdict_of(m.descs[d].status.cur) == SUCCEEDED),
        m.run(d, fuel).1.descs.contains_key(d),
        m.run(d, fuel).1.descs[d].status.cur == verdict_of(m.descs[d].status.cur),
{
    lemma_phase_one_keeps_verdicts(m, d, 0, fuel);
    lemma_phase_one_keeps_entries(m, d, 0, fuel);
    let (ok, m1) = m.phase_one(d, 0, fuel);
    let m2 = if ok {
        m1.persist_all(d, 0)
    } else {
        m1
    };
    if ok {
        lemma_persist_all_keeps_descs(m1, d, 0);
    }
    assert(is_decided(status_at(m, d)));
    assert(m1.descs.contains_key(d));
    assert(is_decided(status_at(m1, d)));
    assert(status_at(m2, d) == status_at(m1, d));
    let m3 = m2.decide(d, ok);
    lemma_decide_keeps_verdicts(m2, d, ok);
    lemma_verdict(status_at(m2, d));
    lemma_verdict(status_at(m, d));
    lemma_finish_keeps_descs(m3, d, 0);
}

/// Every status that the protocol could have written in `m` is one that it
/// could have written in `n`, and no descriptor has gone.
pub open spec fn keeps_valid(m: Mem, n: Mem) -> bool {
    forall|o: u64|
        m.descs.contains_key(o) && valid_status(#[trigger] status_at(m, o)) ==> n.descs.contains_key(
            o,
        ) && valid_status(status_at(n, o))
}

proof fn lemma_keeps_valid_trans(a: Mem, b: Mem, c: Mem)
    requires
        keeps_valid(a, b),
        keeps_valid(b, c),
    ensures
        keeps_valid(a, c),
{
    assert forall|o: u64|
        a.descs.contains_key(o) && valid_status(#[trigger] status_at(a, o)) implies c.descs.contains_key(
        o,
    ) && valid_status(status_at(c, o)) by {
        assert(valid_status(status_at(b, o)));
    }
}

proof fn lemma_same_descs_keep_valid(m: Mem, n: Mem)
    requires
        m.descs == n.descs,
    ensures
        keeps_valid(m, n),
{
    assert forall|o: u64|
        m.descs.contains_key(o) && valid_status(#[trigger] status_at(m, o)) implies n.descs.contains_key(
        o,
    ) && valid_status(status_at(n, o)) by {
        assert(status_at(n, o) == status_at(m, o));
    }
}

proof fn lemma_decide_keeps_valid(m: Mem, d: u64, ok: bool)
    requires
        m.descs.contains_key(d),
    ensures
        keeps_valid(m, m.decide(d, ok)),
        valid_status(status_at(m, d)) ==> is_decided(status_at(m.decide(d, ok), d)) && status_at(
            m.decide(d, ok),
            d,
        ) & DIRTY_FLAG == 0,
{
    lemma_verdict(status_at(m, d));
    let n = m.decide(d, ok);
    assert forall|o: u64|
        m.descs.contains_key(o) && valid_status(#[trigger] status_at(m, o)) implies n.descs.contains_key(
        o,
    ) && valid_status(status_at(n, o)) by {
        if o == d {
        }
    }
}

/// Running a swap, whichever, leaves every status one that the protocol
/// writes.
pub proof fn lemma_run_keeps_valid(m: Mem, d: u64, fuel: nat)
    ensures
        keeps_valid(m, m.run(d, fuel).1),
    decreases fuel, m.descs[d].words.len() + 2,
{
    if m.descs.contains_key(d) {
        lemma_phase_one_keeps_valid(m, d, 0, fuel);
        lemma_phase_one_keeps_entries(m, d, 0, fuel);
        let (ok, m1) = m.phase_one(d, 0, fuel);
        let m2 = if ok {
            m1.persist_all(d, 0)
        } else {
            m1
        };
        if ok {
            lemma_persist_all_keeps_descs(m1, d, 0);
        }
        assert(m1.descs.contains_key(d));
        let m3 = m2.decide(d, ok);
        lemma_decide_keeps_valid(m2, d, ok);
        lemma_finish_keeps_descs(m3, d, 0);
        lemma_same_descs_keep_valid(m1, m2);
        lemma_keeps_valid_trans(m, m1, m2);
        lemma_keeps_valid_trans(m, m2, m3);
        lemma_same_descs_keep_valid(m3, m3.finish(d, 0));
        lemma_keeps_valid_trans(m, m3, m3.finish(d, 0));
    } else {
        lemma_same_descs_keep_valid(m, m);
    }
}

/// The first phase of a swap leaves every status one that the protocol
/// writes.
pub proof fn lemma_phase_one_keeps_valid(m: Mem, d: u64, i: int, fuel: nat)
    ensures
        keeps_valid(m, m.phase_one(d, i, fuel).1),
    decreases fuel, m.descs[d].words.len() - i + 1,
{
    lemma_same_descs_keep_valid(m, m);
    if !(!m.descs.contains_key(d) || i < 0 || i >= m.descs[d].words.len()) && m.has_entry(d, i) {
        let wd = m.descs[d].words[i];
        let (rval, m1) = m.install(d, i);
        lemma_install_keeps_descs(m, d, i);
        lemma_same_descs_keep_valid(m, m1);
        if rval == wd.old_value || clean(rval) == mwcas_ptr(d) {
            lemma_phase_one_keeps_valid(m1, d, i + 1, fuel);
            lemma_keeps_valid_trans(m, m1, m1.phase_one(d, i + 1, fuel).1);
        } else if is_desc(rval) && !is_rdcss(rval) {
            let m2 = if is_dirty(rval) {
                m1.persist(wd.address, rval)
            } else {
                m1
            };
            lemma_same_descs_keep_valid(m, m2);
            if fuel > 0 && m2.descs.contains_key(desc_of(clean(rval))) {
                lemma_run_keeps_valid(m2, desc_of(clean(rval)), (fuel - 1) as nat);
                let m3 = m2.run(desc_of(clean(rval)), (fuel - 1) as nat).1;
                lemma_phase_one_keeps_valid(m3, d, i, (fuel - 1) as nat);
                lemma_keeps_valid_trans(m, m2, m3);
                lemma_keeps_valid_trans(m, m3, m3.phase_one(d, i, (fuel - 1) as nat).1);
            }
        }
    }
}

/// Never a mixture. Whatever the memory holds and whatever is in the way,
/// a swap that is run ends with its outcome decided, one way or the other,
/// with the dirty mark of the status cleared, and the answer is that outcome.
pub proof fn lemma_run_decides(m: Mem, d: u64, fuel: nat)
    requires
        m.descs.contains_key(d),
        valid_status(status_at(m, d)),
    ensures
        m.run(d, fuel).1.descs.contains_key(d),
        is_decided(status_at(m.run(d, fuel).1, d)),
        status_at(m.run(d, fuel).1, d) & DIRTY_FLAG == 0,
        m.run(d, fuel).0 == (status_at(m.run(d, fuel).1, d) == SUCCEEDED),
        !m.run(d, fuel).0 == (status_at(m.run(d, fuel).1, d) == FAILED),
{
    lemma_phase_one_keeps_valid(m, d, 0, fuel);
    lemma_phase_one_keeps_entries(m, d, 0, fuel);
    let (ok, m1) = m.phase_one(d, 0, fuel);
    let m2 = if ok {
        m1.persist_all(d, 0)
    } else {
        m1
    };
    if ok {
        lemma_persist_all_keeps_descs(m1, d, 0);
    }
    assert(m1.descs.contains_key(d));
    assert(valid_status(status_at(m1, d)));
    assert(status_at(m2, d) == status_at(m1, d));
    let m3 = m2.decide(d, ok);
    lemma_decide_keeps_valid(m2, d, ok);
    lemma_finish_keeps_descs(m3, d, 0);
    lemma_verdict(status_at(m3, d));
    assert(status_at(m3.finish(d, 0), d) == status_at(m3, d));
}

/// Where the first mismatch lies says whether every word matches.
pub proof fn lemma_first_mismatch(m: Mem, d: u64, i: int)
    requires
        0 <= i <= m.descs[d].words.len(),
    ensures
        i <= first_mismatch(m, d, i) <= m.descs[d].words.len(),
        (first_mismatch(m, d, i) == m.descs[d].words.len()) == (forall|j: int|
            i <= j < m.descs[d].words.len() ==> m.words[(
            #[trigger] m.descs[d].words[j]).address].cur == m.descs[d].words[j].old_value),
    decreases m.descs[d].words.len() - i,
{
    let ws = m.descs[d].words;
    if i < ws.len() {
        if m.words[ws[i].address].cur == ws[i].old_value {
            lemma_first_mismatch(m, d, i + 1);
            if first_mismatch(m, d, i + 1) == ws.len() {
                assert forall|j: int| i <= j < ws.len() implies m.words[(
                #[trigger] ws[j]).address].cur == ws[j].old_value by {
                    if j > i {
                    }
                }
            } else {
                let j = choose|j: int|
                    i + 1 <= j < ws.len() && !(m.words[(#[trigger] ws[j]).address].cur
                        == ws[j].old_value);
                assert(ws[j] == ws[j]);
            }
        } else {
            assert(ws[i] == ws[i]);
        }
    }
}

/// Flushing the words of a swap adds and removes no word.
pub proof fn lemma_persist_all_dom(m: Mem, d: u64, i: int)
    ensures
        m.persist_all(d, i).words.dom() == m.words.dom(),
    decreases m.descs[d].words.len() - i,
{
    if !(!m.descs.contains_key(d) || i < 0 || i >= m.descs[d].words.len()) {
        let m1 = m.persist(m.descs[d].words[i].address, dirtied(mwcas_ptr(d)));
        assert(m1.words.dom() =~= m.words.dom());
        lemma_persist_all_dom(m1, d, i + 1);
    }
}

/// The last phase of a swap adds and removes no word.
pub proof fn lemma_finish_dom(m: Mem, d: u64, i: int)
    ensures
        m.finish(d, i).words.dom() == m.words.dom(),
    decreases m.descs[d].words.len() - i,
{
    if !(!m.descs.contains_key(d) || i < 0 || i >= m.descs[d].words.len()) {
        let wd = m.descs[d].words[i];
        let v = if verdict_of(m.descs[d].status.cur) == SUCCEEDED {
            wd.new_value
        } else {
            wd.old_value
        };
        let m1 = m.replace(d, wd.address, v);
        assert(m1.words.dom() =~= m.words.dom());
        lemma_finish_dom(m1, d, i + 1);
    }
}

/// Running a swap leaves the entries of every descriptor as they are.
pub proof fn lemma_run_keeps_entries(m: Mem, d: u64, fuel: nat)
    ensures
        m.run(d, fuel).1.descs.dom() == m.descs.dom(),
        forall|o: u64|
            m.descs.contains_key(o) ==> (#[trigger] m.run(d, fuel).1.descs[o]).words
                == m.descs[o].words,
    decreases fuel, m.descs[d].words.len() + 2,
{
    if m.descs.contains_key(d) {
        lemma_phase_one_keeps_entries(m, d, 0, fuel);
        let (ok, m1) = m.phase_one(d, 0, fuel);
        let m2 = if ok {
            m1.persist_all(d, 0)
        } else {
            m1
        };
        if ok {
            lemma_persist_all_keeps_descs(m1, d, 0);
        }
        let m3 = m2.decide(d, ok);
        assert(m3.descs.dom() =~= m2.descs.dom());
        lemma_finish_keeps_descs(m3, d, 0);
    }
}

/// The first phase leaves the entries of every descriptor as they are.
pub proof fn lemma_phase_one_keeps_entries(m: Mem, d: u64, i: int, fuel: nat)
    ensures
        m.phase_one(d, i, fuel).1.descs.dom() == m.descs.dom(),
        forall|o: u64|
            m.descs.contains_key(o) ==> (#[trigger] m.phase_one(d, i, fuel).1.descs[o]).words
                == m.descs[o].words,
    decreases fuel, m.descs[d].words.len() - i + 1,
{
    if !(!m.descs.contains_key(d) || i < 0 || i >= m.descs[d].words.len()) && m.has_entry(d, i) {
        let wd = m.descs[d].words[i];
        let (rval, m1) = m.install(d, i);
        lemma_install_keeps_descs(m, d, i);
        if rval == wd.old_value || clean(rval) == mwcas_ptr(d) {
            lemma_phase_one_keeps_entries(m1, d, i + 1, fuel);
        } else if is_desc(rval) && !is_rdcss(rval) {
            let m2 = if is_dirty(rval) {
                m1.persist(wd.address, rval)
            } else {
                m1
            };
            if fuel > 0 && m2.descs.contains_key(desc_of(clean(rval))) {
                lemma_run_keeps_entries(m2, desc_of(clean(rval)), (fuel - 1) as nat);
                let m3 = m2.run(desc_of(clean(rval)), (fuel - 1) as nat).1;
                lemma_phase_one_keeps_entries(m3, d, i, (fuel - 1) as nat);
            }
        }
    }
}

/// An install changes no descriptor.
pub proof fn lemma_install_keeps_descs(m: Mem, d: u64, i: int)
    ensures
        m.install(d, i).1.descs == m.descs,
{
}

/// Flushing the words of a swap changes no descriptor.
pub proof fn lemma_persist_all_keeps_descs(m: Mem, d: u64, i: int)
    ensures
        m.persist_all(d, i).descs == m.descs,
    decreases m.descs[d].words.len() - i,
{
    if !(!m.descs.contains_key(d) || i < 0 || i >= m.descs[d].words.len()) {
        let m1 = m.persist(m.descs[d].words[i].address, dirtied(mwcas_ptr(d)));
        lemma_persist_all_keeps_descs(m1, d, i + 1);
    }
}

/// The last phase of a swap changes no descriptor.
pub proof fn lemma_finish_keeps_descs(m: Mem, d: u64, i: int)
    ensures
        m.finish(d, i).descs == m.descs,
    decreases m.descs[d].words.len() - i,
{
    if !(!m.descs.contains_key(d) || i < 0 || i >= m.descs[d].words.len()) {
        let wd = m.descs[d].words[i];
        let v = if verdict_of(m.descs[d].status.cur) == SUCCEEDED {
            wd.new_value
        } else {
            wd.old_value
        };
        let m1 = m.replace(d, wd.address, v);
        lemma_finish_keeps_descs(m1, d, i + 1);
    }
}

proof fn lemma_verdict(v: u64)
    by (bit_vector)
    ensures
        (v & !1u64) & !1u64 == v & !1u64,
        v & 1u64 == 0 ==> v & !1u64 == v,
        (2u64 | 1u64) & 1u64 != 0,
        (4u64 | 1u64) & 1u64 != 0,
        (2u64 | 1u64) & !1u64 == 2,
        (4u64 | 1u64) & !1u64 == 4,
        0u64 & !1u64 == 0,
        2u64 & !1u64 == 2,
        4u64 & !1u64 == 4,
        2u64 & 1u64 == 0,
        4u64 & 1u64 == 0,
        3u64 & 1u64 != 0,
        5u64 & 1u64 != 0,
        3u64 & !1u64 == 2,
        5u64 & !1u64 == 4,
{
}

/// A swap of a word changes the words as it would in a memory without
/// descriptors, and leaves the descriptors alone.
proof fn lemma_cas_frame(m: Mem, addr: u64, expected: u64, new: u64)
    ensures
        m.cas(addr, expected, new).descs == m.descs,
        m.cas(addr, expected, new).words == (Mem { words: m.words, descs: Map::empty() }).cas(
            addr,
            expected,
            new,
        ).words,
        m.persist(addr, expected).descs == m.descs,
        m.persist(addr, expected).words == (Mem { words: m.words, descs: Map::empty() }).persist(
            addr,
            expected,
        ).words,
{
}

} // verus!
