//! Deferred work: a destructor to run once no participant can reach its
//! object any more.

use vstd::prelude::*;

verus! {

/// The function that does nothing. Empty places hold it.
pub const NO_OP_FUNC: usize = 0;

/// One piece of deferred work: which function to run and on what. Two
/// records with the same key stand for the same object, and only one of them
/// may run.
#[derive(Clone, Copy, Debug, PartialEq, Eq, Structural)]
pub struct Deferred {
    /// The function to run, by its number in the client's table.
    pub func: usize,
    /// The key of the object, if it has one.
    pub key: Option<u64>,
    /// The argument to hand to the function.
    pub arg: u64,
}

impl Deferred {
    /// The record that runs `func` on `arg`.
    pub fn new(func: usize, key: Option<u64>, arg: u64) -> (d: Deferred)
        ensures
            d == (Deferred { func, key, arg }),
    {
        Deferred { func, key, arg }
    }

    /// The record that does nothing.
    pub fn no_op() -> (d: Deferred)
        ensures
            d == (Deferred { func: NO_OP_FUNC, key: None, arg: 0 }),
    {
        Deferred { func: NO_OP_FUNC, key: None, arg: 0 }
    }

    /// The key of the object, if it has one.
    pub fn key(&self) -> (k: Option<u64>)
        ensures
            k == self.key,
    {
        self.key
    }

    /// Hands the record over for running: the function's number and its
    /// argument.
    pub fn call(self) -> (r: (usize, u64))
        ensures
            r == (self.func, self.arg),
    {
        (self.func, self.arg)
    }
}

/// Whether a record in `s` carries the key `k`.
pub open spec fn has_key(s: Seq<Deferred>, k: u64) -> bool {
    exists|i: int| 0 <= i < s.len() && #[trigger] s[i].key == Some(k)
}

/// The number of records in `s` that carry the key `k`.
pub open spec fn count_key(s: Seq<Deferred>, k: u64) -> nat
    decreases s.len(),
{
    if s.len() == 0 {
        0
    } else {
        count_key(s.drop_last(), k) + if s.last().key == Some(k) {
            1nat
        } else {
            0nat
        }
    }
}

/// `s` without the records whose key an earlier record of `s` carries.
/// Records without a key all stay.
pub open spec fn dedup(s: Seq<Deferred>) -> Seq<Deferred>
    decreases s.len(),
{
    if s.len() == 0 {
        s
    } else {
        let init = dedup(s.drop_last());
        let d = s.last();
        if d.key is Some && has_key(init, d.key.unwrap()) {
            init
        } else {
            init.push(d)
        }
    }
}

/// No two records of `s` carry the same key.
pub open spec fn distinct_keys(s: Seq<Deferred>) -> bool {
    forall|i: int, j: int|
        0 <= i < j < s.len() && (#[trigger] s[i]).key is Some ==> s[i].key != (#[trigger] s[j]).key
}

/// A key is carried in `s` exactly if the last record carries it or one
/// before the last does.
pub proof fn lemma_has_key_last(s: Seq<Deferred>, k: u64)
    requires
        s.len() > 0,
    ensures
        has_key(s, k) == (has_key(s.drop_last(), k) || s.last().key == Some(k)),
{
    let t = s.drop_last();
    if has_key(s, k) {
        let i = choose|i: int| 0 <= i < s.len() && #[trigger] s[i].key == Some(k);
        if i < s.len() - 1 {
            assert(t[i].key == Some(k));
        }
    }
    if has_key(t, k) {
        let i = choose|i: int| 0 <= i < t.len() && #[trigger] t[i].key == Some(k);
        assert(s[i].key == Some(k));
    }
    if s.last().key == Some(k) {
        assert(s[s.len() - 1].key == Some(k));
    }
}

/// What `dedup` keeps: every record it keeps was there, it keeps a record
/// for each key that was there, and it is no longer than what it was given.
pub proof fn lemma_dedup_keeps(s: Seq<Deferred>)
    ensures
        dedup(s).len() <= s.len(),
        forall|i: int| 0 <= i < dedup(s).len() ==> s.contains(#[trigger] dedup(s)[i]),
        forall|k: u64| has_key(dedup(s), k) == has_key(s, k),
    decreases s.len(),
{
    if s.len() > 0 {
        let init = dedup(s.drop_last());
        let d = s.last();
        lemma_dedup_keeps(s.drop_last());
        assert forall|i: int| 0 <= i < dedup(s).len() implies s.contains(#[trigger] dedup(s)[i]) by {
            if i < init.len() {
                assert(s.drop_last().contains(init[i]));
                let j = choose|j: int| 0 <= j < s.drop_last().len() && s.drop_last()[j] == init[i];
                assert(s[j] == init[i]);
            } else {
                assert(dedup(s)[i] == d);
                assert(s[s.len() - 1] == d);
            }
        }
        assert forall|k: u64| has_key(dedup(s), k) == has_key(s, k) by {
            lemma_has_key_last(s, k);
            if d.key is Some && has_key(init, d.key.unwrap()) {
            } else {
                assert(dedup(s).drop_last() =~= init);
                lemma_has_key_last(dedup(s), k);
            }
        }
    }
}

/// After `dedup` no two records carry the same key, and each key that was
/// there is carried by exactly one record.
pub proof fn lemma_dedup_distinct(s: Seq<Deferred>)
    ensures
        distinct_keys(dedup(s)),
        forall|k: u64| count_key(dedup(s), k) == if has_key(s, k) { 1nat } else { 0nat },
    decreases s.len(),
{
    if s.len() > 0 {
        let init = dedup(s.drop_last());
        let d = s.last();
        lemma_dedup_distinct(s.drop_last());
        lemma_dedup_keeps(s.drop_last());
        assert forall|k: u64| count_key(dedup(s), k) == if has_key(s, k) { 1nat } else { 0nat } by {
            lemma_has_key_last(s, k);
            assert(count_key(init, k) == if has_key(s.drop_last(), k) { 1nat } else { 0nat });
            assert(has_key(init, k) == has_key(s.drop_last(), k));
            if d.key is Some && has_key(init, d.key.unwrap()) {
                assert(dedup(s) == init);
            } else {
                assert(dedup(s) == init.push(d));
                assert(dedup(s).drop_last() =~= init);
                assert(dedup(s).last() == d);
            }
        }
        assert forall|i: int, j: int|
            0 <= i < j < dedup(s).len() && (#[trigger] dedup(s)[i]).key is Some implies dedup(
            s,
        )[i].key != (#[trigger] dedup(s)[j]).key by {
            if j == init.len() {
                assert(init[i].key == Some(init[i].key.unwrap()));
            }
        }
    } else {
        assert forall|k: u64| count_key(dedup(s), k) == 0 && !has_key(s, k) by {}
    }
}

/// `s` without the records whose key an earlier record of `s` carries.
pub fn dedup_by_key(s: &Vec<Deferred>) -> (out: Vec<Deferred>)
    ensures
        out@ == dedup(s@),
{
    let mut out: Vec<Deferred> = Vec::new();
    let mut i: usize = 0;
    while i < s.len()
        invariant
            i <= s.len(),
            out@ == dedup(s@.take(i as int)),
        decreases s.len() - i,
    {
        let d = s[i];
        let mut seen = false;
        match d.key {
            Some(k) => {
                let mut j: usize = 0;
                while j < out.len()
                    invariant
                        j <= out.len(),
                        seen == has_key(out@.take(j as int), k),
                    decreases out.len() - j,
                {
                    if out[j].key == Some(k) {
                        seen = true;
                    }
                    proof {
                        let a = out@.take(j as int);
                        let b = out@.take(j + 1);
                        if has_key(a, k) {
                            let x = choose|x: int| 0 <= x < a.len() && #[trigger] a[x].key == Some(k);
                            assert(b[x].key == Some(k));
                        }
                        if out@[j as int].key == Some(k) {
                            assert(b[j as int].key == Some(k));
                        }
                        if has_key(b, k) {
                            let x = choose|x: int| 0 <= x < b.len() && #[trigger] b[x].key == Some(k);
                            if x < j {
                                assert(a[x].key == Some(k));
                            }
                        }
                    }
                    j = j + 1;
                }
                assert(out@.take(j as int) =~= out@);
            },
            None => {},
        }
        proof {
            assert(s@.take(i + 1).drop_last() =~= s@.take(i as int));
            assert(s@.take(i + 1).last() == d);
        }
        if !seen {
            out.push(d);
        }
        i = i + 1;
    }
    assert(s@.take(i as int) =~= s@);
    out
}

} // verus!
