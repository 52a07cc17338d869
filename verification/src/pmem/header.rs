//! The header block of a pool file: magic number, version, size of the
//! pool, offset of the user region, and the root table, each a 64-bit number
//! in little-endian order.

use vstd::prelude::*;
use vstd::bytes::spec_u64_from_le_bytes;
use vstd::bytes::spec_u64_to_le_bytes;
use vstd::bytes::u64_from_le_bytes;
use vstd::bytes::u64_to_le_bytes;
use crate::pmem::pool::PoolError;
use crate::pmem::pool::NR_ROOTS;

verus! {

/// The number that a pool file starts with.
pub const MAGIC: u64 = 0x4d45_4d45_4e54_4f31;

/// The version of the layout that this library reads and writes.
pub const VERSION: u64 = 1;

/// The length of the header block in bytes.
pub const HEADER_LEN: usize = 160;

/// What a header block says, as a value.
pub ghost struct HeaderView {
    pub size: u64,
    pub base_offset: u64,
    pub roots: Seq<u64>,
}

/// What a header block says about its pool.
#[derive(Debug)]
pub struct PoolHeader {
    /// The size of the pool in bytes.
    pub size: u64,
    /// The offset of the user region from the start of the file.
    pub base_offset: u64,
    roots: Vec<u64>,
}

impl View for PoolHeader {
    type V = HeaderView;

    closed spec fn view(&self) -> HeaderView {
        HeaderView { size: self.size, base_offset: self.base_offset, roots: self.roots@ }
    }
}

/// The number that the eight bytes of `bytes` from `at` on stand for.
pub open spec fn field_at(bytes: Seq<u8>, at: int) -> u64 {
    spec_u64_from_le_bytes(bytes.subrange(at, at + 8))
}

/// The bytes of the first `n` roots, one after the other.
pub open spec fn roots_bytes(roots: Seq<u64>, n: int) -> Seq<u8>
    decreases n,
{
    if n <= 0 {
        Seq::empty()
    } else {
        roots_bytes(roots, n - 1) + spec_u64_to_le_bytes(roots[n - 1])
    }
}

/// The header block that says `h`.
pub open spec fn header_bytes(h: HeaderView) -> Seq<u8> {
    spec_u64_to_le_bytes(MAGIC) + spec_u64_to_le_bytes(VERSION) + spec_u64_to_le_bytes(h.size)
        + spec_u64_to_le_bytes(h.base_offset) + roots_bytes(h.roots, NR_ROOTS as int)
}

/// Whether `bytes` start with a header block of this library's layout.
pub open spec fn is_header(bytes: Seq<u8>) -> bool {
    bytes.len() >= HEADER_LEN && field_at(bytes, 0) == MAGIC && field_at(bytes, 8) == VERSION
}

/// What the header block at the start of `bytes` says.
pub open spec fn header_of(bytes: Seq<u8>) -> HeaderView {
    HeaderView {
        size: field_at(bytes, 16),
        base_offset: field_at(bytes, 24),
        roots: Seq::new(NR_ROOTS as nat, |i: int| field_at(bytes, 32 + 8 * i)),
    }
}

impl PoolHeader {
    /// The header has a root for each entry of the table.
    pub open spec fn wf(&self) -> bool {
        self@.roots.len() == NR_ROOTS
    }

    /// The header of a pool of `size` bytes whose user region starts at
    /// `base_offset`, with the root table `roots`. There is none when the
    /// table has not `NR_ROOTS` entries.
    pub fn new(size: u64, base_offset: u64, roots: Vec<u64>) -> (h: Option<PoolHeader>)
        ensures
            match h {
                Some(h) => h.wf() && h@ == (HeaderView { size, base_offset, roots: roots@ }),
                None => roots@.len() != NR_ROOTS,
            },
    {
        if roots.len() == NR_ROOTS {
            Some(PoolHeader { size, base_offset, roots })
        } else {
            None
        }
    }

    /// Root `i` of the table.
    pub fn root(&self, i: usize) -> (r: u64)
        requires
            self.wf(),
            i < NR_ROOTS,
        ensures
            r == self@.roots[i as int],
    {
        self.roots[i]
    }

    /// Reads the header block at the start of `bytes`. Fails with
    /// `Corrupted` when `bytes` are too short for one, or do not start with
    /// the magic number and the version of this layout.
    pub fn parse(bytes: &[u8]) -> (r: Result<PoolHeader, PoolError>)
        ensures
            match r {
                Ok(h) => is_header(bytes@) && h@ == header_of(bytes@) && h.wf(),
                Err(e) => !is_header(bytes@) && e == PoolError::Corrupted,
            },
    {
        if bytes.len() < HEADER_LEN {
            return Err(PoolError::Corrupted);
        }
        let magic = read_field(bytes, 0);
        let version = read_field(bytes, 8);
        if magic != MAGIC || version != VERSION {
            return Err(PoolError::Corrupted);
        }
        let size = read_field(bytes, 16);
        let base_offset = read_field(bytes, 24);
        let mut roots: Vec<u64> = Vec::new();
        let mut i: usize = 0;
        while i < NR_ROOTS
            invariant
                i <= NR_ROOTS,
                bytes@.len() >= HEADER_LEN,
                roots@ == Seq::new(i as nat, |k: int| field_at(bytes@, 32 + 8 * k)),
            decreases NR_ROOTS - i,
        {
            roots.push(read_field(bytes, 32 + 8 * i));
            i = i + 1;
            assert(roots@ =~= Seq::new(i as nat, |k: int| field_at(bytes@, 32 + 8 * k)));
        }
        Ok(PoolHeader { size, base_offset, roots })
    }

    /// Writes the header block.
    pub fn to_bytes(&self) -> (bytes: Vec<u8>)
        requires
            self.wf(),
        ensures
            bytes@ == header_bytes(self@),
            bytes@.len() == HEADER_LEN,
    {
        let mut bytes = u64_to_le_bytes(MAGIC);
        let mut version = u64_to_le_bytes(VERSION);
        let mut size = u64_to_le_bytes(self.size);
        let mut base_offset = u64_to_le_bytes(self.base_offset);
        bytes.append(&mut version);
        bytes.append(&mut size);
        bytes.append(&mut base_offset);
        let ghost head = bytes@;
        proof {
            lemma_field_len(MAGIC);
            lemma_field_len(VERSION);
            lemma_field_len(self.size);
            lemma_field_len(self.base_offset);
        }
        let mut i: usize = 0;
        while i < NR_ROOTS
            invariant
                i <= NR_ROOTS,
                self.wf(),
                bytes@ == head + roots_bytes(self@.roots, i as int),
                bytes@.len() == 32 + 8 * i,
            decreases NR_ROOTS - i,
        {
            let mut field = u64_to_le_bytes(self.roots[i]);
            proof {
                lemma_field_len(self.roots@[i as int]);
            }
            bytes.append(&mut field);
            i = i + 1;
            assert(bytes@ =~= head + roots_bytes(self@.roots, i as int));
        }
        bytes
    }
}

/// The number that the eight bytes of `bytes` from `at` on stand for.
fn read_field(bytes: &[u8], at: usize) -> (x: u64)
    requires
        at + 8 <= bytes@.len(),
    ensures
        x == field_at(bytes@, at as int),
{
    let len = bytes.len();
    let field = vstd::slice::slice_subrange(bytes, at, at + 8);
    u64_from_le_bytes(field)
}

/// A number takes eight bytes.
pub proof fn lemma_field_len(x: u64)
    ensures
        spec_u64_to_le_bytes(x).len() == 8,
        spec_u64_from_le_bytes(spec_u64_to_le_bytes(x)) == x,
{
    vstd::bytes::lemma_auto_spec_u64_to_from_le_bytes();
}

/// The bytes of `n` roots are eight times `n` long, and the bytes of each
/// root stand where its number says.
pub proof fn lemma_roots_bytes(roots: Seq<u64>, n: int)
    requires
        0 <= n <= roots.len(),
    ensures
        roots_bytes(roots, n).len() == 8 * n,
        forall|k: int|
            0 <= k < n ==> #[trigger] roots_bytes(roots, n).subrange(8 * k, 8 * k + 8)
                == spec_u64_to_le_bytes(roots[k]),
    decreases n,
{
    if n > 0 {
        lemma_roots_bytes(roots, n - 1);
        lemma_field_len(roots[n - 1]);
        let prev = roots_bytes(roots, n - 1);
        let all = roots_bytes(roots, n);
        assert forall|k: int| 0 <= k < n implies #[trigger] all.subrange(8 * k, 8 * k + 8)
            == spec_u64_to_le_bytes(roots[k]) by {
            if k < n - 1 {
                assert(all.subrange(8 * k, 8 * k + 8) =~= prev.subrange(8 * k, 8 * k + 8));
            } else {
                assert(all.subrange(8 * k, 8 * k + 8) =~= spec_u64_to_le_bytes(roots[n - 1]));
            }
        }
    }
}

/// Reading a header block that was written gives back what was written.
pub proof fn lemma_parse_written(h: HeaderView)
    requires
        h.roots.len() == NR_ROOTS,
    ensures
        header_bytes(h).len() == HEADER_LEN,
        is_header(header_bytes(h)),
        header_of(header_bytes(h)) == h,
{
    let bytes = header_bytes(h);
    lemma_field_len(MAGIC);
    lemma_field_len(VERSION);
    lemma_field_len(h.size);
    lemma_field_len(h.base_offset);
    lemma_roots_bytes(h.roots, NR_ROOTS as int);
    let tail = roots_bytes(h.roots, NR_ROOTS as int);
    assert(bytes.subrange(0, 8) =~= spec_u64_to_le_bytes(MAGIC));
    assert(bytes.subrange(8, 16) =~= spec_u64_to_le_bytes(VERSION));
    assert(bytes.subrange(16, 24) =~= spec_u64_to_le_bytes(h.size));
    assert(bytes.subrange(24, 32) =~= spec_u64_to_le_bytes(h.base_offset));
    assert forall|i: int| 0 <= i < NR_ROOTS implies field_at(bytes, 32 + 8 * i) == h.roots[i] by {
        assert(bytes.subrange(32 + 8 * i, 32 + 8 * i + 8) =~= tail.subrange(8 * i, 8 * i + 8));
        lemma_field_len(h.roots[i]);
    }
    assert(header_of(bytes).roots =~= h.roots);
}

} // verus!
