//! Which cache lines a flush has to reach.

use vstd::prelude::*;

verus! {

/// The size of a cache line in bytes.
pub const CACHE_LINE: u64 = 64;

/// The start of the cache line that the byte at `addr` lies in.
pub open spec fn line_of(addr: int) -> int {
    addr - addr % (CACHE_LINE as int)
}

/// The cache lines that a flush of `len` bytes at `addr` has to reach: the
/// start of the first and of the last line that the range touches. There is
/// none for an empty range, nor for one that runs past the end of the address
/// space.
pub fn cache_lines(addr: u64, len: u64) -> (r: Option<(u64, u64)>)
    ensures
        match r {
            Some((first, last)) => {
                &&& len > 0
                &&& addr + len - 1 <= u64::MAX
                &&& first == line_of(addr as int)
                &&& last == line_of(addr + len - 1)
                &&& first <= last
            },
            None => len == 0 || addr + len - 1 > u64::MAX,
        },
{
    if len == 0 || addr > u64::MAX - (len - 1) {
        return None;
    }
    let end: u64 = addr + (len - 1);
    Some((addr - addr % CACHE_LINE, end - end % CACHE_LINE))
}

/// The number of cache lines from the one that starts at `first` to the one
/// that starts at `last`.
pub fn line_count(first: u64, last: u64) -> (n: u64)
    requires
        first <= last,
        first % CACHE_LINE == 0,
        last % CACHE_LINE == 0,
    ensures
        n == (last - first) / (CACHE_LINE as int) + 1,
        n >= 1,
{
    (last - first) / CACHE_LINE + 1
}

/// Every byte of a range lies in one of the cache lines from the first to
/// the last that the range touches, and each of those lines holds a byte of
/// the range.
pub proof fn lemma_lines_cover(addr: int, len: int, byte: int, line: int)
    requires
        0 <= addr,
        len > 0,
    ensures
        addr <= byte < addr + len ==> line_of(addr) <= line_of(byte) <= line_of(addr + len - 1),
        line_of(byte) % (CACHE_LINE as int) == 0,
        line_of(byte) <= byte < line_of(byte) + CACHE_LINE,
        line % (CACHE_LINE as int) == 0 && line_of(addr) <= line <= line_of(addr + len - 1)
            ==> addr < line + CACHE_LINE && line <= addr + len - 1,
{
}

} // verus!
