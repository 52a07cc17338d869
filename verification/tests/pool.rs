use memento::pmem::pool::Pool;
use memento::pmem::pool::PoolError;
use memento::pmem::pool::GRANULE;
use memento::pmem::pool::NR_ROOTS;
use memento::pmem::ptr::PoolPtr;
use memento::pmem::ptr::NULL_OFFSET;
use memento::pmem::header::HEADER_LEN;
use memento::pmem::ll::cache_lines;
use memento::pmem::ll::line_count;
use memento::pmem::ll::CACHE_LINE;
use memento::pmem::header::PoolHeader;

#[test]
fn pointer_is_its_offset() {
    let p = PoolPtr::<u64>::from(384);
    assert_eq!(p.offset(), 384);
    assert!(!p.is_null());
    assert_eq!(p.into_offset(), 384);
    assert!(PoolPtr::<u64>::null().is_null());
    assert_eq!(PoolPtr::<u64>::null().into_offset(), NULL_OFFSET);
}

#[test]
fn create_rejects_what_cannot_be_addressed() {
    assert!(Pool::<u64>::create(0, 16).is_ok());
    assert_eq!(Pool::<u64>::create(0, usize::MAX).err(), Some(PoolError::OutOfPool));
    assert_eq!(Pool::<u64>::create(u64::MAX - 100, 16).err(), Some(PoolError::OutOfPool));
    assert_eq!(Pool::<u64>::create(u64::MAX - 256, 1).map(|p| p.base_addr()).ok(), Some(u64::MAX - 256));
}

#[test]
fn allocate_takes_the_lowest_free_slot() {
    let mut pool = Pool::<u64>::create(0x10_0000, 3).unwrap();
    let a = pool.allocate(10).unwrap();
    let b = pool.allocate(20).unwrap();
    let c = pool.allocate(30).unwrap();
    assert_eq!((a.offset(), b.offset(), c.offset()), (GRANULE, 2 * GRANULE, 3 * GRANULE));
    assert_eq!(pool.allocate(40).err(), Some(PoolError::OutOfPool));
    assert_eq!(pool.deref(&b), Some(&20));
    pool.free(PoolPtr::from(b.offset()));
    assert_eq!(pool.deref(&b), None);
    assert!(!pool.is_live(&b));
    assert!(pool.is_live(&a));
    let d = pool.allocate(50).unwrap();
    assert_eq!(d.offset(), 2 * GRANULE);
    assert_eq!(pool.deref(&d), Some(&50));
    assert_eq!(pool.deref(&a), Some(&10));
    assert_eq!(pool.deref(&c), Some(&30));
}

#[test]
fn offsets_that_name_no_slot_hold_nothing() {
    let mut pool = Pool::<u64>::create(0, 4).unwrap();
    let a = pool.allocate(1).unwrap();
    assert_eq!(pool.index_of(a.offset()), Some(0));
    assert_eq!(pool.index_of(0), None);
    assert_eq!(pool.index_of(GRANULE + 1), None);
    assert_eq!(pool.index_of(2 * GRANULE), None);
    assert_eq!(pool.deref(&PoolPtr::from(0)), None);
    assert_eq!(pool.deref(&PoolPtr::from(GRANULE + 8)), None);
    pool.free(PoolPtr::from(7 * GRANULE));
    assert_eq!(pool.deref(&a), Some(&1));
}

#[test]
fn replace_and_deref_mut_change_one_object() {
    let mut pool = Pool::<u64>::create(0, 4).unwrap();
    let a = pool.allocate(1).unwrap();
    let b = pool.allocate(2).unwrap();
    assert_eq!(pool.replace(&a, 11), Ok(1));
    assert_eq!(pool.replace(&PoolPtr::from(3 * GRANULE), 5), Err(5));
    *pool.deref_mut(&b) += 40;
    assert_eq!(pool.deref(&a), Some(&11));
    assert_eq!(pool.deref(&b), Some(&42));
}

#[test]
fn roots_start_null_and_keep_what_is_set() {
    let mut pool = Pool::<u64>::create(0, 4).unwrap();
    for i in 0..NR_ROOTS {
        assert_eq!(pool.root(i).map(|p| p.into_offset()), Some(NULL_OFFSET));
    }
    assert!(pool.root(NR_ROOTS).is_none());
    let a = pool.allocate(7).unwrap();
    assert_eq!(pool.set_root(3, PoolPtr::from(a.offset())).map(|p| p.into_offset()), Some(NULL_OFFSET));
    assert_eq!(pool.root(3).map(|p| p.into_offset()), Some(a.offset()));
    assert_eq!(pool.set_root(3, PoolPtr::null()).map(|p| p.into_offset()), Some(a.offset()));
    assert!(pool.set_root(NR_ROOTS, PoolPtr::null()).is_none());
    assert_eq!(pool.root(2).map(|p| p.into_offset()), Some(NULL_OFFSET));
}

#[test]
fn addresses_are_offsets_from_the_base() {
    let pool = Pool::<u64>::create(0x7000_0000, 4).unwrap();
    assert_eq!(pool.base_addr(), 0x7000_0000);
    assert_eq!(pool.offset_to_addr(128), Some(0x7000_0080));
    assert_eq!(pool.offset_to_addr(u64::MAX), None);
    assert_eq!(pool.addr_to_offset(0x7000_0080), Some(128));
    assert_eq!(pool.addr_to_offset(0x6fff_ffff), None);
    // The same object has the same offset wherever the pool is mapped.
    let moved = Pool::<u64>::create(0x9000_0000, 4).unwrap();
    assert_eq!(moved.addr_to_offset(moved.offset_to_addr(128).unwrap()), Some(128));
}

#[test]
fn header_round_trip() {
    let roots: Vec<u64> = (0..NR_ROOTS as u64).map(|i| i * GRANULE).collect();
    let header = PoolHeader::new(1 << 20, HEADER_LEN as u64, roots.clone()).unwrap();
    let bytes = header.to_bytes();
    assert_eq!(bytes.len(), HEADER_LEN);
    assert_eq!(&bytes[0..8], &0x4d45_4d45_4e54_4f31u64.to_le_bytes());
    assert_eq!(&bytes[8..16], &1u64.to_le_bytes());
    assert_eq!(&bytes[16..24], &(1u64 << 20).to_le_bytes());
    assert_eq!(&bytes[24..32], &160u64.to_le_bytes());
    assert_eq!(&bytes[40..48], &128u64.to_le_bytes());
    let read = PoolHeader::parse(&bytes).unwrap();
    assert_eq!((read.size, read.base_offset), (1 << 20, 160));
    for i in 0..NR_ROOTS {
        assert_eq!(read.root(i), roots[i]);
    }
    // What follows the header does not matter.
    let mut longer = bytes.clone();
    longer.extend_from_slice(&[0xff; 100]);
    assert_eq!(PoolHeader::parse(&longer).map(|h| h.root(3)).ok(), Some(3 * GRANULE));
    assert!(PoolHeader::new(0, 0, vec![0; NR_ROOTS - 1]).is_none());
}

#[test]
fn header_with_another_magic_or_version_is_corrupted() {
    let header = PoolHeader::new(4096, HEADER_LEN as u64, vec![0; NR_ROOTS]).unwrap();
    let bytes = header.to_bytes();
    assert!(PoolHeader::parse(&bytes).is_ok());
    let mut bad_magic = bytes.clone();
    bad_magic[0] ^= 1;
    assert_eq!(PoolHeader::parse(&bad_magic).err(), Some(PoolError::Corrupted));
    let mut bad_version = bytes.clone();
    bad_version[8] = 2;
    assert_eq!(PoolHeader::parse(&bad_version).err(), Some(PoolError::Corrupted));
    assert_eq!(PoolHeader::parse(&bytes[..HEADER_LEN - 1]).err(), Some(PoolError::Corrupted));
    assert_eq!(PoolHeader::parse(&[]).err(), Some(PoolError::Corrupted));
}

#[test]
fn flush_reaches_every_line_that_the_range_touches() {
    assert_eq!(cache_lines(0, 0), None);
    assert_eq!(cache_lines(100, 0), None);
    assert_eq!(cache_lines(0, 1), Some((0, 0)));
    assert_eq!(cache_lines(0, 64), Some((0, 0)));
    assert_eq!(cache_lines(0, 65), Some((0, 64)));
    assert_eq!(cache_lines(63, 2), Some((0, 64)));
    assert_eq!(cache_lines(100, 8), Some((64, 64)));
    assert_eq!(cache_lines(100, 200), Some((64, 256)));
    assert_eq!(cache_lines(u64::MAX, 1), Some((u64::MAX - 63, u64::MAX - 63)));
    assert_eq!(cache_lines(u64::MAX, 2), None);
    assert_eq!(line_count(64, 256), 4);
    assert_eq!(line_count(0, 0), 1);
    assert_eq!(CACHE_LINE, 64);
}
