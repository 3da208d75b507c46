use sadak_fs::allocator::{Allocator, AllocatorError};
use sadak_fs::block_device::MockDevice;
use sadak_fs::cache::BlockCache;
use sadak_fs::sahne_syscalls::SyscallError;

fn setup(blocks: u64, start: u64) -> (Allocator, BlockCache<MockDevice>) {
    let cache = BlockCache::new(MockDevice::new(blocks));
    match Allocator::new(&cache, start) {
        Ok(alloc) => (alloc, cache),
        Err(_) => panic!("the region fits"),
    }
}

#[test]
fn region_size_is_rounded_up() {
    assert_eq!(setup(1, 1).0.bitmap_block_count(), 1);
    assert_eq!(setup(4096, 1).0.bitmap_block_count(), 1);
    assert_eq!(setup(32768, 1).0.bitmap_block_count(), 1);
    assert_eq!(setup(32769, 1).0.bitmap_block_count(), 2);
    assert_eq!(setup(0, 1).0.bitmap_block_count(), 0);
    let (alloc, _) = setup(4096, 7);
    assert_eq!(alloc.bitmap_start_id(), 7);
    assert_eq!(alloc.total_blocks(), 4096);
}

#[test]
fn region_must_fit_the_address_type() {
    let cache = BlockCache::new(MockDevice::new(10));
    assert!(matches!(
        Allocator::new(&cache, u64::MAX),
        Err(AllocatorError::Syscall(SyscallError::EINVAL))
    ));
    assert!(Allocator::new(&cache, u64::MAX - 1).is_ok());
}

#[test]
fn find_free_bit_scans_lsb_first() {
    assert_eq!(Allocator::find_free_bit(&[0x00], 8), Some((0, 0)));
    assert_eq!(Allocator::find_free_bit(&[0x01], 8), Some((0, 1)));
    assert_eq!(Allocator::find_free_bit(&[0x7F], 8), Some((0, 7)));
    assert_eq!(Allocator::find_free_bit(&[0xFF, 0xFB], 16), Some((1, 2)));
    assert_eq!(Allocator::find_free_bit(&[0xFF, 0xFF], 16), None);
    assert_eq!(Allocator::find_free_bit(&[], 0), None);
}

#[test]
fn find_free_bit_honours_the_limit() {
    assert_eq!(Allocator::find_free_bit(&[0x0F, 0x00], 4), None);
    assert_eq!(Allocator::find_free_bit(&[0x0F, 0x00], 5), Some((0, 4)));
    assert_eq!(Allocator::find_free_bit(&[0xFF, 0x00], 8), None);
    assert_eq!(Allocator::find_free_bit(&[0xFF, 0x00], 9), Some((1, 0)));
    assert_eq!(Allocator::find_free_bit(&[0x00], 0), None);
}

#[test]
fn allocate_until_full() {
    let (alloc, mut cache) = setup(4096, 1);
    assert!(alloc.reserve_block(&mut cache, 0).is_ok());
    assert!(alloc.reserve_block(&mut cache, 1).is_ok());
    for expected in 2u64..4096 {
        match alloc.allocate_block(&mut cache) {
            Ok(id) => assert_eq!(id, expected),
            Err(_) => panic!("block {} is free", expected),
        }
    }
    assert!(matches!(alloc.allocate_block(&mut cache), Err(AllocatorError::OutOfSpace)));
    assert!(matches!(alloc.allocate_block(&mut cache), Err(AllocatorError::OutOfSpace)));
}

#[test]
fn allocation_starts_at_zero_on_an_empty_bitmap() {
    let (alloc, mut cache) = setup(64, 1);
    for expected in 0u64..5 {
        assert!(matches!(alloc.allocate_block(&mut cache), Ok(id) if id == expected));
    }
}

#[test]
fn allocation_marks_the_bitmap_block_dirty() {
    let (alloc, mut cache) = setup(64, 1);
    assert!(!cache.is_cached(1));
    assert!(alloc.allocate_block(&mut cache).is_ok());
    assert!(cache.is_dirty(1));
}

#[test]
fn allocation_crosses_bitmap_blocks() {
    let (alloc, mut cache) = setup(32768 + 10, 1);
    assert_eq!(alloc.bitmap_block_count(), 2);
    cache.get_new_block(1);
    assert!(cache.write_at(1, 0, &vec![0xFFu8; 4096]));
    for expected in 32768u64..32778 {
        assert!(matches!(alloc.allocate_block(&mut cache), Ok(id) if id == expected));
    }
    assert!(matches!(alloc.allocate_block(&mut cache), Err(AllocatorError::OutOfSpace)));
    assert!(cache.is_dirty(2));
}

#[test]
fn freed_block_is_handed_out_again_first() {
    let (alloc, mut cache) = setup(64, 1);
    for _ in 0..10 {
        assert!(alloc.allocate_block(&mut cache).is_ok());
    }
    assert!(matches!(alloc.is_allocated(&mut cache, 4), Ok(true)));
    assert!(alloc.free_block(&mut cache, 4).is_ok());
    assert!(matches!(alloc.is_allocated(&mut cache, 4), Ok(false)));
    assert!(alloc.free_block(&mut cache, 7).is_ok());
    assert!(matches!(alloc.allocate_block(&mut cache), Ok(4)));
    assert!(matches!(alloc.allocate_block(&mut cache), Ok(7)));
    assert!(matches!(alloc.allocate_block(&mut cache), Ok(10)));
}

#[test]
fn freeing_a_free_block_changes_nothing() {
    let (alloc, mut cache) = setup(64, 1);
    assert!(alloc.allocate_block(&mut cache).is_ok());
    assert!(cache.flush_all().is_ok());
    assert!(alloc.free_block(&mut cache, 9).is_ok());
    assert!(!cache.is_dirty(1));
    assert!(alloc.free_block(&mut cache, 64).is_ok());
    assert!(alloc.free_block(&mut cache, u64::MAX).is_ok());
    assert!(!cache.is_dirty(1));
    assert!(matches!(alloc.allocate_block(&mut cache), Ok(1)));
}

#[test]
fn blocks_beyond_capacity_are_never_allocated() {
    let (alloc, mut cache) = setup(10, 1);
    assert!(matches!(alloc.is_allocated(&mut cache, 10), Ok(false)));
    assert!(alloc.reserve_block(&mut cache, 10).is_ok());
    assert!(matches!(alloc.is_allocated(&mut cache, 10), Ok(false)));
    for expected in 0u64..10 {
        assert!(matches!(alloc.allocate_block(&mut cache), Ok(id) if id == expected));
    }
    assert!(matches!(alloc.allocate_block(&mut cache), Err(AllocatorError::OutOfSpace)));
}

#[test]
fn bitmap_read_failure_is_reported() {
    let mut dev = MockDevice::new(64);
    dev.set_read_fault(true);
    let cache = BlockCache::new(dev);
    let (alloc, mut cache) = match Allocator::new(&cache, 1) {
        Ok(alloc) => (alloc, cache),
        Err(_) => panic!("the region fits"),
    };
    assert!(matches!(
        alloc.allocate_block(&mut cache),
        Err(AllocatorError::DeviceError(SyscallError::EIO))
    ));
    assert!(matches!(
        alloc.free_block(&mut cache, 3),
        Err(AllocatorError::DeviceError(SyscallError::EIO))
    ));
}

#[test]
fn bitmap_bits_land_where_the_layout_says() {
    let (alloc, mut cache) = setup(64, 1);
    assert!(alloc.reserve_block(&mut cache, 0).is_ok());
    assert!(alloc.reserve_block(&mut cache, 9).is_ok());
    assert!(alloc.reserve_block(&mut cache, 63).is_ok());
    match cache.get_block(1) {
        Ok(block) => {
            assert_eq!(block.data()[0], 0b0000_0001);
            assert_eq!(block.data()[1], 0b0000_0010);
            assert_eq!(block.data()[7], 0b1000_0000);
            assert_eq!(block.data()[8], 0);
        }
        Err(_) => panic!("the block is cached"),
    }
}

#[test]
fn allocated_count_follows_allocations_and_frees() {
    let (alloc, mut cache) = setup(200, 1);
    assert!(alloc.reserve_block(&mut cache, 0).is_ok());
    assert!(alloc.reserve_block(&mut cache, 1).is_ok());
    let count = |alloc: &Allocator, cache: &mut BlockCache<MockDevice>| -> u64 {
        let mut n = 0;
        for id in 0..200u64 {
            if matches!(alloc.is_allocated(cache, id), Ok(true)) {
                n += 1;
            }
        }
        n
    };
    assert_eq!(count(&alloc, &mut cache), 2);
    let mut handed_out = Vec::new();
    for _ in 0..50 {
        match alloc.allocate_block(&mut cache) {
            Ok(id) => {
                assert!(!handed_out.contains(&id));
                handed_out.push(id);
            }
            Err(_) => panic!("blocks are free"),
        }
    }
    assert_eq!(count(&alloc, &mut cache), 52);
    for id in [5u64, 17, 30, 51] {
        assert!(alloc.free_block(&mut cache, id).is_ok());
    }
    assert!(alloc.free_block(&mut cache, 17).is_ok());
    assert!(alloc.free_block(&mut cache, 150).is_ok());
    assert_eq!(count(&alloc, &mut cache), 48);
    for expected in [5u64, 17, 30, 51, 52] {
        assert!(matches!(alloc.allocate_block(&mut cache), Ok(id) if id == expected));
    }
    assert_eq!(count(&alloc, &mut cache), 53);
}

#[test]
fn find_free_bit_stops_at_the_end_of_the_bitmap() {
    assert_eq!(Allocator::find_free_bit(&[0xFF], 100), None);
    assert_eq!(Allocator::find_free_bit(&[0xFF, 0x7F], usize::MAX), Some((1, 7)));
    assert_eq!(Allocator::find_free_bit(&[], 8), None);
}

#[test]
fn free_and_reserve_mark_the_bitmap_block_dirty_when_a_bit_changes() {
    let (alloc, mut cache) = setup(64, 1);
    assert!(matches!(alloc.allocate_block(&mut cache), Ok(0)));
    assert!(cache.flush_all().is_ok());
    assert!(!cache.is_dirty(1));
    assert!(alloc.reserve_block(&mut cache, 0).is_ok());
    assert!(!cache.is_dirty(1));
    assert!(alloc.reserve_block(&mut cache, 5).is_ok());
    assert!(cache.is_dirty(1));
    assert!(cache.flush_all().is_ok());
    assert!(!cache.is_dirty(1));
    assert!(alloc.free_block(&mut cache, 5).is_ok());
    assert!(cache.is_dirty(1));
    assert!(matches!(alloc.is_allocated(&mut cache, 5), Ok(false)));
    assert!(matches!(alloc.is_allocated(&mut cache, 0), Ok(true)));
}
