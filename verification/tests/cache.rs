use sadak_fs::block_device::{BlockDevice, MockDevice, BLOCK_SIZE};
use sadak_fs::cache::{BlockCache, CacheBlock};
use sadak_fs::sahne_syscalls::SyscallError;

fn device_with(block: u64, byte: u8) -> MockDevice {
    let mut dev = MockDevice::new(16);
    assert_eq!(dev.write_block(block, &vec![byte; BLOCK_SIZE]), Ok(()));
    dev
}

fn read(dev: &MockDevice, id: u64) -> Vec<u8> {
    let mut buf = vec![0u8; BLOCK_SIZE];
    assert_eq!(dev.read_block(id, &mut buf), Ok(()));
    buf
}

#[test]
fn new_empty_block_is_zeroed_and_dirty() {
    let block = CacheBlock::new_empty(9);
    assert_eq!(block.block_id(), 9);
    assert!(block.is_dirty());
    assert_eq!(block.data(), &vec![0u8; BLOCK_SIZE][..]);
}

#[test]
fn get_block_loads_on_miss_and_is_clean() {
    let mut cache = BlockCache::new(device_with(3, 0x77));
    assert!(!cache.is_cached(3));
    match cache.get_block(3) {
        Ok(block) => {
            assert_eq!(block.block_id(), 3);
            assert!(!block.is_dirty());
            assert_eq!(block.data(), &vec![0x77u8; BLOCK_SIZE][..]);
        }
        Err(_) => panic!("the device is healthy"),
    }
    assert!(cache.is_cached(3));
    assert!(!cache.is_dirty(3));
}

#[test]
fn get_block_serves_hits_from_memory() {
    let mut dev = device_with(3, 0x77);
    dev.set_read_fault(true);
    let mut cache = BlockCache::new(dev);
    assert!(matches!(cache.get_block(3), Err(SyscallError::EIO)));
    assert!(!cache.is_cached(3));
    cache.get_new_block(3);
    match cache.get_block(3) {
        Ok(block) => assert_eq!(block.data(), &vec![0u8; BLOCK_SIZE][..]),
        Err(_) => panic!("the block is cached"),
    }
}

#[test]
fn get_new_block_does_not_read_the_device() {
    let mut cache = BlockCache::new(device_with(5, 0x33));
    cache.get_new_block(5);
    assert!(cache.is_dirty(5));
    match cache.get_block(5) {
        Ok(block) => assert_eq!(block.data(), &vec![0u8; BLOCK_SIZE][..]),
        Err(_) => panic!("the block is cached"),
    }
}

#[test]
fn write_at_changes_bytes_but_not_the_dirty_flag() {
    let mut cache = BlockCache::new(device_with(2, 0x10));
    assert!(!cache.write_at(2, 0, &[1, 2, 3]));
    assert!(cache.get_block(2).is_ok());
    assert!(cache.write_at(2, 4093, &[1, 2, 3]));
    assert!(!cache.write_at(2, 4094, &[1, 2, 3]));
    assert!(!cache.is_dirty(2));
    match cache.get_block(2) {
        Ok(block) => {
            let mut expected = vec![0x10u8; BLOCK_SIZE];
            expected[4093] = 1;
            expected[4094] = 2;
            expected[4095] = 3;
            assert_eq!(block.data(), &expected[..]);
        }
        Err(_) => panic!("the block is cached"),
    }
    assert!(cache.mark_dirty(2));
    assert!(cache.is_dirty(2));
    assert!(!cache.mark_dirty(9));
}

#[test]
fn flush_all_writes_dirty_blocks_but_not_block_zero() {
    let mut cache = BlockCache::new(MockDevice::new(16));
    for id in [7u64, 0, 3] {
        cache.get_new_block(id);
        assert!(cache.write_at(id, 0, &[id as u8 + 1]));
    }
    assert!(cache.flush_all().is_ok());
    assert!(!cache.is_dirty(3));
    assert!(!cache.is_dirty(7));
    assert!(cache.is_dirty(0));
    let dev = cache.into_device();
    assert_eq!(read(&dev, 3)[0], 4);
    assert_eq!(read(&dev, 7)[0], 8);
    assert_eq!(read(&dev, 0)[0], 0);
}

#[test]
fn flush_all_stops_at_the_first_failure() {
    let mut dev = MockDevice::new(16);
    dev.halt_after_flushes(0);
    let mut cache = BlockCache::new(dev);
    cache.get_new_block(4);
    cache.get_new_block(2);
    assert!(matches!(cache.flush_all(), Err(SyscallError::EIO)));
    assert!(cache.is_dirty(2));
    assert!(cache.is_dirty(4));
}

#[test]
fn flush_block_writes_block_zero() {
    let mut cache = BlockCache::new(MockDevice::new(16));
    cache.get_new_block(0);
    assert!(cache.write_at(0, 10, &[0xEE]));
    assert!(cache.flush_block(0).is_ok());
    assert!(!cache.is_dirty(0));
    assert!(cache.flush_block(5).is_ok());
    assert_eq!(read(cache.device_ref(), 0)[10], 0xEE);
}

#[test]
fn evict_writes_back_dirty_blocks() {
    let mut cache = BlockCache::new(device_with(6, 0x44));
    cache.get_new_block(6);
    assert!(cache.write_at(6, 0, &[0x99]));
    assert!(cache.evict(6).is_ok());
    assert!(!cache.is_cached(6));
    assert_eq!(read(cache.device_ref(), 6)[0], 0x99);
    assert_eq!(read(cache.device_ref(), 6)[1], 0);
}

#[test]
fn evict_drops_clean_blocks_without_writing() {
    let mut cache = BlockCache::new(device_with(6, 0x44));
    assert!(cache.get_block(6).is_ok());
    assert!(cache.write_at(6, 0, &[0x99]));
    assert!(cache.evict(6).is_ok());
    assert!(cache.evict(6).is_ok());
    assert_eq!(read(cache.device_ref(), 6)[0], 0x44);
}

#[test]
fn evict_keeps_the_block_when_the_device_refuses_it() {
    let mut dev = MockDevice::new(16);
    dev.halt_after_flushes(0);
    let mut cache = BlockCache::new(dev);
    cache.get_new_block(6);
    assert!(matches!(cache.evict(6), Err(SyscallError::EIO)));
    assert!(cache.is_cached(6));
    assert!(cache.is_dirty(6));
}

#[test]
fn flush_device_reaches_the_device() {
    let mut dev = MockDevice::new(16);
    dev.halt_after_flushes(1);
    let mut cache = BlockCache::new(dev);
    assert!(cache.flush_device().is_ok());
    assert!(matches!(cache.flush_device(), Err(SyscallError::EIO)));
}

#[test]
fn flush_all_fails_on_a_block_beyond_the_capacity() {
    let mut cache = BlockCache::new(MockDevice::new(16));
    cache.get_new_block(3);
    cache.get_new_block(99);
    assert!(matches!(cache.flush_all(), Err(SyscallError::EINVAL)));
    assert!(!cache.is_dirty(3));
    assert!(cache.is_dirty(99));
}

#[test]
fn healthy_device_takes_every_write_back_and_flush() {
    let mut cache = BlockCache::new(MockDevice::new(16));
    for round in 0..3u8 {
        for id in [5u64, 1, 15] {
            cache.get_new_block(id);
            assert!(cache.write_at(id, 0, &[round]));
        }
        assert!(cache.flush_all().is_ok());
        assert!(cache.flush_device().is_ok());
    }
    assert_eq!(read(cache.device_ref(), 15)[0], 2);
}
