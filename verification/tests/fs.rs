use sadak_fs::allocator::AllocatorError;
use sadak_fs::block_device::{BlockDevice, MockDevice, BLOCK_SIZE};
use sadak_fs::btree::{BTreeNode, NODE_LEAF};
use sadak_fs::checksum::checksum_data;
use sadak_fs::fs::{
    Inode, SadakFs, SadakFsError, Superblock, FILE_TYPE_FILE, SADAK_MAGIC, SADAK_VERSION,
};
use sadak_fs::raid::Raid1Device;

fn read(dev: &MockDevice, id: u64) -> Vec<u8> {
    let mut buf = vec![0u8; BLOCK_SIZE];
    assert!(dev.read_block(id, &mut buf).is_ok());
    buf
}

fn format(dev: MockDevice) -> SadakFs<MockDevice> {
    match SadakFs::format(dev) {
        Ok(fs) => fs,
        Err(_) => panic!("the device is healthy and large enough"),
    }
}

fn mount(dev: MockDevice) -> SadakFs<MockDevice> {
    match SadakFs::mount(dev) {
        Ok(fs) => fs,
        Err(_) => panic!("the device holds a volume"),
    }
}

#[test]
fn superblock_layout() {
    let sb = Superblock {
        magic: SADAK_MAGIC,
        version: SADAK_VERSION,
        total_blocks: 0x0102,
        metadata_root_id: 0x0304,
        bitmap_start_id: 0x0506,
        timestamp: 0x0708,
        checksum: 0xDEAD_BEEF,
    };
    let bytes = sb.encode();
    assert_eq!(bytes.len(), BLOCK_SIZE);
    assert_eq!(&bytes[0..8], &SADAK_MAGIC.to_le_bytes());
    assert_eq!(&bytes[8..10], &[1, 0]);
    assert_eq!(&bytes[16..24], &[2, 1, 0, 0, 0, 0, 0, 0]);
    assert_eq!(&bytes[24..32], &[4, 3, 0, 0, 0, 0, 0, 0]);
    assert_eq!(&bytes[32..40], &[6, 5, 0, 0, 0, 0, 0, 0]);
    assert_eq!(&bytes[40..48], &[8, 7, 0, 0, 0, 0, 0, 0]);
    assert!(bytes[52..].iter().all(|b| *b == 0));
    let mut zeroed = bytes.clone();
    zeroed[48..52].copy_from_slice(&[0, 0, 0, 0]);
    let stored = u32::from_le_bytes([bytes[48], bytes[49], bytes[50], bytes[51]]);
    assert_eq!(stored, checksum_data(&zeroed));
    assert_eq!(Superblock::decode(&bytes), Some(Superblock { checksum: stored, ..sb }));
}

#[test]
fn superblock_is_refused_when_damaged() {
    let sb = Superblock {
        magic: SADAK_MAGIC,
        version: SADAK_VERSION,
        total_blocks: 64,
        metadata_root_id: 2,
        bitmap_start_id: 1,
        timestamp: 0,
        checksum: 0,
    };
    let good = sb.encode();
    assert!(Superblock::decode(&good).is_some());
    for at in [0usize, 9, 17, 30, 47, 48, 51, 52, 4095] {
        let mut bad = good.clone();
        bad[at] ^= 1;
        assert_eq!(Superblock::decode(&bad), None);
    }
    assert_eq!(Superblock::decode(&good[..4095]), None);
    assert_eq!(Superblock::decode(&Superblock { magic: SADAK_MAGIC + 1, ..sb }.encode()), None);
    assert_eq!(Superblock::decode(&Superblock { bitmap_start_id: 0, ..sb }.encode()), None);
}

#[test]
fn inode_round_trip() {
    let inode = Inode {
        file_size: 12345,
        block_count: 4,
        creation_time: 1000,
        modification_time: 2000,
        file_type: FILE_TYPE_FILE,
        data_tree_root: 99,
        link_count: 3,
        checksum: 0,
    };
    let bytes = inode.encode();
    assert_eq!(bytes.len(), BLOCK_SIZE);
    assert_eq!(&bytes[0..8], &12345u64.to_le_bytes());
    assert_eq!(bytes[32], 1);
    assert_eq!(&bytes[40..48], &99u64.to_le_bytes());
    assert_eq!(&bytes[48..52], &3u32.to_le_bytes());
    assert!(bytes[256..].iter().all(|b| *b == 0));
    let stored = u32::from_le_bytes([bytes[52], bytes[53], bytes[54], bytes[55]]);
    assert_eq!(Inode::decode(&bytes), Some(Inode { checksum: stored, ..inode }));
    let mut bad = bytes.clone();
    bad[100] ^= 1;
    assert_eq!(Inode::decode(&bad), None);
}

#[test]
fn format_then_mount_round_trip() {
    let fs = format(MockDevice::new(4096));
    let written = fs.superblock();
    assert_eq!(written.magic, SADAK_MAGIC);
    assert_eq!(written.version, 1);
    assert_eq!(written.total_blocks, 4096);
    assert_eq!(written.bitmap_start_id, 1);
    assert_eq!(written.metadata_root_id, 2);
    assert_eq!(written.timestamp, 0);
    assert_eq!(fs.metadata_root(), 2);
    let dev = fs.into_device();
    match BTreeNode::decode(&read(&dev, 2), 2) {
        Ok(node) => {
            assert_eq!(node.header.node_type, NODE_LEAF);
            assert_eq!(node.header.level, 0);
            assert!(node.entries.is_empty());
        }
        Err(_) => panic!("the root's checksum verifies"),
    }
    assert_eq!(Superblock::decode(&read(&dev, 0)), Some(written));
    let bitmap = read(&dev, 1);
    assert_eq!(bitmap[0], 0b0000_0111);
    assert!(bitmap[1..].iter().all(|b| *b == 0));
    let mounted = mount(dev);
    assert_eq!(mounted.superblock(), written);
    assert_eq!(mounted.metadata_root(), 2);
}

#[test]
fn format_places_the_root_after_a_longer_bitmap() {
    let fs = format(MockDevice::new(32768 + 100));
    assert_eq!(fs.superblock().metadata_root_id, 3);
    let mut fs = fs;
    assert!(matches!(fs.is_allocated(0), Ok(true)));
    assert!(matches!(fs.is_allocated(1), Ok(true)));
    assert!(matches!(fs.is_allocated(2), Ok(true)));
    assert!(matches!(fs.is_allocated(3), Ok(true)));
    assert!(matches!(fs.is_allocated(4), Ok(false)));
    assert!(matches!(fs.is_allocated(32768 + 99), Ok(false)));
    assert!(matches!(fs.is_allocated(32768 + 100), Ok(false)));
}

#[test]
fn format_needs_room_for_the_root() {
    for blocks in 0..3u64 {
        assert!(matches!(
            SadakFs::format(MockDevice::new(blocks)),
            Err(SadakFsError::Allocator(AllocatorError::OutOfSpace))
        ));
    }
    assert!(SadakFs::format(MockDevice::new(3)).is_ok());
}

#[test]
fn format_reports_a_failing_device() {
    let mut dev = MockDevice::new(64);
    dev.halt_after_flushes(0);
    assert!(matches!(SadakFs::format(dev), Err(SadakFsError::Device(_))));
    let mut dev = MockDevice::new(64);
    dev.halt_after_flushes(1);
    assert!(matches!(SadakFs::format(dev), Err(SadakFsError::Device(_))));
}

#[test]
fn mount_refuses_a_blank_device() {
    assert!(matches!(SadakFs::mount(MockDevice::new(64)), Err(SadakFsError::InvalidSuperblock)));
}

#[test]
fn checksum_corruption_detected() {
    for at in [0usize, 20, 48, 2000, 4095] {
        let mut dev = format(MockDevice::new(4096)).into_device();
        let mut block = read(&dev, 0);
        block[at] ^= 0x01;
        assert!(dev.write_block(0, &block).is_ok());
        assert!(matches!(SadakFs::mount(dev), Err(SadakFsError::InvalidSuperblock)));
    }
}

#[test]
fn mount_refuses_a_bitmap_without_the_reserved_blocks() {
    let mut dev = format(MockDevice::new(64)).into_device();
    let mut bitmap = read(&dev, 1);
    bitmap[0] &= !0b10;
    assert!(dev.write_block(1, &bitmap).is_ok());
    assert!(matches!(SadakFs::mount(dev), Err(SadakFsError::InvalidSuperblock)));
    let mut dev = format(MockDevice::new(64)).into_device();
    let mut bitmap = read(&dev, 1);
    bitmap[0] &= !0b100;
    assert!(dev.write_block(1, &bitmap).is_ok());
    assert!(matches!(SadakFs::mount(dev), Err(SadakFsError::InvalidSuperblock)));
}

#[test]
fn mount_reports_a_failing_device() {
    let mut dev = format(MockDevice::new(64)).into_device();
    dev.set_read_fault(true);
    assert!(matches!(SadakFs::mount(dev), Err(SadakFsError::Device(_))));
}

#[test]
fn create_file_makes_an_inode() {
    let mut fs = format(MockDevice::new(4096));
    let inode = match fs.create_file(0, 777) {
        Ok(inode) => inode,
        Err(_) => panic!("blocks are free"),
    };
    assert_eq!(inode.file_size, 0);
    assert_eq!(inode.block_count, 0);
    assert_eq!(inode.creation_time, 777);
    assert_eq!(inode.modification_time, 777);
    assert_eq!(inode.file_type, 1);
    assert_eq!(inode.data_tree_root, 4);
    assert_eq!(inode.link_count, 1);
    assert_eq!(fs.metadata_root(), 5);
    assert_eq!(fs.superblock().metadata_root_id, 2);
    match fs.lookup_file(3) {
        Ok(Some(found)) => assert_eq!(found, inode),
        _ => panic!("the file was just created"),
    }
    assert!(matches!(fs.lookup_file(4), Ok(None)));
    for id in 0..6u64 {
        assert!(matches!(fs.is_allocated(id), Ok(true)));
    }
    assert!(matches!(fs.is_allocated(6), Ok(false)));
}

#[test]
fn create_file_writes_nothing_to_the_device() {
    let formatted = format(MockDevice::new(64)).into_device();
    let before: Vec<Vec<u8>> = (0..64).map(|id| read(&formatted, id)).collect();
    let mut fs = mount(formatted);
    assert!(fs.create_file(10, 1).is_ok());
    assert!(fs.create_file(20, 2).is_ok());
    let dev = fs.into_device();
    for id in 0..64u64 {
        assert_eq!(read(&dev, id), before[id as usize]);
    }
}

#[test]
fn create_file_reports_a_full_volume() {
    let mut fs = format(MockDevice::new(5));
    assert!(matches!(
        fs.create_file(0, 0),
        Err(SadakFsError::Allocator(AllocatorError::OutOfSpace))
    ));
    assert_eq!(fs.metadata_root(), 2);
    assert!(matches!(fs.is_allocated(2), Ok(true)));
    assert!(matches!(fs.is_allocated(3), Ok(false)));
    assert!(matches!(fs.is_allocated(4), Ok(false)));
    assert!(matches!(fs.lookup_file(3), Ok(None)));
    assert!(fs.sync(1).is_ok());
    let mut fs = mount(fs.into_device());
    assert!(matches!(fs.is_allocated(3), Ok(false)));
    assert_eq!(fs.superblock().metadata_root_id, 2);
}

#[test]
fn create_file_takes_the_last_blocks() {
    let mut fs = format(MockDevice::new(6));
    match fs.create_file(1, 2) {
        Ok(inode) => assert_eq!(inode.data_tree_root, 4),
        Err(_) => panic!("three blocks are free"),
    }
    assert_eq!(fs.metadata_root(), 5);
    assert!(matches!(
        fs.create_file(0, 0),
        Err(SadakFsError::Allocator(AllocatorError::OutOfSpace))
    ));
    assert!(fs.sync(3).is_ok());
    assert!(matches!(fs.is_allocated(2), Ok(false)));
    assert!(matches!(
        fs.create_file(0, 0),
        Err(SadakFsError::Allocator(AllocatorError::OutOfSpace))
    ));
    assert!(matches!(fs.is_allocated(2), Ok(false)));
    assert!(matches!(fs.lookup_file(3), Ok(Some(inode)) if inode.file_size == 1));
}

#[test]
fn cow_root_swap() {
    let mut fs = format(MockDevice::new(4096));
    let r0 = fs.superblock().metadata_root_id;
    assert!(fs.create_file(0, 100).is_ok());
    assert!(fs.sync(200).is_ok());
    assert_eq!(fs.superblock().timestamp, 200);
    let mut fs = mount(fs.into_device());
    let r1 = fs.superblock().metadata_root_id;
    assert_ne!(r1, r0);
    assert_eq!(r1, 5);
    assert_eq!(fs.superblock().timestamp, 200);
    assert!(matches!(fs.is_allocated(r0), Ok(false)));
    assert!(matches!(fs.is_allocated(r1), Ok(true)));
    assert!(matches!(fs.lookup_file(3), Ok(Some(inode)) if inode.creation_time == 100));
}

#[test]
fn freed_root_is_used_again() {
    let mut fs = format(MockDevice::new(4096));
    assert!(fs.create_file(0, 1).is_ok());
    assert!(fs.sync(2).is_ok());
    match fs.create_file(0, 3) {
        Ok(inode) => assert_eq!(inode.data_tree_root, 6),
        Err(_) => panic!("blocks are free"),
    }
    assert!(matches!(fs.lookup_file(2), Ok(Some(inode)) if inode.creation_time == 3));
    assert!(matches!(fs.lookup_file(3), Ok(Some(inode)) if inode.creation_time == 1));
}

#[test]
fn crash_before_superblock_flush() {
    let mut dev = MockDevice::new(4096);
    dev.halt_after_flushes(3);
    let mut fs = format(dev);
    let r0 = fs.superblock().metadata_root_id;
    let pristine = format(MockDevice::new(4096)).into_device();
    let old_root = read(&pristine, r0);
    assert!(fs.create_file(0, 100).is_ok());
    assert!(matches!(fs.sync(200), Err(SadakFsError::Device(_))));
    assert_eq!(fs.superblock().metadata_root_id, r0);
    assert_eq!(fs.superblock().timestamp, 0);
    let mut dev = fs.into_device();
    dev.restart();
    assert_eq!(read(&dev, r0), old_root);
    let mut fs = mount(dev);
    assert_eq!(fs.superblock().metadata_root_id, r0);
    assert_eq!(fs.metadata_root(), r0);
    assert!(matches!(fs.lookup_file(3), Ok(None)));
    assert!(matches!(fs.is_allocated(r0), Ok(true)));
}

#[test]
fn crash_during_data_flush() {
    let mut dev = MockDevice::new(4096);
    dev.halt_after_flushes(2);
    let mut fs = format(dev);
    assert!(fs.create_file(0, 100).is_ok());
    assert!(matches!(fs.sync(200), Err(SadakFsError::Device(_))));
    let mut dev = fs.into_device();
    dev.restart();
    let mut fs = mount(dev);
    assert_eq!(fs.superblock().metadata_root_id, 2);
    assert!(matches!(fs.lookup_file(3), Ok(None)));
    assert!(matches!(fs.is_allocated(3), Ok(false)));
}

#[test]
fn crash_after_superblock_flush() {
    let mut dev = MockDevice::new(4096);
    dev.halt_after_flushes(4);
    let mut fs = format(dev);
    assert!(fs.create_file(0, 100).is_ok());
    assert!(fs.sync(200).is_ok());
    let mut dev = fs.into_device();
    dev.restart();
    let mut fs = mount(dev);
    assert_eq!(fs.superblock().metadata_root_id, 5);
    assert!(matches!(fs.lookup_file(3), Ok(Some(_))));
    assert!(matches!(fs.is_allocated(2), Ok(true)));
    assert!(fs.sync(300).is_ok());
    let mut fs = mount(fs.into_device());
    assert_eq!(fs.superblock().timestamp, 300);
    assert!(matches!(fs.is_allocated(5), Ok(true)));
}

#[test]
fn failed_sync_can_be_repeated() {
    let mut dev = MockDevice::new(4096);
    dev.halt_after_flushes(3);
    let mut fs = format(dev);
    assert!(fs.create_file(0, 100).is_ok());
    assert!(fs.sync(200).is_err());
    assert_eq!(fs.superblock().metadata_root_id, 2);
    let mut dev = fs.into_device();
    dev.restart();
    let mut fs = mount(dev);
    assert_eq!(fs.metadata_root(), 2);
    assert!(fs.create_file(0, 100).is_ok());
    assert!(fs.sync(400).is_ok());
    let mut fs = mount(fs.into_device());
    assert_eq!(fs.superblock().timestamp, 400);
    assert_ne!(fs.superblock().metadata_root_id, 2);
    assert!(matches!(fs.is_allocated(2), Ok(false)));
}

#[test]
fn sync_without_changes_restamps_the_superblock() {
    let mut fs = format(MockDevice::new(64));
    assert!(fs.sync(55).is_ok());
    assert_eq!(fs.superblock().metadata_root_id, 2);
    assert_eq!(fs.superblock().timestamp, 55);
    let fs = mount(fs.into_device());
    assert_eq!(fs.superblock().timestamp, 55);
}

#[test]
fn many_files_survive_a_remount() {
    let mut fs = format(MockDevice::new(4096));
    for i in 0..100u64 {
        let before = fs.metadata_root();
        assert!(fs.create_file(i, i + 1).is_ok());
        assert_ne!(fs.metadata_root(), before);
        if i % 10 == 9 {
            assert!(fs.sync(i).is_ok());
        }
    }
    let mut fs = mount(fs.into_device());
    let mut found = 0;
    for id in 0..4096u64 {
        if let Ok(Some(inode)) = fs.lookup_file(id) {
            assert_eq!(inode.creation_time, inode.file_size + 1);
            found += 1;
        }
    }
    assert_eq!(found, 100);
}

#[test]
fn volume_on_a_mirror() {
    let members = vec![MockDevice::new(4096), MockDevice::new(4096)];
    let raid = match Raid1Device::new(members) {
        Ok(raid) => raid,
        Err(_) => panic!("the members are alike"),
    };
    let mut fs = match SadakFs::format(raid) {
        Ok(fs) => fs,
        Err(_) => panic!("the mirror is healthy"),
    };
    assert!(fs.create_file(5, 6).is_ok());
    assert!(fs.sync(7).is_ok());
    let mut members = fs.into_device().into_devices();
    assert_eq!(read(&members[0], 0), read(&members[1], 0));
    assert_eq!(read(&members[0], 5), read(&members[1], 5));
    members[0].set_read_fault(true);
    let raid = match Raid1Device::new(members) {
        Ok(raid) => raid,
        Err(_) => panic!("the members are alike"),
    };
    let mut fs = match SadakFs::mount(raid) {
        Ok(fs) => fs,
        Err(_) => panic!("one member can be read"),
    };
    assert_eq!(fs.superblock().metadata_root_id, 5);
    assert!(matches!(fs.lookup_file(3), Ok(Some(inode)) if inode.file_size == 5));
}

#[test]
fn stale_nodes_are_freed_only_by_a_commit() {
    let mut fs = format(MockDevice::new(4096));
    assert!(fs.create_file(0, 1).is_ok());
    assert!(fs.create_file(0, 2).is_ok());
    assert!(matches!(fs.is_allocated(2), Ok(true)));
    assert!(matches!(fs.is_allocated(5), Ok(true)));
    let root = fs.metadata_root();
    assert!(fs.sync(3).is_ok());
    assert!(matches!(fs.is_allocated(2), Ok(false)));
    assert!(matches!(fs.is_allocated(5), Ok(false)));
    assert!(matches!(fs.is_allocated(root), Ok(true)));
    assert!(matches!(fs.is_allocated(0), Ok(true)));
    assert!(matches!(fs.is_allocated(1), Ok(true)));
    assert!(matches!(fs.lookup_file(3), Ok(Some(inode)) if inode.creation_time == 1));
    assert!(matches!(fs.lookup_file(6), Ok(Some(inode)) if inode.creation_time == 2));
}

#[test]
fn two_hundred_files_with_commits_in_between() {
    let mut fs = format(MockDevice::new(4096));
    let mut created: Vec<(u64, u64)> = Vec::new();
    for i in 0..200u64 {
        let mut inode_block = 0;
        for id in 2..4096u64 {
            if matches!(fs.is_allocated(id), Ok(false)) {
                inode_block = id;
                break;
            }
        }
        assert!(fs.create_file(i, 1000 + i).is_ok());
        created.push((inode_block, i));
        if i % 7 == 0 {
            assert!(fs.sync(i).is_ok());
        }
    }
    assert!(fs.sync(999).is_ok());
    let mut fs = mount(fs.into_device());
    for (block, size) in created {
        match fs.lookup_file(block) {
            Ok(Some(inode)) => {
                assert_eq!(inode.file_size, size);
                assert_eq!(inode.creation_time, 1000 + size);
            }
            _ => panic!("file {} was created in block {}", size, block),
        }
    }
}

#[test]
fn damaged_inode_is_a_checksum_error() {
    let mut fs = format(MockDevice::new(64));
    assert!(fs.create_file(9, 1).is_ok());
    assert!(fs.sync(2).is_ok());
    let mut dev = fs.into_device();
    let mut block = read(&dev, 3);
    block[0] ^= 0xFF;
    assert!(dev.write_block(3, &block).is_ok());
    let mut fs = mount(dev);
    assert!(matches!(fs.lookup_file(3), Err(SadakFsError::ChecksumError)));
}

#[test]
fn damaged_root_is_found_on_use() {
    let mut dev = format(MockDevice::new(64)).into_device();
    let mut block = read(&dev, 2);
    block[200] ^= 0x01;
    assert!(dev.write_block(2, &block).is_ok());
    let mut fs = mount(dev);
    assert!(matches!(fs.lookup_file(3), Err(SadakFsError::ChecksumError)));
    assert!(matches!(fs.create_file(0, 0), Err(SadakFsError::ChecksumError)));
    assert_eq!(fs.metadata_root(), 2);
}

#[test]
fn node_of_another_address_is_an_invalid_node() {
    let mut dev = format(MockDevice::new(64)).into_device();
    let stray = BTreeNode {
        header: sadak_fs::btree::BTreeNodeHeader {
            node_type: NODE_LEAF,
            num_entries: 0,
            level: 0,
            block_id: 9,
            checksum: 0,
        },
        entries: Vec::new(),
    };
    assert!(dev.write_block(2, &stray.encode()).is_ok());
    let mut fs = mount(dev);
    assert!(matches!(fs.lookup_file(3), Err(SadakFsError::InvalidNode)));
    assert!(matches!(fs.create_file(0, 0), Err(SadakFsError::InvalidNode)));
}

#[test]
fn mount_refuses_a_bitmap_beyond_the_device() {
    for start in [64u64, 65, u64::MAX] {
        let mut dev = format(MockDevice::new(64)).into_device();
        let sb = Superblock {
            magic: SADAK_MAGIC,
            version: SADAK_VERSION,
            total_blocks: 64,
            metadata_root_id: 2,
            bitmap_start_id: start,
            timestamp: 0,
            checksum: 0,
        };
        assert!(dev.write_block(0, &sb.encode()).is_ok());
        assert!(matches!(SadakFs::mount(dev), Err(SadakFsError::InvalidSuperblock)));
    }
}

#[test]
fn remount_after_format_and_commit_succeeds_on_a_healthy_device() {
    let mut fs = format(MockDevice::new(128));
    for now in 1..6u64 {
        assert!(fs.create_file(now, now).is_ok());
        assert!(fs.sync(now).is_ok());
    }
    let root = fs.metadata_root();
    let fs = mount(fs.into_device());
    assert_eq!(fs.metadata_root(), root);
    assert_eq!(fs.superblock().timestamp, 5);
}

#[test]
fn commit_leaves_the_freed_root_free_on_the_device() {
    let mut fs = format(MockDevice::new(64));
    let old_root = fs.metadata_root();
    assert!(fs.create_file(0, 1).is_ok());
    assert!(fs.sync(1).is_ok());
    let dev = fs.into_device();
    let bitmap = read(&dev, 1);
    assert_eq!(bitmap[(old_root / 8) as usize] & (1u8 << (old_root % 8)), 0);
    let mut fs = mount(dev);
    assert!(matches!(fs.is_allocated(old_root), Ok(false)));
}

#[test]
fn create_file_succeeds_while_enough_blocks_are_free() {
    let mut fs = format(MockDevice::new(8));
    assert!(fs.create_file(0, 1).is_ok());
    assert!(matches!(
        fs.create_file(0, 2),
        Err(SadakFsError::Allocator(AllocatorError::OutOfSpace))
    ));
    for id in 0..8u64 {
        assert_eq!(fs.is_allocated(id).ok(), Some(id < 6));
    }
}

#[test]
fn errors_convert_upwards() {
    let e: SadakFsError<MockDevice> = AllocatorError::OutOfSpace.into();
    assert!(matches!(e, SadakFsError::Allocator(AllocatorError::OutOfSpace)));
    let e: SadakFsError<MockDevice> = sadak_fs::sahne_syscalls::SyscallError::EIO.into();
    assert!(matches!(e, SadakFsError::Syscall(sadak_fs::sahne_syscalls::SyscallError::EIO)));
    let e: AllocatorError<MockDevice> = sadak_fs::sahne_syscalls::SyscallError::EINVAL.into();
    assert!(matches!(e, AllocatorError::Syscall(sadak_fs::sahne_syscalls::SyscallError::EINVAL)));
    let e: sadak_fs::raid::RaidError<MockDevice> =
        sadak_fs::sahne_syscalls::SyscallError::EAGAIN.into();
    assert!(matches!(
        e,
        sadak_fs::raid::RaidError::Syscall(sadak_fs::sahne_syscalls::SyscallError::EAGAIN)
    ));
}

#[test]
fn every_crash_point_leaves_a_volume_with_the_old_or_the_new_root() {
    for flushes in 0..4u64 {
        let mut fs = format(MockDevice::new(64));
        let old_root = fs.metadata_root();
        assert!(fs.create_file(0, 1).is_ok());
        let new_root = fs.metadata_root();
        assert_ne!(old_root, new_root);
        let mut dev = fs.into_device();
        dev.halt_after_flushes(flushes);
        let mut fs = mount(dev);
        assert!(fs.create_file(0, 1).is_ok());
        let new_root = fs.metadata_root();
        let done = fs.sync(9).is_ok();
        let fs = mount(fs.into_device());
        if done {
            assert_eq!(fs.metadata_root(), new_root);
        } else {
            assert!(fs.metadata_root() == old_root || fs.metadata_root() == new_root);
        }
        if flushes == 0 {
            assert!(!done);
            assert_eq!(fs.metadata_root(), old_root);
        }
    }
}
