use sadak_fs::allocator::{Allocator, AllocatorError};
use sadak_fs::block_device::{BlockDevice, MockDevice, BLOCK_SIZE};
use sadak_fs::btree::{
    BTree, BTreeError, BTreeNode, BTreeNodeHeader, NodeFault, BTREE_NODE_ORDER, NODE_INTERNAL,
    NODE_LEAF,
};
use sadak_fs::cow::claim_block;
use sadak_fs::entries::{choose_child, insert_entry, search};
use sadak_fs::cache::BlockCache;
use sadak_fs::checksum::checksum_data;

fn leaf(id: u64, entries: Vec<(u64, u64)>) -> BTreeNode {
    BTreeNode {
        header: BTreeNodeHeader {
            node_type: NODE_LEAF,
            num_entries: entries.len() as u16,
            level: 0,
            block_id: id,
            checksum: 0,
        },
        entries,
    }
}

fn volume(blocks: u64) -> (Allocator, BlockCache<MockDevice>) {
    let cache = BlockCache::new(MockDevice::new(blocks));
    let alloc = match Allocator::new(&cache, 1) {
        Ok(alloc) => alloc,
        Err(_) => panic!("the region fits"),
    };
    let mut cache = cache;
    assert!(alloc.reserve_block(&mut cache, 0).is_ok());
    assert!(alloc.reserve_block(&mut cache, 1).is_ok());
    (alloc, cache)
}

fn empty_tree(alloc: &Allocator, cache: &mut BlockCache<MockDevice>) -> BTree {
    let mut fresh = Vec::new();
    match BTree::store_node(alloc, cache, 0, Vec::new(), &mut fresh) {
        Ok(root) => BTree::new(root),
        Err(_) => panic!("a block is free"),
    }
}

#[test]
fn order_is_32() {
    assert_eq!(BTREE_NODE_ORDER, 32);
}

#[test]
fn node_layout() {
    let bytes = leaf(0x0102_0304_0506_0708, vec![(0x11, 0x22), (0x33, 0x44)]).encode();
    assert_eq!(bytes.len(), BLOCK_SIZE);
    assert_eq!(bytes[0], NODE_LEAF);
    assert_eq!(&bytes[2..4], &[2, 0]);
    assert_eq!(bytes[4], 0);
    assert_eq!(&bytes[8..16], &[8, 7, 6, 5, 4, 3, 2, 1]);
    assert_eq!(&bytes[32..40], &[0x11, 0, 0, 0, 0, 0, 0, 0]);
    assert_eq!(&bytes[40..48], &[0x22, 0, 0, 0, 0, 0, 0, 0]);
    assert_eq!(&bytes[48..56], &[0x33, 0, 0, 0, 0, 0, 0, 0]);
    assert_eq!(&bytes[56..64], &[0x44, 0, 0, 0, 0, 0, 0, 0]);
    assert!(bytes[64..].iter().all(|b| *b == 0));
    let mut zeroed = bytes.clone();
    zeroed[16..20].copy_from_slice(&[0, 0, 0, 0]);
    let stored = u32::from_le_bytes([bytes[16], bytes[17], bytes[18], bytes[19]]);
    assert_eq!(stored, checksum_data(&zeroed));
}

#[test]
fn node_round_trip() {
    let entries: Vec<(u64, u64)> = (0..32u64).map(|i| (i * 3 + 1, i + 100)).collect();
    let bytes = leaf(77, entries.clone()).encode();
    match BTreeNode::decode(&bytes, 77) {
        Ok(node) => {
            assert_eq!(node.entries, entries);
            assert_eq!(node.header.block_id, 77);
            assert_eq!(node.header.level, 0);
            assert_eq!(node.header.node_type, NODE_LEAF);
            assert_eq!(node.header.num_entries, 32);
        }
        Err(_) => panic!("the block holds the node"),
    }
}

#[test]
fn node_checksum_mismatch() {
    let mut bytes = leaf(5, vec![(1, 2)]).encode();
    bytes[4000] ^= 0x40;
    assert!(matches!(BTreeNode::decode(&bytes, 5), Err(NodeFault::Checksum)));
    assert!(matches!(BTreeNode::decode(&bytes[..100], 5), Err(NodeFault::Checksum)));
    assert!(matches!(BTreeNode::decode(&vec![0u8; BLOCK_SIZE], 0), Err(NodeFault::Checksum)));
}

#[test]
fn node_from_another_address() {
    let bytes = leaf(5, vec![(1, 2)]).encode();
    assert!(matches!(BTreeNode::decode(&bytes, 6), Err(NodeFault::Invalid)));
}

#[test]
fn search_and_insert_in_a_node() {
    let mut entries: Vec<(u64, u64)> = Vec::new();
    for key in [50u64, 10, 30, 20, 40] {
        insert_entry(&mut entries, key, key * 2);
    }
    assert_eq!(entries, vec![(10, 20), (20, 40), (30, 60), (40, 80), (50, 100)]);
    insert_entry(&mut entries, 30, 7);
    assert_eq!(entries, vec![(10, 20), (20, 40), (30, 7), (40, 80), (50, 100)]);
    assert_eq!(search(&entries, 5), 0);
    assert_eq!(search(&entries, 10), 0);
    assert_eq!(search(&entries, 11), 1);
    assert_eq!(search(&entries, 50), 4);
    assert_eq!(search(&entries, 51), 5);
    assert_eq!(choose_child(&entries, 5), 0);
    assert_eq!(choose_child(&entries, 10), 0);
    assert_eq!(choose_child(&entries, 19), 0);
    assert_eq!(choose_child(&entries, 20), 1);
    assert_eq!(choose_child(&entries, 1000), 4);
}

#[test]
fn get_node_checks_what_it_reads() {
    let (alloc, mut cache) = volume(64);
    let tree = empty_tree(&alloc, &mut cache);
    let root = tree.root_id();
    assert_eq!(root, 2);
    match tree.get_node(&mut cache, root) {
        Ok(node) => {
            assert_eq!(node.header.block_id, 2);
            assert_eq!(node.header.num_entries, 0);
        }
        Err(_) => panic!("the root was just written"),
    }
    assert!(matches!(tree.get_node(&mut cache, 9), Err(BTreeError::ChecksumError)));
    assert!(cache.write_at(2, 100, &[1]));
    assert!(matches!(tree.get_node(&mut cache, 2), Err(BTreeError::ChecksumError)));
    cache.get_new_block(7);
    assert!(cache.write_at(7, 0, &leaf(8, vec![]).encode()));
    assert!(matches!(tree.get_node(&mut cache, 7), Err(BTreeError::InvalidNode)));
    match cache.get_block(7) {
        Ok(block) => assert!(tree.verify_checksum(block)),
        Err(_) => panic!("the block is cached"),
    }
    match cache.get_block(9) {
        Ok(block) => assert!(!tree.verify_checksum(block)),
        Err(_) => panic!("the device is healthy"),
    }
}

#[test]
fn claim_block_takes_the_first_free_block() {
    let (alloc, mut cache) = volume(64);
    let mut fresh = Vec::new();
    assert!(matches!(claim_block(&alloc, &mut cache, &mut fresh), Ok(2)));
    assert!(matches!(claim_block(&alloc, &mut cache, &mut fresh), Ok(3)));
    assert_eq!(fresh, vec![2, 3]);
    assert!(cache.is_dirty(3));
}

#[test]
fn insert_copies_the_root() {
    let (alloc, mut cache) = volume(64);
    let mut tree = empty_tree(&alloc, &mut cache);
    let old_root = tree.root_id();
    let old_image: Vec<u8> = match cache.get_block(old_root) {
        Ok(block) => block.data().to_vec(),
        Err(_) => panic!("the block is cached"),
    };
    let mut fresh = Vec::new();
    let mut stale = Vec::new();
    let new_root = match tree.insert(&alloc, &mut cache, 10, 20, &mut fresh, &mut stale) {
        Ok(id) => id,
        Err(_) => panic!("blocks are free"),
    };
    assert_eq!(new_root, 3);
    assert_eq!(tree.root_id(), 3);
    assert_eq!(fresh, vec![3]);
    assert_eq!(stale, vec![old_root]);
    match cache.get_block(old_root) {
        Ok(block) => assert_eq!(block.data(), &old_image[..]),
        Err(_) => panic!("the block is cached"),
    }
    assert!(matches!(tree.lookup(&mut cache, 10), Ok(Some(20))));
    assert!(matches!(tree.lookup(&mut cache, 11), Ok(None)));
    assert!(matches!(BTree::new(old_root).lookup(&mut cache, 10), Ok(None)));
}

#[test]
fn insert_replaces_a_bound_key() {
    let (alloc, mut cache) = volume(64);
    let mut tree = empty_tree(&alloc, &mut cache);
    let mut fresh = Vec::new();
    let mut stale = Vec::new();
    assert!(tree.insert(&alloc, &mut cache, 10, 20, &mut fresh, &mut stale).is_ok());
    assert!(tree.insert(&alloc, &mut cache, 10, 21, &mut fresh, &mut stale).is_ok());
    assert!(matches!(tree.lookup(&mut cache, 10), Ok(Some(21))));
    match tree.get_node(&mut cache, tree.root_id()) {
        Ok(node) => assert_eq!(node.entries, vec![(10, 21)]),
        Err(_) => panic!("the root was just written"),
    }
}

#[test]
fn split_keeps_half_the_order_on_the_left() {
    let (alloc, mut cache) = volume(256);
    let mut tree = empty_tree(&alloc, &mut cache);
    let mut fresh = Vec::new();
    let mut stale = Vec::new();
    for key in 0..33u64 {
        assert!(tree.insert(&alloc, &mut cache, key, key + 1000, &mut fresh, &mut stale).is_ok());
    }
    let root = match tree.get_node(&mut cache, tree.root_id()) {
        Ok(node) => node,
        Err(_) => panic!("the root was just written"),
    };
    assert_eq!(root.header.node_type, NODE_INTERNAL);
    assert_eq!(root.header.level, 1);
    assert_eq!(root.entries.len(), 2);
    assert_eq!(root.entries[0].0, 0);
    assert_eq!(root.entries[1].0, 16);
    let left = match tree.get_node(&mut cache, root.entries[0].1) {
        Ok(node) => node,
        Err(_) => panic!("the child was just written"),
    };
    let right = match tree.get_node(&mut cache, root.entries[1].1) {
        Ok(node) => node,
        Err(_) => panic!("the child was just written"),
    };
    assert_eq!(left.entries.len(), 16);
    assert_eq!(right.entries.len(), 17);
    assert_eq!(left.header.level, 0);
    assert_eq!(left.entries[15], (15, 1015));
    assert_eq!(right.entries[0], (16, 1016));
}

#[test]
fn many_inserts_in_any_order() {
    let (alloc, mut cache) = volume(32768);
    let mut tree = empty_tree(&alloc, &mut cache);
    let mut fresh = Vec::new();
    let mut stale = Vec::new();
    let count: u64 = 3000;
    let key_of = |i: u64| (i * 7919) % 10007;
    for i in 0..count {
        assert!(tree.insert(&alloc, &mut cache, key_of(i), i, &mut fresh, &mut stale).is_ok());
    }
    for i in 0..count {
        assert!(matches!(tree.lookup(&mut cache, key_of(i)), Ok(Some(v)) if v == i));
    }
    let mut absent = 0;
    for key in 0..10007u64 {
        if matches!(tree.lookup(&mut cache, key), Ok(None)) {
            absent += 1;
        }
    }
    assert_eq!(absent, 10007 - count);
    match tree.get_node(&mut cache, tree.root_id()) {
        Ok(node) => assert!(node.header.level >= 2),
        Err(_) => panic!("the root was just written"),
    }
    let mut sorted = fresh.clone();
    sorted.sort();
    sorted.dedup();
    assert_eq!(sorted.len(), fresh.len());
    assert!(fresh.iter().all(|id| *id >= 3));
}

#[test]
fn descending_inserts_lower_the_first_separator() {
    let (alloc, mut cache) = volume(4096);
    let mut tree = empty_tree(&alloc, &mut cache);
    let mut fresh = Vec::new();
    let mut stale = Vec::new();
    for key in (0..500u64).rev() {
        assert!(tree.insert(&alloc, &mut cache, key, key, &mut fresh, &mut stale).is_ok());
    }
    for key in 0..500u64 {
        assert!(matches!(tree.lookup(&mut cache, key), Ok(Some(v)) if v == key));
    }
}

#[test]
fn insert_writes_nothing_to_the_device() {
    let (alloc, mut cache) = volume(256);
    let mut tree = empty_tree(&alloc, &mut cache);
    let mut fresh = Vec::new();
    let mut stale = Vec::new();
    for key in 0..100u64 {
        assert!(tree.insert(&alloc, &mut cache, key, key, &mut fresh, &mut stale).is_ok());
    }
    let dev = cache.into_device();
    let mut buf = vec![0u8; BLOCK_SIZE];
    for id in 0..256u64 {
        assert!(dev.read_block(id, &mut buf).is_ok());
        assert!(buf.iter().all(|b| *b == 0));
    }
}

#[test]
fn insert_fails_when_the_volume_is_full() {
    let (alloc, mut cache) = volume(4);
    let mut tree = empty_tree(&alloc, &mut cache);
    let mut fresh = Vec::new();
    let mut stale = Vec::new();
    assert!(matches!(tree.insert(&alloc, &mut cache, 1, 1, &mut fresh, &mut stale), Ok(3)));
    assert!(matches!(
        tree.insert(&alloc, &mut cache, 2, 2, &mut fresh, &mut stale),
        Err(BTreeError::Allocator(AllocatorError::OutOfSpace))
    ));
    assert_eq!(tree.root_id(), 3);
    assert!(matches!(tree.lookup(&mut cache, 1), Ok(Some(1))));
    assert!(matches!(tree.lookup(&mut cache, 2), Ok(None)));
}

#[test]
fn unreadable_node_is_a_device_failure() {
    let mut dev = MockDevice::new(16);
    dev.set_read_fault(true);
    let mut cache = BlockCache::new(dev);
    let tree = BTree::new(5);
    assert!(matches!(tree.get_node(&mut cache, 5), Err(BTreeError::Device(_))));
    assert!(matches!(tree.lookup(&mut cache, 1), Err(BTreeError::Device(_))));
}

#[test]
fn lookup_refuses_a_child_of_the_wrong_level() {
    let (alloc, mut cache) = volume(64);
    let mut fresh = Vec::new();
    let leaf_a = match BTree::store_node(&alloc, &mut cache, 0, vec![(1, 10)], &mut fresh) {
        Ok(id) => id,
        Err(_) => panic!("a block is free"),
    };
    let inner = match BTree::store_node(&alloc, &mut cache, 2, vec![(1, leaf_a)], &mut fresh) {
        Ok(id) => id,
        Err(_) => panic!("a block is free"),
    };
    let tree = BTree::new(inner);
    assert!(matches!(tree.lookup(&mut cache, 1), Err(BTreeError::InvalidNode)));
    let good = match BTree::store_node(&alloc, &mut cache, 1, vec![(1, leaf_a)], &mut fresh) {
        Ok(id) => id,
        Err(_) => panic!("a block is free"),
    };
    assert!(matches!(BTree::new(good).lookup(&mut cache, 1), Ok(Some(10))));
    assert!(matches!(BTree::new(good).lookup(&mut cache, 0), Ok(None)));
}
