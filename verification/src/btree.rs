//! The copy-on-write B-tree: checksummed nodes, one per block, and the
//! operations that read and grow a tree of them.

use vstd::prelude::*;
use crate::allocator::{Allocator, AllocatorError};
use crate::bitmap::{allocated, allocated_count, first_free};
use crate::block_device::{BLOCK_SIZE, BlockDevice, BlockId};
use crate::cache::{BlockCache, CacheBlock};
use crate::layout::{
    block_checksum, checksum_ok, read_u16, read_u32, read_u64, read_u8, seal, sealed, u16_at,
    u32_at, u64_at, verify, write_u16, write_u64, zeros, lemma_overwrite_len, lemma_sealed_ok,
};
use vstd::bytes::{
    spec_u16_to_le_bytes, spec_u64_to_le_bytes, lemma_auto_spec_u16_to_from_le_bytes,
    lemma_auto_spec_u64_to_from_le_bytes,
};
use crate::cow::{
    claim_block, grown, node_block, lemma_fresh_blocks, lemma_grown_filled, lemma_grown_image,
    lemma_grown_loaded, lemma_grown_trans, lemma_uncached_before, allocation_excused,
    out_of_hand, lemma_excused_before, marked, lemma_room_used,
};
use crate::entries::{
    bound, choose_child, find, insert_entry, keys_ascending, put, search, upper, with_child,
    lemma_adjacent_ascending, lemma_ascending_part, lemma_put, lemma_route_insert,
    lemma_route_update,
};
use crate::tree_model::{
    grown_get, holds_node, in_grown, in_subtree, in_tree, inserted, key_limit, node_in, path_ok,
    replaced, root_level, subtree_full, subtree_get, subtree_ok, tree_full, tree_get, tree_ok,
    tree_path_ok, tree_replaced, with_grown, lemma_blocks_frame, lemma_child_fits,
    lemma_holds_node, lemma_inner_inserted, lemma_inner_replaced, lemma_inserted_since,
    lemma_leaf_inserted, lemma_leaf_replaced, lemma_new_root, lemma_replaced_since,
    lemma_root_replaced, lemma_subtree_frame,
};

verus! {

/// The largest number of entries in a node.
pub const BTREE_NODE_ORDER: usize = 32;

/// The node type of a leaf.
pub const NODE_LEAF: u8 = 1;

/// The node type of an inner node.
pub const NODE_INTERNAL: u8 = 2;

/// Where the header's fields and the entries lie in a node's block.
pub const NODE_TYPE_OFFSET: usize = 0;

pub const NODE_ENTRIES_OFFSET: usize = 2;

pub const NODE_LEVEL_OFFSET: usize = 4;

pub const NODE_ID_OFFSET: usize = 8;

pub const NODE_CHECKSUM_OFFSET: usize = 16;

pub const NODE_HEADER_SIZE: usize = 32;

pub const NODE_ENTRY_SIZE: usize = 16;

/// The header of a node.
#[derive(Clone, Copy, Debug, PartialEq, Eq, Structural)]
pub struct BTreeNodeHeader {
    /// `NODE_LEAF` or `NODE_INTERNAL`.
    pub node_type: u8,
    /// The number of entries in use.
    pub num_entries: u16,
    /// The height above the leaves; a leaf has level 0.
    pub level: u8,
    /// The address of the block that the node lives in.
    pub block_id: BlockId,
    /// CRC32C of the block with this field counted as zero.
    pub checksum: u32,
}

/// A node: its header and its entries in ascending order of key.
///
/// An entry of a leaf is a key and the address of the key's payload block.
/// An entry of an inner node is the lowest key that its child is meant for
/// and the child's address.
pub struct BTreeNode {
    pub header: BTreeNodeHeader,
    pub entries: Vec<(u64, u64)>,
}

/// Why a block cannot be taken for a node.
#[derive(Clone, Copy, Debug, PartialEq, Eq, Structural)]
pub enum NodeFault {
    /// The stored checksum is not the checksum of the block.
    Checksum,
    /// The block is not a node of the address it was read from.
    Invalid,
}

/// The header that a block holds.
pub open spec fn header_of(bytes: Seq<u8>) -> BTreeNodeHeader {
    BTreeNodeHeader {
        node_type: bytes[NODE_TYPE_OFFSET as int],
        num_entries: u16_at(bytes, NODE_ENTRIES_OFFSET as int),
        level: bytes[NODE_LEVEL_OFFSET as int],
        block_id: u64_at(bytes, NODE_ID_OFFSET as int),
        checksum: u32_at(bytes, NODE_CHECKSUM_OFFSET as int),
    }
}

/// The entry in slot `index` of a block.
pub open spec fn entry_at(bytes: Seq<u8>, index: int) -> (u64, u64) {
    (
        u64_at(bytes, NODE_HEADER_SIZE + index * NODE_ENTRY_SIZE),
        u64_at(bytes, NODE_HEADER_SIZE + index * NODE_ENTRY_SIZE + 8),
    )
}

/// The entries that a block holds, as many as its header counts.
pub open spec fn entries_of(bytes: Seq<u8>) -> Seq<(u64, u64)> {
    Seq::new(header_of(bytes).num_entries as nat, |i: int| entry_at(bytes, i))
}

/// Whether a header and entries make a node: a known type, level 0 exactly
/// for a leaf, as many entries as counted and no more than the order, keys
/// ascending.
pub open spec fn node_valid(header: BTreeNodeHeader, entries: Seq<(u64, u64)>) -> bool {
    &&& header.node_type == NODE_LEAF || header.node_type == NODE_INTERNAL
    &&& (header.level == 0) == (header.node_type == NODE_LEAF)
    &&& header.num_entries == entries.len()
    &&& entries.len() <= BTREE_NODE_ORDER
    &&& keys_ascending(entries)
}

/// What is wrong with a block read from address `id`, if anything. The
/// checksum is judged first.
pub open spec fn node_fault(bytes: Seq<u8>, id: BlockId) -> Option<NodeFault> {
    if bytes.len() != BLOCK_SIZE || !checksum_ok(bytes, NODE_CHECKSUM_OFFSET as int) {
        Some(NodeFault::Checksum)
    } else if header_of(bytes).block_id != id || header_of(bytes).num_entries > BTREE_NODE_ORDER
        || !node_valid(header_of(bytes), entries_of(bytes)) {
        Some(NodeFault::Invalid)
    } else {
        None
    }
}

/// The byte at `index` of a node's block before the checksum is stored.
pub open spec fn node_byte(header: BTreeNodeHeader, entries: Seq<(u64, u64)>, index: int) -> u8 {
    if index == NODE_TYPE_OFFSET {
        header.node_type
    } else if NODE_ENTRIES_OFFSET <= index < NODE_ENTRIES_OFFSET + 2 {
        spec_u16_to_le_bytes(header.num_entries)[index - NODE_ENTRIES_OFFSET]
    } else if index == NODE_LEVEL_OFFSET {
        header.level
    } else if NODE_ID_OFFSET <= index < NODE_ID_OFFSET + 8 {
        spec_u64_to_le_bytes(header.block_id)[index - NODE_ID_OFFSET]
    } else if NODE_HEADER_SIZE <= index < NODE_HEADER_SIZE + entries.len() * NODE_ENTRY_SIZE {
        let slot = (index - NODE_HEADER_SIZE) / (NODE_ENTRY_SIZE as int);
        let at = (index - NODE_HEADER_SIZE) % (NODE_ENTRY_SIZE as int);
        if at < 8 {
            spec_u64_to_le_bytes(entries[slot].0)[at]
        } else {
            spec_u64_to_le_bytes(entries[slot].1)[at - 8]
        }
    } else {
        0u8
    }
}

/// The block of a node: header and entries at their places, zeros elsewhere,
/// and the checksum of all that stored in the header. The header's own
/// checksum field does not count.
pub open spec fn node_image(header: BTreeNodeHeader, entries: Seq<(u64, u64)>) -> Seq<u8> {
    sealed(
        Seq::new(BLOCK_SIZE as nat, |i: int| node_byte(header, entries, i)),
        NODE_CHECKSUM_OFFSET as int,
    )
}

impl BTreeNode {
    /// Whether the node is well formed.
    pub open spec fn valid(&self) -> bool {
        node_valid(self.header, self.entries@)
    }

    /// Lays the node out as a block and stores the block's checksum in it.
    /// The header's own checksum field is not used.
    pub fn encode(&self) -> (bytes: Vec<u8>)
        requires
            self.valid(),
        ensures
            bytes@ == node_image(self.header, self.entries@),
            bytes@.len() == BLOCK_SIZE,
    {
        let mut buf: Vec<u8> = vec![0u8; BLOCK_SIZE];
        let ghost header = self.header;
        let ghost entries = self.entries@;
        proof {
            lemma_auto_spec_u16_to_from_le_bytes();
            lemma_auto_spec_u64_to_from_le_bytes();
        }
        buf[NODE_TYPE_OFFSET] = self.header.node_type;
        buf[NODE_LEVEL_OFFSET] = self.header.level;
        let ghost b0 = buf@;
        write_u16(buf.as_mut_slice(), NODE_ENTRIES_OFFSET, self.header.num_entries);
        let ghost b1 = buf@;
        write_u64(buf.as_mut_slice(), NODE_ID_OFFSET, self.header.block_id);
        proof {
            lemma_overwrite_len(b0, NODE_ENTRIES_OFFSET as int,
                spec_u16_to_le_bytes(header.num_entries));
            lemma_overwrite_len(b1, NODE_ID_OFFSET as int, spec_u64_to_le_bytes(header.block_id));
        }
        let mut i: usize = 0;
        while i < self.entries.len()
            invariant
                i <= self.entries@.len() <= BTREE_NODE_ORDER,
                entries == self.entries@,
                header == self.header,
                buf@.len() == BLOCK_SIZE,
                forall|k: int|
                    0 <= k < NODE_HEADER_SIZE + i * NODE_ENTRY_SIZE ==> buf@[k] == node_byte(
                        header,
                        entries,
                        k,
                    ),
                forall|k: int| NODE_HEADER_SIZE + i * NODE_ENTRY_SIZE <= k < BLOCK_SIZE
                    ==> buf@[k] == 0,
            decreases self.entries@.len() - i,
        {
            let base: usize = NODE_HEADER_SIZE + i * NODE_ENTRY_SIZE;
            let ghost c0 = buf@;
            write_u64(buf.as_mut_slice(), base, self.entries[i].0);
            let ghost c1 = buf@;
            write_u64(buf.as_mut_slice(), base + 8, self.entries[i].1);
            proof {
                lemma_auto_spec_u64_to_from_le_bytes();
                lemma_overwrite_len(c0, base as int, spec_u64_to_le_bytes(entries[i as int].0));
                lemma_overwrite_len(c1, base + 8, spec_u64_to_le_bytes(entries[i as int].1));
                assert forall|k: int| base <= k < base + 16 implies buf@[k] == node_byte(
                    header,
                    entries,
                    k,
                ) by {
                    assert((k - NODE_HEADER_SIZE) / (NODE_ENTRY_SIZE as int) == i);
                    assert((k - NODE_HEADER_SIZE) % (NODE_ENTRY_SIZE as int) == k - base);
                }
            }
            i += 1;
        }
        proof {
            assert(buf@ =~= Seq::new(BLOCK_SIZE as nat, |k: int| node_byte(header, entries, k)));
        }
        seal(buf.as_mut_slice(), NODE_CHECKSUM_OFFSET);
        buf
    }

    /// Reads the node that the block `bytes`, read from address `id`, holds.
    ///
    /// Fails with `Checksum` when the block is not whole or its checksum
    /// does not match, and with `Invalid` when the node names another
    /// address or is not well formed.
    pub fn decode(bytes: &[u8], id: BlockId) -> (r: Result<BTreeNode, NodeFault>)
        ensures
            match node_fault(bytes@, id) {
                Some(fault) => r == Err::<BTreeNode, NodeFault>(fault),
                None => r is Ok && r->Ok_0.header == header_of(bytes@)
                    && r->Ok_0.entries@ == entries_of(
                    bytes@,
                ) && r->Ok_0.valid(),
            },
    {
        if bytes.len() != BLOCK_SIZE || !verify(bytes, NODE_CHECKSUM_OFFSET) {
            return Err(NodeFault::Checksum);
        }
        let header = BTreeNodeHeader {
            node_type: read_u8(bytes, NODE_TYPE_OFFSET),
            num_entries: read_u16(bytes, NODE_ENTRIES_OFFSET),
            level: read_u8(bytes, NODE_LEVEL_OFFSET),
            block_id: read_u64(bytes, NODE_ID_OFFSET),
            checksum: read_u32(bytes, NODE_CHECKSUM_OFFSET),
        };
        if header.block_id != id || header.num_entries as usize > BTREE_NODE_ORDER {
            return Err(NodeFault::Invalid);
        }
        let count: usize = header.num_entries as usize;
        let mut entries: Vec<(u64, u64)> = Vec::new();
        let mut ascending: bool = true;
        let mut i: usize = 0;
        while i < count
            invariant
                i <= count <= BTREE_NODE_ORDER,
                bytes@.len() == BLOCK_SIZE,
                entries@.len() == i,
                forall|k: int| 0 <= k < i ==> entries@[k] == entry_at(bytes@, k),
                ascending == forall|k: int| 0 < k < i
                    ==> (#[trigger] entries@[k - 1]).0 < entries@[k].0,
            decreases count - i,
        {
            let base: usize = NODE_HEADER_SIZE + i * NODE_ENTRY_SIZE;
            let key: u64 = read_u64(bytes, base);
            let value: u64 = read_u64(bytes, base + 8);
            if i > 0 && entries[i - 1].0 >= key {
                ascending = false;
            }
            let ghost before = entries@;
            entries.push((key, value));
            proof {
                if ascending {
                    assert forall|k: int| 0 < k < i + 1
                        implies (#[trigger] entries@[k - 1]).0 < entries@[k].0 by {
                        if k < i {
                            assert(before[k - 1].0 < before[k].0);
                        }
                    }
                } else {
                    if forall|k: int| 0 < k < i + 1
                        ==> (#[trigger] entries@[k - 1]).0 < entries@[k].0 {
                        assert forall|k: int| 0 < k < i
                            implies (#[trigger] before[k - 1]).0 < before[k].0 by {
                            assert(entries@[k - 1].0 < entries@[k].0);
                        }
                        if i > 0 {
                            assert(entries@[i - 1].0 < entries@[i as int].0);
                        }
                    }
                }
            }
            i += 1;
        }
        proof {
            assert(entries@ =~= entries_of(bytes@));
            if ascending {
                lemma_adjacent_ascending(entries@);
            } else {
                if keys_ascending(entries@) {
                    assert forall|k: int| 0 < k < entries@.len()
                        implies (#[trigger] entries@[k - 1]).0
                        < entries@[k].0 by {}
                }
            }
        }
        let typed: bool = header.node_type == NODE_LEAF || header.node_type == NODE_INTERNAL;
        let levelled: bool = (header.level == 0) == (header.node_type == NODE_LEAF);
        if !(typed && levelled && ascending) {
            return Err(NodeFault::Invalid);
        }
        Ok(BTreeNode { header, entries })
    }
}

/// A node's block reads back as the node, with the checksum that the
/// image carries.
pub proof fn lemma_node_image(header: BTreeNodeHeader, entries: Seq<(u64, u64)>)
    requires
        node_valid(header, entries),
    ensures
        node_image(header, entries).len() == BLOCK_SIZE,
        node_fault(node_image(header, entries), header.block_id) is None,
        entries_of(node_image(header, entries)) == entries,
        header_of(node_image(header, entries)) == (BTreeNodeHeader {
            checksum: header_of(node_image(header, entries)).checksum,
            ..header
        }),
{
    let raw = Seq::new(BLOCK_SIZE as nat, |i: int| node_byte(header, entries, i));
    let image = node_image(header, entries);
    let off = NODE_CHECKSUM_OFFSET as int;
    lemma_sealed_ok(raw, off);
    lemma_auto_spec_u16_to_from_le_bytes();
    lemma_auto_spec_u64_to_from_le_bytes();
    let sum = vstd::bytes::spec_u32_to_le_bytes(block_checksum(raw, off));
    vstd::bytes::lemma_auto_spec_u32_to_from_le_bytes();
    lemma_overwrite_len(raw, off, sum);
    assert(image[NODE_TYPE_OFFSET as int] == header.node_type);
    assert(image[NODE_LEVEL_OFFSET as int] == header.level);
    assert(image.subrange(NODE_ENTRIES_OFFSET as int,
        NODE_ENTRIES_OFFSET + 2) =~= spec_u16_to_le_bytes(
        header.num_entries,
    ));
    assert(image.subrange(NODE_ID_OFFSET as int, NODE_ID_OFFSET + 8) =~= spec_u64_to_le_bytes(
        header.block_id,
    ));
    assert forall|i: int| 0 <= i < entries.len() implies entry_at(image, i) == entries[i] by {
        let base = NODE_HEADER_SIZE + i * NODE_ENTRY_SIZE;
        assert forall|k: int| 0 <= k < 8
            implies image[base + k] == spec_u64_to_le_bytes(entries[i].0)[k] by {
            assert((base + k - NODE_HEADER_SIZE) / (NODE_ENTRY_SIZE as int) == i);
            assert((base + k - NODE_HEADER_SIZE) % (NODE_ENTRY_SIZE as int) == k);
        }
        assert forall|k: int| 0 <= k < 8 implies image[base + 8 + k] == spec_u64_to_le_bytes(
            entries[i].1,
        )[k] by {
            assert((base + 8 + k - NODE_HEADER_SIZE) / (NODE_ENTRY_SIZE as int) == i);
            assert((base + 8 + k - NODE_HEADER_SIZE) % (NODE_ENTRY_SIZE as int) == 8 + k);
        }
        assert(image.subrange(base, base + 8) =~= spec_u64_to_le_bytes(entries[i].0));
        assert(image.subrange(base + 8, base + 16) =~= spec_u64_to_le_bytes(entries[i].1));
    }
    assert(entries_of(image) =~= entries);
}

/// A failure of a tree operation.
pub enum BTreeError<D: BlockDevice> {
    /// The device failed while a node was read.
    Device(D::Error),
    /// No block could be had for a new node.
    Allocator(AllocatorError<D>),
    /// A node's checksum does not match its block.
    ChecksumError,
    /// A block is not a node of its address, or not the node that its
    /// place in the tree calls for.
    InvalidNode,
}

/// What an insertion below a node has put in the node's place: the node's
/// copy, its first key, and the second node with its first key when the
/// copy had to be split.
pub struct Grown {
    pub id: BlockId,
    pub low: u64,
    pub split: Option<(u64, BlockId)>,
}

/// The handle on a tree: the address of its root.
pub struct BTree {
    root_id: BlockId,
}

impl BTree {
    /// The address of the root.
    pub closed spec fn root(&self) -> BlockId {
        self.root_id
    }

    /// The tree whose root is block `root_id`.
    pub fn new(root_id: BlockId) -> (tree: Self)
        ensures
            tree.root() == root_id,
    {
        BTree { root_id }
    }

    /// The address of the root.
    pub fn root_id(&self) -> (id: BlockId)
        ensures
            id == self.root(),
    {
        self.root_id
    }

    /// Tells whether the checksum that a cached block stores is the
    /// checksum of the block.
    pub fn verify_checksum(&self, node_block: &CacheBlock) -> (ok: bool)
        ensures
            ok == (node_block.bytes().len() == BLOCK_SIZE && checksum_ok(
                node_block.bytes(),
                NODE_CHECKSUM_OFFSET as int,
            )),
    {
        let data: &[u8] = node_block.data();
        data.len() == BLOCK_SIZE && verify(data, NODE_CHECKSUM_OFFSET)
    }

    /// Reads the node in block `id` through the cache and checks it.
    ///
    /// Fails with `ChecksumError` when the block's checksum does not match,
    /// with `InvalidNode` when the node names another address or is not well
    /// formed, and with `Device` when the block cannot be read.
    pub fn get_node<D: BlockDevice>(&self, cache: &mut BlockCache<D>, id: BlockId) -> (r: Result<
        BTreeNode,
        BTreeError<D>,
    >)
        requires
            old(cache).wf(),
        ensures
            final(cache).loaded_from(old(cache)),
            match r {
                Ok(node) => final(cache).contains(id)
                    && node_fault(final(cache).entries()[id].data, id)
                    is None && node.header == header_of(final(cache).entries()[id].data)
                    && node.entries@ == entries_of(final(cache).entries()[id].data) && node.valid(),
                Err(BTreeError::ChecksumError) => final(cache).contains(id) && node_fault(
                    final(cache).entries()[id].data,
                    id,
                ) == Some(NodeFault::Checksum),
                Err(BTreeError::InvalidNode) => final(cache).contains(id) && node_fault(
                    final(cache).entries()[id].data,
                    id,
                ) == Some(NodeFault::Invalid),
                Err(BTreeError::Device(_)) => !final(cache).contains(id)
                    && out_of_hand(old(cache), id),
                Err(BTreeError::Allocator(_)) => false,
            },
    {
        let block = match cache.get_block(id) {
            Ok(block) => block,
            Err(e) => {
                return Err(BTreeError::Device(e));
            },
        };
        match BTreeNode::decode(block.data(), id) {
            Ok(node) => Ok(node),
            Err(NodeFault::Checksum) => Err(BTreeError::ChecksumError),
            Err(NodeFault::Invalid) => Err(BTreeError::InvalidNode),
        }
    }

    /// Writes a new node of the given level and entries to a freshly
    /// allocated block, through the cache, and returns the block's address.
    /// The address is also added to `fresh`.
    ///
    /// Fails when no block can be allocated.
    #[verifier::rlimit(40)]
    pub fn store_node<D: BlockDevice>(
        alloc: &Allocator,
        cache: &mut BlockCache<D>,
        level: u8,
        entries: Vec<(u64, u64)>,
        fresh: &mut Vec<BlockId>,
    ) -> (r: Result<BlockId, BTreeError<D>>)
        requires
            alloc.wf(),
            old(cache).wf(),
            entries@.len() <= BTREE_NODE_ORDER,
            keys_ascending(entries@),
        ensures
            match r {
                Ok(id) => final(fresh)@ == old(fresh)@.push(id) && grown(
                    alloc,
                    old(cache),
                    final(cache),
                    seq![id],
                ) && holds_node(final(cache), id, level, entries@) && (alloc.sound(old(cache))
                    ==> first_free(alloc.bitmap(old(cache)),
                        alloc.total() as int) == Some(id as int)),
                Err(e) => final(fresh)@ == old(fresh)@ && grown(
                    alloc,
                    old(cache),
                    final(cache),
                    Seq::<BlockId>::empty(),
                ) && e is Allocator && !(e->Allocator_0 is Syscall) && (alloc.sound(old(cache))
                    && e->Allocator_0 is OutOfSpace ==> first_free(
                    alloc.bitmap(old(cache)),
                    alloc.total() as int,
                ) is None) && (e->Allocator_0 is DeviceError ==> exists|id: BlockId|
                    alloc.in_region(id) && !old(cache).contains(id)) && allocation_excused(
                    alloc,
                    old(cache),
                    final(cache),
                    e->Allocator_0,
                ),
            },
    {
        let id: BlockId = match claim_block(alloc, cache, fresh) {
            Ok(id) => id,
            Err(e) => {
                return Err(BTreeError::Allocator(e));
            },
        };
        let node = BTreeNode {
            header: BTreeNodeHeader {
                node_type: if level == 0 {
                    NODE_LEAF
                } else {
                    NODE_INTERNAL
                },
                num_entries: entries.len() as u16,
                level,
                block_id: id,
                checksum: 0,
            },
            entries,
        };
        let bytes: Vec<u8> = node.encode();
        let ghost mid = *cache;
        cache.write_at(id, 0, bytes.as_slice());
        proof {
            lemma_grown_filled(alloc, old(cache), &mid, cache, id, bytes@);
        }
        Ok(id)
    }

    /// Whether an insertion has left the nodes it reports in the cache.
    pub open spec fn placed<D: BlockDevice>(cache: &BlockCache<D>, grown: Grown,
        level: u8) -> bool {
        &&& node_in(cache, grown.id, level, grown.low)
        &&& match grown.split {
            Some((low, id)) => grown.low < low && node_in(cache, id, level, low) && id != grown.id,
            None => true,
        }
    }

    /// Whether the cache holds the entries as `place` stores them: in one
    /// new node, or, when they are more than the order, the first half of
    /// the order in one new node and the rest in a second.
    pub open spec fn stored<D: BlockDevice>(
        cache: &BlockCache<D>,
        grown: Grown,
        level: u8,
        entries: Seq<(u64, u64)>,
    ) -> bool {
        let half = (BTREE_NODE_ORDER / 2) as int;
        &&& grown.low == entries[0].0
        &&& if entries.len() <= BTREE_NODE_ORDER {
            grown.split is None && holds_node(cache, grown.id, level, entries)
        } else {
            &&& grown.split is Some
            &&& grown.split->Some_0.0 == entries[half].0
            &&& grown.split->Some_0.1 != grown.id
            &&& holds_node(cache, grown.id, level, entries.take(half))
            &&& holds_node(cache, grown.split->Some_0.1, level, entries.skip(half))
        }
    }

    /// Stores the entries of a node's copy: as one new node, or split in
    /// two when they are more than the order, the lower node keeping half
    /// the order.
    #[verifier::rlimit(40)]
    fn place<D: BlockDevice>(
        alloc: &Allocator,
        cache: &mut BlockCache<D>,
        level: u8,
        entries: Vec<(u64, u64)>,
        fresh: &mut Vec<BlockId>,
    ) -> (r: Result<Grown, BTreeError<D>>)
        requires
            alloc.wf(),
            old(cache).wf(),
            1 <= entries@.len() <= BTREE_NODE_ORDER + 1,
            keys_ascending(entries@),
        ensures
            old(fresh)@.is_prefix_of(final(fresh)@),
            grown(alloc, old(cache), final(cache), final(fresh)@.skip(old(fresh)@.len() as int)),
            r is Ok && alloc.sound(old(cache))
                ==> Self::stored(final(cache), r->Ok_0, level, entries@)
                && node_block(alloc, final(cache), r->Ok_0.id) && (r->Ok_0.split is Some
                    ==> node_block(
                alloc,
                final(cache),
                r->Ok_0.split->Some_0.1,
            )),
            r is Ok ==> final(fresh)@.skip(old(fresh)@.len() as int).contains(r->Ok_0.id) && (
            r->Ok_0.split is Some ==> final(fresh)@.skip(old(fresh)@.len() as int).contains(
                r->Ok_0.split->Some_0.1,
            )),
            r is Err ==> r->Err_0 is Allocator && !(r->Err_0->Allocator_0 is Syscall),
            r is Err && r->Err_0->Allocator_0 is DeviceError ==> exists|id: BlockId|
                alloc.in_region(id) && !old(cache).contains(id),
            r is Err ==> allocation_excused(alloc, old(cache), final(cache), r->Err_0->Allocator_0),
            final(fresh)@.len() <= old(fresh)@.len() + 2,
    {
        let ghost c0 = *cache;
        let ghost f0 = fresh@;
        let ghost none = Seq::<BlockId>::empty();
        let ghost all = entries@;
        let low: u64 = entries[0].0;
        let mut entries = entries;
        if entries.len() <= BTREE_NODE_ORDER {
            let copy = match Self::store_node(alloc, cache, level, entries, fresh) {
                Ok(copy) => copy,
                Err(e) => {
                    proof {
                        assert(fresh@.skip(f0.len() as int) =~= none);
                    }
                    return Err(e);
                },
            };
            proof {
                assert(fresh@.skip(f0.len() as int) =~= seq![copy]);
                assert(seq![copy][0] == copy);
                if alloc.sound(&c0) {
                    lemma_fresh_blocks(alloc, &c0, cache, seq![copy], 0);
                }
            }
            Ok(Grown { id: copy, low, split: None })
        } else {
            let upper: Vec<(u64, u64)> = entries.split_off(BTREE_NODE_ORDER / 2);
            let second_low: u64 = upper[0].0;
            proof {
                lemma_ascending_part(all, 0, (BTREE_NODE_ORDER / 2) as int);
                lemma_ascending_part(all, (BTREE_NODE_ORDER / 2) as int, all.len() as int);
                assert(entries@ =~= all.take((BTREE_NODE_ORDER / 2) as int));
                assert(upper@ =~= all.skip((BTREE_NODE_ORDER / 2) as int));
            }
            let first = match Self::store_node(alloc, cache, level, entries, fresh) {
                Ok(first) => first,
                Err(e) => {
                    proof {
                        assert(fresh@.skip(f0.len() as int) =~= none);
                    }
                    return Err(e);
                },
            };
            let ghost c1 = *cache;
            let ghost f1 = fresh@;
            proof {
                assert(f1.skip(f0.len() as int) =~= seq![first]);
            }
            let second = match Self::store_node(alloc, cache, level, upper, fresh) {
                Ok(second) => second,
                Err(e) => {
                    proof {
                        lemma_grown_trans(alloc, &c0, &c1, cache, seq![first], none);
                        assert(seq![first] + none =~= fresh@.skip(f0.len() as int));
                        if e->Allocator_0 is DeviceError {
                            lemma_uncached_before(alloc, &c0, &c1);
                        }
                        lemma_excused_before(alloc, &c0, &c1, cache, seq![first], e->Allocator_0);
                    }
                    return Err(e);
                },
            };
            proof {
                lemma_grown_trans(alloc, &c0, &c1, cache, seq![first], seq![second]);
                let added = fresh@.skip(f0.len() as int);
                assert(seq![first] + seq![second] =~= added);
                assert(added[0] == first && added[1] == second);
                if alloc.sound(&c0) {
                    assert(first != second);
                    assert(!alloc.in_region(first));
                    assert(seq![second][0] == second);
                    assert(!seq![second].contains(first));
                    assert(c1.contains(first));
                    assert(cache.entries()[first] == c1.entries()[first]);
                    lemma_fresh_blocks(alloc, &c0, cache, added, 0);
                    lemma_fresh_blocks(alloc, &c0, cache, added, 1);
                }
            }
            Ok(Grown { id: first, low, split: Some((second_low, second)) })
        }
    }

    /// What `place` stores are nodes in the cache.
    proof fn lemma_stored_placed<D: BlockDevice>(
        cache: &BlockCache<D>,
        grown: Grown,
        level: u8,
        entries: Seq<(u64, u64)>,
    )
        requires
            Self::stored(cache, grown, level, entries),
            1 <= entries.len() <= BTREE_NODE_ORDER + 1,
            keys_ascending(entries),
        ensures
            Self::placed(cache, grown, level),
    {
        let half = (BTREE_NODE_ORDER / 2) as int;
        if entries.len() <= BTREE_NODE_ORDER {
            lemma_holds_node(cache, grown.id, level, entries);
        } else {
            lemma_ascending_part(entries, 0, half);
            lemma_ascending_part(entries, half, entries.len() as int);
            lemma_holds_node(cache, grown.id, level, entries.take(half));
            lemma_holds_node(cache, grown.split->Some_0.1, level, entries.skip(half));
            assert(entries[0].0 < entries[half].0);
        }
    }

    /// Binds `key` to `value` in the subtree under block `id`, which must
    /// hold a node of the given level, by copying every node on the way.
    ///
    /// `lo` and `hi` are the bounds of the subtree's keys, where it is a
    /// search tree.
    #[verifier::rlimit(40)]
    fn insert_into<D: BlockDevice>(
        &self,
        alloc: &Allocator,
        cache: &mut BlockCache<D>,
        id: BlockId,
        level: u8,
        key: u64,
        value: u64,
        fresh: &mut Vec<BlockId>,
        stale: &mut Vec<BlockId>,
        Ghost(lo): Ghost<int>,
        Ghost(hi): Ghost<int>,
    ) -> (r: Result<Grown, BTreeError<D>>)
        requires
            alloc.wf(),
            old(cache).wf(),
        ensures
            old(fresh)@.is_prefix_of(final(fresh)@),
            old(stale)@.is_prefix_of(final(stale)@),
            grown(alloc, old(cache), final(cache), final(fresh)@.skip(old(fresh)@.len() as int)),
            r is Ok && alloc.sound(old(cache)) ==> Self::placed(final(cache), r->Ok_0, level),
            r is Err ==> !(r->Err_0 is Allocator && r->Err_0->Allocator_0 is Syscall),
            r is Err && r->Err_0 is Allocator && r->Err_0->Allocator_0 is DeviceError ==> exists|
                id: BlockId,
            | alloc.in_region(id) && !old(cache).contains(id),
            r is Err && r->Err_0 is Allocator ==> allocation_excused(
                alloc,
                old(cache),
                final(cache),
                r->Err_0->Allocator_0,
            ),
            r is Err && r->Err_0 is Device && alloc.sound(old(cache)) && subtree_ok(
                alloc,
                old(cache),
                id,
                level as nat,
                lo,
                hi,
            ) ==> exists|x: BlockId| x < alloc.total() && out_of_hand(old(cache), x),
            final(fresh)@.len() - old(fresh)@.len() <= 2 * (level + 1),
            r is Ok ==> final(stale)@.len() > old(stale)@.len() && final(stale)@.last() == id,
            alloc.sound(old(cache)) && subtree_ok(alloc, old(cache), id, level as nat, lo, hi)
                ==> match r {
                Ok(above) => inserted(
                    alloc,
                    old(cache),
                    final(cache),
                    id,
                    above,
                    level as nat,
                    lo,
                    hi,
                    key,
                    value,
                ),
                Err(e) => e is Device || e is Allocator,
            },
            r is Ok && alloc.sound(old(cache))
                && subtree_ok(alloc, old(cache), id, level as nat, lo, hi)
                && subtree_full(old(cache), id, level as nat) ==> replaced(
                old(cache),
                final(cache),
                id,
                r->Ok_0,
                level as nat,
                final(fresh)@.skip(old(fresh)@.len() as int),
                final(stale)@.skip(old(stale)@.len() as int),
            ),
        decreases level,
    {
        let ghost c0 = *cache;
        let ghost f0 = fresh@;
        let ghost none = Seq::<BlockId>::empty();
        let ghost fine = alloc.sound(&c0) && subtree_ok(alloc, &c0, id, level as nat, lo, hi);
        let ghost full = fine && subtree_full(&c0, id, level as nat);
        let ghost was = entries_of(c0.image(id));
        let ghost s0 = stale@;
        proof {
            assert(fresh@.skip(f0.len() as int) =~= none);
        }
        let fetched = self.get_node(cache, id);
        proof {
            lemma_grown_loaded(alloc, &c0, cache);
            if fine {
                lemma_grown_image(alloc, &c0, cache, none, id);
                if cache.contains(id) {
                    cache.lemma_cached_settled(id);
                }
            }
        }
        let node = match fetched {
            Ok(node) => node,
            Err(e) => {
                proof {
                    if fine && e is Device {
                        assert(id < alloc.total() && out_of_hand(&c0, id));
                    }
                }
                return Err(e);
            },
        };
        if node.header.level != level {
            return Err(BTreeError::InvalidNode);
        }
        let ghost c1 = *cache;
        let mut entries: Vec<(u64, u64)> = node.entries;
        let ghost below_grown: Grown;
        if level == 0 {
            insert_entry(&mut entries, key, value);
            proof {
                lemma_put(node.entries@, key, value);
                below_grown = Grown { id, low: key, split: None };
            }
        } else {
            if entries.len() == 0 {
                return Err(BTreeError::InvalidNode);
            }
            let at: usize = choose_child(&entries, key);
            let child: BlockId = entries[at].1;
            let ghost child_lo = entries@[at as int].0 as int;
            let ghost child_hi = upper(entries@, at as int, hi);
            proof {
                if fine {
                    assert(subtree_ok(alloc, &c0, was[at as int].1, (level - 1) as nat, child_lo,
                        child_hi));
                    lemma_subtree_frame(
                        alloc,
                        &c0,
                        &c1,
                        none,
                        child,
                        (level - 1) as nat,
                        child_lo,
                        child_hi,
                    );
                }
            }
            let below = self.insert_into(
                alloc,
                cache,
                child,
                level - 1,
                key,
                value,
                fresh,
                stale,
                Ghost(child_lo),
                Ghost(child_hi),
            );
            proof {
                lemma_grown_trans(alloc, &c0, &c1, cache, none, fresh@.skip(f0.len() as int));
                assert(none + fresh@.skip(f0.len() as int) =~= fresh@.skip(f0.len() as int));
            }
            let below = match below {
                Ok(below) => below,
                Err(e) => {
                    proof {
                        if e is Allocator && e->Allocator_0 is DeviceError {
                            lemma_uncached_before(alloc, &c0, &c1);
                        }
                        if e is Allocator {
                            lemma_excused_before(alloc, &c0, &c1, cache, none, e->Allocator_0);
                        }
                        if fine && e is Device {
                            let x = choose|x: BlockId| x < alloc.total() && out_of_hand(&c1, x);
                            if c0.contains(x) {
                                assert(c1.contains(x));
                            }
                            assert(x < alloc.total() && out_of_hand(&c0, x));
                        }
                    }
                    return Err(e);
                },
            };
            proof {
                below_grown = below;
                if full {
                    assert(subtree_full(&c0, child, (level - 1) as nat));
                    lemma_blocks_frame(
                        alloc,
                        &c0,
                        &c1,
                        none,
                        child,
                        (level - 1) as nat,
                        child_lo,
                        child_hi,
                    );
                    lemma_replaced_since(
                        alloc,
                        &c0,
                        &c1,
                        cache,
                        child,
                        below,
                        (level - 1) as nat,
                        child_lo,
                        child_hi,
                        fresh@.skip(f0.len() as int),
                        stale@.skip(s0.len() as int),
                    );
                }
                if fine {
                    lemma_inserted_since(
                        alloc,
                        &c0,
                        &c1,
                        cache,
                        child,
                        below,
                        (level - 1) as nat,
                        child_lo,
                        child_hi,
                        key,
                        value,
                    );
                    lemma_child_fits(alloc, cache, was, (level - 1) as nat, lo, hi, key, below);
                }
            }
            let low: u64 = if key < entries[at].0 {
                key
            } else {
                entries[at].0
            };
            let ghost before = entries@;
            entries[at] = (low, below.id);
            proof {
                lemma_route_update(before, key, below.id);
                assert(entries@ == with_child(before, key, below.id));
            }
            match below.split {
                Some((second_low, second)) => {
                    if !(low < second_low && (at + 1 == entries.len()
                        || second_low < entries[at + 1].0)) {
                        return Err(BTreeError::InvalidNode);
                    }
                    let ghost mid = entries@;
                    entries.insert(at + 1, (second_low, second));
                    proof {
                        lemma_route_insert(mid, at as int, second_low, second);
                    }
                },
                None => {},
            }
            proof {
                assert(entries@ == with_grown(before, key, below));
            }
        }
        let ghost c2 = *cache;
        let ghost f2 = fresh@;
        let ghost s2 = stale@;
        let ghost all = entries@;
        let stored = Self::place(alloc, cache, level, entries, fresh);
        proof {
            lemma_grown_trans(
                alloc,
                &c0,
                &c2,
                cache,
                f2.skip(f0.len() as int),
                fresh@.skip(f2.len() as int),
            );
            assert(f2.skip(f0.len() as int) + fresh@.skip(f2.len() as int) =~= fresh@.skip(
                f0.len() as int,
            ));
        }
        match stored {
            Ok(above) => {
                proof {
                    if alloc.sound(&c0) {
                        Self::lemma_stored_placed(cache, above, level, all);
                    }
                    if fine {
                        if level == 0 {
                            lemma_leaf_inserted(alloc, &c0, cache, id, above, lo, hi, key, value);
                        } else {
                            lemma_inner_inserted(
                                alloc,
                                &c0,
                                &c2,
                                cache,
                                f2.skip(f0.len() as int),
                                fresh@.skip(f2.len() as int),
                                id,
                                level,
                                lo,
                                hi,
                                key,
                                value,
                                below_grown,
                                above,
                            );
                        }
                    }
                    if full {
                        if level == 0 {
                            lemma_leaf_replaced(
                                &c0,
                                cache,
                                id,
                                above,
                                all,
                                fresh@.skip(f0.len() as int),
                            );
                        } else {
                            lemma_inner_replaced(
                                alloc,
                                &c0,
                                &c2,
                                cache,
                                f2.skip(f0.len() as int),
                                fresh@.skip(f2.len() as int),
                                s2.skip(s0.len() as int),
                                id,
                                level,
                                lo,
                                hi,
                                key,
                                below_grown,
                                above,
                            );
                        }
                    }
                }
                stale.push(id);
                proof {
                    assert(stale@.skip(s0.len() as int) =~= s2.skip(s0.len() as int).push(id));
                    if level == 0 {
                        assert(s2 == s0);
                        assert(stale@.skip(s0.len() as int) =~= seq![id]);
                    }
                }
                Ok(above)
            },
            Err(e) => {
                proof {
                    if e->Allocator_0 is DeviceError {
                        lemma_uncached_before(alloc, &c0, &c2);
                    }
                    lemma_excused_before(alloc, &c0, &c2, cache, f2.skip(f0.len() as int),
                        e->Allocator_0);
                }
                Err(e)
            },
        }
    }

    /// Whether the cache holds, dirty, a well-formed node in block `id`.
    pub open spec fn root_in<D: BlockDevice>(cache: &BlockCache<D>, id: BlockId) -> bool {
        cache.contains(id) && cache.entries()[id].dirty && node_fault(cache.entries()[id].data, id)
            is None
    }

    /// Whether an insertion into the tree under `root` is owed success:
    /// the bitmap can be relied on and the tree is a search tree whose root
    /// is not at the highest level, no bitmap block and no block below the
    /// capacity is out of hand, and as many blocks are free as the copies
    /// of a path, their halves and a new root can take.
    pub open spec fn insert_owed<D: BlockDevice>(
        alloc: &Allocator,
        cache: &BlockCache<D>,
        root: BlockId,
    ) -> bool {
        &&& alloc.sound(cache)
        &&& tree_ok(alloc, cache, root)
        &&& root_level(cache, root) < u8::MAX
        &&& forall|x: BlockId|
            (x < alloc.total() || alloc.in_region(x)) ==> !(#[trigger] out_of_hand(cache, x))
        &&& allocated_count(alloc.bitmap(cache), alloc.total() as int) + 2 * root_level(cache, root)
            + 3 <= alloc.total()
    }

    /// Binds `key` to `value` in the tree, copy-on-write, and returns the
    /// address of the new root, which the handle then names.
    ///
    /// Every node on the way from the root to the key's leaf is copied to a
    /// freshly allocated block with the change applied; a copy that would
    /// hold more entries than the order is split, the lower half keeping
    /// half the order. No node of the tree as it was is written to. The
    /// addresses of the new blocks are added to `fresh`, those of the nodes
    /// that the new tree no longer uses to `stale`. On failure the handle
    /// names the old root, and `fresh` holds what was allocated in vain.
    ///
    /// Fails with `Allocator(OutOfSpace)` only when, with the blocks taken
    /// so far, no block is free, and with `Device` or
    /// `Allocator(DeviceError)` only when a block was out of hand. At most
    /// two blocks are taken for each level of the tree, and one for a new
    /// root. The old root is the last block added to `stale`.
    #[verifier::rlimit(40)]
    pub fn insert<D: BlockDevice>(
        &mut self,
        alloc: &Allocator,
        cache: &mut BlockCache<D>,
        key: u64,
        value: u64,
        fresh: &mut Vec<BlockId>,
        stale: &mut Vec<BlockId>,
    ) -> (r: Result<BlockId, BTreeError<D>>)
        requires
            alloc.wf(),
            old(cache).wf(),
        ensures
            old(fresh)@.is_prefix_of(final(fresh)@),
            old(stale)@.is_prefix_of(final(stale)@),
            grown(alloc, old(cache), final(cache), final(fresh)@.skip(old(fresh)@.len() as int)),
            match r {
                Ok(id) => final(self).root() == id && (alloc.sound(old(cache)) ==> Self::root_in(
                    final(cache),
                    id,
                )),
                Err(e) => final(self).root() == old(self).root() && !(e is Allocator
                    && e->Allocator_0 is Syscall) && (e is Allocator
                        && e->Allocator_0 is DeviceError
                    ==> exists|id: BlockId| alloc.in_region(id) && !old(cache).contains(id)),
            },
            alloc.sound(old(cache)) && tree_ok(alloc, old(cache), old(self).root()) ==> match r {
                Ok(id) => tree_ok(alloc, final(cache), id) && forall|other: u64| #[trigger]
                    tree_get(final(cache), id, other) == bound(
                        tree_get(old(cache), old(self).root(), other),
                        key,
                        value,
                        other,
                    ),
                Err(e) => e is Device || e is Allocator || (e is InvalidNode && root_level(
                    old(cache),
                    old(self).root(),
                ) == u8::MAX),
            },
            r is Err && r->Err_0 is Allocator ==> allocation_excused(
                alloc,
                old(cache),
                final(cache),
                r->Err_0->Allocator_0,
            ),
            r is Err && r->Err_0 is Allocator && r->Err_0->Allocator_0 is OutOfSpace && alloc.sound(
                old(cache),
            ) ==> first_free(
                marked(alloc.bitmap(old(cache)), final(fresh)@.skip(old(fresh)@.len() as int)),
                alloc.total() as int,
            ) is None,
            alloc.sound(old(cache)) && tree_ok(alloc, old(cache), old(self).root())
                ==> final(fresh)@.len()
                - old(fresh)@.len() <= 2 * root_level(old(cache), old(self).root()) + 3 && (r is Err
                && r->Err_0 is Device ==> exists|x: BlockId|
                x < alloc.total() && out_of_hand(old(cache), x)),
            Self::insert_owed(alloc, old(cache), old(self).root()) ==> r is Ok,
            r is Ok ==> final(stale)@.len() > old(stale)@.len()
                && final(stale)@.last() == old(self).root(),
            r is Ok && alloc.sound(old(cache)) && tree_ok(alloc, old(cache), old(self).root())
                && tree_full(old(cache), old(self).root()) ==> tree_replaced(
                old(cache),
                final(cache),
                old(self).root(),
                r->Ok_0,
                final(fresh)@.skip(old(fresh)@.len() as int),
                final(stale)@.skip(old(stale)@.len() as int),
            ),
    {
        let ghost fine = alloc.sound(old(cache)) && tree_ok(alloc, old(cache), old(self).root());
        let ghost full = fine && tree_full(old(cache), old(self).root());
        let ghost s0 = stale@;
        let ghost old_root = self.root_id;
        let ghost c0 = *cache;
        let ghost f0 = fresh@;
        let ghost none = Seq::<BlockId>::empty();
        proof {
            assert(fresh@.skip(f0.len() as int) =~= none);
        }
        let fetched = self.get_node(cache, self.root_id);
        proof {
            lemma_grown_loaded(alloc, &c0, cache);
            if fine {
                lemma_grown_image(alloc, &c0, cache, none, old_root);
                if cache.contains(old_root) {
                    cache.lemma_cached_settled(old_root);
                }
            }
        }
        let level: u8 = match fetched {
            Ok(node) => node.header.level,
            Err(e) => {
                proof {
                    if fine && e is Device {
                        assert(old_root < alloc.total() && out_of_hand(&c0, old_root));
                    }
                }
                return Err(e);
            },
        };
        let ghost c1 = *cache;
        proof {
            if fine {
                lemma_subtree_frame(alloc, &c0, &c1, none, old_root, level as nat, 0, key_limit());
            }
        }
        let top = match self.insert_into(
            alloc,
            cache,
            self.root_id,
            level,
            key,
            value,
            fresh,
            stale,
            Ghost(0),
            Ghost(key_limit()),
        ) {
            Ok(top) => top,
            Err(e) => {
                proof {
                    lemma_grown_trans(alloc, &c0, &c1, cache, none, fresh@.skip(f0.len() as int));
                    assert(none + fresh@.skip(f0.len() as int) =~= fresh@.skip(f0.len() as int));
                    if e is Allocator && e->Allocator_0 is DeviceError {
                        lemma_uncached_before(alloc, &c0, &c1);
                    }
                    if e is Allocator {
                        lemma_excused_before(alloc, &c0, &c1, cache, none, e->Allocator_0);
                        if alloc.sound(&c0) && e->Allocator_0 is OutOfSpace {
                            if Self::insert_owed(alloc, &c0, old_root) {
                                lemma_room_used(alloc, &c0, cache, fresh@.skip(f0.len() as int));
                            }
                        }
                    }
                    if fine && e is Device {
                        let x = choose|x: BlockId| x < alloc.total() && out_of_hand(&c1, x);
                        if c0.contains(x) {
                            assert(c1.contains(x));
                        }
                        assert(x < alloc.total() && out_of_hand(&c0, x));
                    }
                }
                return Err(e);
            },
        };
        proof {
            lemma_grown_trans(alloc, &c0, &c1, cache, none, fresh@.skip(f0.len() as int));
            assert(none + fresh@.skip(f0.len() as int) =~= fresh@.skip(f0.len() as int));
            if fine {
                lemma_inserted_since(
                    alloc,
                    &c0,
                    &c1,
                    cache,
                    old_root,
                    top,
                    level as nat,
                    0,
                    key_limit(),
                    key,
                    value,
                );
            }
            if full {
                lemma_blocks_frame(alloc, &c0, &c1, none, old_root, level as nat, 0, key_limit());
                lemma_replaced_since(
                    alloc,
                    &c0,
                    &c1,
                    cache,
                    old_root,
                    top,
                    level as nat,
                    0,
                    key_limit(),
                    fresh@.skip(f0.len() as int),
                    stale@.skip(s0.len() as int),
                );
            }
        }
        let ghost c2 = *cache;
        let ghost f2 = fresh@;
        match top.split {
            None => {
                proof {
                    if fine {
                        assert forall|other: u64| #[trigger]
                            tree_get(cache, top.id, other) == bound(
                                tree_get(&c0, old_root, other),
                                key,
                                value,
                                other,
                            ) by {
                            assert(grown_get(cache, top, level as nat, other) == bound(
                                subtree_get(&c0, old_root, level as nat, other),
                                key,
                                value,
                                other,
                            ));
                        }
                    }
                    if full {
                        let taken = fresh@.skip(f0.len() as int);
                        let left = stale@.skip(s0.len() as int);
                        assert(root_level(cache, top.id) == level);
                        assert(root_level(&c0, old_root) == level);
                        assert forall|x: BlockId| #[trigger] in_tree(cache, top.id, x)
                            implies taken.contains(
                            x,
                        ) || (in_tree(&c0, old_root, x) && !left.contains(x)) by {
                            assert(in_grown(cache, top, level as nat, x));
                        }
                        assert forall|i: int| 0 <= i < left.len() implies in_tree(
                            &c0,
                            old_root,
                            #[trigger] left[i],
                        ) by {
                            assert(in_subtree(&c0, old_root, level as nat, left[i]));
                        }
                    }
                }
                self.root_id = top.id;
                Ok(top.id)
            },
            Some((second_low, second)) => {
                if level == u8::MAX {
                    return Err(BTreeError::InvalidNode);
                }
                let mut entries: Vec<(u64, u64)> = Vec::new();
                entries.push((top.low, top.id));
                entries.push((second_low, second));
                let ghost pair = entries@;
                if top.low >= second_low {
                    return Err(BTreeError::InvalidNode);
                }
                let root = match Self::store_node(alloc, cache, level + 1, entries, fresh) {
                    Ok(root) => root,
                    Err(e) => {
                        proof {
                            lemma_grown_trans(alloc, &c0, &c2, cache, f2.skip(f0.len() as int),
                                none);
                            assert(f2.skip(f0.len() as int) + none =~= fresh@.skip(f0.len() as int));
                            lemma_excused_before(alloc, &c0, &c2, cache, f2.skip(f0.len() as int),
                                e->Allocator_0);
                            if alloc.sound(&c0) && e->Allocator_0 is OutOfSpace {
                                if Self::insert_owed(alloc, &c0, old_root) {
                                    lemma_room_used(alloc, &c0, cache,
                                        fresh@.skip(f0.len() as int));
                                }
                            }
                        }
                        return Err(e);
                    },
                };
                proof {
                    lemma_grown_trans(alloc, &c0, &c2, cache, f2.skip(f0.len() as int), seq![root]);
                    assert(f2.skip(f0.len() as int) + seq![root] =~= fresh@.skip(f0.len() as int));
                    if alloc.sound(&c0) {
                        lemma_holds_node(cache, root, (level + 1) as u8, pair);
                    }
                    if full {
                        assert(pair =~= seq![(top.low, top.id), top.split->Some_0]);
                        lemma_root_replaced(
                            alloc,
                            &c0,
                            &c2,
                            cache,
                            f2.skip(f0.len() as int),
                            stale@.skip(s0.len() as int),
                            old_root,
                            top,
                            level,
                            root,
                        );
                        assert(f2.skip(f0.len() as int).push(root) =~= fresh@.skip(f0.len() as int));
                    }
                    if fine {
                        assert(pair =~= seq![(top.low, top.id), top.split->Some_0]);
                        lemma_fresh_blocks(alloc, &c2, cache, seq![root], 0);
                        lemma_new_root(
                            alloc,
                            &c0,
                            &c2,
                            cache,
                            seq![root],
                            old_root,
                            top,
                            level,
                            root,
                            key,
                            value,
                        );
                    }
                }
                self.root_id = root;
                Ok(root)
            },
        }
    }

    /// Looks `key` up: descends from the root to the key's leaf and
    /// returns what the tree binds the key to.
    ///
    /// Fails with `ChecksumError` or `InvalidNode` when a node on the way is
    /// not a well-formed node of its address, one level below its parent,
    /// and with `Device` when a node cannot be read, which takes a block
    /// that is out of hand.
    ///
    /// The nodes on the way are cached afterwards, so the answer stands in
    /// every state that the cache reaches by reading more blocks.
    #[verifier::rlimit(40)]
    pub fn lookup<D: BlockDevice>(&self, cache: &mut BlockCache<D>, key: u64) -> (r: Result<
        Option<u64>,
        BTreeError<D>,
    >)
        requires
            old(cache).wf(),
        ensures
            final(cache).loaded_from(old(cache)),
            forall|later: BlockCache<D>| #[trigger]
                later.loaded_from(final(cache)) ==> match r {
                    Ok(found) => tree_path_ok(&later, self.root(), key) && found == tree_get(
                        &later,
                        self.root(),
                        key,
                    ),
                    Err(BTreeError::ChecksumError) => !tree_path_ok(&later, self.root(), key),
                    Err(BTreeError::InvalidNode) => !tree_path_ok(&later, self.root(), key),
                    Err(BTreeError::Device(_)) => true,
                    Err(BTreeError::Allocator(_)) => false,
                },
            r is Err && r->Err_0 is Device ==> exists|x: BlockId| out_of_hand(old(cache), x),
    {
        let ghost c0 = *cache;
        let root: BlockId = self.root_id;
        let mut node = match self.get_node(cache, root) {
            Ok(node) => node,
            Err(e) => {
                proof {
                    if !(e is Device) {
                        assert forall|later: BlockCache<D>| #[trigger]
                            later.loaded_from(cache) implies !tree_path_ok(&later, root, key) by {
                            assert(later.contains(root));
                            later.lemma_cached_settled(root);
                        }
                    }
                }
                return Err(e);
            },
        };
        let mut level: u8 = node.header.level;
        let ghost top = level as nat;
        let ghost mut current = root;
        proof {
            assert forall|later: BlockCache<D>| #[trigger] later.loaded_from(cache)
                implies root_level(
                &later,
                root,
            ) == top by {
                assert(later.contains(root));
                later.lemma_cached_settled(root);
            }
        }
        while level > 0
            invariant
                c0 == *old(cache),
                root == self.root(),
                cache.loaded_from(&c0),
                node.valid(),
                node.header.level == level,
                cache.contains(current),
                node.header == header_of(cache.entries()[current].data),
                node.entries@ == entries_of(cache.entries()[current].data),
                node_fault(cache.entries()[current].data, current) is None,
                forall|later: BlockCache<D>| #[trigger]
                    later.loaded_from(cache) ==> root_level(&later, root) == top && subtree_get(
                        &later,
                        root,
                        top,
                        key,
                    ) == subtree_get(&later, current, level as nat, key)
                        && path_ok(&later, root, top, key)
                        == path_ok(&later, current, level as nat, key),
            decreases level,
        {
            let ghost c1 = *cache;
            if node.entries.len() == 0 {
                proof {
                    assert forall|later: BlockCache<D>| #[trigger] later.loaded_from(cache)
                        implies !tree_path_ok(
                        &later,
                        root,
                        key,
                    ) by {
                        assert(later.contains(current));
                        later.lemma_cached_settled(current);
                    }
                }
                return Err(BTreeError::InvalidNode);
            }
            let at: usize = choose_child(&node.entries, key);
            let child: BlockId = node.entries[at].1;
            let fetched = self.get_node(cache, child);
            proof {
                cache.lemma_loaded_trans(&c1, &c0);
                assert forall|later: BlockCache<D>| #[trigger] later.loaded_from(cache)
                    implies root_level(
                    &later,
                    root,
                ) == top && subtree_get(&later, root, top, key) == subtree_get(
                    &later,
                    child,
                    (level - 1) as nat,
                    key,
                ) && path_ok(&later, root, top, key) == path_ok(&later, child, (level - 1) as nat,
                    key) by {
                    later.lemma_loaded_trans(cache, &c1);
                    assert(later.loaded_from(&c1));
                    assert(c1.contains(current));
                    assert(cache.contains(current));
                    assert(later.contains(current));
                    later.lemma_cached_settled(current);
                    assert(later.image(current) == c1.entries()[current].data);
                }
            }
            let next = match fetched {
                Ok(next) => next,
                Err(e) => {
                    proof {
                        if !(e is Device) {
                            assert forall|later: BlockCache<D>| #[trigger]
                                later.loaded_from(cache)
                                    implies !tree_path_ok(&later, root, key) by {
                                assert(later.contains(child));
                                later.lemma_cached_settled(child);
                            }
                        } else {
                            if c0.contains(child) {
                                assert(c1.contains(child));
                            }
                            assert(out_of_hand(&c0, child));
                        }
                    }
                    return Err(e);
                },
            };
            if next.header.level != level - 1 {
                proof {
                    assert forall|later: BlockCache<D>| #[trigger] later.loaded_from(cache)
                        implies !tree_path_ok(
                        &later,
                        root,
                        key,
                    ) by {
                        assert(later.contains(child));
                        later.lemma_cached_settled(child);
                    }
                }
                return Err(BTreeError::InvalidNode);
            }
            proof {
                current = child;
            }
            node = next;
            level = level - 1;
        }
        let at: usize = search(&node.entries, key);
        proof {
            assert forall|later: BlockCache<D>| #[trigger] later.loaded_from(cache)
                implies tree_path_ok(
                &later,
                root,
                key,
            ) && find(node.entries@, key) == tree_get(&later, root, key) by {
                assert(later.contains(current));
                later.lemma_cached_settled(current);
            }
        }
        if at < node.entries.len() && node.entries[at].0 == key {
            Ok(Some(node.entries[at].1))
        } else {
            Ok(None)
        }
    }
}

} // verus!
