//! The filesystem: superblock, mount and format, file creation, and the
//! atomic commit.

use vstd::prelude::*;
use vstd::bytes::{
    spec_u16_to_le_bytes, spec_u32_to_le_bytes, spec_u64_to_le_bytes,
    lemma_auto_spec_u16_to_from_le_bytes, lemma_auto_spec_u32_to_from_le_bytes,
    lemma_auto_spec_u64_to_from_le_bytes,
};
use crate::allocator::{Allocator, AllocatorError, region_blocks};
use crate::bitmap::{
    allocated_count, lemma_count_of_prefix, lemma_full_count,
    allocated, block_bit, BLOCKS_PER_BITMAP_BLOCK, first_free, is_bitmap, with_allocated,
        with_freed,
    lemma_byte_bits, lemma_first_free_is, lemma_region_bits,
};
use crate::block_device::{BLOCK_SIZE, BlockDevice, BlockId};
use crate::btree::{BTree, BTreeError, node_image};
use crate::cow::{
    all_free, claim_block, clean_kept, grown, marked, node_block, out_of_hand, release, released,
    lemma_fresh_blocks, lemma_grown_loaded, lemma_grown_rewrite, lemma_grown_trans, lemma_marked,
    lemma_marked_count, lemma_node_block_kept, lemma_region_covers, lemma_room_used,
};
use crate::entries::bound;
use crate::tree_model::{
    header_for, holds_node, in_tree, root_level, tree_full, tree_get, tree_ok, tree_path_ok,
    tree_replaced, lemma_empty_tree, lemma_in_tree, lemma_shows_node, lemma_tree_blocks_frame,
    lemma_tree_frame, lemma_tree_kept,
};
use crate::cache::{BlockCache, CachedImage};
use crate::layout::{overwrite, zeros};
use crate::sahne_syscalls::SyscallError;
use crate::layout::{
    block_checksum, checksum_ok, read_u16, read_u32, read_u64, read_u8, seal, sealed, u16_at,
    u32_at, u64_at, verify, write_u16, write_u32, write_u64, lemma_overwrite_len, lemma_sealed_ok,
};

verus! {

/// The number that marks block 0 of a volume of this filesystem.
pub const SADAK_MAGIC: u64 = 0x05AD_ACF5;

/// The version of the on-disk format.
pub const SADAK_VERSION: u16 = 1;

/// Where the superblock's fields lie in block 0.
pub const SB_MAGIC_OFFSET: usize = 0;

pub const SB_VERSION_OFFSET: usize = 8;

pub const SB_TOTAL_OFFSET: usize = 16;

pub const SB_ROOT_OFFSET: usize = 24;

pub const SB_BITMAP_OFFSET: usize = 32;

pub const SB_TIMESTAMP_OFFSET: usize = 40;

pub const SB_CHECKSUM_OFFSET: usize = 48;

/// Where an inode's fields lie in its block.
pub const INODE_SIZE_OFFSET: usize = 0;

pub const INODE_BLOCKS_OFFSET: usize = 8;

pub const INODE_CREATED_OFFSET: usize = 16;

pub const INODE_MODIFIED_OFFSET: usize = 24;

pub const INODE_TYPE_OFFSET: usize = 32;

pub const INODE_TREE_OFFSET: usize = 40;

pub const INODE_LINKS_OFFSET: usize = 48;

pub const INODE_CHECKSUM_OFFSET: usize = 52;

/// The file type of a regular file.
pub const FILE_TYPE_FILE: u8 = 1;

/// The file type of a directory.
pub const FILE_TYPE_DIRECTORY: u8 = 2;

/// The volume's self-description in block 0.
#[derive(Clone, Copy, Debug, PartialEq, Eq, Structural)]
pub struct Superblock {
    pub magic: u64,
    pub version: u16,
    /// The capacity in blocks.
    pub total_blocks: BlockId,
    /// The root of the metadata tree as of the last commit.
    pub metadata_root_id: BlockId,
    /// The first block of the allocation bitmap.
    pub bitmap_start_id: BlockId,
    /// The wall clock at the last commit.
    pub timestamp: u64,
    /// CRC32C of block 0 with this field counted as zero.
    pub checksum: u32,
}

/// The record of a file or directory.
#[derive(Clone, Copy, Debug, PartialEq, Eq, Structural)]
pub struct Inode {
    pub file_size: u64,
    pub block_count: u64,
    pub creation_time: u64,
    pub modification_time: u64,
    /// `FILE_TYPE_FILE` or `FILE_TYPE_DIRECTORY`.
    pub file_type: u8,
    /// The root of the tree of the file's data blocks.
    pub data_tree_root: BlockId,
    pub link_count: u32,
    /// CRC32C of the inode's block with this field counted as zero.
    pub checksum: u32,
}

/// The superblock that a block holds.
pub open spec fn superblock_of(bytes: Seq<u8>) -> Superblock {
    Superblock {
        magic: u64_at(bytes, SB_MAGIC_OFFSET as int),
        version: u16_at(bytes, SB_VERSION_OFFSET as int),
        total_blocks: u64_at(bytes, SB_TOTAL_OFFSET as int),
        metadata_root_id: u64_at(bytes, SB_ROOT_OFFSET as int),
        bitmap_start_id: u64_at(bytes, SB_BITMAP_OFFSET as int),
        timestamp: u64_at(bytes, SB_TIMESTAMP_OFFSET as int),
        checksum: u32_at(bytes, SB_CHECKSUM_OFFSET as int),
    }
}

/// Whether a block is the superblock of a volume: whole, with the magic
/// number, a matching checksum and a bitmap that starts after block 0.
pub open spec fn superblock_ok(bytes: Seq<u8>) -> bool {
    &&& bytes.len() == BLOCK_SIZE
    &&& superblock_of(bytes).magic == SADAK_MAGIC
    &&& checksum_ok(bytes, SB_CHECKSUM_OFFSET as int)
    &&& superblock_of(bytes).bitmap_start_id >= 1
}

/// The byte at `index` of block 0 before the checksum is stored.
pub open spec fn superblock_byte(sb: Superblock, index: int) -> u8 {
    if SB_MAGIC_OFFSET <= index < SB_MAGIC_OFFSET + 8 {
        spec_u64_to_le_bytes(sb.magic)[index - SB_MAGIC_OFFSET]
    } else if SB_VERSION_OFFSET <= index < SB_VERSION_OFFSET + 2 {
        spec_u16_to_le_bytes(sb.version)[index - SB_VERSION_OFFSET]
    } else if SB_TOTAL_OFFSET <= index < SB_TOTAL_OFFSET + 8 {
        spec_u64_to_le_bytes(sb.total_blocks)[index - SB_TOTAL_OFFSET]
    } else if SB_ROOT_OFFSET <= index < SB_ROOT_OFFSET + 8 {
        spec_u64_to_le_bytes(sb.metadata_root_id)[index - SB_ROOT_OFFSET]
    } else if SB_BITMAP_OFFSET <= index < SB_BITMAP_OFFSET + 8 {
        spec_u64_to_le_bytes(sb.bitmap_start_id)[index - SB_BITMAP_OFFSET]
    } else if SB_TIMESTAMP_OFFSET <= index < SB_TIMESTAMP_OFFSET + 8 {
        spec_u64_to_le_bytes(sb.timestamp)[index - SB_TIMESTAMP_OFFSET]
    } else {
        0u8
    }
}

/// Block 0 for a superblock: the fields at their places, zeros elsewhere,
/// and the checksum of all that stored in its field. The superblock's own
/// checksum field does not count.
pub open spec fn superblock_image(sb: Superblock) -> Seq<u8> {
    sealed(Seq::new(BLOCK_SIZE as nat, |i: int| superblock_byte(sb, i)), SB_CHECKSUM_OFFSET as int)
}

/// The superblock as it reads back from its image: with the checksum that
/// the image carries.
pub open spec fn superblock_sealed(sb: Superblock) -> Superblock {
    Superblock {
        checksum: block_checksum(
            Seq::new(BLOCK_SIZE as nat, |i: int| superblock_byte(sb, i)),
            SB_CHECKSUM_OFFSET as int,
        ),
        ..sb
    }
}

/// A superblock's image reads back as the superblock, and is that of a
/// volume when it has the magic number and a bitmap after block 0.
pub proof fn lemma_superblock_image(sb: Superblock)
    ensures
        superblock_image(sb).len() == BLOCK_SIZE,
        superblock_of(superblock_image(sb)) == superblock_sealed(sb),
        superblock_ok(superblock_image(sb)) == (sb.magic == SADAK_MAGIC && sb.bitmap_start_id >= 1),
{
    let raw = Seq::new(BLOCK_SIZE as nat, |i: int| superblock_byte(sb, i));
    let image = superblock_image(sb);
    let off = SB_CHECKSUM_OFFSET as int;
    lemma_sealed_ok(raw, off);
    lemma_auto_spec_u16_to_from_le_bytes();
    lemma_auto_spec_u32_to_from_le_bytes();
    lemma_auto_spec_u64_to_from_le_bytes();
    lemma_overwrite_len(raw, off, spec_u32_to_le_bytes(block_checksum(raw, off)));
    assert(image.subrange(SB_MAGIC_OFFSET as int,
        SB_MAGIC_OFFSET + 8) =~= spec_u64_to_le_bytes(sb.magic));
    assert(image.subrange(SB_VERSION_OFFSET as int, SB_VERSION_OFFSET + 2) =~= spec_u16_to_le_bytes(
        sb.version,
    ));
    assert(image.subrange(SB_TOTAL_OFFSET as int, SB_TOTAL_OFFSET + 8) =~= spec_u64_to_le_bytes(
        sb.total_blocks,
    ));
    assert(image.subrange(SB_ROOT_OFFSET as int, SB_ROOT_OFFSET + 8) =~= spec_u64_to_le_bytes(
        sb.metadata_root_id,
    ));
    assert(image.subrange(SB_BITMAP_OFFSET as int, SB_BITMAP_OFFSET + 8) =~= spec_u64_to_le_bytes(
        sb.bitmap_start_id,
    ));
    assert(image.subrange(SB_TIMESTAMP_OFFSET as int,
        SB_TIMESTAMP_OFFSET + 8) =~= spec_u64_to_le_bytes(
        sb.timestamp,
    ));
}

impl Superblock {
    /// Lays the superblock out as block 0 and stores the block's checksum
    /// in it. The checksum field of `self` is not used.
    pub fn encode(&self) -> (bytes: Vec<u8>)
        ensures
            bytes@ == superblock_image(*self),
            bytes@.len() == BLOCK_SIZE,
    {
        let mut buf: Vec<u8> = vec![0u8; BLOCK_SIZE];
        proof {
            lemma_auto_spec_u16_to_from_le_bytes();
            lemma_auto_spec_u64_to_from_le_bytes();
        }
        let ghost b0 = buf@;
        write_u64(buf.as_mut_slice(), SB_MAGIC_OFFSET, self.magic);
        let ghost b1 = buf@;
        write_u16(buf.as_mut_slice(), SB_VERSION_OFFSET, self.version);
        let ghost b2 = buf@;
        write_u64(buf.as_mut_slice(), SB_TOTAL_OFFSET, self.total_blocks);
        let ghost b3 = buf@;
        write_u64(buf.as_mut_slice(), SB_ROOT_OFFSET, self.metadata_root_id);
        let ghost b4 = buf@;
        write_u64(buf.as_mut_slice(), SB_BITMAP_OFFSET, self.bitmap_start_id);
        let ghost b5 = buf@;
        write_u64(buf.as_mut_slice(), SB_TIMESTAMP_OFFSET, self.timestamp);
        proof {
            lemma_overwrite_len(b0, SB_MAGIC_OFFSET as int, spec_u64_to_le_bytes(self.magic));
            lemma_overwrite_len(b1, SB_VERSION_OFFSET as int, spec_u16_to_le_bytes(self.version));
            lemma_overwrite_len(b2, SB_TOTAL_OFFSET as int,
                spec_u64_to_le_bytes(self.total_blocks));
            lemma_overwrite_len(b3, SB_ROOT_OFFSET as int,
                spec_u64_to_le_bytes(self.metadata_root_id));
            lemma_overwrite_len(b4, SB_BITMAP_OFFSET as int,
                spec_u64_to_le_bytes(self.bitmap_start_id));
            lemma_overwrite_len(b5, SB_TIMESTAMP_OFFSET as int,
                spec_u64_to_le_bytes(self.timestamp));
            assert(buf@ =~= Seq::new(BLOCK_SIZE as nat, |i: int| superblock_byte(*self, i)));
        }
        seal(buf.as_mut_slice(), SB_CHECKSUM_OFFSET);
        buf
    }

    /// Reads the superblock that a block holds, if the block is the
    /// superblock of a volume.
    pub fn decode(bytes: &[u8]) -> (r: Option<Superblock>)
        ensures
            r == (if superblock_ok(bytes@) {
                Some(superblock_of(bytes@))
            } else {
                None
            }),
    {
        if bytes.len() != BLOCK_SIZE {
            return None;
        }
        let sb = Superblock {
            magic: read_u64(bytes, SB_MAGIC_OFFSET),
            version: read_u16(bytes, SB_VERSION_OFFSET),
            total_blocks: read_u64(bytes, SB_TOTAL_OFFSET),
            metadata_root_id: read_u64(bytes, SB_ROOT_OFFSET),
            bitmap_start_id: read_u64(bytes, SB_BITMAP_OFFSET),
            timestamp: read_u64(bytes, SB_TIMESTAMP_OFFSET),
            checksum: read_u32(bytes, SB_CHECKSUM_OFFSET),
        };
        if sb.magic != SADAK_MAGIC || !verify(bytes, SB_CHECKSUM_OFFSET) || sb.bitmap_start_id < 1 {
            return None;
        }
        Some(sb)
    }
}

/// The inode that a block holds.
pub open spec fn inode_of(bytes: Seq<u8>) -> Inode {
    Inode {
        file_size: u64_at(bytes, INODE_SIZE_OFFSET as int),
        block_count: u64_at(bytes, INODE_BLOCKS_OFFSET as int),
        creation_time: u64_at(bytes, INODE_CREATED_OFFSET as int),
        modification_time: u64_at(bytes, INODE_MODIFIED_OFFSET as int),
        file_type: bytes[INODE_TYPE_OFFSET as int],
        data_tree_root: u64_at(bytes, INODE_TREE_OFFSET as int),
        link_count: u32_at(bytes, INODE_LINKS_OFFSET as int),
        checksum: u32_at(bytes, INODE_CHECKSUM_OFFSET as int),
    }
}

/// Whether a block holds an inode: it is whole and its checksum matches.
pub open spec fn inode_ok(bytes: Seq<u8>) -> bool {
    bytes.len() == BLOCK_SIZE && checksum_ok(bytes, INODE_CHECKSUM_OFFSET as int)
}

/// The byte at `index` of an inode's block before the checksum is stored.
pub open spec fn inode_byte(inode: Inode, index: int) -> u8 {
    if INODE_SIZE_OFFSET <= index < INODE_SIZE_OFFSET + 8 {
        spec_u64_to_le_bytes(inode.file_size)[index - INODE_SIZE_OFFSET]
    } else if INODE_BLOCKS_OFFSET <= index < INODE_BLOCKS_OFFSET + 8 {
        spec_u64_to_le_bytes(inode.block_count)[index - INODE_BLOCKS_OFFSET]
    } else if INODE_CREATED_OFFSET <= index < INODE_CREATED_OFFSET + 8 {
        spec_u64_to_le_bytes(inode.creation_time)[index - INODE_CREATED_OFFSET]
    } else if INODE_MODIFIED_OFFSET <= index < INODE_MODIFIED_OFFSET + 8 {
        spec_u64_to_le_bytes(inode.modification_time)[index - INODE_MODIFIED_OFFSET]
    } else if index == INODE_TYPE_OFFSET {
        inode.file_type
    } else if INODE_TREE_OFFSET <= index < INODE_TREE_OFFSET + 8 {
        spec_u64_to_le_bytes(inode.data_tree_root)[index - INODE_TREE_OFFSET]
    } else if INODE_LINKS_OFFSET <= index < INODE_LINKS_OFFSET + 4 {
        spec_u32_to_le_bytes(inode.link_count)[index - INODE_LINKS_OFFSET]
    } else {
        0u8
    }
}

/// The block of an inode: the fields at their places, zeros elsewhere, and
/// the checksum of all that stored in its field. The inode's own checksum
/// field does not count.
pub open spec fn inode_image(inode: Inode) -> Seq<u8> {
    sealed(Seq::new(BLOCK_SIZE as nat, |i: int| inode_byte(inode, i)), INODE_CHECKSUM_OFFSET as int)
}

/// The inode as it reads back from its image: with the checksum that the
/// image carries.
pub open spec fn inode_sealed(inode: Inode) -> Inode {
    Inode {
        checksum: block_checksum(
            Seq::new(BLOCK_SIZE as nat, |i: int| inode_byte(inode, i)),
            INODE_CHECKSUM_OFFSET as int,
        ),
        ..inode
    }
}

/// An inode's image holds an inode and reads back as that inode.
pub proof fn lemma_inode_image(inode: Inode)
    ensures
        inode_image(inode).len() == BLOCK_SIZE,
        inode_ok(inode_image(inode)),
        inode_of(inode_image(inode)) == inode_sealed(inode),
{
    let raw = Seq::new(BLOCK_SIZE as nat, |i: int| inode_byte(inode, i));
    let image = inode_image(inode);
    let off = INODE_CHECKSUM_OFFSET as int;
    lemma_sealed_ok(raw, off);
    lemma_auto_spec_u32_to_from_le_bytes();
    lemma_auto_spec_u64_to_from_le_bytes();
    lemma_overwrite_len(raw, off, spec_u32_to_le_bytes(block_checksum(raw, off)));
    assert(image.subrange(INODE_SIZE_OFFSET as int, INODE_SIZE_OFFSET + 8) =~= spec_u64_to_le_bytes(
        inode.file_size,
    ));
    assert(image.subrange(INODE_BLOCKS_OFFSET as int,
        INODE_BLOCKS_OFFSET + 8) =~= spec_u64_to_le_bytes(
        inode.block_count,
    ));
    assert(image.subrange(INODE_CREATED_OFFSET as int,
        INODE_CREATED_OFFSET + 8) =~= spec_u64_to_le_bytes(
        inode.creation_time,
    ));
    assert(image.subrange(INODE_MODIFIED_OFFSET as int, INODE_MODIFIED_OFFSET + 8)
        =~= spec_u64_to_le_bytes(inode.modification_time));
    assert(image.subrange(INODE_TREE_OFFSET as int, INODE_TREE_OFFSET + 8) =~= spec_u64_to_le_bytes(
        inode.data_tree_root,
    ));
    assert(image.subrange(INODE_LINKS_OFFSET as int,
        INODE_LINKS_OFFSET + 4) =~= spec_u32_to_le_bytes(
        inode.link_count,
    ));
    assert(image[INODE_TYPE_OFFSET as int] == inode.file_type);
}

impl Inode {
    /// Lays the inode out as a block and stores the block's checksum in
    /// it. The checksum field of `self` is not used.
    pub fn encode(&self) -> (bytes: Vec<u8>)
        ensures
            bytes@ == inode_image(*self),
            bytes@.len() == BLOCK_SIZE,
    {
        let mut buf: Vec<u8> = vec![0u8; BLOCK_SIZE];
        proof {
            lemma_auto_spec_u32_to_from_le_bytes();
            lemma_auto_spec_u64_to_from_le_bytes();
        }
        buf[INODE_TYPE_OFFSET] = self.file_type;
        let ghost b0 = buf@;
        write_u64(buf.as_mut_slice(), INODE_SIZE_OFFSET, self.file_size);
        let ghost b1 = buf@;
        write_u64(buf.as_mut_slice(), INODE_BLOCKS_OFFSET, self.block_count);
        let ghost b2 = buf@;
        write_u64(buf.as_mut_slice(), INODE_CREATED_OFFSET, self.creation_time);
        let ghost b3 = buf@;
        write_u64(buf.as_mut_slice(), INODE_MODIFIED_OFFSET, self.modification_time);
        let ghost b4 = buf@;
        write_u64(buf.as_mut_slice(), INODE_TREE_OFFSET, self.data_tree_root);
        let ghost b5 = buf@;
        write_u32(buf.as_mut_slice(), INODE_LINKS_OFFSET, self.link_count);
        proof {
            lemma_overwrite_len(b0, INODE_SIZE_OFFSET as int, spec_u64_to_le_bytes(self.file_size));
            lemma_overwrite_len(b1, INODE_BLOCKS_OFFSET as int,
                spec_u64_to_le_bytes(self.block_count));
            lemma_overwrite_len(b2, INODE_CREATED_OFFSET as int,
                spec_u64_to_le_bytes(self.creation_time));
            lemma_overwrite_len(
                b3,
                INODE_MODIFIED_OFFSET as int,
                spec_u64_to_le_bytes(self.modification_time),
            );
            lemma_overwrite_len(b4, INODE_TREE_OFFSET as int,
                spec_u64_to_le_bytes(self.data_tree_root));
            lemma_overwrite_len(b5, INODE_LINKS_OFFSET as int,
                spec_u32_to_le_bytes(self.link_count));
            assert(buf@ =~= Seq::new(BLOCK_SIZE as nat, |i: int| inode_byte(*self, i)));
        }
        seal(buf.as_mut_slice(), INODE_CHECKSUM_OFFSET);
        buf
    }

    /// Reads the inode that a block holds, if the block is whole and its
    /// checksum matches.
    pub fn decode(bytes: &[u8]) -> (r: Option<Inode>)
        ensures
            r == (if inode_ok(bytes@) {
                Some(inode_of(bytes@))
            } else {
                None
            }),
    {
        if bytes.len() != BLOCK_SIZE || !verify(bytes, INODE_CHECKSUM_OFFSET) {
            return None;
        }
        Some(
            Inode {
                file_size: read_u64(bytes, INODE_SIZE_OFFSET),
                block_count: read_u64(bytes, INODE_BLOCKS_OFFSET),
                creation_time: read_u64(bytes, INODE_CREATED_OFFSET),
                modification_time: read_u64(bytes, INODE_MODIFIED_OFFSET),
                file_type: read_u8(bytes, INODE_TYPE_OFFSET),
                data_tree_root: read_u64(bytes, INODE_TREE_OFFSET),
                link_count: read_u32(bytes, INODE_LINKS_OFFSET),
                checksum: read_u32(bytes, INODE_CHECKSUM_OFFSET),
            },
        )
    }
}

/// A failure of the filesystem.
pub enum SadakFsError<D: BlockDevice> {
    /// The device failed.
    Device(D::Error),
    /// The allocator failed.
    Allocator(AllocatorError<D>),
    /// A metadata block's checksum does not match.
    ChecksumError,
    /// Block 0 is not the superblock of a volume, or the volume's bitmap
    /// does not mark what it must.
    InvalidSuperblock,
    /// A block of the metadata tree is not the node it should be.
    InvalidNode,
    /// The host kernel refused a service.
    Syscall(SyscallError),
}

impl<D: BlockDevice> From<AllocatorError<D>> for SadakFsError<D> {
    /// A failure of the allocator, as the filesystem reports it.
    fn from(e: AllocatorError<D>) -> (r: Self) {
        SadakFsError::Allocator(e)
    }
}

impl<D: BlockDevice> vstd::std_specs::convert::FromSpecImpl<AllocatorError<D>> for SadakFsError<D> {
    open spec fn obeys_from_spec() -> bool {
        true
    }

    open spec fn from_spec(e: AllocatorError<D>) -> Self {
        SadakFsError::Allocator(e)
    }
}

impl<D: BlockDevice> From<SyscallError> for SadakFsError<D> {
    /// A refusal of the host kernel, as the filesystem reports it.
    fn from(e: SyscallError) -> (r: Self) {
        SadakFsError::Syscall(e)
    }
}

impl<D: BlockDevice> vstd::std_specs::convert::FromSpecImpl<SyscallError> for SadakFsError<D> {
    open spec fn obeys_from_spec() -> bool {
        true
    }

    open spec fn from_spec(e: SyscallError) -> Self {
        SadakFsError::Syscall(e)
    }
}

impl<D: BlockDevice> SadakFsError<D> {
    /// The filesystem's error for a failure of a tree operation.
    pub fn from_tree(e: BTreeError<D>) -> (r: Self)
        ensures
            match e {
                BTreeError::Device(_) => r is Device,
                BTreeError::Allocator(a) => r is Allocator && (a is OutOfSpace) == (r->Allocator_0
                    is OutOfSpace) && (a is DeviceError) == (r->Allocator_0 is DeviceError) && (a
                    is Syscall) == (r->Allocator_0 is Syscall),
                BTreeError::ChecksumError => r is ChecksumError,
                BTreeError::InvalidNode => r is InvalidNode,
            },
    {
        match e {
            BTreeError::Device(e) => SadakFsError::Device(e),
            BTreeError::Allocator(e) => SadakFsError::Allocator(e),
            BTreeError::ChecksumError => SadakFsError::ChecksumError,
            BTreeError::InvalidNode => SadakFsError::InvalidNode,
        }
    }
}

/// A bitmap region of `count` blocks with nothing marked.
pub open spec fn empty_bitmap(count: nat) -> Seq<Seq<u8>> {
    Seq::new(count, |j: int| zeros(BLOCK_SIZE as nat))
}

/// The blocks that are never handed out: block 0 and the bitmap region.
pub open spec fn reserved_blocks(start: BlockId, count: nat) -> Seq<BlockId> {
    Seq::new(
        count + 1,
        |i: int|
            if i == 0 {
                0u64
            } else {
                (start + i - 1) as BlockId
            },
    )
}

/// The bitmap of a volume on which only the reserved blocks are allocated.
pub open spec fn reserved_bitmap(start: BlockId, count: nat) -> Seq<Seq<u8>> {
    marked(empty_bitmap(count), reserved_blocks(start, count))
}

/// The superblock that formatting writes on a device of `total` blocks: the
/// bitmap starts at block 1 and the metadata root follows the bitmap.
pub open spec fn initial_superblock(total: BlockId) -> Superblock {
    Superblock {
        magic: SADAK_MAGIC,
        version: SADAK_VERSION,
        total_blocks: total,
        metadata_root_id: (1 + region_blocks(total as int)) as BlockId,
        bitmap_start_id: 1,
        timestamp: 0,
        checksum: 0,
    }
}

/// Nothing is marked in an empty bitmap.
pub proof fn lemma_empty_bitmap(count: nat, lba: int)
    requires
        0 <= lba < count * BLOCKS_PER_BITMAP_BLOCK,
    ensures
        is_bitmap(empty_bitmap(count)),
        !allocated(empty_bitmap(count), lba),
{
    let n = lba % (BLOCKS_PER_BITMAP_BLOCK as int);
    lemma_byte_bits(0u8, (n % 8) as u8, (n % 8) as u8);
}

/// In the bitmap of a fresh volume exactly the reserved blocks are
/// allocated.
pub proof fn lemma_reserved_bitmap(start: BlockId, count: nat, lba: int)
    requires
        start >= 1,
        start + count <= u64::MAX,
        start + count <= count * BLOCKS_PER_BITMAP_BLOCK,
        0 <= lba < count * BLOCKS_PER_BITMAP_BLOCK,
    ensures
        is_bitmap(reserved_bitmap(start, count)),
        reserved_bitmap(start, count).len() == count,
        allocated(reserved_bitmap(start, count), lba) == (lba == 0 || start <= lba < start + count),
{
    let blocks = reserved_blocks(start, count);
    lemma_empty_bitmap(count, lba);
    lemma_marked(empty_bitmap(count), blocks);
    if lba == 0 {
        assert(blocks[0] == 0);
    } else if start <= lba < start + count {
        assert(blocks[lba - start + 1] == lba);
    }
}

/// On a freshly formatted volume the allocated blocks are block 0, the
/// bitmap region and the metadata root, one after the other from block 0
/// on: as many as the region has blocks, and two.
pub proof fn lemma_formatted_bitmap(total: BlockId)
    requires
        total >= 2 + region_blocks(total as int),
    ensures
        forall|l: int|
            0 <= l < total ==> #[trigger] allocated(
                with_allocated(
                    reserved_bitmap(1, region_blocks(total as int) as nat),
                    1 + region_blocks(total as int),
                ),
                l,
            ) == (l < 2 + region_blocks(total as int)),
        allocated_count(
            with_allocated(
                reserved_bitmap(1, region_blocks(total as int) as nat),
                1 + region_blocks(total as int),
            ),
            total as int,
        ) == 2 + region_blocks(total as int),
{
    let count = region_blocks(total as int) as nat;
    let reserved = reserved_bitmap(1, count);
    let root = 1 + count;
    let images = with_allocated(reserved, root as int);
    lemma_reserved_bitmap(1, count, 0);
    assert forall|l: int| 0 <= l < total
        implies #[trigger] allocated(images, l) == (l < 2 + count) by {
        lemma_reserved_bitmap(1, count, l);
        lemma_region_bits(reserved, root as int, l);
    }
    lemma_count_of_prefix(images, total as int, (2 + count) as int);
}

/// Gives the bitmap region zeroed images in the cache and marks the
/// reserved blocks in them.
#[verifier::rlimit(40)]
fn prepare_bitmap<D: BlockDevice>(alloc: &Allocator, cache: &mut BlockCache<D>)
    requires
        alloc.wf(),
        old(cache).wf(),
        alloc.start() >= 1,
        alloc.start() + alloc.count() <= alloc.total(),
    ensures
        final(cache).wf(),
        final(cache).device() == old(cache).device(),
        final(cache).keeps(old(cache)),
        alloc.same_outside(old(cache), final(cache)),
        alloc.reads_as(final(cache), reserved_bitmap(alloc.start(), alloc.count() as nat)),
        forall|id: BlockId| alloc.in_region(id) ==> #[trigger] final(cache).dirty(id),
{
    let start: BlockId = alloc.bitmap_start_id();
    let count: BlockId = alloc.bitmap_block_count();
    let ghost empty = empty_bitmap(count as nat);
    let ghost blocks = reserved_blocks(start, count as nat);
    let mut j: BlockId = 0;
    while j < count
        invariant
            j <= count,
            start == alloc.start(),
            count == alloc.count(),
            alloc.wf(),
            cache.wf(),
            cache.device() == old(cache).device(),
            cache.keeps(old(cache)),
            alloc.same_outside(old(cache), cache),
            forall|id: BlockId|
                start <= id < start + j ==> #[trigger] cache.dirty(id) && cache.entries()[id].data
                    == zeros(BLOCK_SIZE as nat),
        decreases count - j,
    {
        let ghost before = *cache;
        cache.get_new_block(start + j);
        proof {
            assert forall|id: BlockId| start <= id < start + j + 1
                implies #[trigger] cache.dirty(id)
                && cache.entries()[id].data == zeros(BLOCK_SIZE as nat) by {
                if id < start + j {
                    assert(before.dirty(id));
                }
            }
            assert forall|id: BlockId| !alloc.in_region(id)
                implies #[trigger] cache.contains(id) == old(cache).contains(id)
                && (old(cache).contains(id)
                ==> cache.entries()[id] == old(cache).entries()[id]) by {
                assert(before.contains(id) == old(cache).contains(id));
            }
            assert forall|id: BlockId| #[trigger] old(cache).contains(id)
                implies cache.contains(id) && (
            old(cache).entries()[id].dirty ==> cache.entries()[id].dirty) by {
                assert(before.contains(id));
            }
        }
        j += 1;
    }
    proof {
        assert forall|k: int| 0 <= k < count
            implies #[trigger] cache.logical((start + k) as BlockId)
            == set![empty[k]] by {
            assert(cache.dirty((start + k) as BlockId));
        }
        lemma_region_covers(alloc);
        lemma_empty_bitmap(count as nat, 0);
        assert(alloc.reads_as(cache, empty));
        assert(blocks.take(0) =~= Seq::<BlockId>::empty());
    }
    let ghost mut images = empty;
    let mut i: BlockId = 0;
    while i <= count
        invariant
            i <= count + 1,
            start == alloc.start(),
            count == alloc.count(),
            start >= 1,
            start + count <= alloc.total(),
            alloc.wf(),
            cache.wf(),
            cache.device() == old(cache).device(),
            cache.keeps(old(cache)),
            alloc.same_outside(old(cache), cache),
            blocks == reserved_blocks(start, count as nat),
            images == marked(empty_bitmap(count as nat), blocks.take(i as int)),
            alloc.reads_as(cache, images),
            forall|id: BlockId| start <= id < start + count ==> #[trigger] cache.dirty(id),
        decreases count + 1 - i,
    {
        let id: BlockId = if i == 0 {
            0
        } else {
            start + (i - 1)
        };
        let ghost before = *cache;
        proof {
            assert(id == blocks[i as int]);
            assert(id / BLOCKS_PER_BITMAP_BLOCK < count) by {
                lemma_region_covers(alloc);
            }
            assert(before.dirty(alloc.block_of(id)));
        }
        let r = alloc.reserve_block(cache, id);
        proof {
            assert(r is Ok);
            assert(blocks.take(i + 1).drop_last() =~= blocks.take(i as int));
            assert(blocks.take(i + 1).last() == id);
            images = with_allocated(images, id as int);
            assert forall|id: BlockId| start <= id < start + count
                implies #[trigger] cache.dirty(id) by {
                assert(before.dirty(id));
            }
            assert forall|other: BlockId| !alloc.in_region(other)
                implies #[trigger] cache.contains(other)
                == old(cache).contains(other) && (old(cache).contains(other)
                    ==> cache.entries()[other]
                == old(cache).entries()[other]) by {
                assert(before.contains(other) == old(cache).contains(other));
            }
            assert forall|other: BlockId| #[trigger] old(cache).contains(other)
                implies cache.contains(
                other,
            ) && (old(cache).entries()[other].dirty ==> cache.entries()[other].dirty) by {
                assert(before.contains(other));
            }
        }
        i += 1;
    }
    proof {
        assert(blocks.take(count + 1) =~= blocks);
    }
}

/// Puts a superblock into block 0 of the cache, writes block 0 to the
/// device and flushes the device. No other block of the device changes.
/// Succeeds on a reliable device that has a block 0.
fn commit_superblock<D: BlockDevice>(cache: &mut BlockCache<D>, sb: &Superblock) -> (r: Result<
    Superblock,
    D::Error,
>)
    requires
        old(cache).wf(),
    ensures
        final(cache).wf(),
        final(cache).device().capacity() == old(cache).device().capacity(),
        forall|id: BlockId|
            id != 0 ==> #[trigger] final(cache).device().candidates(id) == old(cache).device().candidates(
                id,
            ),
        final(cache).device().candidates(0).subset_of(
            old(cache).device().candidates(0).insert(superblock_image(*sb)),
        ),
        final(cache).contains(0),
        final(cache).entries()[0].data == superblock_image(*sb),
        final(cache).entries() == old(cache).entries().insert(0, final(cache).entries()[0]),
        r is Ok ==> final(cache).device().candidates(0) == set![superblock_image(*sb)]
            && !final(cache).entries()[0].dirty
            && r->Ok_0 == superblock_sealed(*sb),
        old(cache).device().reliable() && 0 < old(cache).device().capacity() ==> r is Ok,
        old(cache).device().reliable() ==> final(cache).device().reliable(),
        old(cache).device().readable() ==> final(cache).device().readable(),
        r is Ok ==> final(cache).device().flushes() == old(cache).device().flushes() + 1,
        final(cache).device().flushes() >= old(cache).device().flushes(),
        r is Ok ==> final(cache).device().unflushed() == Set::<BlockId>::empty(),
        final(cache).device().unflushed().subset_of(old(cache).device().unflushed().insert(0)),
{
    let bytes: Vec<u8> = sb.encode();
    let checksum: u32 = read_u32(bytes.as_slice(), SB_CHECKSUM_OFFSET);
    proof {
        lemma_superblock_image(*sb);
    }
    cache.get_new_block(0);
    cache.write_at(0, 0, bytes.as_slice());
    proof {
        assert(overwrite(zeros(BLOCK_SIZE as nat), 0, bytes@) =~= bytes@);
        assert(cache.entries() =~= old(cache).entries().insert(
            0,
            CachedImage { data: superblock_image(*sb), dirty: true },
        ));
    }
    let ghost mid = *cache;
    match cache.flush_block(0) {
        Ok(_) => {},
        Err(e) => {
            proof {
                assert(cache.entries() =~= old(cache).entries().insert(0, cache.entries()[0]));
            }
            return Err(e);
        },
    }
    proof {
        assert(cache.entries() =~= old(cache).entries().insert(0, cache.entries()[0]));
    }
    match cache.flush_device() {
        Ok(_) => Ok(
            Superblock {
                magic: sb.magic,
                version: sb.version,
                total_blocks: sb.total_blocks,
                metadata_root_id: sb.metadata_root_id,
                bitmap_start_id: sb.bitmap_start_id,
                timestamp: sb.timestamp,
                checksum,
            },
        ),
        Err(e) => Err(e),
    }
}

/// Whether a bitmap marks what a volume with superblock `sb` on a device
/// of `capacity` blocks must have marked: block 0, the bitmap's own blocks
/// and the metadata root.
pub open spec fn bitmap_fits(sb: Superblock, capacity: BlockId, images: Seq<Seq<u8>>) -> bool {
    &&& 0 < capacity ==> allocated(images, 0)
    &&& forall|id: BlockId|
        sb.bitmap_start_id <= id < sb.bitmap_start_id + region_blocks(capacity as int)
            && id < capacity
            ==> #[trigger] allocated(images, id as int)
    &&& sb.metadata_root_id < capacity
    &&& allocated(images, sb.metadata_root_id as int)
}

/// Whether the device may show `images` in the blocks from `start` on.
pub open spec fn may_show<D: BlockDevice>(device: D, start: BlockId, images: Seq<Seq<u8>>) -> bool {
    forall|id: BlockId|
        start <= id < start + images.len() ==> #[trigger] device.candidates(id).contains(
            images[id - start],
        )
}

/// Whether the device may show something that is not a volume: a block 0
/// that is not a superblock, or whose bitmap region does not lie within the
/// device, or a bitmap that does not mark what it must.
pub open spec fn may_show_no_volume<D: BlockDevice>(device: D) -> bool {
    exists|image: Seq<u8>| #[trigger]
        device.candidates(0).contains(image) && (!superblock_ok(image) || superblock_of(
            image,
        ).bitmap_start_id + region_blocks(device.capacity() as int) > device.capacity() || exists|
            images: Seq<Seq<u8>>,
        |
            images.len() == region_blocks(device.capacity() as int) && #[trigger] may_show(
                device,
                superblock_of(image).bitmap_start_id,
                images,
            ) && !bitmap_fits(superblock_of(image), device.capacity(), images))
}

/// Whether a volume with superblock `sb` on a device of `capacity` blocks
/// must have block `x` marked: block 0, a bitmap block, or the metadata root.
pub open spec fn must_mark(sb: Superblock, capacity: BlockId, x: BlockId) -> bool {
    x == 0 || sb.bitmap_start_id <= x < sb.bitmap_start_id + region_blocks(capacity as int) || x
        == sb.metadata_root_id
}

/// The bitmap block that holds the bit of block `x`, for a bitmap that
/// starts at `start`.
pub open spec fn bitmap_block_of(start: BlockId, x: BlockId) -> BlockId {
    (start + x / BLOCKS_PER_BITMAP_BLOCK) as BlockId
}

/// Whether the device shows a volume whatever it shows: every block 0 that
/// it may show is a superblock whose bitmap region and root lie within the
/// device, and every image that it may show in a bitmap block marks what
/// such a superblock's volume must have marked there.
pub open spec fn holds_volume<D: BlockDevice>(device: D) -> bool {
    forall|image: Seq<u8>| #[trigger]
        device.candidates(0).contains(image) ==> {
            let sb = superblock_of(image);
            &&& superblock_ok(image)
            &&& sb.bitmap_start_id + region_blocks(device.capacity() as int) <= device.capacity()
            &&& sb.metadata_root_id < device.capacity()
            &&& forall|x: BlockId, block: Seq<u8>|
                x < device.capacity() && must_mark(sb, device.capacity(), x)
                    && #[trigger] device.candidates(
                    bitmap_block_of(sb.bitmap_start_id, x),
                ).contains(block) ==> block_bit(block, (x % BLOCKS_PER_BITMAP_BLOCK) as int)
        }
}

/// A device that shows a volume whatever it shows, shows nothing that
/// mounting would refuse.
pub proof fn lemma_volume_mounts<D: BlockDevice>(device: D)
    requires
        holds_volume(device),
    ensures
        !may_show_no_volume(device),
{
    let capacity = device.capacity();
    let count = region_blocks(capacity as int);
    assert forall|image: Seq<u8>| #[trigger] device.candidates(0).contains(image) implies !(
    !superblock_ok(image) || superblock_of(image).bitmap_start_id + region_blocks(
        device.capacity() as int,
    ) > device.capacity() || exists|images: Seq<Seq<u8>>|
        images.len() == region_blocks(device.capacity() as int) && #[trigger] may_show(
            device,
            superblock_of(image).bitmap_start_id,
            images,
        ) && !bitmap_fits(superblock_of(image), device.capacity(), images)) by {
        let sb = superblock_of(image);
        let start = sb.bitmap_start_id;
        assert forall|images: Seq<Seq<u8>>|
            images.len() == count && #[trigger] may_show(device, start, images) implies bitmap_fits(
            sb,
            capacity,
            images,
        ) by {
            assert forall|x: BlockId| x < capacity && must_mark(sb, capacity, x) implies allocated(
                images,
                x as int,
            ) by {
                let id = bitmap_block_of(start, x);
                assert(x / BLOCKS_PER_BITMAP_BLOCK < count);
                assert(start <= id < start + images.len());
                assert(device.candidates(id).contains(images[id - start]));
                assert(device.candidates(bitmap_block_of(start, x)).contains(
                    images[x as int / (BLOCKS_PER_BITMAP_BLOCK as int)],
                ));
            }
            if 0 < capacity {
                assert(must_mark(sb, capacity, 0));
            }
            assert forall|id: BlockId| start <= id < start + count && id < capacity
                implies #[trigger] allocated(images, id as int) by {
                assert(must_mark(sb, capacity, id));
            }
            assert(must_mark(sb, capacity, sb.metadata_root_id));
        }
    }
}

/// A mounted volume.
pub struct SadakFs<D: BlockDevice> {
    cache: BlockCache<D>,
    allocator: Allocator,
    metadata_tree: BTree,
    superblock: Superblock,
    pending: Vec<BlockId>,
    committed: Ghost<Seq<Seq<u8>>>,
}

impl<D: BlockDevice> SadakFs<D> {
    /// The cache, and the device under it.
    pub closed spec fn cache(&self) -> BlockCache<D> {
        self.cache
    }

    /// The allocator.
    pub closed spec fn allocator(&self) -> Allocator {
        self.allocator
    }

    /// The root of the metadata tree as it is in memory.
    pub closed spec fn root(&self) -> BlockId {
        self.metadata_tree.root()
    }

    /// The superblock of the last commit.
    pub closed spec fn live_superblock(&self) -> Superblock {
        self.superblock
    }

    /// The blocks that the tree has stopped using since the last commit.
    pub closed spec fn pending(&self) -> Seq<BlockId> {
        self.pending@
    }

    /// The bitmap as it was when the last commit was complete.
    pub closed spec fn committed(&self) -> Seq<Seq<u8>> {
        self.committed@
    }

    /// Whether the metadata tree in memory is a search tree whose nodes,
    /// the root aside, have entries, and the blocks that wait to be freed
    /// are node blocks that the tree does not use.
    pub open spec fn tree_valid(&self) -> bool {
        &&& tree_ok(&self.allocator(), &self.cache(), self.root())
        &&& tree_full(&self.cache(), self.root())
        &&& forall|i: int|
            0 <= i < self.pending().len() ==> node_block(
                &self.allocator(),
                &self.cache(),
                #[trigger] self.pending()[i],
            ) && !in_tree(&self.cache(), self.root(), self.pending()[i])
    }

    /// The block that the metadata tree in memory binds `key` to.
    pub open spec fn binding(&self, key: u64) -> Option<u64> {
        tree_get(&self.cache(), self.root(), key)
    }

    /// The bitmap as it is in the cache.
    pub open spec fn bitmap(&self) -> Seq<Seq<u8>> {
        self.allocator().bitmap(&self.cache())
    }

    /// The block that the next allocation takes, if one is free.
    pub open spec fn first_block(&self) -> Option<int> {
        first_free(self.bitmap(), self.allocator().total() as int)
    }

    /// The block that the allocation after the next takes, if two are free.
    pub open spec fn second_block(&self) -> Option<int> {
        first_free(
            with_allocated(self.bitmap(), self.first_block()->Some_0),
            self.allocator().total() as int,
        )
    }

    /// Whether block `id` belongs to the state of the last commit: it was
    /// allocated then, and is neither block 0 nor a bitmap block.
    pub open spec fn protected(&self, id: BlockId) -> bool {
        &&& id != 0
        &&& id < self.allocator().total()
        &&& !self.allocator().in_region(id)
        &&& allocated(self.committed(), id as int)
    }

    /// The volume's consistency.
    ///
    /// The bitmap region lies within the device, is cached whole and marks
    /// the reserved blocks. Nothing beyond the device waits in the cache.
    /// Every block that was allocated at the last commit is allocated
    /// still, and no such block has a changed image waiting in the cache:
    /// what is dirty is block 0, a bitmap block, or a block that was free at
    /// the last commit.
    pub open spec fn wf(&self) -> bool {
        &&& self.cache().wf()
        &&& self.allocator().wf()
        &&& self.allocator().total() == self.cache().device().capacity()
        &&& self.allocator().start() >= 1
        &&& self.allocator().start() + self.allocator().count() <= self.allocator().total()
        &&& forall|id: BlockId| self.allocator().in_region(id)
            ==> #[trigger] self.cache().contains(id)
        &&& forall|id: BlockId| #[trigger] self.cache().dirty(id) ==> id < self.allocator().total()
        &&& self.allocator().reserves(self.bitmap())
        &&& self.committed().len() == self.allocator().count()
        &&& is_bitmap(self.committed())
        &&& forall|id: BlockId|
            id < self.allocator().total() && #[trigger] allocated(self.committed(), id as int)
                ==> allocated(self.bitmap(), id as int)
        &&& forall|id: BlockId| #[trigger] self.cache().dirty(id) ==> !self.protected(id)
    }

    /// Whether the volume and its device are in step: the device shows a
    /// volume whatever it shows, every block 0 that it may show is the
    /// superblock of the last commit, whose root was allocated then, and
    /// every bitmap block that is clean in the cache is on the device as it
    /// is cached, with nothing else to show.
    pub open spec fn in_step(&self) -> bool {
        let device = self.cache().device();
        &&& self.wf()
        &&& holds_volume(device)
        &&& forall|image: Seq<u8>| #[trigger]
            device.candidates(0).contains(image) ==> superblock_of(image) == self.live_superblock()
        &&& self.live_superblock().magic == SADAK_MAGIC
        &&& self.live_superblock().bitmap_start_id == self.allocator().start()
        &&& self.live_superblock().metadata_root_id < self.allocator().total()
        &&& allocated(self.committed(), self.live_superblock().metadata_root_id as int)
        &&& forall|id: BlockId|
            self.allocator().in_region(id) && !self.cache().dirty(id)
                ==> #[trigger] device.candidates(id) == set![self.cache().entries()[id].data]
    }

    /// The bit of a block in the bitmap is its bit in the cached image of
    /// the bitmap block that holds it.
    proof fn lemma_bitmap_block(&self, x: BlockId)
        requires
            self.wf(),
            x < self.allocator().total(),
        ensures
            self.allocator().in_region(bitmap_block_of(self.allocator().start(), x)),
            self.cache().contains(bitmap_block_of(self.allocator().start(), x)),
            allocated(self.bitmap(), x as int) == block_bit(
                self.cache().entries()[bitmap_block_of(self.allocator().start(), x)].data,
                (x % BLOCKS_PER_BITMAP_BLOCK) as int,
            ),
    {
        let id = bitmap_block_of(self.allocator().start(), x);
        lemma_region_covers(&self.allocator());
        assert(self.allocator().in_region(id));
        assert(self.cache().contains(id));
        self.cache().lemma_cached_settled(id);
        let j = x as int / (BLOCKS_PER_BITMAP_BLOCK as int);
        assert(self.bitmap()[j] == self.cache().image((self.allocator().start() + j) as BlockId));
    }

    /// On a consistent volume the bitmap can be relied on.
    pub proof fn lemma_sound(&self)
        requires
            self.wf(),
        ensures
            self.allocator().sound(&self.cache()),
            is_bitmap(self.bitmap()),
            self.bitmap().len() == self.allocator().count(),
    {
        let alloc = self.allocator();
        let cache = self.cache();
        assert forall|j: int| 0 <= j < alloc.count() implies #[trigger] cache.settled(
            (alloc.start() + j) as BlockId,
        ) && cache.image((alloc.start() + j) as BlockId).len() == BLOCK_SIZE by {
            let id = (alloc.start() + j) as BlockId;
            assert(alloc.in_region(id));
            assert(cache.contains(id));
            cache.lemma_cached_settled(id);
            cache.lemma_entry_len(id);
        }
        assert forall|j: int| 0 <= j < self.bitmap().len()
            implies (#[trigger] self.bitmap()[j]).len()
            == BLOCK_SIZE by {
            assert(cache.settled((alloc.start() + j) as BlockId));
        }
    }

    /// The superblock of the last commit.
    pub fn superblock(&self) -> (sb: Superblock)
        ensures
            sb == self.live_superblock(),
    {
        self.superblock
    }

    /// The root of the metadata tree as it is in memory: the root that the
    /// next commit will publish.
    pub fn metadata_root(&self) -> (id: BlockId)
        ensures
            id == self.root(),
    {
        self.metadata_tree.root_id()
    }

    /// Gives the device back, consistent if the volume was. What the cache
    /// held and the device had not been given is lost.
    pub fn into_device(self) -> (device: D)
        ensures
            device == self.cache().device(),
            self.wf() ==> device.wf(),
    {
        self.cache.into_device()
    }

    /// Whether a volume is what formatting a device of `total` blocks
    /// leaves: the initial superblock in memory and as the only candidate
    /// of block 0, an empty leaf as the only candidate of the root block,
    /// the bitmap with the reserved blocks and the root marked as the only
    /// candidates of the bitmap blocks, and nothing waiting in the cache.
    pub open spec fn formatted(&self, total: BlockId) -> bool {
        let sb = initial_superblock(total);
        let root = sb.metadata_root_id;
        let count = region_blocks(total as int) as nat;
        let images = with_allocated(reserved_bitmap(1, count), root as int);
        &&& self.wf()
        &&& self.cache().device().capacity() == total
        &&& self.live_superblock() == superblock_sealed(sb)
        &&& self.root() == root
        &&& self.pending().len() == 0
        &&& self.allocator().start() == 1
        &&& self.bitmap() == images
        &&& self.committed() == images
        &&& forall|id: BlockId| !(#[trigger] self.cache().dirty(id))
        &&& self.tree_valid()
        &&& root_level(&self.cache(), root) == 0
        &&& forall|key: u64| #[trigger] self.binding(key) is None
        &&& self.cache().device().candidates(0) == set![superblock_image(sb)]
        &&& self.cache().device().candidates(root) == set![
            node_image(header_for(0, 0, root), Seq::<(u64, u64)>::empty()),
        ]
        &&& forall|j: int|
            0 <= j < count ==> #[trigger] self.cache().device().candidates((1 + j) as BlockId)
                == set![images[j]]
    }

    /// Formats the device and returns the volume mounted.
    ///
    /// The bitmap is put at block 1, with block 0 and the bitmap's own
    /// blocks marked allocated; the metadata tree's root, an empty leaf, goes
    /// into the first free block. Everything but block 0 is written and
    /// flushed first, block 0 last.
    ///
    /// Fails with `Allocator(OutOfSpace)` when the device has no room for
    /// the bitmap and the root, and with `Device` when the device fails,
    /// which a reliable device does not.
    pub fn format(device: D) -> (r: Result<Self, SadakFsError<D>>)
        requires
            device.wf(),
        ensures
            match r {
                Ok(fs) => fs.formatted(device.capacity()) && (forall|id: BlockId|
                    id > 1 + region_blocks(device.capacity() as int)
                        ==> #[trigger] fs.cache().device().candidates(
                        id,
                    ) == device.candidates(id))
                        && fs.cache().device().flushes() == device.flushes() + 2
                            && fs.cache().device().unflushed() == Set::<BlockId>::empty()
                    && (device.reliable() ==> fs.cache().device().reliable()) && (device.readable()
                    ==> fs.cache().device().readable()),
                Err(SadakFsError::Allocator(e)) => e is OutOfSpace && device.capacity() < 2
                    + region_blocks(device.capacity() as int),
                Err(SadakFsError::Device(_)) => device.capacity() >= 2 + region_blocks(
                    device.capacity() as int,
                ) && !device.reliable(),
                Err(_) => false,
            },
    {
        let out = Self::lay_out(device);
        out.0
    }

    /// Does what `format` does, and tells what the device holds in the end,
    /// whether the volume could be written or not: block 0 has changed only
    /// if the bitmap and the root were written and the device then
    /// acknowledged a flush, so that nothing but block 0 is unflushed, and no
    /// block behind the root has changed.
    #[verifier::rlimit(40)]
    fn lay_out(device: D) -> (out: (Result<Self, SadakFsError<D>>, Ghost<D>))
        requires
            device.wf(),
        ensures
            match out.0 {
                Ok(fs) => fs.formatted(device.capacity()) && fs.cache().device() == out.1@
                    && fs.cache().device().flushes() == device.flushes() + 2
                        && fs.cache().device().unflushed() == Set::<BlockId>::empty(),
                Err(SadakFsError::Allocator(e)) => e is OutOfSpace && device.capacity() < 2
                    + region_blocks(device.capacity() as int),
                Err(SadakFsError::Device(_)) => device.capacity() >= 2 + region_blocks(
                    device.capacity() as int,
                ) && !device.reliable(),
                Err(_) => false,
            },
            out.1@.wf(),
            out.1@.capacity() == device.capacity(),
            device.reliable() ==> out.1@.reliable(),
            device.readable() ==> out.1@.readable(),
            forall|id: BlockId|
                id > 1 + region_blocks(device.capacity() as int)
                    ==> #[trigger] out.1@.candidates(id)
                    == device.candidates(id),
            out.1@.candidates(0).subset_of(
                device.candidates(0).insert(superblock_image(initial_superblock(device.capacity()))),
            ),
            out.1@.candidates(0) != device.candidates(0) ==> {
                let total = device.capacity();
                let count = region_blocks(total as int);
                let root = (1 + count) as BlockId;
                let images = with_allocated(reserved_bitmap(1, count as nat), root as int);
                &&& out.1@.flushes() > device.flushes()
                &&& forall|id: BlockId| #[trigger] out.1@.unflushed().contains(id) ==> id == 0
                &&& out.1@.candidates(root) == set![
                    node_image(header_for(0, 0, root), Seq::<(u64, u64)>::empty()),
                ]
                &&& forall|j: int|
                    0 <= j < count ==> #[trigger] out.1@.candidates((1 + j) as BlockId) == set![
                        images[j],
                    ]
            },
    {
        let mut cache = BlockCache::new(device);
        let total: BlockId = cache.device_ref().total_blocks();
        let allocator = match Allocator::new(&cache, 1) {
            Ok(allocator) => allocator,
            Err(_) => {
                return (Err(SadakFsError::Allocator(AllocatorError::OutOfSpace)),
                    Ghost(cache.device()));
            },
        };
        let count: BlockId = allocator.bitmap_block_count();
        if total < 2 || count > total - 2 {
            return (Err(SadakFsError::Allocator(AllocatorError::OutOfSpace)),
                Ghost(cache.device()));
        }
        let ghost reserved = reserved_bitmap(1, count as nat);
        let ghost c0 = cache;
        prepare_bitmap(&allocator, &mut cache);
        let ghost c1 = cache;
        let ghost root_id = (1 + count) as BlockId;
        proof {
            allocator.lemma_reads_as(&cache, reserved);
            lemma_region_covers(&allocator);
            assert forall|l: int| 0 <= l < count * BLOCKS_PER_BITMAP_BLOCK
                implies allocated(reserved, l) == (
            l == 0 || 1 <= l < 1 + count) by {
                lemma_reserved_bitmap(1, count as nat, l);
            }
            lemma_reserved_bitmap(1, count as nat, 0);
            lemma_first_free_is(reserved, total as int, root_id as int);
            assert(allocator.reserves(reserved)) by {
                assert forall|id: BlockId| allocator.in_region(id) && id < allocator.total()
                    implies #[trigger] allocated(
                    reserved,
                    id as int,
                ) by {}
            }
        }
        let mut fresh: Vec<BlockId> = Vec::new();
        let entries: Vec<(u64, u64)> = Vec::new();
        let root: BlockId = match BTree::store_node(&allocator, &mut cache, 0, entries,
            &mut fresh) {
            Ok(root) => root,
            Err(e) => {
                proof {
                    assert forall|id: BlockId| allocator.in_region(id) implies c1.contains(id) by {
                        assert(c1.dirty(id));
                    }
                }
                return (Err(SadakFsError::from_tree(e)), Ghost(cache.device()));
            },
        };
        let ghost c2 = cache;
        let ghost images = with_allocated(reserved, root as int);
        let ghost leaf = node_image(header_for(0, 0, root), Seq::<(u64, u64)>::empty());
        proof {
            assert(root == root_id);
            assert(seq![root].drop_last() =~= Seq::<BlockId>::empty());
            assert(marked(reserved, seq![root].drop_last()) == reserved);
            assert(seq![root].last() == root);
            assert(marked(reserved, seq![root]) == images);
            assert forall|id: BlockId| allocator.in_region(id)
                implies #[trigger] c2.contains(id) by {
                assert(c1.dirty(id));
            }
            assert(allocator.bitmap(&c2) == images);
            crate::btree::lemma_node_image(header_for(0, 0, root), Seq::<(u64, u64)>::empty());
            lemma_fresh_blocks(&allocator, &c1, &c2, seq![root], 0);
            lemma_empty_tree(&allocator, &c2, root);
        }
        let sb = Superblock {
            magic: SADAK_MAGIC,
            version: SADAK_VERSION,
            total_blocks: total,
            metadata_root_id: root,
            bitmap_start_id: 1,
            timestamp: 0,
            checksum: 0,
        };
        proof {
            assert forall|id: BlockId| #[trigger] c2.dirty(id) && id != 0 implies id
                < c2.device().capacity() by {
                if !allocator.in_region(id) && id != root {
                    assert(!seq![root].contains(id));
                    assert(!c0.contains(id));
                    assert(!c1.contains(id));
                }
            }
        }
        match cache.flush_all() {
            Ok(_) => {},
            Err(e) => {
                proof {
                    cache.lemma_device_wf();
                }
                return (Err(SadakFsError::Device(e)), Ghost(cache.device()));
            },
        }
        let ghost c3 = cache;
        let committed = commit_superblock(&mut cache, &sb);
        proof {
            assert(c2.contains(root) && c2.entries()[root].dirty);
            assert(c2.dirty(root));
            assert(!c3.dirty(root));
            assert(c3.device().candidates(root) == set![leaf]);
            assert forall|j: int| 0 <= j < count implies #[trigger] cache.device().candidates(
                (1 + j) as BlockId,
            ) == set![images[j]] by {
                let id = (1 + j) as BlockId;
                assert(allocator.in_region(id));
                assert(c1.dirty(id));
                assert(c2.contains(id));
                assert(c2.logical(id) == set![images[j]]) by {
                    allocator.lemma_reads_as(&c2, images);
                    assert(c2.settled((allocator.start() + j) as BlockId));
                }
                assert(c2.dirty(id));
                assert(!c3.dirty(id));
                assert(c3.device().candidates(id) == set![c2.entries()[id].data]);
            }
            assert forall|id: BlockId| id > 1 + region_blocks(device.capacity() as int)
                implies #[trigger] cache.device().candidates(
                id,
            ) == device.candidates(id) by {
                assert(!allocator.in_region(id));
                assert(id != root);
                assert(!seq![root].contains(id));
                assert(!c0.contains(id));
                assert(!c1.contains(id));
                if c2.contains(id) {
                    assert(!c2.entries()[id].dirty);
                }
                assert(!c2.dirty(id));
                assert(c3.device().candidates(id) == c2.device().candidates(id));
            }
        }
        let sealed_sb = match committed {
            Ok(sealed_sb) => sealed_sb,
            Err(e) => {
                proof {
                    cache.lemma_device_wf();
                }
                return (Err(SadakFsError::Device(e)), Ghost(cache.device()));
            },
        };
        proof {
            lemma_shows_node(&c2, root, 0, Seq::<(u64, u64)>::empty());
            assert(cache.logical(root) == c2.logical(root)) by {
                c3.lemma_written_back_logical(&c2, root);
                assert(cache.contains(root) == c3.contains(root));
            }
            lemma_superblock_image(sb);
            Self::lemma_flushed_region(&allocator, &c2, &c3, images);
            Self::lemma_committed_region(&allocator, &c3, &cache, images);
            assert forall|id: BlockId| id != 0
                implies #[trigger] cache.logical(id) == c2.logical(id) by {
                c3.lemma_written_back_logical(&c2, id);
            }
            lemma_tree_kept(&allocator, &c2, &cache, root);
            assert forall|id: BlockId| !(#[trigger] cache.dirty(id)) by {
                if id != 0 {
                    assert(!c3.dirty(id));
                    assert(cache.entries() == c3.entries().insert(0, cache.entries()[0]));
                }
            }
            assert(c2.contains(root) && c2.entries()[root].dirty);
            assert(c2.dirty(root));
            assert(!c3.dirty(root));
            assert(c3.device().candidates(root) == set![leaf]);
            assert forall|j: int| 0 <= j < count implies #[trigger] cache.device().candidates(
                (1 + j) as BlockId,
            ) == set![images[j]] by {
                let id = (1 + j) as BlockId;
                assert(allocator.in_region(id));
                assert(c1.dirty(id));
                assert(c2.contains(id));
                assert(c2.logical(id) == set![images[j]]) by {
                    allocator.lemma_reads_as(&c2, images);
                    assert(c2.settled((allocator.start() + j) as BlockId));
                }
                assert(c2.dirty(id));
                assert(!c3.dirty(id));
                assert(c3.device().candidates(id) == set![c2.entries()[id].data]);
            }
            assert forall|id: BlockId| id > 1 + region_blocks(device.capacity() as int)
                implies #[trigger] cache.device().candidates(
                id,
            ) == device.candidates(id) by {
                assert(!allocator.in_region(id));
                assert(id != root);
                assert(!seq![root].contains(id));
                assert(!c0.contains(id));
                assert(!c1.contains(id));
                if c2.contains(id) {
                    assert(!c2.entries()[id].dirty);
                }
                assert(!c2.dirty(id));
                assert(c3.device().candidates(id) == c2.device().candidates(id));
            }
        }
        let ghost last = cache.device();
        proof {
            cache.lemma_device_wf();
        }
        (
            Ok(
                SadakFs {
                    cache,
                    allocator,
                    metadata_tree: BTree::new(root),
                    superblock: sealed_sb,
                    pending: Vec::new(),
                    committed: Ghost(images),
                },
            ),
            Ghost(last),
        )
    }

    /// Whether a volume is what mounting `device` gives: the superblock in
    /// memory is one that block 0 of the device may show and is that of a
    /// volume, the tree's root and the bitmap's place are the superblock's,
    /// the root is marked allocated, nothing is waiting in the cache, and
    /// what is cached is what the device may show.
    pub open spec fn mounted(&self, device: D) -> bool {
        let image = self.cache().entries()[0].data;
        &&& self.wf()
        &&& self.cache().device() == device
        &&& self.cache().contains(0)
        &&& device.candidates(0).contains(image)
        &&& superblock_ok(image)
        &&& self.live_superblock() == superblock_of(image)
        &&& self.root() == self.live_superblock().metadata_root_id
        &&& self.allocator().start() == self.live_superblock().bitmap_start_id
        &&& self.root() < self.allocator().total()
        &&& allocated(self.bitmap(), self.root() as int)
        &&& self.pending().len() == 0
        &&& self.committed() == self.bitmap()
        &&& forall|id: BlockId| !(#[trigger] self.cache().dirty(id))
        &&& forall|id: BlockId| #[trigger]
            self.cache().contains(id) ==> device.candidates(id).contains(
                self.cache().entries()[id].data,
            )
    }

    /// Mounts the volume on `device`.
    ///
    /// Block 0 is read and must be the superblock of a volume: the magic
    /// number and the checksum must match. The bitmap region must lie within
    /// the device; it is read whole, and must mark block 0, its own blocks
    /// and the metadata root as allocated. Fails with `InvalidSuperblock`
    /// where one of these does not hold, and with `Device` when the device
    /// fails, which a readable device with a block 0 does not.
    #[verifier::rlimit(40)]
    pub fn mount(device: D) -> (r: Result<Self, SadakFsError<D>>)
        requires
            device.wf(),
        ensures
            match r {
                Ok(fs) => fs.mounted(device),
                Err(SadakFsError::InvalidSuperblock) => may_show_no_volume(device),
                Err(SadakFsError::Device(_)) => !(device.readable() && 0 < device.capacity()),
                Err(_) => false,
            },
            (forall|image: Seq<u8>| #[trigger]
                device.candidates(0).contains(image) ==> !superblock_ok(image)) ==> r is Err,
            device.readable() && 0 < device.capacity() && !may_show_no_volume(device) ==> r is Ok,
    {
        let mut cache = BlockCache::new(device);
        let ghost c0 = cache;
        let decoded: Option<Superblock> = match cache.get_block(0) {
            Ok(block) => Superblock::decode(block.data()),
            Err(e) => {
                return Err(SadakFsError::Device(e));
            },
        };
        let ghost shown = cache.entries()[0].data;
        let sb: Superblock = match decoded {
            Some(sb) => sb,
            None => {
                proof {
                    assert(device.candidates(0).contains(shown) && !superblock_ok(shown));
                }
                return Err(SadakFsError::InvalidSuperblock);
            },
        };
        let allocator = match Allocator::new(&cache, sb.bitmap_start_id) {
            Ok(allocator) => allocator,
            Err(_) => {
                proof {
                    assert(device.candidates(0).contains(shown)
                        && superblock_of(shown).bitmap_start_id
                        + region_blocks(device.capacity() as int) > u64::MAX);
                }
                return Err(SadakFsError::InvalidSuperblock);
            },
        };
        let start: BlockId = allocator.bitmap_start_id();
        let count: BlockId = allocator.bitmap_block_count();
        let total: BlockId = allocator.total_blocks();
        if start > total || count > total - start {
            proof {
                assert(device.candidates(0).contains(shown) && superblock_of(shown).bitmap_start_id
                    + region_blocks(device.capacity() as int) > device.capacity());
            }
            return Err(SadakFsError::InvalidSuperblock);
        }
        let ghost image = cache.entries()[0].data;
        let mut j: BlockId = 0;
        while j < count
            invariant
                j <= count,
                start + count <= total,
                total == allocator.total(),
                total == device.capacity(),
                c0.device() == device,
                start == allocator.start(),
                count == allocator.count(),
                start >= 1,
                allocator.wf(),
                cache.loaded_from(&c0),
                cache.contains(0),
                cache.entries()[0].data == image,
                forall|id: BlockId| start <= id < start + j ==> #[trigger] cache.contains(id),
            decreases count - j,
        {
            let ghost before = cache;
            match cache.get_block(start + j) {
                Ok(_) => {},
                Err(e) => {
                    return Err(SadakFsError::Device(e));
                },
            }
            proof {
                cache.lemma_loaded_trans(&before, &c0);
                assert forall|id: BlockId| start <= id < start + j + 1
                    implies #[trigger] cache.contains(
                    id,
                ) by {
                    if id < start + j {
                        assert(before.contains(id));
                    }
                }
                assert(before.contains(0));
            }
            j += 1;
        }
        let ghost images = allocator.bitmap(&cache);
        proof {
            Self::lemma_cached_region(&allocator, &cache);
        }
        let mut i: BlockId = 0;
        while i <= count
            invariant
                i <= count + 1,
                start + count <= total,
                start == allocator.start(),
                count == allocator.count(),
                total == allocator.total(),
                start >= 1,
                allocator.wf(),
                cache.loaded_from(&c0),
                cache.contains(0),
                cache.entries()[0].data == image,
                c0.entries() == Map::<BlockId, CachedImage>::empty(),
                c0.device() == device,
                shown == image,
                device.candidates(0).contains(shown),
                superblock_of(shown) == sb,
                total == device.capacity(),
                start == sb.bitmap_start_id,
                images == allocator.bitmap(&cache),
                forall|id: BlockId| allocator.in_region(id) ==> #[trigger] cache.contains(id),
                allocator.reads_as(&cache, images),
                i > 0 && 0 < total ==> allocated(images, 0),
                forall|id: BlockId|
                    start <= id < start + i - 1 && id < total
                        ==> #[trigger] allocated(images, id as int),
            decreases count + 1 - i,
        {
            let id: BlockId = if i == 0 {
                0
            } else {
                start + (i - 1)
            };
            if id < total {
                let ghost before = cache;
                proof {
                    lemma_region_covers(&allocator);
                    assert(allocator.in_region(allocator.block_of(id)));
                    assert(before.contains(allocator.block_of(id)));
                }
                let marked_allocated: bool = match allocator.is_allocated(&mut cache, id) {
                    Ok(marked_allocated) => marked_allocated,
                    Err(e) => {
                        return Err(SadakFsError::Allocator(e));
                    },
                };
                proof {
                    cache.lemma_loaded_trans(&before, &c0);
                    assert(before.contains(0));
                    assert forall|other: BlockId| allocator.in_region(other)
                        implies #[trigger] cache.contains(
                        other,
                    ) by {
                        assert(before.contains(other));
                    }
                    allocator.lemma_reads_as(&cache, images);
                }
                if !marked_allocated {
                    proof {
                        Self::lemma_shown_bitmap(&allocator, &c0, &cache);
                        assert(!allocated(images, id as int));
                        assert(!bitmap_fits(sb, device.capacity(), images));
                        assert(device.candidates(0).contains(shown)
                            && may_show(device, start, images));
                    }
                    return Err(SadakFsError::InvalidSuperblock);
                }
            }
            i += 1;
        }
        let root: BlockId = sb.metadata_root_id;
        let ghost before = cache;
        proof {
            if root < total {
                lemma_region_covers(&allocator);
                assert(allocator.in_region(allocator.block_of(root)));
                assert(before.contains(allocator.block_of(root)));
            }
        }
        let root_allocated: bool = match allocator.is_allocated(&mut cache, root) {
            Ok(root_allocated) => root_allocated,
            Err(e) => {
                return Err(SadakFsError::Allocator(e));
            },
        };
        if !root_allocated {
            proof {
                cache.lemma_loaded_trans(&before, &c0);
                assert forall|other: BlockId| allocator.in_region(other)
                    implies #[trigger] cache.contains(
                    other,
                ) by {
                    assert(before.contains(other));
                }
                allocator.lemma_reads_as(&cache, images);
                Self::lemma_shown_bitmap(&allocator, &c0, &cache);
                assert(!bitmap_fits(sb, device.capacity(), images));
                assert(device.candidates(0).contains(shown) && may_show(device, start, images));
            }
            return Err(SadakFsError::InvalidSuperblock);
        }
        proof {
            cache.lemma_loaded_trans(&before, &c0);
            assert(before.contains(0));
            assert forall|other: BlockId| allocator.in_region(other)
                implies #[trigger] cache.contains(
                other,
            ) by {
                assert(before.contains(other));
            }
            allocator.lemma_reads_as(&cache, images);
            assert forall|id: BlockId| !(#[trigger] cache.dirty(id)) by {
                if cache.contains(id) {
                    assert(!c0.contains(id));
                }
            }
            assert(allocator.reserves(images)) by {
                assert forall|id: BlockId| allocator.in_region(id) && id < allocator.total()
                    implies #[trigger] allocated(
                    images,
                    id as int,
                ) by {}
            }
        }
        Ok(
            SadakFs {
                cache,
                allocator,
                metadata_tree: BTree::new(root),
                superblock: sb,
                pending: Vec::new(),
                committed: Ghost(images),
            },
        )
    }

    /// A bitmap region that was read into an empty cache is one that the
    /// device may show.
    proof fn lemma_shown_bitmap(alloc: &Allocator, empty: &BlockCache<D>, cache: &BlockCache<D>)
        requires
            alloc.wf(),
            cache.loaded_from(empty),
            empty.entries() == Map::<BlockId, CachedImage>::empty(),
            forall|id: BlockId| alloc.in_region(id) ==> #[trigger] cache.contains(id),
        ensures
            may_show(empty.device(), alloc.start(), alloc.bitmap(cache)),
            alloc.bitmap(cache).len() == alloc.count(),
    {
        let images = alloc.bitmap(cache);
        assert forall|id: BlockId| alloc.start() <= id < alloc.start() + images.len()
            implies #[trigger] empty.device().candidates(
            id,
        ).contains(images[id - alloc.start()]) by {
            assert(alloc.in_region(id));
            assert(cache.contains(id));
            assert(!empty.contains(id));
            cache.lemma_cached_settled(id);
            assert((alloc.start() + (id - alloc.start())) as BlockId == id);
        }
    }

    /// A bitmap region that is cached whole reads as its bitmap.
    proof fn lemma_cached_region(alloc: &Allocator, cache: &BlockCache<D>)
        requires
            alloc.wf(),
            cache.wf(),
            forall|id: BlockId| alloc.in_region(id) ==> #[trigger] cache.contains(id),
        ensures
            alloc.settled(cache),
            alloc.reads_as(cache, alloc.bitmap(cache)),
    {
        assert forall|j: int| 0 <= j < alloc.count() implies #[trigger] cache.settled(
            (alloc.start() + j) as BlockId,
        ) && cache.image((alloc.start() + j) as BlockId).len() == BLOCK_SIZE by {
            let id = (alloc.start() + j) as BlockId;
            assert(alloc.in_region(id));
            assert(cache.contains(id));
            cache.lemma_cached_settled(id);
            cache.lemma_entry_len(id);
        }
        alloc.lemma_reads_as(cache, alloc.bitmap(cache));
    }

    /// The inode that `create_file` makes for a file of `file_size` bytes
    /// at time `now`, with its data tree rooted at `data_tree_root`.
    pub open spec fn new_inode(file_size: u64, now: u64, data_tree_root: BlockId) -> Inode {
        Inode {
            file_size,
            block_count: 0,
            creation_time: now,
            modification_time: now,
            file_type: FILE_TYPE_FILE,
            data_tree_root,
            link_count: 1,
            checksum: 0,
        }
    }

    /// A step of the tree keeps a consistent volume consistent.
    proof fn lemma_step_wf(&self, after: &BlockCache<D>, fresh: Seq<BlockId>)
        requires
            self.wf(),
            grown(&self.allocator(), &self.cache(), after, fresh),
        ensures
            self.allocator().sound(after),
            self.allocator().reserves(self.allocator().bitmap(after)),
            self.allocator().bitmap(after) == marked(self.bitmap(), fresh),
            forall|id: BlockId| self.allocator().in_region(id) ==> #[trigger] after.contains(id),
            forall|id: BlockId|
                id < self.allocator().total() && #[trigger] allocated(self.committed(), id as int)
                    ==> allocated(self.allocator().bitmap(after), id as int),
            forall|id: BlockId|
                id < self.allocator().total() && #[trigger] allocated(self.bitmap(), id as int)
                    ==> allocated(self.allocator().bitmap(after), id as int),
            forall|id: BlockId| #[trigger] after.dirty(id) ==> !self.protected(id),
            forall|id: BlockId| #[trigger] after.dirty(id) ==> id < self.allocator().total(),
            forall|id: BlockId|
                self.protected(id) && #[trigger] self.cache().contains(id) ==> after.entries()[id]
                    == self.cache().entries()[id],
    {
        let alloc = self.allocator();
        let before = self.cache();
        self.lemma_sound();
        lemma_region_covers(&alloc);
        lemma_marked(self.bitmap(), fresh);
        assert forall|id: BlockId| #[trigger] after.dirty(id) implies id < alloc.total() by {
            if alloc.in_region(id) {
            } else if fresh.contains(id) {
                let i = choose|i: int| 0 <= i < fresh.len() && fresh[i] == id;
                assert(fresh[i] < alloc.total());
            } else if before.contains(id) {
                assert(after.entries()[id] == before.entries()[id]);
                assert(before.dirty(id));
            }
        }
        assert forall|id: BlockId| alloc.in_region(id) implies #[trigger] after.contains(id) by {
            assert(before.contains(id));
        }
        assert forall|id: BlockId| #[trigger] after.dirty(id) implies !self.protected(id) by {
            if self.protected(id) {
                assert(allocated(self.bitmap(), id as int));
                if fresh.contains(id) {
                    let i = choose|i: int| 0 <= i < fresh.len() && fresh[i] == id;
                    assert(!allocated(self.bitmap(), fresh[i] as int));
                } else {
                    if before.contains(id) {
                        assert(after.entries()[id] == before.entries()[id]);
                        assert(before.dirty(id));
                    }
                }
            }
        }
        assert forall|id: BlockId| self.protected(id) && #[trigger] before.contains(id)
            implies after.entries()[id]
            == before.entries()[id] by {
            assert(allocated(self.bitmap(), id as int));
            if fresh.contains(id) {
                let i = choose|i: int| 0 <= i < fresh.len() && fresh[i] == id;
                assert(!allocated(self.bitmap(), fresh[i] as int));
            }
        }
    }

    /// A step of the tree that leaves the root alone keeps a valid tree
    /// valid, with the bindings it had.
    proof fn lemma_step_tree(&self, after: &BlockCache<D>, fresh: Seq<BlockId>)
        requires
            self.wf(),
            grown(&self.allocator(), &self.cache(), after, fresh),
            self.tree_valid(),
        ensures
            tree_ok(&self.allocator(), after, self.root()),
            tree_full(after, self.root()),
            root_level(after, self.root()) == root_level(&self.cache(), self.root()),
            forall|key: u64| #[trigger] tree_get(after, self.root(), key) == self.binding(key),
            forall|i: int|
                0 <= i < self.pending().len() ==> node_block(
                    &self.allocator(),
                    after,
                    #[trigger] self.pending()[i],
                ) && !in_tree(after, self.root(), self.pending()[i])
                    && !fresh.contains(self.pending()[i]),
    {
        let alloc = self.allocator();
        let before = self.cache();
        self.lemma_sound();
        lemma_tree_frame(&alloc, &before, after, fresh, self.root());
        lemma_tree_blocks_frame(&alloc, &before, after, fresh, self.root());
        assert forall|i: int| 0 <= i < self.pending().len() implies node_block(
            &alloc,
            after,
            #[trigger] self.pending()[i],
        ) && !in_tree(after, self.root(), self.pending()[i])
            && !fresh.contains(self.pending()[i]) by {
            lemma_node_block_kept(&alloc, &before, after, fresh, self.pending()[i]);
            assert(!in_tree(&before, self.root(), self.pending()[i]));
        }
    }

    /// After an insertion, the blocks that waited to be freed and the
    /// blocks that the insertion left are node blocks that the new tree does
    /// not use.
    proof fn lemma_tree_grown(
        alloc: &Allocator,
        before: &BlockCache<D>,
        after: &BlockCache<D>,
        old_root: BlockId,
        root: BlockId,
        pending: Seq<BlockId>,
        taken: Seq<BlockId>,
        left: Seq<BlockId>,
    )
        requires
            alloc.wf(),
            alloc.sound(before),
            grown(alloc, before, after, taken),
            tree_ok(alloc, before, old_root),
            tree_full(before, old_root),
            tree_replaced(before, after, old_root, root, taken, left),
            forall|i: int|
                0 <= i < pending.len() ==> node_block(alloc, before, #[trigger] pending[i])
                    && !in_tree(
                    before,
                    old_root,
                    pending[i],
                ),
        ensures
            forall|i: int|
                0 <= i < (pending + left).len()
                    ==> node_block(alloc, after, #[trigger] (pending + left)[i])
                    && !in_tree(after, root, (pending + left)[i]),
    {
        let all = pending + left;
        assert forall|i: int| 0 <= i < all.len() implies node_block(alloc, after, #[trigger] all[i])
            && !in_tree(after, root, all[i]) by {
            let x = all[i];
            if i < pending.len() {
                assert(x == pending[i]);
            } else {
                assert(x == left[i - pending.len()]);
                assert(in_tree(before, old_root, x));
                lemma_in_tree(alloc, before, old_root, x);
            }
            lemma_node_block_kept(alloc, before, after, taken, x);
            if in_tree(after, root, x) {
                assert(taken.contains(x) || (in_tree(before, old_root, x) && !left.contains(x)));
                if i >= pending.len() {
                    assert(left[i - pending.len()] == x);
                }
            }
        }
    }

    /// Whether `create_file` is owed success: the metadata tree is valid
    /// and its root is not at the highest level, no block of the volume is
    /// out of hand, and as many blocks are free as the inode, the data tree's
    /// root and the insertion into the metadata tree can take.
    pub open spec fn create_owed(&self) -> bool {
        &&& self.tree_valid()
        &&& root_level(&self.cache(), self.root()) < u8::MAX
        &&& forall|x: BlockId|
            x < self.allocator().total() ==> !(#[trigger] out_of_hand(&self.cache(), x))
        &&& allocated_count(self.bitmap(), self.allocator().total() as int) + 2 * root_level(
            &self.cache(),
            self.root(),
        ) + 5 <= self.allocator().total()
    }

    /// Does what `create_file` does, and leaves in `fresh` the blocks that
    /// it has taken, whether it succeeds or not.
    #[verifier::rlimit(40)]
    fn try_create(&mut self, file_size: u64, now: u64, fresh: &mut Vec<BlockId>) -> (r: Result<
        Inode,
        SadakFsError<D>,
    >)
        requires
            old(self).wf(),
            old(fresh)@.len() == 0,
        ensures
            grown(
                &old(self).allocator(),
                &old(self).cache(),
                &final(self).cache(),
                final(fresh)@,
            ),
            final(self).wf(),
            final(self).cache().device() == old(self).cache().device(),
            final(self).allocator() == old(self).allocator(),
            final(self).live_superblock() == old(self).live_superblock(),
            final(self).committed() == old(self).committed(),
            forall|id: BlockId|
                old(self).protected(id) && #[trigger] old(self).cache().contains(id)
                    ==> final(self).cache().entries()[id] == old(self).cache().entries()[id],
            forall|id: BlockId|
                id < old(self).allocator().total()
                    && #[trigger] allocated(old(self).bitmap(), id as int)
                    ==> allocated(final(self).bitmap(), id as int),
            match r {
                Ok(inode) => {
                    let first = old(self).first_block();
                    let second = old(self).second_block();
                    &&& first is Some
                    &&& second is Some
                    &&& inode == inode_sealed(
                        Self::new_inode(file_size, now, second->Some_0 as BlockId),
                    )
                    &&& final(self).cache().contains(first->Some_0 as BlockId)
                    &&& final(self).cache().entries()[first->Some_0 as BlockId] == (CachedImage {
                        data: inode_image(
                            Self::new_inode(file_size, now, second->Some_0 as BlockId),
                        ),
                        dirty: true,
                    })
                    &&& holds_node(
                        &final(self).cache(),
                        second->Some_0 as BlockId,
                        0,
                        Seq::<(u64, u64)>::empty(),
                    )
                    &&& BTree::root_in(&final(self).cache(), final(self).root())
                    &&& old(self).pending().is_prefix_of(final(self).pending())
                },
                Err(e) => {
                    &&& final(self).root() == old(self).root()
                    &&& final(self).pending() == old(self).pending()
                    &&& !(e is Syscall)
                    &&& !(e is InvalidSuperblock)
                    &&& e is Allocator ==> e->Allocator_0 is OutOfSpace
                },
            },
            old(self).first_block() is None || old(self).second_block() is None ==> r is Err
                && r->Err_0 is Allocator,
            r is Err && r->Err_0 is Allocator ==> first_free(
                marked(old(self).bitmap(), final(fresh)@),
                old(self).allocator().total() as int,
            ) is None,
            old(self).tree_valid() ==> final(fresh)@.len() <= 2 * root_level(
                &old(self).cache(),
                old(self).root(),
            ) + 5 && (r is Err && r->Err_0 is Device ==> exists|x: BlockId|
                x < old(self).allocator().total() && out_of_hand(&old(self).cache(), x)),
            old(self).create_owed() ==> r is Ok,
            r is Ok ==> final(self).pending().len() > 0
                && final(self).pending().last() == old(self).root(),
            old(self).tree_valid() ==> final(self).tree_valid() && match r {
                Ok(_) => forall|other: u64| #[trigger]
                    final(self).binding(other) == bound(
                        old(self).binding(other),
                        old(self).first_block()->Some_0 as u64,
                        old(self).first_block()->Some_0 as u64,
                        other,
                    ),
                Err(e) => {
                    &&& forall|other: u64| #[trigger]
                        final(self).binding(other) == old(self).binding(other)
                    &&& !(e is ChecksumError)
                    &&& e is InvalidNode ==> root_level(&old(self).cache(), old(self).root())
                        == u8::MAX
                },
            },
    {
        let ghost c0 = self.cache;
        let ghost fine = self.tree_valid();
        let ghost root0 = self.metadata_tree.root();
        let ghost b0 = self.allocator.bitmap(&self.cache);
        let ghost none = Seq::<BlockId>::empty();
        proof {
            self.lemma_sound();
        }
        let mut stale: Vec<BlockId> = Vec::new();
        let ino: BlockId = match claim_block(&self.allocator, &mut self.cache, fresh) {
            Ok(ino) => ino,
            Err(e) => {
                proof {
                    old(self).lemma_step_wf(&self.cache, none);
                    assert(marked(b0, none) == b0);
                    if e is DeviceError {
                        let id = choose|id: BlockId| self.allocator.in_region(id)
                            && !c0.contains(id);
                        assert(c0.contains(id));
                    }
                    if fine {
                        old(self).lemma_step_tree(&self.cache, none);
                    }
                    assert(fresh@ =~= none);
                    lemma_full_count(b0, self.allocator.total() as int);
                }
                return Err(SadakFsError::Allocator(e));
            },
        };
        let ghost c1 = self.cache;
        let ghost f1 = fresh@;
        proof {
            assert(f1 =~= seq![ino]);
            old(self).lemma_step_wf(&c1, f1);
            assert(f1.drop_last() =~= none);
            assert(marked(b0, f1.drop_last()) == b0);
            assert(f1.last() == ino);
            assert(self.allocator.bitmap(&c1) == with_allocated(b0, ino as int));
        }
        let entries: Vec<(u64, u64)> = Vec::new();
        let data_root: BlockId = match BTree::store_node(
            &self.allocator,
            &mut self.cache,
            0,
            entries,
            fresh,
        ) {
            Ok(data_root) => data_root,
            Err(e) => {
                proof {
                    lemma_grown_trans(&self.allocator, &c0, &c1, &self.cache, f1, none);
                    assert(f1 + none =~= f1);
                    old(self).lemma_step_wf(&self.cache, f1);
                    lemma_marked(b0, f1);
                    if e->Allocator_0 is DeviceError {
                        let id = choose|id: BlockId| self.allocator.in_region(id)
                            && !c1.contains(id);
                        assert(c1.contains(id));
                    }
                    if fine {
                        old(self).lemma_step_tree(&self.cache, f1);
                    }
                    assert(fresh@ == f1);
                    assert(self.allocator.sound(&c1));
                    lemma_room_used(&self.allocator, &c0, &self.cache, f1);
                }
                return Err(SadakFsError::from_tree(e));
            },
        };
        let ghost c2 = self.cache;
        let ghost f2 = fresh@;
        proof {
            lemma_grown_trans(&self.allocator, &c0, &c1, &c2, f1, seq![data_root]);
            assert(f1 + seq![data_root] =~= f2);
            assert(f2[0] == ino && f2[1] == data_root);
            assert(ino != data_root);
            assert(!self.allocator.in_region(ino));
            assert(c2.contains(ino));
            assert(!seq![data_root].contains(ino));
            assert(c2.entries()[ino] == c1.entries()[ino]);
            assert(old(self).second_block() is Some) by {
                assert(old(self).first_block() == Some(ino as int));
                assert(self.allocator.sound(&c1));
            }
        }
        let inode = Inode {
            file_size,
            block_count: 0,
            creation_time: now,
            modification_time: now,
            file_type: FILE_TYPE_FILE,
            data_tree_root: data_root,
            link_count: 1,
            checksum: 0,
        };
        let bytes: Vec<u8> = inode.encode();
        let checksum: u32 = read_u32(bytes.as_slice(), INODE_CHECKSUM_OFFSET);
        self.cache.write_at(ino, 0, bytes.as_slice());
        let ghost c3 = self.cache;
        proof {
            lemma_inode_image(inode);
            assert(overwrite(zeros(BLOCK_SIZE as nat), 0, bytes@) =~= bytes@);
            assert(c3.entries() =~= c2.entries().insert(ino, c3.entries()[ino]));
            lemma_grown_rewrite(&self.allocator, &c0, &c2, &c3, f2, ino);
            old(self).lemma_step_wf(&c3, f2);
            if fine {
                old(self).lemma_step_tree(&c3, f2);
            }
            if old(self).create_owed() {
                lemma_region_covers(&self.allocator);
                lemma_marked_count(b0, f2, self.allocator.total() as int);
                assert forall|x: BlockId|
                    (x < self.allocator.total() || self.allocator.in_region(x)) implies !(
                #[trigger] out_of_hand(&c3, x)) by {
                    if self.allocator.in_region(x) {
                        assert(c0.contains(x));
                    } else {
                        assert(!out_of_hand(&c0, x));
                        if c0.contains(x) {
                            assert(c3.contains(x));
                        }
                    }
                }
                assert(BTree::insert_owed(&self.allocator, &c3, root0));
            }
        }
        let new_root = match self.metadata_tree.insert(
            &self.allocator,
            &mut self.cache,
            ino,
            ino,
            fresh,
            &mut stale,
        ) {
            Ok(new_root) => new_root,
            Err(e) => {
                proof {
                    lemma_grown_trans(&self.allocator, &c0, &c3, &self.cache, f2, fresh@.skip(2));
                    assert(f2 + fresh@.skip(2) =~= fresh@);
                    old(self).lemma_step_wf(&self.cache, fresh@);
                    if e is Allocator && e->Allocator_0 is DeviceError {
                        let id = choose|id: BlockId| self.allocator.in_region(id)
                            && !c3.contains(id);
                        assert(c3.contains(id));
                    }
                    if fine {
                        old(self).lemma_step_tree(&self.cache, fresh@);
                        assert forall|other: u64| #[trigger] self.binding(other) == old(self).binding(other) by {
                            assert(tree_get(&self.cache, root0, other) == tree_get(&c0, root0,
                                other));
                        }
                        if e is Device {
                            let x = choose|x: BlockId|
                                x < self.allocator.total() && out_of_hand(&c3, x);
                            if c0.contains(x) {
                                assert(c3.contains(x));
                            }
                            assert(x < self.allocator.total() && out_of_hand(&c0, x));
                        }
                    }
                }
                return Err(SadakFsError::from_tree(e));
            },
        };
        proof {
            let c4 = self.cache;
            lemma_grown_trans(&self.allocator, &c0, &c3, &c4, f2, fresh@.skip(2));
            assert(f2 + fresh@.skip(2) =~= fresh@);
            old(self).lemma_step_wf(&c4, fresh@);
            let added = fresh@.skip(2);
            assert forall|i: int| 0 <= i < added.len() implies added[i] != ino
                && added[i] != data_root by {
                assert(fresh@[i + 2] == added[i]);
                assert(fresh@[0] == ino && fresh@[1] == data_root);
            }
            assert(!added.contains(ino));
            assert(!added.contains(data_root));
            assert(!self.allocator.in_region(data_root));
            assert(c3.contains(ino) && c3.contains(data_root));
            assert(c4.entries()[ino] == c3.entries()[ino]);
            assert(c4.entries()[data_root] == c3.entries()[data_root]);
            assert(c3.entries()[data_root] == c2.entries()[data_root]);
            if fine {
                assert(stale@.skip(0) =~= stale@);
                Self::lemma_tree_grown(
                    &self.allocator,
                    &c3,
                    &c4,
                    root0,
                    new_root,
                    old(self).pending(),
                    added,
                    stale@,
                );
            }
        }
        let ghost left = stale@;
        self.pending.append(&mut stale);
        proof {
            assert(self.pending@ =~= old(self).pending() + left);
            assert(self.pending@.last() == left.last());
        }
        Ok(
            Inode {
                file_size,
                block_count: 0,
                creation_time: now,
                modification_time: now,
                file_type: FILE_TYPE_FILE,
                data_tree_root: data_root,
                link_count: 1,
                checksum,
            },
        )
    }

    /// Creates a file of `file_size` bytes, stamped with the time `now`.
    ///
    /// The inode goes into the first free block and the file's empty data
    /// tree into the next; the inode's block address is then bound to itself
    /// in the metadata tree, copy-on-write. The new root stays in memory
    /// until the next `sync` publishes it. Nothing is written to the device,
    /// and no block of the last commit changes in the cache.
    ///
    /// On failure the tree in memory and the bitmap are as they were: the
    /// blocks that were taken on the way are given back. Fails with
    /// `Allocator(OutOfSpace)` only when, with the blocks taken on the way,
    /// no block was free, and always when not even two blocks are free; with
    /// `Device`, on a valid tree, only when a block was out of hand.
    #[verifier::rlimit(40)]
    pub fn create_file(&mut self, file_size: u64, now: u64) -> (r: Result<Inode, SadakFsError<D>>)
        requires
            old(self).wf(),
        ensures
            final(self).wf(),
            final(self).cache().device() == old(self).cache().device(),
            final(self).allocator() == old(self).allocator(),
            final(self).live_superblock() == old(self).live_superblock(),
            final(self).committed() == old(self).committed(),
            forall|id: BlockId|
                old(self).protected(id) && #[trigger] old(self).cache().contains(id)
                    ==> final(self).cache().entries()[id] == old(self).cache().entries()[id],
            forall|id: BlockId|
                id < old(self).allocator().total()
                    && #[trigger] allocated(old(self).bitmap(), id as int)
                    ==> allocated(final(self).bitmap(), id as int),
            match r {
                Ok(inode) => {
                    let first = old(self).first_block();
                    let second = old(self).second_block();
                    &&& first is Some
                    &&& second is Some
                    &&& inode == inode_sealed(
                        Self::new_inode(file_size, now, second->Some_0 as BlockId),
                    )
                    &&& final(self).cache().contains(first->Some_0 as BlockId)
                    &&& final(self).cache().entries()[first->Some_0 as BlockId] == (CachedImage {
                        data: inode_image(
                            Self::new_inode(file_size, now, second->Some_0 as BlockId),
                        ),
                        dirty: true,
                    })
                    &&& holds_node(
                        &final(self).cache(),
                        second->Some_0 as BlockId,
                        0,
                        Seq::<(u64, u64)>::empty(),
                    )
                    &&& BTree::root_in(&final(self).cache(), final(self).root())
                    &&& old(self).pending().is_prefix_of(final(self).pending())
                },
                Err(e) => {
                    &&& final(self).root() == old(self).root()
                    &&& final(self).pending() == old(self).pending()
                    &&& !(e is Syscall)
                    &&& !(e is InvalidSuperblock)
                    &&& e is Allocator ==> e->Allocator_0 is OutOfSpace
                },
            },
            r is Err ==> final(self).bitmap() == old(self).bitmap(),
            old(self).first_block() is None || old(self).second_block() is None ==> r is Err
                && r->Err_0 is Allocator,
            r is Err && r->Err_0 is Allocator ==> exists|taken: Seq<BlockId>| #[trigger]
                all_free(old(self).bitmap(), taken) && taken.no_duplicates() && first_free(
                    marked(old(self).bitmap(), taken),
                    old(self).allocator().total() as int,
                ) is None
                    && allocated_count(old(self).bitmap(), old(self).allocator().total() as int)
                    + taken.len() == old(self).allocator().total() && (old(self).tree_valid()
                    ==> taken.len() <= 2 * root_level(&old(self).cache(), old(self).root()) + 5),
            old(self).tree_valid() && r is Err && r->Err_0 is Device ==> exists|x: BlockId|
                x < old(self).allocator().total() && out_of_hand(&old(self).cache(), x),
            old(self).create_owed() ==> r is Ok,
            r is Ok ==> final(self).pending().len() > 0
                && final(self).pending().last() == old(self).root(),
            clean_kept(&old(self).cache(), &final(self).cache()),
            old(self).in_step() ==> final(self).in_step(),
            r is Ok && old(self).in_step() && old(self).tree_valid() ==> final(self).root()
                != final(self).live_superblock().metadata_root_id,
            old(self).tree_valid() ==> final(self).tree_valid() && match r {
                Ok(_) => forall|other: u64| #[trigger]
                    final(self).binding(other) == bound(
                        old(self).binding(other),
                        old(self).first_block()->Some_0 as u64,
                        old(self).first_block()->Some_0 as u64,
                        other,
                    ),
                Err(e) => {
                    &&& forall|other: u64| #[trigger]
                        final(self).binding(other) == old(self).binding(other)
                    &&& !(e is ChecksumError)
                    &&& e is InvalidNode ==> root_level(&old(self).cache(), old(self).root())
                        == u8::MAX
                },
            },
    {
        let ghost c0 = self.cache;
        let mut fresh: Vec<BlockId> = Vec::new();
        match self.try_create(file_size, now, &mut fresh) {
            Ok(inode) => {
                proof {
                    if old(self).in_step() {
                        old(self).lemma_in_step_kept(self);
                    }
                    if old(self).in_step() && old(self).tree_valid() {
                        let root = self.root();
                        assert(node_block(&self.allocator(), &self.cache(), root));
                        assert(self.cache().dirty(root));
                        assert(!self.protected(root));
                    }
                }
                Ok(inode)
            },
            Err(e) => {
                let ghost tried = *self;
                let ghost taken = fresh@;
                proof {
                    old(self).lemma_sound();
                }
                release(&self.allocator, &mut self.cache, fresh, Ghost(c0));
                proof {
                    old(self).lemma_released(&self.cache, taken);
                    if e is Allocator {
                        lemma_region_covers(&self.allocator);
                        lemma_marked(old(self).bitmap(), taken);
                        lemma_marked_count(old(self).bitmap(), taken,
                            self.allocator.total() as int);
                        lemma_full_count(
                            marked(old(self).bitmap(), taken),
                            self.allocator.total() as int,
                        );
                        assert(all_free(old(self).bitmap(), taken));
                    }
                    if old(self).tree_valid() {
                        assert forall|other: u64| #[trigger] self.binding(other) == old(self).binding(
                            other,
                        ) by {
                            assert(tree_get(&self.cache, self.root(),
                                other) == old(self).binding(other));
                        }
                    }
                    if old(self).in_step() {
                        old(self).lemma_in_step_kept(self);
                    }
                }
                Err(e)
            },
        }
    }

    /// A change in the cache that marks what it changes dirty, and leaves
    /// the device, the superblock and the state of the last commit alone,
    /// keeps a volume and its device in step.
    proof fn lemma_in_step_kept(&self, after: &Self)
        requires
            self.in_step(),
            after.wf(),
            after.cache().device() == self.cache().device(),
            after.allocator() == self.allocator(),
            after.live_superblock() == self.live_superblock(),
            after.committed() == self.committed(),
            after.cache().keeps(&self.cache()),
            clean_kept(&self.cache(), &after.cache()),
        ensures
            after.in_step(),
    {
        assert forall|id: BlockId|
            after.allocator().in_region(id) && !after.cache().dirty(id)
                implies #[trigger] after.cache().device().candidates(id) == set![
            after.cache().entries()[id].data,
        ] by {
            assert(self.cache().contains(id));
            assert(after.cache().contains(id));
            assert(after.cache().entries()[id] == self.cache().entries()[id]);
            assert(!self.cache().dirty(id));
        }
    }

    /// Giving back what a failed step had taken leaves a consistent volume
    /// consistent, with the bitmap, the tree and the blocks of the last
    /// commit as they were before the step.
    proof fn lemma_released(&self, after: &BlockCache<D>, taken: Seq<BlockId>)
        requires
            self.wf(),
            released(&self.allocator(), &self.cache(), after, taken),
        ensures
            forall|id: BlockId| self.allocator().in_region(id) ==> #[trigger] after.contains(id),
            forall|id: BlockId| #[trigger] after.dirty(id) ==> !self.protected(id),
            forall|id: BlockId| #[trigger] after.dirty(id) ==> id < self.allocator().total(),
            forall|id: BlockId|
                self.protected(id) && #[trigger] self.cache().contains(id) ==> after.entries()[id]
                    == self.cache().entries()[id],
            self.tree_valid() ==> tree_ok(&self.allocator(), after, self.root()) && tree_full(
                after,
                self.root(),
            ) && (forall|key: u64| #[trigger] tree_get(after, self.root(),
                key) == self.binding(key))
                && (
            forall|i: int|
                0 <= i < self.pending().len() ==> node_block(
                    &self.allocator(),
                    after,
                    #[trigger] self.pending()[i],
                ) && !in_tree(after, self.root(), self.pending()[i])),
    {
        let alloc = self.allocator();
        let before = self.cache();
        self.lemma_sound();
        assert forall|id: BlockId| alloc.in_region(id) implies #[trigger] after.contains(id) by {
            assert(before.contains(id));
        }
        assert forall|id: BlockId| self.protected(id) implies !taken.contains(id) by {
            assert(allocated(self.bitmap(), id as int));
            if taken.contains(id) {
                let i = choose|i: int| 0 <= i < taken.len() && taken[i] == id;
                assert(!allocated(self.bitmap(), taken[i] as int));
            }
        }
        assert forall|id: BlockId| #[trigger] after.dirty(id) implies id < alloc.total() by {
            if alloc.in_region(id) {
            } else if taken.contains(id) {
                let i = choose|i: int| 0 <= i < taken.len() && taken[i] == id;
                assert(taken[i] < alloc.total());
            } else if before.contains(id) {
                assert(after.entries()[id] == before.entries()[id]);
                assert(before.dirty(id));
            }
        }
        assert forall|id: BlockId| #[trigger] after.dirty(id) implies !self.protected(id) by {
            if self.protected(id) {
                assert(!taken.contains(id));
                if before.contains(id) {
                    assert(after.entries()[id] == before.entries()[id]);
                    assert(before.dirty(id));
                }
            }
        }
        assert forall|id: BlockId| self.protected(id) && #[trigger] before.contains(id)
            implies after.entries()[id]
            == before.entries()[id] by {
            assert(!taken.contains(id));
        }
        if self.tree_valid() {
            let root = self.root();
            assert forall|x: BlockId| #[trigger] in_tree(&before, root, x) implies after.logical(x)
                == before.logical(x) && allocated(alloc.bitmap(after), x as int) by {
                lemma_in_tree(&alloc, &before, root, x);
                if taken.contains(x) {
                    let i = choose|i: int| 0 <= i < taken.len() && taken[i] == x;
                    assert(!allocated(self.bitmap(), taken[i] as int));
                }
                if before.contains(x) {
                    assert(after.entries()[x] == before.entries()[x]);
                } else if after.contains(x) {
                    assert(before.device().candidates(x).contains(after.entries()[x].data));
                }
            }
            lemma_tree_kept(&alloc, &before, after, root);
            assert forall|i: int| 0 <= i < self.pending().len() implies node_block(
                &alloc,
                after,
                #[trigger] self.pending()[i],
            ) && !in_tree(after, root, self.pending()[i]) by {
                assert(!in_tree(&before, root, self.pending()[i]));
            }
        }
    }

    /// Reading blocks into the cache keeps a consistent volume consistent
    /// and its bitmap as it was.
    proof fn lemma_loaded_wf(&self, after: &BlockCache<D>)
        requires
            self.wf(),
            after.loaded_from(&self.cache()),
        ensures
            self.allocator().bitmap(after) == self.bitmap(),
            forall|id: BlockId| self.allocator().in_region(id) ==> #[trigger] after.contains(id),
            forall|id: BlockId| #[trigger] after.dirty(id) ==> !self.protected(id),
            forall|id: BlockId| #[trigger] after.dirty(id) ==> id < self.allocator().total(),
    {
        lemma_grown_loaded(&self.allocator(), &self.cache(), after);
        self.lemma_step_wf(after, Seq::<BlockId>::empty());
        assert(marked(self.bitmap(), Seq::<BlockId>::empty()) == self.bitmap());
    }

    /// Looks up the file whose inode was created in block `inode_block`,
    /// and reads its inode from the block that the metadata tree binds the
    /// address to.
    ///
    /// Returns `None` when the tree does not bind the address. Fails with
    /// `ChecksumError` when the bound block does not hold an inode, and as
    /// the tree's lookup does.
    #[verifier::rlimit(40)]
    pub fn lookup_file(&mut self, inode_block: BlockId) -> (r: Result<Option<Inode>,
        SadakFsError<D>>)
        requires
            old(self).wf(),
        ensures
            final(self).wf(),
            final(self).cache().loaded_from(&old(self).cache()),
            final(self).allocator() == old(self).allocator(),
            final(self).root() == old(self).root(),
            final(self).live_superblock() == old(self).live_superblock(),
            final(self).pending() == old(self).pending(),
            final(self).committed() == old(self).committed(),
            final(self).bitmap() == old(self).bitmap(),
            match r {
                Ok(Some(inode)) => final(self).binding(inode_block) is Some && inode_ok(
                    final(self).cache().image(final(self).binding(inode_block)->Some_0),
                ) && inode == inode_of(final(self).cache().image(final(self).binding(inode_block)->Some_0)),
                Ok(None) => final(self).binding(inode_block) is None,
                Err(SadakFsError::ChecksumError) => !tree_path_ok(
                    &final(self).cache(),
                    final(self).root(),
                    inode_block,
                ) || (final(self).binding(inode_block) is Some && !inode_ok(
                    final(self).cache().image(final(self).binding(inode_block)->Some_0),
                )),
                Err(SadakFsError::InvalidNode) => !tree_path_ok(
                    &final(self).cache(),
                    final(self).root(),
                    inode_block,
                ),
                Err(SadakFsError::Device(_)) => exists|x: BlockId| out_of_hand(&old(self).cache(),
                    x),
                Err(_) => false,
            },
            r is Ok ==> tree_path_ok(&final(self).cache(), final(self).root(), inode_block),
            old(self).in_step() ==> final(self).in_step(),
            old(self).tree_valid() ==> final(self).tree_valid() && forall|other: u64| #[trigger]
                final(self).binding(other) == old(self).binding(other),
    {
        let ghost c0 = self.cache;
        let ghost root = self.metadata_tree.root();
        let looked = self.metadata_tree.lookup(&mut self.cache, inode_block);
        let ghost c1 = self.cache;
        proof {
            old(self).lemma_loaded_wf(&c1);
            assert(c1.loaded_from(&c1));
            if old(self).tree_valid() {
                old(self).lemma_sound();
                lemma_grown_loaded(&self.allocator, &c0, &c1);
                old(self).lemma_step_tree(&c1, Seq::<BlockId>::empty());
            }
        }
        proof {
            if old(self).in_step() {
                old(self).lemma_in_step_kept(self);
            }
        }
        let found: Option<u64> = match looked {
            Ok(found) => found,
            Err(e) => {
                return Err(SadakFsError::from_tree(e));
            },
        };
        let at: BlockId = match found {
            Some(at) => at,
            None => {
                return Ok(None);
            },
        };
        let fetched: Result<Option<Inode>, D::Error> = match self.cache.get_block(at) {
            Ok(block) => Ok(Inode::decode(block.data())),
            Err(e) => Err(e),
        };
        proof {
            self.cache.lemma_loaded_trans(&c1, &c0);
            old(self).lemma_loaded_wf(&self.cache);
            if self.cache.contains(at) {
                self.cache.lemma_cached_settled(at);
            }
            if old(self).tree_valid() {
                lemma_grown_loaded(&self.allocator, &c0, &self.cache);
                old(self).lemma_step_tree(&self.cache, Seq::<BlockId>::empty());
            }
        }
        proof {
            if fetched is Err {
                if c0.contains(at) {
                    assert(c1.contains(at));
                }
                assert(out_of_hand(&c0, at));
            }
            if old(self).in_step() {
                old(self).lemma_in_step_kept(self);
            }
        }
        match fetched {
            Ok(Some(inode)) => Ok(Some(inode)),
            Ok(None) => Err(SadakFsError::ChecksumError),
            Err(e) => Err(SadakFsError::Device(e)),
        }
    }

    /// Tells whether block `id` is marked allocated in the bitmap as it is
    /// in memory. A block beyond the capacity is not.
    pub fn is_allocated(&mut self, id: BlockId) -> (r: Result<bool, SadakFsError<D>>)
        requires
            old(self).wf(),
        ensures
            final(self).wf(),
            final(self).cache().loaded_from(&old(self).cache()),
            final(self).allocator() == old(self).allocator(),
            final(self).root() == old(self).root(),
            final(self).live_superblock() == old(self).live_superblock(),
            final(self).pending() == old(self).pending(),
            final(self).committed() == old(self).committed(),
            final(self).bitmap() == old(self).bitmap(),
            r is Ok,
            r->Ok_0 == (id < old(self).allocator().total()
                && allocated(old(self).bitmap(), id as int)),
            old(self).in_step() ==> final(self).in_step(),
    {
        proof {
            self.lemma_sound();
            self.allocator.lemma_reads_as(&self.cache, self.bitmap());
            lemma_region_covers(&self.allocator);
            if id < self.allocator.total() {
                assert(self.allocator.in_region(self.allocator.block_of(id)));
            }
        }
        let r = self.allocator.is_allocated(&mut self.cache, id);
        proof {
            old(self).lemma_loaded_wf(&self.cache);
            if old(self).in_step() {
                old(self).lemma_in_step_kept(self);
            }
        }
        match r {
            Ok(marked_allocated) => Ok(marked_allocated),
            Err(e) => Err(SadakFsError::Allocator(e)),
        }
    }

    /// The superblock that a commit at time `now` publishes.
    pub open spec fn next_superblock(&self, now: u64) -> Superblock {
        Superblock {
            magic: self.live_superblock().magic,
            version: self.live_superblock().version,
            total_blocks: self.live_superblock().total_blocks,
            metadata_root_id: self.root(),
            bitmap_start_id: self.live_superblock().bitmap_start_id,
            timestamp: now,
            checksum: 0,
        }
    }

    /// How a commit at time `now` has left the device and the bitmap,
    /// whether it went through (`done`) or failed.
    ///
    /// Block 0 has at most gained the new superblock as a candidate, and
    /// shows nothing else once the commit went through. A bitmap block shows
    /// what it showed before, or its cached image of before or after the
    /// commit; once block 0 has changed, a bitmap block that was waiting
    /// shows none but the cached images. After a commit that went through, a
    /// clean bitmap block is on the device as it is cached, or is untouched
    /// and was clean, and only blocks that waited to be freed have changed
    /// state in the bitmap. After a failed commit the bitmap is as it was.
    pub open spec fn committed_from(&self, before: &Self, now: u64, done: bool) -> bool {
        let next = superblock_image(before.next_superblock(now));
        let device = self.cache().device();
        let was = before.cache().device();
        &&& self.wf()
        &&& self.allocator() == before.allocator()
        &&& self.root() == before.root()
        &&& device.capacity() == was.capacity()
        &&& device.candidates(0).subset_of(was.candidates(0).insert(next))
        &&& done ==> device.candidates(0) == set![next] && self.live_superblock()
            == superblock_sealed(before.next_superblock(now)) && self.committed() == self.bitmap()
        &&& !done ==> self.bitmap() == before.bitmap() && self.live_superblock()
            == before.live_superblock() && self.committed() == before.committed()
        &&& forall|id: BlockId|
            before.allocator().in_region(id) ==> (#[trigger] device.candidates(id)).subset_of(
                was.candidates(id).insert(before.cache().entries()[id].data).insert(
                    self.cache().entries()[id].data,
                ),
            )
        &&& device.candidates(0) != was.candidates(0) ==> forall|id: BlockId|
            before.allocator().in_region(id) && #[trigger] before.cache().dirty(id)
                ==> device.candidates(id).subset_of(
                set![before.cache().entries()[id].data].insert(self.cache().entries()[id].data),
            )
        &&& done ==> forall|id: BlockId|
            before.allocator().in_region(id) && !self.cache().dirty(id) ==> (
            #[trigger] device.candidates(id)) == set![self.cache().entries()[id].data] || (
            self.cache().entries()[id] == before.cache().entries()[id] && !before.cache().dirty(id)
                && device.candidates(id) == was.candidates(id))
        &&& done ==> forall|id: BlockId|
            id < before.allocator().total() && !before.pending().contains(id)
                ==> #[trigger] allocated(self.bitmap(), id as int) == allocated(
                before.bitmap(),
                id as int,
            )
    }

    /// Commits: makes the tree in memory the tree of the volume.
    ///
    /// First every dirty block but block 0 is written, in ascending order
    /// of address, and the device is flushed. Only then is the superblock,
    /// with the new root and the time `now`, put into block 0, written and
    /// flushed: that write is the commit. After it the blocks that the tree
    /// stopped using are marked free, and the bitmap is written once more;
    /// a failure of that last write is not reported, the bits are written
    /// by the next commit.
    ///
    /// No block that belongs to the state of the last commit is written
    /// to. Block 0 is written to only after everything else has been
    /// written and the device has acknowledged a flush: once block 0 has
    /// changed, nothing but block 0 and bitmap blocks is unflushed. On failure the
    /// superblock and the tree in memory are as they were. A bitmap block
    /// that is clean after the commit, and was waiting or has changed, is on
    /// the device as it is cached. On a reliable device the commit succeeds
    /// and leaves nothing waiting.
    #[verifier::rlimit(100)]
    pub fn sync(&mut self, now: u64) -> (r: Result<(), SadakFsError<D>>)
        requires
            old(self).wf(),
        ensures
            final(self).wf(),
            final(self).allocator() == old(self).allocator(),
            final(self).root() == old(self).root(),
            final(self).cache().device().capacity() == old(self).cache().device().capacity(),
            forall|id: BlockId|
                old(self).protected(id)
                    ==> #[trigger] final(self).cache().device().candidates(id) == old(self).cache().device().candidates(id),
            final(self).cache().device().candidates(0).subset_of(
                old(self).cache().device().candidates(0).insert(
                    superblock_image(old(self).next_superblock(now)),
                ),
            ),
            r is Ok || final(self).cache().device().candidates(0) != old(self).cache().device().candidates(
                0,
            ) ==> final(self).cache().device().flushes() > old(self).cache().device().flushes() && (
            forall|id: BlockId|
                id != 0 && !old(self).allocator().in_region(id)
                    && #[trigger] old(self).cache().dirty(id)
                    ==> final(self).cache().device().candidates(id) == set![
                    old(self).cache().entries()[id].data,
                ]) && (forall|id: BlockId|
                old(self).allocator().in_region(id) && #[trigger] old(self).cache().dirty(id)
                    ==> final(self).cache().device().candidates(id).subset_of(
                    set![old(self).cache().entries()[id].data].insert(final(self).cache().entries()[id].data),
                )),
            final(self).committed_from(old(self), now, r is Ok),
            r is Ok || final(self).cache().device().candidates(0) != old(self).cache().device().candidates(
                0,
            ) ==> forall|id: BlockId| #[trigger]
                final(self).cache().device().unflushed().contains(id) ==> id == 0
                    || old(self).allocator().in_region(id),
            r is Ok ==> !final(self).cache().device().unflushed().contains(0),
            forall|id: BlockId| #[trigger]
                final(self).cache().device().unflushed().contains(id)
                    ==> old(self).cache().device().unflushed().contains(id) || id == 0
                    || old(self).cache().dirty(id) || old(self).allocator().in_region(id),
            old(self).cache().device().reliable() ==> r is Ok
                && final(self).cache().device().reliable() && (
            forall|id: BlockId| !(#[trigger] final(self).cache().dirty(id))),
            old(self).cache().device().readable() ==> final(self).cache().device().readable(),
            final(self).cache().device().flushes() >= old(self).cache().device().flushes(),
            r is Ok ==> final(self).cache().device().flushes() >= old(self).cache().device().flushes() + 2,
            match r {
                Ok(_) => final(self).cache().device().candidates(0) == set![
                    superblock_image(old(self).next_superblock(now)),
                ] && final(self).live_superblock() == superblock_sealed(old(self).next_superblock(now))
                    && final(self).pending().len() == 0
                        && final(self).committed() == final(self).bitmap(),
                Err(e) => e is Device
                    && final(self).live_superblock() == old(self).live_superblock()
                    && final(self).pending() == old(self).pending()
                        && final(self).committed() == old(self).committed(),
            },
            forall|id: BlockId|
                id != 0 && !old(self).allocator().in_region(id)
                    ==> #[trigger] final(self).cache().logical(
                    id,
                ) == old(self).cache().logical(id),
            old(self).tree_valid() ==> final(self).tree_valid() && forall|key: u64| #[trigger]
                final(self).binding(key) == old(self).binding(key),
            r is Ok ==> forall|id: BlockId|
                id < old(self).allocator().total() && !old(self).pending().contains(id)
                    ==> #[trigger] allocated(final(self).bitmap(), id as int) == allocated(
                    old(self).bitmap(),
                    id as int,
                ),
            r is Ok ==> forall|i: int|
                0 <= i < old(self).pending().len() && old(self).freeable(
                    #[trigger] old(self).pending()[i],
                ) ==> !allocated(final(self).bitmap(), old(self).pending()[i] as int),
            r is Err ==> final(self).bitmap() == old(self).bitmap(),
    {
        let ghost c0 = self.cache;
        let ghost images = self.allocator.bitmap(&self.cache);
        let ghost root = self.metadata_tree.root();
        proof {
            if self.tree_valid() {
                assert forall|x: BlockId| #[trigger] in_tree(&c0, root, x) implies allocated(
                    images,
                    x as int,
                ) && x < self.allocator.total() && x != 0 && !self.allocator.in_region(x)
                    && !self.pending@.contains(x) by {
                    lemma_in_tree(&self.allocator, &c0, root, x);
                    if self.pending@.contains(x) {
                        let i = choose|i: int| 0 <= i < self.pending@.len()
                            && self.pending@[i] == x;
                        assert(!in_tree(&c0, root, self.pending()[i]));
                    }
                }
            }
        }
        proof {
            self.lemma_sound();
        }
        let flushed = self.cache.flush_all();
        let ghost c1 = self.cache;
        proof {
            Self::lemma_flushed_region(&self.allocator, &c0, &c1, images);
            assert forall|id: BlockId| #[trigger] c1.dirty(id) implies !old(self).protected(id) by {
                assert(c0.dirty(id));
            }
            assert forall|id: BlockId| #[trigger] c1.dirty(id)
                implies id < self.allocator.total() by {
                assert(c0.dirty(id));
            }
            assert forall|id: BlockId| old(self).protected(id)
                implies #[trigger] c1.device().candidates(id)
                == c0.device().candidates(id) by {
                assert(!c0.dirty(id));
            }
        }
        proof {
            assert forall|id: BlockId| id != 0
                implies #[trigger] c1.logical(id) == c0.logical(id) by {
                c1.lemma_written_back_logical(&c0, id);
            }
            if old(self).tree_valid() {
                assert forall|x: BlockId| #[trigger] in_tree(&c0, root, x) implies c1.logical(x)
                    == c0.logical(x) && allocated(self.allocator.bitmap(&c1), x as int) by {
                    assert(allocated(images, x as int));
                }
                lemma_tree_kept(&self.allocator, &c0, &c1, root);
                assert forall|i: int| 0 <= i < self.pending@.len() implies node_block(
                    &self.allocator,
                    &c1,
                    #[trigger] self.pending@[i],
                ) && !in_tree(&c1, root, self.pending@[i]) by {
                    assert(node_block(&self.allocator, &c0, old(self).pending()[i]));
                    assert(!in_tree(&c0, root, old(self).pending()[i]));
                }
            }
        }
        proof {
            assert forall|id: BlockId| self.allocator.in_region(id) implies (
            #[trigger] c1.device().candidates(id)).subset_of(
                c0.device().candidates(id).insert(c0.entries()[id].data),
            ) && c1.entries()[id].data == c0.entries()[id].data by {
                assert(c0.contains(id));
                assert(id != 0);
                if c0.dirty(id) && !c1.dirty(id) {
                    assert(c1.device().candidates(id) == set![c0.entries()[id].data]);
                }
            }
        }
        match flushed {
            Ok(_) => {},
            Err(e) => {
                return Err(SadakFsError::Device(e));
            },
        }
        let sb = Superblock {
            magic: self.superblock.magic,
            version: self.superblock.version,
            total_blocks: self.superblock.total_blocks,
            metadata_root_id: self.metadata_tree.root_id(),
            bitmap_start_id: self.superblock.bitmap_start_id,
            timestamp: now,
            checksum: 0,
        };
        let committed = commit_superblock(&mut self.cache, &sb);
        let ghost c2 = self.cache;
        proof {
            Self::lemma_committed_region(&self.allocator, &c1, &c2, images);
            assert forall|id: BlockId| #[trigger] c2.dirty(id) implies !old(self).protected(id) by {
                if id != 0 {
                    assert(c1.dirty(id));
                }
            }
            assert forall|id: BlockId| #[trigger] c2.dirty(id)
                implies id < self.allocator.total() by {
                if id != 0 {
                    assert(c1.dirty(id));
                }
            }
            assert forall|id: BlockId|
                id != 0 && !self.allocator.in_region(id) && #[trigger] c0.dirty(id)
                    implies c2.device().candidates(
                id,
            ) == set![c0.entries()[id].data] by {
                assert(!c1.dirty(id));
                assert(c1.device().candidates(id) == set![c0.entries()[id].data]);
            }
        }
        proof {
            assert forall|id: BlockId| id != 0
                implies #[trigger] c2.logical(id) == c0.logical(id) by {
                assert(c2.contains(id) == c1.contains(id));
                assert(c2.logical(id) == c1.logical(id));
            }
            if old(self).tree_valid() {
                assert forall|x: BlockId| #[trigger] in_tree(&c0, root, x) implies c2.logical(x)
                    == c0.logical(x) && allocated(self.allocator.bitmap(&c2), x as int) by {
                    assert(allocated(images, x as int));
                }
                lemma_tree_kept(&self.allocator, &c0, &c2, root);
                assert forall|i: int| 0 <= i < self.pending@.len() implies node_block(
                    &self.allocator,
                    &c2,
                    #[trigger] self.pending@[i],
                ) && !in_tree(&c2, root, self.pending@[i]) by {
                    assert(node_block(&self.allocator, &c0, old(self).pending()[i]));
                    assert(!in_tree(&c0, root, old(self).pending()[i]));
                }
            }
        }
        proof {
            assert forall|id: BlockId| self.allocator.in_region(id) implies (
            #[trigger] c2.device().candidates(id)).subset_of(
                c0.device().candidates(id).insert(c0.entries()[id].data),
            ) && c2.entries()[id] == c1.entries()[id] && c2.entries()[id].data
                == c0.entries()[id].data && (c0.dirty(id) ==> c2.device().candidates(id) == set![
                c0.entries()[id].data,
            ]) && (!c0.dirty(id) ==> c2.device().candidates(id) == c0.device().candidates(id)
                && c2.entries()[id] == c0.entries()[id]) by {
                assert(c0.contains(id));
                assert(id != 0);
                assert(c1.device().candidates(id).subset_of(
                    c0.device().candidates(id).insert(c0.entries()[id].data),
                ));
                assert(c2.device().candidates(id) == c1.device().candidates(id));
                if c0.dirty(id) {
                    assert(!c1.dirty(id));
                    assert(c1.device().candidates(id) == set![c0.entries()[id].data]);
                }
            }
        }
        let sealed_sb = match committed {
            Ok(sealed_sb) => sealed_sb,
            Err(e) => {
                return Err(SadakFsError::Device(e));
            },
        };
        self.superblock = sealed_sb;
        proof {
            assert forall|id: BlockId| !(#[trigger] c2.dirty(id)) by {
                if id != 0 {
                    assert(!c1.dirty(id));
                }
            }
        }
        let ghost committed_state = *self;
        proof {
            assert(committed_state.bitmap() == images);
            assert(committed_state.pending() == old(self).pending());
        }
        self.reclaim();
        proof {
            assert forall|id: BlockId| id != 0 && !self.allocator.in_region(id)
                implies #[trigger] self.cache.logical(
                id,
            ) == c0.logical(id) by {
                assert(c2.logical(id) == c0.logical(id));
            }
            if old(self).tree_valid() {
                assert forall|x: BlockId| #[trigger] in_tree(&c0, root, x)
                    implies self.cache.logical(x)
                    == c0.logical(x) && allocated(self.allocator.bitmap(&self.cache), x as int) by {
                    assert(allocated(committed_state.bitmap(), x as int));
                    assert(!committed_state.pending().contains(x));
                }
                lemma_tree_kept(&self.allocator, &c0, &self.cache, root);
            }
            assert forall|id: BlockId| self.allocator.in_region(id) implies (
            #[trigger] self.cache.device().candidates(id)).subset_of(
                c0.device().candidates(id).insert(c0.entries()[id].data).insert(
                    self.cache.entries()[id].data,
                ),
            ) && (c0.dirty(id) ==> self.cache.device().candidates(id).subset_of(
                set![c0.entries()[id].data].insert(self.cache.entries()[id].data),
            )) by {
                assert(self.cache.device().candidates(id).subset_of(
                    c2.device().candidates(id).insert(self.cache.entries()[id].data),
                ));
            }
            assert forall|id: BlockId|
                self.allocator.in_region(id) && !self.cache.dirty(id) implies (
            #[trigger] self.cache.device().candidates(id)) == set![self.cache.entries()[id].data]
                || (
            self.cache.entries()[id] == c0.entries()[id] && !c0.dirty(id)
                && self.cache.device().candidates(id) == c0.device().candidates(id)) by {
                assert(c0.contains(id));
                assert(self.cache.contains(id));
                assert(!c2.dirty(id));
                if self.cache.device().candidates(id) != set![self.cache.entries()[id].data] {
                    assert(self.cache.entries()[id].data == c2.entries()[id].data);
                    assert(self.cache.device().candidates(id) == c2.device().candidates(id));
                    assert(self.cache.entries()[id] == c2.entries()[id]);
                }
            }
        }
        Ok(())
    }

    /// Whether block `id` is one that `reclaim` frees when it waits to be
    /// freed: a block below the capacity that is not reserved.
    pub open spec fn freeable(&self, id: BlockId) -> bool {
        id != 0 && id < self.allocator().total() && !self.allocator().in_region(id)
    }

    /// Marks the blocks that the tree stopped using as free, now that a
    /// commit no longer needs them, and writes the bitmap. Reserved blocks
    /// are never freed.
    #[verifier::rlimit(40)]
    fn reclaim(&mut self)
        requires
            old(self).cache().wf(),
            old(self).allocator().wf(),
            old(self).allocator().total() == old(self).cache().device().capacity(),
            old(self).allocator().start() >= 1,
            old(self).allocator().start() + old(self).allocator().count() <= old(self).allocator().total(),
            old(self).allocator().sound(&old(self).cache()),
            forall|id: BlockId|
                old(self).allocator().in_region(id) ==> #[trigger] old(self).cache().contains(id),
            forall|id: BlockId| !(#[trigger] old(self).cache().dirty(id)),
        ensures
            final(self).wf(),
            forall|id: BlockId|
                old(self).allocator().in_region(id) && !final(self).cache().dirty(id) ==> (
                #[trigger] final(self).cache().device().candidates(id)) == set![
                    final(self).cache().entries()[id].data,
                ] || (final(self).cache().entries()[id].data == old(self).cache().entries()[id].data
                    && final(self).cache().device().candidates(id) == old(self).cache().device().candidates(
                    id,
                )),
            forall|id: BlockId|
                old(self).allocator().in_region(id)
                    ==> (#[trigger] final(self).cache().device().candidates(
                    id,
                )).subset_of(
                    old(self).cache().device().candidates(id).insert(final(self).cache().entries()[id].data),
                ),
            old(self).cache().device().reliable() ==> final(self).cache().device().reliable() && (
            forall|id: BlockId| !(#[trigger] final(self).cache().dirty(id)))
                && final(self).cache().device().flushes() == old(self).cache().device().flushes() + 1,
            old(self).cache().device().readable() ==> final(self).cache().device().readable(),
            final(self).cache().device().flushes() >= old(self).cache().device().flushes(),
            forall|id: BlockId| #[trigger]
                final(self).cache().device().unflushed().contains(id)
                    ==> old(self).cache().device().unflushed().contains(id)
                    || old(self).allocator().in_region(id),
            final(self).allocator() == old(self).allocator(),
            final(self).root() == old(self).root(),
            final(self).live_superblock() == old(self).live_superblock(),
            final(self).pending().len() == 0,
            final(self).committed() == final(self).bitmap(),
            final(self).cache().device().capacity() == old(self).cache().device().capacity(),
            forall|id: BlockId|
                !old(self).allocator().in_region(id)
                    ==> #[trigger] final(self).cache().device().candidates(id) == old(self).cache().device().candidates(id),
            forall|id: BlockId|
                !old(self).allocator().in_region(id) ==> #[trigger] final(self).cache().logical(id)
                    == old(self).cache().logical(id),
            forall|id: BlockId|
                id < old(self).allocator().total() && !old(self).pending().contains(id)
                    ==> #[trigger] allocated(final(self).bitmap(), id as int) == allocated(
                    old(self).bitmap(),
                    id as int,
                ),
            forall|i: int|
                0 <= i < old(self).pending().len() && old(self).freeable(
                    #[trigger] old(self).pending()[i],
                ) ==> !allocated(final(self).bitmap(), old(self).pending()[i] as int),
    {
        let ghost c0 = self.cache;
        let ghost b0 = self.allocator.bitmap(&self.cache);
        let ghost waiting = self.pending@;
        let total: BlockId = self.allocator.total_blocks();
        let start: BlockId = self.allocator.bitmap_start_id();
        let count: BlockId = self.allocator.bitmap_block_count();
        while self.pending.len() > 0
            invariant
                self.allocator == old(self).allocator,
                self.metadata_tree == old(self).metadata_tree,
                self.superblock == old(self).superblock,
                total == self.allocator.total(),
                start == self.allocator.start(),
                count == self.allocator.count(),
                self.cache.wf(),
                self.allocator.wf(),
                self.cache.device() == c0.device(),
                self.allocator.sound(&self.cache),
                forall|id: BlockId| #[trigger]
                    c0.contains(id) ==> self.cache.contains(id) && (self.cache.entries()[id]
                        != c0.entries()[id] ==> self.cache.dirty(id)),
                forall|id: BlockId| self.allocator.in_region(id)
                    ==> #[trigger] self.cache.contains(id),
                forall|id: BlockId| #[trigger] self.cache.dirty(id)
                    ==> self.allocator.in_region(id),
                forall|id: BlockId|
                    !self.allocator.in_region(id)
                        ==> #[trigger] self.cache.logical(id) == c0.logical(id),
                self.pending@.is_prefix_of(waiting),
                forall|id: BlockId|
                    id < total && !waiting.contains(id) ==> #[trigger] allocated(
                        self.allocator.bitmap(&self.cache),
                        id as int,
                    ) == allocated(b0, id as int),
                forall|k: int|
                    self.pending@.len() <= k < waiting.len() && (#[trigger] waiting[k]) != 0
                        && waiting[k]
                        < total && !self.allocator.in_region(waiting[k]) ==> !allocated(
                        self.allocator.bitmap(&self.cache),
                        waiting[k] as int,
                    ),
            decreases self.pending@.len(),
        {
            let ghost queue = self.pending@;
            let id: BlockId = match self.pending.pop() {
                Some(id) => id,
                None => 0,
            };
            proof {
                assert(queue[queue.len() - 1] == id);
                assert(waiting[queue.len() - 1] == id);
                assert(waiting.contains(id));
            }
            if id != 0 && id < total && !(start <= id && id - start < count) {
                let ghost before = self.cache;
                let ghost images = self.allocator.bitmap(&self.cache);
                proof {
                    self.allocator.lemma_reads_as(&before, images);
                    lemma_region_covers(&self.allocator);
                    assert(self.allocator.in_region(self.allocator.block_of(id)));
                    assert(before.contains(self.allocator.block_of(id)));
                }
                let freed = self.allocator.free_block(&mut self.cache, id);
                proof {
                    let after = with_freed(images, id as int);
                    assert(freed is Ok);
                    assert forall|other: BlockId| #[trigger] c0.contains(other)
                        implies self.cache.contains(other) && (self.cache.entries()[other]
                        != c0.entries()[other] ==> self.cache.dirty(other)) by {
                        assert(before.contains(other));
                        if self.cache.entries()[other] != before.entries()[other] {
                        } else if before.entries()[other] != c0.entries()[other] {
                            assert(before.dirty(other));
                        }
                    }
                    assert(self.allocator.reads_as(&self.cache, after));
                    self.allocator.lemma_reads_as(&self.cache, after);
                    assert forall|other: BlockId| self.allocator.in_region(other)
                        implies #[trigger] self.cache.contains(
                        other,
                    ) by {
                        assert(before.contains(other));
                    }
                    assert forall|other: BlockId| #[trigger] self.cache.dirty(other)
                        implies self.allocator.in_region(
                        other,
                    ) by {
                        if !self.allocator.in_region(other) {
                            assert(self.cache.contains(other) == before.contains(other));
                            assert(before.dirty(other));
                        }
                    }
                    assert forall|other: BlockId| !self.allocator.in_region(other)
                        implies #[trigger] self.cache.logical(
                        other,
                    ) == c0.logical(other) by {
                        assert(self.cache.contains(other) == before.contains(other));
                        assert(before.logical(other) == c0.logical(other));
                    }
                    assert forall|b: BlockId|
                        self.allocator.in_region(b) && b < self.allocator.total()
                            implies #[trigger] allocated(
                        after,
                        b as int,
                    ) by {
                        lemma_region_bits(images, id as int, b as int);
                    }
                    if 0 < self.allocator.total() {
                        lemma_region_bits(images, id as int, 0);
                    }
                    assert forall|other: BlockId| other < total && !waiting.contains(other)
                        implies #[trigger] allocated(
                        after,
                        other as int,
                    ) == allocated(b0, other as int) by {
                        lemma_region_bits(images, id as int, other as int);
                        assert(allocated(images, other as int) == allocated(b0, other as int));
                    }
                    assert forall|k: int|
                        self.pending@.len() <= k < waiting.len() && (#[trigger] waiting[k]) != 0
                            && waiting[k] < total && !self.allocator.in_region(
                            waiting[k],
                        ) implies !allocated(after, waiting[k] as int) by {
                        lemma_region_bits(images, id as int, waiting[k] as int);
                        if k >= queue.len() {
                            assert(!allocated(images, waiting[k] as int));
                        }
                    }
                }
            }
        }
        let ghost c1 = self.cache;
        let written = self.cache.flush_all();
        proof {
            let images = self.allocator.bitmap(&c1);
            Self::lemma_flushed_region(&self.allocator, &c1, &self.cache, images);
            assert(waiting == old(self).pending());
            assert(b0 == old(self).bitmap());
            assert(!c1.dirty(0)) by {
                assert(!self.allocator.in_region(0));
            }
            assert forall|id: BlockId| #[trigger] c1.dirty(id) && id != 0 implies id
                < c1.device().capacity() by {
                assert(self.allocator.in_region(id));
            }
            if c0.device().reliable() {
                assert(written is Ok);
                assert forall|id: BlockId| !(#[trigger] self.cache.dirty(id)) by {
                    if id == 0 {
                        assert(c1.contains(0) ==> self.cache.entries()[0] == c1.entries()[0]);
                    }
                }
            }
            assert forall|id: BlockId|
                self.allocator.in_region(id) && !self.cache.dirty(id) implies (
            #[trigger] self.cache.device().candidates(id)) == set![self.cache.entries()[id].data]
                || (
            self.cache.entries()[id].data == c0.entries()[id].data
                && self.cache.device().candidates(id)
                == c0.device().candidates(id)) by {
                assert(c0.contains(id));
                assert(c1.contains(id));
                if c1.dirty(id) {
                    assert(id != 0);
                } else {
                    assert(c1.entries()[id] == c0.entries()[id]);
                }
            }
            assert forall|id: BlockId| self.allocator.in_region(id) implies (
            #[trigger] self.cache.device().candidates(id)).subset_of(
                c0.device().candidates(id).insert(self.cache.entries()[id].data),
            ) by {
                assert(c0.contains(id));
                assert(c1.contains(id));
                assert(id != 0);
                if c1.dirty(id) {
                    if self.cache.dirty(id) {
                    } else {
                        assert(self.cache.device().candidates(id) == set![c1.entries()[id].data]);
                    }
                }
            }
            assert forall|id: BlockId| !self.allocator.in_region(id)
                implies #[trigger] self.cache.device().candidates(
                id,
            ) == c0.device().candidates(id) by {
                if c1.dirty(id) {
                    assert(self.allocator.in_region(id));
                }
            }
            assert forall|id: BlockId| !self.allocator.in_region(id)
                implies #[trigger] self.cache.logical(
                id,
            ) == c0.logical(id) by {
                self.cache.lemma_written_back_logical(&c1, id);
                assert(c1.logical(id) == c0.logical(id));
            }
        }
        self.committed = Ghost(self.allocator.bitmap(&self.cache));
        proof {
            assert forall|id: BlockId| #[trigger] self.cache.dirty(id)
                implies !self.protected(id) by {
                assert(c1.dirty(id));
            }
            assert forall|id: BlockId| #[trigger] self.cache.dirty(id) implies id
                < self.allocator.total() by {
                assert(c1.dirty(id));
                assert(self.allocator.in_region(id));
            }
            assert forall|j: int| 0 <= j < self.bitmap().len()
                implies (#[trigger] self.bitmap()[j]).len()
                == BLOCK_SIZE by {
                assert(self.cache.settled((self.allocator.start() + j) as BlockId));
            }
        }
    }

    /// After a write-back pass the bitmap in the cache is what it was.
    proof fn lemma_flushed_region(
        alloc: &Allocator,
        before: &BlockCache<D>,
        after: &BlockCache<D>,
        images: Seq<Seq<u8>>,
    )
        requires
            alloc.wf(),
            alloc.sound(before),
            alloc.bitmap(before) == images,
            forall|id: BlockId| alloc.in_region(id) ==> #[trigger] before.contains(id),
            after.written_back_from(before),
        ensures
            alloc.sound(after),
            alloc.bitmap(after) == images,
            forall|id: BlockId| alloc.in_region(id) ==> #[trigger] after.contains(id),
    {
        assert forall|id: BlockId| alloc.in_region(id) implies #[trigger] after.contains(id)
            && after.entries()[id].data == before.entries()[id].data by {
            assert(before.contains(id));
        }
        assert forall|j: int| 0 <= j < alloc.count() implies #[trigger] after.settled(
            (alloc.start() + j) as BlockId,
        ) && after.image((alloc.start() + j) as BlockId) == before.image((alloc.start() + j) as BlockId)
            && after.image((alloc.start() + j) as BlockId).len() == BLOCK_SIZE by {
            let id = (alloc.start() + j) as BlockId;
            assert(alloc.in_region(id));
            assert(before.settled(id));
            before.lemma_cached_settled(id);
            after.lemma_cached_settled(id);
        }
        assert forall|j: int| 0 <= j < alloc.count()
            implies alloc.bitmap(after)[j] == alloc.bitmap(before)[j] by {
            assert(after.settled((alloc.start() + j) as BlockId));
        }
        assert(alloc.bitmap(after) =~= alloc.bitmap(before));
    }

    /// Format and mount round-trip: mounting the device of a freshly
    /// formatted volume gives the superblock that formatting wrote, and with
    /// it the same metadata root, bitmap start and capacity.
    pub proof fn lemma_format_mount_round_trip(formatted: &Self, total: BlockId, mounted: &Self)
        requires
            formatted.formatted(total),
            mounted.mounted(formatted.cache().device()),
        ensures
            mounted.live_superblock() == formatted.live_superblock(),
            mounted.live_superblock().metadata_root_id == initial_superblock(total).metadata_root_id,
            mounted.live_superblock().bitmap_start_id == 1,
            mounted.live_superblock().total_blocks == total,
            mounted.root() == formatted.root(),
            mounted.allocator().start() == formatted.allocator().start(),
    {
        lemma_superblock_image(initial_superblock(total));
    }

    /// What formatting leaves is a volume: the device of a freshly
    /// formatted volume has a block 0 and shows nothing that mounting would
    /// refuse, so that mounting it succeeds whenever the device answers.
    pub proof fn lemma_formatted_is_volume(formatted: &Self, total: BlockId)
        requires
            formatted.formatted(total),
        ensures
            0 < formatted.cache().device().capacity(),
            !may_show_no_volume(formatted.cache().device()),
    {
        let device = formatted.cache().device();
        let sb = initial_superblock(total);
        let count = region_blocks(total as int);
        let bitmap = formatted.bitmap();
        lemma_superblock_image(sb);
        formatted.lemma_sound();
        assert(node_block(&formatted.allocator(), &formatted.cache(), formatted.root()));
        assert(bitmap_fits(superblock_sealed(sb), total, bitmap)) by {
            assert forall|id: BlockId| 1 <= id < 1 + count && id < total
                implies #[trigger] allocated(
                bitmap,
                id as int,
            ) by {
                assert(formatted.allocator().in_region(id));
            }
        }
        assert forall|image: Seq<u8>| #[trigger] device.candidates(0).contains(image) implies !(
        !superblock_ok(image) || superblock_of(image).bitmap_start_id + region_blocks(
            device.capacity() as int,
        ) > device.capacity() || exists|images: Seq<Seq<u8>>|
            images.len() == region_blocks(device.capacity() as int) && #[trigger] may_show(
                device,
                superblock_of(image).bitmap_start_id,
                images,
            ) && !bitmap_fits(superblock_of(image), device.capacity(), images)) by {
            assert(image == superblock_image(sb));
            assert forall|images: Seq<Seq<u8>>|
                images.len() == count && #[trigger] may_show(device, 1, images) implies bitmap_fits(
                superblock_sealed(sb),
                total,
                images,
            ) by {
                assert forall|j: int| 0 <= j < count implies images[j] == bitmap[j] by {
                    let id = (1 + j) as BlockId;
                    assert(device.candidates(id).contains(images[id - 1]));
                    assert(device.candidates((1 + j) as BlockId) == set![bitmap[j]]);
                }
                assert(images =~= bitmap);
            }
        }
    }

    /// A freshly formatted volume and its device are in step.
    pub proof fn lemma_formatted_in_step(formatted: &Self, total: BlockId)
        requires
            formatted.formatted(total),
        ensures
            formatted.in_step(),
    {
        let device = formatted.cache().device();
        let sb = initial_superblock(total);
        let count = region_blocks(total as int);
        let bitmap = formatted.bitmap();
        lemma_superblock_image(sb);
        formatted.lemma_sound();
        assert(node_block(&formatted.allocator(), &formatted.cache(), formatted.root()));
        assert forall|id: BlockId|
            formatted.allocator().in_region(id) && !formatted.cache().dirty(id)
                implies #[trigger] device.candidates(id) == set![
            formatted.cache().entries()[id].data,
        ] by {
            let j = id - 1;
            assert(device.candidates((1 + j) as BlockId) == set![bitmap[j]]);
            formatted.cache().lemma_cached_settled(id);
            assert(bitmap[j] == formatted.cache().image((1 + j) as BlockId));
        }
        assert forall|image: Seq<u8>| #[trigger] device.candidates(0).contains(image) implies {
            let shown = superblock_of(image);
            &&& superblock_ok(image)
            &&& shown == formatted.live_superblock()
            &&& shown.bitmap_start_id + region_blocks(device.capacity() as int)
                <= device.capacity()
            &&& shown.metadata_root_id < device.capacity()
            &&& forall|x: BlockId, block: Seq<u8>|
                x < device.capacity() && must_mark(shown, device.capacity(), x)
                    && #[trigger] device.candidates(
                    bitmap_block_of(shown.bitmap_start_id, x),
                ).contains(block) ==> block_bit(block, (x % BLOCKS_PER_BITMAP_BLOCK) as int)
        } by {
            assert(image == superblock_image(sb));
            let shown = superblock_of(image);
            assert forall|x: BlockId, block: Seq<u8>|
                x < device.capacity() && must_mark(shown, device.capacity(), x)
                    && #[trigger] device.candidates(
                    bitmap_block_of(shown.bitmap_start_id, x),
                ).contains(block) implies block_bit(
                block,
                (x % BLOCKS_PER_BITMAP_BLOCK) as int,
            ) by {
                formatted.lemma_bitmap_block(x);
                let id = bitmap_block_of(1, x);
                assert(!formatted.cache().dirty(id));
                assert(device.candidates(id) == set![formatted.cache().entries()[id].data]);
                if x != 0 && x != shown.metadata_root_id {
                    assert(formatted.allocator().in_region(x));
                }
                assert(allocated(bitmap, x as int));
            }
        }
    }

    /// A commit keeps the device a volume, however it ends: where the
    /// volume and its device were in step and the tree was valid, the device
    /// shows a volume whatever it shows afterwards, so that it can be
    /// mounted again. After a commit that went through and left nothing
    /// waiting, the volume and its device are in step again.
    pub proof fn lemma_commit_keeps_volume(before: &Self, after: &Self, now: u64, done: bool)
        requires
            before.in_step(),
            before.tree_valid(),
            after.committed_from(before, now, done),
        ensures
            holds_volume(after.cache().device()),
            forall|image: Seq<u8>| #[trigger]
                after.cache().device().candidates(0).contains(image) ==> superblock_of(image)
                    == superblock_sealed(before.next_superblock(now)) || (!done
                        && superblock_of(image)
                    == before.live_superblock()),
            after.cache().device().candidates(0) == before.cache().device().candidates(0) && !done
                ==> forall|image: Seq<u8>| #[trigger]
                after.cache().device().candidates(0).contains(image) ==> superblock_of(image)
                    == before.live_superblock(),
            done && (forall|id: BlockId| !(#[trigger] after.cache().dirty(id))) ==> after.in_step(),
    {
        let device = after.cache().device();
        let was = before.cache().device();
        let alloc = before.allocator();
        let start = alloc.start();
        let next = before.next_superblock(now);
        let root = before.root();
        lemma_superblock_image(next);
        lemma_region_covers(&alloc);
        assert(node_block(&alloc, &before.cache(), root));
        assert(in_tree(&before.cache(), root, root));
        assert(!before.pending().contains(root)) by {
            if before.pending().contains(root) {
                let i = choose|i: int| 0 <= i < before.pending().len()
                    && before.pending()[i] == root;
                assert(!in_tree(&before.cache(), root, before.pending()[i]));
            }
        }
        assert forall|image: Seq<u8>| #[trigger] device.candidates(0).contains(image) implies {
            let shown = superblock_of(image);
            &&& superblock_ok(image)
            &&& shown.bitmap_start_id == start
            &&& done ==> shown == after.live_superblock()
            &&& shown.bitmap_start_id + region_blocks(device.capacity() as int)
                <= device.capacity()
            &&& shown.metadata_root_id < device.capacity()
            &&& forall|x: BlockId, block: Seq<u8>|
                x < device.capacity() && must_mark(shown, device.capacity(), x)
                    && #[trigger] device.candidates(
                    bitmap_block_of(shown.bitmap_start_id, x),
                ).contains(block) ==> block_bit(block, (x % BLOCKS_PER_BITMAP_BLOCK) as int)
        } by {
            let shown = superblock_of(image);
            let fresh = !was.candidates(0).contains(image);
            if fresh {
                assert(image == superblock_image(next));
                assert(device.candidates(0) != was.candidates(0));
            } else {
                assert(shown == before.live_superblock());
                if done {
                    assert(image == superblock_image(next));
                }
            }
            assert(shown.metadata_root_id == root || (!done && !fresh && shown.metadata_root_id
                == before.live_superblock().metadata_root_id));
            assert forall|x: BlockId, block: Seq<u8>|
                x < device.capacity() && must_mark(shown, device.capacity(), x)
                    && #[trigger] device.candidates(bitmap_block_of(start, x)).contains(
                    block,
                ) implies block_bit(block, (x % BLOCKS_PER_BITMAP_BLOCK) as int) by {
                let id = bitmap_block_of(start, x);
                before.lemma_bitmap_block(x);
                after.lemma_bitmap_block(x);
                let old_data = before.cache().entries()[id].data;
                let new_data = after.cache().entries()[id].data;
                if x != 0 && x != shown.metadata_root_id {
                    assert(alloc.in_region(x));
                }
                if was.candidates(id).contains(block) && !fresh {
                    assert(was.candidates(bitmap_block_of(start, x)).contains(block));
                    assert(must_mark(before.live_superblock(), was.capacity(), x));
                } else {
                    if !before.cache().dirty(id) {
                        assert(was.candidates(id) == set![old_data]);
                    }
                    assert(block == old_data || block == new_data);
                    if x == root {
                        assert(allocated(before.bitmap(), x as int));
                    } else if x == shown.metadata_root_id {
                        assert(allocated(before.committed(), x as int));
                    }
                    assert(allocated(before.bitmap(), x as int));
                    if done {
                        assert(shown.metadata_root_id == root);
                        if x == root {
                            assert(allocated(after.bitmap(), x as int) == allocated(
                                before.bitmap(),
                                x as int,
                            ));
                        }
                        assert(allocated(after.bitmap(), x as int));
                    } else {
                        assert(after.bitmap() == before.bitmap());
                    }
                }
            }
        }
        if done && (forall|id: BlockId| !(#[trigger] after.cache().dirty(id))) {
            assert(allocated(after.bitmap(), root as int) == allocated(before.bitmap(),
                root as int));
            assert forall|id: BlockId|
                after.allocator().in_region(id) && !after.cache().dirty(id)
                    implies #[trigger] device.candidates(id) == set![
                after.cache().entries()[id].data,
            ] by {
                if device.candidates(id) != set![after.cache().entries()[id].data] {
                    assert(was.candidates(id) == set![before.cache().entries()[id].data]);
                }
            }
        }
    }

    /// A volume mounted from a device that shows a volume whatever it shows,
    /// and has one image to show for block 0 and for each bitmap block, is
    /// in step with the device.
    pub proof fn lemma_mounted_in_step(mounted: &Self, device: D)
        requires
            mounted.mounted(device),
            holds_volume(device),
            forall|id: BlockId, a: Seq<u8>, b: Seq<u8>|
                (id == 0 || mounted.allocator().in_region(id)) && #[trigger] device.candidates(
                    id,
                ).contains(a) && #[trigger] device.candidates(id).contains(b) ==> a == b,
        ensures
            mounted.in_step(),
    {
        let shown = mounted.cache().entries()[0].data;
        assert forall|image: Seq<u8>| #[trigger] device.candidates(0).contains(image)
            implies superblock_of(image) == mounted.live_superblock() by {
            assert(device.candidates(0).contains(shown));
        }
        assert forall|id: BlockId|
            mounted.allocator().in_region(id) && !mounted.cache().dirty(id)
                implies #[trigger] device.candidates(id) == set![mounted.cache().entries()[id].data] by {
            let data = mounted.cache().entries()[id].data;
            assert(mounted.cache().contains(id));
            assert(device.candidates(id).contains(data));
            assert forall|image: Seq<u8>| device.candidates(id).contains(image) implies image
                == data by {}
            assert(device.candidates(id) =~= set![data]);
        }
    }

    /// Mounting the device of a volume that was in step with it, with
    /// nothing waiting, gives that volume again: the same superblock, root
    /// and bitmap, in step with the device.
    pub proof fn lemma_remounted(prior: &Self, mounted: &Self)
        requires
            prior.in_step(),
            forall|id: BlockId| !(#[trigger] prior.cache().dirty(id)),
            mounted.mounted(prior.cache().device()),
        ensures
            mounted.in_step(),
            mounted.live_superblock() == prior.live_superblock(),
            mounted.root() == prior.live_superblock().metadata_root_id,
            mounted.bitmap() == prior.bitmap(),
    {
        let device = prior.cache().device();
        prior.lemma_sound();
        mounted.lemma_sound();
        assert forall|id: BlockId| mounted.allocator().in_region(id)
            implies prior.allocator().in_region(
            id,
        ) && mounted.cache().entries()[id].data == prior.cache().entries()[id].data
            && #[trigger] device.candidates(id) == set![mounted.cache().entries()[id].data] by {
            assert(mounted.cache().contains(id));
            assert(device.candidates(id) == set![prior.cache().entries()[id].data]);
        }
        assert forall|j: int| 0 <= j < mounted.bitmap().len() implies mounted.bitmap()[j]
            == prior.bitmap()[j] by {
            let id = (mounted.allocator().start() + j) as BlockId;
            assert(mounted.allocator().in_region(id));
            mounted.cache().lemma_cached_settled(id);
            prior.cache().lemma_cached_settled(id);
        }
        assert(mounted.bitmap() =~= prior.bitmap());
    }

    /// A freshly formatted volume with room for a file is owed the file:
    /// where the device answers every read and seven blocks more than the
    /// bitmap has are there, `create_file` succeeds.
    pub proof fn lemma_formatted_create_owed(formatted: &Self, total: BlockId)
        requires
            formatted.formatted(total),
            formatted.cache().device().readable(),
            total >= 7 + region_blocks(total as int),
        ensures
            formatted.create_owed(),
    {
        lemma_formatted_bitmap(total);
    }

    /// Commit atomicity: however a commit ends, a volume mounted from the
    /// device afterwards has the root of the commit before or the root
    /// that the commit was publishing, never anything else. It has the old
    /// root if block 0 was not touched, and the new root if the commit
    /// succeeded.
    ///
    /// `image` is what block 0 held before the commit, `next` what the
    /// commit was to put there; `device` is the device after the commit.
    pub proof fn lemma_commit_atomic(
        before: D,
        image: Seq<u8>,
        next: Superblock,
        device: D,
        mounted: &Self,
    )
        requires
            before.candidates(0) == set![image],
            device.candidates(0).subset_of(before.candidates(0).insert(superblock_image(next))),
            mounted.mounted(device),
        ensures
            mounted.live_superblock() == superblock_of(image) || mounted.live_superblock()
                == superblock_sealed(next),
            mounted.root() == superblock_of(image).metadata_root_id || mounted.root()
                == next.metadata_root_id,
            device.candidates(0) == before.candidates(0) ==> mounted.root() == superblock_of(
                image,
            ).metadata_root_id,
            device.candidates(0) == set![superblock_image(next)] ==> mounted.root()
                == next.metadata_root_id,
    {
        lemma_superblock_image(next);
        let shown = mounted.cache().entries()[0].data;
        assert(device.candidates(0).contains(shown));
        assert(before.candidates(0).insert(superblock_image(next)).contains(shown));
    }

    /// Putting a superblock into block 0 leaves the bitmap in the cache as
    /// it was.
    proof fn lemma_committed_region(
        alloc: &Allocator,
        before: &BlockCache<D>,
        after: &BlockCache<D>,
        images: Seq<Seq<u8>>,
    )
        requires
            alloc.wf(),
            alloc.start() >= 1,
            alloc.sound(before),
            alloc.bitmap(before) == images,
            forall|id: BlockId| alloc.in_region(id) ==> #[trigger] before.contains(id),
            after.wf(),
            after.entries() == before.entries().insert(0, after.entries()[0]),
        ensures
            alloc.sound(after),
            alloc.bitmap(after) == images,
            forall|id: BlockId| alloc.in_region(id) ==> #[trigger] after.contains(id),
    {
        assert forall|id: BlockId| alloc.in_region(id) implies #[trigger] after.contains(id)
            && after.entries()[id].data == before.entries()[id].data by {
            assert(before.contains(id));
        }
        assert forall|j: int| 0 <= j < alloc.count() implies #[trigger] after.settled(
            (alloc.start() + j) as BlockId,
        ) && after.image((alloc.start() + j) as BlockId) == before.image((alloc.start() + j) as BlockId)
            && after.image((alloc.start() + j) as BlockId).len() == BLOCK_SIZE by {
            let id = (alloc.start() + j) as BlockId;
            assert(alloc.in_region(id));
            assert(before.settled(id));
            before.lemma_cached_settled(id);
            after.lemma_cached_settled(id);
        }
        assert forall|j: int| 0 <= j < alloc.count()
            implies alloc.bitmap(after)[j] == alloc.bitmap(before)[j] by {
            assert(after.settled((alloc.start() + j) as BlockId));
        }
        assert(alloc.bitmap(after) =~= alloc.bitmap(before));
    }
}

} // verus!
