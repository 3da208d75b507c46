//! The bitmap allocator: first-fit allocation of logical blocks.

use vstd::prelude::*;
use crate::bitmap::{
    allocated, block_bit, block_with_bit, block_without_bit, BLOCKS_PER_BITMAP_BLOCK, first_free,
    is_bitmap, with_allocated, with_freed, lemma_block_bits, lemma_byte_bits, lemma_first_free_is,
    lemma_first_free_none,
};
use crate::block_device::{BLOCK_SIZE, BlockDevice, BlockId};
use crate::cache::{BlockCache, CachedImage};
use crate::layout::{overwrite, lemma_overwrite_len};
use crate::sahne_syscalls::SyscallError;

verus! {

/// A failure of the allocator.
pub enum AllocatorError<D: BlockDevice> {
    /// The device failed while a bitmap block was read.
    DeviceError(D::Error),
    /// No block is free.
    OutOfSpace,
    /// A request that cannot be served, in the host kernel's terms.
    Syscall(SyscallError),
}

impl<D: BlockDevice> From<SyscallError> for AllocatorError<D> {
    /// A refusal of the host kernel, as the allocator reports it.
    fn from(e: SyscallError) -> (r: Self) {
        AllocatorError::Syscall(e)
    }
}

impl<D: BlockDevice> vstd::std_specs::convert::FromSpecImpl<SyscallError> for AllocatorError<D> {
    open spec fn obeys_from_spec() -> bool {
        true
    }

    open spec fn from_spec(e: SyscallError) -> Self {
        AllocatorError::Syscall(e)
    }
}

/// The number of bitmap blocks that `total` logical blocks need.
pub open spec fn region_blocks(total: int) -> int {
    (total + BLOCKS_PER_BITMAP_BLOCK - 1) / (BLOCKS_PER_BITMAP_BLOCK as int)
}

/// The number of bits of bitmap block `index` that stand for blocks below
/// `total`.
pub open spec fn bits_in_block(total: int, index: int) -> int {
    if total - index * BLOCKS_PER_BITMAP_BLOCK >= BLOCKS_PER_BITMAP_BLOCK {
        BLOCKS_PER_BITMAP_BLOCK as int
    } else {
        total - index * BLOCKS_PER_BITMAP_BLOCK
    }
}

/// The number of bits that a scan of `bitmap` for its first `limit` bits
/// looks at: `limit`, or all the bits that there are if they are fewer.
pub open spec fn scanned_bits(bitmap: Seq<u8>, limit: usize) -> int {
    if limit <= bitmap.len() * 8 {
        limit as int
    } else {
        (bitmap.len() * 8) as int
    }
}

/// The position of the first clear bit among the first `limit` bits of
/// `bitmap`, if there is one.
pub open spec fn first_clear_bit(bitmap: Seq<u8>, limit: int) -> Option<int>
    decreases limit,
{
    if limit <= 0 {
        None
    } else {
        match first_clear_bit(bitmap, limit - 1) {
            Some(n) => Some(n),
            None => if block_bit(bitmap, limit - 1) {
                None
            } else {
                Some(limit - 1)
            },
        }
    }
}

/// What `first_clear_bit` returns: a clear bit with only set bits below it,
/// or nothing when the first `limit` bits are all set.
pub proof fn lemma_first_clear_bit(bitmap: Seq<u8>, limit: int)
    ensures
        match first_clear_bit(bitmap, limit) {
            Some(n) => 0 <= n < limit && !block_bit(bitmap, n) && forall|m: int|
                0 <= m < n ==> block_bit(bitmap, m),
            None => forall|m: int| 0 <= m < limit ==> block_bit(bitmap, m),
        },
    decreases limit,
{
    if limit > 0 {
        lemma_first_clear_bit(bitmap, limit - 1);
    }
}

proof fn lemma_first_clear_is(bitmap: Seq<u8>, limit: int, n: int)
    requires
        0 <= n < limit,
        !block_bit(bitmap, n),
        forall|m: int| 0 <= m < n ==> block_bit(bitmap, m),
    ensures
        first_clear_bit(bitmap, limit) == Some(n),
{
    lemma_first_clear_bit(bitmap, limit);
}

proof fn lemma_first_clear_none(bitmap: Seq<u8>, limit: int)
    requires
        forall|m: int| 0 <= m < limit ==> block_bit(bitmap, m),
    ensures
        first_clear_bit(bitmap, limit) is None,
{
    lemma_first_clear_bit(bitmap, limit);
}

/// Where the bitmap lives and how many blocks it covers.
pub struct Allocator {
    total_blocks: BlockId,
    bitmap_start_id: BlockId,
    bitmap_block_count: BlockId,
}

impl Allocator {
    /// The number of logical blocks that the bitmap covers.
    pub closed spec fn total(&self) -> BlockId {
        self.total_blocks
    }

    /// The first block of the bitmap region.
    pub closed spec fn start(&self) -> BlockId {
        self.bitmap_start_id
    }

    /// The number of blocks of the bitmap region.
    pub closed spec fn count(&self) -> BlockId {
        self.bitmap_block_count
    }

    /// The region has the size that the capacity calls for and its addresses
    /// fit the address type.
    pub open spec fn wf(&self) -> bool {
        &&& self.count() == region_blocks(self.total() as int)
        &&& self.start() + self.count() <= u64::MAX
    }

    /// Whether `id` is a block of the bitmap region.
    pub open spec fn in_region(&self, id: BlockId) -> bool {
        self.start() <= id < self.start() + self.count()
    }

    /// Whether the bitmap region is known to read as `images`: every bitmap
    /// block has exactly that image to show, cached or on the device.
    pub open spec fn reads_as<D: BlockDevice>(
        &self,
        cache: &BlockCache<D>,
        images: Seq<Seq<u8>>,
    ) -> bool {
        &&& images.len() == self.count()
        &&& is_bitmap(images)
        &&& forall|j: int|
            0 <= j < self.count() ==> #[trigger] cache.logical((self.start() + j) as BlockId)
                == set![images[j]]
    }

    /// The bitmap region as it reads where every bitmap block is settled.
    pub open spec fn bitmap<D: BlockDevice>(&self, cache: &BlockCache<D>) -> Seq<Seq<u8>> {
        Seq::new(self.count() as nat, |j: int| cache.image((self.start() + j) as BlockId))
    }

    /// Whether every bitmap block is settled on a whole block.
    pub open spec fn settled<D: BlockDevice>(&self, cache: &BlockCache<D>) -> bool {
        forall|j: int|
            0 <= j < self.count() ==> #[trigger] cache.settled((self.start() + j) as BlockId)
                && cache.image((self.start() + j) as BlockId).len() == BLOCK_SIZE
    }

    /// Whether the region marks as allocated what must never be handed
    /// out: block 0 and the region's own blocks.
    pub open spec fn reserves(&self, images: Seq<Seq<u8>>) -> bool {
        &&& 0 < self.total() ==> allocated(images, 0)
        &&& forall|id: BlockId|
            self.in_region(id) && id < self.total() ==> #[trigger] allocated(images, id as int)
    }

    /// Whether the bitmap can be relied on: it is settled and marks the
    /// reserved blocks.
    pub open spec fn sound<D: BlockDevice>(&self, cache: &BlockCache<D>) -> bool {
        self.settled(cache) && self.reserves(self.bitmap(cache))
    }

    /// A settled region reads as its bitmap, and a region that reads as
    /// some images is settled with those as its bitmap.
    pub proof fn lemma_reads_as<D: BlockDevice>(&self, cache: &BlockCache<D>, images: Seq<Seq<u8>>)
        requires
            self.wf(),
        ensures
            self.settled(cache) ==> self.reads_as(cache, self.bitmap(cache)),
            self.reads_as(cache, images) ==> self.settled(cache) && self.bitmap(cache) == images,
    {
        if self.settled(cache) {
            let bitmap = self.bitmap(cache);
            assert forall|j: int| 0 <= j < self.count() implies #[trigger] cache.logical(
                (self.start() + j) as BlockId,
            ) == set![bitmap[j]] by {
                assert(cache.settled((self.start() + j) as BlockId));
            }
            assert forall|j: int| 0 <= j < bitmap.len()
                implies (#[trigger] bitmap[j]).len() == BLOCK_SIZE by {
                assert(cache.settled((self.start() + j) as BlockId));
            }
        }
        if self.reads_as(cache, images) {
            assert forall|j: int| 0 <= j < self.count() implies #[trigger] cache.settled(
                (self.start() + j) as BlockId,
            ) && cache.image((self.start() + j) as BlockId) == images[j] && cache.image(
                (self.start() + j) as BlockId,
            ).len() == BLOCK_SIZE by {
                assert(cache.logical((self.start() + j) as BlockId) == set![images[j]]);
                cache.lemma_settled_on((self.start() + j) as BlockId, images[j]);
                assert(images[j].len() == BLOCK_SIZE);
            }
            assert forall|j: int| 0 <= j < self.count()
                implies self.bitmap(cache)[j] == images[j] by {
                assert(cache.settled((self.start() + j) as BlockId));
            }
            assert(self.bitmap(cache) =~= images);
        }
    }

    /// Whether everything outside the bitmap region is cached in `after` as
    /// it was in `before`.
    pub open spec fn same_outside<D: BlockDevice>(
        &self,
        before: &BlockCache<D>,
        after: &BlockCache<D>,
    ) -> bool {
        forall|id: BlockId|
            !self.in_region(id) ==> #[trigger] after.contains(id) == before.contains(id) && (
            before.contains(id) ==> after.entries()[id] == before.entries()[id])
    }

    /// Describes the bitmap of the device under `cache`, with the region
    /// starting at `bitmap_start_id`.
    ///
    /// Fails with `Syscall(EINVAL)` when the region's addresses would not fit.
    pub fn new<D: BlockDevice>(cache: &BlockCache<D>, bitmap_start_id: BlockId) -> (r: Result<
        Self,
        AllocatorError<D>,
    >)
        requires
            cache.wf(),
        ensures
            match r {
                Ok(a) => a.wf() && a.total() == cache.device().capacity() && a.start()
                    == bitmap_start_id,
                Err(e) => e == AllocatorError::<D>::Syscall(SyscallError::EINVAL),
            },
            r is Ok <==> bitmap_start_id + region_blocks(cache.device().capacity() as int)
                <= u64::MAX,
    {
        let total_blocks: BlockId = cache.device_ref().total_blocks();
        let whole: BlockId = total_blocks / BLOCKS_PER_BITMAP_BLOCK;
        let bitmap_block_count: BlockId = if total_blocks % BLOCKS_PER_BITMAP_BLOCK != 0 {
            whole + 1
        } else {
            whole
        };
        if bitmap_start_id > u64::MAX - bitmap_block_count {
            return Err(AllocatorError::Syscall(SyscallError::EINVAL));
        }
        Ok(Allocator { total_blocks, bitmap_start_id, bitmap_block_count })
    }

    /// The number of logical blocks that the bitmap covers.
    pub fn total_blocks(&self) -> (n: BlockId)
        ensures
            n == self.total(),
    {
        self.total_blocks
    }

    /// The first block of the bitmap region.
    pub fn bitmap_start_id(&self) -> (id: BlockId)
        ensures
            id == self.start(),
    {
        self.bitmap_start_id
    }

    /// The number of blocks of the bitmap region.
    pub fn bitmap_block_count(&self) -> (n: BlockId)
        ensures
            n == self.count(),
    {
        self.bitmap_block_count
    }

    /// The bitmap block that records logical block `lba`.
    pub open spec fn block_of(&self, lba: BlockId) -> BlockId {
        (self.start() + lba / BLOCKS_PER_BITMAP_BLOCK) as BlockId
    }

    /// Allocates the lowest free block: sets its bit, marks the bitmap block
    /// dirty and returns the block's address.
    ///
    /// Bitmap blocks are scanned in ascending order and read through the
    /// cache. Fails with `OutOfSpace` when no block below the capacity is
    /// free, and with `DeviceError` when a bitmap block cannot be read.
    #[verifier::rlimit(80)]
    pub fn allocate_block<D: BlockDevice>(&self, cache: &mut BlockCache<D>) -> (r: Result<
        BlockId,
        AllocatorError<D>,
    >)
        requires
            self.wf(),
            old(cache).wf(),
        ensures
            final(cache).wf(),
            final(cache).device() == old(cache).device(),
            self.same_outside(old(cache), final(cache)),
            final(cache).keeps(old(cache)),
            r is Ok ==> r->Ok_0 < self.total(),
            r is Err ==> !(r->Err_0 is Syscall),
            forall|other: BlockId| #[trigger]
                old(cache).contains(other)
                    && final(cache).entries()[other] != old(cache).entries()[other]
                    ==> final(cache).dirty(other),
            r is Err && r->Err_0 is DeviceError ==> exists|id: BlockId|
                self.in_region(id) && !old(cache).contains(id) && !(old(cache).device().readable()
                    && id
                    < old(cache).device().capacity()),
            forall|images: Seq<Seq<u8>>| #[trigger]
                self.reads_as(old(cache), images) ==> match r {
                    Ok(lba) => first_free(images, self.total() as int) == Some(lba as int)
                        && self.reads_as(final(cache), with_allocated(images, lba as int))
                            && final(cache).dirty(self.block_of(lba)),
                    Err(AllocatorError::OutOfSpace) => first_free(images,
                        self.total() as int) is None
                        && self.reads_as(final(cache), images),
                    Err(_) => self.reads_as(final(cache), images),
                },
    {
        let ghost mut seen: Seq<Seq<u8>> = Seq::empty();
        let mut i: BlockId = 0;
        while i < self.bitmap_block_count
            invariant
                i <= self.bitmap_block_count,
                self.wf(),
                cache.wf(),
                cache.device() == old(cache).device(),
                self.same_outside(old(cache), cache),
                cache.keeps(old(cache)),
                forall|other: BlockId| #[trigger]
                    old(cache).contains(other)
                        ==> cache.entries()[other] == old(cache).entries()[other],
                seen.len() == i,
                forall|j: int|
                    0 <= j < i ==> #[trigger] cache.logical((self.start() + j) as BlockId)
                        == set![seen[j]]
                            && old(cache).logical((self.start() + j) as BlockId).contains(
                        seen[j],
                    ) && seen[j].len() == BLOCK_SIZE,
                forall|j: int, m: int|
                    0 <= j < i && 0 <= m < bits_in_block(self.total() as int, j)
                        ==> #[trigger] block_bit(
                        seen[j],
                        m,
                    ),
                forall|j: int|
                    i <= j < self.count()
                        ==> #[trigger] cache.logical((self.start() + j) as BlockId)
                        == old(cache).logical((self.start() + j) as BlockId),
            decreases self.bitmap_block_count - i,
        {
            let id: BlockId = self.bitmap_start_id + i;
            let base: BlockId = i * BLOCKS_PER_BITMAP_BLOCK;
            let remaining: BlockId = self.total_blocks - base;
            let limit: usize = if remaining >= BLOCKS_PER_BITMAP_BLOCK {
                32768
            } else {
                remaining as usize
            };
            let ghost pre = *cache;
            let found: Option<(usize, u8, u8)>;
            let ghost image: Seq<u8>;
            match cache.get_block(id) {
                Err(e) => {
                    proof {
                        assert forall|j: int| 0 <= j < self.count()
                            implies #[trigger] cache.logical(
                            (self.start() + j) as BlockId,
                        ) == pre.logical((self.start() + j) as BlockId) by {}
                        assert forall|other: BlockId| !self.in_region(other)
                            implies #[trigger] cache.contains(
                            other,
                        ) == old(cache).contains(other) && (old(cache).contains(other)
                            ==> cache.entries()[other] == old(cache).entries()[other]) by {
                            assert(pre.contains(other) == old(cache).contains(other));
                        }
                        self.lemma_scan_stops(old(cache), cache, seen, i as int);
                        assert(self.in_region(id));
                        assert(!pre.contains(id));
                        assert(!old(cache).contains(id));
                        assert(!(old(cache).device().readable()
                            && id < old(cache).device().capacity()));
                    }
                    return Err(AllocatorError::DeviceError(e));
                },
                Ok(block) => {
                    let data: &[u8] = block.data();
                    found = match Self::find_free_bit(data, limit) {
                        Some((byte_index, bit_index)) => {
                            proof {
                                lemma_first_clear_bit(data@, limit as int);
                            }
                            Some((byte_index, bit_index, data[byte_index]))
                        },
                        None => None,
                    };
                    proof {
                        image = block.bytes();
                    }
                },
            }
            proof {
                lemma_first_clear_bit(image, limit as int);
                assert forall|j: int| 0 <= j < self.count() && j != i
                    implies #[trigger] cache.logical(
                    (self.start() + j) as BlockId,
                ) == pre.logical((self.start() + j) as BlockId) by {}
                assert(pre.logical(id) == old(cache).logical(id));
                assert(cache.logical(id) == set![image]);
                assert forall|other: BlockId| !self.in_region(other)
                    implies #[trigger] cache.contains(
                    other,
                ) == old(cache).contains(other) && (old(cache).contains(other)
                    ==> cache.entries()[other] == old(cache).entries()[other]) by {
                    assert(other != id);
                    assert(pre.contains(other) == old(cache).contains(other));
                }
            }
            match found {
                Some((byte_index, bit_index, byte)) => {
                    let updated: [u8; 1] = [byte | (1u8 << bit_index)];
                    let ghost mid = *cache;
                    cache.write_at(id, byte_index, updated.as_slice());
                    cache.mark_dirty(id);
                    let lba: BlockId = base + (byte_index as u64) * 8 + bit_index as u64;
                    proof {
                        let n = byte_index * 8 + bit_index;
                        assert(n / 8 == byte_index && n % 8 == bit_index as int);
                        assert(lba / BLOCKS_PER_BITMAP_BLOCK == i
                            && lba % BLOCKS_PER_BITMAP_BLOCK == n);
                        lemma_overwrite_len(image, byte_index as int, updated@);
                        assert(overwrite(image, byte_index as int,
                            updated@) =~= block_with_bit(image, n));
                        assert(cache.logical(id) == set![block_with_bit(image, n)]);
                        assert forall|other: BlockId| !self.in_region(other)
                            implies #[trigger] cache.contains(
                            other,
                        ) == old(cache).contains(other) && (old(cache).contains(other)
                            ==> cache.entries()[other] == old(cache).entries()[other]) by {
                            assert(other != id);
                            assert(mid.contains(other) == old(cache).contains(other));
                        }
                        assert forall|images: Seq<Seq<u8>>| #[trigger]
                            self.reads_as(old(cache), images) implies first_free(
                            images,
                            self.total() as int,
                        ) == Some(lba as int)
                            && self.reads_as(cache, with_allocated(images, lba as int))
                            && cache.dirty(self.block_of(lba)) by {
                            assert forall|j: int| 0 <= j < i implies images[j] == seen[j] by {
                                assert(old(cache).logical((self.start() + j) as BlockId) == set![images[j]]);
                                assert(pre.logical((self.start() + j) as BlockId) == set![seen[j]]);
                            }
                            assert(old(cache).logical((self.start() + i) as BlockId) == set![
                                images[i as int],
                            ]);
                            assert(images[i as int] == image);
                            assert forall|l: int| 0 <= l < lba implies allocated(images, l) by {
                                let j = l / (BLOCKS_PER_BITMAP_BLOCK as int);
                                let m = l % (BLOCKS_PER_BITMAP_BLOCK as int);
                                if j < i {
                                    assert(block_bit(seen[j], m));
                                } else {
                                    assert(block_bit(image, m));
                                }
                            }
                            lemma_first_free_is(images, self.total() as int, lba as int);
                            let after = with_allocated(images, lba as int);
                            assert(after =~= images.update(i as int, block_with_bit(image, n)));
                            lemma_block_bits(image, n, n);
                            assert forall|j: int| 0 <= j < self.count()
                                implies #[trigger] cache.logical(
                                (self.start() + j) as BlockId,
                            ) == set![after[j]] by {
                                if j != i {
                                    assert(mid.logical((self.start() + j) as BlockId) == cache.logical(
                                        (self.start() + j) as BlockId,
                                    ));
                                    assert(mid.logical((self.start() + j) as BlockId) == pre.logical(
                                        (self.start() + j) as BlockId,
                                    ));
                                    if j < i {
                                        assert(pre.logical((self.start() + j) as BlockId) == set![seen[j]]);
                                    } else {
                                        assert(old(cache).logical((self.start() + j) as BlockId) == set![
                                            images[j],
                                        ]);
                                    }
                                }
                            }
                            assert forall|j: int| 0 <= j < after.len()
                                implies (#[trigger] after[j]).len()
                                == BLOCK_SIZE by {
                                if j != i {
                                    assert(images[j].len() == BLOCK_SIZE);
                                }
                            }
                        }
                    }
                    return Ok(lba);
                },
                None => {
                    proof {
                        let earlier = seen;
                        assert(id == (self.start() + i) as BlockId);
                        assert(cache.logical(id) == set![image]);
                        assert(old(cache).logical(id).contains(image));
                        assert(image.len() == BLOCK_SIZE);
                        seen = seen.push(image);
                        assert(seen[i as int] == image);
                        assert forall|j: int|
                            0 <= j < i + 1
                                implies #[trigger] cache.logical((self.start() + j) as BlockId)
                            == set![seen[j]]
                                && old(cache).logical((self.start() + j) as BlockId).contains(
                            seen[j],
                        ) && seen[j].len() == BLOCK_SIZE by {
                            if j < i {
                                assert(seen[j] == earlier[j]);
                                assert(pre.logical((self.start() + j) as BlockId) == set![earlier[j]]);
                                assert(pre.logical((self.start() + j) as BlockId) == cache.logical(
                                    (self.start() + j) as BlockId,
                                ));
                            } else {
                                assert((self.start() + j) as BlockId == id);
                                assert(seen[j] == image);
                                assert(cache.logical((self.start() + j) as BlockId) == set![seen[j]]);
                                assert(old(cache).logical((self.start() + j) as BlockId).contains(seen[j]));
                            }
                        }
                        assert forall|j: int, m: int|
                            0 <= j < i + 1 && 0 <= m < bits_in_block(self.total() as int, j)
                                implies #[trigger] block_bit(seen[j], m) by {
                            if j < i {
                                assert(seen[j] == earlier[j]);
                                assert(block_bit(earlier[j], m));
                            }
                        }
                    }
                },
            }
            i += 1;
            proof {
                assert forall|j: int| 0 <= j < i implies #[trigger] cache.logical(
                    (self.start() + j) as BlockId,
                ) == set![seen[j]] && old(cache).logical((self.start() + j) as BlockId).contains(
                    seen[j],
                ) && seen[j].len() == BLOCK_SIZE by {}
            }
        }
        proof {
            assert forall|images: Seq<Seq<u8>>| #[trigger]
                self.reads_as(old(cache), images)
                    implies first_free(images, self.total() as int) is None
                && self.reads_as(cache, images) by {
                assert forall|j: int| 0 <= j < self.count() implies images[j] == seen[j] by {
                    assert(old(cache).logical((self.start() + j) as BlockId) == set![images[j]]);
                    assert(cache.logical((self.start() + j) as BlockId) == set![seen[j]]);
                }
                assert forall|l: int| 0 <= l < self.total() implies allocated(images, l) by {
                    let j = l / (BLOCKS_PER_BITMAP_BLOCK as int);
                    let m = l % (BLOCKS_PER_BITMAP_BLOCK as int);
                    assert(block_bit(seen[j], m));
                }
                lemma_first_free_none(images, self.total() as int);
                assert forall|j: int| 0 <= j < self.count() implies #[trigger] cache.logical(
                    (self.start() + j) as BlockId,
                ) == set![images[j]] by {
                    assert(cache.logical((self.start() + j) as BlockId) == set![seen[j]]);
                }
            }
        }
        Err(AllocatorError::OutOfSpace)
    }

    /// A scan that stopped after reading some bitmap blocks has changed
    /// nothing that the region reads as.
    proof fn lemma_scan_stops<D: BlockDevice>(
        &self,
        before: &BlockCache<D>,
        after: &BlockCache<D>,
        seen: Seq<Seq<u8>>,
        upto: int,
    )
        requires
            self.wf(),
            0 <= upto <= self.count(),
            seen.len() == upto,
            forall|j: int|
                0 <= j < upto
                    ==> #[trigger] after.logical((self.start() + j) as BlockId) == set![seen[j]]
                    && before.logical((self.start() + j) as BlockId).contains(seen[j]),
            forall|j: int|
                upto <= j < self.count() ==> #[trigger] after.logical((self.start() + j) as BlockId)
                    == before.logical((self.start() + j) as BlockId),
        ensures
            forall|images: Seq<Seq<u8>>| #[trigger]
                self.reads_as(before, images) ==> self.reads_as(after, images),
    {
        assert forall|images: Seq<Seq<u8>>| #[trigger] self.reads_as(before, images)
            implies self.reads_as(
            after,
            images,
        ) by {
            assert forall|j: int| 0 <= j < self.count() implies #[trigger] after.logical(
                (self.start() + j) as BlockId,
            ) == set![images[j]] by {
                assert(before.logical((self.start() + j) as BlockId) == set![images[j]]);
                if j < upto {
                    assert(after.logical((self.start() + j) as BlockId) == set![seen[j]]);
                    assert(images[j] == seen[j]);
                }
            }
        }
    }

    /// Brings the bitmap block of `lba` into the cache and returns the byte
    /// that holds the block's bit.
    fn load_byte<D: BlockDevice>(&self, cache: &mut BlockCache<D>, lba: BlockId) -> (r: Result<
        u8,
        D::Error,
    >)
        requires
            self.wf(),
            old(cache).wf(),
            lba < self.total(),
        ensures
            final(cache).wf(),
            final(cache).device() == old(cache).device(),
            self.same_outside(old(cache), final(cache)),
            final(cache).keeps(old(cache)),
            self.in_region(self.block_of(lba)),
            final(cache).loaded_from(old(cache)),
            old(cache).contains(self.block_of(lba)) || (old(cache).device().readable()
                && self.block_of(lba)
                < old(cache).device().capacity()) ==> r is Ok,
            forall|images: Seq<Seq<u8>>| #[trigger]
                self.reads_as(old(cache), images) ==> self.reads_as(final(cache), images),
            r is Ok ==> {
                let bid = self.block_of(lba);
                let data = final(cache).entries()[bid].data;
                &&& final(cache).contains(bid)
                &&& data.len() == BLOCK_SIZE
                &&& r->Ok_0 == data[(lba % BLOCKS_PER_BITMAP_BLOCK) as int / 8]
                &&& forall|images: Seq<Seq<u8>>| #[trigger]
                    self.reads_as(old(cache), images)
                        ==> images[(lba / BLOCKS_PER_BITMAP_BLOCK) as int]
                        == data
            },
    {
        let index: BlockId = lba / BLOCKS_PER_BITMAP_BLOCK;
        let bid: BlockId = self.bitmap_start_id + index;
        let byte_index: usize = ((lba % BLOCKS_PER_BITMAP_BLOCK) / 8) as usize;
        let ghost pre = *cache;
        let r = match cache.get_block(bid) {
            Ok(block) => Ok(block.data()[byte_index]),
            Err(e) => Err(e),
        };
        proof {
            assert forall|images: Seq<Seq<u8>>| #[trigger] self.reads_as(&pre, images)
                implies self.reads_as(
                cache,
                images,
            ) by {
                assert forall|j: int| 0 <= j < self.count() implies #[trigger] cache.logical(
                    (self.start() + j) as BlockId,
                ) == set![images[j]] by {
                    assert(pre.logical((self.start() + j) as BlockId) == set![images[j]]);
                }
            }
            if r is Ok {
                assert forall|images: Seq<Seq<u8>>| #[trigger] self.reads_as(&pre, images)
                    implies images[index as int]
                    == cache.entries()[bid].data by {
                    assert(pre.logical((self.start() + index) as BlockId) == set![images[index as int]]);
                }
            }
        }
        r
    }

    /// Writes `byte` as the byte that holds the bit of `lba`, in the cached
    /// bitmap block, and marks the block dirty.
    fn store_byte<D: BlockDevice>(&self, cache: &mut BlockCache<D>, lba: BlockId, byte: u8)
        requires
            self.wf(),
            old(cache).wf(),
            lba < self.total(),
            old(cache).contains(self.block_of(lba)),
            old(cache).entries()[self.block_of(lba)].data.len() == BLOCK_SIZE,
        ensures
            final(cache).wf(),
            final(cache).device() == old(cache).device(),
            self.same_outside(old(cache), final(cache)),
            final(cache).keeps(old(cache)),
            final(cache).entries() == old(cache).entries().insert(
                self.block_of(lba),
                CachedImage {
                    data: old(cache).entries()[self.block_of(lba)].data.update(
                        (lba % BLOCKS_PER_BITMAP_BLOCK) as int / 8,
                        byte,
                    ),
                    dirty: true,
                },
            ),
    {
        let bid: BlockId = self.bitmap_start_id + lba / BLOCKS_PER_BITMAP_BLOCK;
        let byte_index: usize = ((lba % BLOCKS_PER_BITMAP_BLOCK) / 8) as usize;
        let updated: [u8; 1] = [byte];
        let ghost data = cache.entries()[bid].data;
        cache.write_at(bid, byte_index, updated.as_slice());
        cache.mark_dirty(bid);
        proof {
            lemma_overwrite_len(data, byte_index as int, updated@);
            assert(overwrite(data, byte_index as int, updated@) =~= data.update(byte_index as int,
                byte));
            assert(cache.entries() =~= old(cache).entries().insert(
                bid,
                CachedImage { data: data.update(byte_index as int, byte), dirty: true },
            ));
        }
    }

    /// The region reads as `images` with one block replaced once that block
    /// is cached with the replacement.
    proof fn lemma_replaced<D: BlockDevice>(
        &self,
        before: &BlockCache<D>,
        after: &BlockCache<D>,
        images: Seq<Seq<u8>>,
        index: int,
        image: Seq<u8>,
    )
        requires
            self.wf(),
            self.reads_as(before, images),
            0 <= index < self.count(),
            image.len() == BLOCK_SIZE,
            after.device() == before.device(),
            after.entries() == before.entries().insert(
                (self.start() + index) as BlockId,
                CachedImage { data: image, dirty: true },
            ),
        ensures
            self.reads_as(after, images.update(index, image)),
    {
        let next = images.update(index, image);
        assert forall|j: int| 0 <= j < self.count() implies #[trigger] after.logical(
            (self.start() + j) as BlockId,
        ) == set![next[j]] by {
            assert(before.logical((self.start() + j) as BlockId) == set![images[j]]);
        }
        assert forall|j: int| 0 <= j < next.len()
            implies (#[trigger] next[j]).len() == BLOCK_SIZE by {
            if j != index {
                assert(images[j].len() == BLOCK_SIZE);
            }
        }
    }

    /// Marks block `id` free. Freeing a block that is free already, or one
    /// beyond the capacity, changes nothing. A bitmap block whose image
    /// changes is marked dirty, and no other cached image changes.
    #[verifier::rlimit(40)]
    pub fn free_block<D: BlockDevice>(&self, cache: &mut BlockCache<D>, id: BlockId) -> (r: Result<
        (),
        AllocatorError<D>,
    >)
        requires
            self.wf(),
            old(cache).wf(),
        ensures
            final(cache).wf(),
            final(cache).device() == old(cache).device(),
            self.same_outside(old(cache), final(cache)),
            final(cache).keeps(old(cache)),
            r is Err ==> r->Err_0 is DeviceError,
            id >= self.total() ==> r is Ok && final(cache).entries() == old(cache).entries(),
            old(cache).contains(self.block_of(id)) || (old(cache).device().readable()
                && self.block_of(id)
                < old(cache).device().capacity()) ==> r is Ok,
            forall|images: Seq<Seq<u8>>| #[trigger]
                self.reads_as(old(cache), images) ==> self.reads_as(
                    final(cache),
                    if r is Ok && id < self.total() {
                        with_freed(images, id as int)
                    } else {
                        images
                    },
                ),
            forall|images: Seq<Seq<u8>>| #[trigger]
                self.reads_as(old(cache), images) && r is Ok && id < self.total()
                    ==> final(cache).dirty(
                    self.block_of(id),
                ) == (old(cache).dirty(self.block_of(id)) || allocated(images, id as int)),
            forall|other: BlockId| #[trigger]
                old(cache).contains(other)
                    && final(cache).entries()[other] != old(cache).entries()[other]
                    ==> other == self.block_of(id) && id < self.total()
                        && final(cache).dirty(other),
    {
        if id >= self.total_blocks {
            return Ok(());
        }
        let byte: u8 = match self.load_byte(cache, id) {
            Ok(byte) => byte,
            Err(e) => {
                return Err(AllocatorError::DeviceError(e));
            },
        };
        let bit: u8 = (id % 8) as u8;
        let ghost mid = *cache;
        let ghost n = (id % BLOCKS_PER_BITMAP_BLOCK) as int;
        let ghost index = (id / BLOCKS_PER_BITMAP_BLOCK) as int;
        proof {
            assert(n % 8 == bit && n % 8 == id % 8);
        }
        if byte & (1u8 << bit) != 0 {
            self.store_byte(cache, id, byte & !(1u8 << bit));
            proof {
                self.lemma_outside_trans(old(cache), &mid, cache);
                assert forall|images: Seq<Seq<u8>>| #[trigger]
                    self.reads_as(old(cache), images) implies self.reads_as(
                    cache,
                    with_freed(images, id as int),
                ) by {
                    assert(self.reads_as(&mid, images));
                    let image = images[index];
                    assert(image == mid.entries()[self.block_of(id)].data);
                    self.lemma_replaced(&mid, cache, images, index, block_without_bit(image, n));
                }
            }
        } else {
            proof {
                assert forall|images: Seq<Seq<u8>>| #[trigger]
                    self.reads_as(old(cache), images) implies self.reads_as(
                    cache,
                    with_freed(images, id as int),
                ) by {
                    let image = images[index];
                    assert(image == mid.entries()[self.block_of(id)].data);
                    lemma_block_bits(image, n, n);
                    assert(with_freed(images, id as int) =~= images);
                }
            }
        }
        Ok(())
    }

    /// Marks block `id` allocated, whatever it was. A block beyond the
    /// capacity has no bit, and nothing changes. A bitmap block whose image
    /// changes is marked dirty, and no other cached image changes.
    #[verifier::rlimit(40)]
    pub fn reserve_block<D: BlockDevice>(&self, cache: &mut BlockCache<D>, id: BlockId) -> (r:
        Result<(), AllocatorError<D>>)
        requires
            self.wf(),
            old(cache).wf(),
        ensures
            final(cache).wf(),
            final(cache).device() == old(cache).device(),
            self.same_outside(old(cache), final(cache)),
            final(cache).keeps(old(cache)),
            r is Err ==> r->Err_0 is DeviceError,
            id >= self.total() ==> r is Ok && final(cache).entries() == old(cache).entries(),
            old(cache).contains(self.block_of(id)) || (old(cache).device().readable()
                && self.block_of(id)
                < old(cache).device().capacity()) ==> r is Ok,
            forall|images: Seq<Seq<u8>>| #[trigger]
                self.reads_as(old(cache), images) ==> self.reads_as(
                    final(cache),
                    if r is Ok && id < self.total() {
                        with_allocated(images, id as int)
                    } else {
                        images
                    },
                ),
            forall|images: Seq<Seq<u8>>| #[trigger]
                self.reads_as(old(cache), images) && r is Ok && id < self.total()
                    ==> final(cache).dirty(
                    self.block_of(id),
                ) == (old(cache).dirty(self.block_of(id)) || !allocated(images, id as int)),
            forall|other: BlockId| #[trigger]
                old(cache).contains(other)
                    && final(cache).entries()[other] != old(cache).entries()[other]
                    ==> other == self.block_of(id) && id < self.total()
                        && final(cache).dirty(other),
    {
        if id >= self.total_blocks {
            return Ok(());
        }
        let byte: u8 = match self.load_byte(cache, id) {
            Ok(byte) => byte,
            Err(e) => {
                return Err(AllocatorError::DeviceError(e));
            },
        };
        let bit: u8 = (id % 8) as u8;
        let ghost mid = *cache;
        let ghost n = (id % BLOCKS_PER_BITMAP_BLOCK) as int;
        let ghost index = (id / BLOCKS_PER_BITMAP_BLOCK) as int;
        proof {
            assert(n % 8 == bit && n % 8 == id % 8);
        }
        if byte & (1u8 << bit) == 0 {
            self.store_byte(cache, id, byte | (1u8 << bit));
            proof {
                self.lemma_outside_trans(old(cache), &mid, cache);
                assert forall|images: Seq<Seq<u8>>| #[trigger]
                    self.reads_as(old(cache), images) implies self.reads_as(
                    cache,
                    with_allocated(images, id as int),
                ) by {
                    assert(self.reads_as(&mid, images));
                    let image = images[index];
                    assert(image == mid.entries()[self.block_of(id)].data);
                    self.lemma_replaced(&mid, cache, images, index, block_with_bit(image, n));
                }
            }
        } else {
            proof {
                assert forall|images: Seq<Seq<u8>>| #[trigger]
                    self.reads_as(old(cache), images) implies self.reads_as(
                    cache,
                    with_allocated(images, id as int),
                ) by {
                    let image = images[index];
                    assert(image == mid.entries()[self.block_of(id)].data);
                    lemma_block_bits(image, n, n);
                    assert(with_allocated(images, id as int) =~= images);
                }
            }
        }
        Ok(())
    }

    /// Tells whether block `id` is marked allocated. A block beyond the
    /// capacity is not.
    pub fn is_allocated<D: BlockDevice>(&self, cache: &mut BlockCache<D>,
        id: BlockId) -> (r: Result<
        bool,
        AllocatorError<D>,
    >)
        requires
            self.wf(),
            old(cache).wf(),
        ensures
            final(cache).wf(),
            final(cache).device() == old(cache).device(),
            self.same_outside(old(cache), final(cache)),
            final(cache).keeps(old(cache)),
            final(cache).loaded_from(old(cache)),
            r is Err ==> r->Err_0 is DeviceError,
            id >= self.total() ==> r == Ok::<bool, AllocatorError<D>>(false),
            old(cache).contains(self.block_of(id)) || (old(cache).device().readable()
                && self.block_of(id)
                < old(cache).device().capacity()) ==> r is Ok,
            forall|images: Seq<Seq<u8>>| #[trigger]
                self.reads_as(old(cache), images) ==> self.reads_as(final(cache), images)
                    && (r is Ok
                    && id < self.total() ==> r->Ok_0 == allocated(images, id as int)),
    {
        if id >= self.total_blocks {
            return Ok(false);
        }
        let byte: u8 = match self.load_byte(cache, id) {
            Ok(byte) => byte,
            Err(e) => {
                return Err(AllocatorError::DeviceError(e));
            },
        };
        let bit: u8 = (id % 8) as u8;
        proof {
            let n = (id % BLOCKS_PER_BITMAP_BLOCK) as int;
            assert(n % 8 == bit && n % 8 == id % 8);
        }
        Ok(byte & (1u8 << bit) != 0)
    }

    /// Agreement outside the region carries over two steps.
    proof fn lemma_outside_trans<D: BlockDevice>(
        &self,
        a: &BlockCache<D>,
        b: &BlockCache<D>,
        c: &BlockCache<D>,
    )
        requires
            self.same_outside(a, b),
            self.same_outside(b, c),
        ensures
            self.same_outside(a, c),
    {
        assert forall|id: BlockId| !self.in_region(id)
            implies #[trigger] c.contains(id) == a.contains(id)
            && (a.contains(id) ==> c.entries()[id] == a.entries()[id]) by {
            assert(b.contains(id) == a.contains(id));
        }
    }

    /// Finds the first clear bit among the first `limit` bits of `bitmap`,
    /// or among all its bits if it has fewer, scanning bytes in ascending
    /// order and each byte from its least significant bit. Returns the
    /// byte's index and the bit's index in it.
    pub fn find_free_bit(bitmap: &[u8], limit: usize) -> (r: Option<(usize, u8)>)
        ensures
            match r {
                Some((byte_index, bit_index)) => bit_index < 8 && first_clear_bit(
                    bitmap@,
                    scanned_bits(bitmap@, limit),
                ) == Some(byte_index * 8 + bit_index),
                None => first_clear_bit(bitmap@, scanned_bits(bitmap@, limit)) is None,
            },
    {
        let needed: usize = if limit % 8 != 0 {
            limit / 8 + 1
        } else {
            limit / 8
        };
        let bytes: usize = if needed < bitmap.len() {
            needed
        } else {
            bitmap.len()
        };
        let ghost bits = scanned_bits(bitmap@, limit);
        let mut byte_index: usize = 0;
        while byte_index < bytes
            invariant
                byte_index <= bytes <= bitmap@.len(),
                bytes <= needed,
                bytes == needed || bytes == bitmap@.len(),
                needed * 8 >= limit > (needed - 1) * 8,
                bits == scanned_bits(bitmap@, limit),
                forall|m: int| 0 <= m < byte_index * 8 && m < bits ==> block_bit(bitmap@, m),
            decreases bytes - byte_index,
        {
            let byte: u8 = bitmap[byte_index];
            if byte != 0xFF {
                let mut bit_index: u8 = 0;
                while bit_index < 8
                    invariant
                        bit_index <= 8,
                        byte_index < bitmap@.len(),
                        byte_index * 8 < limit,
                        bits == scanned_bits(bitmap@, limit),
                        byte == bitmap@[byte_index as int],
                        forall|m: int|
                            0 <= m < byte_index * 8 + bit_index && m < bits
                                ==> block_bit(bitmap@, m),
                    decreases 8 - bit_index,
                {
                    let n: usize = byte_index * 8 + bit_index as usize;
                    if n >= limit {
                        proof {
                            lemma_first_clear_none(bitmap@, bits);
                        }
                        return None;
                    }
                    if byte & (1u8 << bit_index) == 0 {
                        proof {
                            assert(n / 8 == byte_index && n % 8 == bit_index);
                            lemma_first_clear_is(bitmap@, bits, n as int);
                        }
                        return Some((byte_index, bit_index));
                    }
                    proof {
                        assert(n / 8 == byte_index && n % 8 == bit_index);
                        assert(block_bit(bitmap@, n as int));
                    }
                    bit_index += 1;
                }
            } else {
                proof {
                    assert forall|m: int| 0 <= m < (byte_index + 1) * 8 && m < bits
                        implies block_bit(
                        bitmap@,
                        m,
                    ) by {
                        if m >= byte_index * 8 {
                            assert(m / 8 == byte_index);
                            lemma_byte_bits(byte, (m % 8) as u8, (m % 8) as u8);
                        }
                    }
                }
            }
            byte_index += 1;
        }
        proof {
            lemma_first_clear_none(bitmap@, bits);
        }
        None
    }
}

} // verus!
