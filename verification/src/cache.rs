//! The block cache: in-memory images of device blocks with dirty tracking.
//!
//! The cache owns the device. Callers have exclusive access for the length
//! of each call, which is what serialises access to the cached images.

use vstd::prelude::*;
use crate::block_device::{BLOCK_SIZE, BlockDevice, BlockId};
use crate::layout::{overwrite, write_bytes, zeros, lemma_overwrite_len};

verus! {

/// One cached block.
pub struct CacheBlock {
    data: Vec<u8>,
    block_id: BlockId,
    is_dirty: bool,
}

/// What the cache holds for a block: its bytes and whether they still have
/// to be written back.
pub struct CachedImage {
    pub data: Seq<u8>,
    pub dirty: bool,
}

impl CacheBlock {
    /// The block's bytes.
    pub closed spec fn bytes(&self) -> Seq<u8> {
        self.data@
    }

    /// The address that the block belongs to.
    pub closed spec fn id(&self) -> BlockId {
        self.block_id
    }

    /// Whether the block has to be written back.
    pub closed spec fn dirty(&self) -> bool {
        self.is_dirty
    }

    /// The bytes and the dirty flag together.
    pub open spec fn image(&self) -> CachedImage {
        CachedImage { data: self.bytes(), dirty: self.dirty() }
    }

    /// A zeroed block for address `id`, marked dirty.
    pub fn new_empty(id: BlockId) -> (block: Self)
        ensures
            block.id() == id,
            block.bytes() == zeros(BLOCK_SIZE as nat),
            block.dirty(),
    {
        let data: Vec<u8> = vec![0u8; BLOCK_SIZE];
        assert(data@ =~= zeros(BLOCK_SIZE as nat));
        CacheBlock { data, block_id: id, is_dirty: true }
    }

    /// The block's bytes.
    pub fn data(&self) -> (bytes: &[u8])
        ensures
            bytes@ == self.bytes(),
    {
        self.data.as_slice()
    }

    /// The address that the block belongs to.
    pub fn block_id(&self) -> (id: BlockId)
        ensures
            id == self.id(),
    {
        self.block_id
    }

    /// Whether the block has to be written back.
    pub fn is_dirty(&self) -> (dirty: bool)
        ensures
            dirty == self.dirty(),
    {
        self.is_dirty
    }
}

/// Whether the slots are in strictly ascending order of address.
pub open spec fn ascending(slots: Seq<CacheBlock>) -> bool {
    forall|i: int, j: int| 0 <= i < j < slots.len()
        ==> (#[trigger] slots[i]).id() < (#[trigger] slots[j]).id()
}

/// Whether some slot belongs to `id`.
pub open spec fn has_slot(slots: Seq<CacheBlock>, id: BlockId) -> bool {
    exists|i: int| 0 <= i < slots.len() && (#[trigger] slots[i]).id() == id
}

/// The index of the slot that belongs to `id`.
pub open spec fn slot_of(slots: Seq<CacheBlock>, id: BlockId) -> int {
    choose|i: int| 0 <= i < slots.len() && (#[trigger] slots[i]).id() == id
}

/// The slots as a map from address to image.
pub open spec fn slot_map(slots: Seq<CacheBlock>) -> Map<BlockId, CachedImage> {
    Map::new(|id: BlockId| has_slot(slots, id), |id: BlockId| slots[slot_of(slots, id)].image())
}

proof fn lemma_slot_at(slots: Seq<CacheBlock>, i: int)
    requires
        ascending(slots),
        0 <= i < slots.len(),
    ensures
        has_slot(slots, slots[i].id()),
        slot_of(slots, slots[i].id()) == i,
        slot_map(slots).contains_key(slots[i].id()),
        slot_map(slots)[slots[i].id()] == slots[i].image(),
{
    let j = slot_of(slots, slots[i].id());
    assert(0 <= j < slots.len() && slots[j].id() == slots[i].id());
    if j < i {
        assert(slots[j].id() < slots[i].id());
    }
    if i < j {
        assert(slots[i].id() < slots[j].id());
    }
}

proof fn lemma_slot_absent(slots: Seq<CacheBlock>, id: BlockId, pos: int)
    requires
        ascending(slots),
        0 <= pos <= slots.len(),
        forall|i: int| 0 <= i < pos ==> (#[trigger] slots[i]).id() < id,
        pos < slots.len() ==> slots[pos].id() > id,
    ensures
        !has_slot(slots, id),
        !slot_map(slots).contains_key(id),
{
    if has_slot(slots, id) {
        let j = slot_of(slots, id);
        if j < pos {
            assert(slots[j].id() < id);
        } else if j > pos {
            assert(slots[pos].id() < slots[j].id());
        }
    }
}

proof fn lemma_slot_insert(slots: Seq<CacheBlock>, pos: int, block: CacheBlock)
    requires
        ascending(slots),
        0 <= pos <= slots.len(),
        forall|i: int| 0 <= i < pos ==> (#[trigger] slots[i]).id() < block.id(),
        pos < slots.len() ==> slots[pos].id() > block.id(),
    ensures
        ascending(slots.insert(pos, block)),
        slot_map(slots.insert(pos, block)) == slot_map(slots).insert(block.id(), block.image()),
{
    let after = slots.insert(pos, block);
    assert forall|i: int, j: int| 0 <= i < j < after.len() implies (#[trigger] after[i]).id() < (
    #[trigger] after[j]).id() by {
        if j < pos {
            assert(after[i] == slots[i] && after[j] == slots[j]);
        } else if j == pos {
            assert(after[i] == slots[i]);
        } else if i < pos {
            assert(after[i] == slots[i] && after[j] == slots[j - 1]);
            if pos < slots.len() && j - 1 > pos {
                assert(slots[pos].id() < slots[j - 1].id());
            }
        } else if i == pos {
            assert(after[j] == slots[j - 1]);
            if j - 1 > pos {
                assert(slots[pos].id() < slots[j - 1].id());
            }
        } else {
            assert(after[i] == slots[i - 1] && after[j] == slots[j - 1]);
        }
    }
    let lhs = slot_map(after);
    let rhs = slot_map(slots).insert(block.id(), block.image());
    assert forall|id: BlockId| lhs.contains_key(id) == rhs.contains_key(id) by {
        if has_slot(after, id) {
            let j = slot_of(after, id);
            if j < pos {
                assert(slots[j].id() == id);
            } else if j > pos {
                assert(slots[j - 1].id() == id);
            }
        }
        if has_slot(slots, id) {
            let j = slot_of(slots, id);
            if j < pos {
                assert(after[j].id() == id);
            } else {
                assert(after[j + 1].id() == id);
            }
        }
        if id == block.id() {
            assert(after[pos].id() == id);
        }
    }
    assert forall|id: BlockId| lhs.contains_key(id) implies lhs[id] == rhs[id] by {
        let j = slot_of(after, id);
        lemma_slot_at(after, j);
        if j < pos {
            lemma_slot_at(slots, j);
        } else if j > pos {
            lemma_slot_at(slots, j - 1);
        }
    }
    assert(lhs =~= rhs);
}

proof fn lemma_slot_update(slots: Seq<CacheBlock>, pos: int, block: CacheBlock)
    requires
        ascending(slots),
        0 <= pos < slots.len(),
        slots[pos].id() == block.id(),
    ensures
        ascending(slots.update(pos, block)),
        slot_map(slots.update(pos, block)) == slot_map(slots).insert(block.id(), block.image()),
{
    let after = slots.update(pos, block);
    assert forall|i: int, j: int| 0 <= i < j < after.len() implies (#[trigger] after[i]).id() < (
    #[trigger] after[j]).id() by {
        assert(after[i].id() == slots[i].id());
        assert(after[j].id() == slots[j].id());
    }
    let lhs = slot_map(after);
    let rhs = slot_map(slots).insert(block.id(), block.image());
    assert forall|id: BlockId| lhs.contains_key(id) == rhs.contains_key(id) by {
        if has_slot(after, id) {
            let j = slot_of(after, id);
            assert(slots[j].id() == id);
        }
        if has_slot(slots, id) {
            let j = slot_of(slots, id);
            assert(after[j].id() == id);
        }
        if id == block.id() {
            assert(after[pos].id() == id);
        }
    }
    assert forall|id: BlockId| lhs.contains_key(id) implies lhs[id] == rhs[id] by {
        let j = slot_of(after, id);
        lemma_slot_at(after, j);
        if j != pos {
            lemma_slot_at(slots, j);
        }
    }
    assert(lhs =~= rhs);
}

proof fn lemma_slot_remove(slots: Seq<CacheBlock>, pos: int)
    requires
        ascending(slots),
        0 <= pos < slots.len(),
    ensures
        ascending(slots.remove(pos)),
        slot_map(slots.remove(pos)) == slot_map(slots).remove(slots[pos].id()),
{
    let after = slots.remove(pos);
    assert forall|i: int, j: int| 0 <= i < j < after.len() implies (#[trigger] after[i]).id() < (
    #[trigger] after[j]).id() by {
        let oi = if i < pos { i } else { i + 1 };
        let oj = if j < pos { j } else { j + 1 };
        assert(after[i] == slots[oi] && after[j] == slots[oj]);
    }
    let lhs = slot_map(after);
    let rhs = slot_map(slots).remove(slots[pos].id());
    assert forall|id: BlockId| lhs.contains_key(id) == rhs.contains_key(id) by {
        if has_slot(after, id) {
            let j = slot_of(after, id);
            let oj = if j < pos { j } else { j + 1 };
            assert(slots[oj].id() == id);
            lemma_slot_at(slots, oj);
            lemma_slot_at(slots, pos);
        }
        if has_slot(slots, id) && id != slots[pos].id() {
            let j = slot_of(slots, id);
            if j < pos {
                assert(after[j].id() == id);
            } else {
                assert(after[j - 1].id() == id);
            }
        }
    }
    assert forall|id: BlockId| lhs.contains_key(id) implies lhs[id] == rhs[id] by {
        let j = slot_of(after, id);
        lemma_slot_at(after, j);
        let oj = if j < pos { j } else { j + 1 };
        lemma_slot_at(slots, oj);
    }
    assert(lhs =~= rhs);
}

/// A cache of block images over a device.
pub struct BlockCache<D: BlockDevice> {
    device: D,
    blocks: Vec<CacheBlock>,
}

impl<D: BlockDevice> BlockCache<D> {
    /// The device under the cache.
    pub closed spec fn device(&self) -> D {
        self.device
    }

    /// The cached images by address.
    pub closed spec fn entries(&self) -> Map<BlockId, CachedImage> {
        slot_map(self.blocks@)
    }

    /// The device is well formed and every cached image is one block long.
    pub closed spec fn wf(&self) -> bool {
        &&& self.device.wf()
        &&& ascending(self.blocks@)
        &&& forall|i: int| 0 <= i < self.blocks@.len()
            ==> (#[trigger] self.blocks@[i]).bytes().len() == BLOCK_SIZE
    }

    /// Whether block `id` is cached.
    pub open spec fn contains(&self, id: BlockId) -> bool {
        self.entries().contains_key(id)
    }

    /// Whether block `id` is cached and has to be written back.
    pub open spec fn dirty(&self, id: BlockId) -> bool {
        self.contains(id) && self.entries()[id].dirty
    }

    /// The images that block `id` may turn out to have when it is next asked
    /// for: the cached one, or else what the device may return.
    pub open spec fn logical(&self, id: BlockId) -> Set<Seq<u8>> {
        if self.contains(id) {
            set![self.entries()[id].data]
        } else {
            self.device().candidates(id)
        }
    }

    /// The image that block `id` shows, where it has only one to show.
    pub open spec fn image(&self, id: BlockId) -> Seq<u8> {
        self.logical(id).choose()
    }

    /// Whether block `id` has exactly one image to show: it is cached, or
    /// the device has one candidate for it.
    pub open spec fn settled(&self, id: BlockId) -> bool {
        self.logical(id) == set![self.image(id)]
    }

    /// Whether every block that was cached in `before` is cached still,
    /// and dirty if it was.
    pub open spec fn keeps(&self, before: &Self) -> bool {
        forall|id: BlockId| #[trigger]
            before.contains(id) ==> self.contains(id) && (before.entries()[id].dirty
                ==> self.entries()[id].dirty)
    }

    /// Whether this state came from `before` by reading blocks into the
    /// cache and nothing else: what was cached is cached unchanged, and what
    /// is newly cached is a clean image that the device had as a candidate.
    pub open spec fn loaded_from(&self, before: &Self) -> bool {
        &&& self.wf()
        &&& self.device() == before.device()
        &&& forall|id: BlockId| #[trigger]
            before.contains(id) ==> self.contains(id) && self.entries()[id] == before.entries()[id]
        &&& forall|id: BlockId| #[trigger]
            self.contains(id) && !before.contains(id) ==> !self.entries()[id].dirty
                && before.device().candidates(id).contains(self.entries()[id].data)
    }

    /// The device under a consistent cache is consistent.
    pub proof fn lemma_device_wf(&self)
        requires
            self.wf(),
        ensures
            self.device().wf(),
    {
    }

    /// A block with one known image is settled on it.
    pub proof fn lemma_settled_on(&self, id: BlockId, image: Seq<u8>)
        requires
            self.logical(id) == set![image],
        ensures
            self.settled(id),
            self.image(id) == image,
    {
        assert(set![image].contains(image));
    }

    /// A cached block is settled on its cached image.
    pub proof fn lemma_cached_settled(&self, id: BlockId)
        requires
            self.contains(id),
        ensures
            self.settled(id),
            self.image(id) == self.entries()[id].data,
    {
        self.lemma_settled_on(id, self.entries()[id].data);
    }

    /// Reading blocks into the cache leaves every settled block settled on
    /// the image it had.
    pub proof fn lemma_loaded_settled(&self, before: &Self, id: BlockId)
        requires
            self.loaded_from(before),
            before.settled(id),
        ensures
            self.settled(id),
            self.image(id) == before.image(id),
    {
        if self.contains(id) && !before.contains(id) {
            assert(before.logical(id).contains(self.entries()[id].data));
            self.lemma_settled_on(id, before.image(id));
        } else if before.contains(id) {
            assert(self.contains(id));
            self.lemma_settled_on(id, before.image(id));
        } else {
            self.lemma_settled_on(id, before.image(id));
        }
    }

    /// Reading in two rounds is reading.
    pub proof fn lemma_loaded_trans(&self, mid: &Self, before: &Self)
        requires
            mid.loaded_from(before),
            self.loaded_from(mid),
        ensures
            self.loaded_from(before),
    {
        assert forall|id: BlockId| #[trigger] before.contains(id) implies self.contains(id)
            && self.entries()[id] == before.entries()[id] by {
            assert(mid.contains(id));
        }
        assert forall|id: BlockId| #[trigger] self.contains(id) && !before.contains(id)
            implies !self.entries()[id].dirty
            && before.device().candidates(id).contains(self.entries()[id].data) by {
            if mid.contains(id) {
            }
        }
    }

    /// Every cached image is one block long.
    pub proof fn lemma_entry_len(&self, id: BlockId)
        requires
            self.wf(),
            self.contains(id),
        ensures
            self.entries()[id].data.len() == BLOCK_SIZE,
    {
        let j = slot_of(self.blocks@, id);
        lemma_slot_at(self.blocks@, j);
    }

    /// An empty cache over `device`.
    pub fn new(device: D) -> (cache: Self)
        requires
            device.wf(),
        ensures
            cache.wf(),
            cache.device() == device,
            cache.entries() == Map::<BlockId, CachedImage>::empty(),
    {
        let cache = BlockCache { device, blocks: Vec::new() };
        assert(cache.entries() =~= Map::<BlockId, CachedImage>::empty());
        cache
    }

    /// The first slot whose address is not below `id`.
    fn find(&self, id: BlockId) -> (pos: usize)
        requires
            self.wf(),
        ensures
            pos <= self.blocks@.len(),
            forall|i: int| 0 <= i < pos ==> (#[trigger] self.blocks@[i]).id() < id,
            pos < self.blocks@.len() ==> self.blocks@[pos as int].id() >= id,
            self.contains(id) <==> (pos < self.blocks@.len()
                && self.blocks@[pos as int].id() == id),
            self.contains(id) ==> self.entries()[id] == self.blocks@[pos as int].image(),
    {
        let mut pos: usize = 0;
        while pos < self.blocks.len() && self.blocks[pos].block_id < id
            invariant
                pos <= self.blocks@.len(),
                forall|i: int| 0 <= i < pos ==> (#[trigger] self.blocks@[i]).id() < id,
            decreases self.blocks@.len() - pos,
        {
            pos += 1;
        }
        proof {
            if pos < self.blocks@.len() && self.blocks@[pos as int].id() == id {
                lemma_slot_at(self.blocks@, pos as int);
            } else {
                lemma_slot_absent(self.blocks@, id, pos as int);
            }
        }
        pos
    }

    /// Hands out the cached image of block `id`, reading it from the device
    /// first when it is not cached. A freshly read block is clean. Succeeds
    /// for a cached block, and for a block within the capacity of a readable
    /// device.
    pub fn get_block(&mut self, id: BlockId) -> (r: Result<&CacheBlock, D::Error>)
        requires
            old(self).wf(),
        ensures
            final(self).wf(),
            final(self).device() == old(self).device(),
            r is Ok ==> {
                let block = r->Ok_0;
                &&& block.id() == id
                &&& block.bytes().len() == BLOCK_SIZE
                &&& old(self).logical(id).contains(block.bytes())
                &&& final(self).contains(id)
                &&& final(self).entries()[id] == block.image()
                &&& old(self).contains(id) ==> final(self).entries() == old(self).entries()
                &&& !old(self).contains(id) ==> final(self).entries() == old(self).entries().insert(
                    id,
                    CachedImage { data: block.bytes(), dirty: false },
                )
            },
            r is Err ==> !old(self).contains(id) && final(self).entries() == old(self).entries(),
            old(self).contains(id) || (old(self).device().readable()
                && id < old(self).device().capacity())
                ==> r is Ok,
            final(self).loaded_from(old(self)),
    {
        let pos: usize = self.find(id);
        if !(pos < self.blocks.len() && self.blocks[pos].block_id == id) {
            let mut block = CacheBlock::new_empty(id);
            match self.device.read_block(id, block.data.as_mut_slice()) {
                Ok(_) => {},
                Err(e) => {
                    return Err(e);
                },
            }
            block.is_dirty = false;
            proof {
                lemma_slot_insert(self.blocks@, pos as int, block);
            }
            self.blocks.insert(pos, block);
        }
        proof {
            lemma_slot_at(self.blocks@, pos as int);
        }
        Ok(&self.blocks[pos])
    }

    /// Gives block `id` a zeroed image marked dirty, without reading the
    /// device. An image that was cached for `id` is replaced.
    pub fn get_new_block(&mut self, id: BlockId)
        requires
            old(self).wf(),
        ensures
            final(self).wf(),
            final(self).device() == old(self).device(),
            final(self).entries() == old(self).entries().insert(
                id,
                CachedImage { data: zeros(BLOCK_SIZE as nat), dirty: true },
            ),
    {
        let pos: usize = self.find(id);
        let block = CacheBlock::new_empty(id);
        if pos < self.blocks.len() && self.blocks[pos].block_id == id {
            proof {
                lemma_slot_update(self.blocks@, pos as int, block);
            }
            self.blocks[pos] = block;
        } else {
            proof {
                lemma_slot_insert(self.blocks@, pos as int, block);
            }
            self.blocks.insert(pos, block);
        }
    }

    /// Copies `src` into the cached image of block `id` from `off` on.
    ///
    /// Returns whether it did: the block has to be cached and the bytes have
    /// to fit. The dirty flag is left as it was.
    pub fn write_at(&mut self, id: BlockId, off: usize, src: &[u8]) -> (done: bool)
        requires
            old(self).wf(),
        ensures
            final(self).wf(),
            final(self).device() == old(self).device(),
            done == (old(self).contains(id) && off + src@.len() <= BLOCK_SIZE),
            done ==> final(self).entries() == old(self).entries().insert(
                id,
                CachedImage {
                    data: overwrite(old(self).entries()[id].data, off as int, src@),
                    dirty: old(self).entries()[id].dirty,
                },
            ),
            !done ==> final(self).entries() == old(self).entries(),
    {
        let pos: usize = self.find(id);
        if !(pos < self.blocks.len() && self.blocks[pos].block_id == id) {
            return false;
        }
        if off > BLOCK_SIZE || src.len() > BLOCK_SIZE - off {
            return false;
        }
        let ghost before = self.blocks@;
        write_bytes(self.blocks[pos].data.as_mut_slice(), off, src);
        proof {
            lemma_overwrite_len(before[pos as int].bytes(), off as int, src@);
            assert(self.blocks@ =~= before.update(pos as int, self.blocks@[pos as int]));
            lemma_slot_update(before, pos as int, self.blocks@[pos as int]);
        }
        true
    }

    /// Marks the cached image of block `id` as changed. Returns whether the
    /// block is cached.
    pub fn mark_dirty(&mut self, id: BlockId) -> (done: bool)
        requires
            old(self).wf(),
        ensures
            final(self).wf(),
            final(self).device() == old(self).device(),
            done == old(self).contains(id),
            done ==> final(self).entries() == old(self).entries().insert(
                id,
                CachedImage { data: old(self).entries()[id].data, dirty: true },
            ),
            !done ==> final(self).entries() == old(self).entries(),
    {
        let pos: usize = self.find(id);
        if !(pos < self.blocks.len() && self.blocks[pos].block_id == id) {
            return false;
        }
        let ghost before = self.blocks@;
        self.blocks[pos].is_dirty = true;
        proof {
            assert(self.blocks@ =~= before.update(pos as int, self.blocks@[pos as int]));
            lemma_slot_update(before, pos as int, self.blocks@[pos as int]);
        }
        true
    }

    /// How a write-back pass that began in state `before` has left the
    /// cache and the device.
    ///
    /// The pass takes the dirty blocks other than block 0 in ascending order
    /// of address and stops at the first that the device refuses. No cached
    /// image changes. A block that the pass cleaned is on the device with its
    /// cached image as the only candidate. A block that is still dirty has at
    /// most gained that image as a candidate, and once one block was left
    /// dirty no later block was touched. Everything else, block 0 included,
    /// is as it was.
    pub open spec fn written_back_from(&self, before: &Self) -> bool {
        &&& self.wf()
        &&& self.device().capacity() == before.device().capacity()
        &&& forall|id: BlockId| self.contains(id) == before.contains(id)
        &&& forall|id: BlockId| #[trigger]
            before.contains(id) ==> self.entries()[id].data == before.entries()[id].data && (
            self.entries()[id].dirty ==> before.entries()[id].dirty)
        &&& forall|id: BlockId|
            before.dirty(id) && id != 0 && !self.dirty(id)
                ==> #[trigger] self.device().candidates(id)
                == set![before.entries()[id].data]
        &&& forall|id: BlockId|
            !(before.dirty(id) && id != 0) ==> #[trigger] self.device().candidates(id)
                == before.device().candidates(id) && (before.contains(id) ==> self.entries()[id]
                == before.entries()[id])
        &&& forall|id: BlockId|
            before.dirty(id) && id != 0 && self.dirty(id) ==> (#[trigger] self.device().candidates(
                id,
            )).subset_of(before.device().candidates(id).insert(before.entries()[id].data))
        &&& forall|a: BlockId, b: BlockId|
            a < b && before.dirty(a) && a != 0 && before.dirty(b) && #[trigger] self.dirty(a)
                ==> self.dirty(b) && #[trigger] self.device().candidates(b)
                == before.device().candidates(b)
    }

    /// A write-back pass changes no block's image: what is cached shows its
    /// cached image as before, and what is not cached was not written to.
    pub proof fn lemma_written_back_logical(&self, before: &Self, id: BlockId)
        requires
            self.written_back_from(before),
        ensures
            self.logical(id) == before.logical(id),
    {
        assert(self.contains(id) == before.contains(id));
        if !before.contains(id) {
            assert(!(before.dirty(id) && id != 0));
        }
    }

    /// Writes the dirty slot `pos` to the device and marks it clean when the
    /// device took it, as a reliable device does with a block within its
    /// capacity.
    fn write_back(&mut self, pos: usize) -> (r: Result<(), D::Error>)
        requires
            old(self).wf(),
            pos < old(self).blocks@.len(),
        ensures
            final(self).wf(),
            final(self).blocks@.len() == old(self).blocks@.len(),
            forall|j: int|
                0 <= j < final(self).blocks@.len() && j != pos
                    ==> final(self).blocks@[j] == old(self).blocks@[j],
            final(self).blocks@[pos as int].id() == old(self).blocks@[pos as int].id(),
            final(self).blocks@[pos as int].bytes() == old(self).blocks@[pos as int].bytes(),
            final(self).device.capacity() == old(self).device.capacity(),
            forall|other: BlockId|
                other != old(self).blocks@[pos as int].id()
                    ==> #[trigger] final(self).device.candidates(other) == old(self).device.candidates(other),
            r is Ok ==> !final(self).blocks@[pos as int].dirty() && final(self).device.candidates(
                old(self).blocks@[pos as int].id(),
            ) == set![old(self).blocks@[pos as int].bytes()],
            r is Err ==> final(self).blocks@[pos as int].dirty() == old(self).blocks@[pos as int].dirty()
                && final(self).device.candidates(old(self).blocks@[pos as int].id()).subset_of(
                old(self).device.candidates(old(self).blocks@[pos as int].id()).insert(
                    old(self).blocks@[pos as int].bytes(),
                ),
            ),
            old(self).device.reliable() && old(self).blocks@[pos as int].id()
                < old(self).device.capacity() ==> r is Ok,
            old(self).device.reliable() ==> final(self).device.reliable(),
            old(self).device.readable() ==> final(self).device.readable(),
            final(self).device.flushes() == old(self).device.flushes(),
            final(self).device.unflushed().subset_of(
                old(self).device.unflushed().insert(old(self).blocks@[pos as int].id()),
            ),
    {
        let id: BlockId = self.blocks[pos].block_id;
        let ghost before = self.blocks@;
        match self.device.write_block(id, self.blocks[pos].data.as_slice()) {
            Ok(_) => {
                self.blocks[pos].is_dirty = false;
                proof {
                    assert forall|i: int, j: int| 0 <= i < j < self.blocks@.len() implies (
                    #[trigger] self.blocks@[i]).id() < (#[trigger] self.blocks@[j]).id() by {
                        assert(self.blocks@[i].id() == before[i].id());
                        assert(self.blocks@[j].id() == before[j].id());
                    }
                    assert forall|i: int| 0 <= i < self.blocks@.len() implies (
                    #[trigger] self.blocks@[i]).bytes().len() == BLOCK_SIZE by {
                        assert(self.blocks@[i].bytes() == before[i].bytes());
                    }
                }
                Ok(())
            },
            Err(e) => Err(e),
        }
    }

    /// Writes back every dirty block except block 0, in ascending order of
    /// address, and then flushes the device. Stops at the first failure.
    /// After success the device has nothing unflushed.
    /// Succeeds where the device is reliable and every block that is due lies
    /// within its capacity.
    #[verifier::rlimit(40)]
    pub fn flush_all(&mut self) -> (r: Result<(), D::Error>)
        requires
            old(self).wf(),
        ensures
            final(self).written_back_from(old(self)),
            r is Ok ==> forall|id: BlockId| id != 0 ==> !final(self).dirty(id),
            old(self).device().reliable() && (forall|id: BlockId|
                #[trigger] old(self).dirty(id) && id != 0 ==> id < old(self).device().capacity())
                ==> r is Ok,
            old(self).device().reliable() ==> final(self).device().reliable(),
            old(self).device().readable() ==> final(self).device().readable(),
            r is Ok ==> final(self).device().flushes() == old(self).device().flushes() + 1,
            final(self).device().flushes() >= old(self).device().flushes(),
            r is Ok ==> final(self).device().unflushed() == Set::<BlockId>::empty(),
            forall|id: BlockId| #[trigger]
                final(self).device().unflushed().contains(id)
                    ==> old(self).device().unflushed().contains(
                    id,
                ) || (old(self).dirty(id) && id != 0),
    {
        let ghost before = self.blocks@;
        let ghost device_before = self.device;
        let ghost within = forall|id: BlockId|
            #[trigger] old(self).dirty(id) && id != 0 ==> id < old(self).device().capacity();
        let mut i: usize = 0;
        while i < self.blocks.len()
            invariant
                device_before.reliable() ==> self.device.reliable(),
                device_before.readable() ==> self.device.readable(),
                self.device.flushes() == device_before.flushes(),
                forall|x: BlockId| #[trigger]
                    self.device.unflushed().contains(x) ==> device_before.unflushed().contains(x)
                        || (
                    old(self).dirty(x) && x != 0),
                within == (forall|id: BlockId|
                    #[trigger] old(self).dirty(id) && id != 0
                        ==> id < old(self).device().capacity()),
                i <= self.blocks@.len(),
                self.wf(),
                old(self).wf(),
                before == old(self).blocks@,
                device_before == old(self).device,
                self.blocks@.len() == before.len(),
                self.device.capacity() == device_before.capacity(),
                forall|j: int|
                    0 <= j < before.len() ==> (#[trigger] self.blocks@[j]).id() == before[j].id()
                        && self.blocks@[j].bytes() == before[j].bytes(),
                forall|j: int| i <= j < before.len() ==> #[trigger] self.blocks@[j] == before[j],
                forall|j: int|
                    0 <= j < i && (#[trigger] before[j]).dirty() && before[j].id() != 0
                        ==> !self.blocks@[j].dirty() && self.device.candidates(before[j].id())
                        == set![before[j].bytes()],
                forall|j: int|
                    0 <= j < i && !((#[trigger] before[j]).dirty() && before[j].id() != 0)
                        ==> self.blocks@[j] == before[j],
                forall|id: BlockId|
                    !Self::due_before(before, i as int, id)
                        ==> #[trigger] self.device.candidates(id)
                        == device_before.candidates(id),
            decreases self.blocks@.len() - i,
        {
            let id: BlockId = self.blocks[i].block_id;
            if self.blocks[i].is_dirty && id != 0 {
                let ghost device_mid = self.device;
                let ghost blocks_mid = self.blocks@;
                proof {
                    lemma_slot_at(before, i as int);
                    assert(old(self).dirty(id));
                }
                match self.write_back(i) {
                    Ok(_) => {
                        proof {
                            assert forall|j: int|
                                0 <= j < i && (#[trigger] before[j]).dirty() && before[j].id()
                                    != 0 implies !self.blocks@[j].dirty() && self.device.candidates(
                                before[j].id(),
                            ) == set![before[j].bytes()] by {
                                assert(self.blocks@[j] == blocks_mid[j]);
                                assert(before[j].id() < before[i as int].id());
                            }
                            assert forall|other: BlockId|
                                !Self::due_before(
                                    before,
                                    i + 1,
                                    other,
                                ) implies #[trigger] self.device.candidates(other)
                                == device_before.candidates(other) by {
                                assert(other != id);
                                if Self::due_before(before, i as int, other) {
                                    let j = choose|j: int|
                                        0 <= j < i && (#[trigger] before[j]).id() == other
                                            && before[j].dirty() && other != 0;
                                    assert(Self::due_before(before, i + 1, other));
                                }
                            }
                        }
                    },
                    Err(e) => {
                        proof {
                            Self::lemma_pass(old(self), self, i as int, true);
                        }
                        return Err(e);
                    },
                }
            } else {
                proof {
                    assert forall|other: BlockId|
                        !Self::due_before(before, i + 1, other)
                            implies #[trigger] self.device.candidates(
                        other,
                    ) == device_before.candidates(other) by {
                        if Self::due_before(before, i as int, other) {
                            let j = choose|j: int|
                                0 <= j < i && (#[trigger] before[j]).id() == other
                                    && before[j].dirty()
                                    && other != 0;
                            assert(Self::due_before(before, i + 1, other));
                        }
                    }
                }
            }
            i += 1;
        }
        proof {
            Self::lemma_pass(old(self), self, i as int, false);
        }
        let ghost blocks_mid = self.blocks@;
        let ghost mid = *self;
        let r = self.device.flush();
        proof {
            assert(self.blocks@ == blocks_mid);
            assert(self.entries() == mid.entries());
            assert(self.written_back_from(old(self)));
            if r is Ok {
                assert forall|id: BlockId| id != 0 implies !self.dirty(id) by {
                    if self.dirty(id) {
                        let j = slot_of(self.blocks@, id);
                        lemma_slot_at(self.blocks@, j);
                        lemma_slot_at(before, j);
                    }
                }
            }
        }
        r
    }

    /// Whether one of the first `upto` slots belongs to `id` and is due for
    /// writing back.
    spec fn due_before(slots: Seq<CacheBlock>, upto: int, id: BlockId) -> bool {
        exists|j: int| 0 <= j < upto && (#[trigger] slots[j]).id() == id && slots[j].dirty()
            && id != 0
    }

    /// The slot-wise description of a pass that handled the slots before
    /// `upto`, and perhaps failed on slot `upto`, amounts to
    /// `written_back_from`.
    #[verifier::rlimit(40)]
    proof fn lemma_pass(before: &Self, after: &Self, upto: int, failed: bool)
        requires
            before.wf(),
            after.wf(),
            0 <= upto <= before.blocks@.len(),
            failed ==> upto < before.blocks@.len() && before.blocks@[upto].dirty()
                && before.blocks@[upto].id() != 0,
            after.blocks@.len() == before.blocks@.len(),
            after.device.capacity() == before.device.capacity(),
            forall|j: int|
                0 <= j < before.blocks@.len()
                    ==> (#[trigger] after.blocks@[j]).id() == before.blocks@[j].id()
                    && after.blocks@[j].bytes() == before.blocks@[j].bytes(),
            forall|j: int|
                upto <= j < before.blocks@.len() && !(failed && j == upto)
                    ==> #[trigger] after.blocks@[j]
                    == before.blocks@[j],
            failed ==> after.blocks@[upto].dirty(),
            forall|j: int|
                0 <= j < upto && (#[trigger] before.blocks@[j]).dirty()
                    && before.blocks@[j].id() != 0
                    ==> !after.blocks@[j].dirty() && after.device.candidates(before.blocks@[j].id())
                    == set![before.blocks@[j].bytes()],
            forall|j: int|
                0 <= j < upto && !((#[trigger] before.blocks@[j]).dirty()
                    && before.blocks@[j].id() != 0)
                    ==> after.blocks@[j] == before.blocks@[j],
            forall|id: BlockId|
                !Self::due_before(before.blocks@, upto, id) && !(failed
                    && id == before.blocks@[upto].id())
                    ==> #[trigger] after.device.candidates(id) == before.device.candidates(id),
            failed ==> after.device.candidates(before.blocks@[upto].id()).subset_of(
                before.device.candidates(before.blocks@[upto].id()).insert(before.blocks@[upto].bytes()),
            ),
            !failed ==> upto == before.blocks@.len(),
        ensures
            after.written_back_from(before),
    {
        let bs = before.blocks@;
        let af = after.blocks@;
        assert forall|id: BlockId| after.contains(id) == before.contains(id) by {
            if has_slot(af, id) {
                let j = slot_of(af, id);
                assert(bs[j].id() == id);
            }
            if has_slot(bs, id) {
                let j = slot_of(bs, id);
                assert(af[j].id() == id);
            }
        }
        assert forall|id: BlockId| #[trigger] before.contains(id) implies after.entries()[id].data
            == before.entries()[id].data && (after.entries()[id].dirty
                ==> before.entries()[id].dirty) by {
            let j = slot_of(bs, id);
            lemma_slot_at(bs, j);
            assert(af[j].id() == id);
            lemma_slot_at(af, j);
        }
        assert forall|id: BlockId| before.dirty(id) && id != 0 && !after.dirty(id) implies
            #[trigger] after.device().candidates(id) == set![before.entries()[id].data] by {
            let j = slot_of(bs, id);
            lemma_slot_at(bs, j);
            assert(af[j].id() == id);
            lemma_slot_at(af, j);
        }
        assert forall|id: BlockId| !(before.dirty(id) && id != 0) implies
            #[trigger] after.device().candidates(id) == before.device().candidates(id) && (
            before.contains(id) ==> after.entries()[id] == before.entries()[id]) by {
            if Self::due_before(bs, upto, id) {
                let j = choose|j: int|
                    0 <= j < upto && (#[trigger] bs[j]).id() == id && bs[j].dirty() && id != 0;
                lemma_slot_at(bs, j);
            }
            if failed && id == bs[upto].id() {
                lemma_slot_at(bs, upto);
            }
            if before.contains(id) {
                let j = slot_of(bs, id);
                lemma_slot_at(bs, j);
                assert(af[j].id() == id);
                lemma_slot_at(af, j);
            }
        }
        assert forall|id: BlockId| before.dirty(id) && id != 0 && after.dirty(id) implies (
        #[trigger] after.device().candidates(id)).subset_of(
            before.device().candidates(id).insert(before.entries()[id].data),
        ) by {
            let j = slot_of(bs, id);
            lemma_slot_at(bs, j);
            assert(af[j].id() == id);
            lemma_slot_at(af, j);
            if !(failed && j == upto) {
                if Self::due_before(bs, upto, id) {
                    let k = choose|k: int|
                        0 <= k < upto && (#[trigger] bs[k]).id() == id && bs[k].dirty() && id != 0;
                    lemma_slot_at(bs, k);
                }
                assert(after.device.candidates(id) == before.device.candidates(id));
            }
        }
        assert forall|a: BlockId, b: BlockId|
            a < b && before.dirty(a) && a != 0 && before.dirty(b) && #[trigger] after.dirty(
                a,
            ) implies after.dirty(b) && #[trigger] after.device().candidates(b)
            == before.device().candidates(b) by {
            let ja = slot_of(bs, a);
            lemma_slot_at(bs, ja);
            assert(af[ja].id() == a);
            lemma_slot_at(af, ja);
            let jb = slot_of(bs, b);
            lemma_slot_at(bs, jb);
            assert(af[jb].id() == b);
            lemma_slot_at(af, jb);
            assert(ja >= upto);
            if jb <= ja {
                if jb < ja {
                    assert(bs[jb].id() < bs[ja].id());
                }
            }
            assert(jb > upto);
            if Self::due_before(bs, upto, b) {
                let k = choose|k: int|
                    0 <= k < upto && (#[trigger] bs[k]).id() == b && bs[k].dirty() && b != 0;
                lemma_slot_at(bs, k);
            }
        }
    }

    /// Writes back block `id` if it is cached and dirty, block 0 included.
    /// Nothing is flushed. Succeeds where there is nothing to write, and on
    /// a reliable device for a block within its capacity.
    pub fn flush_block(&mut self, id: BlockId) -> (r: Result<(), D::Error>)
        requires
            old(self).wf(),
        ensures
            final(self).wf(),
            final(self).device().capacity() == old(self).device().capacity(),
            forall|other: BlockId|
                other != id
                    ==> #[trigger] final(self).device().candidates(other) == old(self).device().candidates(other),
            !old(self).dirty(id) ==> r is Ok && final(self).entries() == old(self).entries()
                && final(self).device().candidates(id) == old(self).device().candidates(id),
            old(self).dirty(id) && r is Ok ==> final(self).entries() == old(self).entries().insert(
                id,
                CachedImage { data: old(self).entries()[id].data, dirty: false },
            ) && final(self).device().candidates(id) == set![old(self).entries()[id].data],
            old(self).dirty(id) && r is Err ==> final(self).entries() == old(self).entries()
                && final(self).device().candidates(id).subset_of(
                old(self).device().candidates(id).insert(old(self).entries()[id].data),
            ),
            old(self).device().reliable() && id < old(self).device().capacity() ==> r is Ok,
            old(self).device().reliable() ==> final(self).device().reliable(),
            old(self).device().readable() ==> final(self).device().readable(),
            final(self).device().flushes() == old(self).device().flushes(),
            final(self).device().unflushed().subset_of(old(self).device().unflushed().insert(id)),
    {
        let pos: usize = self.find(id);
        if !(pos < self.blocks.len() && self.blocks[pos].block_id == id
            && self.blocks[pos].is_dirty) {
            return Ok(());
        }
        let ghost before = self.blocks@;
        let r = self.write_back(pos);
        proof {
            assert(self.blocks@ =~= before.update(pos as int, self.blocks@[pos as int]));
            lemma_slot_update(before, pos as int, self.blocks@[pos as int]);
            if r is Err {
                assert(self.blocks@[pos as int].image() == before[pos as int].image());
                assert(self.entries() =~= old(self).entries());
            }
        }
        r
    }

    /// Drops the cached image of block `id`, writing it back first if it is
    /// dirty. When the device refuses it, the image stays cached. Nothing is
    /// flushed. Succeeds where there is nothing to write, and on a reliable
    /// device for a block within its capacity.
    pub fn evict(&mut self, id: BlockId) -> (r: Result<(), D::Error>)
        requires
            old(self).wf(),
        ensures
            final(self).wf(),
            final(self).device().capacity() == old(self).device().capacity(),
            forall|other: BlockId|
                other != id
                    ==> #[trigger] final(self).device().candidates(other) == old(self).device().candidates(other),
            !old(self).dirty(id) ==> r is Ok
                && final(self).device().candidates(id) == old(self).device().candidates(id),
            r is Ok ==> final(self).entries() == old(self).entries().remove(id),
            old(self).dirty(id) && r is Ok ==> final(self).device().candidates(id)
                == set![old(self).entries()[id].data],
            r is Err ==> old(self).dirty(id) && final(self).entries() == old(self).entries()
                && final(self).device().candidates(id).subset_of(
                old(self).device().candidates(id).insert(old(self).entries()[id].data),
            ),
            old(self).device().reliable() && id < old(self).device().capacity() ==> r is Ok,
            old(self).device().reliable() ==> final(self).device().reliable(),
            old(self).device().readable() ==> final(self).device().readable(),
            final(self).device().flushes() == old(self).device().flushes(),
            final(self).device().unflushed().subset_of(old(self).device().unflushed().insert(id)),
    {
        let pos: usize = self.find(id);
        if !(pos < self.blocks.len() && self.blocks[pos].block_id == id) {
            assert(self.entries().remove(id) =~= self.entries());
            return Ok(());
        }
        if self.blocks[pos].is_dirty {
            let ghost before = self.blocks@;
            match self.write_back(pos) {
                Ok(_) => {},
                Err(e) => {
                    proof {
                        assert(self.blocks@ =~= before.update(pos as int,
                            self.blocks@[pos as int]));
                        lemma_slot_update(before, pos as int, self.blocks@[pos as int]);
                        assert(self.blocks@[pos as int].image() == before[pos as int].image());
                        assert(self.entries() =~= old(self).entries());
                    }
                    return Err(e);
                },
            }
            proof {
                assert(self.blocks@ =~= before.update(pos as int, self.blocks@[pos as int]));
                lemma_slot_update(before, pos as int, self.blocks@[pos as int]);
            }
        }
        proof {
            lemma_slot_remove(self.blocks@, pos as int);
            assert(self.entries().remove(id) =~= old(self).entries().remove(id));
        }
        let ghost mid = self.blocks@;
        self.blocks.remove(pos);
        proof {
            assert forall|i: int| 0 <= i < self.blocks@.len()
                implies (#[trigger] self.blocks@[i]).bytes().len()
                == BLOCK_SIZE by {
                let oi = if i < pos { i } else { i + 1 };
                assert(self.blocks@[i] == mid[oi]);
            }
        }
        Ok(())
    }

    /// Asks the device to make what was written durable, as a reliable
    /// device does. A success is one more flush that the device has
    /// acknowledged, and leaves nothing unflushed.
    pub fn flush_device(&mut self) -> (r: Result<(), D::Error>)
        requires
            old(self).wf(),
        ensures
            final(self).wf(),
            final(self).entries() == old(self).entries(),
            final(self).device().capacity() == old(self).device().capacity(),
            forall|id: BlockId| #[trigger]
                final(self).device().candidates(id) == old(self).device().candidates(id),
            old(self).device().reliable() ==> r is Ok,
            old(self).device().reliable() ==> final(self).device().reliable(),
            old(self).device().readable() ==> final(self).device().readable(),
            r is Ok ==> final(self).device().flushes() == old(self).device().flushes() + 1,
            final(self).device().flushes() >= old(self).device().flushes(),
            r is Ok ==> final(self).device().unflushed() == Set::<BlockId>::empty(),
            final(self).device().unflushed().subset_of(old(self).device().unflushed()),
    {
        self.device.flush()
    }

    /// Whether block `id` is cached.
    pub fn is_cached(&self, id: BlockId) -> (cached: bool)
        requires
            self.wf(),
        ensures
            cached == self.contains(id),
    {
        let pos: usize = self.find(id);
        pos < self.blocks.len() && self.blocks[pos].block_id == id
    }

    /// Whether block `id` is cached and has to be written back.
    pub fn is_dirty(&self, id: BlockId) -> (dirty: bool)
        requires
            self.wf(),
        ensures
            dirty == self.dirty(id),
    {
        let pos: usize = self.find(id);
        pos < self.blocks.len() && self.blocks[pos].block_id == id && self.blocks[pos].is_dirty
    }

    /// The device under the cache.
    pub fn device_ref(&self) -> (device: &D)
        ensures
            *device == self.device(),
            self.wf() ==> device.wf(),
    {
        &self.device
    }

    /// Gives the device back, consistent if the cache was, and drops every
    /// cached image, written back or not.
    pub fn into_device(self) -> (device: D)
        ensures
            device == self.device(),
            self.wf() ==> device.wf(),
    {
        self.device
    }
}

} // verus!
