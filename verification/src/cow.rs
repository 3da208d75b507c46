//! Copy-on-write steps: what taking fresh blocks for new content does to
//! the cache and the bitmap, and what it leaves alone.

use vstd::prelude::*;
use crate::allocator::{Allocator, AllocatorError};
use crate::bitmap::{
    allocated, allocated_count, BLOCKS_PER_BITMAP_BLOCK, first_free, is_bitmap, with_allocated,
    lemma_count_with_allocated, lemma_first_free_from, lemma_free_undoes_allocate,
    lemma_full_count, lemma_region_bits,
};
use crate::block_device::{BLOCK_SIZE, BlockDevice, BlockId};
use crate::cache::{BlockCache, CachedImage};
use crate::layout::{overwrite, zeros};

verus! {

/// The region with every one of `blocks` marked allocated.
pub open spec fn marked(images: Seq<Seq<u8>>, blocks: Seq<BlockId>) -> Seq<Seq<u8>>
    decreases blocks.len(),
{
    if blocks.len() == 0 {
        images
    } else {
        with_allocated(marked(images, blocks.drop_last()), blocks.last() as int)
    }
}

/// Whether every one of `blocks` is free in the region.
pub open spec fn all_free(images: Seq<Seq<u8>>, blocks: Seq<BlockId>) -> bool {
    forall|i: int| 0 <= i < blocks.len() ==> !allocated(images, #[trigger] blocks[i] as int)
}

/// Whether every image that was cached in `before` and is clean in `after`
/// is cached as it was: what a step changes in the cache, it marks dirty.
pub open spec fn clean_kept<D: BlockDevice>(before: &BlockCache<D>, after: &BlockCache<D>) -> bool {
    forall|id: BlockId| #[trigger]
        before.contains(id) && !after.dirty(id) ==> after.entries()[id] == before.entries()[id]
}

/// How a tree operation that took the blocks `fresh` for new nodes has left
/// the cache.
///
/// The device is untouched. What is clean afterwards has not changed in the
/// cache. Apart from the bitmap region and the fresh
/// blocks, what was cached is cached unchanged and what is newly cached was
/// read from the device. Where the bitmap could be relied on before, it can
/// be after: the fresh blocks were free, are distinct, lie outside the
/// reserved blocks, and are now marked allocated, and nothing else in the
/// bitmap has changed.
pub open spec fn grown<D: BlockDevice>(
    alloc: &Allocator,
    before: &BlockCache<D>,
    after: &BlockCache<D>,
    fresh: Seq<BlockId>,
) -> bool {
    &&& after.wf()
    &&& after.device() == before.device()
    &&& after.keeps(before)
    &&& clean_kept(before, after)
    &&& forall|id: BlockId|
        #![trigger after.contains(id)]
        #![trigger before.contains(id)]
        !alloc.in_region(id) && !fresh.contains(id) ==> (before.contains(id) ==> after.contains(id)
            && after.entries()[id] == before.entries()[id]) && (after.contains(id)
                && !before.contains(
            id,
        ) ==> !after.entries()[id].dirty && before.device().candidates(id).contains(
            after.entries()[id].data,
        ))
    &&& alloc.sound(before) ==> {
        &&& alloc.sound(after)
        &&& alloc.bitmap(after) == marked(alloc.bitmap(before), fresh)
        &&& all_free(alloc.bitmap(before), fresh)
        &&& fresh.no_duplicates()
        &&& forall|i: int|
            0 <= i < fresh.len() ==> (#[trigger] fresh[i]) < alloc.total()
                && !alloc.in_region(fresh[i])
                && fresh[i] != 0
    }
}

/// Marking blocks allocated changes the state of those blocks and no other.
pub proof fn lemma_marked(images: Seq<Seq<u8>>, blocks: Seq<BlockId>)
    requires
        is_bitmap(images),
        forall|i: int| 0 <= i < blocks.len()
            ==> (#[trigger] blocks[i]) < images.len() * BLOCKS_PER_BITMAP_BLOCK,
    ensures
        is_bitmap(marked(images, blocks)),
        marked(images, blocks).len() == images.len(),
        forall|l: int|
            0 <= l < images.len() * BLOCKS_PER_BITMAP_BLOCK ==> #[trigger] allocated(
                marked(images, blocks),
                l,
            ) == (allocated(images, l) || exists|i: int| 0 <= i < blocks.len() && blocks[i] == l),
    decreases blocks.len(),
{
    if blocks.len() > 0 {
        let front = blocks.drop_last();
        let last = blocks.last();
        assert forall|i: int| 0 <= i < front.len() implies (#[trigger] front[i]) < images.len()
            * BLOCKS_PER_BITMAP_BLOCK by {
            assert(front[i] == blocks[i]);
        }
        lemma_marked(images, front);
        let mid = marked(images, front);
        lemma_region_bits(mid, last as int, last as int);
        assert forall|l: int| 0 <= l < images.len() * BLOCKS_PER_BITMAP_BLOCK
            implies #[trigger] allocated(
            marked(images, blocks),
            l,
        ) == (allocated(images, l) || exists|i: int| 0 <= i < blocks.len() && blocks[i] == l) by {
            lemma_region_bits(mid, last as int, l);
            if exists|i: int| 0 <= i < front.len() && front[i] == l {
                let i = choose|i: int| 0 <= i < front.len() && front[i] == l;
                assert(blocks[i] == l);
            }
            if exists|i: int| 0 <= i < blocks.len() && blocks[i] == l {
                let i = choose|i: int| 0 <= i < blocks.len() && blocks[i] == l;
                if i < front.len() {
                    assert(front[i] == l);
                }
            }
            if l == last {
                assert(blocks[blocks.len() - 1] == l);
            }
        }
    }
}

/// Marking in two rounds is marking all at once.
pub proof fn lemma_marked_concat(images: Seq<Seq<u8>>, first: Seq<BlockId>, second: Seq<BlockId>)
    ensures
        marked(marked(images, first), second) == marked(images, first + second),
    decreases second.len(),
{
    if second.len() == 0 {
        assert(first + second =~= first);
    } else {
        lemma_marked_concat(images, first, second.drop_last());
        assert((first + second).drop_last() =~= first + second.drop_last());
        assert((first + second).last() == second.last());
    }
}

/// Marking blocks that were free, each once, adds their number to the
/// number of allocated blocks.
pub proof fn lemma_marked_count(images: Seq<Seq<u8>>, blocks: Seq<BlockId>, total: int)
    requires
        is_bitmap(images),
        0 <= total <= images.len() * BLOCKS_PER_BITMAP_BLOCK,
        all_free(images, blocks),
        blocks.no_duplicates(),
        forall|i: int| 0 <= i < blocks.len() ==> (#[trigger] blocks[i]) < total,
    ensures
        allocated_count(marked(images, blocks), total) == allocated_count(images, total)
            + blocks.len(),
    decreases blocks.len(),
{
    if blocks.len() > 0 {
        let front = blocks.drop_last();
        let last = blocks.last();
        assert forall|i: int| 0 <= i < front.len() implies (#[trigger] front[i]) < total
            && !allocated(images, front[i] as int) by {
            assert(front[i] == blocks[i]);
        }
        lemma_marked_count(images, front, total);
        lemma_marked(images, front);
        assert(!allocated(images, blocks[blocks.len() - 1] as int));
        if exists|i: int| 0 <= i < front.len() && front[i] == last {
            let i = choose|i: int| 0 <= i < front.len() && front[i] == last;
            assert(blocks[i] == blocks[blocks.len() - 1]);
        }
        assert(!allocated(marked(images, front), last as int));
        lemma_count_with_allocated(marked(images, front), last as int, total);
    }
}

/// Whether block `id` can only be had by a read that the device may
/// refuse: it is not cached, and the device does not promise to answer for
/// it.
pub open spec fn out_of_hand<D: BlockDevice>(cache: &BlockCache<D>, id: BlockId) -> bool {
    !cache.contains(id) && !(cache.device().readable() && id < cache.device().capacity())
}

/// What a failure to allocate, in a step from `before` to `after`, says of
/// the volume: a bitmap block was out of hand, or, where the bitmap could be
/// relied on, the step left no block free.
pub open spec fn allocation_excused<D: BlockDevice>(
    alloc: &Allocator,
    before: &BlockCache<D>,
    after: &BlockCache<D>,
    e: AllocatorError<D>,
) -> bool {
    match e {
        AllocatorError::OutOfSpace => alloc.sound(before) ==> first_free(
            alloc.bitmap(after),
            alloc.total() as int,
        ) is None,
        AllocatorError::DeviceError(_) => exists|id: BlockId|
            alloc.in_region(id) && out_of_hand(before, id),
        AllocatorError::Syscall(_) => false,
    }
}

/// A failure to allocate that a later part of a step can answer for, the
/// whole step can answer for.
pub proof fn lemma_excused_before<D: BlockDevice>(
    alloc: &Allocator,
    before: &BlockCache<D>,
    mid: &BlockCache<D>,
    after: &BlockCache<D>,
    added: Seq<BlockId>,
    e: AllocatorError<D>,
)
    requires
        grown(alloc, before, mid, added),
        allocation_excused(alloc, mid, after, e),
    ensures
        allocation_excused(alloc, before, after, e),
{
    if e is DeviceError {
        let id = choose|id: BlockId| alloc.in_region(id) && out_of_hand(mid, id);
        if before.contains(id) {
            assert(mid.contains(id));
        }
        assert(alloc.in_region(id) && out_of_hand(before, id));
    }
}

/// A step that ends with no block free has taken every block that was
/// free when it began.
pub proof fn lemma_room_used<D: BlockDevice>(
    alloc: &Allocator,
    before: &BlockCache<D>,
    after: &BlockCache<D>,
    added: Seq<BlockId>,
)
    requires
        alloc.wf(),
        alloc.sound(before),
        grown(alloc, before, after, added),
        first_free(alloc.bitmap(after), alloc.total() as int) is None,
    ensures
        allocated_count(alloc.bitmap(before), alloc.total() as int) + added.len() == alloc.total(),
{
    let images = alloc.bitmap(before);
    let total = alloc.total() as int;
    alloc.lemma_reads_as(before, images);
    lemma_region_covers(alloc);
    lemma_marked_count(images, added, total);
    lemma_full_count(alloc.bitmap(after), total);
}

/// The region of a well-formed allocator has a bit for every block below
/// the capacity.
pub proof fn lemma_region_covers(alloc: &Allocator)
    requires
        alloc.wf(),
    ensures
        alloc.total() <= alloc.count() * BLOCKS_PER_BITMAP_BLOCK,
{
}

/// Reading blocks into the cache is a step that takes no fresh block.
pub proof fn lemma_grown_loaded<D: BlockDevice>(
    alloc: &Allocator,
    before: &BlockCache<D>,
    after: &BlockCache<D>,
)
    requires
        alloc.wf(),
        after.loaded_from(before),
    ensures
        grown(alloc, before, after, Seq::<BlockId>::empty()),
{
    if alloc.sound(before) {
        assert forall|j: int| 0 <= j < alloc.count() implies #[trigger] after.settled(
            (alloc.start() + j) as BlockId,
        ) && after.image((alloc.start() + j) as BlockId) == before.image((alloc.start() + j) as BlockId)
            && after.image((alloc.start() + j) as BlockId).len() == BLOCK_SIZE by {
            assert(before.settled((alloc.start() + j) as BlockId));
            after.lemma_loaded_settled(before, (alloc.start() + j) as BlockId);
        }
        assert forall|j: int| 0 <= j < alloc.count() implies alloc.bitmap(after)[j] == alloc.bitmap(
            before,
        )[j] by {
            assert(after.settled((alloc.start() + j) as BlockId));
        }
        assert(alloc.bitmap(after) =~= alloc.bitmap(before));
    }
}

/// Two steps in a row are one step that took the fresh blocks of both.
#[verifier::rlimit(40)]
pub proof fn lemma_grown_trans<D: BlockDevice>(
    alloc: &Allocator,
    a: &BlockCache<D>,
    b: &BlockCache<D>,
    c: &BlockCache<D>,
    first: Seq<BlockId>,
    second: Seq<BlockId>,
)
    requires
        alloc.wf(),
        grown(alloc, a, b, first),
        grown(alloc, b, c, second),
    ensures
        grown(alloc, a, c, first + second),
{
    let both = first + second;
    assert forall|id: BlockId|
        #![trigger c.contains(id)]
        #![trigger a.contains(id)]
        !alloc.in_region(id) && !both.contains(id) implies (a.contains(id) ==> c.contains(id)
        && c.entries()[id] == a.entries()[id]) && (c.contains(id) && !a.contains(id)
        ==> !c.entries()[id].dirty && a.device().candidates(id).contains(c.entries()[id].data)) by {
        if first.contains(id) {
            let i = choose|i: int| 0 <= i < first.len() && first[i] == id;
            assert(both[i] == id);
        }
        if second.contains(id) {
            let i = choose|i: int| 0 <= i < second.len() && second[i] == id;
            assert(both[first.len() + i] == id);
        }
        assert(b.contains(id) || !b.contains(id));
    }
    if alloc.sound(a) {
        let images = alloc.bitmap(a);
        lemma_region_covers(alloc);
        assert forall|i: int| 0 <= i < first.len() implies (#[trigger] first[i]) < images.len()
            * BLOCKS_PER_BITMAP_BLOCK by {}
        assert(is_bitmap(images)) by {
            assert forall|j: int| 0 <= j < images.len()
                implies (#[trigger] images[j]).len() == BLOCK_SIZE by {
                assert(a.settled((alloc.start() + j) as BlockId));
            }
        }
        lemma_marked(images, first);
        lemma_marked_concat(images, first, second);
        assert forall|i: int| 0 <= i < both.len()
            implies !allocated(images, #[trigger] both[i] as int) by {
            if i >= first.len() {
                let k = i - first.len();
                assert(both[i] == second[k]);
                assert(!allocated(marked(images, first), second[k] as int));
            } else {
                assert(both[i] == first[i]);
            }
        }
        assert forall|i: int, j: int| 0 <= i < both.len() && 0 <= j < both.len() && i != j
            implies both[i]
            != both[j] by {
            if i < first.len() && j < first.len() {
                assert(first[i] != first[j]);
            } else if i >= first.len() && j >= first.len() {
                assert(second[i - first.len()] != second[j - first.len()]);
            } else {
                let (p, q) = if i < first.len() { (i, j - first.len()) } else { (j,
                    i - first.len()) };
                assert(!allocated(marked(images, first), second[q] as int));
                assert(allocated(marked(images, first), first[p] as int));
            }
        }
        assert forall|i: int| 0 <= i < both.len() implies (#[trigger] both[i]) < alloc.total()
            && !alloc.in_region(both[i]) && both[i] != 0 by {
            if i >= first.len() {
                assert(both[i] == second[i - first.len()]);
            } else {
                assert(both[i] == first[i]);
            }
        }
    }
}

/// Allocates a block for new content and gives it a zeroed, dirty image in
/// the cache, without reading the device. The address is also added to
/// `fresh`.
#[verifier::rlimit(40)]
pub fn claim_block<D: BlockDevice>(
    alloc: &Allocator,
    cache: &mut BlockCache<D>,
    fresh: &mut Vec<BlockId>,
) -> (r: Result<BlockId, AllocatorError<D>>)
    requires
        alloc.wf(),
        old(cache).wf(),
    ensures
        match r {
            Ok(id) => final(fresh)@ == old(fresh)@.push(id) && grown(
                alloc,
                old(cache),
                final(cache),
                seq![id],
            ) && final(cache).contains(id) && final(cache).entries()[id] == (CachedImage {
                data: zeros(BLOCK_SIZE as nat),
                dirty: true,
            }) && (alloc.sound(old(cache)) ==> first_free(
                alloc.bitmap(old(cache)),
                alloc.total() as int,
            ) == Some(id as int)),
            Err(e) => final(fresh)@ == old(fresh)@ && grown(
                alloc,
                old(cache),
                final(cache),
                Seq::<BlockId>::empty(),
            ) && !(e is Syscall) && (alloc.sound(old(cache)) && e is OutOfSpace ==> first_free(
                alloc.bitmap(old(cache)),
                alloc.total() as int,
            ) is None) && (e is DeviceError ==> exists|id: BlockId|
                alloc.in_region(id) && !old(cache).contains(id)) && allocation_excused(
                alloc,
                old(cache),
                final(cache),
                e,
            ),
        },
{
    let ghost images = alloc.bitmap(cache);
    proof {
        alloc.lemma_reads_as(cache, images);
    }
    let id: BlockId = match alloc.allocate_block(cache) {
        Ok(id) => id,
        Err(e) => {
            proof {
                if alloc.sound(old(cache)) {
                    alloc.lemma_reads_as(cache, images);
                }
                assert(Seq::<BlockId>::empty().len() == 0);
            }
            return Err(e);
        },
    };
    let ghost mid = *cache;
    fresh.push(id);
    cache.get_new_block(id);
    proof {
        assert(seq![id].len() == 1 && seq![id][0] == id);
        assert forall|other: BlockId|
            #![trigger cache.contains(other)]
            #![trigger old(cache).contains(other)]
            !alloc.in_region(other) && !seq![id].contains(other) implies (old(cache).contains(other)
            ==> cache.contains(other) && cache.entries()[other] == old(cache).entries()[other]) && (
        cache.contains(other) && !old(cache).contains(other) ==> !cache.entries()[other].dirty
            && old(cache).device().candidates(other).contains(cache.entries()[other].data)) by {
            assert(other != id);
            assert(mid.contains(other) == old(cache).contains(other));
        }
        if alloc.sound(old(cache)) {
            lemma_first_free_from(images, alloc.total() as int, 0);
            lemma_region_covers(alloc);
            assert(alloc.reads_as(&mid, with_allocated(images, id as int)));
            let after = with_allocated(images, id as int);
            assert(!alloc.in_region(id)) by {
                if alloc.in_region(id) {
                    assert(allocated(images, id as int));
                }
            }
            assert(id != 0);
            assert forall|j: int| 0 <= j < alloc.count() implies #[trigger] cache.logical(
                (alloc.start() + j) as BlockId,
            ) == set![after[j]] by {
                assert(mid.logical((alloc.start() + j) as BlockId) == set![after[j]]);
                assert(alloc.in_region((alloc.start() + j) as BlockId));
            }
            assert(alloc.reads_as(cache, after));
            alloc.lemma_reads_as(cache, after);
            assert(marked(images, seq![id]) == after) by {
                assert(seq![id].drop_last() =~= Seq::<BlockId>::empty());
                assert(marked(images, seq![id].drop_last()) == images);
            }
            assert forall|b: BlockId| alloc.in_region(b) && b < alloc.total()
                implies #[trigger] allocated(
                after,
                b as int,
            ) by {
                lemma_region_bits(images, id as int, b as int);
            }
            if 0 < alloc.total() {
                lemma_region_bits(images, id as int, 0);
            }
        }
    }
    Ok(id)
}

/// Filling a block that a step has claimed leaves the step as it was.
#[verifier::rlimit(40)]
pub proof fn lemma_grown_filled<D: BlockDevice>(
    alloc: &Allocator,
    before: &BlockCache<D>,
    claimed: &BlockCache<D>,
    after: &BlockCache<D>,
    id: BlockId,
    image: Seq<u8>,
)
    requires
        alloc.wf(),
        grown(alloc, before, claimed, seq![id]),
        claimed.contains(id),
        claimed.entries()[id] == (CachedImage { data: zeros(BLOCK_SIZE as nat), dirty: true }),
        image.len() == BLOCK_SIZE,
        after.wf(),
        after.device() == claimed.device(),
        after.entries() == claimed.entries().insert(
            id,
            CachedImage { data: overwrite(claimed.entries()[id].data, 0, image), dirty: true },
        ),
    ensures
        grown(alloc, before, after, seq![id]),
        after.contains(id),
        after.entries()[id] == (CachedImage { data: image, dirty: true }),
{
    assert(overwrite(zeros(BLOCK_SIZE as nat), 0, image) =~= image);
    assert(seq![id].len() == 1 && seq![id][0] == id);
    assert forall|other: BlockId|
        #![trigger after.contains(other)]
        #![trigger before.contains(other)]
        !alloc.in_region(other) && !seq![id].contains(other) implies (before.contains(other)
        ==> after.contains(other) && after.entries()[other] == before.entries()[other]) && (
    after.contains(other) && !before.contains(other) ==> !after.entries()[other].dirty
        && before.device().candidates(other).contains(after.entries()[other].data)) by {
        assert(other != id);
        assert(claimed.contains(other) == after.contains(other));
    }
    if alloc.sound(before) {
        assert(!alloc.in_region(id));
        assert forall|j: int| 0 <= j < alloc.count() implies #[trigger] after.settled(
            (alloc.start() + j) as BlockId,
        ) && after.image((alloc.start() + j) as BlockId) == claimed.image((alloc.start() + j) as BlockId)
            && after.image((alloc.start() + j) as BlockId).len() == BLOCK_SIZE by {
            assert(alloc.in_region((alloc.start() + j) as BlockId));
            assert(claimed.settled((alloc.start() + j) as BlockId));
            assert(after.logical((alloc.start() + j) as BlockId) == claimed.logical(
                (alloc.start() + j) as BlockId,
            ));
        }
        assert forall|j: int| 0 <= j < alloc.count() implies alloc.bitmap(after)[j] == alloc.bitmap(
            claimed,
        )[j] by {
            assert(after.settled((alloc.start() + j) as BlockId));
        }
        assert(alloc.bitmap(after) =~= alloc.bitmap(claimed));
    }
}

/// Giving one of a step's fresh blocks another dirty image leaves the step
/// as it was.
#[verifier::rlimit(40)]
pub proof fn lemma_grown_rewrite<D: BlockDevice>(
    alloc: &Allocator,
    before: &BlockCache<D>,
    mid: &BlockCache<D>,
    after: &BlockCache<D>,
    fresh: Seq<BlockId>,
    id: BlockId,
)
    requires
        alloc.wf(),
        grown(alloc, before, mid, fresh),
        fresh.contains(id),
        mid.contains(id),
        mid.entries()[id].dirty,
        after.wf(),
        after.device() == mid.device(),
        after.entries()[id].dirty,
        after.entries() == mid.entries().insert(id, after.entries()[id]),
    ensures
        grown(alloc, before, after, fresh),
{
    assert forall|other: BlockId|
        #![trigger after.contains(other)]
        #![trigger before.contains(other)]
        !alloc.in_region(other) && !fresh.contains(other) implies (before.contains(other)
        ==> after.contains(other) && after.entries()[other] == before.entries()[other]) && (
    after.contains(other) && !before.contains(other) ==> !after.entries()[other].dirty
        && before.device().candidates(other).contains(after.entries()[other].data)) by {
        assert(other != id);
        assert(mid.contains(other) == after.contains(other));
    }
    assert forall|other: BlockId| #[trigger] before.contains(other) implies after.contains(other)
        && (
    before.entries()[other].dirty ==> after.entries()[other].dirty) by {
        assert(mid.contains(other));
    }
    if alloc.sound(before) {
        let i = choose|i: int| 0 <= i < fresh.len() && fresh[i] == id;
        assert(!alloc.in_region(fresh[i]));
        assert forall|j: int| 0 <= j < alloc.count() implies #[trigger] after.settled(
            (alloc.start() + j) as BlockId,
        ) && after.image((alloc.start() + j) as BlockId) == mid.image((alloc.start() + j) as BlockId)
            && after.image((alloc.start() + j) as BlockId).len() == BLOCK_SIZE by {
            assert(alloc.in_region((alloc.start() + j) as BlockId));
            assert(mid.settled((alloc.start() + j) as BlockId));
            assert(after.logical((alloc.start() + j) as BlockId) == mid.logical(
                (alloc.start() + j) as BlockId,
            ));
        }
        assert forall|j: int| 0 <= j < alloc.count()
            implies alloc.bitmap(after)[j] == alloc.bitmap(mid)[j] by {
            assert(after.settled((alloc.start() + j) as BlockId));
        }
        assert(alloc.bitmap(after) =~= alloc.bitmap(mid));
    }
}

/// A bitmap block that is not cached after a step was not cached before it.
pub proof fn lemma_uncached_before<D: BlockDevice>(
    alloc: &Allocator,
    before: &BlockCache<D>,
    after: &BlockCache<D>,
)
    requires
        after.keeps(before),
        exists|id: BlockId| alloc.in_region(id) && !after.contains(id),
    ensures
        exists|id: BlockId| alloc.in_region(id) && !before.contains(id),
{
    let id = choose|id: BlockId| alloc.in_region(id) && !after.contains(id);
    if before.contains(id) {
        assert(after.contains(id));
    }
    assert(alloc.in_region(id) && !before.contains(id));
}

/// Copy-on-write spares what is allocated: a step of the tree writes
/// nothing to the device, and where the bitmap could be relied on, no block
/// that was allocated before the step, other than a bitmap block, has
/// another image in the cache afterwards.
pub proof fn lemma_no_overwrite<D: BlockDevice>(
    alloc: &Allocator,
    before: &BlockCache<D>,
    after: &BlockCache<D>,
    fresh: Seq<BlockId>,
    id: BlockId,
)
    requires
        alloc.wf(),
        grown(alloc, before, after, fresh),
        alloc.sound(before),
        id < alloc.total(),
        allocated(alloc.bitmap(before), id as int),
        !alloc.in_region(id),
    ensures
        after.device() == before.device(),
        !fresh.contains(id),
        before.contains(id) ==> after.contains(id) && after.entries()[id] == before.entries()[id],
        after.logical(id).subset_of(before.logical(id)),
{
    if fresh.contains(id) {
        let i = choose|i: int| 0 <= i < fresh.len() && fresh[i] == id;
        assert(!allocated(alloc.bitmap(before), fresh[i] as int));
    }
    if after.contains(id) && !before.contains(id) {
        assert(before.device().candidates(id).contains(after.entries()[id].data));
    }
}

/// Whether block `id` is one that a tree's node may live in: below the
/// capacity, neither block 0 nor a bitmap block, and marked allocated.
pub open spec fn node_block<D: BlockDevice>(alloc: &Allocator, cache: &BlockCache<D>,
    id: BlockId) -> bool {
    &&& id != 0
    &&& id < alloc.total()
    &&& !alloc.in_region(id)
    &&& allocated(alloc.bitmap(cache), id as int)
}

/// A node block that showed one image before a step of the tree shows the
/// same image after it, and is a node block still.
pub proof fn lemma_grown_image<D: BlockDevice>(
    alloc: &Allocator,
    before: &BlockCache<D>,
    after: &BlockCache<D>,
    fresh: Seq<BlockId>,
    id: BlockId,
)
    requires
        alloc.wf(),
        grown(alloc, before, after, fresh),
        alloc.sound(before),
        node_block(alloc, before, id),
        before.settled(id),
    ensures
        node_block(alloc, after, id),
        after.settled(id),
        after.image(id) == before.image(id),
        !fresh.contains(id),
{
    lemma_no_overwrite(alloc, before, after, fresh, id);
    lemma_region_covers(alloc);
    assert(is_bitmap(alloc.bitmap(before))) by {
        assert forall|j: int| 0 <= j < alloc.bitmap(before).len() implies (#[trigger] alloc.bitmap(
            before,
        )[j]).len() == BLOCK_SIZE by {
            assert(before.settled((alloc.start() + j) as BlockId));
        }
    }
    lemma_marked(alloc.bitmap(before), fresh);
    if before.contains(id) {
        before.lemma_cached_settled(id);
        after.lemma_cached_settled(id);
    } else if after.contains(id) {
        assert(before.device().candidates(id).contains(after.entries()[id].data));
        after.lemma_cached_settled(id);
    } else {
        after.lemma_settled_on(id, before.image(id));
    }
}

/// Every block that a step of the tree took is a node block after it.
pub proof fn lemma_fresh_blocks<D: BlockDevice>(
    alloc: &Allocator,
    before: &BlockCache<D>,
    after: &BlockCache<D>,
    fresh: Seq<BlockId>,
    i: int,
)
    requires
        alloc.wf(),
        grown(alloc, before, after, fresh),
        alloc.sound(before),
        0 <= i < fresh.len(),
    ensures
        node_block(alloc, after, fresh[i]),
{
    lemma_region_covers(alloc);
    assert(is_bitmap(alloc.bitmap(before))) by {
        assert forall|j: int| 0 <= j < alloc.bitmap(before).len() implies (#[trigger] alloc.bitmap(
            before,
        )[j]).len() == BLOCK_SIZE by {
            assert(before.settled((alloc.start() + j) as BlockId));
        }
    }
    lemma_marked(alloc.bitmap(before), fresh);
    assert(fresh[i] < alloc.total());
}

/// A node block stays a node block through a step of the tree, and is
/// none of the blocks that the step takes.
pub proof fn lemma_node_block_kept<D: BlockDevice>(
    alloc: &Allocator,
    before: &BlockCache<D>,
    after: &BlockCache<D>,
    fresh: Seq<BlockId>,
    id: BlockId,
)
    requires
        alloc.wf(),
        grown(alloc, before, after, fresh),
        alloc.sound(before),
        node_block(alloc, before, id),
    ensures
        node_block(alloc, after, id),
        !fresh.contains(id),
{
    lemma_region_covers(alloc);
    assert(is_bitmap(alloc.bitmap(before))) by {
        assert forall|j: int| 0 <= j < alloc.bitmap(before).len() implies (#[trigger] alloc.bitmap(
            before,
        )[j]).len() == BLOCK_SIZE by {
            assert(before.settled((alloc.start() + j) as BlockId));
        }
    }
    lemma_marked(alloc.bitmap(before), fresh);
    if fresh.contains(id) {
        let i = choose|i: int| 0 <= i < fresh.len() && fresh[i] == id;
        assert(!allocated(alloc.bitmap(before), fresh[i] as int));
    }
}

/// How giving back the blocks `taken` that a step of the tree had taken
/// has left the cache.
///
/// The device is untouched and the bitmap is what it was before the step.
/// Apart from the bitmap region and the blocks that had been taken, what was
/// cached before the step is cached unchanged and what is newly cached was
/// read from the device. The blocks that had been taken were free before
/// the step and lie outside the reserved blocks.
pub open spec fn released<D: BlockDevice>(
    alloc: &Allocator,
    before: &BlockCache<D>,
    after: &BlockCache<D>,
    taken: Seq<BlockId>,
) -> bool {
    &&& after.wf()
    &&& after.device() == before.device()
    &&& after.keeps(before)
    &&& clean_kept(before, after)
    &&& alloc.sound(after)
    &&& alloc.bitmap(after) == alloc.bitmap(before)
    &&& forall|id: BlockId|
        #![trigger after.contains(id)]
        #![trigger before.contains(id)]
        !alloc.in_region(id) && !taken.contains(id) ==> (before.contains(id) ==> after.contains(id)
            && after.entries()[id] == before.entries()[id]) && (after.contains(id)
                && !before.contains(
            id,
        ) ==> !after.entries()[id].dirty && before.device().candidates(id).contains(
            after.entries()[id].data,
        ))
    &&& all_free(alloc.bitmap(before), taken)
    &&& forall|i: int|
        0 <= i < taken.len() ==> (#[trigger] taken[i]) < alloc.total() && !alloc.in_region(taken[i])
            && taken[i] != 0
}

/// Gives back the blocks that a step of the tree has taken: marks them
/// free again, the last taken first. What the step wrote into them stays in
/// the cache, in blocks that are free.
#[verifier::rlimit(60)]
pub fn release<D: BlockDevice>(
    alloc: &Allocator,
    cache: &mut BlockCache<D>,
    taken: Vec<BlockId>,
    Ghost(before): Ghost<BlockCache<D>>,
)
    requires
        alloc.wf(),
        alloc.sound(&before),
        grown(alloc, &before, old(cache), taken@),
        forall|id: BlockId| alloc.in_region(id) ==> #[trigger] before.contains(id),
    ensures
        released(alloc, &before, final(cache), taken@),
{
    let ghost all = taken@;
    let ghost b0 = alloc.bitmap(&before);
    let mut taken = taken;
    proof {
        alloc.lemma_reads_as(cache, marked(b0, all));
        lemma_region_covers(alloc);
        assert(is_bitmap(b0)) by {
            assert forall|j: int| 0 <= j < b0.len()
                implies (#[trigger] b0[j]).len() == BLOCK_SIZE by {
                assert(before.settled((alloc.start() + j) as BlockId));
            }
        }
        assert forall|id: BlockId| alloc.in_region(id) implies #[trigger] cache.contains(id) by {
            assert(before.contains(id));
        }
    }
    while taken.len() > 0
        invariant
            alloc.wf(),
            alloc.sound(&before),
            b0 == alloc.bitmap(&before),
            is_bitmap(b0),
            alloc.total() <= b0.len() * BLOCKS_PER_BITMAP_BLOCK,
            cache.wf(),
            cache.device() == before.device(),
            cache.keeps(&before),
            clean_kept(&before, cache),
            taken@.is_prefix_of(all),
            all.no_duplicates(),
            all_free(b0, all),
            forall|i: int|
                0 <= i < all.len() ==> (#[trigger] all[i]) < alloc.total()
                    && !alloc.in_region(all[i])
                    && all[i] != 0,
            alloc.reads_as(cache, marked(b0, taken@)),
            forall|id: BlockId| alloc.in_region(id) ==> #[trigger] cache.contains(id),
            forall|id: BlockId|
                #![trigger cache.contains(id)]
                #![trigger before.contains(id)]
                !alloc.in_region(id) && !all.contains(id) ==> (before.contains(id)
                    ==> cache.contains(id)
                    && cache.entries()[id] == before.entries()[id]) && (cache.contains(id)
                    && !before.contains(id) ==> !cache.entries()[id].dirty
                    && before.device().candidates(id).contains(cache.entries()[id].data)),
        decreases taken@.len(),
    {
        let ghost queue = taken@;
        let ghost mid = *cache;
        let id: BlockId = match taken.pop() {
            Some(id) => id,
            None => 0,
        };
        let ghost rest = taken@;
        proof {
            let last = queue.len() - 1;
            assert(queue[last] == id && all[last] == id);
            assert(rest =~= queue.drop_last());
            assert(queue.last() == id);
            assert(marked(b0, queue) == with_allocated(marked(b0, rest), id as int));
            assert forall|i: int| 0 <= i < rest.len() implies (#[trigger] rest[i]) < b0.len()
                * BLOCKS_PER_BITMAP_BLOCK by {
                assert(rest[i] == all[i]);
            }
            lemma_marked(b0, rest);
            if exists|i: int| 0 <= i < rest.len() && rest[i] == id {
                let i = choose|i: int| 0 <= i < rest.len() && rest[i] == id;
                assert(all[i] == id);
            }
            assert(!allocated(b0, all[last] as int));
            assert(!allocated(marked(b0, rest), id as int));
            lemma_free_undoes_allocate(marked(b0, rest), id as int);
            assert(alloc.in_region(alloc.block_of(id)));
            assert(mid.contains(alloc.block_of(id)));
        }
        let freed = alloc.free_block(cache, id);
        proof {
            assert(freed is Ok);
            assert(alloc.reads_as(cache, marked(b0, rest)));
            assert forall|other: BlockId| alloc.in_region(other) implies #[trigger] cache.contains(
                other,
            ) by {
                assert(mid.contains(other));
            }
            assert forall|other: BlockId| #[trigger] before.contains(other) implies cache.contains(
                other,
            ) && (before.entries()[other].dirty ==> cache.entries()[other].dirty) by {
                assert(mid.contains(other));
            }
            assert forall|other: BlockId| #[trigger] before.contains(other) && !cache.dirty(
                other,
            ) implies cache.entries()[other] == before.entries()[other] by {
                assert(mid.contains(other));
                if cache.entries()[other] != mid.entries()[other] {
                    assert(cache.dirty(other));
                }
                if mid.dirty(other) {
                    assert(cache.entries()[other].dirty);
                }
            }
            assert forall|other: BlockId|
                #![trigger cache.contains(other)]
                #![trigger before.contains(other)]
                !alloc.in_region(other) && !all.contains(other) implies (before.contains(other)
                ==> cache.contains(other) && cache.entries()[other] == before.entries()[other]) && (
            cache.contains(other) && !before.contains(other) ==> !cache.entries()[other].dirty
                && before.device().candidates(other).contains(cache.entries()[other].data)) by {
                assert(mid.contains(other) == cache.contains(other));
            }
        }
    }
    proof {
        assert(taken@ =~= Seq::<BlockId>::empty());
        assert(marked(b0, taken@) == b0);
        alloc.lemma_reads_as(cache, b0);
    }
}

} // verus!
