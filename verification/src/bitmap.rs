//! The allocation bitmap as a mathematical object: one bit per block,
//! least significant bit first, spread over bitmap blocks.

use vstd::prelude::*;
use crate::block_device::{BLOCK_SIZE, BlockId};

verus! {

/// The number of blocks whose state one bitmap block records.
pub const BLOCKS_PER_BITMAP_BLOCK: BlockId = 32768;

/// Whether bit `bit` of `byte` is 1.
pub open spec fn bit_is_set(byte: u8, bit: u8) -> bool {
    byte & (1u8 << bit) != 0
}

/// Whether bit `n` of a bitmap block is 1, which says that the block's
/// `n`-th logical block is allocated.
pub open spec fn block_bit(image: Seq<u8>, n: int) -> bool {
    bit_is_set(image[n / 8], (n % 8) as u8)
}

/// A bitmap block with bit `n` set.
pub open spec fn block_with_bit(image: Seq<u8>, n: int) -> Seq<u8> {
    image.update(n / 8, image[n / 8] | (1u8 << ((n % 8) as u8)))
}

/// A bitmap block with bit `n` cleared.
pub open spec fn block_without_bit(image: Seq<u8>, n: int) -> Seq<u8> {
    image.update(n / 8, image[n / 8] & !(1u8 << ((n % 8) as u8)))
}

/// Whether the images are those of a bitmap region: whole blocks.
pub open spec fn is_bitmap(images: Seq<Seq<u8>>) -> bool {
    forall|j: int| 0 <= j < images.len() ==> (#[trigger] images[j]).len() == BLOCK_SIZE
}

/// Whether logical block `lba` is marked allocated in the region.
pub open spec fn allocated(images: Seq<Seq<u8>>, lba: int) -> bool {
    block_bit(images[lba / (BLOCKS_PER_BITMAP_BLOCK as int)],
        lba % (BLOCKS_PER_BITMAP_BLOCK as int))
}

/// The region with `lba` marked allocated.
pub open spec fn with_allocated(images: Seq<Seq<u8>>, lba: int) -> Seq<Seq<u8>> {
    images.update(
        lba / (BLOCKS_PER_BITMAP_BLOCK as int),
        block_with_bit(
            images[lba / (BLOCKS_PER_BITMAP_BLOCK as int)],
            lba % (BLOCKS_PER_BITMAP_BLOCK as int),
        ),
    )
}

/// The region with `lba` marked free.
pub open spec fn with_freed(images: Seq<Seq<u8>>, lba: int) -> Seq<Seq<u8>> {
    images.update(
        lba / (BLOCKS_PER_BITMAP_BLOCK as int),
        block_without_bit(
            images[lba / (BLOCKS_PER_BITMAP_BLOCK as int)],
            lba % (BLOCKS_PER_BITMAP_BLOCK as int),
        ),
    )
}

/// The lowest free block at or above `from` and below `total`, if any.
pub open spec fn first_free_from(images: Seq<Seq<u8>>, total: int, from: int) -> Option<int>
    decreases total - from,
{
    if from >= total {
        None
    } else if !allocated(images, from) {
        Some(from)
    } else {
        first_free_from(images, total, from + 1)
    }
}

/// The lowest free block below `total`, if any: the first-fit choice.
pub open spec fn first_free(images: Seq<Seq<u8>>, total: int) -> Option<int> {
    first_free_from(images, total, 0)
}

/// The number of blocks below `total` that are marked allocated.
pub open spec fn allocated_count(images: Seq<Seq<u8>>, total: int) -> int
    decreases total,
{
    if total <= 0 {
        0
    } else {
        allocated_count(images, total - 1) + if allocated(images, total - 1) {
            1int
        } else {
            0int
        }
    }
}

pub proof fn lemma_byte_bits(byte: u8, a: u8, b: u8)
    requires
        a < 8,
        b < 8,
    ensures
        bit_is_set(byte | (1u8 << a), b) == (a == b || bit_is_set(byte, b)),
        bit_is_set(byte & !(1u8 << a), b) == (a != b && bit_is_set(byte, b)),
        bit_is_set(byte, a) ==> byte | (1u8 << a) == byte,
        !bit_is_set(byte, a) ==> byte & !(1u8 << a) == byte,
        byte == 0xFF ==> bit_is_set(byte, a),
        !bit_is_set(0u8, a),
{
    assert(a < 8 && b < 8 ==> ((byte | (1u8 << a)) & (1u8 << b) != 0) == (a == b
        || (byte & (1u8 << b)
        != 0))) by (bit_vector);
    assert(a < 8 && b < 8 ==> ((byte & !(1u8 << a)) & (1u8 << b) != 0) == (a != b && (byte & (1u8
        << b) != 0))) by (bit_vector);
    assert(a < 8 && (byte & (1u8 << a) != 0) ==> byte | (1u8 << a) == byte) by (bit_vector);
    assert(a < 8 && !(byte & (1u8 << a) != 0) ==> byte & !(1u8 << a) == byte) by (bit_vector);
    assert(a < 8 && byte == 0xFF ==> (byte & (1u8 << a) != 0)) by (bit_vector);
    assert(a < 8 ==> !(0u8 & (1u8 << a) != 0)) by (bit_vector);
}

/// Setting or clearing a bit of a bitmap block changes that bit and no
/// other.
pub proof fn lemma_block_bits(image: Seq<u8>, n: int, m: int)
    requires
        0 <= n < image.len() * 8,
        0 <= m < image.len() * 8,
    ensures
        block_with_bit(image, n).len() == image.len(),
        block_without_bit(image, n).len() == image.len(),
        block_bit(block_with_bit(image, n), m) == (n == m || block_bit(image, m)),
        block_bit(block_without_bit(image, n), m) == (n != m && block_bit(image, m)),
        block_bit(image, n) ==> block_with_bit(image, n) == image,
        !block_bit(image, n) ==> block_without_bit(image, n) == image,
{
    lemma_byte_bits(image[n / 8], (n % 8) as u8, (m % 8) as u8);
    lemma_byte_bits(image[n / 8], (n % 8) as u8, (n % 8) as u8);
    if block_bit(image, n) {
        assert(block_with_bit(image, n) =~= image);
    } else {
        assert(block_without_bit(image, n) =~= image);
    }
}

/// Marking a block allocated or free changes that block's bit and no other.
pub proof fn lemma_region_bits(images: Seq<Seq<u8>>, lba: int, other: int)
    requires
        is_bitmap(images),
        0 <= lba < images.len() * BLOCKS_PER_BITMAP_BLOCK,
        0 <= other < images.len() * BLOCKS_PER_BITMAP_BLOCK,
    ensures
        is_bitmap(with_allocated(images, lba)),
        is_bitmap(with_freed(images, lba)),
        with_allocated(images, lba).len() == images.len(),
        with_freed(images, lba).len() == images.len(),
        allocated(with_allocated(images, lba), other) == (lba == other || allocated(images, other)),
        allocated(with_freed(images, lba), other) == (lba != other && allocated(images, other)),
        allocated(images, lba) ==> with_allocated(images, lba) == images,
        !allocated(images, lba) ==> with_freed(images, lba) == images,
{
    let per = BLOCKS_PER_BITMAP_BLOCK as int;
    let j = lba / per;
    let k = other / per;
    assert(0 <= j < images.len() && 0 <= k < images.len()) by (nonlinear_arith)
        requires
            0 <= lba < images.len() * per,
            0 <= other < images.len() * per,
            per == 32768,
            j == lba / per,
            k == other / per,
    ;
    assert(images[j].len() == BLOCK_SIZE);
    assert(images[k].len() == BLOCK_SIZE);
    lemma_block_bits(images[j], lba % per, lba % per);
    if j == k {
        lemma_block_bits(images[j], lba % per, other % per);
    }
    if allocated(images, lba) {
        assert(with_allocated(images, lba) =~= images);
    } else {
        assert(with_freed(images, lba) =~= images);
    }
}

/// Marking a free block allocated and then free again changes nothing.
pub proof fn lemma_free_undoes_allocate(images: Seq<Seq<u8>>, lba: int)
    requires
        is_bitmap(images),
        0 <= lba < images.len() * BLOCKS_PER_BITMAP_BLOCK,
        !allocated(images, lba),
    ensures
        with_freed(with_allocated(images, lba), lba) == images,
{
    let per = BLOCKS_PER_BITMAP_BLOCK as int;
    let j = lba / per;
    let n = lba % per;
    assert(0 <= j < images.len()) by (nonlinear_arith)
        requires
            0 <= lba < images.len() * per,
            per == 32768,
            j == lba / per,
    ;
    let image = images[j];
    assert(image.len() == BLOCK_SIZE);
    let byte = image[n / 8];
    let bit = (n % 8) as u8;
    assert(bit < 8 && (byte & (1u8 << bit) != 0) == false ==> (byte | (1u8 << bit)) & !(1u8 << bit)
        == byte) by (bit_vector);
    assert(block_without_bit(block_with_bit(image, n), n) =~= image);
    assert(with_freed(with_allocated(images, lba), lba) =~= images);
}

/// What `first_free_from` returns: a free block with no free block between
/// `from` and it, or nothing when every block from `from` on is allocated.
pub proof fn lemma_first_free_from(images: Seq<Seq<u8>>, total: int, from: int)
    requires
        0 <= from,
    ensures
        match first_free_from(images, total, from) {
            Some(lba) => from <= lba < total && !allocated(images, lba) && forall|l: int|
                from <= l < lba ==> allocated(images, l),
            None => forall|l: int| from <= l < total ==> allocated(images, l),
        },
    decreases total - from,
{
    if from < total && allocated(images, from) {
        lemma_first_free_from(images, total, from + 1);
    }
}

/// A free block below which everything is allocated is the first-fit choice.
pub proof fn lemma_first_free_is(images: Seq<Seq<u8>>, total: int, lba: int)
    requires
        0 <= lba < total,
        !allocated(images, lba),
        forall|l: int| 0 <= l < lba ==> allocated(images, l),
    ensures
        first_free(images, total) == Some(lba),
{
    lemma_first_free_from(images, total, 0);
}

/// With every block below `total` allocated there is no first-fit choice.
pub proof fn lemma_first_free_none(images: Seq<Seq<u8>>, total: int)
    requires
        forall|l: int| 0 <= l < total ==> allocated(images, l),
    ensures
        first_free(images, total) is None,
{
    lemma_first_free_from(images, total, 0);
}

/// The region after `k` first-fit allocations in a row; once the region is
/// full it stays as it is.
pub open spec fn after_allocations(images: Seq<Seq<u8>>, total: int, k: nat) -> Seq<Seq<u8>>
    decreases k,
{
    if k == 0 {
        images
    } else {
        let before = after_allocations(images, total, (k - 1) as nat);
        match first_free(before, total) {
            Some(lba) => with_allocated(before, lba),
            None => before,
        }
    }
}

/// Marking a free block allocated adds one to the count of every range that
/// holds the block, and nothing to the others.
pub proof fn lemma_count_with_allocated(images: Seq<Seq<u8>>, lba: int, upto: int)
    requires
        is_bitmap(images),
        0 <= lba < images.len() * BLOCKS_PER_BITMAP_BLOCK,
        0 <= upto <= images.len() * BLOCKS_PER_BITMAP_BLOCK,
        !allocated(images, lba),
    ensures
        allocated_count(with_allocated(images, lba), upto) == allocated_count(images, upto) + if lba
            < upto {
            1int
        } else {
            0int
        },
    decreases upto,
{
    if upto > 0 {
        lemma_count_with_allocated(images, lba, upto - 1);
        lemma_region_bits(images, lba, upto - 1);
    }
}

proof fn lemma_count_with_freed(images: Seq<Seq<u8>>, lba: int, upto: int)
    requires
        is_bitmap(images),
        0 <= lba < images.len() * BLOCKS_PER_BITMAP_BLOCK,
        0 <= upto <= images.len() * BLOCKS_PER_BITMAP_BLOCK,
        allocated(images, lba),
    ensures
        allocated_count(with_freed(images, lba), upto) == allocated_count(images,
            upto) - if lba < upto {
            1int
        } else {
            0int
        },
    decreases upto,
{
    if upto > 0 {
        lemma_count_with_freed(images, lba, upto - 1);
        lemma_region_bits(images, lba, upto - 1);
    }
}

/// An allocation never hands out a block that is marked allocated: the
/// first-fit choice is free before, allocated after, no other block changes
/// state, and the number of allocated blocks grows by one.
pub proof fn lemma_allocation_is_sound(images: Seq<Seq<u8>>, total: int, lba: int)
    requires
        is_bitmap(images),
        0 <= total <= images.len() * BLOCKS_PER_BITMAP_BLOCK,
        first_free(images, total) == Some(lba),
    ensures
        0 <= lba < total,
        !allocated(images, lba),
        allocated(with_allocated(images, lba), lba),
        forall|other: int|
            0 <= other < total && other != lba ==> allocated(with_allocated(images, lba), other)
                == allocated(images, other),
        allocated_count(with_allocated(images, lba), total) == allocated_count(images, total) + 1,
{
    lemma_first_free_from(images, total, 0);
    lemma_count_with_allocated(images, lba, total);
    lemma_region_bits(images, lba, lba);
    assert forall|other: int| 0 <= other < total && other != lba implies allocated(
        with_allocated(images, lba),
        other,
    ) == allocated(images, other) by {
        lemma_region_bits(images, lba, other);
    }
}

/// Freeing an allocated block makes it free, changes no other block's state
/// and lowers the number of allocated blocks by one; freeing a free block
/// changes nothing.
pub proof fn lemma_free_is_sound(images: Seq<Seq<u8>>, total: int, lba: int)
    requires
        is_bitmap(images),
        0 <= total <= images.len() * BLOCKS_PER_BITMAP_BLOCK,
        0 <= lba < total,
    ensures
        !allocated(with_freed(images, lba), lba),
        forall|other: int|
            0 <= other < total && other != lba ==> allocated(with_freed(images, lba), other)
                == allocated(images, other),
        allocated(images, lba)
            ==> allocated_count(with_freed(images, lba), total) == allocated_count(
            images,
            total,
        ) - 1,
        !allocated(images, lba) ==> with_freed(images, lba) == images,
{
    lemma_region_bits(images, lba, lba);
    if allocated(images, lba) {
        lemma_count_with_freed(images, lba, total);
    }
    assert forall|other: int| 0 <= other < total && other != lba implies allocated(
        with_freed(images, lba),
        other,
    ) == allocated(images, other) by {
        lemma_region_bits(images, lba, other);
    }
}

/// First-fit order: when exactly the blocks below `reserved` are allocated,
/// the next `k` allocations return `reserved`, `reserved + 1`, and so on, in
/// ascending order, and leave exactly the blocks below `reserved + k`
/// allocated.
pub proof fn lemma_first_fit_order(images: Seq<Seq<u8>>, total: int, reserved: int, k: nat)
    requires
        is_bitmap(images),
        0 <= total <= images.len() * BLOCKS_PER_BITMAP_BLOCK,
        0 <= reserved,
        reserved + k <= total,
        forall|l: int| 0 <= l < total ==> allocated(images, l) == (l < reserved),
    ensures
        is_bitmap(after_allocations(images, total, k)),
        after_allocations(images, total, k).len() == images.len(),
        forall|l: int|
            0 <= l < total
                ==> allocated(after_allocations(images, total, k), l) == (l < reserved + k),
        forall|i: nat|
            i < k ==> #[trigger] first_free(after_allocations(images, total, i), total) == Some(
                reserved + i,
            ),
    decreases k,
{
    if k > 0 {
        let j = (k - 1) as nat;
        lemma_first_fit_order(images, total, reserved, j);
        let before = after_allocations(images, total, j);
        lemma_first_free_is(before, total, reserved + j);
        let lba = reserved + j;
        let after = with_allocated(before, lba);
        assert(after_allocations(images, total, k) == after);
        lemma_region_bits(before, lba, lba);
        assert forall|l: int| 0 <= l < total implies allocated(after, l) == (l < reserved + k) by {
            lemma_region_bits(before, lba, l);
        }
        assert forall|i: nat| i < k implies #[trigger] first_free(
            after_allocations(images, total, i),
            total,
        ) == Some(reserved + i) by {
            if i < j {
            }
        }
    }
}

/// A request to the allocator.
pub enum BitmapOp {
    /// Allocate the first free block.
    Allocate,
    /// Free this block.
    Free(BlockId),
}

/// The region after one request.
pub open spec fn after_op(images: Seq<Seq<u8>>, total: int, op: BitmapOp) -> Seq<Seq<u8>> {
    match op {
        BitmapOp::Allocate => match first_free(images, total) {
            Some(lba) => with_allocated(images, lba),
            None => images,
        },
        BitmapOp::Free(id) => if id < total {
            with_freed(images, id as int)
        } else {
            images
        },
    }
}

/// By how much one request changes the number of allocated blocks: an
/// allocation that finds a block adds one, a free of an allocated block
/// takes one away, and every other request changes nothing.
pub open spec fn op_balance(images: Seq<Seq<u8>>, total: int, op: BitmapOp) -> int {
    match op {
        BitmapOp::Allocate => if first_free(images, total) is Some {
            1
        } else {
            0
        },
        BitmapOp::Free(id) => if id < total && allocated(images, id as int) {
            -1
        } else {
            0
        },
    }
}

/// The region after a run of requests.
pub open spec fn after_ops(images: Seq<Seq<u8>>, total: int, ops: Seq<BitmapOp>) -> Seq<Seq<u8>>
    decreases ops.len(),
{
    if ops.len() == 0 {
        images
    } else {
        after_op(after_ops(images, total, ops.drop_last()), total, ops.last())
    }
}

/// Allocations that found a block minus frees that freed one, over a run
/// of requests.
pub open spec fn ops_balance(images: Seq<Seq<u8>>, total: int, ops: Seq<BitmapOp>) -> int
    decreases ops.len(),
{
    if ops.len() == 0 {
        0
    } else {
        ops_balance(images, total, ops.drop_last()) + op_balance(
            after_ops(images, total, ops.drop_last()),
            total,
            ops.last(),
        )
    }
}

/// Allocator soundness over any run of requests: the number of allocated
/// blocks is the number at the start plus the allocations that found a
/// block minus the frees that freed one.
pub proof fn lemma_allocated_count(images: Seq<Seq<u8>>, total: int, ops: Seq<BitmapOp>)
    requires
        is_bitmap(images),
        0 <= total <= images.len() * BLOCKS_PER_BITMAP_BLOCK,
    ensures
        is_bitmap(after_ops(images, total, ops)),
        after_ops(images, total, ops).len() == images.len(),
        allocated_count(after_ops(images, total, ops), total) == allocated_count(images, total)
            + ops_balance(images, total, ops),
    decreases ops.len(),
{
    if ops.len() > 0 {
        lemma_allocated_count(images, total, ops.drop_last());
        let before = after_ops(images, total, ops.drop_last());
        match ops.last() {
            BitmapOp::Allocate => {
                if first_free(before, total) is Some {
                    let lba = first_free(before, total)->Some_0;
                    lemma_allocation_is_sound(before, total, lba);
                    lemma_region_bits(before, lba, lba);
                }
            },
            BitmapOp::Free(id) => {
                if id < total {
                    lemma_free_is_sound(before, total, id as int);
                    lemma_region_bits(before, id as int, id as int);
                }
            },
        }
    }
}

/// Where first fit finds no block, every block below `total` is counted as
/// allocated.
pub proof fn lemma_full_count(images: Seq<Seq<u8>>, total: int)
    requires
        0 <= total,
        first_free(images, total) is None,
    ensures
        allocated_count(images, total) == total,
{
    lemma_first_free_from(images, total, 0);
    lemma_count_of_prefix(images, total, total);
}

/// Where exactly the blocks below `reserved` are allocated, the number of
/// allocated blocks is `reserved`.
pub proof fn lemma_count_of_prefix(images: Seq<Seq<u8>>, total: int, reserved: int)
    requires
        0 <= reserved <= total,
        forall|l: int| 0 <= l < total ==> allocated(images, l) == (l < reserved),
    ensures
        allocated_count(images, total) == reserved,
    decreases total,
{
    if total > 0 {
        if reserved == total {
            lemma_count_of_prefix(images, total - 1, reserved - 1);
        } else {
            lemma_count_of_prefix(images, total - 1, reserved);
        }
    }
}

} // verus!
