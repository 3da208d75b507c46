//! The tree as a mathematical object: what a tree of nodes binds a key
//! to, when it is a search tree, and what an insertion makes of it.

use vstd::prelude::*;
use crate::allocator::Allocator;
use crate::bitmap::allocated;
use crate::block_device::{BlockDevice, BlockId};
use crate::cache::{BlockCache, CachedImage};
use crate::btree::{
    BTree, BTREE_NODE_ORDER, BTreeNodeHeader, entries_of, entry_at, Grown, header_of, node_fault,
    node_image, NODE_INTERNAL, NODE_LEAF, lemma_node_image,
};
use crate::cow::{grown, node_block, lemma_grown_image};
use crate::entries::{
    bound, find, keys_ascending, lowered, put, raised, rank, route, route_after_insert, search,
    upper, with_child, lemma_ascending_part, lemma_put, lemma_put_bounds, lemma_rank, lemma_route,
    lemma_route_insert, lemma_route_update, lemma_split_find, lemma_split_route,
};

verus! {

/// What the subtree under block `id`, whose node has the given level, binds
/// `key` to, as the cache shows the blocks: the search descends by `route`
/// to a leaf and looks the key up there.
pub open spec fn subtree_get<D: BlockDevice>(
    cache: &BlockCache<D>,
    id: BlockId,
    level: nat,
    key: u64,
) -> Option<u64>
    decreases level,
{
    let entries = entries_of(cache.image(id));
    if level == 0 {
        find(entries, key)
    } else if entries.len() == 0 {
        None
    } else {
        subtree_get(cache, entries[route(entries, key)].1, (level - 1) as nat, key)
    }
}

/// Whether the search for `key` under block `id` meets only well-formed
/// nodes, each one level below the one before, down to a leaf.
pub open spec fn path_ok<D: BlockDevice>(
    cache: &BlockCache<D>,
    id: BlockId,
    level: nat,
    key: u64,
) -> bool
    decreases level,
{
    let image = cache.image(id);
    let entries = entries_of(image);
    &&& node_fault(image, id) is None
    &&& header_of(image).level == level
    &&& level > 0 ==> entries.len() > 0 && path_ok(
        cache,
        entries[route(entries, key)].1,
        (level - 1) as nat,
        key,
    )
}

/// The level of the node that block `root` shows.
pub open spec fn root_level<D: BlockDevice>(cache: &BlockCache<D>, root: BlockId) -> nat {
    header_of(cache.image(root)).level as nat
}

/// What the tree under `root` binds `key` to.
pub open spec fn tree_get<D: BlockDevice>(cache: &BlockCache<D>, root: BlockId, key: u64) -> Option<
    u64,
> {
    subtree_get(cache, root, root_level(cache, root), key)
}

/// Whether the search for `key` from `root` meets only well-formed nodes.
pub open spec fn tree_path_ok<D: BlockDevice>(cache: &BlockCache<D>, root: BlockId,
    key: u64) -> bool {
    path_ok(cache, root, root_level(cache, root), key)
}

/// Whether the subtree under block `id` is a search tree of the given
/// height with keys from `lo` up to but not including `hi`.
///
/// Every node lives in a node block that shows one image, is well formed
/// and has the level of its place. The keys of a node lie within the
/// bounds, and below an inner node the child in each slot holds the keys
/// from its entry's key up to the next entry's.
pub open spec fn subtree_ok<D: BlockDevice>(
    alloc: &Allocator,
    cache: &BlockCache<D>,
    id: BlockId,
    level: nat,
    lo: int,
    hi: int,
) -> bool
    decreases level,
{
    let image = cache.image(id);
    let entries = entries_of(image);
    &&& node_block(alloc, cache, id)
    &&& cache.settled(id)
    &&& node_fault(image, id) is None
    &&& header_of(image).level == level
    &&& forall|i: int| 0 <= i < entries.len() ==> lo <= (#[trigger] entries[i]).0 < hi
    &&& level > 0 ==> entries.len() > 0 && forall|i: int|
        0 <= i < entries.len() ==> subtree_ok(
            alloc,
            cache,
            (#[trigger] entries[i]).1,
            (level - 1) as nat,
            entries[i].0 as int,
            upper(entries, i, hi),
        )
}

/// A step of the tree leaves every search tree that was there as it was:
/// still a search tree, binding every key as before.
#[verifier::rlimit(40)]
pub proof fn lemma_subtree_frame<D: BlockDevice>(
    alloc: &Allocator,
    before: &BlockCache<D>,
    after: &BlockCache<D>,
    fresh: Seq<BlockId>,
    id: BlockId,
    level: nat,
    lo: int,
    hi: int,
)
    requires
        alloc.wf(),
        grown(alloc, before, after, fresh),
        alloc.sound(before),
        subtree_ok(alloc, before, id, level, lo, hi),
    ensures
        subtree_ok(alloc, after, id, level, lo, hi),
        forall|key: u64| subtree_get(after, id, level, key) == subtree_get(before, id, level, key),
    decreases level,
{
    lemma_grown_image(alloc, before, after, fresh, id);
    let entries = entries_of(before.image(id));
    if level > 0 {
        assert forall|i: int| 0 <= i < entries.len() implies subtree_ok(
            alloc,
            after,
            (#[trigger] entries[i]).1,
            (level - 1) as nat,
            entries[i].0 as int,
            upper(entries, i, hi),
        ) by {
            assert(subtree_ok(
                alloc,
                before,
                entries[i].1,
                (level - 1) as nat,
                entries[i].0 as int,
                upper(entries, i, hi),
            ));
            lemma_subtree_frame(
                alloc,
                before,
                after,
                fresh,
                entries[i].1,
                (level - 1) as nat,
                entries[i].0 as int,
                upper(entries, i, hi),
            );
        }
        assert forall|key: u64| subtree_get(after, id, level, key) == subtree_get(
            before,
            id,
            level,
            key,
        ) by {
            let at = route(entries, key);
            lemma_rank(entries, key);
            assert(subtree_ok(
                alloc,
                before,
                entries[at].1,
                (level - 1) as nat,
                entries[at].0 as int,
                upper(entries, at, hi),
            ));
            lemma_subtree_frame(
                alloc,
                before,
                after,
                fresh,
                entries[at].1,
                (level - 1) as nat,
                entries[at].0 as int,
                upper(entries, at, hi),
            );
            let below = (level - 1) as nat;
            assert(subtree_get(after, entries[at].1, below, key) == subtree_get(
                before,
                entries[at].1,
                below,
                key,
            ));
            assert(subtree_get(before, id, level, key) == subtree_get(before, entries[at].1, below,
                key));
            assert(entries_of(after.image(id)) == entries);
            assert(subtree_get(after, id, level, key) == subtree_get(after, entries[at].1, below,
                key));
        }
    }
}

/// The header of a fresh node of the given level in block `id`.
pub open spec fn header_for(level: u8, count: int, id: BlockId) -> BTreeNodeHeader {
    BTreeNodeHeader {
        node_type: if level == 0 {
            NODE_LEAF
        } else {
            NODE_INTERNAL
        },
        num_entries: count as u16,
        level,
        block_id: id,
        checksum: 0,
    }
}

/// Whether the cache holds, dirty, the node of the given level and entries
/// in block `id`.
pub open spec fn holds_node<D: BlockDevice>(
    cache: &BlockCache<D>,
    id: BlockId,
    level: u8,
    entries: Seq<(u64, u64)>,
) -> bool {
    cache.contains(id) && cache.entries()[id] == (CachedImage {
        data: node_image(header_for(level, entries.len() as int, id), entries),
        dirty: true,
    })
}

/// Whether the cache holds, dirty, a well-formed node of the given level in
/// block `id`, with `low` as its first key.
pub open spec fn node_in<D: BlockDevice>(cache: &BlockCache<D>, id: BlockId, level: u8,
    low: u64) -> bool {
    &&& cache.contains(id)
    &&& cache.entries()[id].dirty
    &&& node_fault(cache.entries()[id].data, id) is None
    &&& header_of(cache.entries()[id].data).level == level
    &&& header_of(cache.entries()[id].data).num_entries >= 1
    &&& entry_at(cache.entries()[id].data, 0).0 == low
}

/// A node that the cache holds as `holds_node` says is a node in the cache.
pub proof fn lemma_holds_node<D: BlockDevice>(
    cache: &BlockCache<D>,
    id: BlockId,
    level: u8,
    entries: Seq<(u64, u64)>,
)
    requires
        holds_node(cache, id, level, entries),
        1 <= entries.len() <= BTREE_NODE_ORDER,
        keys_ascending(entries),
    ensures
        node_in(cache, id, level, entries[0].0),
        entries_of(cache.entries()[id].data) == entries,
{
    lemma_node_image(header_for(level, entries.len() as int, id), entries);
    let image = cache.entries()[id].data;
    assert(entries_of(image)[0] == entry_at(image, 0));
}

/// What the node or pair of nodes that an insertion reports binds `key`
/// to: with a pair, keys below the second node's first key are looked up
/// in the first node and the rest in the second.
pub open spec fn grown_get<D: BlockDevice>(
    cache: &BlockCache<D>,
    grown: Grown,
    level: nat,
    key: u64,
) -> Option<u64> {
    match grown.split {
        None => subtree_get(cache, grown.id, level, key),
        Some((low, second)) => if key < low {
            subtree_get(cache, grown.id, level, key)
        } else {
            subtree_get(cache, second, level, key)
        },
    }
}

/// Whether the node or pair of nodes that an insertion reports is a
/// search tree, or two side by side, within the given bounds.
pub open spec fn grown_ok<D: BlockDevice>(
    alloc: &Allocator,
    cache: &BlockCache<D>,
    grown: Grown,
    level: nat,
    lo: int,
    hi: int,
) -> bool {
    &&& lo <= grown.low
    &&& entries_of(cache.image(grown.id)).len() > 0
    &&& entries_of(cache.image(grown.id))[0].0 == grown.low
    &&& match grown.split {
        None => subtree_ok(alloc, cache, grown.id, level, lo, hi),
        Some((low, second)) => grown.low < low < hi && subtree_ok(
            alloc,
            cache,
            grown.id,
            level,
            lo,
            low as int,
        ) && subtree_ok(alloc, cache, second, level, low as int, hi),
    }
}

/// Whether what an insertion reports is the subtree that was under `id`
/// with `key` bound to `value`: a search tree within the bounds widened to
/// take `key`, binding `key` to `value` and every other key as before.
pub open spec fn inserted<D: BlockDevice>(
    alloc: &Allocator,
    before: &BlockCache<D>,
    after: &BlockCache<D>,
    id: BlockId,
    grown: Grown,
    level: nat,
    lo: int,
    hi: int,
    key: u64,
    value: u64,
) -> bool {
    &&& grown_ok(alloc, after, grown, level, lowered(lo, key), raised(hi, key))
    &&& forall|other: u64| #[trigger]
        grown_get(after, grown, level, other) == bound(
            subtree_get(before, id, level, other),
            key,
            value,
            other,
        )
}

/// A block that holds a node as `holds_node` says shows that node: one
/// image, well formed, with the node's level and entries.
pub proof fn lemma_shows_node<D: BlockDevice>(
    cache: &BlockCache<D>,
    id: BlockId,
    level: u8,
    entries: Seq<(u64, u64)>,
)
    requires
        holds_node(cache, id, level, entries),
        entries.len() <= BTREE_NODE_ORDER,
        keys_ascending(entries),
    ensures
        cache.settled(id),
        node_fault(cache.image(id), id) is None,
        header_of(cache.image(id)).level == level,
        entries_of(cache.image(id)) == entries,
{
    cache.lemma_cached_settled(id);
    lemma_node_image(header_for(level, entries.len() as int, id), entries);
}

/// A leaf that the cache holds is a search tree over its entries.
#[verifier::rlimit(40)]
pub proof fn lemma_leaf_ok<D: BlockDevice>(
    alloc: &Allocator,
    cache: &BlockCache<D>,
    id: BlockId,
    entries: Seq<(u64, u64)>,
    lo: int,
    hi: int,
)
    requires
        holds_node(cache, id, 0, entries),
        node_block(alloc, cache, id),
        entries.len() <= BTREE_NODE_ORDER,
        keys_ascending(entries),
        forall|i: int| 0 <= i < entries.len() ==> lo <= (#[trigger] entries[i]).0 < hi,
    ensures
        subtree_ok(alloc, cache, id, 0, lo, hi),
        forall|key: u64| subtree_get(cache, id, 0, key) == find(entries, key),
{
    lemma_shows_node(cache, id, 0, entries);
}

/// An inner node that the cache holds over search trees, each within the
/// bounds that its slot gives it, is a search tree, and looks a key up in
/// the child that the key is routed to.
#[verifier::rlimit(40)]
pub proof fn lemma_inner_ok<D: BlockDevice>(
    alloc: &Allocator,
    cache: &BlockCache<D>,
    id: BlockId,
    level: u8,
    entries: Seq<(u64, u64)>,
    lo: int,
    hi: int,
)
    requires
        level > 0,
        holds_node(cache, id, level, entries),
        node_block(alloc, cache, id),
        0 < entries.len() <= BTREE_NODE_ORDER,
        keys_ascending(entries),
        forall|i: int| 0 <= i < entries.len() ==> lo <= (#[trigger] entries[i]).0 < hi,
        forall|i: int|
            0 <= i < entries.len() ==> subtree_ok(
                alloc,
                cache,
                (#[trigger] entries[i]).1,
                (level - 1) as nat,
                entries[i].0 as int,
                upper(entries, i, hi),
            ),
    ensures
        subtree_ok(alloc, cache, id, level as nat, lo, hi),
        forall|key: u64|
            subtree_get(cache, id, level as nat, key) == subtree_get(
                cache,
                entries[route(entries, key)].1,
                (level - 1) as nat,
                key,
            ),
{
    lemma_shows_node(cache, id, level, entries);
}

/// What `place` has stored of a leaf's entries is a search tree, or two
/// side by side, that looks keys up among those entries.
#[verifier::rlimit(40)]
pub proof fn lemma_stored_leaf<D: BlockDevice>(
    alloc: &Allocator,
    cache: &BlockCache<D>,
    grown: Grown,
    all: Seq<(u64, u64)>,
    lo: int,
    hi: int,
)
    requires
        BTree::stored(cache, grown, 0, all),
        1 <= all.len() <= BTREE_NODE_ORDER + 1,
        keys_ascending(all),
        forall|i: int| 0 <= i < all.len() ==> lo <= (#[trigger] all[i]).0 < hi,
        node_block(alloc, cache, grown.id),
        grown.split is Some ==> node_block(alloc, cache, grown.split->Some_0.1),
    ensures
        grown_ok(alloc, cache, grown, 0, lo, hi),
        forall|key: u64| #[trigger] grown_get(cache, grown, 0, key) == find(all, key),
{
    let half = (BTREE_NODE_ORDER / 2) as int;
    if all.len() <= BTREE_NODE_ORDER {
        lemma_leaf_ok(alloc, cache, grown.id, all, lo, hi);
        lemma_shows_node(cache, grown.id, 0, all);
    } else {
        let left = all.take(half);
        let right = all.skip(half);
        let low = all[half].0;
        lemma_ascending_part(all, 0, half);
        lemma_ascending_part(all, half, all.len() as int);
        assert(left =~= all.subrange(0, half));
        assert(right =~= all.subrange(half, all.len() as int));
        assert forall|i: int| 0 <= i < left.len() implies lo <= (#[trigger] left[i]).0 < low by {
            assert(left[i] == all[i]);
            assert(all[i].0 < all[half].0);
        }
        assert forall|i: int| 0 <= i < right.len() implies low <= (#[trigger] right[i]).0 < hi by {
            assert(right[i] == all[i + half]);
            if i > 0 {
                assert(all[half].0 < all[i + half].0);
            }
        }
        lemma_leaf_ok(alloc, cache, grown.id, left, lo, low as int);
        lemma_leaf_ok(alloc, cache, grown.split->Some_0.1, right, low as int, hi);
        lemma_shows_node(cache, grown.id, 0, left);
        assert(all[0].0 < all[half].0);
        assert(left[0] == all[0]);
        assert forall|key: u64| #[trigger] grown_get(cache, grown, 0, key) == find(all, key) by {
            lemma_split_find(all, half, key);
        }
    }
}

/// What `place` has stored of an inner node's entries, over search trees
/// that each keep within the bounds of their slot, is a search tree, or two
/// side by side, that looks a key up in the child that the key is routed
/// to.
#[verifier::rlimit(100)]
#[verifier::spinoff_prover]
pub proof fn lemma_stored_inner<D: BlockDevice>(
    alloc: &Allocator,
    cache: &BlockCache<D>,
    grown: Grown,
    level: u8,
    all: Seq<(u64, u64)>,
    lo: int,
    hi: int,
)
    requires
        level > 0,
        BTree::stored(cache, grown, level, all),
        1 <= all.len() <= BTREE_NODE_ORDER + 1,
        keys_ascending(all),
        forall|i: int| 0 <= i < all.len() ==> lo <= (#[trigger] all[i]).0 < hi,
        node_block(alloc, cache, grown.id),
        grown.split is Some ==> node_block(alloc, cache, grown.split->Some_0.1),
        forall|i: int|
            0 <= i < all.len() ==> subtree_ok(
                alloc,
                cache,
                (#[trigger] all[i]).1,
                (level - 1) as nat,
                all[i].0 as int,
                upper(all, i, hi),
            ),
    ensures
        grown_ok(alloc, cache, grown, level as nat, lo, hi),
        forall|key: u64| #[trigger]
            grown_get(cache, grown, level as nat, key) == subtree_get(
                cache,
                all[route(all, key)].1,
                (level - 1) as nat,
                key,
            ),
{
    let half = (BTREE_NODE_ORDER / 2) as int;
    if all.len() <= BTREE_NODE_ORDER {
        lemma_inner_ok(alloc, cache, grown.id, level, all, lo, hi);
        lemma_shows_node(cache, grown.id, level, all);
    } else {
        let left = all.take(half);
        let right = all.skip(half);
        let low = all[half].0;
        lemma_ascending_part(all, 0, half);
        lemma_ascending_part(all, half, all.len() as int);
        assert(left =~= all.subrange(0, half));
        assert(right =~= all.subrange(half, all.len() as int));
        assert forall|i: int| 0 <= i < left.len() implies lo <= (#[trigger] left[i]).0 < low by {
            assert(left[i] == all[i]);
            assert(all[i].0 < all[half].0);
        }
        assert forall|i: int| 0 <= i < right.len() implies low <= (#[trigger] right[i]).0 < hi by {
            assert(right[i] == all[i + half]);
            if i > 0 {
                assert(all[half].0 < all[i + half].0);
            }
        }
        assert forall|i: int| 0 <= i < left.len() implies subtree_ok(
            alloc,
            cache,
            (#[trigger] left[i]).1,
            (level - 1) as nat,
            left[i].0 as int,
            upper(left, i, low as int),
        ) by {
            assert(left[i] == all[i]);
            if i + 1 < left.len() {
                assert(left[i + 1] == all[i + 1]);
            }
            assert(upper(left, i, low as int) == upper(all, i, hi));
        }
        assert forall|i: int| 0 <= i < right.len() implies subtree_ok(
            alloc,
            cache,
            (#[trigger] right[i]).1,
            (level - 1) as nat,
            right[i].0 as int,
            upper(right, i, hi),
        ) by {
            assert(right[i] == all[i + half]);
            if i + 1 < right.len() {
                assert(right[i + 1] == all[i + half + 1]);
            }
            assert(upper(right, i, hi) == upper(all, i + half, hi));
        }
        lemma_inner_ok(alloc, cache, grown.id, level, left, lo, low as int);
        lemma_inner_ok(alloc, cache, grown.split->Some_0.1, level, right, low as int, hi);
        lemma_shows_node(cache, grown.id, level, left);
        assert(all[0].0 < all[half].0);
        assert(left[0] == all[0]);
        assert forall|key: u64| #[trigger]
            grown_get(cache, grown, level as nat, key) == subtree_get(
                cache,
                all[route(all, key)].1,
                (level - 1) as nat,
                key,
            ) by {
            lemma_split_route(all, half, key);
            lemma_rank(left, key);
            lemma_rank(right, key);
            if key < low {
                assert(left[route(left, key)] == all[route(all, key)]);
            } else {
                assert(right[route(right, key)] == all[route(all, key)]);
            }
        }
    }
}

/// An insertion into a leaf: what `place` has stored of the leaf's
/// entries with the key put among them is the leaf with the key bound.
#[verifier::rlimit(40)]
pub proof fn lemma_leaf_inserted<D: BlockDevice>(
    alloc: &Allocator,
    before: &BlockCache<D>,
    after: &BlockCache<D>,
    id: BlockId,
    grown: Grown,
    lo: int,
    hi: int,
    key: u64,
    value: u64,
)
    requires
        subtree_ok(alloc, before, id, 0, lo, hi),
        BTree::stored(after, grown, 0, put(entries_of(before.image(id)), key, value)),
        node_block(alloc, after, grown.id),
        grown.split is Some ==> node_block(alloc, after, grown.split->Some_0.1),
    ensures
        inserted(alloc, before, after, id, grown, 0, lo, hi, key, value),
{
    let entries = entries_of(before.image(id));
    lemma_put(entries, key, value);
    lemma_put_bounds(entries, key, value, lo, hi);
    lemma_stored_leaf(
        alloc,
        after,
        grown,
        put(entries, key, value),
        lowered(lo, key),
        raised(hi, key),
    );
    assert forall|other: u64| #[trigger]
        grown_get(after, grown, 0, other) == bound(
            subtree_get(before, id, 0, other),
            key,
            value,
            other,
        ) by {
        assert(grown_get(after, grown, 0, other) == find(put(entries, key, value), other));
    }
}

/// The entries of an inner node's copy after an insertion below it: the
/// child for the key replaced by its copy, and behind it the second node
/// when the copy was split.
pub open spec fn with_grown(entries: Seq<(u64, u64)>, key: u64, below: Grown) -> Seq<(u64, u64)> {
    match below.split {
        None => with_child(entries, key, below.id),
        Some(second) => with_child(entries, key, below.id).insert(route(entries, key) + 1, second),
    }
}

/// What an insertion below an inner node reports fits into the node: a
/// second node's first key lies between the keys of the entries that it
/// goes between, and the entries stay ascending, within the widened bounds
/// and at most one more than the order.
#[verifier::rlimit(40)]
pub proof fn lemma_child_fits<D: BlockDevice>(
    alloc: &Allocator,
    cache: &BlockCache<D>,
    entries: Seq<(u64, u64)>,
    level: nat,
    lo: int,
    hi: int,
    key: u64,
    below: Grown,
)
    requires
        keys_ascending(entries),
        0 < entries.len() <= BTREE_NODE_ORDER,
        forall|i: int| 0 <= i < entries.len() ==> lo <= (#[trigger] entries[i]).0 < hi,
        grown_ok(
            alloc,
            cache,
            below,
            level,
            lowered(entries[route(entries, key)].0 as int, key),
            raised(upper(entries, route(entries, key), hi), key),
        ),
    ensures
        below.split is Some ==> with_child(entries, key, below.id)[route(entries, key)].0
            < below.split->Some_0.0 && (route(entries, key) + 1 < entries.len()
            ==> below.split->Some_0.0 < with_child(entries, key, below.id)[route(entries,
                key) + 1].0),
        keys_ascending(with_grown(entries, key, below)),
        1 <= with_grown(entries, key, below).len() <= BTREE_NODE_ORDER + 1,
        forall|i: int|
            0 <= i < with_grown(entries, key, below).len()
                ==> lowered(lo, key) <= (#[trigger] with_grown(
                entries,
                key,
                below,
            )[i]).0 < raised(hi, key),
{
    let at = route(entries, key);
    lemma_route(entries, key);
    lemma_route_update(entries, key, below.id);
    let one = with_child(entries, key, below.id);
    let all = with_grown(entries, key, below);
    assert(one[at].0 == lowered(entries[at].0 as int, key));
    assert forall|i: int| 0 <= i < one.len()
        implies lowered(lo, key) <= (#[trigger] one[i]).0 < raised(
        hi,
        key,
    ) by {
        if i != at {
            assert(one[i] == entries[i]);
        } else {
            assert(lo <= entries[at].0 < hi);
        }
    }
    if below.split is Some {
        let low = below.split->Some_0.0;
        if at + 1 < entries.len() {
            assert(one[at + 1] == entries[at + 1]);
            assert(lo <= entries[at + 1].0 < hi);
        }
        lemma_route_insert(one, at, low, below.split->Some_0.1);
        assert forall|i: int| 0 <= i < all.len() implies lowered(lo, key) <= (#[trigger] all[i]).0
            < raised(hi, key) by {
            if i <= at {
                assert(all[i] == one[i]);
            } else if i > at + 1 {
                assert(all[i] == one[i - 1]);
            }
        }
    }
}

/// An insertion below an inner node: what `place` has stored of the
/// node's entries, with the child for the key replaced by what the
/// insertion below reported, is the node's subtree with the key bound.
#[verifier::rlimit(100)]
#[verifier::spinoff_prover]
pub proof fn lemma_inner_inserted<D: BlockDevice>(
    alloc: &Allocator,
    before: &BlockCache<D>,
    mid: &BlockCache<D>,
    after: &BlockCache<D>,
    taken: Seq<BlockId>,
    placed: Seq<BlockId>,
    id: BlockId,
    level: u8,
    lo: int,
    hi: int,
    key: u64,
    value: u64,
    below: Grown,
    above: Grown,
)
    requires
        alloc.wf(),
        level > 0,
        alloc.sound(before),
        grown(alloc, before, mid, taken),
        grown(alloc, mid, after, placed),
        subtree_ok(alloc, before, id, level as nat, lo, hi),
        inserted(
            alloc,
            before,
            mid,
            entries_of(before.image(id))[route(entries_of(before.image(id)), key)].1,
            below,
            (level - 1) as nat,
            entries_of(before.image(id))[route(entries_of(before.image(id)), key)].0 as int,
            upper(entries_of(before.image(id)), route(entries_of(before.image(id)), key), hi),
            key,
            value,
        ),
        BTree::stored(after, above, level, with_grown(entries_of(before.image(id)), key, below)),
        node_block(alloc, after, above.id),
        above.split is Some ==> node_block(alloc, after, above.split->Some_0.1),
    ensures
        inserted(alloc, before, after, id, above, level as nat, lo, hi, key, value),
{
    let entries = entries_of(before.image(id));
    let at = route(entries, key);
    let down = (level - 1) as nat;
    let one = with_child(entries, key, below.id);
    let all = with_grown(entries, key, below);
    let lo2 = lowered(lo, key);
    let hi2 = raised(hi, key);
    let child_lo = lowered(entries[at].0 as int, key);
    let child_hi = raised(upper(entries, at, hi), key);
    lemma_route(entries, key);
    lemma_route_update(entries, key, below.id);
    lemma_child_fits(alloc, mid, entries, down, lo, hi, key, below);
    assert(lo <= entries[at].0 < hi);
    if at + 1 < entries.len() {
        assert(lo <= entries[at + 1].0 < hi);
        assert(child_hi == entries[at + 1].0);
    } else {
        assert(child_hi == hi2);
    }
    if at > 0 {
        assert(child_lo == entries[at].0);
    }
    assert(one[at].0 == child_lo);
    // The children that the insertion did not touch are as they were.
    assert forall|j: int| 0 <= j < entries.len() && j != at implies subtree_ok(
        alloc,
        after,
        (#[trigger] entries[j]).1,
        down,
        entries[j].0 as int,
        upper(entries, j, hi),
    ) && (forall|other: u64|
        subtree_get(after, entries[j].1, down, other) == subtree_get(before, entries[j].1, down,
            other)) by {
        lemma_subtree_frame(
            alloc,
            before,
            mid,
            taken,
            entries[j].1,
            down,
            entries[j].0 as int,
            upper(entries, j, hi),
        );
        lemma_subtree_frame(
            alloc,
            mid,
            after,
            placed,
            entries[j].1,
            down,
            entries[j].0 as int,
            upper(entries, j, hi),
        );
    }
    // What the insertion below reported is still there.
    match below.split {
        None => {
            lemma_subtree_frame(alloc, mid, after, placed, below.id, down, child_lo, child_hi);
        },
        Some((low, second)) => {
            lemma_subtree_frame(alloc, mid, after, placed, below.id, down, child_lo, low as int);
            lemma_subtree_frame(alloc, mid, after, placed, second, down, low as int, child_hi);
            lemma_route_insert(one, at, low, second);
        },
    }
    assert forall|i: int| 0 <= i < all.len() implies subtree_ok(
        alloc,
        after,
        (#[trigger] all[i]).1,
        down,
        all[i].0 as int,
        upper(all, i, hi2),
    ) by {
        match below.split {
            None => {
                if i != at {
                    assert(all[i] == entries[i]);
                    if i + 1 < all.len() {
                        if i + 1 != at {
                            assert(all[i + 1] == entries[i + 1]);
                        }
                    } else {
                        assert(lo <= entries[i].0 < hi);
                        assert(i > at);
                        assert(entries[at + 1].0 <= entries[i].0) by {
                            if at + 1 < i {
                                assert(entries[at + 1].0 < entries[i].0);
                            }
                        }
                    }
                    assert(upper(all, i, hi2) == upper(entries, i, hi));
                } else {
                    if at + 1 < all.len() {
                        assert(all[at + 1] == entries[at + 1]);
                    }
                }
            },
            Some((low, second)) => {
                if i < at {
                    assert(all[i] == entries[i]);
                    if i + 1 < at {
                        assert(all[i + 1] == entries[i + 1]);
                    } else {
                        assert(all[i + 1] == one[at]);
                    }
                    assert(upper(all, i, hi2) == upper(entries, i, hi));
                } else if i == at {
                    assert(all[at] == one[at]);
                    assert(all[at + 1] == (low, second));
                } else if i == at + 1 {
                    if at + 2 < all.len() {
                        assert(all[at + 2] == entries[at + 1]);
                    }
                } else {
                    assert(all[i] == entries[i - 1]);
                    if i + 1 < all.len() {
                        assert(all[i + 1] == entries[i]);
                    } else {
                        assert(lo <= entries[i - 1].0 < hi);
                        assert(entries[at + 1].0 <= entries[i - 1].0) by {
                            if at + 1 < i - 1 {
                                assert(entries[at + 1].0 < entries[i - 1].0);
                            }
                        }
                    }
                    assert(upper(all, i, hi2) == upper(entries, i - 1, hi));
                }
            },
        }
    }
    lemma_stored_inner(alloc, after, above, level, all, lo2, hi2);
    assert forall|other: u64| #[trigger]
        grown_get(after, above, level as nat, other) == bound(
            subtree_get(before, id, level as nat, other),
            key,
            value,
            other,
        ) by {
        let was = route(entries, other);
        lemma_route(entries, other);
        assert(route(one, other) == was);
        assert(subtree_get(before, id, level as nat, other) == subtree_get(
            before,
            entries[was].1,
            down,
            other,
        ));
        assert(grown_get(after, above, level as nat, other) == subtree_get(
            after,
            all[route(all, other)].1,
            down,
            other,
        ));
        let asked = grown_get(mid, below, down, other);
        assert(asked == bound(subtree_get(before, entries[at].1, down, other), key, value, other));
        match below.split {
            None => {
                if was != at {
                    assert(all[was] == entries[was]);
                    assert(other != key);
                }
            },
            Some((low, second)) => {
                assert(route(all, other) == route_after_insert(one, at, low, other));
                if was < at {
                    assert(all[was] == entries[was]);
                    assert(other != key);
                } else if was > at {
                    assert(all[was + 1] == entries[was]);
                    assert(other != key);
                } else if other < low {
                    assert(all[at] == one[at]);
                } else {
                    assert(all[at + 1] == (low, second));
                }
            },
        }
    }
}

/// An insertion below a block whose subtree was a search tree in an
/// earlier state of the cache, from which the blocks have since only been
/// read, is an insertion into the subtree as it was then.
#[verifier::rlimit(40)]
pub proof fn lemma_inserted_since<D: BlockDevice>(
    alloc: &Allocator,
    earlier: &BlockCache<D>,
    before: &BlockCache<D>,
    after: &BlockCache<D>,
    id: BlockId,
    above: Grown,
    level: nat,
    lo: int,
    hi: int,
    key: u64,
    value: u64,
)
    requires
        alloc.wf(),
        alloc.sound(earlier),
        grown(alloc, earlier, before, Seq::<BlockId>::empty()),
        subtree_ok(alloc, earlier, id, level, lo, hi),
        inserted(alloc, before, after, id, above, level, lo, hi, key, value),
    ensures
        inserted(alloc, earlier, after, id, above, level, lo, hi, key, value),
{
    lemma_subtree_frame(alloc, earlier, before, Seq::<BlockId>::empty(), id, level, lo, hi);
    assert forall|other: u64| #[trigger]
        grown_get(after, above, level, other) == bound(
            subtree_get(earlier, id, level, other),
            key,
            value,
            other,
        ) by {
        assert(subtree_get(before, id, level, other) == subtree_get(earlier, id, level, other));
    }
}

/// One more than the largest key.
pub open spec fn key_limit() -> int {
    u64::MAX as int + 1
}

/// Whether the tree under `root` is a search tree.
pub open spec fn tree_ok<D: BlockDevice>(alloc: &Allocator, cache: &BlockCache<D>,
    root: BlockId) -> bool {
    subtree_ok(alloc, cache, root, root_level(cache, root), 0, key_limit())
}

/// A search tree keeps its keys at or above the first key of its root.
pub proof fn lemma_first_key_bounds<D: BlockDevice>(
    alloc: &Allocator,
    cache: &BlockCache<D>,
    id: BlockId,
    level: nat,
    lo: int,
    hi: int,
)
    requires
        subtree_ok(alloc, cache, id, level, lo, hi),
        entries_of(cache.image(id)).len() > 0,
    ensures
        subtree_ok(alloc, cache, id, level, entries_of(cache.image(id))[0].0 as int, hi),
{
    let entries = entries_of(cache.image(id));
    assert forall|i: int| 0 <= i < entries.len()
        implies entries[0].0 <= (#[trigger] entries[i]).0 < hi by {
        if i > 0 {
            assert(entries[0].0 < entries[i].0);
        }
    }
}

/// A new root over the two nodes that a split at the top has left is the
/// tree with the key bound.
#[verifier::rlimit(50)]
pub proof fn lemma_new_root<D: BlockDevice>(
    alloc: &Allocator,
    before: &BlockCache<D>,
    mid: &BlockCache<D>,
    after: &BlockCache<D>,
    placed: Seq<BlockId>,
    old_root: BlockId,
    top: Grown,
    level: u8,
    root: BlockId,
    key: u64,
    value: u64,
)
    requires
        alloc.wf(),
        level < u8::MAX,
        alloc.sound(mid),
        grown(alloc, mid, after, placed),
        top.split is Some,
        inserted(alloc, before, mid, old_root, top, level as nat, 0, key_limit(), key, value),
        holds_node(after, root, (level + 1) as u8, seq![(top.low, top.id), top.split->Some_0]),
        node_block(alloc, after, root),
    ensures
        tree_ok(alloc, after, root),
        forall|other: u64|
            tree_get(after, root, other) == bound(
                subtree_get(before, old_root, level as nat, other),
                key,
                value,
                other,
            ),
{
    let low = top.split->Some_0.0;
    let second = top.split->Some_0.1;
    let pair = seq![(top.low, top.id), (low, second)];
    let up = (level + 1) as u8;
    lemma_first_key_bounds(alloc, mid, top.id, level as nat, 0, low as int);
    lemma_subtree_frame(alloc, mid, after, placed, top.id, level as nat, top.low as int,
        low as int);
    lemma_subtree_frame(alloc, mid, after, placed, second, level as nat, low as int, key_limit());
    assert(keys_ascending(pair));
    assert forall|i: int| 0 <= i < pair.len() implies subtree_ok(
        alloc,
        after,
        (#[trigger] pair[i]).1,
        (up - 1) as nat,
        pair[i].0 as int,
        upper(pair, i, key_limit()),
    ) by {
        if i == 0 {
            assert(upper(pair, 0, key_limit()) == low);
        }
    }
    lemma_inner_ok(alloc, after, root, up, pair, 0, key_limit());
    lemma_shows_node(after, root, up, pair);
    assert forall|other: u64|
        tree_get(after, root, other) == bound(
            subtree_get(before, old_root, level as nat, other),
            key,
            value,
            other,
        ) by {
        lemma_rank(pair, other);
        let r = rank(pair, other);
        assert(grown_get(mid, top, level as nat, other) == bound(
            subtree_get(before, old_root, level as nat, other),
            key,
            value,
            other,
        ));
        if other < low {
            if r > 1 {
                assert(pair[1].0 < other);
            }
            assert(route(pair, other) == 0);
        } else {
            if r < 1 {
                assert(pair[0].0 >= other);
            }
            if r == 1 {
                assert(pair[1].0 >= other);
            }
            if r == 2 {
                assert(pair[1].0 < other);
            }
            assert(route(pair, other) == 1);
        }
    }
}

/// A step of the tree that leaves the root alone leaves the tree as it
/// was: still a search tree, binding every key as before.
pub proof fn lemma_tree_frame<D: BlockDevice>(
    alloc: &Allocator,
    before: &BlockCache<D>,
    after: &BlockCache<D>,
    fresh: Seq<BlockId>,
    root: BlockId,
)
    requires
        alloc.wf(),
        grown(alloc, before, after, fresh),
        alloc.sound(before),
        tree_ok(alloc, before, root),
    ensures
        tree_ok(alloc, after, root),
        root_level(after, root) == root_level(before, root),
        forall|key: u64| #[trigger] tree_get(after, root, key) == tree_get(before, root, key),
{
    lemma_grown_image(alloc, before, after, fresh, root);
    lemma_subtree_frame(alloc, before, after, fresh, root, root_level(before, root), 0,
        key_limit());
}

/// An empty leaf in a node block is a search tree that binds nothing.
pub proof fn lemma_empty_tree<D: BlockDevice>(alloc: &Allocator, cache: &BlockCache<D>,
    root: BlockId)
    requires
        holds_node(cache, root, 0, Seq::<(u64, u64)>::empty()),
        node_block(alloc, cache, root),
    ensures
        tree_ok(alloc, cache, root),
        tree_full(cache, root),
        forall|x: BlockId| #[trigger] in_tree(cache, root, x) ==> x == root,
        forall|key: u64| #[trigger] tree_get(cache, root, key) is None,
{
    let none = Seq::<(u64, u64)>::empty();
    lemma_shows_node(cache, root, 0, none);
    lemma_leaf_ok(alloc, cache, root, none, 0, key_limit());
}

/// Whether block `x` is a node of the subtree under block `id`.
pub open spec fn in_subtree<D: BlockDevice>(
    cache: &BlockCache<D>,
    id: BlockId,
    level: nat,
    x: BlockId,
) -> bool
    decreases level,
{
    let entries = entries_of(cache.image(id));
    x == id || (level > 0 && exists|i: int|
        0 <= i < entries.len()
            && in_subtree(cache, (#[trigger] entries[i]).1, (level - 1) as nat, x))
}

/// Whether every node of the subtree under block `id`, the node in `id`
/// itself aside, has entries.
pub open spec fn subtree_full<D: BlockDevice>(cache: &BlockCache<D>, id: BlockId,
    level: nat) -> bool
    decreases level,
{
    let entries = entries_of(cache.image(id));
    level > 0 ==> forall|i: int|
        0 <= i < entries.len() ==> entries_of(cache.image((#[trigger] entries[i]).1)).len() > 0
            && subtree_full(cache, entries[i].1, (level - 1) as nat)
}

/// A node of a search tree lives in a node block that shows one image, is
/// no higher than the tree, is the root if it is as high, keeps its keys
/// within the tree's bounds, and has entries unless it is the root.
#[verifier::rlimit(40)]
pub proof fn lemma_in_subtree<D: BlockDevice>(
    alloc: &Allocator,
    cache: &BlockCache<D>,
    id: BlockId,
    level: nat,
    lo: int,
    hi: int,
    x: BlockId,
)
    requires
        subtree_ok(alloc, cache, id, level, lo, hi),
        subtree_full(cache, id, level),
        in_subtree(cache, id, level, x),
    ensures
        node_block(alloc, cache, x),
        cache.settled(x),
        header_of(cache.image(x)).level <= level,
        header_of(cache.image(x)).level == level ==> x == id,
        x != id ==> entries_of(cache.image(x)).len() > 0,
        forall|i: int|
            0 <= i < entries_of(cache.image(x)).len()
                ==> lo <= (#[trigger] entries_of(cache.image(x))[i]).0
                < hi,
    decreases level,
{
    let entries = entries_of(cache.image(id));
    if x != id {
        let i = choose|i: int|
            0 <= i < entries.len()
                && in_subtree(cache, (#[trigger] entries[i]).1, (level - 1) as nat, x);
        let child = entries[i];
        assert(subtree_ok(alloc, cache, child.1, (level - 1) as nat, child.0 as int, upper(entries,
            i, hi)));
        lemma_in_subtree(
            alloc,
            cache,
            child.1,
            (level - 1) as nat,
            child.0 as int,
            upper(entries, i, hi),
            x,
        );
        assert(lo <= child.0 < hi);
        if i + 1 < entries.len() {
            assert(lo <= entries[i + 1].0 < hi);
        }
    }
}

/// The subtrees under two children of a node of a search tree share no
/// block.
#[verifier::rlimit(40)]
pub proof fn lemma_children_apart<D: BlockDevice>(
    alloc: &Allocator,
    cache: &BlockCache<D>,
    id: BlockId,
    level: nat,
    lo: int,
    hi: int,
    i: int,
    j: int,
    x: BlockId,
)
    requires
        level > 0,
        subtree_ok(alloc, cache, id, level, lo, hi),
        subtree_full(cache, id, level),
        0 <= i < j < entries_of(cache.image(id)).len(),
        in_subtree(cache, entries_of(cache.image(id))[i].1, (level - 1) as nat, x),
    ensures
        !in_subtree(cache, entries_of(cache.image(id))[j].1, (level - 1) as nat, x),
{
    let entries = entries_of(cache.image(id));
    let down = (level - 1) as nat;
    let a = entries[i];
    let b = entries[j];
    if in_subtree(cache, b.1, down, x) {
        assert(subtree_ok(alloc, cache, a.1, down, a.0 as int, upper(entries, i, hi)));
        assert(subtree_ok(alloc, cache, b.1, down, b.0 as int, upper(entries, j, hi)));
        lemma_in_subtree(alloc, cache, a.1, down, a.0 as int, upper(entries, i, hi), x);
        lemma_in_subtree(alloc, cache, b.1, down, b.0 as int, upper(entries, j, hi), x);
        let inside = entries_of(cache.image(x));
        assert(inside.len() > 0);
        assert(a.0 <= inside[0].0 < upper(entries, i, hi));
        assert(b.0 <= inside[0].0 < upper(entries, j, hi));
        if i + 1 < j {
            assert(entries[i + 1].0 < entries[j].0);
        }
    }
}

/// A step of the tree leaves the blocks of every search tree that was
/// there as they were.
#[verifier::rlimit(40)]
pub proof fn lemma_blocks_frame<D: BlockDevice>(
    alloc: &Allocator,
    before: &BlockCache<D>,
    after: &BlockCache<D>,
    fresh: Seq<BlockId>,
    id: BlockId,
    level: nat,
    lo: int,
    hi: int,
)
    requires
        alloc.wf(),
        grown(alloc, before, after, fresh),
        alloc.sound(before),
        subtree_ok(alloc, before, id, level, lo, hi),
    ensures
        after.image(id) == before.image(id),
        subtree_full(after, id, level) == subtree_full(before, id, level),
        forall|x: BlockId| #[trigger] in_subtree(after, id, level, x) == in_subtree(before, id,
            level, x),
    decreases level,
{
    lemma_grown_image(alloc, before, after, fresh, id);
    let entries = entries_of(before.image(id));
    let down = (level - 1) as nat;
    if level > 0 {
        assert forall|i: int| 0 <= i < entries.len() implies after.image((#[trigger] entries[i]).1)
            == before.image(entries[i].1)
                && subtree_full(after, entries[i].1, down) == subtree_full(
            before,
            entries[i].1,
            down,
        ) && (forall|x: BlockId| #[trigger]
            in_subtree(after, entries[i].1, down, x) == in_subtree(before, entries[i].1, down,
                x)) by {
            assert(subtree_ok(
                alloc,
                before,
                entries[i].1,
                down,
                entries[i].0 as int,
                upper(entries, i, hi),
            ));
            lemma_blocks_frame(
                alloc,
                before,
                after,
                fresh,
                entries[i].1,
                down,
                entries[i].0 as int,
                upper(entries, i, hi),
            );
        }
        assert forall|x: BlockId| #[trigger] in_subtree(after, id, level, x) == in_subtree(
            before,
            id,
            level,
            x,
        ) by {
            if in_subtree(after, id, level, x) && x != id {
                let i = choose|i: int|
                    0 <= i < entries.len() && in_subtree(after, (#[trigger] entries[i]).1, down, x);
                assert(in_subtree(before, entries[i].1, down, x));
            }
            if in_subtree(before, id, level, x) && x != id {
                let i = choose|i: int|
                    0 <= i < entries.len()
                        && in_subtree(before, (#[trigger] entries[i]).1, down, x);
                assert(in_subtree(after, entries[i].1, down, x));
            }
        }
    }
}

/// Whether block `x` is a node of what an insertion reports.
pub open spec fn in_grown<D: BlockDevice>(cache: &BlockCache<D>, grown: Grown, level: nat,
    x: BlockId) -> bool {
    in_subtree(cache, grown.id, level, x) || (grown.split is Some && in_subtree(
        cache,
        grown.split->Some_0.1,
        level,
        x,
    ))
}

/// Whether every node of what an insertion reports has entries.
pub open spec fn grown_full<D: BlockDevice>(cache: &BlockCache<D>, grown: Grown,
    level: nat) -> bool {
    &&& subtree_full(cache, grown.id, level)
    &&& entries_of(cache.image(grown.id)).len() > 0
    &&& grown.split is Some ==> subtree_full(cache, grown.split->Some_0.1, level) && entries_of(
        cache.image(grown.split->Some_0.1),
    ).len() > 0
}

/// Whether what an insertion reports has replaced the subtree under `id`
/// block for block: its nodes have entries, the blocks in `left` were nodes
/// of the subtree, and every node of what is reported is one of the blocks
/// in `taken` or a node of the subtree that is not in `left`.
pub open spec fn replaced<D: BlockDevice>(
    before: &BlockCache<D>,
    after: &BlockCache<D>,
    id: BlockId,
    grown: Grown,
    level: nat,
    taken: Seq<BlockId>,
    left: Seq<BlockId>,
) -> bool {
    &&& grown_full(after, grown, level)
    &&& forall|i: int| 0 <= i < left.len() ==> in_subtree(before, id, level, #[trigger] left[i])
    &&& forall|x: BlockId| #[trigger]
        in_grown(after, grown, level, x) ==> taken.contains(x) || (in_subtree(before, id, level, x)
            && !left.contains(x))
}

/// Where the entry in slot `i` of an inner node's copy comes from: the
/// slot of the node's entry that it is, `-1` for the copy of the child
/// that the key went to, `-2` for the second node of that copy.
pub open spec fn source(entries: Seq<(u64, u64)>, key: u64, below: Grown, i: int) -> int {
    let at = route(entries, key);
    if i == at {
        -1
    } else if below.split is Some && i == at + 1 {
        -2
    } else if below.split is Some && i > at + 1 {
        i - 1
    } else {
        i
    }
}

/// The children of an inner node's copy are the node's children, but for
/// the one that the key went to, and what the insertion below reported.
pub proof fn lemma_source(entries: Seq<(u64, u64)>, key: u64, below: Grown, i: int)
    requires
        keys_ascending(entries),
        entries.len() > 0,
        0 <= i < with_grown(entries, key, below).len(),
    ensures
        source(entries, key, below, i) == -1 ==> with_grown(entries, key, below)[i].1 == below.id,
        source(entries, key, below, i) == -2 ==> below.split is Some && with_grown(
            entries,
            key,
            below,
        )[i].1 == below.split->Some_0.1,
        source(entries, key, below, i) >= 0 ==> source(entries, key, below, i) < entries.len()
            && source(entries, key, below, i) != route(entries, key) && with_grown(
            entries,
            key,
            below,
        )[i].1 == entries[source(entries, key, below, i)].1,
{
    lemma_route(entries, key);
    let at = route(entries, key);
    let one = with_child(entries, key, below.id);
    if below.split is Some {
        if i <= at {
            assert(with_grown(entries, key, below)[i] == one[i]);
        } else if i > at + 1 {
            assert(with_grown(entries, key, below)[i] == one[i - 1]);
        }
    }
}

/// The nodes of what `place` has stored are the new node or nodes and the
/// nodes under the entries; they all have entries where the nodes under
/// the entries have.
#[verifier::rlimit(40)]
pub proof fn lemma_stored_blocks<D: BlockDevice>(
    cache: &BlockCache<D>,
    grown: Grown,
    level: u8,
    all: Seq<(u64, u64)>,
)
    requires
        BTree::stored(cache, grown, level, all),
        1 <= all.len() <= BTREE_NODE_ORDER + 1,
        keys_ascending(all),
    ensures
        forall|x: BlockId| #[trigger]
            in_grown(cache, grown, level as nat, x) ==> x == grown.id || (grown.split is Some && x
                == grown.split->Some_0.1) || (level > 0 && exists|i: int|
                0 <= i < all.len()
                    && in_subtree(cache, (#[trigger] all[i]).1, (level - 1) as nat, x)),
        (level > 0 ==> forall|i: int|
            0 <= i < all.len() ==> entries_of(cache.image((#[trigger] all[i]).1)).len() > 0
                && subtree_full(cache, all[i].1, (level - 1) as nat)) ==> grown_full(
            cache,
            grown,
            level as nat,
        ),
{
    let half = (BTREE_NODE_ORDER / 2) as int;
    let down = (level - 1) as nat;
    if all.len() <= BTREE_NODE_ORDER {
        lemma_shows_node(cache, grown.id, level, all);
    } else {
        let left = all.take(half);
        let right = all.skip(half);
        lemma_ascending_part(all, 0, half);
        lemma_ascending_part(all, half, all.len() as int);
        assert(left =~= all.subrange(0, half));
        assert(right =~= all.subrange(half, all.len() as int));
        lemma_shows_node(cache, grown.id, level, left);
        lemma_shows_node(cache, grown.split->Some_0.1, level, right);
        assert forall|i: int| 0 <= i < left.len() implies (#[trigger] left[i]) == all[i] by {}
        assert forall|i: int| 0 <= i < right.len()
            implies (#[trigger] right[i]) == all[i + half] by {}
        if level > 0 {
            assert forall|x: BlockId| #[trigger] in_grown(cache, grown, level as nat, x) implies x
                == grown.id || x == grown.split->Some_0.1 || exists|i: int|
                0 <= i < all.len() && in_subtree(cache, (#[trigger] all[i]).1, down, x) by {
                if in_subtree(cache, grown.id, level as nat, x) && x != grown.id {
                    let i = choose|i: int|
                        0 <= i < left.len() && in_subtree(cache, (#[trigger] left[i]).1, down, x);
                    assert(left[i] == all[i]);
                    assert(in_subtree(cache, all[i].1, down, x));
                } else if in_subtree(cache, grown.split->Some_0.1, level as nat, x) && x
                    != grown.split->Some_0.1 {
                    let i = choose|i: int|
                        0 <= i < right.len() && in_subtree(cache, (#[trigger] right[i]).1, down, x);
                    assert(right[i] == all[i + half]);
                    assert(in_subtree(cache, all[i + half].1, down, x));
                }
            }
            if forall|i: int|
                0 <= i < all.len() ==> entries_of(cache.image((#[trigger] all[i]).1)).len() > 0
                    && subtree_full(cache, all[i].1, down) {
                assert forall|i: int| 0 <= i < left.len() implies entries_of(
                    cache.image((#[trigger] left[i]).1),
                ).len() > 0 && subtree_full(cache, left[i].1, down) by {
                    assert(left[i] == all[i]);
                }
                assert forall|i: int| 0 <= i < right.len() implies entries_of(
                    cache.image((#[trigger] right[i]).1),
                ).len() > 0 && subtree_full(cache, right[i].1, down) by {
                    assert(right[i] == all[i + half]);
                }
            }
        }
    }
}

/// An insertion into a leaf replaces the leaf by the new node or nodes.
pub proof fn lemma_leaf_replaced<D: BlockDevice>(
    before: &BlockCache<D>,
    after: &BlockCache<D>,
    id: BlockId,
    grown: Grown,
    all: Seq<(u64, u64)>,
    taken: Seq<BlockId>,
)
    requires
        BTree::stored(after, grown, 0, all),
        1 <= all.len() <= BTREE_NODE_ORDER + 1,
        keys_ascending(all),
        taken.contains(grown.id),
        grown.split is Some ==> taken.contains(grown.split->Some_0.1),
    ensures
        replaced(before, after, id, grown, 0, taken, seq![id]),
{
    lemma_stored_blocks(after, grown, 0, all);
    assert(seq![id][0] == id);
}

/// What an insertion below an inner node reports, and the node's other
/// children, are after the node's copy has been placed what they were
/// before: with the same blocks, and with entries in every node.
#[verifier::rlimit(40)]
pub proof fn lemma_children_carried<D: BlockDevice>(
    alloc: &Allocator,
    before: &BlockCache<D>,
    mid: &BlockCache<D>,
    after: &BlockCache<D>,
    taken: Seq<BlockId>,
    placed: Seq<BlockId>,
    id: BlockId,
    level: u8,
    lo: int,
    hi: int,
    key: u64,
    below: Grown,
)
    requires
        alloc.wf(),
        level > 0,
        alloc.sound(before),
        alloc.sound(mid),
        grown(alloc, before, mid, taken),
        grown(alloc, mid, after, placed),
        subtree_ok(alloc, before, id, level as nat, lo, hi),
        subtree_full(before, id, level as nat),
        grown_ok(
            alloc,
            mid,
            below,
            (level - 1) as nat,
            lowered(
                entries_of(before.image(id))[route(entries_of(before.image(id)), key)].0 as int,
                key,
            ),
            raised(upper(entries_of(before.image(id)), route(entries_of(before.image(id)), key),
                hi), key),
        ),
        grown_full(mid, below, (level - 1) as nat),
    ensures
        forall|j: int|
            0 <= j < entries_of(before.image(id)).len()
                && j != route(entries_of(before.image(id)), key)
                ==> entries_of(after.image((#[trigger] entries_of(before.image(id))[j]).1)).len() > 0
                && subtree_full(after, entries_of(before.image(id))[j].1, (level - 1) as nat)
                && forall|x: BlockId| #[trigger]
                in_subtree(after, entries_of(before.image(id))[j].1, (level - 1) as nat, x)
                    == in_subtree(before, entries_of(before.image(id))[j].1, (level - 1) as nat, x),
        grown_full(after, below, (level - 1) as nat),
        forall|x: BlockId| #[trigger]
            in_grown(after, below, (level - 1) as nat, x) == in_grown(mid, below,
                (level - 1) as nat, x),
{
    let entries = entries_of(before.image(id));
    let at = route(entries, key);
    let down = (level - 1) as nat;
    let child_lo = lowered(entries[at].0 as int, key);
    let child_hi = raised(upper(entries, at, hi), key);
    assert forall|j: int| 0 <= j < entries.len() && j != at implies entries_of(
        after.image((#[trigger] entries[j]).1),
    ).len() > 0 && subtree_full(after, entries[j].1, down) && forall|x: BlockId| #[trigger]
        in_subtree(after, entries[j].1, down, x) == in_subtree(before, entries[j].1, down, x) by {
        let child = entries[j];
        assert(subtree_ok(alloc, before, child.1, down, child.0 as int, upper(entries, j, hi)));
        lemma_subtree_frame(alloc, before, mid, taken, child.1, down, child.0 as int,
            upper(entries, j, hi));
        lemma_blocks_frame(alloc, before, mid, taken, child.1, down, child.0 as int, upper(entries,
            j, hi));
        lemma_blocks_frame(alloc, mid, after, placed, child.1, down, child.0 as int, upper(entries,
            j, hi));
    }
    match below.split {
        None => {
            lemma_blocks_frame(alloc, mid, after, placed, below.id, down, child_lo, child_hi);
        },
        Some((low, second)) => {
            lemma_blocks_frame(alloc, mid, after, placed, below.id, down, child_lo, low as int);
            lemma_blocks_frame(alloc, mid, after, placed, second, down, low as int, child_hi);
        },
    }
}

/// An insertion below an inner node replaces the node's subtree by the
/// node's copy over what the insertion below reported and the node's other
/// children: the node and what the insertion below left are left, and
/// nothing that is left is a node of the new subtree.
#[verifier::rlimit(50)]
#[verifier::spinoff_prover]
pub proof fn lemma_inner_replaced<D: BlockDevice>(
    alloc: &Allocator,
    before: &BlockCache<D>,
    mid: &BlockCache<D>,
    after: &BlockCache<D>,
    taken: Seq<BlockId>,
    placed: Seq<BlockId>,
    left: Seq<BlockId>,
    id: BlockId,
    level: u8,
    lo: int,
    hi: int,
    key: u64,
    below: Grown,
    above: Grown,
)
    requires
        alloc.wf(),
        level > 0,
        alloc.sound(before),
        alloc.sound(mid),
        grown(alloc, before, mid, taken),
        grown(alloc, mid, after, placed),
        subtree_ok(alloc, before, id, level as nat, lo, hi),
        subtree_full(before, id, level as nat),
        grown_ok(
            alloc,
            mid,
            below,
            (level - 1) as nat,
            lowered(
                entries_of(before.image(id))[route(entries_of(before.image(id)), key)].0 as int,
                key,
            ),
            raised(upper(entries_of(before.image(id)), route(entries_of(before.image(id)), key),
                hi), key),
        ),
        replaced(
            before,
            mid,
            entries_of(before.image(id))[route(entries_of(before.image(id)), key)].1,
            below,
            (level - 1) as nat,
            taken,
            left,
        ),
        BTree::stored(after, above, level, with_grown(entries_of(before.image(id)), key, below)),
        keys_ascending(with_grown(entries_of(before.image(id)), key, below)),
        1 <= with_grown(entries_of(before.image(id)), key, below).len() <= BTREE_NODE_ORDER + 1,
        placed.contains(above.id),
        above.split is Some ==> placed.contains(above.split->Some_0.1),
    ensures
        replaced(before, after, id, above, level as nat, taken + placed, left.push(id)),
{
    let entries = entries_of(before.image(id));
    let at = route(entries, key);
    let down = (level - 1) as nat;
    let all = with_grown(entries, key, below);
    let both = taken + placed;
    let gone = left.push(id);
    lemma_route(entries, key);
    lemma_children_carried(alloc, before, mid, after, taken, placed, id, level, lo, hi, key, below);
    lemma_stored_blocks(after, above, level, all);
    assert forall|i: int| 0 <= i < all.len()
        implies entries_of(after.image((#[trigger] all[i]).1)).len()
        > 0 && subtree_full(after, all[i].1, down) by {
        lemma_source(entries, key, below, i);
        let from = source(entries, key, below, i);
        if from >= 0 {
            assert(entries_of(after.image(entries[from].1)).len() > 0);
        }
    }
    assert forall|i: int| 0 <= i < gone.len() implies in_subtree(
        before,
        id,
        level as nat,
        #[trigger] gone[i],
    ) by {
        if i < left.len() {
            assert(gone[i] == left[i]);
            assert(in_subtree(before, entries[at].1, down, left[i]));
        }
    }
    assert forall|x: BlockId| #[trigger] in_grown(after, above, level as nat, x)
        implies both.contains(
        x,
    ) || (in_subtree(before, id, level as nat, x) && !gone.contains(x)) by {
        if x == above.id || (above.split is Some && x == above.split->Some_0.1) {
            let k = choose|k: int| 0 <= k < placed.len() && placed[k] == x;
            assert(both[taken.len() + k] == x);
        } else {
            let i = choose|i: int| 0 <= i < all.len()
                && in_subtree(after, (#[trigger] all[i]).1, down, x);
            lemma_source(entries, key, below, i);
            let from = source(entries, key, below, i);
            if from >= 0 {
                let child = entries[from];
                assert(in_subtree(before, child.1, down, x));
                assert(subtree_ok(alloc, before, child.1, down, child.0 as int, upper(entries,
                    from, hi)));
                assert(subtree_full(before, child.1, down));
                lemma_in_subtree(
                    alloc,
                    before,
                    child.1,
                    down,
                    child.0 as int,
                    upper(entries, from, hi),
                    x,
                );
                assert(x != id);
                if gone.contains(x) {
                    let k = choose|k: int| 0 <= k < gone.len() && gone[k] == x;
                    assert(k < left.len());
                    assert(gone[k] == left[k]);
                    assert(in_subtree(before, entries[at].1, down, left[k]));
                    if from < at {
                        lemma_children_apart(alloc, before, id, level as nat, lo, hi, from, at, x);
                    } else {
                        lemma_children_apart(alloc, before, id, level as nat, lo, hi, at, from, x);
                    }
                }
            } else {
                assert(in_grown(after, below, down, x));
                assert(in_grown(mid, below, down, x));
                if taken.contains(x) {
                    let k = choose|k: int| 0 <= k < taken.len() && taken[k] == x;
                    assert(both[k] == x);
                } else {
                    let child = entries[at];
                    assert(in_subtree(before, child.1, down, x) && !left.contains(x));
                    assert(subtree_ok(alloc, before, child.1, down, child.0 as int, upper(entries,
                        at, hi)));
                    assert(subtree_full(before, child.1, down));
                    lemma_in_subtree(
                        alloc,
                        before,
                        child.1,
                        down,
                        child.0 as int,
                        upper(entries, at, hi),
                        x,
                    );
                    assert(x != id);
                    if gone.contains(x) {
                        let k = choose|k: int| 0 <= k < gone.len() && gone[k] == x;
                        if k < left.len() {
                            assert(gone[k] == left[k]);
                        }
                    }
                }
            }
        }
    }
}

/// What has replaced a subtree of a state of the cache from which the
/// blocks have since only been read has replaced the subtree as it was
/// then.
#[verifier::rlimit(40)]
pub proof fn lemma_replaced_since<D: BlockDevice>(
    alloc: &Allocator,
    earlier: &BlockCache<D>,
    before: &BlockCache<D>,
    after: &BlockCache<D>,
    id: BlockId,
    above: Grown,
    level: nat,
    lo: int,
    hi: int,
    taken: Seq<BlockId>,
    left: Seq<BlockId>,
)
    requires
        alloc.wf(),
        alloc.sound(earlier),
        grown(alloc, earlier, before, Seq::<BlockId>::empty()),
        subtree_ok(alloc, earlier, id, level, lo, hi),
        replaced(before, after, id, above, level, taken, left),
    ensures
        replaced(earlier, after, id, above, level, taken, left),
{
    lemma_blocks_frame(alloc, earlier, before, Seq::<BlockId>::empty(), id, level, lo, hi);
    assert forall|i: int| 0 <= i < left.len()
        implies in_subtree(earlier, id, level, #[trigger] left[i]) by {
        assert(in_subtree(before, id, level, left[i]));
    }
    assert forall|x: BlockId| #[trigger] in_grown(after, above, level, x) implies taken.contains(x)
        || (
    in_subtree(earlier, id, level, x) && !left.contains(x)) by {
        if !taken.contains(x) {
            assert(in_subtree(before, id, level, x));
        }
    }
}

/// Whether block `x` is a node of the tree under `root`.
pub open spec fn in_tree<D: BlockDevice>(cache: &BlockCache<D>, root: BlockId, x: BlockId) -> bool {
    in_subtree(cache, root, root_level(cache, root), x)
}

/// Whether every node of the tree under `root`, the root aside, has
/// entries.
pub open spec fn tree_full<D: BlockDevice>(cache: &BlockCache<D>, root: BlockId) -> bool {
    subtree_full(cache, root, root_level(cache, root))
}

/// Whether the tree under `root` has replaced the tree that was under
/// `old_root` block for block: its nodes, the root aside, have entries,
/// the blocks in `left` were nodes of the old tree, and every node of the
/// new tree is one of the blocks in `taken` or a node of the old tree that
/// is not in `left`.
pub open spec fn tree_replaced<D: BlockDevice>(
    before: &BlockCache<D>,
    after: &BlockCache<D>,
    old_root: BlockId,
    root: BlockId,
    taken: Seq<BlockId>,
    left: Seq<BlockId>,
) -> bool {
    &&& tree_full(after, root)
    &&& forall|i: int| 0 <= i < left.len() ==> in_tree(before, old_root, #[trigger] left[i])
    &&& forall|x: BlockId| #[trigger]
        in_tree(after, root, x) ==> taken.contains(x) || (in_tree(before, old_root, x)
            && !left.contains(
            x,
        ))
}

/// A new root over the two nodes that a split at the top has left replaces
/// the old tree together with them.
#[verifier::rlimit(40)]
pub proof fn lemma_root_replaced<D: BlockDevice>(
    alloc: &Allocator,
    before: &BlockCache<D>,
    mid: &BlockCache<D>,
    after: &BlockCache<D>,
    taken: Seq<BlockId>,
    left: Seq<BlockId>,
    old_root: BlockId,
    top: Grown,
    level: u8,
    root: BlockId,
)
    requires
        alloc.wf(),
        level < u8::MAX,
        alloc.sound(mid),
        grown(alloc, mid, after, seq![root]),
        top.split is Some,
        root_level(before, old_root) == level,
        grown_ok(alloc, mid, top, level as nat, 0, key_limit()),
        replaced(before, mid, old_root, top, level as nat, taken, left),
        holds_node(after, root, (level + 1) as u8, seq![(top.low, top.id), top.split->Some_0]),
    ensures
        tree_replaced(before, after, old_root, root, taken.push(root), left),
{
    let low = top.split->Some_0.0;
    let second = top.split->Some_0.1;
    let pair = seq![(top.low, top.id), (low, second)];
    let up = (level + 1) as u8;
    let added = taken.push(root);
    assert(keys_ascending(pair));
    lemma_shows_node(after, root, up, pair);
    lemma_blocks_frame(alloc, mid, after, seq![root], top.id, level as nat, 0, low as int);
    lemma_blocks_frame(alloc, mid, after, seq![root], second, level as nat, low as int,
        key_limit());
    assert forall|i: int| 0 <= i < pair.len()
        implies entries_of(after.image((#[trigger] pair[i]).1)).len()
        > 0 && subtree_full(after, pair[i].1, level as nat) by {
        if i == 0 {
            assert(pair[0].1 == top.id);
        } else {
            assert(pair[1].1 == second);
        }
    }
    assert forall|x: BlockId| #[trigger] in_tree(after, root, x) implies added.contains(x)
        || (in_tree(
        before,
        old_root,
        x,
    ) && !left.contains(x)) by {
        if x == root {
            assert(added[taken.len() as int] == root);
        } else {
            let i = choose|i: int|
                0 <= i < pair.len() && in_subtree(after, (#[trigger] pair[i]).1, level as nat, x);
            if i == 0 {
                assert(pair[0].1 == top.id);
            } else {
                assert(pair[1].1 == second);
            }
            assert(in_grown(after, top, level as nat, x));
            assert(in_grown(mid, top, level as nat, x));
            if taken.contains(x) {
                let k = choose|k: int| 0 <= k < taken.len() && taken[k] == x;
                assert(added[k] == x);
            }
        }
    }
}

/// Where the second of two states of the cache shows every node of a
/// search tree of the first as the first does, and marks it as allocated,
/// the tree is in the second what it was in the first: a search tree with
/// the same nodes, binding every key as before.
#[verifier::rlimit(40)]
pub proof fn lemma_subtree_kept<D: BlockDevice>(
    alloc: &Allocator,
    before: &BlockCache<D>,
    after: &BlockCache<D>,
    id: BlockId,
    level: nat,
    lo: int,
    hi: int,
)
    requires
        subtree_ok(alloc, before, id, level, lo, hi),
        forall|x: BlockId| #[trigger]
            in_subtree(before, id, level, x) ==> after.logical(x) == before.logical(x) && allocated(
                alloc.bitmap(after),
                x as int,
            ),
    ensures
        after.image(id) == before.image(id),
        subtree_ok(alloc, after, id, level, lo, hi),
        subtree_full(after, id, level) == subtree_full(before, id, level),
        forall|x: BlockId| #[trigger] in_subtree(after, id, level, x) == in_subtree(before, id,
            level, x),
        forall|key: u64| subtree_get(after, id, level, key) == subtree_get(before, id, level, key),
    decreases level,
{
    assert(in_subtree(before, id, level, id));
    assert(after.logical(id) == before.logical(id));
    assert(after.image(id) == before.image(id));
    let entries = entries_of(before.image(id));
    assert(entries_of(after.image(id)) == entries);
    let down = (level - 1) as nat;
    if level > 0 {
        assert forall|i: int| 0 <= i < entries.len() implies after.image((#[trigger] entries[i]).1)
            == before.image(entries[i].1) && subtree_ok(
            alloc,
            after,
            entries[i].1,
            down,
            entries[i].0 as int,
            upper(entries, i, hi),
        ) && subtree_full(after, entries[i].1, down) == subtree_full(before, entries[i].1, down)
            && (
        forall|x: BlockId| #[trigger]
            in_subtree(after, entries[i].1, down, x) == in_subtree(before, entries[i].1, down, x))
                && (
        forall|key: u64|
            subtree_get(after, entries[i].1, down, key) == subtree_get(before, entries[i].1, down,
                key)) by {
            let child = entries[i];
            assert(subtree_ok(alloc, before, child.1, down, child.0 as int, upper(entries, i, hi)));
            assert forall|x: BlockId| #[trigger] in_subtree(before, child.1, down, x)
                implies after.logical(
                x,
            ) == before.logical(x) && allocated(alloc.bitmap(after), x as int) by {
                assert(in_subtree(before, id, level, x));
            }
            lemma_subtree_kept(alloc, before, after, child.1, down, child.0 as int, upper(entries,
                i, hi));
        }
        assert forall|x: BlockId| #[trigger] in_subtree(after, id, level, x) == in_subtree(
            before,
            id,
            level,
            x,
        ) by {
            if in_subtree(after, id, level, x) && x != id {
                let i = choose|i: int|
                    0 <= i < entries.len() && in_subtree(after, (#[trigger] entries[i]).1, down, x);
                let child = entries[i];
                assert(in_subtree(after, child.1, down, x) == in_subtree(before, child.1, down, x));
                assert(in_subtree(before, entries[i].1, down, x));
            }
            if in_subtree(before, id, level, x) && x != id {
                let i = choose|i: int|
                    0 <= i < entries.len()
                        && in_subtree(before, (#[trigger] entries[i]).1, down, x);
                let child = entries[i];
                assert(in_subtree(after, child.1, down, x) == in_subtree(before, child.1, down, x));
                assert(in_subtree(after, entries[i].1, down, x));
            }
        }
        assert forall|key: u64| subtree_get(after, id, level, key) == subtree_get(
            before,
            id,
            level,
            key,
        ) by {
            let at = route(entries, key);
            lemma_rank(entries, key);
            assert(0 <= at < entries.len());
            let child = entries[at];
            assert(subtree_get(after, child.1, down, key) == subtree_get(before, child.1, down,
                key));
            assert(subtree_get(before, id, level, key) == subtree_get(before, child.1, down, key));
            assert(entries_of(after.image(id)) == entries);
            assert(subtree_get(after, id, level, key) == subtree_get(after, child.1, down, key));
        }
    }
}

/// The tree-level form of `lemma_subtree_kept`.
pub proof fn lemma_tree_kept<D: BlockDevice>(
    alloc: &Allocator,
    before: &BlockCache<D>,
    after: &BlockCache<D>,
    root: BlockId,
)
    requires
        tree_ok(alloc, before, root),
        forall|x: BlockId| #[trigger]
            in_tree(before, root, x) ==> after.logical(x) == before.logical(x) && allocated(
                alloc.bitmap(after),
                x as int,
            ),
    ensures
        tree_ok(alloc, after, root),
        tree_full(after, root) == tree_full(before, root),
        forall|x: BlockId| #[trigger] in_tree(after, root, x) == in_tree(before, root, x),
        forall|key: u64| #[trigger] tree_get(after, root, key) == tree_get(before, root, key),
{
    assert(in_tree(before, root, root));
    assert(after.logical(root) == before.logical(root));
    assert forall|x: BlockId| #[trigger]
        in_subtree(before, root, root_level(before, root), x) implies after.logical(x)
        == before.logical(x) && allocated(alloc.bitmap(after), x as int) by {
        assert(in_tree(before, root, x));
    }
    lemma_subtree_kept(alloc, before, after, root, root_level(before, root), 0, key_limit());
}

/// A step of the tree that leaves the root alone leaves the tree's nodes
/// as they were.
pub proof fn lemma_tree_blocks_frame<D: BlockDevice>(
    alloc: &Allocator,
    before: &BlockCache<D>,
    after: &BlockCache<D>,
    fresh: Seq<BlockId>,
    root: BlockId,
)
    requires
        alloc.wf(),
        grown(alloc, before, after, fresh),
        alloc.sound(before),
        tree_ok(alloc, before, root),
    ensures
        tree_full(after, root) == tree_full(before, root),
        forall|x: BlockId| #[trigger] in_tree(after, root, x) == in_tree(before, root, x),
{
    lemma_blocks_frame(alloc, before, after, fresh, root, root_level(before, root), 0, key_limit());
}

/// Every node of a search tree whose nodes have entries lives in a node
/// block that shows one image.
pub proof fn lemma_in_tree<D: BlockDevice>(
    alloc: &Allocator,
    cache: &BlockCache<D>,
    root: BlockId,
    x: BlockId,
)
    requires
        tree_ok(alloc, cache, root),
        tree_full(cache, root),
        in_tree(cache, root, x),
    ensures
        node_block(alloc, cache, x),
        cache.settled(x),
{
    lemma_in_subtree(alloc, cache, root, root_level(cache, root), 0, key_limit(), x);
}

} // verus!
