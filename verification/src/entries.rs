//! The entries of a node: ascending keys, and how a key is found, bound
//! and routed among them.

use vstd::prelude::*;
use crate::block_device::BlockId;

verus! {

/// Whether the keys are in strictly ascending order.
pub open spec fn keys_ascending(entries: Seq<(u64, u64)>) -> bool {
    forall|i: int, j: int| 0 <= i < j < entries.len()
        ==> (#[trigger] entries[i]).0 < (#[trigger] entries[j]).0
}

/// Keys that ascend from each entry to the next ascend throughout.
pub proof fn lemma_adjacent_ascending(entries: Seq<(u64, u64)>)
    requires
        forall|i: int| 0 < i < entries.len() ==> (#[trigger] entries[i - 1]).0 < entries[i].0,
    ensures
        keys_ascending(entries),
{
    assert forall|i: int, j: int| 0 <= i < j < entries.len() implies (#[trigger] entries[i]).0 < (
    #[trigger] entries[j]).0 by {
        lemma_ascending_step(entries, i, j);
    }
}

proof fn lemma_ascending_step(entries: Seq<(u64, u64)>, i: int, j: int)
    requires
        forall|k: int| 0 < k < entries.len() ==> (#[trigger] entries[k - 1]).0 < entries[k].0,
        0 <= i < j < entries.len(),
    ensures
        entries[i].0 < entries[j].0,
    decreases j - i,
{
    assert(entries[j - 1].0 < entries[j].0);
    if i < j - 1 {
        lemma_ascending_step(entries, i, j - 1);
    }
}

/// The number of entries whose key is below `key`: in a node with ascending
/// keys, the slot where `key` is or would go.
pub open spec fn rank(entries: Seq<(u64, u64)>, key: u64) -> int
    decreases entries.len(),
{
    if entries.len() == 0 {
        0
    } else {
        rank(entries.drop_last(), key) + if entries.last().0 < key {
            1int
        } else {
            0int
        }
    }
}

/// The value stored under `key` among the entries, if any.
pub open spec fn find(entries: Seq<(u64, u64)>, key: u64) -> Option<u64> {
    let at = rank(entries, key);
    if at < entries.len() && entries[at].0 == key {
        Some(entries[at].1)
    } else {
        None
    }
}

/// The entries with `key` bound to `value`: in place of the entry that had
/// the key, or else at the key's place in the order.
pub open spec fn put(entries: Seq<(u64, u64)>, key: u64, value: u64) -> Seq<(u64, u64)> {
    let at = rank(entries, key);
    if at < entries.len() && entries[at].0 == key {
        entries.update(at, (key, value))
    } else {
        entries.insert(at, (key, value))
    }
}

/// The child that `key` is looked for in: the last entry whose key is not
/// above `key`, or the first entry when `key` is below them all.
pub open spec fn route(entries: Seq<(u64, u64)>, key: u64) -> int {
    let at = rank(entries, key);
    if at < entries.len() && entries[at].0 == key {
        at
    } else if at == 0 {
        0
    } else {
        at - 1
    }
}

/// In ascending entries the rank of a key splits them into the keys below
/// it and the rest.
pub proof fn lemma_rank(entries: Seq<(u64, u64)>, key: u64)
    requires
        keys_ascending(entries),
    ensures
        0 <= rank(entries, key) <= entries.len(),
        forall|i: int| 0 <= i < rank(entries, key) ==> (#[trigger] entries[i]).0 < key,
        forall|i: int| rank(entries, key) <= i < entries.len() ==> (#[trigger] entries[i]).0 >= key,
    decreases entries.len(),
{
    if entries.len() > 0 {
        let front = entries.drop_last();
        assert forall|i: int, j: int| 0 <= i < j < front.len() implies (#[trigger] front[i]).0 < (
        #[trigger] front[j]).0 by {
            assert(entries[i].0 < entries[j].0);
        }
        lemma_rank(front, key);
        let r = rank(front, key);
        if entries.last().0 < key {
            assert forall|i: int| 0 <= i < front.len() implies (#[trigger] front[i]).0 < key by {
                assert(entries[i].0 < entries[entries.len() - 1].0);
            }
            if r < front.len() {
                assert(front[r].0 >= key);
            }
        }
        assert forall|i: int| 0 <= i < rank(entries, key)
            implies (#[trigger] entries[i]).0 < key by {
            if i < front.len() {
                assert(front[i].0 < key);
            }
        }
        assert forall|i: int| rank(entries, key) <= i < entries.len()
            implies (#[trigger] entries[i]).0
            >= key by {
            if i < front.len() {
                assert(front[i].0 >= key);
            }
        }
    }
}

/// A position with only lower keys before it and no lower key from it on
/// is the rank.
pub proof fn lemma_rank_is(entries: Seq<(u64, u64)>, key: u64, at: int)
    requires
        keys_ascending(entries),
        0 <= at <= entries.len(),
        forall|i: int| 0 <= i < at ==> (#[trigger] entries[i]).0 < key,
        forall|i: int| at <= i < entries.len() ==> (#[trigger] entries[i]).0 >= key,
    ensures
        rank(entries, key) == at,
{
    lemma_rank(entries, key);
    let r = rank(entries, key);
    if r < at {
        assert(entries[r].0 < key);
    }
    if at < r {
        assert(entries[at].0 >= key);
    }
}

/// Binding a key keeps the keys ascending, keeps every other binding and
/// makes the key found with its value.
#[verifier::rlimit(40)]
pub proof fn lemma_put(entries: Seq<(u64, u64)>, key: u64, value: u64)
    requires
        keys_ascending(entries),
    ensures
        keys_ascending(put(entries, key, value)),
        put(entries, key, value).len() == entries.len() + if find(entries, key) is Some {
            0int
        } else {
            1int
        },
        find(put(entries, key, value), key) == Some(value),
        forall|other: u64| other != key
            ==> find(put(entries, key, value), other) == find(entries, other),
{
    lemma_rank(entries, key);
    let at = rank(entries, key);
    let after = put(entries, key, value);
    let replaced = at < entries.len() && entries[at].0 == key;
    assert forall|i: int, j: int| 0 <= i < j < after.len() implies (#[trigger] after[i]).0 < (
    #[trigger] after[j]).0 by {
        if replaced {
            assert(after[i].0 == entries[i].0 && after[j].0 == entries[j].0);
        } else {
            let oi = if i < at { i } else { i - 1 };
            let oj = if j < at { j } else { j - 1 };
            if i != at && j != at {
                assert(after[i] == entries[oi] && after[j] == entries[oj]);
            } else if i == at {
                assert(after[j] == entries[oj]);
            } else {
                assert(after[i] == entries[oi]);
            }
        }
    }
    lemma_rank_is(after, key, at);
    assert forall|other: u64| other != key implies find(after, other) == find(entries, other) by {
        lemma_rank(entries, other);
        let r = rank(entries, other);
        if replaced {
            assert forall|i: int| 0 <= i < r implies (#[trigger] after[i]).0 < other by {
                assert(after[i].0 == entries[i].0);
            }
            assert forall|i: int| r <= i < after.len() implies (#[trigger] after[i]).0 >= other by {
                assert(after[i].0 == entries[i].0);
            }
            lemma_rank_is(after, other, r);
        } else {
            let nr = if other < key { r } else { r + 1 };
            if other < key {
                if r > at {
                    assert(entries[at].0 < other);
                }
            } else {
                if r < at {
                    assert(entries[r].0 >= other);
                }
            }
            assert forall|i: int| 0 <= i < nr implies (#[trigger] after[i]).0 < other by {
                if i < at {
                    assert(after[i] == entries[i]);
                } else if i > at {
                    assert(after[i] == entries[i - 1]);
                }
            }
            assert forall|i: int| nr <= i < after.len()
                implies (#[trigger] after[i]).0 >= other by {
                if i < at {
                    assert(after[i] == entries[i]);
                } else if i > at {
                    assert(after[i] == entries[i - 1]);
                }
            }
            lemma_rank_is(after, other, nr);
            if r < entries.len() && !(other < key && r == at) {
                assert(after[nr] == entries[r]);
            }
        }
    }
}

/// The entries of an inner node with the child for `key` replaced by its
/// copy, the child's lowest key lowered to `key` when `key` is below it.
pub open spec fn with_child(entries: Seq<(u64, u64)>, key: u64, child: BlockId) -> Seq<(u64, u64)> {
    let at = route(entries, key);
    entries.update(
        at,
        (
            if key < entries[at].0 {
                key
            } else {
                entries[at].0
            },
            child,
        ),
    )
}

/// Replacing the child for `key` keeps the keys ascending and sends every
/// key to the child it went to.
#[verifier::rlimit(40)]
pub proof fn lemma_route_update(entries: Seq<(u64, u64)>, key: u64, child: BlockId)
    requires
        keys_ascending(entries),
        entries.len() > 0,
    ensures
        0 <= route(entries, key) < entries.len(),
        keys_ascending(with_child(entries, key, child)),
        with_child(entries, key, child).len() == entries.len(),
        key < entries[route(entries, key)].0 ==> route(entries, key) == 0,
        forall|other: u64| route(with_child(entries, key, child), other) == route(entries, other),
{
    lemma_rank(entries, key);
    let at = route(entries, key);
    let after = with_child(entries, key, child);
    if key < entries[at].0 {
        if at > 0 {
            assert(entries[at - 1].0 < key || at == rank(entries, key));
            if at == rank(entries, key) {
                assert(entries[at].0 == key);
            } else {
                assert(at == rank(entries, key) - 1);
                assert(entries[at].0 < key);
            }
        }
    }
    assert forall|i: int, j: int| 0 <= i < j < after.len() implies (#[trigger] after[i]).0 < (
    #[trigger] after[j]).0 by {
        assert(entries[i].0 < entries[j].0);
        if j == at {
            assert(entries[i].0 < key) by {
                assert(entries[j].0 <= key);
            }
        }
    }
    assert forall|other: u64| route(after, other) == route(entries, other) by {
        lemma_rank(entries, other);
        lemma_rank(after, other);
        let r = rank(entries, other);
        if key < entries[at].0 {
            assert(at == 0);
            if other <= key {
                lemma_rank_is(after, other, 0);
                if r > 0 {
                    assert(entries[0].0 < other);
                }
            } else if other <= entries[0].0 {
                lemma_rank_is(after, other, 1);
                if r > 0 {
                    assert(entries[0].0 < other);
                }
                if entries.len() > 1 {
                    assert(entries[0].0 < entries[1].0);
                }
            } else {
                assert forall|i: int| 0 <= i < r implies (#[trigger] after[i]).0 < other by {
                    if i > 0 {
                        assert(after[i] == entries[i]);
                    }
                }
                assert forall|i: int| r <= i < after.len()
                    implies (#[trigger] after[i]).0 >= other by {
                    if r == 0 {
                        assert(entries[0].0 >= other);
                    }
                    assert(after[i].0 == entries[i].0 || i == 0);
                }
                lemma_rank_is(after, other, r);
            }
        } else {
            assert forall|i: int| 0 <= i < after.len()
                implies (#[trigger] after[i]).0 == entries[i].0 by {}
            assert forall|i: int| 0 <= i < r implies (#[trigger] after[i]).0 < other by {
                assert(entries[i].0 < other);
            }
            assert forall|i: int| r <= i < after.len() implies (#[trigger] after[i]).0 >= other by {
                assert(entries[i].0 >= other);
            }
            lemma_rank_is(after, other, r);
        }
    }
}

/// Where a key goes after the entry `(low, child)` has been put behind
/// position `at`: keys that went to `at` and are not below `low` go to the
/// new entry, and the entries behind it have moved up by one.
pub open spec fn route_after_insert(
    entries: Seq<(u64, u64)>,
    at: int,
    low: u64,
    other: u64,
) -> int {
    let was = route(entries, other);
    if was < at {
        was
    } else if was == at {
        if other < low {
            at
        } else {
            at + 1
        }
    } else {
        was + 1
    }
}

/// Putting an entry between two whose keys it lies between keeps the keys
/// ascending and sends every key where `route_after_insert` says.
#[verifier::rlimit(40)]
pub proof fn lemma_route_insert(entries: Seq<(u64, u64)>, at: int, low: u64, child: BlockId)
    requires
        keys_ascending(entries),
        0 <= at < entries.len(),
        entries[at].0 < low,
        at + 1 < entries.len() ==> low < entries[at + 1].0,
    ensures
        keys_ascending(entries.insert(at + 1, (low, child))),
        forall|other: u64|
            route(entries.insert(at + 1, (low, child)), other) == route_after_insert(
                entries,
                at,
                low,
                other,
            ),
{
    let after = entries.insert(at + 1, (low, child));
    assert forall|i: int, j: int| 0 <= i < j < after.len() implies (#[trigger] after[i]).0 < (
    #[trigger] after[j]).0 by {
        let oi = if i <= at { i } else { i - 1 };
        let oj = if j <= at { j } else { j - 1 };
        if i != at + 1 && j != at + 1 {
            assert(after[i] == entries[oi] && after[j] == entries[oj]);
            assert(entries[oi].0 < entries[oj].0);
        } else if i == at + 1 {
            assert(after[j] == entries[oj]);
            if oj > at + 1 {
                assert(entries[at + 1].0 < entries[oj].0);
            }
        } else {
            assert(after[i] == entries[oi]);
            if oi < at {
                assert(entries[oi].0 < entries[at].0);
            }
        }
    }
    assert forall|other: u64| route(after, other) == route_after_insert(entries, at, low,
        other) by {
        lemma_rank(entries, other);
        let r = rank(entries, other);
        let nr = if r <= at { r } else if other <= low && r == at + 1 { r } else { r + 1 };
        assert forall|i: int| 0 <= i < nr implies (#[trigger] after[i]).0 < other by {
            if i <= at {
                assert(after[i] == entries[i]);
                if r <= at {
                } else {
                    assert(entries[i].0 < other);
                }
            } else if i == at + 1 {
                assert(after[i].0 == low);
            } else {
                assert(after[i] == entries[i - 1]);
                assert(entries[i - 1].0 < other);
            }
        }
        assert forall|i: int| nr <= i < after.len() implies (#[trigger] after[i]).0 >= other by {
            if i <= at {
                assert(after[i] == entries[i]);
                assert(entries[i].0 >= other);
            } else if i == at + 1 {
                assert(after[i].0 == low);
                if r <= at {
                    assert(entries[at].0 >= other);
                }
            } else {
                assert(after[i] == entries[i - 1]);
                if r <= at {
                    assert(entries[at].0 >= other);
                    assert(entries[at].0 < entries[i - 1].0);
                } else {
                    assert(entries[i - 1].0 >= other);
                }
            }
        }
        lemma_rank_is(after, other, nr);
        if nr < after.len() {
            if nr <= at {
                assert(after[nr] == entries[nr]);
            } else if nr > at + 1 {
                assert(after[nr] == entries[nr - 1]);
            }
        }
        if r < entries.len() && r > at {
            assert(after[r + 1] == entries[r]);
        }
        if nr > 0 && nr - 1 <= at {
            assert(after[nr - 1] == entries[nr - 1]);
        }
    }
}

/// Finds the slot where `key` is or would go among ascending entries.
pub fn search(entries: &Vec<(u64, u64)>, key: u64) -> (at: usize)
    requires
        keys_ascending(entries@),
    ensures
        at == rank(entries@, key),
        at <= entries@.len(),
{
    let mut at: usize = 0;
    while at < entries.len() && entries[at].0 < key
        invariant
            at <= entries@.len(),
            forall|i: int| 0 <= i < at ==> (#[trigger] entries@[i]).0 < key,
        decreases entries@.len() - at,
    {
        at += 1;
    }
    proof {
        assert forall|i: int| at <= i < entries@.len()
            implies (#[trigger] entries@[i]).0 >= key by {
            if i > at {
                assert(entries@[at as int].0 < entries@[i].0);
            }
        }
        lemma_rank_is(entries@, key, at as int);
    }
    at
}

/// Binds `key` to `value` among ascending entries.
pub fn insert_entry(entries: &mut Vec<(u64, u64)>, key: u64, value: u64)
    requires
        keys_ascending(old(entries)@),
    ensures
        final(entries)@ == put(old(entries)@, key, value),
        keys_ascending(final(entries)@),
{
    let at: usize = search(entries, key);
    proof {
        lemma_put(entries@, key, value);
    }
    if at < entries.len() && entries[at].0 == key {
        entries[at] = (key, value);
    } else {
        entries.insert(at, (key, value));
    }
}

/// Picks the child to descend into for `key`.
pub fn choose_child(entries: &Vec<(u64, u64)>, key: u64) -> (at: usize)
    requires
        keys_ascending(entries@),
        entries@.len() > 0,
    ensures
        at == route(entries@, key),
        at < entries@.len(),
{
    let at: usize = search(entries, key);
    if at < entries.len() && entries[at].0 == key {
        at
    } else if at == 0 {
        0
    } else {
        at - 1
    }
}

/// The bound above the keys of the child in slot `at`: the next entry's
/// key, or for the last child the bound of the node itself.
pub open spec fn upper(entries: Seq<(u64, u64)>, at: int, hi: int) -> int {
    if at + 1 < entries.len() {
        entries[at + 1].0 as int
    } else {
        hi
    }
}

/// A part of ascending entries is ascending.
pub proof fn lemma_ascending_part(entries: Seq<(u64, u64)>, from: int, to: int)
    requires
        keys_ascending(entries),
        0 <= from <= to <= entries.len(),
    ensures
        keys_ascending(entries.subrange(from, to)),
{
    let part = entries.subrange(from, to);
    assert forall|i: int, j: int| 0 <= i < j < part.len() implies (#[trigger] part[i]).0 < (
    #[trigger] part[j]).0 by {
        assert(entries[from + i].0 < entries[from + j].0);
    }
}

/// What `other` is bound to once `key` has been bound to `value`, given
/// what it was bound to before.
pub open spec fn bound(before: Option<u64>, key: u64, value: u64, other: u64) -> Option<u64> {
    if other == key {
        Some(value)
    } else {
        before
    }
}

/// The lower bound of a subtree's keys once `key` has been bound in it.
pub open spec fn lowered(lo: int, key: u64) -> int {
    if key < lo {
        key as int
    } else {
        lo
    }
}

/// The upper bound of a subtree's keys once `key` has been bound in it.
pub open spec fn raised(hi: int, key: u64) -> int {
    if key >= hi {
        key + 1
    } else {
        hi
    }
}

/// Looking a key up in ascending entries that are split at `half` is
/// looking it up in the half that its order puts it in.
pub proof fn lemma_split_find(entries: Seq<(u64, u64)>, half: int, key: u64)
    requires
        keys_ascending(entries),
        0 < half < entries.len(),
    ensures
        find(entries, key) == if key < entries[half].0 {
            find(entries.take(half), key)
        } else {
            find(entries.skip(half), key)
        },
{
    let left = entries.take(half);
    let right = entries.skip(half);
    lemma_ascending_part(entries, 0, half);
    lemma_ascending_part(entries, half, entries.len() as int);
    assert(left =~= entries.subrange(0, half));
    assert(right =~= entries.subrange(half, entries.len() as int));
    lemma_rank(entries, key);
    let r = rank(entries, key);
    if key < entries[half].0 {
        if r > half {
            assert(entries[half].0 < key);
        }
        let at = if r < half { r } else { half };
        assert forall|i: int| 0 <= i < at implies (#[trigger] left[i]).0 < key by {
            assert(entries[i].0 < key);
        }
        assert forall|i: int| at <= i < left.len() implies (#[trigger] left[i]).0 >= key by {
            assert(entries[i].0 >= key);
        }
        lemma_rank_is(left, key, at);
        if r == half {
            assert(entries[half].0 >= key);
        }
    } else {
        if r < half {
            assert(entries[r].0 >= key);
            assert(entries[r].0 < entries[half].0);
        }
        assert forall|i: int| 0 <= i < r - half implies (#[trigger] right[i]).0 < key by {
            assert(entries[i + half].0 < key);
        }
        assert forall|i: int| r - half <= i < right.len()
            implies (#[trigger] right[i]).0 >= key by {
            assert(entries[i + half].0 >= key);
        }
        lemma_rank_is(right, key, r - half);
    }
}

/// Routing a key in ascending entries that are split at `half` is routing
/// it in the half that its order puts it in.
pub proof fn lemma_split_route(entries: Seq<(u64, u64)>, half: int, key: u64)
    requires
        keys_ascending(entries),
        0 < half < entries.len(),
    ensures
        key < entries[half].0 ==> route(entries.take(half), key) == route(entries, key) && route(
            entries,
            key,
        ) < half,
        key >= entries[half].0 ==> route(entries.skip(half), key) == route(entries, key) - half
            && route(entries, key) >= half,
{
    let left = entries.take(half);
    let right = entries.skip(half);
    lemma_ascending_part(entries, 0, half);
    lemma_ascending_part(entries, half, entries.len() as int);
    assert(left =~= entries.subrange(0, half));
    assert(right =~= entries.subrange(half, entries.len() as int));
    lemma_rank(entries, key);
    let r = rank(entries, key);
    if key < entries[half].0 {
        if r > half {
            assert(entries[half].0 < key);
        }
        let at = if r < half { r } else { half };
        assert forall|i: int| 0 <= i < at implies (#[trigger] left[i]).0 < key by {
            assert(entries[i].0 < key);
        }
        assert forall|i: int| at <= i < left.len() implies (#[trigger] left[i]).0 >= key by {
            assert(entries[i].0 >= key);
        }
        lemma_rank_is(left, key, at);
        if r == half {
            assert(entries[half].0 >= key);
        }
    } else {
        if r < half {
            assert(entries[r].0 >= key);
            assert(entries[r].0 < entries[half].0);
        }
        if r == half {
            assert(entries[half].0 >= key);
        }
        assert forall|i: int| 0 <= i < r - half implies (#[trigger] right[i]).0 < key by {
            assert(entries[i + half].0 < key);
        }
        assert forall|i: int| r - half <= i < right.len()
            implies (#[trigger] right[i]).0 >= key by {
            assert(entries[i + half].0 >= key);
        }
        lemma_rank_is(right, key, r - half);
        if r < entries.len() {
            assert(right[r - half] == entries[r]);
        }
    }
}

/// The entries of `put` are the old entries and the new one, so they keep
/// within bounds that are widened to take the new key.
pub proof fn lemma_put_bounds(entries: Seq<(u64, u64)>, key: u64, value: u64, lo: int, hi: int)
    requires
        keys_ascending(entries),
        forall|i: int| 0 <= i < entries.len() ==> lo <= (#[trigger] entries[i]).0 < hi,
    ensures
        forall|i: int|
            0 <= i < put(entries, key, value).len() ==> lowered(lo, key) <= (#[trigger] put(
                entries,
                key,
                value,
            )[i]).0 < raised(hi, key),
        put(entries, key, value).len() >= 1,
{
    lemma_rank(entries, key);
    let at = rank(entries, key);
    let after = put(entries, key, value);
    assert forall|i: int| 0 <= i < after.len() implies lowered(lo, key) <= (#[trigger] after[i]).0
        < raised(hi, key) by {
        if at < entries.len() && entries[at].0 == key {
            assert(after[i].0 == entries[i].0);
        } else if i < at {
            assert(after[i] == entries[i]);
        } else if i > at {
            assert(after[i] == entries[i - 1]);
        }
    }
}

/// Where a key is routed: to an entry whose key is not above it, unless
/// that is the first entry, and below the next entry's key.
pub proof fn lemma_route(entries: Seq<(u64, u64)>, key: u64)
    requires
        keys_ascending(entries),
        entries.len() > 0,
    ensures
        0 <= route(entries, key) < entries.len(),
        route(entries, key) + 1 < entries.len() ==> key < entries[route(entries, key) + 1].0,
        entries[route(entries, key)].0 <= key || route(entries, key) == 0,
{
    lemma_rank(entries, key);
    let r = rank(entries, key);
    let at = route(entries, key);
    if r < entries.len() && entries[r].0 == key {
        if r + 1 < entries.len() {
            assert(entries[r].0 < entries[r + 1].0);
        }
    } else if r > 0 {
        assert(entries[r - 1].0 < key);
        if r < entries.len() {
            assert(entries[r].0 >= key);
        }
    } else {
        assert(entries[0].0 >= key);
        if 1 < entries.len() {
            assert(entries[0].0 < entries[1].0);
        }
    }
}

} // verus!
