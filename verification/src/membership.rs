//! What it means to be kept by a stage or listed in a group.

use crate::candidate::FileCandidate;
use crate::grouping::{
    crowded_classes, lemma_crowded_classes, lemma_crowded_disjoint, lemma_peers_contains,
    lemma_peers_weigh_less, lemma_positions_of, peers,
};
use crate::pipeline::{
    all_below, full_work, hashed, keyed, keys_of, lemma_keyed_bounded, lemma_peers_below, nibbled,
    outcome, positions_in, prefix_work, retained, sizes, Keyed,
};
use crate::report::{describes, groups_describe, DuplicateGroup};
use vstd::prelude::*;

verus! {

/// Every item stands for a work item that was read: it has the position of
/// that work item, the digest reported for it, and the size of the
/// candidate. The work item is returned.
pub proof fn lemma_keyed_item(
    sizes: Seq<u64>,
    work: Seq<usize>,
    digests: Seq<Option<u64>>,
    i: int,
) -> (w: int)
    requires
        0 <= i < keyed(sizes, work, digests).len(),
    ensures
        0 <= w < work.len(),
        keyed(sizes, work, digests)[i].position == work[w],
        keyed(sizes, work, digests)[i].key.size == sizes[work[w] as int],
        outcome(digests, w) == Some(keyed(sizes, work, digests)[i].key.hash),
    decreases work.len(),
{
    let before = keyed(sizes, work.drop_last(), digests);
    if i < before.len() {
        lemma_keyed_item(sizes, work.drop_last(), digests, i)
    } else {
        work.len() - 1
    }
}

/// Every position that a stage passes on belongs to an item whose key
/// another item has too. The two items are returned.
pub proof fn lemma_retained_item(items: Seq<Keyed>, i: int) -> (pair: (int, int))
    requires
        items.len() <= usize::MAX,
        0 <= i < retained(items).len(),
    ensures
        0 <= pair.0 < items.len(),
        0 <= pair.1 < items.len(),
        pair.0 != pair.1,
        retained(items)[i] == items[pair.0].position,
        items[pair.0].key == items[pair.1].key,
{
    let keys = keys_of(items);
    let j = peers(keys)[i];
    assert(peers(keys).contains(j));
    lemma_peers_contains(keys, j);
    let q = choose|q: int| 0 <= q < keys.len() && q != j && #[trigger] keys[q] == keys[j as int];
    (j as int, q)
}

/// A reported group has at least two members, as many paths as members, and
/// each member is a candidate that the full stage read: the digest reported
/// for it and its size are those of the group. The member's work item in the
/// full stage is returned.
pub proof fn lemma_group_member(
    candidates: Seq<FileCandidate>,
    prefix: Seq<Option<u64>>,
    full: Seq<Option<u64>>,
    groups: Seq<DuplicateGroup>,
    g: int,
    m: int,
) -> (w: int)
    requires
        candidates.len() <= usize::MAX,
        groups_describe(groups, candidates, hashed(candidates, prefix, full)),
        0 <= g < groups.len(),
        0 <= m < groups[g].paths@.len(),
    ensures
        groups[g].count >= 2,
        groups[g].count == groups[g].paths@.len(),
        0 <= w < full_work(candidates, prefix).len(),
        full_work(candidates, prefix)[w] < candidates.len(),
        groups[g].paths@[m] == candidates[full_work(candidates, prefix)[w] as int].path,
        groups[g].key.size == candidates[full_work(candidates, prefix)[w] as int].size,
        outcome(full, w) == Some(groups[g].key.hash),
{
    let items = hashed(candidates, prefix, full);
    let work = full_work(candidates, prefix);
    lemma_work_lists(candidates, prefix);
    lemma_keyed_bounded(sizes(candidates), work, full, candidates.len());
    let keys = keys_of(items);
    let class = crowded_classes(keys)[g];
    assert(describes(groups[g], candidates, items, class));
    lemma_crowded_classes(keys, g);
    let k = keys[class[0] as int];
    lemma_positions_of(keys, k);
    let j = class[m] as int;
    assert(keys[j] == k);
    let w = lemma_keyed_item(sizes(candidates), work, full, j);
    w
}

/// The work lists name candidates, and no list is longer than the one
/// before.
pub proof fn lemma_work_lists(candidates: Seq<FileCandidate>, prefix: Seq<Option<u64>>)
    requires
        candidates.len() <= usize::MAX,
    ensures
        all_below(prefix_work(candidates), candidates.len()),
        all_below(full_work(candidates, prefix), candidates.len()),
        prefix_work(candidates).len() <= candidates.len(),
        nibbled(candidates, prefix).len() <= prefix_work(candidates).len(),
        full_work(candidates, prefix).len() <= nibbled(candidates, prefix).len(),
{
    let sz = sizes(candidates);
    let once = nibbled(candidates, prefix);
    lemma_peers_below(sz);
    lemma_keyed_bounded(sz, prefix_work(candidates), prefix, candidates.len());
    lemma_peers_weigh_less(sz, |p: usize| 1nat);
    lemma_peers_weigh_less(keys_of(once), |p: usize| 1nat);
    assert forall|i: int| 0 <= i < full_work(candidates, prefix).len() implies #[trigger] full_work(
        candidates,
        prefix,
    )[i] < candidates.len() by {
        let pair = lemma_retained_item(once, i);
        assert(positions_in(once)[pair.0] < candidates.len());
    }
}

/// A candidate whose size no other candidate has is dropped before anything
/// is read: it is on no work list and among no items of any stage.
pub proof fn lemma_unique_size_dropped(
    candidates: Seq<FileCandidate>,
    prefix: Seq<Option<u64>>,
    full: Seq<Option<u64>>,
    p: usize,
)
    requires
        candidates.len() <= usize::MAX,
        p < candidates.len(),
        forall|q: int|
            0 <= q < candidates.len() && q != p ==> (#[trigger] candidates[q]).size
                != candidates[p as int].size,
    ensures
        !prefix_work(candidates).contains(p),
        !positions_in(nibbled(candidates, prefix)).contains(p),
        !full_work(candidates, prefix).contains(p),
        !positions_in(hashed(candidates, prefix, full)).contains(p),
{
    let sz = sizes(candidates);
    let once = nibbled(candidates, prefix);
    let twice = hashed(candidates, prefix, full);
    lemma_work_lists(candidates, prefix);
    lemma_peers_contains(sz, p);
    if prefix_work(candidates).contains(p) {
        let q = choose|q: int| 0 <= q < sz.len() && q != p && #[trigger] sz[q] == sz[p as int];
        assert(candidates[q].size == candidates[p as int].size);
    }
    if positions_in(once).contains(p) {
        let i = choose|i: int| 0 <= i < once.len() && positions_in(once)[i] == p;
        let w = lemma_keyed_item(sz, prefix_work(candidates), prefix, i);
        assert(prefix_work(candidates)[w] == p);
    }
    if full_work(candidates, prefix).contains(p) {
        let i = choose|i: int|
            0 <= i < full_work(candidates, prefix).len() && full_work(candidates, prefix)[i] == p;
        let pair = lemma_retained_item(once, i);
        assert(positions_in(once)[pair.0] == p);
    }
    if positions_in(twice).contains(p) {
        let i = choose|i: int| 0 <= i < twice.len() && positions_in(twice)[i] == p;
        let w = lemma_keyed_item(sz, full_work(candidates, prefix), full, i);
        assert(full_work(candidates, prefix)[w] == p);
    }
}

/// Every group has at least two members, one path for each, and occupies
/// its size times the number of its members; no two groups have the same
/// key.
pub proof fn lemma_groups_crowded(
    groups: Seq<DuplicateGroup>,
    candidates: Seq<FileCandidate>,
    items: Seq<Keyed>,
)
    requires
        items.len() <= usize::MAX,
        groups_describe(groups, candidates, items),
    ensures
        forall|g: int|
            0 <= g < groups.len() ==> {
                &&& (#[trigger] groups[g]).count >= 2
                &&& groups[g].paths@.len() == groups[g].count
                &&& groups[g].bytes == groups[g].key.size * groups[g].count
            },
        forall|a: int, b: int|
            0 <= a < groups.len() && 0 <= b < groups.len() && a != b ==> (#[trigger] groups[a]).key
                != (#[trigger] groups[b]).key,
{
    let keys = keys_of(items);
    let crowded = crowded_classes(keys);
    assert forall|g: int| 0 <= g < groups.len() implies {
        &&& (#[trigger] groups[g]).count >= 2
        &&& groups[g].paths@.len() == groups[g].count
        &&& groups[g].bytes == groups[g].key.size * groups[g].count
    } by {
        assert(describes(groups[g], candidates, items, crowded[g]));
        lemma_crowded_classes(keys, g);
    }
    lemma_crowded_disjoint(keys);
    assert forall|a: int, b: int|
        0 <= a < groups.len() && 0 <= b < groups.len() && a != b implies (#[trigger] groups[a]).key
        != (#[trigger] groups[b]).key by {
        assert(describes(groups[a], candidates, items, crowded[a]));
        assert(describes(groups[b], candidates, items, crowded[b]));
        lemma_crowded_classes(keys, a);
        lemma_crowded_classes(keys, b);
        assert(keys[crowded[a][0] as int] != keys[crowded[b][0] as int]);
    }
}

} // verus!
