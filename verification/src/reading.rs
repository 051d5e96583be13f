//! Runs that read their digests from files.
//!
//! A stage takes whatever outcomes it is handed. Where the outcomes are what
//! reading the files gives, each file has one prefix digest and one full
//! digest, or none where it cannot be read, and membership in the stages can
//! be said without the work lists: by the candidates and their digests
//! alone.

use crate::candidate::{ContentKey, FileCandidate};
use crate::grouping::{
    crowded_classes, lemma_crowded_classes, lemma_flatten_contains, lemma_peers_contains,
    lemma_peers_no_duplicates, lemma_positions_of, peers,
};
use crate::report::{describes, groups_describe, DuplicateGroup};
use crate::membership::{lemma_keyed_item, lemma_retained_item, lemma_work_lists};
use crate::accounting::lemma_run_shrinks_in_number;
use crate::pipeline::{
    full_work, hashed, keyed, keys_of, lemma_peers_below, nibbled, outcome, positions_in,
    prefix_work, retained, sizes, Keyed,
};
use vstd::prelude::*;

verus! {

/// Whether the prefix outcomes are the digests that `pre` gives the files on
/// the work list.
pub open spec fn reads_prefix(
    candidates: Seq<FileCandidate>,
    prefix: Seq<Option<u64>>,
    pre: spec_fn(FileCandidate) -> Option<u64>,
) -> bool {
    forall|w: int|
        0 <= w < prefix_work(candidates).len() ==> #[trigger] outcome(prefix, w) == pre(
            candidates[prefix_work(candidates)[w] as int],
        )
}

/// Whether the full outcomes are the digests that `ful` gives the files on
/// the work list.
pub open spec fn reads_full(
    candidates: Seq<FileCandidate>,
    prefix: Seq<Option<u64>>,
    full: Seq<Option<u64>>,
    ful: spec_fn(FileCandidate) -> Option<u64>,
) -> bool {
    forall|w: int|
        0 <= w < full_work(candidates, prefix).len() ==> #[trigger] outcome(full, w) == ful(
            candidates[full_work(candidates, prefix)[w] as int],
        )
}

/// Whether another candidate has the size of the one at `p`.
pub open spec fn shares_size(candidates: Seq<FileCandidate>, p: int) -> bool {
    &&& 0 <= p < candidates.len()
    &&& exists|q: int|
        0 <= q < candidates.len() && q != p && (#[trigger] candidates[q]).size
            == candidates[p].size
}

/// Whether the leading bytes of the candidate at `p` are read: it shares its
/// size and can be read.
pub open spec fn read_once(
    candidates: Seq<FileCandidate>,
    pre: spec_fn(FileCandidate) -> Option<u64>,
    p: int,
) -> bool {
    shares_size(candidates, p) && pre(candidates[p]).is_some()
}

/// The key of the candidate at `p` after the prefix stage.
pub open spec fn prefix_key(
    candidates: Seq<FileCandidate>,
    pre: spec_fn(FileCandidate) -> Option<u64>,
    p: int,
) -> ContentKey {
    ContentKey { hash: pre(candidates[p]).unwrap(), size: candidates[p].size }
}

/// Whether the candidate at `p` was read once and another one that was read
/// once has its size and prefix digest.
pub open spec fn shares_prefix(
    candidates: Seq<FileCandidate>,
    pre: spec_fn(FileCandidate) -> Option<u64>,
    p: int,
) -> bool {
    &&& read_once(candidates, pre, p)
    &&& exists|q: int|
        q != p && #[trigger] read_once(candidates, pre, q) && prefix_key(candidates, pre, q)
            == prefix_key(candidates, pre, p)
}

/// Whether the whole content of the candidate at `p` is read: it shares its
/// prefix key and can be read.
pub open spec fn read_twice(
    candidates: Seq<FileCandidate>,
    pre: spec_fn(FileCandidate) -> Option<u64>,
    ful: spec_fn(FileCandidate) -> Option<u64>,
    p: int,
) -> bool {
    shares_prefix(candidates, pre, p) && ful(candidates[p]).is_some()
}

/// The key of the candidate at `p` after the full stage.
pub open spec fn full_key(
    candidates: Seq<FileCandidate>,
    ful: spec_fn(FileCandidate) -> Option<u64>,
    p: int,
) -> ContentKey {
    ContentKey { hash: ful(candidates[p]).unwrap(), size: candidates[p].size }
}

/// Whether the candidate at `p` is a duplicate: it was read twice and
/// another one that was read twice has its size and full digest.
pub open spec fn is_duplicate(
    candidates: Seq<FileCandidate>,
    pre: spec_fn(FileCandidate) -> Option<u64>,
    ful: spec_fn(FileCandidate) -> Option<u64>,
    p: int,
) -> bool {
    &&& read_twice(candidates, pre, ful, p)
    &&& exists|q: int|
        q != p && #[trigger] read_twice(candidates, pre, ful, q) && full_key(candidates, ful, q)
            == full_key(candidates, ful, p)
}

/// A work item that was read has an item, which is returned.
pub proof fn lemma_keyed_complete(
    sizes: Seq<u64>,
    work: Seq<usize>,
    digests: Seq<Option<u64>>,
    w: int,
) -> (i: int)
    requires
        0 <= w < work.len(),
        outcome(digests, w).is_some(),
    ensures
        0 <= i < keyed(sizes, work, digests).len(),
        keyed(sizes, work, digests)[i].position == work[w],
        keyed(sizes, work, digests)[i].key == (ContentKey {
            hash: outcome(digests, w).unwrap(),
            size: sizes[work[w] as int],
        }),
    decreases work.len(),
{
    if w == work.len() - 1 {
        keyed(sizes, work, digests).len() - 1
    } else {
        lemma_keyed_complete(sizes, work.drop_last(), digests, w)
    }
}

/// If no work item is listed twice, no position has two items.
pub proof fn lemma_keyed_no_duplicates(
    sizes: Seq<u64>,
    work: Seq<usize>,
    digests: Seq<Option<u64>>,
)
    requires
        work.no_duplicates(),
    ensures
        positions_in(keyed(sizes, work, digests)).no_duplicates(),
    decreases work.len(),
{
    if work.len() > 0 {
        let init = work.drop_last();
        lemma_keyed_no_duplicates(sizes, init, digests);
        let before = keyed(sizes, init, digests);
        let now = keyed(sizes, work, digests);
        assert forall|i: int, j: int| 0 <= i < j < now.len() implies positions_in(now)[i]
            != positions_in(now)[j] by {
            if j < before.len() {
                assert(positions_in(before)[i] != positions_in(before)[j]);
            } else {
                let w = lemma_keyed_item(sizes, init, digests, i);
                assert(work[w] != work[work.len() - 1]);
            }
        }
    }
}

/// If no position has two items, none is passed on twice.
pub proof fn lemma_retained_no_duplicates(items: Seq<Keyed>)
    requires
        items.len() <= usize::MAX,
        positions_in(items).no_duplicates(),
    ensures
        retained(items).no_duplicates(),
{
    let keys = keys_of(items);
    lemma_peers_no_duplicates(keys);
    lemma_peers_below(keys);
    assert forall|i: int, j: int| 0 <= i < j < retained(items).len() implies retained(items)[i]
        != retained(items)[j] by {
        let a = peers(keys)[i];
        let b = peers(keys)[j];
        assert(a != b);
        assert(positions_in(items)[a as int] != positions_in(items)[b as int]);
    }
}

/// No work list names a candidate twice, and no stage holds two items for
/// one candidate.
pub proof fn lemma_run_no_duplicates(
    candidates: Seq<FileCandidate>,
    prefix: Seq<Option<u64>>,
    full: Seq<Option<u64>>,
)
    requires
        candidates.len() <= usize::MAX,
    ensures
        prefix_work(candidates).no_duplicates(),
        positions_in(nibbled(candidates, prefix)).no_duplicates(),
        full_work(candidates, prefix).no_duplicates(),
        positions_in(hashed(candidates, prefix, full)).no_duplicates(),
{
    let sz = sizes(candidates);
    lemma_work_lists(candidates, prefix);
    lemma_peers_no_duplicates(sz);
    lemma_keyed_no_duplicates(sz, prefix_work(candidates), prefix);
    lemma_retained_no_duplicates(nibbled(candidates, prefix));
    lemma_keyed_no_duplicates(sz, full_work(candidates, prefix), full);
}

/// An item of the prefix stage stands for a candidate that is read once,
/// and has its prefix key.
pub proof fn lemma_nibbled_sound(
    candidates: Seq<FileCandidate>,
    prefix: Seq<Option<u64>>,
    pre: spec_fn(FileCandidate) -> Option<u64>,
    i: int,
)
    requires
        candidates.len() <= usize::MAX,
        reads_prefix(candidates, prefix, pre),
        0 <= i < nibbled(candidates, prefix).len(),
    ensures
        read_once(candidates, pre, nibbled(candidates, prefix)[i].position as int),
        nibbled(candidates, prefix)[i].key == prefix_key(
            candidates,
            pre,
            nibbled(candidates, prefix)[i].position as int,
        ),
{
    let sz = sizes(candidates);
    let work = prefix_work(candidates);
    let w = lemma_keyed_item(sz, work, prefix, i);
    let p = work[w];
    assert(work.contains(p));
    lemma_peers_contains(sz, p);
    let q = choose|q: int| 0 <= q < sz.len() && q != p && #[trigger] sz[q] == sz[p as int];
    assert(candidates[q].size == candidates[p as int].size);
    assert(outcome(prefix, w) == pre(candidates[p as int]));
}

/// A candidate that is read once has an item in the prefix stage, which is
/// returned.
pub proof fn lemma_nibbled_complete(
    candidates: Seq<FileCandidate>,
    prefix: Seq<Option<u64>>,
    pre: spec_fn(FileCandidate) -> Option<u64>,
    p: int,
) -> (i: int)
    requires
        candidates.len() <= usize::MAX,
        reads_prefix(candidates, prefix, pre),
        read_once(candidates, pre, p),
    ensures
        0 <= i < nibbled(candidates, prefix).len(),
        nibbled(candidates, prefix)[i].position == p,
        nibbled(candidates, prefix)[i].key == prefix_key(candidates, pre, p),
{
    let sz = sizes(candidates);
    let work = prefix_work(candidates);
    let q = choose|q: int|
        0 <= q < candidates.len() && q != p && (#[trigger] candidates[q]).size
            == candidates[p].size;
    assert(sz[q] == sz[p]);
    lemma_peers_contains(sz, p as usize);
    let w = choose|w: int| 0 <= w < work.len() && work[w] == p as usize;
    assert(outcome(prefix, w) == pre(candidates[work[w] as int]));
    lemma_keyed_complete(sz, work, prefix, w)
}

/// A candidate on the work list of the full stage shares its prefix key.
pub proof fn lemma_full_work_sound(
    candidates: Seq<FileCandidate>,
    prefix: Seq<Option<u64>>,
    pre: spec_fn(FileCandidate) -> Option<u64>,
    w: int,
)
    requires
        candidates.len() <= usize::MAX,
        reads_prefix(candidates, prefix, pre),
        0 <= w < full_work(candidates, prefix).len(),
    ensures
        shares_prefix(candidates, pre, full_work(candidates, prefix)[w] as int),
{
    let once = nibbled(candidates, prefix);
    lemma_work_lists(candidates, prefix);
    lemma_run_no_duplicates(candidates, prefix, Seq::empty());
    let pair = lemma_retained_item(once, w);
    let p = once[pair.0].position as int;
    let q = once[pair.1].position as int;
    lemma_nibbled_sound(candidates, prefix, pre, pair.0);
    lemma_nibbled_sound(candidates, prefix, pre, pair.1);
    assert(positions_in(once)[pair.0] != positions_in(once)[pair.1]);
    assert(q != p && read_once(candidates, pre, q) && prefix_key(candidates, pre, q)
        == prefix_key(candidates, pre, p));
}

/// A candidate that shares its prefix key is on the work list of the full
/// stage, at the place that is returned.
pub proof fn lemma_full_work_complete(
    candidates: Seq<FileCandidate>,
    prefix: Seq<Option<u64>>,
    pre: spec_fn(FileCandidate) -> Option<u64>,
    p: int,
) -> (w: int)
    requires
        candidates.len() <= usize::MAX,
        reads_prefix(candidates, prefix, pre),
        shares_prefix(candidates, pre, p),
    ensures
        0 <= w < full_work(candidates, prefix).len(),
        full_work(candidates, prefix)[w] == p,
{
    let once = nibbled(candidates, prefix);
    let keys = keys_of(once);
    lemma_work_lists(candidates, prefix);
    let q = choose|q: int|
        q != p && #[trigger] read_once(candidates, pre, q) && prefix_key(candidates, pre, q)
            == prefix_key(candidates, pre, p);
    let i = lemma_nibbled_complete(candidates, prefix, pre, p);
    let j = lemma_nibbled_complete(candidates, prefix, pre, q);
    assert(keys[j] == keys[i]);
    lemma_peers_contains(keys, i as usize);
    let w = choose|w: int| 0 <= w < peers(keys).len() && peers(keys)[w] == i as usize;
    w
}

/// An item of the full stage stands for a candidate that is read twice, and
/// has its full key.
pub proof fn lemma_hashed_sound(
    candidates: Seq<FileCandidate>,
    prefix: Seq<Option<u64>>,
    full: Seq<Option<u64>>,
    pre: spec_fn(FileCandidate) -> Option<u64>,
    ful: spec_fn(FileCandidate) -> Option<u64>,
    i: int,
)
    requires
        candidates.len() <= usize::MAX,
        reads_prefix(candidates, prefix, pre),
        reads_full(candidates, prefix, full, ful),
        0 <= i < hashed(candidates, prefix, full).len(),
    ensures
        read_twice(candidates, pre, ful, hashed(candidates, prefix, full)[i].position as int),
        hashed(candidates, prefix, full)[i].key == full_key(
            candidates,
            ful,
            hashed(candidates, prefix, full)[i].position as int,
        ),
{
    let sz = sizes(candidates);
    let work = full_work(candidates, prefix);
    lemma_work_lists(candidates, prefix);
    let w = lemma_keyed_item(sz, work, full, i);
    lemma_full_work_sound(candidates, prefix, pre, w);
    assert(outcome(full, w) == ful(candidates[work[w] as int]));
}

/// A candidate that is read twice has an item in the full stage, which is
/// returned.
pub proof fn lemma_hashed_complete(
    candidates: Seq<FileCandidate>,
    prefix: Seq<Option<u64>>,
    full: Seq<Option<u64>>,
    pre: spec_fn(FileCandidate) -> Option<u64>,
    ful: spec_fn(FileCandidate) -> Option<u64>,
    p: int,
) -> (i: int)
    requires
        candidates.len() <= usize::MAX,
        reads_prefix(candidates, prefix, pre),
        reads_full(candidates, prefix, full, ful),
        read_twice(candidates, pre, ful, p),
    ensures
        0 <= i < hashed(candidates, prefix, full).len(),
        hashed(candidates, prefix, full)[i].position == p,
        hashed(candidates, prefix, full)[i].key == full_key(candidates, ful, p),
{
    let sz = sizes(candidates);
    let work = full_work(candidates, prefix);
    let w = lemma_full_work_complete(candidates, prefix, pre, p);
    assert(outcome(full, w) == ful(candidates[work[w] as int]));
    lemma_keyed_complete(sz, work, full, w)
}

/// A member of a reported group is a duplicate with the key of the group.
/// Its position among the candidates is returned.
pub proof fn lemma_member_sound(
    candidates: Seq<FileCandidate>,
    prefix: Seq<Option<u64>>,
    full: Seq<Option<u64>>,
    pre: spec_fn(FileCandidate) -> Option<u64>,
    ful: spec_fn(FileCandidate) -> Option<u64>,
    groups: Seq<DuplicateGroup>,
    g: int,
    m: int,
) -> (p: int)
    requires
        candidates.len() <= usize::MAX,
        reads_prefix(candidates, prefix, pre),
        reads_full(candidates, prefix, full, ful),
        groups_describe(groups, candidates, hashed(candidates, prefix, full)),
        0 <= g < groups.len(),
        0 <= m < groups[g].paths@.len(),
    ensures
        is_duplicate(candidates, pre, ful, p),
        full_key(candidates, ful, p) == groups[g].key,
        candidates[p].path == groups[g].paths@[m],
{
    let items = hashed(candidates, prefix, full);
    let keys = keys_of(items);
    let class = crowded_classes(keys)[g];
    lemma_work_lists(candidates, prefix);
    lemma_run_shrinks_in_number(candidates, prefix, full);
    lemma_run_no_duplicates(candidates, prefix, full);
    assert(describes(groups[g], candidates, items, class));
    lemma_crowded_classes(keys, g);
    let k = keys[class[0] as int];
    lemma_positions_of(keys, k);
    let other = if m == 0 {
        1int
    } else {
        0int
    };
    let j = class[m] as int;
    let j2 = class[other] as int;
    assert(keys[j] == k && keys[j2] == k);
    lemma_hashed_sound(candidates, prefix, full, pre, ful, j);
    lemma_hashed_sound(candidates, prefix, full, pre, ful, j2);
    let p = items[j].position as int;
    let q = items[j2].position as int;
    assert(positions_in(items)[j] != positions_in(items)[j2]);
    assert(q != p && read_twice(candidates, pre, ful, q) && full_key(candidates, ful, q)
        == full_key(candidates, ful, p));
    p
}

/// A duplicate is a member of a reported group with its key. The group and
/// the place in it are returned.
pub proof fn lemma_member_complete(
    candidates: Seq<FileCandidate>,
    prefix: Seq<Option<u64>>,
    full: Seq<Option<u64>>,
    pre: spec_fn(FileCandidate) -> Option<u64>,
    ful: spec_fn(FileCandidate) -> Option<u64>,
    groups: Seq<DuplicateGroup>,
    p: int,
) -> (at: (int, int))
    requires
        candidates.len() <= usize::MAX,
        reads_prefix(candidates, prefix, pre),
        reads_full(candidates, prefix, full, ful),
        groups_describe(groups, candidates, hashed(candidates, prefix, full)),
        is_duplicate(candidates, pre, ful, p),
    ensures
        0 <= at.0 < groups.len(),
        0 <= at.1 < groups[at.0].paths@.len(),
        groups[at.0].key == full_key(candidates, ful, p),
        groups[at.0].paths@[at.1] == candidates[p].path,
{
    let items = hashed(candidates, prefix, full);
    let keys = keys_of(items);
    let crowded = crowded_classes(keys);
    lemma_work_lists(candidates, prefix);
    lemma_run_shrinks_in_number(candidates, prefix, full);
    let q = choose|q: int|
        q != p && #[trigger] read_twice(candidates, pre, ful, q) && full_key(candidates, ful, q)
            == full_key(candidates, ful, p);
    let i = lemma_hashed_complete(candidates, prefix, full, pre, ful, p);
    let j = lemma_hashed_complete(candidates, prefix, full, pre, ful, q);
    assert(keys[j] == keys[i]);
    lemma_peers_contains(keys, i as usize);
    lemma_flatten_contains(crowded, i as usize);
    let g = choose|g: int| 0 <= g < crowded.len() && #[trigger] crowded[g].contains(i as usize);
    let m = choose|m: int| 0 <= m < crowded[g].len() && crowded[g][m] == i as usize;
    assert(describes(groups[g], candidates, items, crowded[g]));
    lemma_crowded_classes(keys, g);
    lemma_positions_of(keys, keys[crowded[g][0] as int]);
    assert(keys[crowded[g][m] as int] == keys[crowded[g][0] as int]);
    (g, m)
}

} // verus!
