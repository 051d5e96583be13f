//! Why the counters of a run balance: each stage passes on a part of what it
//! was given, so files and bytes can only shrink from stage to stage.

use crate::candidate::FileCandidate;
use crate::grouping::{
    crowded_classes, lemma_crowded_classes, lemma_peers_weigh_less, lemma_positions_of,
    lemma_weigh_add, lemma_weigh_below_unit, lemma_weigh_unit, peers, weigh, weigh_below,
};
use crate::membership::{lemma_keyed_item, lemma_work_lists};
use crate::pipeline::{
    full_work, hashed, keyed, keys_of, lemma_keyed_bounded, nibbled, positions_in, prefix_work,
    retained, sizes, Keyed,
};
use crate::report::{
    counters_describe, describes, groups_describe, size_at, DuplicateGroup, RunCounters,
};
use vstd::prelude::*;

verus! {

/// Weighing the images of positions is weighing the positions by the weight
/// of their images.
pub proof fn lemma_weigh_map(
    s: Seq<usize>,
    f: spec_fn(usize) -> usize,
    w: spec_fn(usize) -> nat,
    w2: spec_fn(usize) -> nat,
)
    requires
        forall|j: usize| #[trigger] w2(j) == w(f(j)),
    ensures
        weigh(s.map_values(f), w) == weigh(s, w2),
    decreases s.len(),
{
    if s.len() > 0 {
        assert(s.map_values(f).drop_last() =~= s.drop_last().map_values(f));
        lemma_weigh_map(s.drop_last(), f, w, w2);
    }
}

/// Weighing the first `n` indices of a list by the weight of the entries is
/// weighing the first `n` entries.
pub proof fn lemma_weigh_below_take(
    positions: Seq<usize>,
    n: nat,
    w: spec_fn(usize) -> nat,
    w2: spec_fn(usize) -> nat,
)
    requires
        n <= positions.len() <= usize::MAX,
        forall|j: usize| j < positions.len() ==> #[trigger] w2(j) == w(positions[j as int]),
    ensures
        weigh_below(n, w2) == weigh(positions.take(n as int), w),
    decreases n,
{
    if n > 0 {
        assert(positions.take(n as int).drop_last() =~= positions.take(n - 1));
        lemma_weigh_below_take(positions, (n - 1) as nat, w, w2);
    }
}

/// The items that were read weigh no more than the work list.
pub proof fn lemma_keyed_weighs_less(
    sizes: Seq<u64>,
    work: Seq<usize>,
    digests: Seq<Option<u64>>,
    w: spec_fn(usize) -> nat,
)
    ensures
        weigh(positions_in(keyed(sizes, work, digests)), w) <= weigh(work, w),
    decreases work.len(),
{
    if work.len() > 0 {
        lemma_keyed_weighs_less(sizes, work.drop_last(), digests, w);
        let before = keyed(sizes, work.drop_last(), digests);
        let now = keyed(sizes, work, digests);
        if now.len() > before.len() {
            assert(positions_in(now).drop_last() =~= positions_in(before));
        }
    }
}

/// The items that share their key with another weigh no more than all
/// items.
pub proof fn lemma_retained_weighs_less(items: Seq<Keyed>, w: spec_fn(usize) -> nat)
    requires
        items.len() <= usize::MAX,
    ensures
        weigh(retained(items), w) <= weigh(positions_in(items), w),
{
    let at = |j: usize| items[j as int].position;
    let w2 = |j: usize| w(items[j as int].position);
    lemma_weigh_map(peers(keys_of(items)), at, w, w2);
    lemma_peers_weigh_less(keys_of(items), w2);
    lemma_weigh_below_take(positions_in(items), items.len(), w, w2);
    assert(positions_in(items).take(items.len() as int) =~= positions_in(items));
}

/// From stage to stage a run keeps a part of what it had: whatever weight
/// the candidates carry, the files read twice weigh no more than those read
/// once, and these no more than all candidates.
pub proof fn lemma_run_shrinks(
    candidates: Seq<FileCandidate>,
    prefix: Seq<Option<u64>>,
    full: Seq<Option<u64>>,
    w: spec_fn(usize) -> nat,
)
    requires
        candidates.len() <= usize::MAX,
    ensures
        weigh(positions_in(hashed(candidates, prefix, full)), w) <= weigh(
            positions_in(nibbled(candidates, prefix)),
            w,
        ),
        weigh(positions_in(nibbled(candidates, prefix)), w) <= weigh_below(candidates.len(), w),
{
    let sz = sizes(candidates);
    lemma_peers_weigh_less(sz, w);
    lemma_keyed_weighs_less(sz, prefix_work(candidates), prefix, w);
    let once = nibbled(candidates, prefix);
    assert(once.len() <= usize::MAX) by {
        lemma_peers_weigh_less(sz, |p: usize| 1nat);
        lemma_keyed_weighs_less(sz, prefix_work(candidates), prefix, |p: usize| 1nat);
        lemma_weigh_unit(positions_in(once));
        lemma_weigh_unit(prefix_work(candidates));
        lemma_weigh_below_unit(candidates.len());
    }
    lemma_retained_weighs_less(once, w);
    lemma_keyed_weighs_less(sz, full_work(candidates, prefix), full, w);
}

/// From stage to stage a run keeps a part of the files it had.
pub proof fn lemma_run_shrinks_in_number(
    candidates: Seq<FileCandidate>,
    prefix: Seq<Option<u64>>,
    full: Seq<Option<u64>>,
)
    requires
        candidates.len() <= usize::MAX,
    ensures
        peers(keys_of(hashed(candidates, prefix, full))).len() <= hashed(
            candidates,
            prefix,
            full,
        ).len(),
        hashed(candidates, prefix, full).len() <= nibbled(candidates, prefix).len(),
        nibbled(candidates, prefix).len() <= candidates.len(),
{
    let unit = |p: usize| 1nat;
    lemma_run_shrinks(candidates, prefix, full, unit);
    lemma_weigh_unit(positions_in(hashed(candidates, prefix, full)));
    lemma_weigh_unit(positions_in(nibbled(candidates, prefix)));
    lemma_weigh_below_unit(candidates.len());
    lemma_peers_weigh_less(keys_of(hashed(candidates, prefix, full)), unit);
}

/// The number of members of all groups together.
pub open spec fn member_total(groups: Seq<DuplicateGroup>) -> nat
    decreases groups.len(),
{
    if groups.len() == 0 {
        0
    } else {
        member_total(groups.drop_last()) + groups.last().count as nat
    }
}

/// The first `n` groups have as many members as the first `n` classes.
proof fn lemma_member_total(
    groups: Seq<DuplicateGroup>,
    candidates: Seq<FileCandidate>,
    items: Seq<Keyed>,
    n: int,
)
    requires
        groups_describe(groups, candidates, items),
        0 <= n <= groups.len(),
    ensures
        member_total(groups.take(n)) == crowded_classes(keys_of(items)).take(n).flatten().len(),
    decreases n,
{
    let crowded = crowded_classes(keys_of(items));
    if n > 0 {
        lemma_member_total(groups, candidates, items, n - 1);
        assert(groups.take(n).drop_last() =~= groups.take(n - 1));
        assert(crowded.take(n) =~= crowded.take(n - 1).push(crowded[n - 1]));
        crowded.take(n - 1).lemma_flatten_push(crowded[n - 1]);
        assert(describes(groups[n - 1], candidates, items, crowded[n - 1]));
    }
}

/// The bytes that all groups occupy together.
pub open spec fn byte_total(groups: Seq<DuplicateGroup>) -> nat
    decreases groups.len(),
{
    if groups.len() == 0 {
        0
    } else {
        byte_total(groups.drop_last()) + groups.last().bytes as nat
    }
}

/// Positions that all weigh the same weigh that weight times their number.
pub proof fn lemma_weigh_constant(positions: Seq<usize>, w: spec_fn(usize) -> nat, each: nat)
    requires
        forall|i: int| 0 <= i < positions.len() ==> w(#[trigger] positions[i]) == each,
    ensures
        weigh(positions, w) == positions.len() * each,
    decreases positions.len(),
{
    if positions.len() > 0 {
        let init = positions.drop_last();
        assert forall|i: int| 0 <= i < init.len() implies w(#[trigger] init[i]) == each by {
            assert(init[i] == positions[i]);
        }
        lemma_weigh_constant(init, w, each);
        assert(w(positions[positions.len() - 1]) == each);
        assert(init.len() * each + each == positions.len() * each) by (nonlinear_arith)
            requires
                init.len() + 1 == positions.len(),
        ;
    }
}

/// The first `n` groups occupy what the members of the first `n` classes
/// weigh by size.
proof fn lemma_byte_total(
    groups: Seq<DuplicateGroup>,
    candidates: Seq<FileCandidate>,
    items: Seq<Keyed>,
    n: int,
)
    requires
        items.len() <= usize::MAX,
        groups_describe(groups, candidates, items),
        0 <= n <= groups.len(),
    ensures
        byte_total(groups.take(n)) == weigh(
            crowded_classes(keys_of(items)).take(n).flatten(),
            |j: usize| items[j as int].key.size as nat,
        ),
    decreases n,
{
    let keys = keys_of(items);
    let crowded = crowded_classes(keys);
    let by_key = |j: usize| items[j as int].key.size as nat;
    if n > 0 {
        let class = crowded[n - 1];
        lemma_byte_total(groups, candidates, items, n - 1);
        assert(groups.take(n).drop_last() =~= groups.take(n - 1));
        assert(crowded.take(n) =~= crowded.take(n - 1).push(class));
        crowded.take(n - 1).lemma_flatten_push(class);
        lemma_weigh_add(crowded.take(n - 1).flatten(), class, by_key);
        assert(describes(groups[n - 1], candidates, items, class));
        lemma_crowded_classes(keys, n - 1);
        let k = keys[class[0] as int];
        lemma_positions_of(keys, k);
        assert forall|i: int| 0 <= i < class.len() implies by_key(#[trigger] class[i])
            == k.size as nat by {
            assert(keys[class[i] as int] == k);
        }
        lemma_weigh_constant(class, by_key, k.size as nat);
        assert(class.len() * (k.size as nat) == k.size * class.len()) by (nonlinear_arith);
    } else {
        assert(crowded.take(0).flatten() =~= Seq::<usize>::empty());
    }
}

/// The counters of a run balance. What was skipped and what was read once
/// make up what was considered; what was read twice is part of what was read
/// once; and the members of the reported groups are part of what was read
/// twice.
pub proof fn lemma_counters_balance(
    candidates: Seq<FileCandidate>,
    prefix: Seq<Option<u64>>,
    full: Seq<Option<u64>>,
    counters: RunCounters,
    groups: Seq<DuplicateGroup>,
)
    requires
        candidates.len() <= usize::MAX,
        counters_describe(counters, candidates, prefix, full),
        groups_describe(groups, candidates, hashed(candidates, prefix, full)),
    ensures
        counters.files_skipped + counters.files_nibbled == counters.files_considered,
        counters.bytes_skipped + counters.bytes_nibbled == counters.bytes_considered,
        counters.files_nibbled >= counters.files_hashed,
        counters.bytes_nibbled >= counters.bytes_hashed,
        counters.files_hashed >= member_total(groups),
        counters.bytes_hashed >= byte_total(groups),
{
    let by_size = size_at(sizes(candidates));
    lemma_run_shrinks(candidates, prefix, full, by_size);
    lemma_run_shrinks_in_number(candidates, prefix, full);
    let items = hashed(candidates, prefix, full);
    lemma_member_total(groups, candidates, items, groups.len() as int);
    lemma_byte_total(groups, candidates, items, groups.len() as int);
    assert(groups.take(groups.len() as int) =~= groups);
    let crowded = crowded_classes(keys_of(items));
    assert(crowded.take(groups.len() as int) =~= crowded);
    let by_key = |j: usize| items[j as int].key.size as nat;
    lemma_peers_weigh_less(keys_of(items), by_key);
    lemma_work_lists(candidates, prefix);
    lemma_keyed_bounded(
        sizes(candidates),
        full_work(candidates, prefix),
        full,
        candidates.len(),
    );
    assert forall|j: usize| j < positions_in(items).len() implies #[trigger] by_key(j) == by_size(
        positions_in(items)[j as int],
    ) by {
        let w = lemma_keyed_item(
            sizes(candidates),
            full_work(candidates, prefix),
            full,
            j as int,
        );
        assert(positions_in(items)[j as int] < candidates.len());
    }
    lemma_weigh_below_take(positions_in(items), items.len(), by_size, by_key);
    assert(positions_in(items).take(items.len() as int) =~= positions_in(items));
}

} // verus!
