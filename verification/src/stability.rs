//! The report does not depend on the order in which traversal found the
//! files: two runs over the same files, found in any order, list the same
//! paths under the same keys.

use crate::candidate::{ContentKey, FileCandidate};
use crate::pipeline::hashed;
use crate::reading::{
    full_key, is_duplicate, lemma_member_complete, lemma_member_sound, prefix_key, read_once,
    read_twice, reads_full, reads_prefix, shares_prefix, shares_size,
};
use crate::report::{groups_describe, DuplicateGroup};
use vstd::prelude::*;

verus! {

/// Whether `at` finds every candidate of `from` in `to`, different ones at
/// different positions.
pub open spec fn relabels(from: Seq<FileCandidate>, to: Seq<FileCandidate>, at: Seq<int>) -> bool {
    &&& at.len() == from.len()
    &&& forall|p: int|
        0 <= p < from.len() ==> 0 <= #[trigger] at[p] < to.len() && to[at[p]] == from[p]
    &&& forall|p: int, q: int|
        0 <= p < from.len() && 0 <= q < from.len() && p != q ==> #[trigger] at[p]
            != #[trigger] at[q]
}

/// Whether some group with key `key` lists `path`.
pub open spec fn lists(groups: Seq<DuplicateGroup>, key: ContentKey, path: String) -> bool {
    exists|g: int, m: int|
        0 <= g < groups.len() && 0 <= m < groups[g].paths@.len() && groups[g].key == key
            && #[trigger] groups[g].paths@[m] == path
}

/// A candidate that shares its size still does where it was relabelled to.
proof fn lemma_shares_size_relabelled(
    from: Seq<FileCandidate>,
    to: Seq<FileCandidate>,
    at: Seq<int>,
    p: int,
)
    requires
        relabels(from, to, at),
        shares_size(from, p),
    ensures
        shares_size(to, at[p]),
{
    let q = choose|q: int|
        0 <= q < from.len() && q != p && (#[trigger] from[q]).size == from[p].size;
    assert(to[at[q]].size == to[at[p]].size);
}

/// A candidate that shares its prefix key still does where it was
/// relabelled to.
proof fn lemma_shares_prefix_relabelled(
    from: Seq<FileCandidate>,
    to: Seq<FileCandidate>,
    at: Seq<int>,
    pre: spec_fn(FileCandidate) -> Option<u64>,
    p: int,
)
    requires
        relabels(from, to, at),
        shares_prefix(from, pre, p),
    ensures
        shares_prefix(to, pre, at[p]),
        prefix_key(to, pre, at[p]) == prefix_key(from, pre, p),
{
    let q = choose|q: int|
        q != p && #[trigger] read_once(from, pre, q) && prefix_key(from, pre, q) == prefix_key(
            from,
            pre,
            p,
        );
    lemma_shares_size_relabelled(from, to, at, p);
    lemma_shares_size_relabelled(from, to, at, q);
    assert(at[q] != at[p]);
    assert(read_once(to, pre, at[q]) && prefix_key(to, pre, at[q]) == prefix_key(to, pre, at[p]));
}

/// A duplicate is still one, with the same key, where it was relabelled to.
proof fn lemma_duplicate_relabelled(
    from: Seq<FileCandidate>,
    to: Seq<FileCandidate>,
    at: Seq<int>,
    pre: spec_fn(FileCandidate) -> Option<u64>,
    ful: spec_fn(FileCandidate) -> Option<u64>,
    p: int,
)
    requires
        relabels(from, to, at),
        is_duplicate(from, pre, ful, p),
    ensures
        is_duplicate(to, pre, ful, at[p]),
        full_key(to, ful, at[p]) == full_key(from, ful, p),
        to[at[p]] == from[p],
{
    let q = choose|q: int|
        q != p && #[trigger] read_twice(from, pre, ful, q) && full_key(from, ful, q) == full_key(
            from,
            ful,
            p,
        );
    lemma_shares_prefix_relabelled(from, to, at, pre, p);
    lemma_shares_prefix_relabelled(from, to, at, pre, q);
    assert(at[q] != at[p]);
    assert(read_twice(to, pre, ful, at[q]) && full_key(to, ful, at[q]) == full_key(
        to,
        ful,
        at[p],
    ));
}

/// What one run lists under a key, a run over the same files in another
/// order lists under that key too.
proof fn lemma_listed_after_relabelling(
    from: Seq<FileCandidate>,
    from_prefix: Seq<Option<u64>>,
    from_full: Seq<Option<u64>>,
    from_groups: Seq<DuplicateGroup>,
    to: Seq<FileCandidate>,
    to_prefix: Seq<Option<u64>>,
    to_full: Seq<Option<u64>>,
    to_groups: Seq<DuplicateGroup>,
    pre: spec_fn(FileCandidate) -> Option<u64>,
    ful: spec_fn(FileCandidate) -> Option<u64>,
    at: Seq<int>,
    key: ContentKey,
    path: String,
)
    requires
        from.len() <= usize::MAX,
        to.len() <= usize::MAX,
        reads_prefix(from, from_prefix, pre),
        reads_full(from, from_prefix, from_full, ful),
        groups_describe(from_groups, from, hashed(from, from_prefix, from_full)),
        reads_prefix(to, to_prefix, pre),
        reads_full(to, to_prefix, to_full, ful),
        groups_describe(to_groups, to, hashed(to, to_prefix, to_full)),
        relabels(from, to, at),
        lists(from_groups, key, path),
    ensures
        lists(to_groups, key, path),
{
    let (g, m) = choose|g: int, m: int|
        0 <= g < from_groups.len() && 0 <= m < from_groups[g].paths@.len() && from_groups[g].key
            == key && #[trigger] from_groups[g].paths@[m] == path;
    let p = lemma_member_sound(from, from_prefix, from_full, pre, ful, from_groups, g, m);
    lemma_duplicate_relabelled(from, to, at, pre, ful, p);
    let found = lemma_member_complete(to, to_prefix, to_full, pre, ful, to_groups, at[p]);
    assert(to_groups[found.0].paths@[found.1] == path);
}

/// Two runs over the same files list the same paths under the same keys,
/// whatever the order in which each run found the files. The runs read the
/// same files if each list of candidates is a rearrangement of the other and
/// both took their digests from the same contents.
pub proof fn lemma_order_does_not_matter(
    first: Seq<FileCandidate>,
    first_prefix: Seq<Option<u64>>,
    first_full: Seq<Option<u64>>,
    first_groups: Seq<DuplicateGroup>,
    second: Seq<FileCandidate>,
    second_prefix: Seq<Option<u64>>,
    second_full: Seq<Option<u64>>,
    second_groups: Seq<DuplicateGroup>,
    pre: spec_fn(FileCandidate) -> Option<u64>,
    ful: spec_fn(FileCandidate) -> Option<u64>,
    there: Seq<int>,
    back: Seq<int>,
    key: ContentKey,
    path: String,
)
    requires
        first.len() <= usize::MAX,
        second.len() <= usize::MAX,
        reads_prefix(first, first_prefix, pre),
        reads_full(first, first_prefix, first_full, ful),
        groups_describe(first_groups, first, hashed(first, first_prefix, first_full)),
        reads_prefix(second, second_prefix, pre),
        reads_full(second, second_prefix, second_full, ful),
        groups_describe(second_groups, second, hashed(second, second_prefix, second_full)),
        relabels(first, second, there),
        relabels(second, first, back),
    ensures
        lists(first_groups, key, path) <==> lists(second_groups, key, path),
{
    if lists(first_groups, key, path) {
        lemma_listed_after_relabelling(
            first,
            first_prefix,
            first_full,
            first_groups,
            second,
            second_prefix,
            second_full,
            second_groups,
            pre,
            ful,
            there,
            key,
            path,
        );
    }
    if lists(second_groups, key, path) {
        lemma_listed_after_relabelling(
            second,
            second_prefix,
            second_full,
            second_groups,
            first,
            first_prefix,
            first_full,
            first_groups,
            pre,
            ful,
            back,
            key,
            path,
        );
    }
}

} // verus!
