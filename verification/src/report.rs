//! What a run reports: the groups of duplicates and the counters.

use crate::candidate::{ContentKey, FileCandidate};
use crate::grouping::{crowded_classes, weigh, weigh_below};
use crate::pipeline::{hashed, keys_of, nibbled, positions_in, sizes, Keyed};
use vstd::prelude::*;

verus! {

/// Files that share size and full content digest, at least two of them.
#[derive(Clone, Debug, PartialEq, Eq)]
pub struct DuplicateGroup {
    pub key: ContentKey,
    /// Number of member files.
    pub count: usize,
    /// Bytes that the members occupy together: the size times the count.
    pub bytes: u128,
    pub paths: Vec<String>,
}

/// Files and bytes counted over a run.
#[derive(Clone, Copy, Debug, PartialEq, Eq, Structural)]
pub struct RunCounters {
    /// All candidates.
    pub files_considered: usize,
    pub bytes_considered: u128,
    /// Candidates that were not keyed by prefix digest: those of a size that
    /// no other candidate has, and those that could not be read.
    pub files_skipped: usize,
    pub bytes_skipped: u128,
    /// Candidates whose leading bytes were read.
    pub files_nibbled: usize,
    pub bytes_nibbled: u128,
    /// Candidates whose whole content was read.
    pub files_hashed: usize,
    pub bytes_hashed: u128,
}

/// The outcome of a run.
#[derive(Clone, Debug, PartialEq, Eq)]
pub struct Report {
    pub groups: Vec<DuplicateGroup>,
    pub counters: RunCounters,
}

/// The weight of a position when bytes are counted: the size of the
/// candidate there.
pub open spec fn size_at(sizes: Seq<u64>) -> spec_fn(usize) -> nat {
    |p: usize|
        if p < sizes.len() {
            sizes[p as int] as nat
        } else {
            0nat
        }
}

/// Whether `group` is the group of the items listed in `class`: it has their
/// common key, their number, the bytes they occupy, and their paths in the
/// order of the class.
pub open spec fn describes(
    group: DuplicateGroup,
    candidates: Seq<FileCandidate>,
    items: Seq<Keyed>,
    class: Seq<usize>,
) -> bool {
    &&& group.key == items[class[0] as int].key
    &&& group.count == class.len()
    &&& group.bytes == group.key.size * class.len()
    &&& group.paths@ == class.map_values(
        |j: usize| candidates[items[j as int].position as int].path,
    )
}

/// Whether `groups` are the duplicate groups among `items`: one group for
/// each key that at least two items have, in order of first occurrence.
pub open spec fn groups_describe(
    groups: Seq<DuplicateGroup>,
    candidates: Seq<FileCandidate>,
    items: Seq<Keyed>,
) -> bool {
    &&& groups.len() == crowded_classes(keys_of(items)).len()
    &&& forall|g: int|
        0 <= g < groups.len() ==> describes(
            #[trigger] groups[g],
            candidates,
            items,
            crowded_classes(keys_of(items))[g],
        )
}

/// Whether `counters` are the counters of the run over `candidates` that was
/// given the outcomes `prefix` and `full`.
pub open spec fn counters_describe(
    counters: RunCounters,
    candidates: Seq<FileCandidate>,
    prefix: Seq<Option<u64>>,
    full: Seq<Option<u64>>,
) -> bool {
    let by_size = size_at(sizes(candidates));
    let read_once = nibbled(candidates, prefix);
    let read_twice = hashed(candidates, prefix, full);
    &&& counters.files_considered == candidates.len()
    &&& counters.bytes_considered == weigh_below(candidates.len(), by_size)
    &&& counters.files_nibbled == read_once.len()
    &&& counters.bytes_nibbled == weigh(positions_in(read_once), by_size)
    &&& counters.files_hashed == read_twice.len()
    &&& counters.bytes_hashed == weigh(positions_in(read_twice), by_size)
    &&& counters.files_skipped == counters.files_considered - counters.files_nibbled
    &&& counters.bytes_skipped == counters.bytes_considered - counters.bytes_nibbled
}

/// The candidates and the outcomes determine the report: two lists of
/// groups that describe the same items agree in every key, count, byte total
/// and path, and two sets of counters that describe the same run are equal.
pub proof fn lemma_report_determined(
    candidates: Seq<FileCandidate>,
    prefix: Seq<Option<u64>>,
    full: Seq<Option<u64>>,
    first: Report,
    second: Report,
)
    requires
        groups_describe(first.groups@, candidates, hashed(candidates, prefix, full)),
        groups_describe(second.groups@, candidates, hashed(candidates, prefix, full)),
        counters_describe(first.counters, candidates, prefix, full),
        counters_describe(second.counters, candidates, prefix, full),
    ensures
        first.counters == second.counters,
        first.groups@.len() == second.groups@.len(),
        forall|g: int|
            0 <= g < first.groups@.len() ==> {
                &&& (#[trigger] first.groups@[g]).key == second.groups@[g].key
                &&& first.groups@[g].count == second.groups@[g].count
                &&& first.groups@[g].bytes == second.groups@[g].bytes
                &&& first.groups@[g].paths@ == second.groups@[g].paths@
            },
{
    let items = hashed(candidates, prefix, full);
    let crowded = crowded_classes(keys_of(items));
    assert forall|g: int| 0 <= g < first.groups@.len() implies {
        &&& (#[trigger] first.groups@[g]).key == second.groups@[g].key
        &&& first.groups@[g].count == second.groups@[g].count
        &&& first.groups@[g].bytes == second.groups@[g].bytes
        &&& first.groups@[g].paths@ == second.groups@[g].paths@
    } by {
        assert(describes(first.groups@[g], candidates, items, crowded[g]));
        assert(describes(second.groups@[g], candidates, items, crowded[g]));
    }
}

} // verus!
