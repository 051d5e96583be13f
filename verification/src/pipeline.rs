//! The stages of a run, from the scanned candidates to the report.
//!
//! A run reads files twice: once for a digest of each file's leading bytes,
//! once for a digest of its whole content. Reading is the caller's part. A
//! stage hands out the files to read as a work list and takes back one
//! outcome per work item, `None` for a file that could not be read.

use crate::accounting::{lemma_run_shrinks, lemma_run_shrinks_in_number};
use crate::candidate::{ContentKey, FileCandidate};
use crate::grouping::{
    class_views, classes, distinct_keys, group_positions, is_crowded, lemma_classes_of_codes,
    lemma_distinct_keys, lemma_peers_contains, lemma_positions_of, peers, positions_of, weigh,
    weigh_below,
};
use crate::membership::lemma_groups_crowded;
use crate::report::{
    counters_describe, describes, groups_describe, size_at, DuplicateGroup, Report, RunCounters,
};
use vstd::prelude::*;

verus! {

/// A work item that was read, with the key that its digest gave it.
#[derive(Clone, Copy, Debug, PartialEq, Eq, Structural)]
pub struct Keyed {
    /// Position of the file among the candidates.
    pub position: usize,
    pub key: ContentKey,
}

/// The sizes of the candidates, position by position.
pub open spec fn sizes(candidates: Seq<FileCandidate>) -> Seq<u64> {
    candidates.map_values(|c: FileCandidate| c.size)
}

/// The outcome reported for work item `w`. An item without a report counts
/// as unreadable.
pub open spec fn outcome(digests: Seq<Option<u64>>, w: int) -> Option<u64> {
    if 0 <= w < digests.len() {
        digests[w]
    } else {
        None
    }
}

/// The work items that were read, in work order, each with its key: the
/// reported digest and the size of the candidate.
pub open spec fn keyed(sizes: Seq<u64>, work: Seq<usize>, digests: Seq<Option<u64>>) -> Seq<Keyed>
    decreases work.len(),
{
    if work.len() == 0 {
        Seq::empty()
    } else {
        let before = keyed(sizes, work.drop_last(), digests);
        match outcome(digests, work.len() - 1) {
            Some(hash) => before.push(
                Keyed {
                    position: work.last(),
                    key: ContentKey { hash, size: sizes[work.last() as int] },
                },
            ),
            None => before,
        }
    }
}

/// The keys of the items, in order.
pub open spec fn keys_of(items: Seq<Keyed>) -> Seq<ContentKey> {
    items.map_values(|item: Keyed| item.key)
}

/// The candidate positions of the items, in order.
pub open spec fn positions_in(items: Seq<Keyed>) -> Seq<usize> {
    items.map_values(|item: Keyed| item.position)
}

/// The candidate positions of the items whose key another item shares.
pub open spec fn retained(items: Seq<Keyed>) -> Seq<usize> {
    peers(keys_of(items)).map_values(|j: usize| items[j as int].position)
}

/// Work list of the prefix stage: the candidates whose size another
/// candidate shares.
pub open spec fn prefix_work(candidates: Seq<FileCandidate>) -> Seq<usize> {
    peers(sizes(candidates))
}

/// The candidates whose leading bytes were read, keyed by prefix digest and
/// size.
pub open spec fn nibbled(candidates: Seq<FileCandidate>, prefix: Seq<Option<u64>>) -> Seq<Keyed> {
    keyed(sizes(candidates), prefix_work(candidates), prefix)
}

/// Work list of the full stage: the candidates whose prefix key another
/// candidate shares.
pub open spec fn full_work(candidates: Seq<FileCandidate>, prefix: Seq<Option<u64>>) -> Seq<usize> {
    retained(nibbled(candidates, prefix))
}

/// The candidates whose whole content was read, keyed by full digest and
/// size.
pub open spec fn hashed(
    candidates: Seq<FileCandidate>,
    prefix: Seq<Option<u64>>,
    full: Seq<Option<u64>>,
) -> Seq<Keyed> {
    keyed(sizes(candidates), full_work(candidates, prefix), full)
}

/// The members of the listed classes that have at least two, class by class.
fn crowded_positions(groups: &Vec<Vec<usize>>) -> (members: Vec<usize>)
    ensures
        members@ == class_views(groups@).filter(|c: Seq<usize>| is_crowded(c)).flatten(),
{
    let ghost keep = |c: Seq<usize>| is_crowded(c);
    let mut members: Vec<usize> = Vec::new();
    let mut g: usize = 0;
    proof {
        assert(class_views(groups@).take(0).filter(keep) =~= Seq::<Seq<usize>>::empty()) by {
            reveal(Seq::filter);
        }
    }
    while g < groups.len()
        invariant
            g <= groups.len(),
            keep == |c: Seq<usize>| is_crowded(c),
            members@ == class_views(groups@).take(g as int).filter(keep).flatten(),
        decreases groups.len() - g,
    {
        let group = &groups[g];
        let ghost done = class_views(groups@).take(g as int);
        proof {
            assert(class_views(groups@).take(g + 1) =~= done.push(group@));
            done.lemma_filter_push(group@, keep);
        }
        if group.len() >= 2 {
            let mut m: usize = 0;
            proof {
                done.filter(keep).lemma_flatten_push(group@);
                assert(members@ + group@.take(0) =~= members@);
            }
            while m < group.len()
                invariant
                    m <= group.len(),
                    members@ == done.filter(keep).flatten() + group@.take(m as int),
                decreases group.len() - m,
            {
                members.push(group[m]);
                proof {
                    assert(group@.take(m + 1) =~= group@.take(m as int).push(group@[m as int]));
                }
                m += 1;
            }
            proof {
                assert(group@.take(m as int) =~= group@);
            }
        }
        g += 1;
    }
    proof {
        assert(class_views(groups@).take(g as int) =~= class_views(groups@));
    }
    members
}

/// Whether every listed position is below `bound`.
pub open spec fn all_below(positions: Seq<usize>, bound: nat) -> bool {
    forall|i: int| 0 <= i < positions.len() ==> #[trigger] positions[i] < bound
}

/// The items come from the work list: there are no more of them than work
/// items, and their positions obey a bound that the work list obeys.
pub proof fn lemma_keyed_bounded(
    sizes: Seq<u64>,
    work: Seq<usize>,
    digests: Seq<Option<u64>>,
    bound: nat,
)
    requires
        all_below(work, bound),
    ensures
        keyed(sizes, work, digests).len() <= work.len(),
        all_below(positions_in(keyed(sizes, work, digests)), bound),
    decreases work.len(),
{
    if work.len() > 0 {
        assert(all_below(work.drop_last(), bound)) by {
            let init = work.drop_last();
            assert forall|i: int| 0 <= i < init.len() implies #[trigger] init[i] < bound by {
                assert(work[i] < bound);
            }
        }
        lemma_keyed_bounded(sizes, work.drop_last(), digests, bound);
        let before = positions_in(keyed(sizes, work.drop_last(), digests));
        let now = positions_in(keyed(sizes, work, digests));
        assert forall|i: int| 0 <= i < now.len() implies #[trigger] now[i] < bound by {
            if i < before.len() {
                assert(now[i] == before[i]);
            } else {
                assert(now[i] == work[work.len() - 1]);
            }
        }
    }
}

/// The positions with a peer are positions.
pub proof fn lemma_peers_below<K>(keys: Seq<K>)
    requires
        keys.len() <= usize::MAX,
    ensures
        all_below(peers(keys), keys.len()),
{
    assert forall|i: int| 0 <= i < peers(keys).len() implies #[trigger] peers(keys)[i]
        < keys.len() by {
        assert(peers(keys).contains(peers(keys)[i]));
        lemma_peers_contains(keys, peers(keys)[i]);
    }
}

/// Keys the work items that were read.
fn key_items(
    candidates: &Vec<FileCandidate>,
    work: &Vec<usize>,
    digests: &Vec<Option<u64>>,
) -> (items: Vec<Keyed>)
    requires
        all_below(work@, candidates@.len()),
    ensures
        items@ == keyed(sizes(candidates@), work@, digests@),
{
    let mut items: Vec<Keyed> = Vec::new();
    let mut w: usize = 0;
    while w < work.len()
        invariant
            w <= work.len(),
            all_below(work@, candidates@.len()),
            items@ == keyed(sizes(candidates@), work@.take(w as int), digests@),
        decreases work.len() - w,
    {
        proof {
            assert(work@.take(w + 1).drop_last() =~= work@.take(w as int));
        }
        let position: usize = work[w];
        if w < digests.len() {
            match digests[w] {
                Some(hash) => {
                    let size: u64 = candidates[position].size;
                    items.push(Keyed { position, key: ContentKey { hash, size } });
                },
                None => {},
            }
        }
        w += 1;
    }
    proof {
        assert(work@.take(w as int) =~= work@);
    }
    items
}

/// Groups the indices of the items by key.
fn group_items(items: &Vec<Keyed>) -> (groups: Vec<Vec<usize>>)
    ensures
        class_views(groups@) == classes(keys_of(items@)),
{
    let mut codes: Vec<u128> = Vec::new();
    let mut i: usize = 0;
    while i < items.len()
        invariant
            i <= items.len(),
            codes@.len() == i,
            forall|j: int| 0 <= j < i ==> codes@[j] == (#[trigger] items@[j]).key.code(),
        decreases items.len() - i,
    {
        codes.push(items[i].key.packed());
        i += 1;
    }
    let groups = group_positions(&codes);
    proof {
        let keys = keys_of(items@);
        assert forall|a: int, b: int| 0 <= a < keys.len() && 0 <= b < keys.len() implies ((keys[a]
            == keys[b]) <==> (codes@[a] == codes@[b])) by {
            ContentKey::lemma_code_injective(items@[a].key, items@[b].key);
        }
        lemma_classes_of_codes(keys, codes@);
    }
    groups
}

/// The candidate positions of the items whose key another item shares.
fn retained_positions(items: &Vec<Keyed>) -> (positions: Vec<usize>)
    ensures
        positions@ == retained(items@),
{
    let groups = group_items(items);
    let crowded = crowded_positions(&groups);
    proof {
        assert(keys_of(items@).len() == items.len());
        lemma_peers_below(keys_of(items@));
    }
    let mut positions: Vec<usize> = Vec::new();
    let mut n: usize = 0;
    while n < crowded.len()
        invariant
            n <= crowded.len(),
            all_below(crowded@, items@.len()),
            positions@ == crowded@.take(n as int).map_values(|j: usize| items@[j as int].position),
        decreases crowded.len() - n,
    {
        let j: usize = crowded[n];
        assert(crowded@[n as int] < items@.len());
        positions.push(items[j].position);
        proof {
            assert(crowded@.take(n + 1) =~= crowded@.take(n as int).push(j));
            assert(positions@ =~= crowded@.take(n + 1).map_values(
                |j: usize| items@[j as int].position,
            ));
        }
        n += 1;
    }
    proof {
        assert(crowded@.take(n as int) =~= crowded@);
    }
    positions
}

/// The scanned candidates, grouped by size and waiting for the digests of
/// their leading bytes.
pub struct PrefixStage {
    candidates: Vec<FileCandidate>,
    work: Vec<usize>,
}

impl PrefixStage {
    #[verifier::type_invariant]
    spec fn inv(self) -> bool {
        self.work@ == prefix_work(self.candidates@)
    }

    /// The candidates of the run.
    pub closed spec fn candidates(&self) -> Seq<FileCandidate> {
        self.candidates@
    }

    /// Groups the candidates by size and keeps those whose size another
    /// candidate shares.
    pub fn begin(candidates: Vec<FileCandidate>) -> (stage: PrefixStage)
        ensures
            stage.candidates() == candidates@,
    {
        let mut codes: Vec<u128> = Vec::new();
        let mut i: usize = 0;
        while i < candidates.len()
            invariant
                i <= candidates.len(),
                codes@.len() == i,
                forall|j: int| 0 <= j < i ==> codes@[j] == (#[trigger] candidates@[j]).size as u128,
            decreases candidates.len() - i,
        {
            codes.push(candidates[i].size as u128);
            i += 1;
        }
        let groups = group_positions(&codes);
        let work = crowded_positions(&groups);
        proof {
            lemma_classes_of_codes(sizes(candidates@), codes@);
        }
        PrefixStage { candidates, work }
    }

    /// Number of files to read in this stage.
    pub fn work_len(&self) -> (n: usize)
        ensures
            n == prefix_work(self.candidates()).len(),
    {
        proof {
            use_type_invariant(self);
        }
        self.work.len()
    }

    /// The file to read as work item `w`, `None` past the end of the list.
    pub fn work_item(&self, w: usize) -> (item: Option<&FileCandidate>)
        ensures
            item.is_some() <==> w < prefix_work(self.candidates()).len(),
            item.is_some() ==> prefix_work(self.candidates())[w as int] < self.candidates().len()
                && *item.unwrap() == self.candidates()[prefix_work(
                self.candidates(),
            )[w as int] as int],
    {
        proof {
            use_type_invariant(self);
            assert(sizes(self.candidates@).len() == self.candidates.len());
            lemma_peers_below(sizes(self.candidates@));
        }
        if w < self.work.len() {
            Some(&self.candidates[self.work[w]])
        } else {
            None
        }
    }

    /// Takes the prefix digests, one per work item in work order, keys the
    /// files that were read and keeps those whose key another file shares.
    pub fn advance(self, digests: &Vec<Option<u64>>) -> (next: FullStage)
        ensures
            next.candidates() == self.candidates(),
            next.prefix() == digests@,
    {
        proof {
            use_type_invariant(&self);
            assert(sizes(self.candidates@).len() == self.candidates.len());
            lemma_peers_below(sizes(self.candidates@));
        }
        let items = key_items(&self.candidates, &self.work, digests);
        let work = retained_positions(&items);
        FullStage { candidates: self.candidates, items, work, prefix: Ghost(digests@) }
    }
}

/// The candidates that share size and prefix digest with another, waiting
/// for the digests of their whole content.
pub struct FullStage {
    candidates: Vec<FileCandidate>,
    items: Vec<Keyed>,
    work: Vec<usize>,
    prefix: Ghost<Seq<Option<u64>>>,
}

impl FullStage {
    #[verifier::type_invariant]
    spec fn inv(self) -> bool {
        &&& self.items@ == nibbled(self.candidates@, self.prefix@)
        &&& self.work@ == full_work(self.candidates@, self.prefix@)
    }

    /// The candidates of the run.
    pub closed spec fn candidates(&self) -> Seq<FileCandidate> {
        self.candidates@
    }

    /// The outcomes that the prefix stage was given.
    pub closed spec fn prefix(&self) -> Seq<Option<u64>> {
        self.prefix@
    }

    /// Number of files to read in this stage.
    pub fn work_len(&self) -> (n: usize)
        ensures
            n == full_work(self.candidates(), self.prefix()).len(),
    {
        proof {
            use_type_invariant(self);
        }
        self.work.len()
    }

    /// The file to read as work item `w`, `None` past the end of the list.
    pub fn work_item(&self, w: usize) -> (item: Option<&FileCandidate>)
        ensures
            item.is_some() <==> w < full_work(self.candidates(), self.prefix()).len(),
            item.is_some() ==> full_work(self.candidates(), self.prefix())[w as int]
                < self.candidates().len() && *item.unwrap() == self.candidates()[full_work(
                self.candidates(),
                self.prefix(),
            )[w as int] as int],
    {
        proof {
            use_type_invariant(self);
            assert(self.candidates@.len() == self.candidates.len());
            self.lemma_work_below();
        }
        if w < self.work.len() {
            Some(&self.candidates[self.work[w]])
        } else {
            None
        }
    }

    proof fn lemma_work_below(self)
        requires
            self.inv(),
            self.candidates@.len() <= usize::MAX,
        ensures
            all_below(positions_in(self.items@), self.candidates@.len()),
            all_below(self.work@, self.candidates@.len()),
            self.items@.len() <= usize::MAX,
    {
        let sz = sizes(self.candidates@);
        lemma_peers_below(sz);
        lemma_keyed_bounded(
            sz,
            prefix_work(self.candidates@),
            self.prefix@,
            self.candidates@.len(),
        );
        lemma_run_shrinks_in_number(self.candidates@, self.prefix@, Seq::empty());
        lemma_peers_below(keys_of(self.items@));
        assert forall|i: int| 0 <= i < self.work@.len() implies #[trigger] self.work@[i]
            < self.candidates@.len() by {
            let j = peers(keys_of(self.items@))[i];
            assert(self.work@[i] == positions_in(self.items@)[j as int]);
        }
    }

    /// Takes the full digests, one per work item in work order, groups the
    /// files that were read by digest and size, and reports the groups of
    /// two or more together with the counters of the run.
    pub fn finish(self, digests: &Vec<Option<u64>>) -> (report: Report)
        ensures
            groups_describe(
                report.groups@,
                self.candidates(),
                hashed(self.candidates(), self.prefix(), digests@),
            ),
            counters_describe(report.counters, self.candidates(), self.prefix(), digests@),
            forall|g: int|
                0 <= g < report.groups@.len() ==> (#[trigger] report.groups@[g]).count >= 2
                    && report.groups@[g].paths@.len() == report.groups@[g].count,
    {
        proof {
            use_type_invariant(&self);
            assert(self.candidates@.len() == self.candidates.len());
            self.lemma_work_below();
            lemma_keyed_bounded(
                sizes(self.candidates@),
                self.work@,
                digests@,
                self.candidates@.len(),
            );
            lemma_run_shrinks(
                self.candidates@,
                self.prefix@,
                digests@,
                size_at(sizes(self.candidates@)),
            );
            lemma_run_shrinks_in_number(self.candidates@, self.prefix@, digests@);
        }
        let read_twice = key_items(&self.candidates, &self.work, digests);
        let groups = collect_groups(&self.candidates, &read_twice);
        proof {
            lemma_groups_crowded(groups@, self.candidates@, read_twice@);
        }
        let files_considered: usize = self.candidates.len();
        let bytes_considered: u128 = bytes_of(&self.candidates);
        let files_nibbled: usize = self.items.len();
        let bytes_nibbled: u128 = bytes_at(&self.candidates, &self.items);
        let counters = RunCounters {
            files_considered,
            bytes_considered,
            files_skipped: files_considered - files_nibbled,
            bytes_skipped: bytes_considered - bytes_nibbled,
            files_nibbled,
            bytes_nibbled,
            files_hashed: read_twice.len(),
            bytes_hashed: bytes_at(&self.candidates, &read_twice),
        };
        Report { groups, counters }
    }
}

/// The bytes of all candidates together.
fn bytes_of(candidates: &Vec<FileCandidate>) -> (total: u128)
    ensures
        total == weigh_below(candidates@.len(), size_at(sizes(candidates@))),
{
    let ghost by_size = size_at(sizes(candidates@));
    let mut total: u128 = 0;
    let mut i: usize = 0;
    while i < candidates.len()
        invariant
            i <= candidates.len(),
            by_size == size_at(sizes(candidates@)),
            total == weigh_below(i as nat, by_size),
            total <= i * u64::MAX,
        decreases candidates.len() - i,
    {
        assert(by_size(i) == candidates@[i as int].size);
        total = total + candidates[i].size as u128;
        i += 1;
    }
    total
}

/// The bytes of the candidates that the items stand for.
fn bytes_at(candidates: &Vec<FileCandidate>, items: &Vec<Keyed>) -> (total: u128)
    requires
        all_below(positions_in(items@), candidates@.len()),
    ensures
        total == weigh(positions_in(items@), size_at(sizes(candidates@))),
{
    let ghost by_size = size_at(sizes(candidates@));
    let ghost positions = positions_in(items@);
    let mut total: u128 = 0;
    let mut i: usize = 0;
    while i < items.len()
        invariant
            i <= items.len(),
            by_size == size_at(sizes(candidates@)),
            positions == positions_in(items@),
            all_below(positions, candidates@.len()),
            total == weigh(positions.take(i as int), by_size),
            total <= i * u64::MAX,
        decreases items.len() - i,
    {
        let position: usize = items[i].position;
        proof {
            assert(positions[i as int] == position);
            assert(positions.take(i + 1).drop_last() =~= positions.take(i as int));
            assert(by_size(position) == candidates@[position as int].size);
        }
        total = total + candidates[position].size as u128;
        i += 1;
    }
    proof {
        assert(positions.take(i as int) =~= positions);
    }
    total
}

/// The group of the items listed in `class`.
fn make_group(candidates: &Vec<FileCandidate>, items: &Vec<Keyed>, class: &Vec<usize>) -> (group:
    DuplicateGroup)
    requires
        class@.len() > 0,
        all_below(class@, items@.len()),
        all_below(positions_in(items@), candidates@.len()),
    ensures
        describes(group, candidates@, items@, class@),
{
    let key = items[class[0]].key;
    let count: usize = class.len();
    assert(key.size * count <= 0xFFFF_FFFF_FFFF_FFFF * 0xFFFF_FFFF_FFFF_FFFF) by (nonlinear_arith)
        requires
            key.size <= 0xFFFF_FFFF_FFFF_FFFF,
            count <= 0xFFFF_FFFF_FFFF_FFFF,
    ;
    let bytes: u128 = key.size as u128 * count as u128;
    let mut paths: Vec<String> = Vec::new();
    let mut m: usize = 0;
    while m < class.len()
        invariant
            m <= class.len(),
            all_below(class@, items@.len()),
            all_below(positions_in(items@), candidates@.len()),
            paths@ == class@.take(m as int).map_values(
                |j: usize| candidates@[items@[j as int].position as int].path,
            ),
        decreases class.len() - m,
    {
        let j: usize = class[m];
        assert(class@[m as int] < items@.len());
        let position: usize = items[j].position;
        assert(positions_in(items@)[j as int] < candidates@.len());
        paths.push(candidates[position].path.clone());
        proof {
            assert(class@.take(m + 1) =~= class@.take(m as int).push(j));
            assert(paths@ =~= class@.take(m + 1).map_values(
                |j: usize| candidates@[items@[j as int].position as int].path,
            ));
        }
        m += 1;
    }
    proof {
        assert(class@.take(m as int) =~= class@);
    }
    DuplicateGroup { key, count, bytes, paths }
}

/// The duplicate groups among the items.
fn collect_groups(candidates: &Vec<FileCandidate>, items: &Vec<Keyed>) -> (groups: Vec<
    DuplicateGroup,
>)
    requires
        all_below(positions_in(items@), candidates@.len()),
    ensures
        groups_describe(groups@, candidates@, items@),
{
    let found = group_items(items);
    let ghost keep = |c: Seq<usize>| is_crowded(c);
    let ghost all = class_views(found@);
    let mut groups: Vec<DuplicateGroup> = Vec::new();
    let mut g: usize = 0;
    proof {
        assert(all.take(0).filter(keep) =~= Seq::<Seq<usize>>::empty()) by {
            reveal(Seq::filter);
        }
        lemma_distinct_keys(keys_of(items@));
        assert(items@.len() == items.len());
    }
    while g < found.len()
        invariant
            g <= found.len(),
            keep == |c: Seq<usize>| is_crowded(c),
            all == class_views(found@),
            all == classes(keys_of(items@)),
            items@.len() <= usize::MAX,
            all_below(positions_in(items@), candidates@.len()),
            groups@.len() == all.take(g as int).filter(keep).len(),
            forall|h: int|
                0 <= h < groups@.len() ==> describes(
                    #[trigger] groups@[h],
                    candidates@,
                    items@,
                    all.take(g as int).filter(keep)[h],
                ),
        decreases found.len() - g,
    {
        let class = &found[g];
        proof {
            assert(all.take(g + 1) =~= all.take(g as int).push(class@));
            all.take(g as int).lemma_filter_push(class@, keep);
            assert(class@ == all[g as int]);
            let k = distinct_keys(keys_of(items@))[g as int];
            lemma_positions_of(keys_of(items@), k);
            assert(all.len() == found@.len());
            assert(classes(keys_of(items@)).len() == distinct_keys(keys_of(items@)).len());
            assert(classes(keys_of(items@))[g as int] == positions_of(keys_of(items@), k));
            assert(class@ == positions_of(keys_of(items@), k));
            assert forall|i: int| 0 <= i < class@.len() implies #[trigger] class@[i]
                < items@.len() by {
                assert(positions_of(keys_of(items@), k)[i] < keys_of(items@).len());
            }
        }
        if class.len() >= 2 {
            let group = make_group(candidates, items, class);
            groups.push(group);
        }
        g += 1;
    }
    proof {
        assert(all.take(g as int) =~= all);
    }
    groups
}

} // verus!
