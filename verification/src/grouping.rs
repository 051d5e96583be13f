//! Grouping positions of a sequence by the key found at each position.
//!
//! The classes of a sequence of keys are the sets of positions that hold the
//! same key. They are listed one per distinct key, in the order in which the
//! keys first occur, and each class lists its positions in ascending order.

use std::collections::HashMap;
use vstd::prelude::*;

verus! {

broadcast use vstd::std_specs::hash::group_hash_axioms;

/// The positions at which `k` occurs in `keys`, ascending.
pub open spec fn positions_of<K>(keys: Seq<K>, k: K) -> Seq<usize>
    decreases keys.len(),
{
    if keys.len() == 0 {
        Seq::empty()
    } else {
        let before = positions_of(keys.drop_last(), k);
        if keys.last() == k {
            before.push((keys.len() - 1) as usize)
        } else {
            before
        }
    }
}

/// The keys that occur in `keys`, each once, in order of first occurrence.
pub open spec fn distinct_keys<K>(keys: Seq<K>) -> Seq<K>
    decreases keys.len(),
{
    if keys.len() == 0 {
        Seq::empty()
    } else {
        let before = distinct_keys(keys.drop_last());
        if keys.drop_last().contains(keys.last()) {
            before
        } else {
            before.push(keys.last())
        }
    }
}

/// The classes of `keys`: for each distinct key, in order of first
/// occurrence, the positions that hold it.
pub open spec fn classes<K>(keys: Seq<K>) -> Seq<Seq<usize>> {
    distinct_keys(keys).map_values(|k: K| positions_of(keys, k))
}

/// Whether a class has a second member.
pub open spec fn is_crowded(class: Seq<usize>) -> bool {
    class.len() >= 2
}

/// The classes of `keys` that have at least two members.
pub open spec fn crowded_classes<K>(keys: Seq<K>) -> Seq<Seq<usize>> {
    classes(keys).filter(|c: Seq<usize>| is_crowded(c))
}

/// The positions of `keys` whose key occurs at another position too, class
/// by class.
pub open spec fn peers<K>(keys: Seq<K>) -> Seq<usize> {
    crowded_classes(keys).flatten()
}

/// What `positions_of` gives after one more key.
pub proof fn lemma_positions_push<K>(keys: Seq<K>, last: K, k: K)
    ensures
        positions_of(keys.push(last), k) == if last == k {
            positions_of(keys, k).push(keys.len() as usize)
        } else {
            positions_of(keys, k)
        },
{
    assert(keys.push(last).drop_last() =~= keys);
}

/// What `distinct_keys` gives after one more key.
pub proof fn lemma_distinct_push<K>(keys: Seq<K>, last: K)
    ensures
        distinct_keys(keys.push(last)) == if keys.contains(last) {
            distinct_keys(keys)
        } else {
            distinct_keys(keys).push(last)
        },
{
    assert(keys.push(last).drop_last() =~= keys);
}

/// A position is listed for `k` exactly if it holds `k`; the list is
/// strictly ascending.
pub proof fn lemma_positions_of<K>(keys: Seq<K>, k: K)
    requires
        keys.len() <= usize::MAX,
    ensures
        positions_of(keys, k).len() <= keys.len(),
        forall|i: int|
            0 <= i < positions_of(keys, k).len() ==> {
                &&& (#[trigger] positions_of(keys, k)[i]) < keys.len()
                &&& keys[positions_of(keys, k)[i] as int] == k
            },
        forall|i: int, j: int|
            0 <= i < j < positions_of(keys, k).len() ==> positions_of(keys, k)[i] < positions_of(
                keys,
                k,
            )[j],
        forall|p: int|
            0 <= p < keys.len() && keys[p] == k ==> positions_of(keys, k).contains(p as usize),
        keys.contains(k) <==> positions_of(keys, k).len() > 0,
    decreases keys.len(),
{
    if keys.len() > 0 {
        let init = keys.drop_last();
        lemma_positions_of(init, k);
        let before = positions_of(init, k);
        let now = positions_of(keys, k);
        assert forall|p: int| 0 <= p < keys.len() && keys[p] == k implies now.contains(
            p as usize,
        ) by {
            if p < keys.len() - 1 {
                assert(init[p] == k);
                let i = choose|i: int| 0 <= i < before.len() && before[i] == p as usize;
                assert(now[i] == p as usize);
            } else {
                assert(now[now.len() - 1] == p as usize);
            }
        }
        if keys.contains(k) {
            let p = choose|p: int| 0 <= p < keys.len() && keys[p] == k;
            assert(now.contains(p as usize));
        }
        if now.len() > 0 {
            assert(keys[now[0] as int] == k);
        }
    }
}

/// The distinct keys hold exactly the keys that occur, and none twice.
pub proof fn lemma_distinct_keys<K>(keys: Seq<K>)
    ensures
        distinct_keys(keys).no_duplicates(),
        distinct_keys(keys).len() <= keys.len(),
        forall|k: K| #[trigger] distinct_keys(keys).contains(k) ==> keys.contains(k),
        forall|k: K| #[trigger] keys.contains(k) ==> distinct_keys(keys).contains(k),
    decreases keys.len(),
{
    if keys.len() > 0 {
        let init = keys.drop_last();
        lemma_distinct_keys(init);
        let before = distinct_keys(init);
        let now = distinct_keys(keys);
        assert forall|i: int, j: int| 0 <= i < j < now.len() implies now[i] != now[j] by {
            if j == before.len() && now[i] == now[j] {
                assert(before[i] == keys.last());
                assert(before.contains(keys.last()));
                assert(init.contains(keys.last()));
            }
        }
        assert forall|k: K| #[trigger] now.contains(k) implies keys.contains(k) by {
            if now.contains(k) {
                let i = choose|i: int| 0 <= i < now.len() && now[i] == k;
                if i < before.len() {
                    assert(before[i] == k);
                    assert(before.contains(k));
                    assert(init.contains(k));
                    let p = choose|p: int| 0 <= p < init.len() && init[p] == k;
                    assert(keys[p] == k);
                } else {
                    assert(keys[keys.len() - 1] == k);
                }
            }
        }
        assert forall|k: K| #[trigger] keys.contains(k) implies now.contains(k) by {
            if keys.contains(k) {
                let p = choose|p: int| 0 <= p < keys.len() && keys[p] == k;
                if p < init.len() {
                    assert(init[p] == k);
                    assert(init.contains(k));
                    assert(before.contains(k));
                    let i = choose|i: int| 0 <= i < before.len() && before[i] == k;
                    assert(now[i] == k);
                } else if init.contains(k) {
                    assert(before.contains(k));
                    let i = choose|i: int| 0 <= i < before.len() && before[i] == k;
                    assert(now[i] == k);
                } else {
                    assert(now[now.len() - 1] == k);
                }
            }
        }
    }
}

/// What `classes` gives after one more key: the new position joins the
/// class of its key, or opens a class of its own behind the others.
pub proof fn lemma_classes_push<K>(keys: Seq<K>, last: K)
    ensures
        keys.contains(last) ==> {
            let slot = distinct_keys(keys).index_of(last);
            &&& 0 <= slot < classes(keys).len()
            &&& distinct_keys(keys)[slot] == last
            &&& classes(keys.push(last)) == classes(keys).update(
                slot,
                classes(keys)[slot].push(keys.len() as usize),
            )
        },
        !keys.contains(last) ==> classes(keys.push(last)) == classes(keys).push(
            seq![keys.len() as usize],
        ),
{
    let grown = keys.push(last);
    let names = distinct_keys(keys);
    lemma_distinct_keys(keys);
    lemma_distinct_push(keys, last);
    assert forall|k: K|
        positions_of(grown, k) == if last == k {
            positions_of(keys, k).push(keys.len() as usize)
        } else {
            positions_of(keys, k)
        } by {
        lemma_positions_push(keys, last, k);
    }
    if keys.contains(last) {
        assert(names.contains(last));
        let slot = names.index_of(last);
        assert(classes(grown) =~= classes(keys).update(
            slot,
            classes(keys)[slot].push(keys.len() as usize),
        ));
    } else {
        lemma_positions_empty(keys, last);
        assert(positions_of(grown, last) =~= seq![keys.len() as usize]);
        assert forall|j: int| 0 <= j < names.len() implies names[j] != last by {
            if names[j] == last {
                assert(names.contains(last));
            }
        }
        assert(classes(grown) =~= classes(keys).push(seq![keys.len() as usize]));
    }
}

/// A key that does not occur has no positions.
pub proof fn lemma_positions_empty<K>(keys: Seq<K>, k: K)
    requires
        !keys.contains(k),
    ensures
        positions_of(keys, k) == Seq::<usize>::empty(),
    decreases keys.len(),
{
    if keys.len() > 0 {
        assert(keys[keys.len() - 1] != k);
        assert forall|i: int| 0 <= i < keys.drop_last().len() implies keys.drop_last()[i] != k by {
            assert(keys[i] != k);
        }
        lemma_positions_empty(keys.drop_last(), k);
    }
}

/// The classes that a vector of position lists stands for.
pub open spec fn class_views(groups: Seq<Vec<usize>>) -> Seq<Seq<usize>> {
    groups.map_values(|g: Vec<usize>| g@)
}

/// Groups the positions of `codes` by the code found there: one list per
/// distinct code, in order of first occurrence, each list ascending.
pub fn group_positions(codes: &Vec<u128>) -> (groups: Vec<Vec<usize>>)
    ensures
        class_views(groups@) == classes(codes@),
{
    let mut slot_of: HashMap<u128, usize> = HashMap::new();
    let mut groups: Vec<Vec<usize>> = Vec::new();
    let mut i: usize = 0;
    while i < codes.len()
        invariant
            i <= codes.len(),
            class_views(groups@) == classes(codes@.take(i as int)),
            forall|k: u128| #[trigger]
                slot_of@.contains_key(k) <==> codes@.take(i as int).contains(k),
            forall|k: u128| #[trigger]
                slot_of@.contains_key(k) ==> slot_of@[k] == distinct_keys(
                    codes@.take(i as int),
                ).index_of(k),
        decreases codes.len() - i,
    {
        let code = codes[i];
        let ghost seen = codes@.take(i as int);
        proof {
            assert(codes@.take(i + 1) =~= seen.push(code));
            lemma_classes_push(seen, code);
            lemma_distinct_keys(seen);
            lemma_distinct_push(seen, code);
        }
        match slot_of.get(&code) {
            Some(slot) => {
                let slot: usize = *slot;
                groups[slot].push(i);
                proof {
                    assert(class_views(groups@) =~= classes(seen.push(code)));
                }
            },
            None => {
                let slot: usize = groups.len();
                let mut group: Vec<usize> = Vec::new();
                group.push(i);
                groups.push(group);
                slot_of.insert(code, slot);
                proof {
                    assert(class_views(groups@) =~= classes(seen.push(code)));
                    let names = distinct_keys(seen.push(code));
                    assert(names[slot as int] == code);
                    lemma_distinct_keys(seen.push(code));
                }
            },
        }
        i += 1;
    }
    proof {
        assert(codes@.take(i as int) =~= codes@);
    }
    groups
}

/// The sum of `w` over the listed positions; a position listed twice counts
/// twice.
pub open spec fn weigh(positions: Seq<usize>, w: spec_fn(usize) -> nat) -> nat
    decreases positions.len(),
{
    if positions.len() == 0 {
        0
    } else {
        weigh(positions.drop_last(), w) + w(positions.last())
    }
}

/// The sum of `w` over the positions below `n`.
pub open spec fn weigh_below(n: nat, w: spec_fn(usize) -> nat) -> nat
    decreases n,
{
    if n == 0 {
        0
    } else {
        weigh_below((n - 1) as nat, w) + w((n - 1) as usize)
    }
}

/// Weighing a concatenation adds the weights of its parts.
pub proof fn lemma_weigh_add(a: Seq<usize>, b: Seq<usize>, w: spec_fn(usize) -> nat)
    ensures
        weigh(a + b, w) == weigh(a, w) + weigh(b, w),
    decreases b.len(),
{
    if b.len() == 0 {
        assert(a + b =~= a);
    } else {
        assert((a + b).drop_last() =~= a + b.drop_last());
        lemma_weigh_add(a, b.drop_last(), w);
    }
}

/// With every position weighing one, the weight is the length.
pub proof fn lemma_weigh_unit(positions: Seq<usize>)
    ensures
        weigh(positions, |p: usize| 1nat) == positions.len(),
    decreases positions.len(),
{
    if positions.len() > 0 {
        lemma_weigh_unit(positions.drop_last());
    }
}

/// With every position weighing one, the positions below `n` weigh `n`.
pub proof fn lemma_weigh_below_unit(n: nat)
    ensures
        weigh_below(n, |p: usize| 1nat) == n,
    decreases n,
{
    if n > 0 {
        lemma_weigh_below_unit((n - 1) as nat);
    }
}

/// One more member in one class adds its weight to that of all members.
proof fn lemma_weigh_member_added(
    cs: Seq<Seq<usize>>,
    slot: int,
    member: usize,
    w: spec_fn(usize) -> nat,
)
    requires
        0 <= slot < cs.len(),
    ensures
        weigh(cs.update(slot, cs[slot].push(member)).flatten(), w) == weigh(cs.flatten(), w) + w(
            member,
        ),
    decreases cs.len(),
{
    let grown = cs.update(slot, cs[slot].push(member));
    let init = cs.drop_last();
    assert(init.push(cs.last()) =~= cs);
    init.lemma_flatten_push(cs.last());
    lemma_weigh_add(init.flatten(), cs.last(), w);
    if slot == cs.len() - 1 {
        assert(init.push(cs.last().push(member)) =~= grown);
        init.lemma_flatten_push(cs.last().push(member));
        lemma_weigh_add(init.flatten(), cs.last().push(member), w);
        assert(cs.last().push(member).drop_last() =~= cs.last());
    } else {
        let grown_init = init.update(slot, init[slot].push(member));
        assert(grown_init.push(cs.last()) =~= grown);
        grown_init.lemma_flatten_push(cs.last());
        lemma_weigh_add(grown_init.flatten(), cs.last(), w);
        lemma_weigh_member_added(init, slot, member, w);
    }
}

/// The classes hold every position once: together their members weigh what
/// all positions weigh.
pub proof fn lemma_classes_weigh_all<K>(keys: Seq<K>, w: spec_fn(usize) -> nat)
    ensures
        weigh(classes(keys).flatten(), w) == weigh_below(keys.len(), w),
    decreases keys.len(),
{
    if keys.len() == 0 {
        assert(classes(keys) =~= Seq::<Seq<usize>>::empty());
    } else {
        let init = keys.drop_last();
        let last = keys.last();
        assert(init.push(last) =~= keys);
        lemma_classes_weigh_all(init, w);
        lemma_classes_push(init, last);
        if init.contains(last) {
            let slot = distinct_keys(init).index_of(last);
            lemma_weigh_member_added(classes(init), slot, init.len() as usize, w);
        } else {
            let single = seq![init.len() as usize];
            classes(init).lemma_flatten_push(single);
            lemma_weigh_add(classes(init).flatten(), single, w);
            assert(single.drop_last() =~= Seq::<usize>::empty());
            assert(weigh(single.drop_last(), w) == 0);
        }
    }
}

/// Leaving classes out cannot add weight.
pub proof fn lemma_filter_weighs_less(
    cs: Seq<Seq<usize>>,
    keep: spec_fn(Seq<usize>) -> bool,
    w: spec_fn(usize) -> nat,
)
    ensures
        weigh(cs.filter(keep).flatten(), w) <= weigh(cs.flatten(), w),
    decreases cs.len(),
{
    if cs.len() == 0 {
        assert(cs.filter(keep) =~= cs) by {
            reveal(Seq::filter);
        }
    } else {
        let init = cs.drop_last();
        assert(init.push(cs.last()) =~= cs);
        lemma_filter_weighs_less(init, keep, w);
        init.lemma_filter_push(cs.last(), keep);
        init.lemma_flatten_push(cs.last());
        lemma_weigh_add(init.flatten(), cs.last(), w);
        if keep(cs.last()) {
            init.filter(keep).lemma_flatten_push(cs.last());
            lemma_weigh_add(init.filter(keep).flatten(), cs.last(), w);
        }
    }
}

/// The positions with a peer weigh no more than all positions do; in
/// particular there are no more of them than there are positions.
pub proof fn lemma_peers_weigh_less<K>(keys: Seq<K>, w: spec_fn(usize) -> nat)
    ensures
        weigh(peers(keys), w) <= weigh_below(keys.len(), w),
        peers(keys).len() <= keys.len(),
{
    lemma_classes_weigh_all(keys, w);
    lemma_filter_weighs_less(classes(keys), |c: Seq<usize>| is_crowded(c), w);
    let unit = |p: usize| 1nat;
    lemma_classes_weigh_all(keys, unit);
    lemma_filter_weighs_less(classes(keys), |c: Seq<usize>| is_crowded(c), unit);
    lemma_weigh_unit(peers(keys));
    lemma_weigh_below_unit(keys.len());
}

/// A value lies in a flattened sequence exactly if one of the parts holds it.
pub proof fn lemma_flatten_contains<A>(cs: Seq<Seq<A>>, x: A)
    ensures
        cs.flatten().contains(x) <==> exists|j: int|
            0 <= j < cs.len() && #[trigger] cs[j].contains(x),
    decreases cs.len(),
{
    if cs.len() > 0 {
        let init = cs.drop_last();
        let last = cs.last();
        assert(init.push(last) =~= cs);
        init.lemma_flatten_push(last);
        lemma_flatten_contains(init, x);
        let flat = cs.flatten();
        if flat.contains(x) {
            let i = choose|i: int| 0 <= i < flat.len() && flat[i] == x;
            if i < init.flatten().len() {
                assert(init.flatten()[i] == x);
                assert(init.flatten().contains(x));
                let j = choose|j: int| 0 <= j < init.len() && #[trigger] init[j].contains(x);
                assert(cs[j].contains(x));
            } else {
                assert(last[i - init.flatten().len()] == x);
                assert(cs[cs.len() - 1].contains(x));
            }
        }
        if exists|j: int| 0 <= j < cs.len() && #[trigger] cs[j].contains(x) {
            let j = choose|j: int| 0 <= j < cs.len() && #[trigger] cs[j].contains(x);
            if j < init.len() {
                assert(init[j].contains(x));
                assert(init.flatten().contains(x));
                let i = choose|i: int| 0 <= i < init.flatten().len() && init.flatten()[i] == x;
                assert(flat[i] == x);
            } else {
                let m = choose|m: int| 0 <= m < last.len() && last[m] == x;
                assert(flat[init.flatten().len() + m] == x);
            }
        }
    }
}

/// Each crowded class lists, in ascending order, all positions that hold one
/// key, and that key occurs at least twice.
pub proof fn lemma_crowded_classes<K>(keys: Seq<K>, g: int)
    requires
        keys.len() <= usize::MAX,
        0 <= g < crowded_classes(keys).len(),
    ensures
        crowded_classes(keys)[g].len() >= 2,
        crowded_classes(keys)[g][0] < keys.len(),
        crowded_classes(keys)[g] == positions_of(keys, keys[crowded_classes(keys)[g][0] as int]),
{
    broadcast use vstd::seq_lib::group_filter_ensures;

    let keep = |c: Seq<usize>| is_crowded(c);
    let class = crowded_classes(keys)[g];
    assert(keep(class));
    assert(crowded_classes(keys).contains(class));
    classes(keys).lemma_filter_contains_rev(keep, class);
    let j = choose|j: int| 0 <= j < classes(keys).len() && classes(keys)[j] == class;
    let k = distinct_keys(keys)[j];
    lemma_positions_of(keys, k);
    assert(keys[class[0] as int] == k);
}

/// A position has a peer exactly if another position holds the same key.
pub proof fn lemma_peers_contains<K>(keys: Seq<K>, p: usize)
    requires
        keys.len() <= usize::MAX,
    ensures
        peers(keys).contains(p) <==> p < keys.len() && exists|q: int|
            0 <= q < keys.len() && q != p && #[trigger] keys[q] == keys[p as int],
{
    broadcast use vstd::seq_lib::group_filter_ensures;

    let keep = |c: Seq<usize>| is_crowded(c);
    let crowded = crowded_classes(keys);
    lemma_flatten_contains(crowded, p);
    lemma_distinct_keys(keys);
    if peers(keys).contains(p) {
        let g = choose|g: int| 0 <= g < crowded.len() && #[trigger] crowded[g].contains(p);
        let class = crowded[g];
        lemma_crowded_classes(keys, g);
        let k = keys[class[0] as int];
        lemma_positions_of(keys, k);
        let m = choose|m: int| 0 <= m < class.len() && class[m] == p;
        let other = if m == 0 {
            1int
        } else {
            0int
        };
        let q = class[other] as int;
        assert(keys[q] == keys[p as int]);
    }
    if p < keys.len() && exists|q: int|
        0 <= q < keys.len() && q != p && #[trigger] keys[q] == keys[p as int] {
        let q = choose|q: int|
            0 <= q < keys.len() && q != p && #[trigger] keys[q] == keys[p as int];
        let k = keys[p as int];
        lemma_positions_of(keys, k);
        let class = positions_of(keys, k);
        assert(class.contains(p));
        assert(class.contains(q as usize));
        let m = choose|m: int| 0 <= m < class.len() && class[m] == p;
        let n = choose|n: int| 0 <= n < class.len() && class[n] == q as usize;
        assert(m != n);
        assert(keys.contains(k));
        assert(distinct_keys(keys).contains(k));
        let j = choose|j: int| 0 <= j < distinct_keys(keys).len() && distinct_keys(keys)[j] == k;
        assert(classes(keys)[j] == class);
        assert(keep(classes(keys)[j]));
        assert(crowded.contains(classes(keys)[j]));
        let g = choose|g: int| 0 <= g < crowded.len() && crowded[g] == class;
        assert(crowded[g].contains(p));
    }
}

/// Two sequences that hold equal entries at the same pairs of positions
/// have the same classes, whatever the entries are.
pub proof fn lemma_classes_of_codes<K, C>(keys: Seq<K>, codes: Seq<C>)
    requires
        keys.len() == codes.len(),
        keys.len() <= usize::MAX,
        forall|i: int, j: int|
            0 <= i < keys.len() && 0 <= j < keys.len() ==> ((keys[i] == keys[j]) <==> (codes[i]
                == codes[j])),
    ensures
        classes(keys) == classes(codes),
    decreases keys.len(),
{
    if keys.len() == 0 {
        assert(classes(keys) =~= classes(codes));
    } else {
        let n = keys.len() - 1;
        let keys0 = keys.drop_last();
        let codes0 = codes.drop_last();
        assert(keys0.push(keys[n]) =~= keys);
        assert(codes0.push(codes[n]) =~= codes);
        assert forall|i: int, j: int| 0 <= i < keys0.len() && 0 <= j < keys0.len() implies ((
        keys0[i] == keys0[j]) <==> (codes0[i] == codes0[j])) by {
            assert(keys0[i] == keys[i] && keys0[j] == keys[j]);
            assert(codes0[i] == codes[i] && codes0[j] == codes[j]);
        }
        lemma_classes_of_codes(keys0, codes0);
        lemma_classes_push(keys0, keys[n]);
        lemma_classes_push(codes0, codes[n]);
        if keys0.contains(keys[n]) {
            let i = choose|i: int| 0 <= i < keys0.len() && keys0[i] == keys[n];
            assert(keys[i] == keys[n]);
            assert(codes0[i] == codes[n]);
            assert(codes0.contains(codes[n]));
            let slot_k = distinct_keys(keys0).index_of(keys[n]);
            let slot_c = distinct_keys(codes0).index_of(codes[n]);
            lemma_positions_of(keys0, keys[n]);
            assert(classes(keys0)[slot_k].contains(i as usize));
            let m = choose|m: int|
                0 <= m < classes(keys0)[slot_k].len() && classes(keys0)[slot_k][m] == i as usize;
            let code_k = distinct_keys(codes0)[slot_k];
            lemma_positions_of(codes0, code_k);
            assert(classes(codes0)[slot_k][m] == i as usize);
            assert(codes0[i] == code_k);
            lemma_distinct_keys(codes0);
            assert(slot_k == slot_c);
        } else {
            if codes0.contains(codes[n]) {
                let i = choose|i: int| 0 <= i < codes0.len() && codes0[i] == codes[n];
                assert(codes[i] == codes[n]);
                assert(keys0[i] == keys[n]);
            }
        }
    }
}

/// Every position lies in a class, the class of its key. The index of that
/// class is returned.
pub proof fn lemma_classes_cover<K>(keys: Seq<K>, p: usize) -> (j: int)
    requires
        keys.len() <= usize::MAX,
        p < keys.len(),
    ensures
        0 <= j < classes(keys).len(),
        classes(keys)[j] == positions_of(keys, keys[p as int]),
        classes(keys)[j].contains(p),
{
    let k = keys[p as int];
    lemma_distinct_keys(keys);
    assert(keys.contains(k));
    assert(distinct_keys(keys).contains(k));
    lemma_positions_of(keys, k);
    choose|j: int| 0 <= j < distinct_keys(keys).len() && distinct_keys(keys)[j] == k
}

/// No position lies in two classes, and no class is listed twice.
pub proof fn lemma_classes_disjoint<K>(keys: Seq<K>)
    requires
        keys.len() <= usize::MAX,
    ensures
        classes(keys).no_duplicates(),
        forall|a: int, b: int, x: usize|
            0 <= a < classes(keys).len() && 0 <= b < classes(keys).len() && a != b ==> !(
            #[trigger] classes(keys)[a].contains(x) && #[trigger] classes(keys)[b].contains(x)),
{
    let names = distinct_keys(keys);
    lemma_distinct_keys(keys);
    assert forall|a: int, b: int, x: usize|
        0 <= a < classes(keys).len() && 0 <= b < classes(keys).len() && a != b implies !(
        #[trigger] classes(keys)[a].contains(x) && #[trigger] classes(keys)[b].contains(x)) by {
        if classes(keys)[a].contains(x) && classes(keys)[b].contains(x) {
            lemma_positions_of(keys, names[a]);
            lemma_positions_of(keys, names[b]);
            let i = choose|i: int| 0 <= i < classes(keys)[a].len() && classes(keys)[a][i] == x;
            let j = choose|j: int| 0 <= j < classes(keys)[b].len() && classes(keys)[b][j] == x;
            assert(keys[positions_of(keys, names[a])[i] as int] == names[a]);
            assert(keys[positions_of(keys, names[b])[j] as int] == names[b]);
        }
    }
    assert forall|a: int, b: int|
        0 <= a < classes(keys).len() && 0 <= b < classes(keys).len() && a != b implies classes(
        keys,
    )[a] != classes(keys)[b] by {
        lemma_positions_of(keys, names[a]);
        assert(names.contains(names[a]));
        assert(keys.contains(names[a]));
        let x = classes(keys)[a][0];
        assert(classes(keys)[a].contains(x));
        if classes(keys)[a] == classes(keys)[b] {
            assert(classes(keys)[b].contains(x));
        }
    }
}

/// Filtering a list without repetitions leaves none.
pub proof fn lemma_filter_no_duplicates<A>(s: Seq<A>, keep: spec_fn(A) -> bool)
    requires
        s.no_duplicates(),
    ensures
        s.filter(keep).no_duplicates(),
    decreases s.len(),
{
    if s.len() == 0 {
        assert(s.filter(keep) =~= s) by {
            reveal(Seq::filter);
        }
    } else {
        let init = s.drop_last();
        assert(init.push(s.last()) =~= s);
        lemma_filter_no_duplicates(init, keep);
        init.lemma_filter_push(s.last(), keep);
        if keep(s.last()) && init.filter(keep).contains(s.last()) {
            init.lemma_filter_contains_rev(keep, s.last());
            let i = choose|i: int| 0 <= i < init.len() && init[i] == s.last();
            assert(s[i] == s[s.len() - 1]);
        }
    }
}

/// Flattening parts that repeat nothing and share nothing repeats nothing.
pub proof fn lemma_flatten_no_duplicates<A>(cs: Seq<Seq<A>>)
    requires
        forall|j: int| 0 <= j < cs.len() ==> (#[trigger] cs[j]).no_duplicates(),
        forall|a: int, b: int, x: A|
            0 <= a < cs.len() && 0 <= b < cs.len() && a != b ==> !(#[trigger] cs[a].contains(x)
                && #[trigger] cs[b].contains(x)),
    ensures
        cs.flatten().no_duplicates(),
    decreases cs.len(),
{
    if cs.len() > 0 {
        let init = cs.drop_last();
        let last = cs.last();
        assert(init.push(last) =~= cs);
        init.lemma_flatten_push(last);
        assert forall|j: int| 0 <= j < init.len() implies (#[trigger] init[j]).no_duplicates() by {
            assert(cs[j].no_duplicates());
        }
        assert forall|a: int, b: int, x: A|
            0 <= a < init.len() && 0 <= b < init.len() && a != b implies !(
        #[trigger] init[a].contains(x) && #[trigger] init[b].contains(x)) by {
            assert(!(cs[a].contains(x) && cs[b].contains(x)));
        }
        lemma_flatten_no_duplicates(init);
        assert forall|i: int, j: int|
            0 <= i < init.flatten().len() && 0 <= j < last.len() implies init.flatten()[i]
            != last[j] by {
            let x = last[j];
            if init.flatten()[i] == x {
                assert(init.flatten().contains(x));
                lemma_flatten_contains(init, x);
                let a = choose|a: int| 0 <= a < init.len() && #[trigger] init[a].contains(x);
                assert(cs[a].contains(x));
                assert(cs[cs.len() - 1].contains(x));
            }
        }
        assert(cs[cs.len() - 1].no_duplicates());
        vstd::seq_lib::lemma_no_dup_in_concat(init.flatten(), last);
    }
}

/// Every crowded class is one of the classes; no two of them share a
/// position or a key, and none lists a position twice.
pub proof fn lemma_crowded_disjoint<K>(keys: Seq<K>)
    requires
        keys.len() <= usize::MAX,
    ensures
        crowded_classes(keys).no_duplicates(),
        forall|g: int|
            0 <= g < crowded_classes(keys).len() ==> (#[trigger] crowded_classes(
                keys,
            )[g]).no_duplicates(),
        forall|a: int, b: int, x: usize|
            0 <= a < crowded_classes(keys).len() && 0 <= b < crowded_classes(keys).len() && a != b
                ==> !(#[trigger] crowded_classes(keys)[a].contains(x)
                && #[trigger] crowded_classes(keys)[b].contains(x)),
        forall|a: int, b: int|
            0 <= a < crowded_classes(keys).len() && 0 <= b < crowded_classes(keys).len() && a != b
                ==> keys[(#[trigger] crowded_classes(keys)[a])[0] as int] != keys[(
            #[trigger] crowded_classes(keys)[b])[0] as int],
{
    let crowded = crowded_classes(keys);
    lemma_classes_disjoint(keys);
    lemma_filter_no_duplicates(classes(keys), |c: Seq<usize>| is_crowded(c));
    assert forall|g: int| 0 <= g < crowded.len() implies (
    #[trigger] crowded[g]).no_duplicates() by {
        lemma_crowded_classes(keys, g);
        lemma_positions_of(keys, keys[crowded[g][0] as int]);
    }
    assert forall|a: int, b: int|
        0 <= a < crowded.len() && 0 <= b < crowded.len() && a != b implies keys[(
    #[trigger] crowded[a])[0] as int] != keys[(#[trigger] crowded[b])[0] as int] by {
        lemma_crowded_classes(keys, a);
        lemma_crowded_classes(keys, b);
    }
    assert forall|a: int, b: int, x: usize|
        0 <= a < crowded.len() && 0 <= b < crowded.len() && a != b implies !(
    #[trigger] crowded[a].contains(x) && #[trigger] crowded[b].contains(x)) by {
        if crowded[a].contains(x) && crowded[b].contains(x) {
            lemma_crowded_classes(keys, a);
            lemma_crowded_classes(keys, b);
            let ka = keys[crowded[a][0] as int];
            let kb = keys[crowded[b][0] as int];
            lemma_positions_of(keys, ka);
            lemma_positions_of(keys, kb);
            let i = choose|i: int| 0 <= i < crowded[a].len() && crowded[a][i] == x;
            let j = choose|j: int| 0 <= j < crowded[b].len() && crowded[b][j] == x;
            assert(keys[positions_of(keys, ka)[i] as int] == ka);
            assert(keys[positions_of(keys, kb)[j] as int] == kb);
        }
    }
}

/// No position is listed twice among the positions with a peer.
pub proof fn lemma_peers_no_duplicates<K>(keys: Seq<K>)
    requires
        keys.len() <= usize::MAX,
    ensures
        peers(keys).no_duplicates(),
{
    lemma_crowded_disjoint(keys);
    lemma_flatten_no_duplicates(crowded_classes(keys));
}

} // verus!
