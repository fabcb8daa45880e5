//! Grouping of keyed items into batches, one batch for each key.
use vstd::prelude::*;

verus! {

/// The items of `flat` that stand under `key`, in order.
pub open spec fn items_of<T>(flat: Seq<(u64, T)>, key: u64) -> Seq<T>
    decreases flat.len(),
{
    if flat.len() == 0 {
        Seq::empty()
    } else if flat.last().0 == key {
        items_of(flat.drop_last(), key).push(flat.last().1)
    } else {
        items_of(flat.drop_last(), key)
    }
}

/// Whether `groups` holds, in ascending order of the keys, one group for
/// each key of `flat`, with the items of that key in the order of `flat`.
pub open spec fn is_grouping<T>(groups: Seq<(u64, Vec<T>)>, flat: Seq<(u64, T)>) -> bool {
    &&& forall|a: int, b: int|
        0 <= a < b < groups.len() ==> (#[trigger] groups[a]).0 < (#[trigger] groups[b]).0
    &&& forall|k: int|
        0 <= k < groups.len() ==> (#[trigger] groups[k]).1@ == items_of(flat, groups[k].0)
            && groups[k].1@.len() > 0
    &&& forall|i: int|
        0 <= i < flat.len() ==> exists|k: int|
            0 <= k < groups.len() && (#[trigger] groups[k]).0 == (#[trigger] flat[i]).0
}

/// One more item joins the items of its key and of no other.
pub proof fn lemma_items_of_push<T>(flat: Seq<(u64, T)>, item: (u64, T), key: u64)
    ensures
        items_of(flat.push(item), key) == if item.0 == key {
            items_of(flat, key).push(item.1)
        } else {
            items_of(flat, key)
        },
{
    assert(flat.push(item).drop_last() =~= flat);
}

/// A key that no item stands under has no items.
pub proof fn lemma_items_of_absent<T>(flat: Seq<(u64, T)>, key: u64)
    requires
        forall|i: int| 0 <= i < flat.len() ==> (#[trigger] flat[i]).0 != key,
    ensures
        items_of(flat, key) == Seq::<T>::empty(),
    decreases flat.len(),
{
    if flat.len() > 0 {
        assert(flat.last() == flat[flat.len() - 1]);
        assert forall|i: int| 0 <= i < flat.drop_last().len() implies (#[trigger] flat.drop_last()[i]).0
            != key by {
            assert(flat.drop_last()[i] == flat[i]);
        }
        lemma_items_of_absent(flat.drop_last(), key);
    }
}

/// The items of a key are the items of `flat` under that key.
pub proof fn lemma_items_of_contains<T>(flat: Seq<(u64, T)>, key: u64, v: T)
    ensures
        items_of(flat, key).contains(v) <==> flat.contains((key, v)),
    decreases flat.len(),
{
    if flat.len() > 0 {
        let rest = flat.drop_last();
        lemma_items_of_contains(rest, key, v);
        assert(flat.last() == flat[flat.len() - 1]);
        if items_of(flat, key).contains(v) {
            let r = items_of(rest, key);
            if flat.last().0 == key {
                let i = choose|i: int| 0 <= i < r.push(flat.last().1).len() && r.push(
                    flat.last().1,
                )[i] == v;
                if i < r.len() {
                    assert(r[i] == v);
                    assert(r.contains(v));
                }
            }
            if rest.contains((key, v)) {
                let i = choose|i: int| 0 <= i < rest.len() && rest[i] == (key, v);
                assert(flat[i] == (key, v));
            }
        }
        if flat.contains((key, v)) {
            let i = choose|i: int| 0 <= i < flat.len() && flat[i] == (key, v);
            if i < rest.len() {
                assert(rest[i] == (key, v));
                assert(rest.contains((key, v)));
                let r = items_of(rest, key);
                let j = choose|j: int| 0 <= j < r.len() && r[j] == v;
                if flat.last().0 == key {
                    assert(r.push(flat.last().1)[j] == v);
                }
            } else {
                let r = items_of(rest, key);
                assert(r.push(v)[r.len() as int] == v);
            }
        }
    }
}

/// Grouping and mapping commute: where `mapped` holds the items of `flat`
/// with `f` applied to each, under the same keys, the items of a key in
/// `mapped` are those in `flat` with `f` applied to each.
pub proof fn lemma_items_of_map<A, B>(
    flat: Seq<(u64, A)>,
    mapped: Seq<(u64, B)>,
    f: spec_fn(A) -> B,
    key: u64,
)
    requires
        mapped.len() == flat.len(),
        forall|i: int|
            0 <= i < flat.len() ==> (#[trigger] mapped[i]).0 == flat[i].0 && mapped[i].1 == f(
                flat[i].1,
            ),
    ensures
        items_of(mapped, key) == items_of(flat, key).map_values(f),
    decreases flat.len(),
{
    if flat.len() > 0 {
        assert(mapped.last().0 == flat.last().0 && mapped.last().1 == f(flat.last().1)) by {
            assert(mapped[mapped.len() - 1].0 == flat[flat.len() - 1].0);
        }
        assert forall|i: int| 0 <= i < flat.drop_last().len() implies (#[trigger] mapped.drop_last()[i]).0
            == flat.drop_last()[i].0 && mapped.drop_last()[i].1 == f(flat.drop_last()[i].1) by {
            assert(mapped[i].0 == flat[i].0);
        }
        lemma_items_of_map(flat.drop_last(), mapped.drop_last(), f, key);
    }
    assert(items_of(mapped, key) =~= items_of(flat, key).map_values(f));
}

/// Groups the items of `flat` by key. The groups come in ascending order of
/// the keys, and each holds the items of its key in the order of `flat`.
pub fn group_by_key<T>(flat: Vec<(u64, T)>) -> (groups: Vec<(u64, Vec<T>)>)
    ensures
        is_grouping(groups@, flat@),
{
    let mut groups: Vec<(u64, Vec<T>)> = Vec::new();
    let ghost all = flat@;
    for item in it: flat.into_iter()
        invariant
            it.seq() == all,
            is_grouping(groups@, all.take(it.index())),
    {
        let ghost done = all.take(it.index());
        let ghost before = groups@;
        let (key, value) = item;
        proof {
            assert(all.take(it.index() + 1) =~= done.push((key, value)));
        }
        let mut p: usize = 0;
        while p < groups.len() && groups[p].0 < key
            invariant
                p <= groups@.len(),
                forall|k: int| 0 <= k < p ==> (#[trigger] groups@[k]).0 < key,
            decreases groups@.len() - p,
        {
            p = p + 1;
        }
        if p < groups.len() && groups[p].0 == key {
            let (k, mut items) = groups.remove(p);
            items.push(value);
            groups.insert(p, (k, items));
            proof {
                let next = done.push((key, value));
                assert(groups@ =~= before.update(p as int, (key, items)));
                assert forall|k: int| 0 <= k < groups@.len() implies (#[trigger] groups@[k]).1@
                    == items_of(next, groups@[k].0) && groups@[k].1@.len() > 0 by {
                    lemma_items_of_push(done, (key, value), groups@[k].0);
                    if k != p {
                        assert(groups@[k] == before[k]);
                        if k < p {
                            assert(before[k].0 < before[p as int].0);
                        } else {
                            assert(before[p as int].0 < before[k].0);
                        }
                    }
                }
                assert forall|a: int, b: int| 0 <= a < b < groups@.len() implies (#[trigger] groups@[a]).0
                    < (#[trigger] groups@[b]).0 by {
                    assert(groups@[a].0 == before[a].0);
                    assert(groups@[b].0 == before[b].0);
                }
                assert forall|i: int| 0 <= i < next.len() implies exists|k: int|
                    0 <= k < groups@.len() && (#[trigger] groups@[k]).0 == (#[trigger] next[i]).0 by {
                    if i < done.len() {
                        assert(next[i] == done[i]);
                        let k = choose|k: int|
                            0 <= k < before.len() && (#[trigger] before[k]).0 == done[i].0;
                        assert(groups@[k].0 == before[k].0);
                    } else {
                        assert(groups@[p as int].0 == key);
                    }
                }
            }
        } else {
            let mut items: Vec<T> = Vec::new();
            items.push(value);
            groups.insert(p, (key, items));
            proof {
                let next = done.push((key, value));
                assert(groups@ =~= before.insert(p as int, (key, items)));
                assert forall|k: int| 0 <= k < before.len() implies (#[trigger] before[k]).0
                    != key by {
                    if k >= p {
                        if k > p {
                            assert(before[p as int].0 < before[k].0);
                        }
                    }
                }
                assert forall|i: int| 0 <= i < done.len() implies (#[trigger] done[i]).0
                    != key by {
                    let k = choose|k: int|
                        0 <= k < before.len() && (#[trigger] before[k]).0 == done[i].0;
                    assert(before[k].0 != key);
                }
                lemma_items_of_absent(done, key);
                assert forall|k: int| 0 <= k < groups@.len() implies (#[trigger] groups@[k]).1@
                    == items_of(next, groups@[k].0) && groups@[k].1@.len() > 0 by {
                    lemma_items_of_push(done, (key, value), groups@[k].0);
                    if k < p {
                        assert(groups@[k] == before[k]);
                    } else if k > p {
                        assert(groups@[k] == before[k - 1]);
                    } else {
                        assert(items@ =~= Seq::<T>::empty().push(value));
                    }
                }
                assert forall|a: int, b: int| 0 <= a < b < groups@.len() implies (#[trigger] groups@[a]).0
                    < (#[trigger] groups@[b]).0 by {
                    if a < p {
                        assert(groups@[a] == before[a]);
                    } else if a > p {
                        assert(groups@[a] == before[a - 1]);
                    }
                    if b < p {
                        assert(groups@[b] == before[b]);
                    } else if b > p {
                        assert(groups@[b] == before[b - 1]);
                        if a == p {
                            if b - 1 > p {
                                assert(before[p as int].0 < before[b - 1].0);
                            }
                        }
                    }
                }
                assert forall|i: int| 0 <= i < next.len() implies exists|k: int|
                    0 <= k < groups@.len() && (#[trigger] groups@[k]).0 == (#[trigger] next[i]).0 by {
                    if i < done.len() {
                        assert(next[i] == done[i]);
                        let k = choose|k: int|
                            0 <= k < before.len() && (#[trigger] before[k]).0 == done[i].0;
                        if k < p {
                            assert(groups@[k] == before[k]);
                        } else {
                            assert(groups@[k + 1] == before[k]);
                        }
                    } else {
                        assert(groups@[p as int].0 == key);
                    }
                }
            }
        }
    }
    proof {
        assert(all.take(all.len() as int) =~= all);
    }
    groups
}

} // verus!
