//! The read holds of a timeline, and the short-lived read holds of one
//! operation.
use crate::frontier::Frontier;
use crate::grouping::{group_by_key, lemma_items_of_contains};
use crate::holds::{
    compute_pairs_of, held_instances, holds_view, lemma_holds_push, named_instances, HoldEntry,
    HoldsMap, HoldsView,
};
use crate::id_bundle::{CollectionId, CollectionIdBundle, ComputeInstanceId, GlobalId};
use vstd::prelude::*;

verus! {

/// The compute holds that groups by instance stand for.
pub open spec fn grouped_compute(groups: Seq<(u64, Vec<(Frontier, u64)>)>) -> Set<
    (Seq<u64>, (u64, u64)),
> {
    Set::new(
        |p: (Seq<u64>, (u64, u64))|
            exists|k: int, j: int|
                0 <= k < groups.len() && 0 <= j < groups[k].1@.len() && groups[k].0 == p.1.0
                    && (#[trigger] groups[k].1@[j]).0@ == p.0 && groups[k].1@[j].1 == p.1.1,
    )
}

/// Whether the groups come in ascending order of their instances, none is
/// empty, and none names a collection twice.
pub open spec fn groups_wf(groups: Seq<(u64, Vec<(Frontier, u64)>)>) -> bool {
    &&& forall|a: int, b: int|
        0 <= a < b < groups.len() ==> (#[trigger] groups[a]).0 < (#[trigger] groups[b]).0
    &&& forall|k: int| 0 <= k < groups.len() ==> (#[trigger] groups[k]).1@.len() > 0
    &&& forall|k: int, i: int, j: int|
        0 <= k < groups.len() && 0 <= i < groups[k].1@.len() && 0 <= j < groups[k].1@.len() && i
            != j ==> (#[trigger] groups[k].1@[i]).1 != (#[trigger] groups[k].1@[j]).1
    &&& forall|k: int, j: int|
        0 <= k < groups.len() && 0 <= j < groups[k].1@.len() ==> (#[trigger] groups[k].1@[j]).0.wf()
}

/// The compute holds of `holds`, grouped by instance.
pub fn compute_ids_by_instance(holds: &HoldsMap) -> (r: Vec<
    (ComputeInstanceId, Vec<(Frontier, GlobalId)>),
>)
    requires
        holds.wf(),
    ensures
        grouped_compute(r@) == holds@.compute,
        groups_wf(r@),
{
    let list = holds.compute_id_list();
    let mut flat: Vec<(u64, (Frontier, u64))> = Vec::new();
    let mut i: usize = 0;
    while i < list.len()
        invariant
            i <= list@.len(),
            flat@.len() == i,
            forall|k: int|
                0 <= k < i ==> (#[trigger] flat@[k]).0 == list@[k].1.0 && flat@[k].1.0@
                    == list@[k].0@ && flat@[k].1.1 == list@[k].1.1,
        decreases list@.len() - i,
    {
        let (instance, id) = list[i].1;
        flat.push((instance, (list[i].0.clone(), id)));
        i = i + 1;
    }
    let groups = group_by_key(flat);
    proof {
        let pairs = compute_pairs_of(list@);
        assert forall|p: (Seq<u64>, (u64, u64))| grouped_compute(groups@).contains(p)
            <==> holds@.compute.contains(p) by {
            if grouped_compute(groups@).contains(p) {
                let (k, j) = choose|k: int, j: int|
                    0 <= k < groups@.len() && 0 <= j < groups@[k].1@.len() && groups@[k].0
                        == p.1.0 && (#[trigger] groups@[k].1@[j]).0@ == p.0 && groups@[k].1@[j].1
                        == p.1.1;
                let v = groups@[k].1@[j];
                assert(groups@[k].1@.contains(v));
                lemma_items_of_contains(flat@, groups@[k].0, v);
                let n = choose|n: int| 0 <= n < flat@.len() && flat@[n] == (groups@[k].0, v);
                assert(pairs[n] == p);
                assert(pairs.to_set().contains(p));
            }
            if holds@.compute.contains(p) {
                assert(pairs.to_set().contains(p));
                let n = choose|n: int| 0 <= n < pairs.len() && pairs[n] == p;
                let v = flat@[n].1;
                let k = choose|k: int|
                    0 <= k < groups@.len() && (#[trigger] groups@[k]).0 == (#[trigger] flat@[n]).0;
                assert(flat@.contains((groups@[k].0, v))) by {
                    assert(flat@[n] == (groups@[k].0, v));
                }
                lemma_items_of_contains(flat@, groups@[k].0, v);
                let j = choose|j: int| 0 <= j < groups@[k].1@.len() && groups@[k].1@[j] == v;
                assert(groups@[k].1@[j].0@ == p.0);
            }
        }
        assert(grouped_compute(groups@) =~= holds@.compute);
        assert forall|k: int, a: int, b: int|
            0 <= k < groups@.len() && 0 <= a < groups@[k].1@.len() && 0 <= b
                < groups@[k].1@.len() && a != b implies (#[trigger] groups@[k].1@[a]).1
            != (#[trigger] groups@[k].1@[b]).1 by {
            let va = groups@[k].1@[a];
            let vb = groups@[k].1@[b];
            assert(groups@[k].1@.contains(va));
            assert(groups@[k].1@.contains(vb));
            lemma_items_of_contains(flat@, groups@[k].0, va);
            lemma_items_of_contains(flat@, groups@[k].0, vb);
            let na = choose|n: int| 0 <= n < flat@.len() && flat@[n] == (groups@[k].0, va);
            let nb = choose|n: int| 0 <= n < flat@.len() && flat@[n] == (groups@[k].0, vb);
            if va.1 == vb.1 {
                assert(list@[na].1 == list@[nb].1);
                assert(na == nb);
                lemma_items_distinct(flat@, groups@[k].0, a, b);
            }
        }
        assert forall|k: int, j: int|
            0 <= k < groups@.len() && 0 <= j < groups@[k].1@.len() implies (#[trigger] groups@[k].1@[j]).0.wf() by {
            let v = groups@[k].1@[j];
            assert(groups@[k].1@.contains(v));
            lemma_items_of_contains(flat@, groups@[k].0, v);
            let n = choose|n: int| 0 <= n < flat@.len() && flat@[n] == (groups@[k].0, v);
            assert(list@[n].0.wf());
        }
    }
    groups
}

/// Where no two items of `flat` are the same, no two items of one key are.
pub proof fn lemma_items_distinct<T>(flat: Seq<(u64, T)>, key: u64, a: int, b: int)
    requires
        flat.no_duplicates(),
        0 <= a < crate::grouping::items_of(flat, key).len(),
        0 <= b < crate::grouping::items_of(flat, key).len(),
        a != b,
    ensures
        crate::grouping::items_of(flat, key)[a] != crate::grouping::items_of(flat, key)[b],
    decreases flat.len(),
{
    let items = crate::grouping::items_of(flat, key);
    if flat.len() > 0 {
        let rest = flat.drop_last();
        let r = crate::grouping::items_of(rest, key);
        assert(flat.last() == flat[flat.len() - 1]);
        assert forall|i: int, j: int| 0 <= i < rest.len() && 0 <= j < rest.len() && i
            != j implies rest[i] != rest[j] by {
            assert(rest[i] == flat[i] && rest[j] == flat[j]);
        }
        if flat.last().0 == key {
            if a < r.len() && b < r.len() {
                lemma_items_distinct(rest, key, a, b);
            } else {
                let other = if a < r.len() {
                    a
                } else {
                    b
                };
                if items[a] == items[b] {
                    assert(r[other] == flat.last().1);
                    assert(r.contains(flat.last().1));
                    lemma_items_of_contains(rest, key, flat.last().1);
                    let n = choose|n: int| 0 <= n < rest.len() && rest[n] == (key, flat.last().1);
                    assert(flat[n] == flat[flat.len() - 1]);
                }
            }
        } else {
            lemma_items_distinct(rest, key, a, b);
        }
    }
}

/// The read holds of one timeline. They make sure that the collections of
/// the timeline stay readable at its read timestamp, whatever else holds
/// them. Collections join when they are made and leave when they are
/// dropped; the holds move forward with the timeline and are never released.
#[derive(Debug, PartialEq, Eq)]
pub struct TimelineReadHolds {
    pub holds: HoldsMap,
}

impl View for TimelineReadHolds {
    type V = HoldsView;

    open spec fn view(&self) -> HoldsView {
        self.holds@
    }
}

impl TimelineReadHolds {
    /// Each time has one entry, each collection is held at one time, and
    /// no instance is named at a time without a collection held there.
    pub open spec fn wf(&self) -> bool {
        self.holds.wf()
    }

    /// No read holds.
    pub fn new() -> (r: TimelineReadHolds)
        ensures
            r@ == HoldsView::empty(),
            r.wf(),
    {
        TimelineReadHolds { holds: HoldsMap::new() }
    }

    /// Whether nothing is held.
    pub fn is_empty(&self) -> (r: bool)
        ensures
            r == (self.holds.entries@.len() == 0),
            self.wf() ==> r == self@.is_empty(),
    {
        self.holds.is_empty()
    }

    /// The times at which a read hold exists, each once.
    pub fn times(&self) -> (r: Vec<Frontier>)
        ensures
            r@.len() == self.holds.entries@.len(),
            forall|i: int| 0 <= i < r@.len() ==> (#[trigger] r@[i])@ == self.holds.entries@[i].0@,
    {
        self.holds.times()
    }

    /// All the collections that are held.
    pub fn id_bundle(&self) -> (r: CollectionIdBundle)
        ensures
            r@ == self@.bundle(),
            r.wf(),
    {
        self.holds.id_bundle()
    }

    /// The storage collections that are held, each with the time of its
    /// hold.
    pub fn storage_ids(&self) -> (r: Vec<(Frontier, GlobalId)>)
        requires
            self.wf(),
        ensures
            crate::holds::storage_pairs(r@).to_set() == self@.storage,
            crate::holds::storage_pairs(r@).no_duplicates(),
            forall|i: int, j: int|
                0 <= i < r@.len() && 0 <= j < r@.len() && i != j ==> (#[trigger] r@[i]).1
                    != (#[trigger] r@[j]).1,
            forall|i: int| 0 <= i < r@.len() ==> (#[trigger] r@[i]).0.wf(),
    {
        self.holds.storage_ids()
    }

    /// The compute collections that are held, by compute instance, each
    /// with the time of its hold.
    pub fn compute_ids(&self) -> (r: Vec<(ComputeInstanceId, Vec<(Frontier, GlobalId)>)>)
        requires
            self.wf(),
        ensures
            grouped_compute(r@) == self@.compute,
            groups_wf(r@),
    {
        compute_ids_by_instance(&self.holds)
    }

    /// Whether no collection held by `other` is held by `self`: what
    /// [`Self::extend_with_new`] asks of its argument.
    pub fn is_disjoint_from(&self, other: &TimelineReadHolds) -> (r: bool)
        ensures
            r == self@.bundle().disjoint(other@.bundle()),
    {
        let common = self.id_bundle().intersection(&other.id_bundle());
        let r = common.is_empty();
        proof {
            let a = self@.bundle();
            let b = other@.bundle();
            if r {
                assert forall|id: u64| !(a.storage.contains(id) && b.storage.contains(id)) by {
                    if a.storage.contains(id) && b.storage.contains(id) {
                        assert(common@.storage.contains(id));
                    }
                }
                assert forall|p: (u64, u64)| !(a.compute.contains(p) && b.compute.contains(p)) by {
                    if a.compute.contains(p) && b.compute.contains(p) {
                        assert(common@.compute.contains(p));
                    }
                }
            } else {
                if a.disjoint(b) {
                    assert(common@.storage =~= Set::empty());
                    assert(common@.compute =~= Set::empty());
                }
            }
        }
        r
    }

    /// Adds the read holds of `other`, which must be on collections that
    /// `self` does not hold yet.
    pub fn extend_with_new(&mut self, other: TimelineReadHolds)
        requires
            old(self).wf(),
            other.wf(),
            old(self)@.bundle().disjoint(other@.bundle()),
        ensures
            final(self).wf(),
            final(self)@ == old(self)@.union(other@),
    {
        let mut i: usize = 0;
        proof {
            assert(other.holds.entries@.take(0) =~= Seq::<HoldEntry>::empty());
            crate::holds::lemma_holds_of_no_entries();
            assert(self@.union(HoldsView::empty()).storage =~= self@.storage);
            assert(self@.union(HoldsView::empty()).compute =~= self@.compute);
        }
        while i < other.holds.entries.len()
            invariant
                i <= other.holds.entries@.len(),
                self.wf(),
                other.wf(),
                old(self)@.bundle().disjoint(other@.bundle()),
                self@ == old(self)@.union(holds_view(other.holds.entries@.take(i as int))),
            decreases other.holds.entries@.len() - i,
        {
            let ghost e = other.holds.entries@[i as int];
            let ghost done = other.holds.entries@.take(i as int);
            proof {
                assert(other.holds.entries@.take(i + 1) =~= done.push(e));
                lemma_holds_push(done, e);
                assert forall|t: Seq<u64>, id: u64|
                    e.1@.storage.contains(id) && #[trigger] self@.storage.contains(
                        (t, id),
                    ) implies t == e.0@ by {
                    assert(other@.storage.contains((e.0@, id)));
                    if old(self)@.storage.contains((t, id)) {
                        assert(old(self)@.bundle().storage.contains(id));
                        assert(other@.bundle().storage.contains(id));
                    } else {
                        let k = choose|k: int|
                            0 <= k < done.len() && (#[trigger] done[k]).0@ == t
                                && done[k].1@.storage.contains(id);
                        assert(other.holds.entries@[k] == done[k]);
                        assert(other@.storage.contains((t, id)));
                    }
                }
                assert forall|t: Seq<u64>, p: (u64, u64)|
                    e.1@.compute.contains(p) && #[trigger] self@.compute.contains(
                        (t, p),
                    ) implies t == e.0@ by {
                    assert(other@.compute.contains((e.0@, p)));
                    if old(self)@.compute.contains((t, p)) {
                        assert(old(self)@.holds_compute(p.0, p.1));
                        assert(old(self)@.bundle().compute.contains(p));
                        assert(other@.holds_compute(p.0, p.1));
                        assert(other@.bundle().compute.contains(p));
                    } else {
                        let k = choose|k: int|
                            0 <= k < done.len() && (#[trigger] done[k]).0@ == t
                                && done[k].1@.compute.contains(p);
                        assert(other.holds.entries@[k] == done[k]);
                        assert(other@.compute.contains((t, p)));
                    }
                }
            }
            self.holds.extend_at(&other.holds.entries[i].0, &other.holds.entries[i].1);
            proof {
                let next = holds_view(other.holds.entries@.take(i + 1));
                assert(self@.storage =~= old(self)@.union(next).storage);
                assert(self@.compute =~= old(self)@.union(next).compute);
            }
            i = i + 1;
        }
        assert(other.holds.entries@.take(i as int) =~= other.holds.entries@);
    }

    /// Drops the read hold on storage collection `id`, if there is one.
    pub fn remove_storage_id(&mut self, id: GlobalId)
        requires
            old(self).wf(),
        ensures
            final(self).wf(),
            final(self)@ == old(self)@.without(CollectionId::Storage(id)),
            named_instances(final(self).holds.entries@) == held_instances(final(self)@),
    {
        self.holds.remove_id(CollectionId::Storage(id));
    }

    /// Drops the read hold on collection `id` of `compute_instance`, if
    /// there is one. Where that was the last collection of the instance
    /// held at its time, the instance is no longer named at that time.
    pub fn remove_compute_id(&mut self, compute_instance: ComputeInstanceId, id: GlobalId)
        requires
            old(self).wf(),
        ensures
            final(self).wf(),
            final(self)@ == old(self)@.without(CollectionId::Compute(compute_instance, id)),
            named_instances(final(self).holds.entries@) == held_instances(final(self)@),
    {
        self.holds.remove_id(CollectionId::Compute(compute_instance, id));
    }
}

/// The read holds of one short-lived operation, such as a query. They are
/// never moved forward, and are released as a whole.
#[derive(Debug, PartialEq, Eq)]
pub struct ReadHoldsInner {
    pub holds: HoldsMap,
}

impl View for ReadHoldsInner {
    type V = HoldsView;

    open spec fn view(&self) -> HoldsView {
        self.holds@
    }
}

impl ReadHoldsInner {
    /// Each time has one entry, each collection is held at one time, and
    /// no instance is named at a time without a collection held there.
    pub open spec fn wf(&self) -> bool {
        self.holds.wf()
    }

    /// No read holds.
    pub fn new() -> (r: ReadHoldsInner)
        ensures
            r@ == HoldsView::empty(),
            r.wf(),
    {
        ReadHoldsInner { holds: HoldsMap::new() }
    }

    /// All the collections that are held.
    pub fn id_bundle(&self) -> (r: CollectionIdBundle)
        ensures
            r@ == self@.bundle(),
            r.wf(),
    {
        self.holds.id_bundle()
    }

    /// The storage collections that are held, each with the time of its
    /// hold.
    pub fn storage_ids(&self) -> (r: Vec<(Frontier, GlobalId)>)
        requires
            self.wf(),
        ensures
            crate::holds::storage_pairs(r@).to_set() == self@.storage,
            crate::holds::storage_pairs(r@).no_duplicates(),
            forall|i: int, j: int|
                0 <= i < r@.len() && 0 <= j < r@.len() && i != j ==> (#[trigger] r@[i]).1
                    != (#[trigger] r@[j]).1,
            forall|i: int| 0 <= i < r@.len() ==> (#[trigger] r@[i]).0.wf(),
    {
        self.holds.storage_ids()
    }

    /// The compute collections that are held, by compute instance, each
    /// with the time of its hold.
    pub fn compute_ids(&self) -> (r: Vec<(ComputeInstanceId, Vec<(Frontier, GlobalId)>)>)
        requires
            self.wf(),
        ensures
            grouped_compute(r@) == self@.compute,
            groups_wf(r@),
    {
        compute_ids_by_instance(&self.holds)
    }
}

impl Default for ReadHoldsInner {
    fn default() -> (r: ReadHoldsInner)
        ensures
            r@ == HoldsView::empty(),
            r.wf(),
    {
        ReadHoldsInner::new()
    }
}

} // verus!
