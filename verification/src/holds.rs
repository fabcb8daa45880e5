//! Read holds by time: which collections are held readable, and from when.
use crate::frontier::{lemma_antichain_len, Frontier};
use crate::id_bundle::{
    BundleView, CollectionId, CollectionIdBundle, ComputeInstanceId, GlobalId,
};
use vstd::prelude::*;

verus! {

/// A time and the collections held at it.
pub type HoldEntry = (Frontier, CollectionIdBundle);

/// What a set of read holds says: the storage collections and the compute
/// collections that are held, each with the time of its hold.
pub struct HoldsView {
    pub storage: Set<(Seq<u64>, u64)>,
    pub compute: Set<(Seq<u64>, (u64, u64))>,
}

impl HoldsView {
    /// No holds.
    pub open spec fn empty() -> HoldsView {
        HoldsView { storage: Set::empty(), compute: Set::empty() }
    }

    /// Whether nothing is held.
    pub open spec fn is_empty(self) -> bool {
        self.storage == Set::<(Seq<u64>, u64)>::empty() && self.compute == Set::<
            (Seq<u64>, (u64, u64)),
        >::empty()
    }

    /// The holds of either.
    pub open spec fn union(self, other: HoldsView) -> HoldsView {
        HoldsView {
            storage: self.storage.union(other.storage),
            compute: self.compute.union(other.compute),
        }
    }

    /// The holds on every collection of `bundle` at time `t`.
    pub open spec fn at(t: Seq<u64>, bundle: BundleView) -> HoldsView {
        HoldsView {
            storage: Set::new(|p: (Seq<u64>, u64)| p.0 == t && bundle.storage.contains(p.1)),
            compute: Set::new(
                |p: (Seq<u64>, (u64, u64))| p.0 == t && bundle.compute.contains(p.1),
            ),
        }
    }

    /// The holds without those on collection `c`.
    pub open spec fn without(self, c: CollectionId) -> HoldsView {
        HoldsView {
            storage: Set::new(
                |p: (Seq<u64>, u64)| self.storage.contains(p) && CollectionId::Storage(p.1) != c,
            ),
            compute: Set::new(
                |p: (Seq<u64>, (u64, u64))|
                    self.compute.contains(p) && CollectionId::Compute(p.1.0, p.1.1) != c,
            ),
        }
    }

    /// Whether storage collection `id` is held at some time.
    pub open spec fn holds_storage(self, id: u64) -> bool {
        exists|t: Seq<u64>| self.storage.contains((t, id))
    }

    /// Whether collection `id` of compute instance `instance` is held at
    /// some time.
    pub open spec fn holds_compute(self, instance: u64, id: u64) -> bool {
        exists|t: Seq<u64>| self.compute.contains((t, (instance, id)))
    }

    /// All the collections that are held.
    pub open spec fn bundle(self) -> BundleView {
        BundleView {
            storage: Set::new(|id: u64| self.holds_storage(id)),
            compute: Set::new(|p: (u64, u64)| self.holds_compute(p.0, p.1)),
        }
    }

    /// Whether each collection is held at one time only.
    pub open spec fn is_partition(self) -> bool {
        &&& forall|t1: Seq<u64>, t2: Seq<u64>, id: u64|
            #![trigger self.storage.contains((t1, id)), self.storage.contains((t2, id))]
            self.storage.contains((t1, id)) && self.storage.contains((t2, id)) ==> t1 == t2
        &&& forall|t1: Seq<u64>, t2: Seq<u64>, p: (u64, u64)|
            #![trigger self.compute.contains((t1, p)), self.compute.contains((t2, p))]
            self.compute.contains((t1, p)) && self.compute.contains((t2, p)) ==> t1 == t2
    }
}

/// The holds that one entry stands for.
pub open spec fn entry_view(e: HoldEntry) -> HoldsView {
    HoldsView::at(e.0@, e.1@)
}

/// The holds that a sequence of entries stands for.
pub open spec fn holds_view(entries: Seq<HoldEntry>) -> HoldsView {
    HoldsView {
        storage: Set::new(
            |p: (Seq<u64>, u64)|
                exists|i: int|
                    0 <= i < entries.len() && (#[trigger] entries[i]).0@ == p.0
                        && entries[i].1@.storage.contains(p.1),
        ),
        compute: Set::new(
            |p: (Seq<u64>, (u64, u64))|
                exists|i: int|
                    0 <= i < entries.len() && (#[trigger] entries[i]).0@ == p.0
                        && entries[i].1@.compute.contains(p.1),
        ),
    }
}

/// Whether no two entries have the same time, every time is a frontier, no
/// entry is without collections, and no entry names an instance without
/// ids.
pub open spec fn entries_wf(entries: Seq<HoldEntry>) -> bool {
    &&& forall|i: int, j: int|
        0 <= i < entries.len() && 0 <= j < entries.len() && i != j ==> (#[trigger] entries[i]).0@
            != (#[trigger] entries[j]).0@
    &&& forall|i: int| 0 <= i < entries.len() ==> (#[trigger] entries[i]).0.wf()
    &&& forall|i: int| 0 <= i < entries.len() ==> !(#[trigger] entries[i]).1@.is_empty()
    &&& forall|i: int| 0 <= i < entries.len() ==> (#[trigger] entries[i]).1.wf()
}

/// The pairs of time and instance that the entries name, whether or not an
/// id stands under the instance.
pub open spec fn named_instances(entries: Seq<HoldEntry>) -> Set<(Seq<u64>, u64)> {
    Set::new(
        |p: (Seq<u64>, u64)|
            exists|i: int|
                0 <= i < entries.len() && (#[trigger] entries[i]).0@ == p.0
                    && entries[i].1.compute_ids@.contains_key(p.1),
    )
}

/// The pairs of time and instance under which some collection is held.
pub open spec fn held_instances(v: HoldsView) -> Set<(Seq<u64>, u64)> {
    Set::new(|p: (Seq<u64>, u64)| exists|id: u64| v.compute.contains((p.0, (p.1, id))))
}

/// Well-formed entries name an instance at a time exactly where a
/// collection of that instance is held at that time: an instance whose last
/// collection has left is gone with it.
pub proof fn lemma_instances_held(entries: Seq<HoldEntry>)
    requires
        entries_wf(entries),
    ensures
        named_instances(entries) == held_instances(holds_view(entries)),
{
    let v = holds_view(entries);
    assert forall|p: (Seq<u64>, u64)|
        named_instances(entries).contains(p) <==> held_instances(v).contains(p) by {
        if named_instances(entries).contains(p) {
            let i = choose|i: int|
                0 <= i < entries.len() && (#[trigger] entries[i]).0@ == p.0
                    && entries[i].1.compute_ids@.contains_key(p.1);
            assert(entries[i].1.wf());
            let ids = entries[i].1.compute_ids@[p.1]@;
            assert(!(ids =~= Set::<u64>::empty()));
            let id = choose|id: u64| ids.contains(id);
            assert(entries[i].1@.compute.contains((p.1, id)));
            assert(v.compute.contains((p.0, (p.1, id))));
        }
        if held_instances(v).contains(p) {
            let id = choose|id: u64| v.compute.contains((p.0, (p.1, id)));
            let i = choose|i: int|
                0 <= i < entries.len() && (#[trigger] entries[i]).0@ == p.0
                    && entries[i].1@.compute.contains((p.1, id));
            assert(entries[i].1.compute_ids@.contains_key(p.1));
        }
    }
    assert(named_instances(entries) =~= held_instances(v));
}

/// One more entry adds the holds that it stands for.
pub proof fn lemma_holds_push(entries: Seq<HoldEntry>, e: HoldEntry)
    ensures
        holds_view(entries.push(e)) == holds_view(entries).union(entry_view(e)),
{
    let a = holds_view(entries.push(e));
    let b = holds_view(entries).union(entry_view(e));
    let pushed = entries.push(e);
    assert forall|p: (Seq<u64>, u64)| a.storage.contains(p) <==> b.storage.contains(p) by {
        if a.storage.contains(p) {
            let i = choose|i: int|
                0 <= i < pushed.len() && (#[trigger] pushed[i]).0@ == p.0
                    && pushed[i].1@.storage.contains(p.1);
            if i < entries.len() {
                assert(entries[i] == pushed[i]);
            }
        }
        if holds_view(entries).storage.contains(p) {
            let i = choose|i: int|
                0 <= i < entries.len() && (#[trigger] entries[i]).0@ == p.0
                    && entries[i].1@.storage.contains(p.1);
            assert(pushed[i] == entries[i]);
        }
        if entry_view(e).storage.contains(p) {
            assert(pushed[entries.len() as int] == e);
        }
    }
    assert forall|p: (Seq<u64>, (u64, u64))| a.compute.contains(p) <==> b.compute.contains(p) by {
        if a.compute.contains(p) {
            let i = choose|i: int|
                0 <= i < pushed.len() && (#[trigger] pushed[i]).0@ == p.0
                    && pushed[i].1@.compute.contains(p.1);
            if i < entries.len() {
                assert(entries[i] == pushed[i]);
            }
        }
        if holds_view(entries).compute.contains(p) {
            let i = choose|i: int|
                0 <= i < entries.len() && (#[trigger] entries[i]).0@ == p.0
                    && entries[i].1@.compute.contains(p.1);
            assert(pushed[i] == entries[i]);
        }
        if entry_view(e).compute.contains(p) {
            assert(pushed[entries.len() as int] == e);
        }
    }
    assert(a.storage =~= b.storage);
    assert(a.compute =~= b.compute);
}

/// An entry that changes adds what it gains: where the entry at `i` is
/// replaced by one of the same time whose bundle is the old one and `more`,
/// the holds gain those of `more` at that time.
pub proof fn lemma_holds_update(entries: Seq<HoldEntry>, i: int, e: HoldEntry, more: BundleView)
    requires
        0 <= i < entries.len(),
        e.0@ == entries[i].0@,
        e.1@ == entries[i].1@.union(more),
    ensures
        holds_view(entries.update(i, e)) == holds_view(entries).union(HoldsView::at(e.0@, more)),
{
    let updated = entries.update(i, e);
    let a = holds_view(updated);
    let b = holds_view(entries).union(HoldsView::at(e.0@, more));
    assert forall|p: (Seq<u64>, u64)| a.storage.contains(p) <==> b.storage.contains(p) by {
        if a.storage.contains(p) {
            let k = choose|k: int|
                0 <= k < updated.len() && (#[trigger] updated[k]).0@ == p.0
                    && updated[k].1@.storage.contains(p.1);
            if k != i {
                assert(entries[k] == updated[k]);
            } else {
                if entries[i].1@.storage.contains(p.1) {
                    assert(entries[i].0@ == p.0);
                }
            }
        }
        if holds_view(entries).storage.contains(p) {
            let k = choose|k: int|
                0 <= k < entries.len() && (#[trigger] entries[k]).0@ == p.0
                    && entries[k].1@.storage.contains(p.1);
            assert(updated[k].0@ == p.0 && updated[k].1@.storage.contains(p.1));
        }
        if HoldsView::at(e.0@, more).storage.contains(p) {
            assert(updated[i].0@ == p.0 && updated[i].1@.storage.contains(p.1));
        }
    }
    assert forall|p: (Seq<u64>, (u64, u64))| a.compute.contains(p) <==> b.compute.contains(p) by {
        if a.compute.contains(p) {
            let k = choose|k: int|
                0 <= k < updated.len() && (#[trigger] updated[k]).0@ == p.0
                    && updated[k].1@.compute.contains(p.1);
            if k != i {
                assert(entries[k] == updated[k]);
            } else {
                if entries[i].1@.compute.contains(p.1) {
                    assert(entries[i].0@ == p.0);
                }
            }
        }
        if holds_view(entries).compute.contains(p) {
            let k = choose|k: int|
                0 <= k < entries.len() && (#[trigger] entries[k]).0@ == p.0
                    && entries[k].1@.compute.contains(p.1);
            assert(updated[k].0@ == p.0 && updated[k].1@.compute.contains(p.1));
        }
        if HoldsView::at(e.0@, more).compute.contains(p) {
            assert(updated[i].0@ == p.0 && updated[i].1@.compute.contains(p.1));
        }
    }
    assert(a.storage =~= b.storage);
    assert(a.compute =~= b.compute);
}

/// Read holds by time. Each time has one entry, which names the collections
/// held at that time.
#[derive(Debug, PartialEq, Eq)]
pub struct HoldsMap {
    pub entries: Vec<HoldEntry>,
}

impl View for HoldsMap {
    type V = HoldsView;

    open spec fn view(&self) -> HoldsView {
        holds_view(self.entries@)
    }
}

impl HoldsMap {
    /// No two entries have the same time, every time is a frontier, no entry
    /// is without collections or names an instance without ids, and each
    /// collection is held at one time only.
    pub open spec fn wf(&self) -> bool {
        entries_wf(self.entries@) && self@.is_partition()
    }

    /// No holds.
    pub fn new() -> (r: HoldsMap)
        ensures
            r@ == HoldsView::empty(),
            r.entries@.len() == 0,
            r.wf(),
    {
        let r = HoldsMap { entries: Vec::new() };
        assert(r@.storage =~= Set::empty());
        assert(r@.compute =~= Set::empty());
        r
    }

    /// Whether these holds are well formed: for holds that come from
    /// elsewhere.
    pub fn is_well_formed(&self) -> (r: bool)
        ensures
            r == self.wf(),
    {
        let mut i: usize = 0;
        while i < self.entries.len()
            invariant
                i <= self.entries@.len(),
                forall|a: int| 0 <= a < i ==> (#[trigger] self.entries@[a]).0.wf(),
                forall|a: int| 0 <= a < i ==> !(#[trigger] self.entries@[a]).1@.is_empty(),
                forall|a: int| 0 <= a < i ==> (#[trigger] self.entries@[a]).1.wf(),
                forall|a: int, b: int|
                    0 <= b < a < i ==> (#[trigger] self.entries@[a]).0@
                        != (#[trigger] self.entries@[b]).0@ && self.entries@[a].1@.disjoint(
                        self.entries@[b].1@,
                    ),
            decreases self.entries@.len() - i,
        {
            let ghost e = self.entries@[i as int];
            if self.entries[i].0.elements.len() > 1 {
                proof {
                    if self.wf() {
                        lemma_antichain_len(e.0@);
                    }
                }
                return false;
            }
            if self.entries[i].1.is_empty() {
                return false;
            }
            if !self.entries[i].1.is_well_formed() {
                return false;
            }
            let mut j: usize = 0;
            while j < i
                invariant
                    j <= i,
                    i < self.entries@.len(),
                    e == self.entries@[i as int],
                    forall|b: int|
                        0 <= b < j ==> e.0@ != (#[trigger] self.entries@[b]).0@ && e.1@.disjoint(
                            self.entries@[b].1@,
                        ),
                decreases i - j,
            {
                let ghost o = self.entries@[j as int];
                if self.entries[i].0.same_as(&self.entries[j].0) {
                    return false;
                }
                let common = self.entries[i].1.intersection(&self.entries[j].1);
                if !common.is_empty() {
                    proof {
                        if common@.storage != Set::<u64>::empty() {
                            assert(!(common@.storage =~= Set::<u64>::empty()));
                            let id = choose|id: u64| common@.storage.contains(id);
                            assert(self@.storage.contains((e.0@, id)));
                            assert(self@.storage.contains((o.0@, id)));
                        } else {
                            assert(!(common@.compute =~= Set::<(u64, u64)>::empty()));
                            let p = choose|p: (u64, u64)| common@.compute.contains(p);
                            assert(self@.compute.contains((e.0@, p)));
                            assert(self@.compute.contains((o.0@, p)));
                        }
                    }
                    return false;
                }
                proof {
                    assert(e.1@.disjoint(o.1@)) by {
                        assert(common@.storage =~= Set::empty());
                        assert(common@.compute =~= Set::empty());
                        assert forall|id: u64| !(e.1@.storage.contains(id) && o.1@.storage.contains(
                            id,
                        )) by {
                            if e.1@.storage.contains(id) && o.1@.storage.contains(id) {
                                assert(common@.storage.contains(id));
                            }
                        }
                        assert forall|p: (u64, u64)|
                            !(e.1@.compute.contains(p) && o.1@.compute.contains(p)) by {
                            if e.1@.compute.contains(p) && o.1@.compute.contains(p) {
                                assert(common@.compute.contains(p));
                            }
                        }
                    }
                }
                j = j + 1;
            }
            i = i + 1;
        }
        proof {
            let entries = self.entries@;
            assert(entries_wf(entries)) by {
                assert forall|a: int, b: int|
                    0 <= a < entries.len() && 0 <= b < entries.len() && a != b implies (#[trigger] entries[a]).0@
                    != (#[trigger] entries[b]).0@ by {
                    if a > b {
                        assert(entries[a].0@ != entries[b].0@);
                    } else {
                        assert(entries[b].0@ != entries[a].0@);
                    }
                }
            }
            assert(self@.is_partition()) by {
                assert forall|t1: Seq<u64>, t2: Seq<u64>, id: u64|
                    #![trigger self@.storage.contains((t1, id)), self@.storage.contains((t2, id))]
                    self@.storage.contains((t1, id)) && self@.storage.contains(
                        (t2, id),
                    ) implies t1 == t2 by {
                    let a = choose|a: int|
                        0 <= a < entries.len() && (#[trigger] entries[a]).0@ == t1
                            && entries[a].1@.storage.contains(id);
                    let b = choose|b: int|
                        0 <= b < entries.len() && (#[trigger] entries[b]).0@ == t2
                            && entries[b].1@.storage.contains(id);
                    if a > b {
                        assert(entries[a].1@.disjoint(entries[b].1@));
                    } else if b > a {
                        assert(entries[b].1@.disjoint(entries[a].1@));
                    }
                }
                assert forall|t1: Seq<u64>, t2: Seq<u64>, p: (u64, u64)|
                    #![trigger self@.compute.contains((t1, p)), self@.compute.contains((t2, p))]
                    self@.compute.contains((t1, p)) && self@.compute.contains(
                        (t2, p),
                    ) implies t1 == t2 by {
                    let a = choose|a: int|
                        0 <= a < entries.len() && (#[trigger] entries[a]).0@ == t1
                            && entries[a].1@.compute.contains(p);
                    let b = choose|b: int|
                        0 <= b < entries.len() && (#[trigger] entries[b]).0@ == t2
                            && entries[b].1@.compute.contains(p);
                    if a > b {
                        assert(entries[a].1@.disjoint(entries[b].1@));
                    } else if b > a {
                        assert(entries[b].1@.disjoint(entries[a].1@));
                    }
                }
            }
        }
        true
    }

    /// Whether there is no entry. Of well-formed holds this says that
    /// nothing is held.
    pub fn is_empty(&self) -> (r: bool)
        ensures
            r == (self.entries@.len() == 0),
            self.wf() ==> r == self@.is_empty(),
    {
        proof {
            if self.entries@.len() == 0 {
                assert(self@.storage =~= Set::empty());
                assert(self@.compute =~= Set::empty());
            } else if self.wf() {
                let e = self.entries@[0];
                assert(!e.1@.is_empty());
                if e.1@.storage != Set::<u64>::empty() {
                    assert(!(e.1@.storage =~= Set::<u64>::empty()));
                    let id = choose|id: u64| e.1@.storage.contains(id);
                    assert(self@.storage.contains((e.0@, id)));
                } else {
                    assert(!(e.1@.compute =~= Set::<(u64, u64)>::empty()));
                    let p = choose|p: (u64, u64)| e.1@.compute.contains(p);
                    assert(self@.compute.contains((e.0@, p)));
                }
            }
        }
        self.entries.len() == 0
    }

    /// The times at which something is held, each once.
    pub fn times(&self) -> (r: Vec<Frontier>)
        ensures
            r@.len() == self.entries@.len(),
            forall|i: int| 0 <= i < r@.len() ==> (#[trigger] r@[i])@ == self.entries@[i].0@,
    {
        let mut r: Vec<Frontier> = Vec::new();
        let mut i: usize = 0;
        while i < self.entries.len()
            invariant
                i <= self.entries@.len(),
                r@.len() == i,
                forall|k: int| 0 <= k < i ==> (#[trigger] r@[k])@ == self.entries@[k].0@,
            decreases self.entries@.len() - i,
        {
            r.push(self.entries[i].0.clone());
            i = i + 1;
        }
        r
    }

    /// The place of the entry for `time`, if there is one.
    pub fn find(&self, time: &Frontier) -> (r: Option<usize>)
        ensures
            match r {
                Some(i) => i < self.entries@.len() && self.entries@[i as int].0@ == time@,
                None => forall|i: int|
                    0 <= i < self.entries@.len() ==> (#[trigger] self.entries@[i]).0@ != time@,
            },
    {
        let mut i: usize = 0;
        while i < self.entries.len()
            invariant
                i <= self.entries@.len(),
                forall|k: int| 0 <= k < i ==> (#[trigger] self.entries@[k]).0@ != time@,
            decreases self.entries@.len() - i,
        {
            if self.entries[i].0.same_as(time) {
                return Some(i);
            }
            i = i + 1;
        }
        None
    }

    /// Holds every collection of `bundle` at `time`, besides what is held
    /// already.
    pub fn extend_at(&mut self, time: &Frontier, bundle: &CollectionIdBundle)
        requires
            old(self).wf(),
            time.wf(),
            !bundle@.is_empty(),
            forall|t: Seq<u64>, id: u64|
                bundle@.storage.contains(id) && #[trigger] old(self)@.storage.contains((t, id))
                    ==> t == time@,
            forall|t: Seq<u64>, p: (u64, u64)|
                bundle@.compute.contains(p) && #[trigger] old(self)@.compute.contains((t, p))
                    ==> t == time@,
        ensures
            final(self).wf(),
            final(self)@ == old(self)@.union(HoldsView::at(time@, bundle@)),
    {
        match self.find(time) {
            Some(i) => {
                let mut merged = self.entries[i].1.clone();
                merged.extend(bundle);
                let key = self.entries[i].0.clone();
                let ghost e: HoldEntry = (key, merged);
                proof {
                    lemma_holds_update(old(self).entries@, i as int, e, bundle@);
                }
                self.entries.set(i, (key, merged));
                proof {
                    assert(self.entries@ =~= old(self).entries@.update(i as int, e));
                    assert(entries_wf(self.entries@)) by {
                        assert forall|a: int, b: int|
                            0 <= a < self.entries@.len() && 0 <= b < self.entries@.len() && a
                                != b implies (#[trigger] self.entries@[a]).0@
                            != (#[trigger] self.entries@[b]).0@ by {
                            assert(self.entries@[a].0@ == old(self).entries@[a].0@);
                            assert(self.entries@[b].0@ == old(self).entries@[b].0@);
                        }
                        assert forall|a: int| 0 <= a < self.entries@.len() implies (#[trigger] self.entries@[a]).0.wf() by {
                            assert(self.entries@[a].0@ == old(self).entries@[a].0@);
                            assert(old(self).entries@[a].0.wf());
                        }
                        assert forall|a: int| 0 <= a < self.entries@.len() implies !(#[trigger] self.entries@[a]).1@.is_empty() by {
                            if a != i {
                                assert(self.entries@[a] == old(self).entries@[a]);
                            } else {
                                lemma_union_not_empty(old(self).entries@[a].1@, bundle@);
                            }
                        }
                    }
                }
            },
            None => {
                let key = time.clone();
                let mut ids = CollectionIdBundle::new();
                ids.extend(bundle);
                let ghost pushed: HoldEntry = (key, ids);
                proof {
                    assert(ids@.storage =~= bundle@.storage);
                    assert(ids@.compute =~= bundle@.compute);
                }
                proof {
                    lemma_holds_push(old(self).entries@, pushed);
                }
                self.entries.push((key, ids));
                proof {
                    assert(self.entries@ =~= old(self).entries@.push(pushed));
                    assert(entry_view(pushed) == HoldsView::at(time@, bundle@));
                    assert(entries_wf(self.entries@)) by {
                        assert forall|a: int, b: int|
                            0 <= a < self.entries@.len() && 0 <= b < self.entries@.len() && a
                                != b implies (#[trigger] self.entries@[a]).0@
                            != (#[trigger] self.entries@[b]).0@ by {
                            if a < old(self).entries@.len() {
                                assert(self.entries@[a] == old(self).entries@[a]);
                            }
                            if b < old(self).entries@.len() {
                                assert(self.entries@[b] == old(self).entries@[b]);
                            }
                        }
                        assert forall|a: int| 0 <= a < self.entries@.len() implies (#[trigger] self.entries@[a]).0.wf() by {
                            if a < old(self).entries@.len() {
                                assert(self.entries@[a] == old(self).entries@[a]);
                            }
                        }
                        assert forall|a: int| 0 <= a < self.entries@.len() implies !(#[trigger] self.entries@[a]).1@.is_empty() by {
                            if a < old(self).entries@.len() {
                                assert(self.entries@[a] == old(self).entries@[a]);
                            }
                        }
                        assert forall|a: int| 0 <= a < self.entries@.len() implies (#[trigger] self.entries@[a]).1.wf() by {
                            if a < old(self).entries@.len() {
                                assert(self.entries@[a] == old(self).entries@[a]);
                            }
                        }
                    }
                }
            },
        }
    }

    /// A copy of these holds.
    pub fn clone(&self) -> (r: HoldsMap)
        ensures
            r@ == self@,
            self.wf() ==> r.wf(),
            r.entries@.len() == self.entries@.len(),
            forall|i: int|
                0 <= i < r.entries@.len() ==> (#[trigger] r.entries@[i]).0@ == self.entries@[i].0@
                    && r.entries@[i].1@ == self.entries@[i].1@,
    {
        let mut entries: Vec<HoldEntry> = Vec::new();
        let mut i: usize = 0;
        while i < self.entries.len()
            invariant
                i <= self.entries@.len(),
                entries@.len() == i,
                forall|k: int|
                    0 <= k < i ==> (#[trigger] entries@[k]).0@ == self.entries@[k].0@
                        && entries@[k].1@ == self.entries@[k].1@ && entries@[k].1.wf()
                        == self.entries@[k].1.wf(),
            decreases self.entries@.len() - i,
        {
            entries.push((self.entries[i].0.clone(), self.entries[i].1.clone()));
            i = i + 1;
        }
        let r = HoldsMap { entries };
        proof {
            lemma_holds_by_entries(r.entries@, self.entries@);
            if self.wf() {
                assert(entries_wf(r.entries@)) by {
                    assert forall|a: int, b: int|
                        0 <= a < r.entries@.len() && 0 <= b < r.entries@.len() && a
                            != b implies (#[trigger] r.entries@[a]).0@
                        != (#[trigger] r.entries@[b]).0@ by {
                        assert(self.entries@[a].0@ != self.entries@[b].0@);
                    }
                    assert forall|a: int| 0 <= a < r.entries@.len() implies (#[trigger] r.entries@[a]).0.wf() by {
                        assert(self.entries@[a].0.wf());
                    }
                    assert forall|a: int| 0 <= a < r.entries@.len() implies !(#[trigger] r.entries@[a]).1@.is_empty() by {
                        assert(!self.entries@[a].1@.is_empty());
                    }
                    assert forall|a: int| 0 <= a < r.entries@.len() implies (#[trigger] r.entries@[a]).1.wf() by {
                        assert(self.entries@[a].1.wf());
                    }
                }
            }
        }
        r
    }

    /// All the collections that are held.
    pub fn id_bundle(&self) -> (r: CollectionIdBundle)
        ensures
            r@ == self@.bundle(),
            r.wf(),
    {
        let mut r = CollectionIdBundle::new();
        let mut i: usize = 0;
        proof {
            lemma_bundle_of_nothing();
            assert(self.entries@.take(0) =~= Seq::<HoldEntry>::empty());
            assert(holds_view(Seq::<HoldEntry>::empty()).storage =~= Set::empty());
            assert(holds_view(Seq::<HoldEntry>::empty()).compute =~= Set::empty());
        }
        while i < self.entries.len()
            invariant
                i <= self.entries@.len(),
                r@ == holds_view(self.entries@.take(i as int)).bundle(),
                r.wf(),
            decreases self.entries@.len() - i,
        {
            r.extend(&self.entries[i].1);
            proof {
                let e = self.entries@[i as int];
                assert(self.entries@.take(i + 1) =~= self.entries@.take(i as int).push(e));
                lemma_holds_push(self.entries@.take(i as int), e);
                lemma_bundle_union(holds_view(self.entries@.take(i as int)), entry_view(e));
                lemma_bundle_at(e.0@, e.1@);
            }
            i = i + 1;
        }
        assert(self.entries@.take(i as int) =~= self.entries@);
        r
    }

    /// The storage collections that are held, each with the time of its
    /// hold.
    pub fn storage_ids(&self) -> (r: Vec<(Frontier, GlobalId)>)
        requires
            self.wf(),
        ensures
            storage_pairs(r@).to_set() == self@.storage,
            storage_pairs(r@).no_duplicates(),
            forall|i: int, j: int|
                0 <= i < r@.len() && 0 <= j < r@.len() && i != j ==> (#[trigger] r@[i]).1
                    != (#[trigger] r@[j]).1,
            forall|i: int| 0 <= i < r@.len() ==> (#[trigger] r@[i]).0.wf(),
    {
        let mut r: Vec<(Frontier, u64)> = Vec::new();
        let mut i: usize = 0;
        proof {
            assert(self.entries@.take(0) =~= Seq::<HoldEntry>::empty());
            assert(holds_view(Seq::<HoldEntry>::empty()).storage =~= Set::empty());
            assert(storage_pairs(r@) =~= Seq::empty());
            assert(storage_pairs(r@).to_set() =~= Set::empty());
        }
        while i < self.entries.len()
            invariant
                i <= self.entries@.len(),
                self.wf(),
                storage_pairs(r@).to_set() == holds_view(self.entries@.take(i as int)).storage,
                storage_pairs(r@).no_duplicates(),
                forall|k: int| 0 <= k < r@.len() ==> (#[trigger] r@[k]).0.wf(),
            decreases self.entries@.len() - i,
        {
            let ids = self.entries[i].1.storage_list();
            let ghost e = self.entries@[i as int];
            let ghost before = r@;
            let mut j: usize = 0;
            while j < ids.len()
                invariant
                    j <= ids@.len(),
                    i < self.entries@.len(),
                    e == self.entries@[i as int],
                    e.0.wf(),
                    self.wf(),
                    ids@.no_duplicates(),
                    storage_pairs(before).to_set() == holds_view(self.entries@.take(i as int)).storage,
                    storage_pairs(r@).no_duplicates(),
                    storage_pairs(r@).to_set() == storage_pairs(before).to_set().union(
                        Set::new(
                            |p: (Seq<u64>, u64)|
                                p.0 == e.0@ && ids@.take(j as int).to_set().contains(p.1),
                        ),
                    ),
                    forall|k: int| 0 <= k < r@.len() ==> (#[trigger] r@[k]).0.wf(),
                decreases ids@.len() - j,
            {
                let ghost prev = r@;
                r.push((self.entries[i].0.clone(), ids[j]));
                proof {
                    let x = r@[prev.len() as int];
                    assert(storage_pairs(r@) =~= storage_pairs(prev).push((x.0@, x.1)));
                    assert(!storage_pairs(prev).contains((x.0@, x.1))) by {
                        if storage_pairs(prev).contains((x.0@, x.1)) {
                            assert(storage_pairs(prev).to_set().contains((x.0@, x.1)));
                            if storage_pairs(before).to_set().contains((x.0@, x.1)) {
                                let k = choose|k: int|
                                    0 <= k < self.entries@.take(i as int).len()
                                        && (#[trigger] self.entries@.take(i as int)[k]).0@ == x.0@
                                        && self.entries@.take(i as int)[k].1@.storage.contains(x.1);
                                assert(self.entries@[k].0@ == self.entries@[i as int].0@);
                            } else {
                                let k = choose|k: int|
                                    0 <= k < ids@.take(j as int).len() && ids@.take(j as int)[k]
                                        == x.1;
                                assert(ids@[k] == ids@[j as int]);
                            }
                        }
                    }
                    lemma_push_no_dup(storage_pairs(prev), (x.0@, x.1));
                    storage_pairs(prev).lemma_push_to_set_commute((x.0@, x.1));
                    crate::id_bundle::lemma_take_step(ids@, j as int);
                    assert(storage_pairs(r@).to_set() =~= storage_pairs(before).to_set().union(
                        Set::new(
                            |p: (Seq<u64>, u64)|
                                p.0 == e.0@ && ids@.take(j + 1).to_set().contains(p.1),
                        ),
                    ));
                }
                j = j + 1;
            }
            proof {
                assert(ids@.take(j as int) =~= ids@);
                assert(self.entries@.take(i + 1) =~= self.entries@.take(i as int).push(e));
                lemma_holds_push(self.entries@.take(i as int), e);
                assert(storage_pairs(r@).to_set() =~= holds_view(
                    self.entries@.take(i + 1),
                ).storage);
            }
            i = i + 1;
        }
        proof {
            assert(self.entries@.take(i as int) =~= self.entries@);
            lemma_pairs_distinct(r@, self@);
        }
        r
    }

    /// The compute collections that are held, each with its instance and
    /// the time of its hold.
    pub fn compute_id_list(&self) -> (r: Vec<(Frontier, (ComputeInstanceId, GlobalId))>)
        requires
            self.wf(),
        ensures
            compute_pairs_of(r@).to_set() == self@.compute,
            compute_pairs_of(r@).no_duplicates(),
            forall|i: int, j: int|
                0 <= i < r@.len() && 0 <= j < r@.len() && i != j ==> (#[trigger] r@[i]).1
                    != (#[trigger] r@[j]).1,
            forall|i: int| 0 <= i < r@.len() ==> (#[trigger] r@[i]).0.wf(),
    {
        let mut r: Vec<(Frontier, (u64, u64))> = Vec::new();
        let mut i: usize = 0;
        proof {
            assert(self.entries@.take(0) =~= Seq::<HoldEntry>::empty());
            assert(holds_view(Seq::<HoldEntry>::empty()).compute =~= Set::empty());
            assert(compute_pairs_of(r@) =~= Seq::empty());
            assert(compute_pairs_of(r@).to_set() =~= Set::empty());
        }
        while i < self.entries.len()
            invariant
                i <= self.entries@.len(),
                self.wf(),
                compute_pairs_of(r@).to_set() == holds_view(self.entries@.take(i as int)).compute,
                compute_pairs_of(r@).no_duplicates(),
                forall|k: int| 0 <= k < r@.len() ==> (#[trigger] r@[k]).0.wf(),
            decreases self.entries@.len() - i,
        {
            let ids = self.entries[i].1.compute_list();
            let ghost e = self.entries@[i as int];
            let ghost before = r@;
            let mut j: usize = 0;
            while j < ids.len()
                invariant
                    j <= ids@.len(),
                    i < self.entries@.len(),
                    e == self.entries@[i as int],
                    e.0.wf(),
                    self.wf(),
                    ids@.no_duplicates(),
                    compute_pairs_of(before).to_set() == holds_view(self.entries@.take(i as int)).compute,
                    compute_pairs_of(r@).no_duplicates(),
                    compute_pairs_of(r@).to_set() == compute_pairs_of(before).to_set().union(
                        Set::new(
                            |p: (Seq<u64>, (u64, u64))|
                                p.0 == e.0@ && ids@.take(j as int).to_set().contains(p.1),
                        ),
                    ),
                    forall|k: int| 0 <= k < r@.len() ==> (#[trigger] r@[k]).0.wf(),
                decreases ids@.len() - j,
            {
                let ghost prev = r@;
                r.push((self.entries[i].0.clone(), ids[j]));
                proof {
                    let x = r@[prev.len() as int];
                    assert(compute_pairs_of(r@) =~= compute_pairs_of(prev).push((x.0@, x.1)));
                    assert(!compute_pairs_of(prev).contains((x.0@, x.1))) by {
                        if compute_pairs_of(prev).contains((x.0@, x.1)) {
                            assert(compute_pairs_of(prev).to_set().contains((x.0@, x.1)));
                            if compute_pairs_of(before).to_set().contains((x.0@, x.1)) {
                                let k = choose|k: int|
                                    0 <= k < self.entries@.take(i as int).len()
                                        && (#[trigger] self.entries@.take(i as int)[k]).0@ == x.0@
                                        && self.entries@.take(i as int)[k].1@.compute.contains(x.1);
                                assert(self.entries@[k].0@ == self.entries@[i as int].0@);
                            } else {
                                let k = choose|k: int|
                                    0 <= k < ids@.take(j as int).len() && ids@.take(j as int)[k]
                                        == x.1;
                                assert(ids@[k] == ids@[j as int]);
                            }
                        }
                    }
                    lemma_push_no_dup(compute_pairs_of(prev), (x.0@, x.1));
                    compute_pairs_of(prev).lemma_push_to_set_commute((x.0@, x.1));
                    crate::id_bundle::lemma_take_step(ids@, j as int);
                    assert(compute_pairs_of(r@).to_set() =~= compute_pairs_of(
                        before,
                    ).to_set().union(
                        Set::new(
                            |p: (Seq<u64>, (u64, u64))|
                                p.0 == e.0@ && ids@.take(j + 1).to_set().contains(p.1),
                        ),
                    ));
                }
                j = j + 1;
            }
            proof {
                assert(ids@.take(j as int) =~= ids@);
                assert(self.entries@.take(i + 1) =~= self.entries@.take(i as int).push(e));
                lemma_holds_push(self.entries@.take(i as int), e);
                assert(compute_pairs_of(r@).to_set() =~= holds_view(
                    self.entries@.take(i + 1),
                ).compute);
            }
            i = i + 1;
        }
        proof {
            assert(self.entries@.take(i as int) =~= self.entries@);
            lemma_compute_pairs_distinct(r@, self@);
        }
        r
    }

    /// Drops the hold on collection `c`, if there is one. A time at which
    /// nothing is held any more loses its entry, and an instance none of
    /// whose collections is held any more at a time is no longer named
    /// there.
    pub fn remove_id(&mut self, c: CollectionId)
        requires
            old(self).wf(),
        ensures
            final(self).wf(),
            final(self)@ == old(self)@.without(c),
            named_instances(final(self).entries@) == held_instances(final(self)@),
    {
        let mut kept: Vec<HoldEntry> = Vec::new();
        let mut i: usize = 0;
        proof {
            assert(self.entries@.take(0) =~= Seq::<HoldEntry>::empty());
            lemma_holds_of_no_entries();
            assert(HoldsView::empty().without(c).storage =~= Set::empty());
            assert(HoldsView::empty().without(c).compute =~= Set::empty());
        }
        while i < self.entries.len()
            invariant
                i <= self.entries@.len(),
                self.wf(),
                entries_wf(kept@),
                holds_view(kept@) == holds_view(self.entries@.take(i as int)).without(c),
                forall|k: int|
                    0 <= k < kept@.len() ==> exists|j: int|
                        0 <= j < i && (#[trigger] self.entries@[j]).0@ == (#[trigger] kept@[k]).0@,
            decreases self.entries@.len() - i,
        {
            let mut ids = self.entries[i].1.clone();
            ids.remove(c);
            let ghost e = self.entries@[i as int];
            let ghost before = kept@;
            proof {
                assert(self.entries@.take(i + 1) =~= self.entries@.take(i as int).push(e));
                lemma_holds_push(self.entries@.take(i as int), e);
                lemma_without_union(holds_view(self.entries@.take(i as int)), entry_view(e), c);
                lemma_without_at(e.0@, e.1@, c);
            }
            if !ids.is_empty() {
                let key = self.entries[i].0.clone();
                let ghost pushed: HoldEntry = (key, ids);
                proof {
                    lemma_holds_push(before, pushed);
                    assert forall|k: int| 0 <= k < before.len() implies (#[trigger] before[k]).0@
                        != key@ by {
                        let j = choose|j: int|
                            0 <= j < i && (#[trigger] self.entries@[j]).0@ == before[k].0@;
                        assert(self.entries@[j].0@ != self.entries@[i as int].0@);
                    }
                }
                kept.push((key, ids));
                proof {
                    assert(kept@ =~= before.push(pushed));
                    assert forall|k: int| 0 <= k < kept@.len() implies exists|j: int|
                        0 <= j < i + 1 && (#[trigger] self.entries@[j]).0@ == (#[trigger] kept@[k]).0@ by {
                        if k < before.len() {
                            assert(kept@[k] == before[k]);
                            let j = choose|j: int|
                                0 <= j < i && (#[trigger] self.entries@[j]).0@ == before[k].0@;
                            assert(0 <= j < i + 1 && self.entries@[j].0@ == kept@[k].0@);
                        } else {
                            assert(self.entries@[i as int].0@ == kept@[k].0@);
                        }
                    }
                    assert(entries_wf(kept@)) by {
                        assert forall|a: int, b: int|
                            0 <= a < kept@.len() && 0 <= b < kept@.len() && a != b implies (#[trigger] kept@[a]).0@
                            != (#[trigger] kept@[b]).0@ by {
                            if a < before.len() {
                                assert(kept@[a] == before[a]);
                            }
                            if b < before.len() {
                                assert(kept@[b] == before[b]);
                            }
                        }
                        assert forall|a: int| 0 <= a < kept@.len() implies (#[trigger] kept@[a]).0.wf() by {
                            if a < before.len() {
                                assert(kept@[a] == before[a]);
                            } else {
                                assert(self.entries@[i as int].0.wf());
                            }
                        }
                        assert forall|a: int| 0 <= a < kept@.len() implies !(#[trigger] kept@[a]).1@.is_empty() by {
                            if a < before.len() {
                                assert(kept@[a] == before[a]);
                            }
                        }
                    }
                }
            } else {
                proof {
                    assert(HoldsView::at(e.0@, ids@).storage =~= Set::empty());
                    assert(HoldsView::at(e.0@, ids@).compute =~= Set::empty());
                    assert(holds_view(before).union(HoldsView::at(e.0@, ids@)).storage
                        =~= holds_view(before).storage);
                    assert(holds_view(before).union(HoldsView::at(e.0@, ids@)).compute
                        =~= holds_view(before).compute);
                    assert forall|k: int| 0 <= k < kept@.len() implies exists|j: int|
                        0 <= j < i + 1 && (#[trigger] self.entries@[j]).0@ == (#[trigger] kept@[k]).0@ by {
                        let j = choose|j: int|
                            0 <= j < i && (#[trigger] self.entries@[j]).0@ == kept@[k].0@;
                        assert(0 <= j < i + 1 && self.entries@[j].0@ == kept@[k].0@);
                    }
                }
            }
            i = i + 1;
        }
        proof {
            assert(self.entries@.take(i as int) =~= self.entries@);
        }
        self.entries = kept;
        proof {
            lemma_instances_held(self.entries@);
        }
    }
}

/// A sequence without duplicates stays so when it gains an element that it
/// did not hold.
pub proof fn lemma_push_no_dup<T>(s: Seq<T>, x: T)
    requires
        s.no_duplicates(),
        !s.contains(x),
    ensures
        s.push(x).no_duplicates(),
{
    assert forall|i: int, j: int|
        0 <= i < s.push(x).len() && 0 <= j < s.push(x).len() && i != j implies s.push(x)[i]
        != s.push(x)[j] by {
        if i < s.len() && j < s.len() {
        } else if i < s.len() {
            assert(s.contains(s[i]));
        } else {
            assert(s.contains(s[j]));
        }
    }
}

/// The storage holds that a list of pairs of time and id stands for.
pub open spec fn storage_pairs(r: Seq<(Frontier, u64)>) -> Seq<(Seq<u64>, u64)> {
    r.map_values(|p: (Frontier, u64)| (p.0@, p.1))
}

/// The compute holds that a list of pairs of time and collection stands for.
pub open spec fn compute_pairs_of(r: Seq<(Frontier, (u64, u64))>) -> Seq<(Seq<u64>, (u64, u64))> {
    r.map_values(|p: (Frontier, (u64, u64))| (p.0@, p.1))
}

/// Without holds no collection is held.
pub proof fn lemma_bundle_of_nothing()
    ensures
        HoldsView::empty().bundle() == BundleView::empty(),
{
    assert(HoldsView::empty().bundle().storage =~= Set::empty());
    assert(HoldsView::empty().bundle().compute =~= Set::empty());
}

/// The collections held by either of two sets of holds are those held by
/// one and those held by the other.
pub proof fn lemma_bundle_union(a: HoldsView, b: HoldsView)
    ensures
        a.union(b).bundle() == a.bundle().union(b.bundle()),
{
    let u = a.union(b);
    assert forall|id: u64| u.holds_storage(id) <==> a.holds_storage(id) || b.holds_storage(
        id,
    ) by {
        if u.holds_storage(id) {
            let t = choose|t: Seq<u64>| u.storage.contains((t, id));
            if a.storage.contains((t, id)) {
                assert(a.holds_storage(id));
            } else {
                assert(b.storage.contains((t, id)));
            }
        }
        if a.holds_storage(id) {
            let t = choose|t: Seq<u64>| a.storage.contains((t, id));
            assert(u.storage.contains((t, id)));
        }
        if b.holds_storage(id) {
            let t = choose|t: Seq<u64>| b.storage.contains((t, id));
            assert(u.storage.contains((t, id)));
        }
    }
    assert forall|p: (u64, u64)|
        u.holds_compute(p.0, p.1) <==> a.holds_compute(p.0, p.1) || b.holds_compute(
            p.0,
            p.1,
        ) by {
        if u.holds_compute(p.0, p.1) {
            let t = choose|t: Seq<u64>| u.compute.contains((t, (p.0, p.1)));
            if a.compute.contains((t, (p.0, p.1))) {
                assert(a.holds_compute(p.0, p.1));
            } else {
                assert(b.compute.contains((t, (p.0, p.1))));
            }
        }
        if a.holds_compute(p.0, p.1) {
            let t = choose|t: Seq<u64>| a.compute.contains((t, (p.0, p.1)));
            assert(u.compute.contains((t, (p.0, p.1))));
        }
        if b.holds_compute(p.0, p.1) {
            let t = choose|t: Seq<u64>| b.compute.contains((t, (p.0, p.1)));
            assert(u.compute.contains((t, (p.0, p.1))));
        }
    }
    assert(u.bundle().storage =~= a.bundle().union(b.bundle()).storage);
    assert(u.bundle().compute =~= a.bundle().union(b.bundle()).compute);
}

/// The collections held by the holds on a bundle at one time are the bundle.
pub proof fn lemma_bundle_at(t: Seq<u64>, b: BundleView)
    ensures
        HoldsView::at(t, b).bundle() == b,
{
    let h = HoldsView::at(t, b);
    assert forall|id: u64| h.holds_storage(id) <==> b.storage.contains(id) by {
        if b.storage.contains(id) {
            assert(h.storage.contains((t, id)));
        }
    }
    assert forall|p: (u64, u64)| h.holds_compute(p.0, p.1) <==> b.compute.contains(p) by {
        if b.compute.contains(p) {
            assert(h.compute.contains((t, (p.0, p.1))));
        }
    }
    assert(h.bundle().storage =~= b.storage);
    assert(h.bundle().compute =~= b.compute);
}

/// A list that stands for the storage holds of a partition without naming
/// a hold twice names no collection twice.
pub proof fn lemma_pairs_distinct(r: Seq<(Frontier, u64)>, h: HoldsView)
    requires
        storage_pairs(r).to_set() == h.storage,
        h.is_partition(),
    ensures
        storage_pairs(r).no_duplicates() ==> forall|i: int, j: int|
            0 <= i < r.len() && 0 <= j < r.len() && i != j ==> (#[trigger] r[i]).1
                != (#[trigger] r[j]).1,
{
    let s = storage_pairs(r);
    if s.no_duplicates() {
        assert forall|i: int, j: int| 0 <= i < r.len() && 0 <= j < r.len() && i != j implies (#[trigger] r[i]).1
            != (#[trigger] r[j]).1 by {
            if r[i].1 == r[j].1 {
                assert(s[i] == (r[i].0@, r[i].1));
                assert(s[j] == (r[j].0@, r[j].1));
                assert(s.to_set().contains(s[i]));
                assert(s.to_set().contains(s[j]));
                assert(h.storage.contains((r[i].0@, r[i].1)));
                assert(h.storage.contains((r[j].0@, r[i].1)));
            }
        }
    }
}

/// A list that stands for the compute holds of a partition without naming
/// a hold twice names no collection twice.
pub proof fn lemma_compute_pairs_distinct(r: Seq<(Frontier, (u64, u64))>, h: HoldsView)
    requires
        compute_pairs_of(r).to_set() == h.compute,
        h.is_partition(),
    ensures
        compute_pairs_of(r).no_duplicates() ==> forall|i: int, j: int|
            0 <= i < r.len() && 0 <= j < r.len() && i != j ==> (#[trigger] r[i]).1
                != (#[trigger] r[j]).1,
{
    let s = compute_pairs_of(r);
    if s.no_duplicates() {
        assert forall|i: int, j: int| 0 <= i < r.len() && 0 <= j < r.len() && i != j implies (#[trigger] r[i]).1
            != (#[trigger] r[j]).1 by {
            if r[i].1 == r[j].1 {
                assert(s[i] == (r[i].0@, r[i].1));
                assert(s[j] == (r[j].0@, r[j].1));
                assert(s.to_set().contains(s[i]));
                assert(s.to_set().contains(s[j]));
                assert(h.compute.contains((r[i].0@, r[i].1)));
                assert(h.compute.contains((r[j].0@, r[i].1)));
            }
        }
    }
}

/// Entries that agree in their times and bundles stand for the same holds.
pub proof fn lemma_holds_by_entries(a: Seq<HoldEntry>, b: Seq<HoldEntry>)
    requires
        a.len() == b.len(),
        forall|i: int|
            0 <= i < a.len() ==> (#[trigger] a[i]).0@ == b[i].0@ && a[i].1@ == b[i].1@,
    ensures
        holds_view(a) == holds_view(b),
{
    assert forall|p: (Seq<u64>, u64)| holds_view(a).storage.contains(p) <==> holds_view(
        b,
    ).storage.contains(p) by {
        if holds_view(a).storage.contains(p) {
            let i = choose|i: int|
                0 <= i < a.len() && (#[trigger] a[i]).0@ == p.0 && a[i].1@.storage.contains(p.1);
            assert(b[i].0@ == p.0 && b[i].1@.storage.contains(p.1));
        }
        if holds_view(b).storage.contains(p) {
            let i = choose|i: int|
                0 <= i < b.len() && (#[trigger] b[i]).0@ == p.0 && b[i].1@.storage.contains(p.1);
            assert(a[i].0@ == p.0 && a[i].1@.storage.contains(p.1));
        }
    }
    assert forall|p: (Seq<u64>, (u64, u64))| holds_view(a).compute.contains(p) <==> holds_view(
        b,
    ).compute.contains(p) by {
        if holds_view(a).compute.contains(p) {
            let i = choose|i: int|
                0 <= i < a.len() && (#[trigger] a[i]).0@ == p.0 && a[i].1@.compute.contains(p.1);
            assert(b[i].0@ == p.0 && b[i].1@.compute.contains(p.1));
        }
        if holds_view(b).compute.contains(p) {
            let i = choose|i: int|
                0 <= i < b.len() && (#[trigger] b[i]).0@ == p.0 && b[i].1@.compute.contains(p.1);
            assert(a[i].0@ == p.0 && a[i].1@.compute.contains(p.1));
        }
    }
    assert(holds_view(a).storage =~= holds_view(b).storage);
    assert(holds_view(a).compute =~= holds_view(b).compute);
}

/// No entries stand for no holds.
pub proof fn lemma_holds_of_no_entries()
    ensures
        holds_view(Seq::<HoldEntry>::empty()) == HoldsView::empty(),
{
    assert(holds_view(Seq::<HoldEntry>::empty()).storage =~= Set::empty());
    assert(holds_view(Seq::<HoldEntry>::empty()).compute =~= Set::empty());
}

/// Dropping a collection from either of two sets of holds drops it from
/// both.
pub proof fn lemma_without_union(a: HoldsView, b: HoldsView, c: CollectionId)
    ensures
        a.union(b).without(c) == a.without(c).union(b.without(c)),
{
    assert(a.union(b).without(c).storage =~= a.without(c).union(b.without(c)).storage);
    assert(a.union(b).without(c).compute =~= a.without(c).union(b.without(c)).compute);
}

/// Dropping a collection from the holds on a bundle at one time leaves the
/// holds on the bundle without it.
pub proof fn lemma_without_at(t: Seq<u64>, b: BundleView, c: CollectionId)
    ensures
        HoldsView::at(t, b).without(c) == HoldsView::at(t, b.without(c)),
{
    assert(HoldsView::at(t, b).without(c).storage =~= HoldsView::at(t, b.without(c)).storage);
    assert(HoldsView::at(t, b).without(c).compute =~= HoldsView::at(t, b.without(c)).compute);
}

/// A union with a bundle that holds something holds something.
pub proof fn lemma_union_not_empty(a: BundleView, b: BundleView)
    requires
        !a.is_empty() || !b.is_empty(),
    ensures
        !a.union(b).is_empty(),
{
    let u = a.union(b);
    if u.is_empty() {
        assert(a.storage =~= Set::empty()) by {
            assert forall|x: u64| !a.storage.contains(x) by {
                if a.storage.contains(x) {
                    assert(u.storage.contains(x));
                }
            }
        }
        assert(a.compute =~= Set::empty()) by {
            assert forall|x: (u64, u64)| !a.compute.contains(x) by {
                if a.compute.contains(x) {
                    assert(u.compute.contains(x));
                }
            }
        }
        assert(b.storage =~= Set::empty()) by {
            assert forall|x: u64| !b.storage.contains(x) by {
                if b.storage.contains(x) {
                    assert(u.storage.contains(x));
                }
            }
        }
        assert(b.compute =~= Set::empty()) by {
            assert forall|x: (u64, u64)| !b.compute.contains(x) by {
                if b.compute.contains(x) {
                    assert(u.compute.contains(x));
                }
            }
        }
    }
}

} // verus!
