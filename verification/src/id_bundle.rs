//! Bundles of collection ids.
//!
//! A collection lives either in storage or in one compute instance. A bundle
//! names a set of storage collections and, for each compute instance, a set
//! of collections of that instance.
use std::collections::BTreeMap;
use std::collections::BTreeSet;
use vstd::prelude::*;
use vstd::std_specs::iter::IteratorSpec;

verus! {

/// The id of a collection.
pub type GlobalId = u64;

/// The id of a compute instance.
pub type ComputeInstanceId = u64;

/// A collection: one of storage, or one of a compute instance.
#[derive(Debug, Clone, Copy, PartialEq, Eq, Structural)]
pub enum CollectionId {
    Storage(GlobalId),
    Compute(ComputeInstanceId, GlobalId),
}

/// What a bundle holds: the storage ids, and the compute ids as pairs of
/// instance and id.
pub struct BundleView {
    pub storage: Set<u64>,
    pub compute: Set<(u64, u64)>,
}

impl BundleView {
    /// The bundle that holds nothing.
    pub open spec fn empty() -> BundleView {
        BundleView { storage: Set::empty(), compute: Set::empty() }
    }

    /// Whether the bundle holds no id.
    pub open spec fn is_empty(self) -> bool {
        self.storage == Set::<u64>::empty() && self.compute == Set::<(u64, u64)>::empty()
    }

    /// All ids of either bundle.
    pub open spec fn union(self, other: BundleView) -> BundleView {
        BundleView {
            storage: self.storage.union(other.storage),
            compute: self.compute.union(other.compute),
        }
    }

    /// The ids that both bundles hold.
    pub open spec fn intersect(self, other: BundleView) -> BundleView {
        BundleView {
            storage: self.storage.intersect(other.storage),
            compute: self.compute.intersect(other.compute),
        }
    }

    /// The bundle without collection `c`.
    pub open spec fn without(self, c: CollectionId) -> BundleView {
        match c {
            CollectionId::Storage(id) => BundleView {
                storage: self.storage.remove(id),
                compute: self.compute,
            },
            CollectionId::Compute(instance, id) => BundleView {
                storage: self.storage,
                compute: self.compute.remove((instance, id)),
            },
        }
    }

    /// Whether the two bundles share no id.
    pub open spec fn disjoint(self, other: BundleView) -> bool {
        self.storage.disjoint(other.storage) && self.compute.disjoint(other.compute)
    }
}

/// The pairs of instance and id that a map from instances to id sets holds.
pub open spec fn compute_pairs(m: Map<u64, BTreeSet<u64>>) -> Set<(u64, u64)> {
    Set::new(|p: (u64, u64)| m.contains_key(p.0) && m[p.0]@.contains(p.1))
}

/// A set of storage ids and, by compute instance, sets of compute ids.
#[derive(Debug, PartialEq, Eq)]
pub struct CollectionIdBundle {
    pub storage_ids: BTreeSet<GlobalId>,
    pub compute_ids: BTreeMap<ComputeInstanceId, BTreeSet<GlobalId>>,
}

impl View for CollectionIdBundle {
    type V = BundleView;

    open spec fn view(&self) -> BundleView {
        BundleView { storage: self.storage_ids@, compute: compute_pairs(self.compute_ids@) }
    }
}

/// The elements of a set, each once.
pub fn set_items(s: &BTreeSet<u64>) -> (v: Vec<u64>)
    ensures
        v@.to_set() == s@,
        v@.no_duplicates(),
{
    let mut v: Vec<u64> = Vec::new();
    let ghost all: Seq<u64> = s.iter().remaining().unref();
    for x in it: s.iter()
        invariant
            it.seq().unref() == all,
            v@ == all.take(it.index()),
            all.to_set() == s@,
            it.seq().no_duplicates(),
    {
        v.push(*x);
        assert(v@ =~= all.take(it.index() + 1));
    }
    assert(v@ =~= all);
    assert forall|i: int, j: int| 0 <= i < v@.len() && 0 <= j < v@.len() && i != j implies v@[i]
        != v@[j] by {}
    v
}

/// The keys of a map, each once.
pub fn map_keys<V>(m: &BTreeMap<u64, V>) -> (v: Vec<u64>)
    ensures
        v@.to_set() == m@.dom(),
        v@.no_duplicates(),
{
    let mut v: Vec<u64> = Vec::new();
    let ghost all: Seq<u64> = m.keys().remaining().unref();
    for x in it: m.keys()
        invariant
            it.seq().unref() == all,
            v@ == all.take(it.index()),
            all.to_set() == m@.dom(),
            it.seq().no_duplicates(),
    {
        v.push(*x);
        assert(v@ =~= all.take(it.index() + 1));
    }
    assert(v@ =~= all);
    assert forall|i: int, j: int| 0 <= i < v@.len() && 0 <= j < v@.len() && i != j implies v@[i]
        != v@[j] by {}
    v
}

impl CollectionIdBundle {
    /// No instance stands in the bundle without ids. Of two such bundles
    /// that hold the same ids, neither names an instance that the other
    /// does not.
    pub open spec fn wf(&self) -> bool {
        forall|instance: u64| #[trigger]
            self.compute_ids@.contains_key(instance) ==> self.compute_ids@[instance]@ != Set::<
                u64,
            >::empty()
    }

    /// Whether no instance stands in the bundle without ids: for a bundle
    /// that comes from elsewhere.
    pub fn is_well_formed(&self) -> (r: bool)
        ensures
            r == self.wf(),
    {
        let instances = map_keys(&self.compute_ids);
        let mut i: usize = 0;
        while i < instances.len()
            invariant
                i <= instances@.len(),
                instances@.to_set() == self.compute_ids@.dom(),
                forall|k: int|
                    0 <= k < i ==> (#[trigger] self.compute_ids@[instances@[k]])@ != Set::<
                        u64,
                    >::empty(),
            decreases instances@.len() - i,
        {
            let instance = instances[i];
            assert(instances@.to_set().contains(instance));
            match self.compute_ids.get(&instance) {
                Some(ids) => {
                    if ids.is_empty() {
                        return false;
                    }
                },
                None => {},
            }
            i = i + 1;
        }
        proof {
            assert forall|instance: u64| #[trigger]
                self.compute_ids@.contains_key(instance) implies self.compute_ids@[instance]@
                != Set::<u64>::empty() by {
                assert(instances@.to_set().contains(instance));
                let k = choose|k: int| 0 <= k < instances@.len() && instances@[k] == instance;
                assert(self.compute_ids@[instances@[k]]@ != Set::<u64>::empty());
            }
        }
        true
    }

    /// The bundle that holds nothing.
    pub fn new() -> (r: CollectionIdBundle)
        ensures
            r@ == BundleView::empty(),
            r.wf(),
    {
        let r = CollectionIdBundle { storage_ids: BTreeSet::new(), compute_ids: BTreeMap::new() };
        assert(r@.compute =~= Set::empty());
        r
    }

    /// Whether `id` is one of the storage ids.
    pub fn contains_storage(&self, id: GlobalId) -> (r: bool)
        ensures
            r == self@.storage.contains(id),
    {
        self.storage_ids.contains(&id)
    }

    /// Whether `id` is one of the compute ids of `instance`.
    pub fn contains_compute(&self, instance: ComputeInstanceId, id: GlobalId) -> (r: bool)
        ensures
            r == self@.compute.contains((instance, id)),
    {
        match self.compute_ids.get(&instance) {
            Some(ids) => ids.contains(&id),
            None => false,
        }
    }

    /// Adds a storage id.
    pub fn insert_storage(&mut self, id: GlobalId)
        ensures
            final(self)@.storage == old(self)@.storage.insert(id),
            final(self)@.compute == old(self)@.compute,
            old(self).wf() ==> final(self).wf(),
    {
        self.storage_ids.insert(id);
    }

    /// Adds a compute id of `instance`.
    pub fn insert_compute(&mut self, instance: ComputeInstanceId, id: GlobalId)
        ensures
            final(self)@.storage == old(self)@.storage,
            final(self)@.compute == old(self)@.compute.insert((instance, id)),
            old(self).wf() ==> final(self).wf(),
    {
        let mut ids = match self.compute_ids.remove(&instance) {
            Some(ids) => ids,
            None => BTreeSet::new(),
        };
        ids.insert(id);
        self.compute_ids.insert(instance, ids);
        assert(self@.compute =~= old(self)@.compute.insert((instance, id)));
        proof {
            if old(self).wf() {
                assert forall|i: u64| #[trigger]
                    self.compute_ids@.contains_key(i) implies self.compute_ids@[i]@ != Set::<
                    u64,
                >::empty() by {
                    if i == instance {
                        assert(ids@.contains(id));
                    } else {
                        assert(old(self).compute_ids@.contains_key(i));
                        assert(self.compute_ids@[i] == old(self).compute_ids@[i]);
                    }
                }
            }
        }
    }

    /// Takes a storage id out, if it is there.
    pub fn remove_storage(&mut self, id: GlobalId)
        ensures
            final(self)@.storage == old(self)@.storage.remove(id),
            final(self)@.compute == old(self)@.compute,
            old(self).wf() ==> final(self).wf(),
    {
        self.storage_ids.remove(&id);
    }

    /// Takes a compute id of `instance` out, if it is there. An instance
    /// whose last id leaves is forgotten.
    pub fn remove_compute(&mut self, instance: ComputeInstanceId, id: GlobalId)
        ensures
            final(self)@.storage == old(self)@.storage,
            final(self)@.compute == old(self)@.compute.remove((instance, id)),
            forall|i: u64|
                old(self).compute_ids@.contains_key(i) && i != instance
                    ==> #[trigger] final(self).compute_ids@.contains_key(i)
                    && final(self).compute_ids@[i] == old(self).compute_ids@[i],
            forall|i: u64| #[trigger]
                final(self).compute_ids@.contains_key(i) ==> old(self).compute_ids@.contains_key(i),
            final(self).compute_ids@.contains_key(instance) ==> final(self).compute_ids@[instance]@
                != Set::<u64>::empty(),
            old(self).wf() ==> final(self).wf(),
    {
        proof {
            if old(self).wf() {
                assert forall|i: u64| old(self).compute_ids@.contains_key(i) implies old(
                    self,
                ).compute_ids@[i]@ != Set::<u64>::empty() by {}
            }
        }
        match self.compute_ids.remove(&instance) {
            Some(ids) => {
                let mut ids = ids;
                ids.remove(&id);
                if !ids.is_empty() {
                    self.compute_ids.insert(instance, ids);
                    assert(self@.compute =~= old(self)@.compute.remove((instance, id)));
                } else {
                    assert(ids@ =~= Set::empty());
                    assert(self@.compute =~= old(self)@.compute.remove((instance, id))) by {
                        assert forall|p: (u64, u64)|
                            self@.compute.contains(p) <==> old(self)@.compute.remove(
                                (instance, id),
                            ).contains(p) by {
                            if p.0 == instance && old(self)@.compute.contains(p) && p.1 != id {
                                assert(ids@.contains(p.1));
                            }
                        }
                    }
                }
            },
            None => {
                assert(self.compute_ids@ =~= old(self).compute_ids@);
                assert(self@.compute =~= old(self)@.compute.remove((instance, id)));
            },
        }
    }

    /// Whether the bundle holds no id.
    pub fn is_empty(&self) -> (r: bool)
        ensures
            r == self@.is_empty(),
    {
        if !self.storage_ids.is_empty() {
            return false;
        }
        assert(self@.storage =~= Set::empty());
        let instances = map_keys(&self.compute_ids);
        let mut i: usize = 0;
        while i < instances.len()
            invariant
                i <= instances@.len(),
                instances@.to_set() == self.compute_ids@.dom(),
                forall|k: int|
                    0 <= k < i ==> (#[trigger] self.compute_ids@[instances@[k]])@
                        == Set::<u64>::empty(),
            decreases instances@.len() - i,
        {
            let instance = instances[i];
            assert(instances@.to_set().contains(instance));
            match self.compute_ids.get(&instance) {
                Some(ids) => {
                    if !ids.is_empty() {
                        let ghost id = ids@.choose();
                        assert(ids@.contains(id)) by {
                            if !ids@.contains(id) {
                                assert(ids@ =~= Set::empty());
                            }
                        }
                        assert(self@.compute.contains((instance, id)));
                        return false;
                    }
                    assert(ids@ =~= Set::empty());
                },
                None => {},
            }
            i = i + 1;
        }
        assert(self@.compute =~= Set::empty()) by {
            assert forall|p: (u64, u64)| !self@.compute.contains(p) by {
                if self@.compute.contains(p) {
                    assert(instances@.to_set().contains(p.0));
                    let k = choose|k: int| 0 <= k < instances@.len() && instances@[k] == p.0;
                    assert(self.compute_ids@[instances@[k]]@ == Set::<u64>::empty());
                }
            }
        }
        true
    }

    /// Adds every id of `other`.
    pub fn extend(&mut self, other: &CollectionIdBundle)
        ensures
            final(self)@ == old(self)@.union(other@),
            old(self).wf() ==> final(self).wf(),
    {
        let storage = other.storage_list();
        let mut i: usize = 0;
        while i < storage.len()
            invariant
                i <= storage@.len(),
                self@.storage == old(self)@.storage.union(storage@.take(i as int).to_set()),
                self@.compute == old(self)@.compute,
                old(self).wf() ==> self.wf(),
            decreases storage@.len() - i,
        {
            self.insert_storage(storage[i]);
            proof {
                lemma_take_step(storage@, i as int);
                assert(self@.storage =~= old(self)@.storage.union(
                    storage@.take(i + 1).to_set(),
                ));
            }
            i = i + 1;
        }
        assert(storage@.take(i as int) =~= storage@);
        let compute = other.compute_list();
        let mut j: usize = 0;
        while j < compute.len()
            invariant
                j <= compute@.len(),
                self@.storage == old(self)@.storage.union(other@.storage),
                self@.compute == old(self)@.compute.union(compute@.take(j as int).to_set()),
                old(self).wf() ==> self.wf(),
            decreases compute@.len() - j,
        {
            let (instance, id) = compute[j];
            self.insert_compute(instance, id);
            proof {
                lemma_take_step(compute@, j as int);
                assert(self@.compute =~= old(self)@.compute.union(
                    compute@.take(j + 1).to_set(),
                ));
            }
            j = j + 1;
        }
        assert(compute@.take(j as int) =~= compute@);
    }

    /// The ids that both `self` and `other` hold.
    pub fn intersection(&self, other: &CollectionIdBundle) -> (r: CollectionIdBundle)
        ensures
            r@ == self@.intersect(other@),
            r.wf(),
    {
        let mut r = CollectionIdBundle::new();
        let storage = self.storage_list();
        let mut i: usize = 0;
        while i < storage.len()
            invariant
                i <= storage@.len(),
                r@.storage == storage@.take(i as int).to_set().intersect(other@.storage),
                r@.compute == Set::<(u64, u64)>::empty(),
                r.wf(),
            decreases storage@.len() - i,
        {
            if other.contains_storage(storage[i]) {
                r.insert_storage(storage[i]);
            }
            proof {
                lemma_take_step(storage@, i as int);
                assert(r@.storage =~= storage@.take(i + 1).to_set().intersect(other@.storage));
            }
            i = i + 1;
        }
        assert(storage@.take(i as int) =~= storage@);
        let compute = self.compute_list();
        let mut j: usize = 0;
        while j < compute.len()
            invariant
                j <= compute@.len(),
                r@.storage == self@.storage.intersect(other@.storage),
                r@.compute == compute@.take(j as int).to_set().intersect(other@.compute),
                r.wf(),
            decreases compute@.len() - j,
        {
            let (instance, id) = compute[j];
            if other.contains_compute(instance, id) {
                r.insert_compute(instance, id);
            }
            proof {
                lemma_take_step(compute@, j as int);
                assert(r@.compute =~= compute@.take(j + 1).to_set().intersect(other@.compute));
            }
            j = j + 1;
        }
        assert(compute@.take(j as int) =~= compute@);
        r
    }

    /// A copy of this bundle.
    pub fn clone(&self) -> (r: CollectionIdBundle)
        ensures
            r@ == self@,
            r.wf() == self.wf(),
    {
        let r = CollectionIdBundle {
            storage_ids: self.storage_ids.clone(),
            compute_ids: self.compute_ids.clone(),
        };
        assert(r@.compute =~= self@.compute);
        r
    }

    /// The bundle of the given storage ids.
    pub fn from_storage_ids(ids: &Vec<GlobalId>) -> (r: CollectionIdBundle)
        ensures
            r@.storage == ids@.to_set(),
            r@.compute == Set::<(u64, u64)>::empty(),
            r.wf(),
    {
        let mut r = CollectionIdBundle::new();
        let mut i: usize = 0;
        while i < ids.len()
            invariant
                i <= ids@.len(),
                r@.storage == ids@.take(i as int).to_set(),
                r@.compute == Set::<(u64, u64)>::empty(),
                r.wf(),
            decreases ids@.len() - i,
        {
            r.insert_storage(ids[i]);
            proof {
                lemma_take_step(ids@, i as int);
            }
            i = i + 1;
        }
        assert(ids@.take(i as int) =~= ids@);
        r
    }

    /// The bundle of the given compute ids of `instance`.
    pub fn from_compute_ids(instance: ComputeInstanceId, ids: &Vec<GlobalId>) -> (r:
        CollectionIdBundle)
        ensures
            r@.storage == Set::<u64>::empty(),
            r@.compute == ids@.to_set().map(|id: u64| (instance, id)),
            r.wf(),
    {
        let mut r = CollectionIdBundle::new();
        let mut i: usize = 0;
        while i < ids.len()
            invariant
                i <= ids@.len(),
                r@.storage == Set::<u64>::empty(),
                r@.compute == ids@.take(i as int).to_set().map(|id: u64| (instance, id)),
                r.wf(),
            decreases ids@.len() - i,
        {
            r.insert_compute(instance, ids[i]);
            proof {
                lemma_take_step(ids@, i as int);
                let f = |id: u64| (instance, id);
                let a = ids@.take(i as int).to_set();
                assert(a.insert(ids@[i as int]).map(f) =~= a.map(f).insert(f(ids@[i as int])))
                    by {
                    assert forall|p: (u64, u64)|
                        a.insert(ids@[i as int]).map(f).contains(p) <==> a.map(f).insert(
                            f(ids@[i as int]),
                        ).contains(p) by {
                        if a.insert(ids@[i as int]).map(f).contains(p) {
                            let x = choose|x: u64| a.insert(ids@[i as int]).contains(x) && f(x) == p;
                            if x != ids@[i as int] {
                                assert(a.contains(x));
                            }
                        }
                        if a.map(f).contains(p) {
                            let x = choose|x: u64| a.contains(x) && f(x) == p;
                            assert(a.insert(ids@[i as int]).contains(x));
                        }
                        if p == f(ids@[i as int]) {
                            assert(a.insert(ids@[i as int]).contains(ids@[i as int]));
                        }
                    }
                }
            }
            i = i + 1;
        }
        assert(ids@.take(i as int) =~= ids@);
        r
    }

    /// Takes collection `c` out, if it is there.
    pub fn remove(&mut self, c: CollectionId)
        ensures
            final(self)@ == old(self)@.without(c),
            old(self).wf() ==> final(self).wf(),
    {
        match c {
            CollectionId::Storage(id) => self.remove_storage(id),
            CollectionId::Compute(instance, id) => self.remove_compute(instance, id),
        }
    }

    /// The storage ids, each once.
    pub fn storage_list(&self) -> (v: Vec<GlobalId>)
        ensures
            v@.to_set() == self@.storage,
            v@.no_duplicates(),
    {
        set_items(&self.storage_ids)
    }

    /// The compute ids as pairs of instance and id, each once.
    pub fn compute_list(&self) -> (v: Vec<(ComputeInstanceId, GlobalId)>)
        ensures
            v@.to_set() == self@.compute,
            v@.no_duplicates(),
    {
        let instances = map_keys(&self.compute_ids);
        let mut v: Vec<(u64, u64)> = Vec::new();
        let mut i: usize = 0;
        while i < instances.len()
            invariant
                i <= instances@.len(),
                instances@.to_set() == self.compute_ids@.dom(),
                instances@.no_duplicates(),
                v@.no_duplicates(),
                forall|p: (u64, u64)| #[trigger]
                    v@.contains(p) <==> self@.compute.contains(p) && instances@.take(
                        i as int,
                    ).contains(p.0),
            decreases instances@.len() - i,
        {
            let instance = instances[i];
            assert(instances@.to_set().contains(instance));
            let ids = match self.compute_ids.get(&instance) {
                Some(ids) => set_items(ids),
                None => Vec::new(),
            };
            let ghost before = v@;
            let ghost added = ids@.map_values(|id: u64| (instance, id));
            push_pairs(instance, &ids, &mut v);
            proof {
                assert forall|p: (u64, u64)| added.contains(p) <==> p.0 == instance
                    && self@.compute.contains(p) by {
                    if added.contains(p) {
                        let k = choose|k: int| 0 <= k < added.len() && added[k] == p;
                        assert(ids@[k] == p.1);
                        assert(ids@.contains(p.1));
                        assert(ids@.to_set().contains(p.1));
                    }
                    if p.0 == instance && self@.compute.contains(p) {
                        assert(ids@.to_set().contains(p.1));
                        let k = choose|k: int| 0 <= k < ids@.len() && ids@[k] == p.1;
                        assert(added[k] == p);
                    }
                }
                assert(added.no_duplicates()) by {
                    assert forall|a: int, b: int|
                        0 <= a < added.len() && 0 <= b < added.len() && a != b implies added[a]
                        != added[b] by {
                        assert(ids@[a] != ids@[b]);
                    }
                }
                assert forall|a: int, b: int|
                    0 <= a < before.len() && 0 <= b < added.len() implies before[a]
                    != added[b] by {
                    if before[a] == added[b] {
                        assert(before.contains(before[a]));
                        let k = choose|k: int|
                            0 <= k < instances@.take(i as int).len() && instances@.take(
                                i as int,
                            )[k] == instance;
                        assert(instances@[k] == instances@[i as int]);
                    }
                }
                vstd::seq_lib::lemma_no_dup_in_concat(before, added);
                let next = instances@.take(i + 1);
                assert forall|p: (u64, u64)| #[trigger]
                    v@.contains(p) <==> self@.compute.contains(p) && next.contains(p.0) by {
                    vstd::seq_lib::lemma_seq_concat_contains_all_elements(before, added, p);
                    if before.contains(p) {
                        let k = choose|k: int|
                            0 <= k < instances@.take(i as int).len() && instances@.take(
                                i as int,
                            )[k] == p.0;
                        assert(next[k] == p.0);
                    }
                    if added.contains(p) {
                        assert(next[i as int] == p.0);
                    }
                    if self@.compute.contains(p) && next.contains(p.0) {
                        let k = choose|k: int| 0 <= k < next.len() && next[k] == p.0;
                        if k < i {
                            assert(instances@.take(i as int)[k] == p.0);
                        }
                    }
                }
            }
            i = i + 1;
        }
        assert(v@.to_set() =~= self@.compute) by {
            assert(instances@.take(i as int) =~= instances@);
            assert forall|p: (u64, u64)| v@.to_set().contains(p) <==> self@.compute.contains(
                p,
            ) by {
                if self@.compute.contains(p) {
                    assert(instances@.to_set().contains(p.0));
                }
            }
        }
        v
    }
}

/// Well-formed bundles that hold the same ids name the same instances, each
/// with the same ids: what such a bundle is can be read from its ids.
pub proof fn lemma_bundle_by_view(a: CollectionIdBundle, b: CollectionIdBundle)
    requires
        a.wf(),
        b.wf(),
        a@ == b@,
    ensures
        a.storage_ids@ == b.storage_ids@,
        a.compute_ids@.dom() == b.compute_ids@.dom(),
        forall|instance: u64| #[trigger]
            a.compute_ids@.contains_key(instance) ==> a.compute_ids@[instance]@
                == b.compute_ids@[instance]@,
{
    assert forall|instance: u64| a.compute_ids@.contains_key(instance)
        <==> b.compute_ids@.contains_key(instance) by {
        if a.compute_ids@.contains_key(instance) {
            let ids = a.compute_ids@[instance]@;
            assert(!(ids =~= Set::<u64>::empty()));
            let id = choose|id: u64| ids.contains(id);
            assert(a@.compute.contains((instance, id)));
            assert(b@.compute.contains((instance, id)));
        }
        if b.compute_ids@.contains_key(instance) {
            let ids = b.compute_ids@[instance]@;
            assert(!(ids =~= Set::<u64>::empty()));
            let id = choose|id: u64| ids.contains(id);
            assert(b@.compute.contains((instance, id)));
            assert(a@.compute.contains((instance, id)));
        }
    }
    assert(a.compute_ids@.dom() =~= b.compute_ids@.dom());
    assert forall|instance: u64| #[trigger]
        a.compute_ids@.contains_key(instance) implies a.compute_ids@[instance]@
        == b.compute_ids@[instance]@ by {
        assert forall|id: u64| a.compute_ids@[instance]@.contains(id)
            <==> b.compute_ids@[instance]@.contains(id) by {
            if a.compute_ids@[instance]@.contains(id) {
                assert(a@.compute.contains((instance, id)));
                assert(b@.compute.contains((instance, id)));
            }
            if b.compute_ids@[instance]@.contains(id) {
                assert(b@.compute.contains((instance, id)));
                assert(a@.compute.contains((instance, id)));
            }
        }
        assert(a.compute_ids@[instance]@ =~= b.compute_ids@[instance]@);
    }
}

/// Taking one more element of a sequence adds that element to the set of
/// those taken.
pub proof fn lemma_take_step<T>(s: Seq<T>, i: int)
    requires
        0 <= i < s.len(),
    ensures
        s.take(i + 1).to_set() == s.take(i).to_set().insert(s[i]),
{
    assert(s.take(i + 1) =~= s.take(i).push(s[i]));
    s.take(i).lemma_push_to_set_commute(s[i]);
}

/// Appends to `out` the pair of `instance` with each of `ids`, in order.
fn push_pairs(instance: u64, ids: &Vec<u64>, out: &mut Vec<(u64, u64)>)
    ensures
        final(out)@ == old(out)@ + ids@.map_values(|id: u64| (instance, id)),
{
    let mut j: usize = 0;
    while j < ids.len()
        invariant
            j <= ids@.len(),
            out@ == old(out)@ + ids@.take(j as int).map_values(|id: u64| (instance, id)),
        decreases ids@.len() - j,
    {
        out.push((instance, ids[j]));
        assert(out@ =~= old(out)@ + ids@.take(j + 1).map_values(|id: u64| (instance, id)));
        j = j + 1;
    }
    assert(ids@.take(j as int) =~= ids@);
}

} // verus!
