//! What the controllers report about the collections they own.
//!
//! The storage controller and the compute controller own the collections
//! and move their frontiers. The coordinator reads from them the current
//! lower frontier of each collection: the frontier from which the
//! collection is still readable.
use crate::frontier::Frontier;
use crate::id_bundle::{BundleView, CollectionIdBundle, ComputeInstanceId, GlobalId};
use std::collections::BTreeMap;
use vstd::prelude::*;

verus! {

/// The current lower frontier of each storage collection by id, and of each
/// compute collection by instance and id.
pub struct FrontiersView {
    pub storage: Map<u64, Seq<u64>>,
    pub compute: Map<(u64, u64), Seq<u64>>,
}

impl FrontiersView {
    /// Whether every collection of `bundle` has a frontier: whether the
    /// controllers know them all.
    pub open spec fn covers(self, bundle: BundleView) -> bool {
        &&& forall|id: u64| #[trigger] bundle.storage.contains(id) ==> self.storage.contains_key(id)
        &&& forall|p: (u64, u64)| #[trigger]
            bundle.compute.contains(p) ==> self.compute.contains_key(p)
    }
}

/// The lower frontiers of the compute collections in a map by instance.
pub open spec fn compute_frontiers(m: Map<u64, BTreeMap<u64, Frontier>>) -> Map<
    (u64, u64),
    Seq<u64>,
> {
    Map::new(
        |p: (u64, u64)| m.contains_key(p.0) && m[p.0]@.contains_key(p.1),
        |p: (u64, u64)| m[p.0]@[p.1]@,
    )
}

/// A snapshot of the lower frontiers of the collections, as the controllers
/// report them.
pub struct CollectionFrontiers {
    pub storage: BTreeMap<GlobalId, Frontier>,
    pub compute: BTreeMap<ComputeInstanceId, BTreeMap<GlobalId, Frontier>>,
}

impl View for CollectionFrontiers {
    type V = FrontiersView;

    open spec fn view(&self) -> FrontiersView {
        FrontiersView {
            storage: self.storage@.map_values(|f: Frontier| f@),
            compute: compute_frontiers(self.compute@),
        }
    }
}

impl CollectionFrontiers {
    /// Every frontier is one.
    pub open spec fn wf(&self) -> bool {
        &&& forall|id: u64| #[trigger]
            self.storage@.contains_key(id) ==> self.storage@[id].wf()
        &&& forall|instance: u64, id: u64|
            self.compute@.contains_key(instance) && #[trigger] self.compute@[instance]@.contains_key(
                id,
            ) ==> self.compute@[instance]@[id].wf()
    }

    /// A snapshot that knows no collection.
    pub fn new() -> (r: CollectionFrontiers)
        ensures
            r@.storage == Map::<u64, Seq<u64>>::empty(),
            r@.compute == Map::<(u64, u64), Seq<u64>>::empty(),
            r.wf(),
    {
        let r = CollectionFrontiers { storage: BTreeMap::new(), compute: BTreeMap::new() };
        assert(r@.storage =~= Map::empty());
        assert(r@.compute =~= Map::empty());
        r
    }

    /// Records the lower frontier of storage collection `id`.
    pub fn insert_storage(&mut self, id: GlobalId, frontier: Frontier)
        requires
            old(self).wf(),
            frontier.wf(),
        ensures
            final(self).wf(),
            final(self)@.storage == old(self)@.storage.insert(id, frontier@),
            final(self)@.compute == old(self)@.compute,
    {
        self.storage.insert(id, frontier);
        assert(self@.storage =~= old(self)@.storage.insert(id, frontier@));
    }

    /// Records the lower frontier of collection `id` of `instance`.
    pub fn insert_compute(&mut self, instance: ComputeInstanceId, id: GlobalId, frontier: Frontier)
        requires
            old(self).wf(),
            frontier.wf(),
        ensures
            final(self).wf(),
            final(self)@.storage == old(self)@.storage,
            final(self)@.compute == old(self)@.compute.insert((instance, id), frontier@),
    {
        let mut inner = match self.compute.remove(&instance) {
            Some(inner) => inner,
            None => BTreeMap::new(),
        };
        inner.insert(id, frontier);
        self.compute.insert(instance, inner);
        assert(self@.compute =~= old(self)@.compute.insert((instance, id), frontier@));
    }

    /// The lower frontier of storage collection `id`, if the snapshot knows
    /// the collection.
    pub fn storage_since(&self, id: GlobalId) -> (r: Option<&Frontier>)
        requires
            self.wf(),
        ensures
            r is Some == self@.storage.contains_key(id),
            r matches Some(f) ==> f@ == self@.storage[id] && f.wf(),
    {
        self.storage.get(&id)
    }

    /// The lower frontier of collection `id` of `instance`, if the snapshot
    /// knows the collection.
    pub fn compute_since(&self, instance: ComputeInstanceId, id: GlobalId) -> (r: Option<&Frontier>)
        requires
            self.wf(),
        ensures
            r is Some == self@.compute.contains_key((instance, id)),
            r matches Some(f) ==> f@ == self@.compute[(instance, id)] && f.wf(),
    {
        match self.compute.get(&instance) {
            Some(inner) => inner.get(&id),
            None => None,
        }
    }

    /// Whether the snapshot knows every collection of `bundle`.
    pub fn covers_bundle(&self, bundle: &CollectionIdBundle) -> (r: bool)
        requires
            self.wf(),
        ensures
            r == self@.covers(bundle@),
    {
        let storage = bundle.storage_list();
        let mut i: usize = 0;
        while i < storage.len()
            invariant
                i <= storage@.len(),
                self.wf(),
                storage@.to_set() == bundle@.storage,
                forall|k: int| 0 <= k < i ==> self@.storage.contains_key(#[trigger] storage@[k]),
            decreases storage@.len() - i,
        {
            if self.storage_since(storage[i]).is_none() {
                assert(bundle@.storage.contains(storage@[i as int])) by {
                    assert(storage@.to_set().contains(storage@[i as int]));
                }
                return false;
            }
            i = i + 1;
        }
        let compute = bundle.compute_list();
        let mut j: usize = 0;
        while j < compute.len()
            invariant
                j <= compute@.len(),
                self.wf(),
                compute@.to_set() == bundle@.compute,
                forall|k: int| 0 <= k < j ==> self@.compute.contains_key(#[trigger] compute@[k]),
            decreases compute@.len() - j,
        {
            if self.compute_since(compute[j].0, compute[j].1).is_none() {
                assert(bundle@.compute.contains(compute@[j as int])) by {
                    assert(compute@.to_set().contains(compute@[j as int]));
                }
                return false;
            }
            j = j + 1;
        }
        proof {
            assert forall|id: u64| #[trigger] bundle@.storage.contains(id) implies self@.storage.contains_key(
                id,
            ) by {
                assert(storage@.to_set().contains(id));
                let k = choose|k: int| 0 <= k < storage@.len() && storage@[k] == id;
                assert(self@.storage.contains_key(storage@[k]));
            }
            assert forall|p: (u64, u64)| #[trigger] bundle@.compute.contains(p) implies self@.compute.contains_key(
                p,
            ) by {
                assert(compute@.to_set().contains(p));
                let k = choose|k: int| 0 <= k < compute@.len() && compute@[k] == p;
                assert(self@.compute.contains_key(compute@[k]));
            }
        }
        true
    }
}

} // verus!
