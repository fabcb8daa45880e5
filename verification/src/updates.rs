//! The policies that the coordinator hands to the controllers.
//!
//! After the holds on some collections have changed, the coordinator tells
//! the storage controller, and each compute instance concerned, the policy
//! now in force for each of those collections: one batch for storage, and
//! one batch for each compute instance.
use crate::capability::CapabilityView;
use crate::grouping::{group_by_key, is_grouping, lemma_items_of_contains};
use crate::id_bundle::{ComputeInstanceId, GlobalId};
use crate::policy::ReadPolicy;
use crate::read_holds::lemma_items_distinct;
use vstd::prelude::*;

verus! {

/// The policies to install: for storage a list of collections with their
/// policies, and for each compute instance concerned such a list.
#[derive(Debug, PartialEq, Eq)]
pub struct PolicyUpdates {
    pub storage: Vec<(GlobalId, ReadPolicy)>,
    pub compute: Vec<(ComputeInstanceId, Vec<(GlobalId, ReadPolicy)>)>,
}

/// Whether `updates` names, each once, the collections of `touched` that
/// have a capability in `table`, each with the policy that `table` has in
/// force for it.
pub open spec fn storage_settled(
    updates: Seq<(u64, ReadPolicy)>,
    touched: Set<u64>,
    table: Map<u64, CapabilityView>,
) -> bool {
    &&& forall|j: int|
        0 <= j < updates.len() ==> {
            &&& touched.contains((#[trigger] updates[j]).0)
            &&& table.contains_key(updates[j].0)
            &&& updates[j].1@ == table[updates[j].0].policy()
            &&& updates[j].1.wf()
        }
    &&& forall|id: u64|
        touched.contains(id) && table.contains_key(id) ==> exists|j: int|
            0 <= j < updates.len() && (#[trigger] updates[j]).0 == id
    &&& forall|i: int, j: int|
        0 <= i < updates.len() && 0 <= j < updates.len() && i != j ==> (#[trigger] updates[i]).0
            != (#[trigger] updates[j]).0
}

/// Whether `batches` holds, in ascending order of the instances, one batch
/// for each instance that has a collection in `touched` with a capability
/// in `table`, and each batch names, each once, those collections of its
/// instance, each with the policy that `table` has in force for it.
pub open spec fn compute_settled(
    batches: Seq<(u64, Vec<(u64, ReadPolicy)>)>,
    touched: Set<(u64, u64)>,
    table: Map<u64, CapabilityView>,
) -> bool {
    &&& forall|a: int, b: int|
        0 <= a < b < batches.len() ==> (#[trigger] batches[a]).0 < (#[trigger] batches[b]).0
    &&& forall|k: int| 0 <= k < batches.len() ==> (#[trigger] batches[k]).1@.len() > 0
    &&& forall|k: int, j: int|
        0 <= k < batches.len() && 0 <= j < batches[k].1@.len() ==> {
            &&& touched.contains((batches[k].0, (#[trigger] batches[k].1@[j]).0))
            &&& table.contains_key(batches[k].1@[j].0)
            &&& batches[k].1@[j].1@ == table[batches[k].1@[j].0].policy()
            &&& batches[k].1@[j].1.wf()
        }
    &&& forall|p: (u64, u64)|
        touched.contains(p) && table.contains_key(p.1) ==> exists|k: int, j: int|
            0 <= k < batches.len() && 0 <= j < batches[k].1@.len() && batches[k].0 == p.0
                && (#[trigger] batches[k].1@[j]).0 == p.1
    &&& forall|k: int, i: int, j: int|
        0 <= k < batches.len() && 0 <= i < batches[k].1@.len() && 0 <= j < batches[k].1@.len() && i
            != j ==> (#[trigger] batches[k].1@[i]).0 != (#[trigger] batches[k].1@[j]).0
}

/// Whether `policies` holds, for each of `ids` in order, the policy that
/// `table` has in force for it, or nothing where `table` has no capability
/// for it.
pub open spec fn policies_for(
    policies: Seq<Option<ReadPolicy>>,
    ids: Seq<u64>,
    table: Map<u64, CapabilityView>,
) -> bool {
    &&& policies.len() == ids.len()
    &&& forall|k: int|
        0 <= k < policies.len() ==> match #[trigger] policies[k] {
            Some(p) => table.contains_key(ids[k]) && p@ == table[ids[k]].policy() && p.wf(),
            None => !table.contains_key(ids[k]),
        }
}

/// Pairs each storage collection with its policy, and leaves out those
/// without one.
pub(crate) fn settle_storage(ids: &Vec<GlobalId>, policies: Vec<Option<ReadPolicy>>, Ghost(table): Ghost<
    Map<u64, CapabilityView>,
>) -> (r: Vec<(GlobalId, ReadPolicy)>)
    requires
        ids@.no_duplicates(),
        policies_for(policies@, ids@, table),
    ensures
        storage_settled(r@, ids@.to_set(), table),
{
    let mut out: Vec<(u64, ReadPolicy)> = Vec::new();
    let ghost all = policies@;
    let count: usize = policies.len();
    let mut i: usize = 0;
    for policy in it: policies.into_iter()
        invariant
            it.seq() == all,
            i == it.index(),
            all.len() == ids@.len(),
            all.len() == count,
            ids@.no_duplicates(),
            policies_for(all, ids@, table),
            forall|j: int|
                0 <= j < out@.len() ==> exists|k: int|
                    0 <= k < i && ids@[k] == (#[trigger] out@[j]).0 && all[k] == Some(out@[j].1),
            forall|k: int|
                0 <= k < i && all[k] is Some ==> exists|j: int|
                    0 <= j < out@.len() && (#[trigger] out@[j]).0 == ids@[k],
            forall|a: int, b: int|
                0 <= a < out@.len() && 0 <= b < out@.len() && a != b ==> (#[trigger] out@[a]).0
                    != (#[trigger] out@[b]).0,
    {
        let ghost before = out@;
        match policy {
            Some(p) => {
                out.push((ids[i], p));
                proof {
                    assert forall|j: int| 0 <= j < out@.len() implies exists|k: int|
                        0 <= k < i + 1 && ids@[k] == (#[trigger] out@[j]).0 && all[k] == Some(
                            out@[j].1,
                        ) by {
                        if j < before.len() {
                            assert(out@[j] == before[j]);
                            let k = choose|k: int|
                                0 <= k < i && ids@[k] == before[j].0 && all[k] == Some(before[j].1);
                            assert(0 <= k < i + 1 && ids@[k] == out@[j].0 && all[k] == Some(
                                out@[j].1,
                            ));
                        } else {
                            assert(ids@[i as int] == out@[j].0 && all[i as int] == Some(out@[j].1));
                        }
                    }
                    assert forall|k: int| 0 <= k < i + 1 && all[k] is Some implies exists|j: int|
                        0 <= j < out@.len() && (#[trigger] out@[j]).0 == ids@[k] by {
                        if k < i {
                            let j = choose|j: int|
                                0 <= j < before.len() && (#[trigger] before[j]).0 == ids@[k];
                            assert(out@[j] == before[j]);
                        } else {
                            assert(out@[before.len() as int].0 == ids@[k]);
                        }
                    }
                    assert forall|a: int, b: int|
                        0 <= a < out@.len() && 0 <= b < out@.len() && a != b implies (#[trigger] out@[a]).0
                        != (#[trigger] out@[b]).0 by {
                        if a < before.len() && b < before.len() {
                            assert(out@[a] == before[a] && out@[b] == before[b]);
                        } else {
                            let old_one = if a < before.len() {
                                a
                            } else {
                                b
                            };
                            assert(out@[old_one] == before[old_one]);
                            let k = choose|k: int|
                                0 <= k < i && ids@[k] == before[old_one].0 && all[k] == Some(
                                    before[old_one].1,
                                );
                            assert(ids@[k] != ids@[i as int]);
                        }
                    }
                }
            },
            None => {
                proof {
                    assert forall|j: int| 0 <= j < out@.len() implies exists|k: int|
                        0 <= k < i + 1 && ids@[k] == (#[trigger] out@[j]).0 && all[k] == Some(
                            out@[j].1,
                        ) by {
                        let k = choose|k: int|
                            0 <= k < i && ids@[k] == out@[j].0 && all[k] == Some(out@[j].1);
                        assert(0 <= k < i + 1 && ids@[k] == out@[j].0 && all[k] == Some(out@[j].1));
                    }
                }
            },
        }
        i = i + 1;
    }
    proof {
        assert forall|j: int| 0 <= j < out@.len() implies {
            &&& ids@.to_set().contains((#[trigger] out@[j]).0)
            &&& table.contains_key(out@[j].0)
            &&& out@[j].1@ == table[out@[j].0].policy()
            &&& out@[j].1.wf()
        } by {
            let k = choose|k: int| 0 <= k < i && ids@[k] == out@[j].0 && all[k] == Some(out@[j].1);
            assert(ids@.contains(ids@[k]));
            assert(all[k] is Some);
        }
        assert forall|id: u64| ids@.to_set().contains(id) && table.contains_key(id) implies exists|
            j: int,
        |
            0 <= j < out@.len() && (#[trigger] out@[j]).0 == id by {
            let k = choose|k: int| 0 <= k < ids@.len() && ids@[k] == id;
            assert(all[k] is Some);
        }
    }
    out
}

/// Pairs each compute collection with its policy, leaves out those without
/// one, and batches the rest by instance.
pub(crate) fn settle_compute(
    keys: &Vec<(ComputeInstanceId, GlobalId)>,
    policies: Vec<Option<ReadPolicy>>,
    Ghost(table): Ghost<Map<u64, CapabilityView>>,
) -> (r: Vec<(ComputeInstanceId, Vec<(GlobalId, ReadPolicy)>)>)
    requires
        keys@.no_duplicates(),
        policies_for(policies@, keys@.map_values(|p: (u64, u64)| p.1), table),
    ensures
        compute_settled(r@, keys@.to_set(), table),
{
    let mut flat: Vec<(u64, (u64, ReadPolicy))> = Vec::new();
    let ghost all = policies@;
    let count: usize = policies.len();
    let ghost ids = keys@.map_values(|p: (u64, u64)| p.1);
    let mut i: usize = 0;
    for policy in it: policies.into_iter()
        invariant
            it.seq() == all,
            i == it.index(),
            all.len() == keys@.len(),
            all.len() == count,
            keys@.no_duplicates(),
            ids == keys@.map_values(|p: (u64, u64)| p.1),
            policies_for(all, ids, table),
            forall|j: int|
                0 <= j < flat@.len() ==> exists|k: int|
                    0 <= k < i && keys@[k] == ((#[trigger] flat@[j]).0, flat@[j].1.0) && all[k]
                        == Some(flat@[j].1.1),
            forall|k: int|
                0 <= k < i && all[k] is Some ==> exists|j: int|
                    0 <= j < flat@.len() && ((#[trigger] flat@[j]).0, flat@[j].1.0) == keys@[k],
            forall|a: int, b: int|
                0 <= a < flat@.len() && 0 <= b < flat@.len() && a != b ==> ((#[trigger] flat@[a]).0, flat@[a].1.0)
                    != ((#[trigger] flat@[b]).0, flat@[b].1.0),
    {
        let ghost before = flat@;
        match policy {
            Some(p) => {
                flat.push((keys[i].0, (keys[i].1, p)));
                proof {
                    assert forall|j: int| 0 <= j < flat@.len() implies exists|k: int|
                        0 <= k < i + 1 && keys@[k] == ((#[trigger] flat@[j]).0, flat@[j].1.0)
                            && all[k] == Some(flat@[j].1.1) by {
                        if j < before.len() {
                            assert(flat@[j] == before[j]);
                            let k = choose|k: int|
                                0 <= k < i && keys@[k] == (before[j].0, before[j].1.0) && all[k]
                                    == Some(before[j].1.1);
                            assert(0 <= k < i + 1 && keys@[k] == (flat@[j].0, flat@[j].1.0)
                                && all[k] == Some(flat@[j].1.1));
                        } else {
                            assert(keys@[i as int] == (flat@[j].0, flat@[j].1.0) && all[i as int]
                                == Some(flat@[j].1.1));
                        }
                    }
                    assert forall|k: int| 0 <= k < i + 1 && all[k] is Some implies exists|j: int|
                        0 <= j < flat@.len() && ((#[trigger] flat@[j]).0, flat@[j].1.0)
                            == keys@[k] by {
                        if k < i {
                            let j = choose|j: int|
                                0 <= j < before.len() && ((#[trigger] before[j]).0, before[j].1.0)
                                    == keys@[k];
                            assert(flat@[j] == before[j]);
                        } else {
                            assert((flat@[before.len() as int].0, flat@[before.len() as int].1.0)
                                == keys@[k]);
                        }
                    }
                    assert forall|a: int, b: int|
                        0 <= a < flat@.len() && 0 <= b < flat@.len() && a != b implies ((#[trigger] flat@[a]).0, flat@[a].1.0)
                        != ((#[trigger] flat@[b]).0, flat@[b].1.0) by {
                        if a < before.len() && b < before.len() {
                            assert(flat@[a] == before[a] && flat@[b] == before[b]);
                        } else {
                            let old_one = if a < before.len() {
                                a
                            } else {
                                b
                            };
                            assert(flat@[old_one] == before[old_one]);
                            let k = choose|k: int|
                                0 <= k < i && keys@[k] == (before[old_one].0, before[old_one].1.0)
                                    && all[k] == Some(before[old_one].1.1);
                            assert(keys@[k] != keys@[i as int]);
                        }
                    }
                }
            },
            None => {
                proof {
                    assert forall|j: int| 0 <= j < flat@.len() implies exists|k: int|
                        0 <= k < i + 1 && keys@[k] == ((#[trigger] flat@[j]).0, flat@[j].1.0)
                            && all[k] == Some(flat@[j].1.1) by {
                        let k = choose|k: int|
                            0 <= k < i && keys@[k] == (flat@[j].0, flat@[j].1.0) && all[k] == Some(
                                flat@[j].1.1,
                            );
                        assert(0 <= k < i + 1 && keys@[k] == (flat@[j].0, flat@[j].1.0) && all[k]
                            == Some(flat@[j].1.1));
                    }
                }
            },
        }
        i = i + 1;
    }
    let ghost flat_view = flat@;
    proof {
        assert(flat_view.no_duplicates()) by {
            assert forall|a: int, b: int|
                0 <= a < flat_view.len() && 0 <= b < flat_view.len() && a != b implies flat_view[a]
                != flat_view[b] by {
                assert((flat_view[a].0, flat_view[a].1.0) != (flat_view[b].0, flat_view[b].1.0));
            }
        }
    }
    let batches = group_by_key(flat);
    proof {
        let touched = keys@.to_set();
        assert forall|k: int, j: int|
            0 <= k < batches@.len() && 0 <= j < batches@[k].1@.len() implies {
            &&& touched.contains((batches@[k].0, (#[trigger] batches@[k].1@[j]).0))
            &&& table.contains_key(batches@[k].1@[j].0)
            &&& batches@[k].1@[j].1@ == table[batches@[k].1@[j].0].policy()
            &&& batches@[k].1@[j].1.wf()
        } by {
            let v = batches@[k].1@[j];
            assert(batches@[k].1@.contains(v));
            lemma_items_of_contains(flat_view, batches@[k].0, v);
            let n = choose|n: int| 0 <= n < flat_view.len() && flat_view[n] == (batches@[k].0, v);
            let m = choose|m: int|
                0 <= m < i && keys@[m] == (flat_view[n].0, flat_view[n].1.0) && all[m] == Some(
                    flat_view[n].1.1,
                );
            assert(keys@.contains(keys@[m]));
            assert(ids[m] == keys@[m].1);
            assert(all[m] is Some);
        }
        assert forall|p: (u64, u64)| touched.contains(p) && table.contains_key(p.1) implies exists|
            k: int,
            j: int,
        |
            0 <= k < batches@.len() && 0 <= j < batches@[k].1@.len() && batches@[k].0 == p.0
                && (#[trigger] batches@[k].1@[j]).0 == p.1 by {
            let m = choose|m: int| 0 <= m < keys@.len() && keys@[m] == p;
            assert(ids[m] == p.1);
            assert(all[m] is Some);
            let n = choose|n: int|
                0 <= n < flat_view.len() && ((#[trigger] flat_view[n]).0, flat_view[n].1.0)
                    == keys@[m];
            let k = choose|k: int|
                0 <= k < batches@.len() && (#[trigger] batches@[k]).0 == (#[trigger] flat_view[n]).0;
            let v = flat_view[n].1;
            assert(flat_view.contains((batches@[k].0, v))) by {
                assert(flat_view[n] == (batches@[k].0, v));
            }
            lemma_items_of_contains(flat_view, batches@[k].0, v);
            let j = choose|j: int| 0 <= j < batches@[k].1@.len() && batches@[k].1@[j] == v;
            assert(batches@[k].1@[j].0 == p.1);
        }
        assert forall|k: int, a: int, b: int|
            0 <= k < batches@.len() && 0 <= a < batches@[k].1@.len() && 0 <= b
                < batches@[k].1@.len() && a != b implies (#[trigger] batches@[k].1@[a]).0
            != (#[trigger] batches@[k].1@[b]).0 by {
            let va = batches@[k].1@[a];
            let vb = batches@[k].1@[b];
            lemma_items_distinct(flat_view, batches@[k].0, a, b);
            assert(batches@[k].1@.contains(va));
            assert(batches@[k].1@.contains(vb));
            lemma_items_of_contains(flat_view, batches@[k].0, va);
            lemma_items_of_contains(flat_view, batches@[k].0, vb);
            let na = choose|n: int| 0 <= n < flat_view.len() && flat_view[n] == (batches@[k].0, va);
            let nb = choose|n: int| 0 <= n < flat_view.len() && flat_view[n] == (batches@[k].0, vb);
            if va.0 == vb.0 {
                assert(na != nb);
                assert((flat_view[na].0, flat_view[na].1.0) != (flat_view[nb].0, flat_view[nb].1.0));
            }
        }
    }
    batches
}

/// The policies of `batches` one by one, each with the instance of its
/// batch, in the order of the batches and within each batch.
pub open spec fn flat_batches(batches: Seq<(u64, Vec<(u64, ReadPolicy)>)>) -> Seq<
    (u64, (u64, ReadPolicy)),
>
    decreases batches.len(),
{
    if batches.len() == 0 {
        Seq::empty()
    } else {
        flat_batches(batches.drop_last()) + batches.last().1@.map_values(
            |p: (u64, ReadPolicy)| (batches.last().0, p),
        )
    }
}

/// The policies of `batches` one by one, each with the instance of its
/// batch.
pub fn flatten_batches(batches: Vec<(ComputeInstanceId, Vec<(GlobalId, ReadPolicy)>)>) -> (r: Vec<
    (ComputeInstanceId, (GlobalId, ReadPolicy)),
>)
    ensures
        r@ == flat_batches(batches@),
{
    let mut flat: Vec<(u64, (u64, ReadPolicy))> = Vec::new();
    let ghost all = batches@;
    for batch in it: batches.into_iter()
        invariant
            it.seq() == all,
            flat@ == flat_batches(all.take(it.index())),
    {
        let ghost i = it.index();
        let ghost before = flat@;
        let (instance, policies) = batch;
        let ghost items = policies@;
        for policy in inner: policies.into_iter()
            invariant
                inner.seq() == items,
                flat@ == before + items.take(inner.index()).map_values(
                    |p: (u64, ReadPolicy)| (instance, p),
                ),
        {
            flat.push((instance, policy));
            assert(flat@ =~= before + items.take(inner.index() + 1).map_values(
                |p: (u64, ReadPolicy)| (instance, p),
            ));
        }
        proof {
            assert(items.take(items.len() as int) =~= items);
            assert(all.take(i + 1).drop_last() =~= all.take(i));
            assert(all.take(i + 1).last() == all[i]);
        }
    }
    proof {
        assert(all.take(all.len() as int) =~= all);
    }
    flat
}

impl PolicyUpdates {
    /// No policies.
    pub fn new() -> (r: PolicyUpdates)
        ensures
            r.storage@.len() == 0,
            r.compute@.len() == 0,
    {
        PolicyUpdates { storage: Vec::new(), compute: Vec::new() }
    }

    /// Whether there is no policy to install.
    pub fn is_empty(&self) -> (r: bool)
        ensures
            r == (self.storage@.len() == 0 && self.compute@.len() == 0),
    {
        self.storage.len() == 0 && self.compute.len() == 0
    }

    /// Adds the policies of `other`, to be installed after those that are
    /// there. The storage policies of `other` follow those of `self`. The
    /// compute policies are batched anew: one batch for each instance of
    /// either, in ascending order of the instances, with the policies of
    /// `self` for the instance before those of `other`.
    pub fn merge(&mut self, other: PolicyUpdates)
        ensures
            final(self).storage@ == old(self).storage@ + other.storage@,
            is_grouping(
                final(self).compute@,
                flat_batches(old(self).compute@) + flat_batches(other.compute@),
            ),
    {
        let PolicyUpdates { storage, compute } = other;
        let mut more = storage;
        self.storage.append(&mut more);
        let mut taken: Vec<(u64, Vec<(u64, ReadPolicy)>)> = Vec::new();
        taken.append(&mut self.compute);
        let mut flat = flatten_batches(taken);
        let mut theirs = flatten_batches(compute);
        flat.append(&mut theirs);
        self.compute = group_by_key(flat);
    }
}

} // verus!
