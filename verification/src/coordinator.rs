//! The coordinator's side of read holds: it takes holds for its callers,
//! moves the holds of timelines forward, releases holds, and works out the
//! policy that each change leaves in force.
//!
//! The coordinator owns the read capabilities. The controllers own the
//! collections: what the coordinator needs from them, the lower frontier of
//! each collection, it is handed as a snapshot, and what it has for them,
//! the policies to install, it hands back.
use crate::capability::{
    count_at, names, untouched, update_applied, update_in_range, updates_distinct, CapabilityTable,
    CapabilityUpdate, CapabilityView, Provision,
};
use crate::collections::{CollectionFrontiers, FrontiersView};
use crate::frontier::{join_of, le_of, Frontier, Timestamp};
use crate::holds::{
    compute_pairs_of, entries_wf, holds_view, lemma_holds_of_no_entries,
    lemma_holds_push, storage_pairs, HoldEntry, HoldsMap, HoldsView,
};
use crate::id_bundle::{
    lemma_take_step, BundleView, CollectionIdBundle, ComputeInstanceId, GlobalId,
};
use crate::policy::{CompactionWindow, PolicyView, ReadPolicy};
use crate::read_holds::{ReadHoldsInner, TimelineReadHolds};
use crate::grouping::{group_by_key, items_of, lemma_items_of_contains, lemma_items_of_map};
use crate::updates::{
    compute_settled, policies_for, settle_compute, settle_storage, storage_settled, PolicyUpdates,
};
use std::collections::BTreeMap;
use vstd::prelude::*;

verus! {

/// The time at which a collection whose lower frontier is `since` can be
/// held when a hold at `time` is asked for: `time` itself, or the lower
/// frontier where the collection has moved past `time`.
pub open spec fn effective_time(time: u64, since: Seq<u64>) -> Seq<u64> {
    join_of(seq![time], since)
}

/// The holds that a request at `time` for the collections of `bundle` leads
/// to: each collection at its effective time.
pub open spec fn planned_holds(time: u64, bundle: BundleView, frontiers: FrontiersView) -> HoldsView {
    HoldsView {
        storage: Set::new(
            |p: (Seq<u64>, u64)|
                bundle.storage.contains(p.1) && p.0 == effective_time(time, frontiers.storage[p.1]),
        ),
        compute: Set::new(
            |p: (Seq<u64>, (u64, u64))|
                bundle.compute.contains(p.1) && p.0 == effective_time(time, frontiers.compute[p.1]),
        ),
    }
}

/// The holds of `holds` whose time is not the frontier of `time`: those
/// that a precise request at `time` cannot have. A hold at the empty
/// frontier, on a collection that can be read at no time any more, is one
/// of them.
pub open spec fn too_late(holds: HoldsView, time: u64) -> HoldsView {
    HoldsView {
        storage: Set::new(|p: (Seq<u64>, u64)| holds.storage.contains(p) && p.0 != seq![time]),
        compute: Set::new(
            |p: (Seq<u64>, (u64, u64))| holds.compute.contains(p) && p.0 != seq![time],
        ),
    }
}

/// Whether `held` names collection `id` with a time that holds `t`.
pub open spec fn held_at(held: Set<(Seq<u64>, u64)>, id: u64, t: u64) -> bool {
    exists|time: Seq<u64>| #[trigger] held.contains((time, id)) && time.contains(t)
}

/// The compute holds by collection id alone.
pub open spec fn by_id(compute: Set<(Seq<u64>, (u64, u64))>) -> Set<(Seq<u64>, u64)> {
    Set::new(
        |q: (Seq<u64>, u64)| exists|instance: u64| compute.contains((q.0, (instance, q.1))),
    )
}

/// Whether no collection id stands under two compute instances.
///
/// This is a demand of this library on the bundles and holds that it is
/// given, and nothing else establishes it: capabilities are kept by
/// collection id alone, and the contracts count one hold for an id at a
/// time, so an id named under two instances would stand for two holds that
/// the contracts could not tell apart. The functions that take or release
/// holds ask for it in `requires`; `ids_are_global` tests it.
pub open spec fn ids_global(compute: Set<(u64, u64)>) -> bool {
    forall|i1: u64, i2: u64, id: u64|
        #![trigger compute.contains((i1, id)), compute.contains((i2, id))]
        compute.contains((i1, id)) && compute.contains((i2, id)) ==> i1 == i2
}

/// What is done about a capability before its holds change.
pub enum ProvisionView {
    /// Nothing: a collection without a capability stays without.
    Keep,
    /// A capability is made where there is none, valid from this frontier.
    Default(Seq<u64>),
    /// A capability is made where there is none, and this base policy is
    /// installed.
    Install(PolicyView),
}

/// What a provision says.
pub open spec fn provision_view(p: Provision) -> ProvisionView {
    match p {
        Provision::Keep => ProvisionView::Keep,
        Provision::Default(since) => ProvisionView::Default(since@),
        Provision::Install(policy) => ProvisionView::Install(policy@),
    }
}

/// Whether `new` holds for collection `id` what `old` holds for it after
/// `provision`, with one more hold at each time at which `acquire` names
/// it, and one less at each time at which `release` names it.
pub open spec fn changed(
    old: Map<u64, CapabilityView>,
    new: Map<u64, CapabilityView>,
    id: u64,
    provision: ProvisionView,
    acquire: Set<(Seq<u64>, u64)>,
    release: Set<(Seq<u64>, u64)>,
) -> bool {
    &&& new.contains_key(id) == (old.contains_key(id) || !(provision is Keep))
    &&& new.contains_key(id) ==> {
        &&& new[id].base_policy == match provision {
            ProvisionView::Keep => old[id].base_policy,
            ProvisionView::Default(since) => if old.contains_key(id) {
                old[id].base_policy
            } else {
                PolicyView::ValidFrom(since)
            },
            ProvisionView::Install(policy) => policy,
        }
        &&& forall|t: u64| #[trigger]
            new[id].count(t) == (if old.contains_key(id) {
                old[id].count(t)
            } else {
                0
            }) + (if held_at(acquire, id, t) {
                1int
            } else {
                0
            }) - (if held_at(release, id, t) {
                1int
            } else {
                0
            })
    }
}

/// Whether `new` is `old` with the collections of `touched` changed as
/// [`changed`] says, and all others as they were.
pub open spec fn table_changed(
    old: Map<u64, CapabilityView>,
    new: Map<u64, CapabilityView>,
    touched: Set<u64>,
    provision: spec_fn(u64) -> ProvisionView,
    acquire: Set<(Seq<u64>, u64)>,
    release: Set<(Seq<u64>, u64)>,
) -> bool {
    &&& forall|id: u64| !touched.contains(id) ==> #[trigger] untouched(old, new, id)
    &&& forall|id: u64|
        touched.contains(id) ==> #[trigger] changed(old, new, id, provision(id), acquire, release)
}

/// The updates of a table, one for each collection of `touched`, change the
/// table as [`table_changed`] says.
pub proof fn lemma_table_changed(
    old: Map<u64, CapabilityView>,
    new: Map<u64, CapabilityView>,
    updates: Seq<CapabilityUpdate>,
    touched: Set<u64>,
    provision: spec_fn(u64) -> ProvisionView,
    acquire: Set<(Seq<u64>, u64)>,
    release: Set<(Seq<u64>, u64)>,
)
    requires
        forall|k: int| 0 <= k < updates.len() ==> update_applied(old, new, #[trigger] updates[k]),
        forall|id: u64|
            !names(updates, updates.len() as int, id) ==> #[trigger] untouched(old, new, id),
        forall|id: u64| touched.contains(id) <==> names(updates, updates.len() as int, id),
        forall|k: int|
            0 <= k < updates.len() ==> provision_view((#[trigger] updates[k]).provision)
                == provision(updates[k].id),
        forall|k: int, t: u64|
            0 <= k < updates.len() ==> ((#[trigger] updates[k]).acquire@.contains(t) <==> #[trigger] held_at(
                acquire,
                updates[k].id,
                t,
            )),
        forall|k: int, t: u64|
            0 <= k < updates.len() ==> ((#[trigger] updates[k]).release@.contains(t) <==> #[trigger] held_at(
                release,
                updates[k].id,
                t,
            )),
    ensures
        table_changed(old, new, touched, provision, acquire, release),
{
    assert forall|id: u64| touched.contains(id) implies #[trigger] changed(
        old,
        new,
        id,
        provision(id),
        acquire,
        release,
    ) by {
        let k = choose|k: int|
            0 <= k < updates.len() && k < updates.len() && (#[trigger] updates[k]).id == id;
        let u = updates[k];
        assert(update_applied(old, new, u));
        assert(provision_view(u.provision) == provision(id));
        if new.contains_key(id) {
            assert forall|t: u64| #[trigger]
                new[id].count(t) == (if old.contains_key(id) {
                    old[id].count(t)
                } else {
                    0
                }) + (if held_at(acquire, id, t) {
                    1int
                } else {
                    0
                }) - (if held_at(release, id, t) {
                    1int
                } else {
                    0
                }) by {
                assert(u.acquire@.contains(t) <==> held_at(acquire, u.id, t));
                assert(u.release@.contains(t) <==> held_at(release, u.id, t));
            }
        }
    }
}

/// The planned holds are on the collections of the bundle, and on no
/// other.
pub proof fn lemma_planned_bundle(time: u64, bundle: BundleView, frontiers: FrontiersView)
    ensures
        planned_holds(time, bundle, frontiers).bundle() == bundle,
        planned_holds(time, bundle, frontiers).is_partition(),
{
    let planned = planned_holds(time, bundle, frontiers);
    assert forall|id: u64| planned.holds_storage(id) <==> bundle.storage.contains(id) by {
        if bundle.storage.contains(id) {
            assert(planned.storage.contains((effective_time(time, frontiers.storage[id]), id)));
        }
    }
    assert forall|p: (u64, u64)| planned.holds_compute(p.0, p.1) <==> bundle.compute.contains(
        p,
    ) by {
        if bundle.compute.contains(p) {
            assert(planned.compute.contains(
                (effective_time(time, frontiers.compute[p]), (p.0, p.1)),
            ));
        }
    }
    assert(planned.bundle().storage =~= bundle.storage);
    assert(planned.bundle().compute =~= bundle.compute);
}

/// The read holds that a request at `time` for the collections of
/// `id_bundle` leads to. Each collection is held at `time` where it can be,
/// and else at its lower frontier, the earliest time at which it can still
/// be read. Nothing is changed: the holds are planned, not yet in force.
pub fn plan_read_holds(
    time: Timestamp,
    id_bundle: &CollectionIdBundle,
    frontiers: &CollectionFrontiers,
) -> (r: HoldsMap)
    requires
        frontiers.wf(),
        frontiers@.covers(id_bundle@),
    ensures
        r.wf(),
        r@ == planned_holds(time, id_bundle@, frontiers@),
{
    let mut holds = HoldsMap::new();
    let asked = Frontier::from_elem(time);
    let storage = id_bundle.storage_list();
    let ghost fv = frontiers@;
    let mut i: usize = 0;
    proof {
        let none = BundleView { storage: storage@.take(0).to_set(), compute: Set::empty() };
        assert(planned_holds(time, none, fv).storage =~= Set::empty());
        assert(planned_holds(time, none, fv).compute =~= Set::empty());
    }
    while i < storage.len()
        invariant
            i <= storage@.len(),
            storage@.to_set() == id_bundle@.storage,
            storage@.no_duplicates(),
            frontiers.wf(),
            fv == frontiers@,
            fv.covers(id_bundle@),
            asked@ == seq![time],
            asked.wf(),
            holds.wf(),
            holds@ == planned_holds(
                time,
                BundleView { storage: storage@.take(i as int).to_set(), compute: Set::empty() },
                fv,
            ),
        decreases storage@.len() - i,
    {
        let id = storage[i];
        assert(storage@.to_set().contains(id));
        let since = frontiers.storage_since(id).unwrap();
        let effective = asked.join(since);
        let mut one = CollectionIdBundle::new();
        one.insert_storage(id);
        proof {
            assert(!one@.is_empty()) by {
                assert(one@.storage.contains(id));
            }
            assert forall|t: Seq<u64>, c: u64|
                one@.storage.contains(c) && #[trigger] holds@.storage.contains((t, c)) implies t
                == effective@ by {
                assert(storage@.take(i as int).to_set().contains(c));
                let k = choose|k: int|
                    0 <= k < storage@.take(i as int).len() && storage@.take(i as int)[k] == c;
                assert(storage@[k] == storage@[i as int]);
            }
        }
        holds.extend_at(&effective, &one);
        proof {
            lemma_take_step(storage@, i as int);
            let next = planned_holds(
                time,
                BundleView { storage: storage@.take(i + 1).to_set(), compute: Set::empty() },
                fv,
            );
            assert(holds@.storage =~= next.storage);
            assert(holds@.compute =~= next.compute);
        }
        i = i + 1;
    }
    assert(storage@.take(i as int) =~= storage@);
    let compute = id_bundle.compute_list();
    let mut j: usize = 0;
    proof {
        let none = BundleView { storage: id_bundle@.storage, compute: compute@.take(0).to_set() };
        assert(planned_holds(time, none, fv).compute =~= Set::empty());
        assert(holds@.storage =~= planned_holds(time, none, fv).storage);
    }
    while j < compute.len()
        invariant
            j <= compute@.len(),
            compute@.to_set() == id_bundle@.compute,
            compute@.no_duplicates(),
            frontiers.wf(),
            fv == frontiers@,
            fv.covers(id_bundle@),
            asked@ == seq![time],
            asked.wf(),
            holds.wf(),
            holds@ == planned_holds(
                time,
                BundleView {
                    storage: id_bundle@.storage,
                    compute: compute@.take(j as int).to_set(),
                },
                fv,
            ),
        decreases compute@.len() - j,
    {
        let (instance, id) = compute[j];
        assert(compute@.to_set().contains((instance, id)));
        let since = frontiers.compute_since(instance, id).unwrap();
        let effective = asked.join(since);
        let mut one = CollectionIdBundle::new();
        one.insert_compute(instance, id);
        proof {
            assert(!one@.is_empty()) by {
                assert(one@.compute.contains((instance, id)));
            }
            assert forall|t: Seq<u64>, p: (u64, u64)|
                one@.compute.contains(p) && #[trigger] holds@.compute.contains((t, p)) implies t
                == effective@ by {
                assert(compute@.take(j as int).to_set().contains(p));
                let k = choose|k: int|
                    0 <= k < compute@.take(j as int).len() && compute@.take(j as int)[k] == p;
                assert(compute@[k] == compute@[j as int]);
            }
        }
        holds.extend_at(&effective, &one);
        proof {
            lemma_take_step(compute@, j as int);
            let next = planned_holds(
                time,
                BundleView {
                    storage: id_bundle@.storage,
                    compute: compute@.take(j + 1).to_set(),
                },
                fv,
            );
            assert(holds@.storage =~= next.storage);
            assert(holds@.compute =~= next.compute);
        }
        j = j + 1;
    }
    assert(compute@.take(j as int) =~= compute@);
    holds
}

/// The entries of `holds` whose time is not the frontier of `time`.
pub fn late_entries(holds: &HoldsMap, time: Timestamp) -> (r: Vec<HoldEntry>)
    requires
        holds.wf(),
    ensures
        holds_view(r@) == too_late(holds@, time),
        entries_wf(r@),
        r@.len() == 0 <==> too_late(holds@, time).is_empty(),
{
    let mut late: Vec<HoldEntry> = Vec::new();
    let asked = Frontier::from_elem(time);
    let mut i: usize = 0;
    proof {
        assert(holds.entries@.take(0) =~= Seq::<HoldEntry>::empty());
        lemma_holds_of_no_entries();
        assert(too_late(HoldsView::empty(), time).storage =~= Set::empty());
        assert(too_late(HoldsView::empty(), time).compute =~= Set::empty());
    }
    while i < holds.entries.len()
        invariant
            i <= holds.entries@.len(),
            holds.wf(),
            asked@ == seq![time],
            entries_wf(late@),
            holds_view(late@) == too_late(holds_view(holds.entries@.take(i as int)), time),
            forall|k: int|
                0 <= k < late@.len() ==> exists|j: int|
                    0 <= j < i && (#[trigger] holds.entries@[j]).0@ == (#[trigger] late@[k]).0@,
        decreases holds.entries@.len() - i,
    {
        let ghost e = holds.entries@[i as int];
        let ghost done = holds.entries@.take(i as int);
        let ghost before = late@;
        proof {
            assert(holds.entries@.take(i + 1) =~= done.push(e));
            lemma_holds_push(done, e);
        }
        if !holds.entries[i].0.same_as(&asked) {
            let key = holds.entries[i].0.clone();
            let ids = holds.entries[i].1.clone();
            let ghost pushed: HoldEntry = (key, ids);
            proof {
                lemma_holds_push(before, pushed);
                assert forall|k: int| 0 <= k < before.len() implies (#[trigger] before[k]).0@
                    != key@ by {
                    let j = choose|j: int|
                        0 <= j < i && (#[trigger] holds.entries@[j]).0@ == before[k].0@;
                    assert(holds.entries@[j].0@ != holds.entries@[i as int].0@);
                }
            }
            late.push((key, ids));
            proof {
                assert(late@ =~= before.push(pushed));
                let next = too_late(holds_view(holds.entries@.take(i + 1)), time);
                assert(holds_view(late@).storage =~= next.storage);
                assert(holds_view(late@).compute =~= next.compute);
                assert forall|k: int| 0 <= k < late@.len() implies exists|j: int|
                    0 <= j < i + 1 && (#[trigger] holds.entries@[j]).0@ == (#[trigger] late@[k]).0@ by {
                    if k < before.len() {
                        assert(late@[k] == before[k]);
                        let j = choose|j: int|
                            0 <= j < i && (#[trigger] holds.entries@[j]).0@ == before[k].0@;
                        assert(0 <= j < i + 1 && holds.entries@[j].0@ == late@[k].0@);
                    } else {
                        assert(holds.entries@[i as int].0@ == late@[k].0@);
                    }
                }
                assert(entries_wf(late@)) by {
                    assert forall|a: int, b: int|
                        0 <= a < late@.len() && 0 <= b < late@.len() && a != b implies (#[trigger] late@[a]).0@
                        != (#[trigger] late@[b]).0@ by {
                        if a < before.len() {
                            assert(late@[a] == before[a]);
                        }
                        if b < before.len() {
                            assert(late@[b] == before[b]);
                        }
                    }
                    assert forall|a: int| 0 <= a < late@.len() implies (#[trigger] late@[a]).0.wf() by {
                        if a < before.len() {
                            assert(late@[a] == before[a]);
                        } else {
                            assert(holds.entries@[i as int].0.wf());
                        }
                    }
                    assert forall|a: int| 0 <= a < late@.len() implies !(#[trigger] late@[a]).1@.is_empty() by {
                        if a < before.len() {
                            assert(late@[a] == before[a]);
                        } else {
                            assert(!holds.entries@[i as int].1@.is_empty());
                        }
                    }
                }
            }
        } else {
            proof {
                let next = too_late(holds_view(holds.entries@.take(i + 1)), time);
                assert(holds_view(late@).storage =~= next.storage);
                assert(holds_view(late@).compute =~= next.compute);
                assert forall|k: int| 0 <= k < late@.len() implies exists|j: int|
                    0 <= j < i + 1 && (#[trigger] holds.entries@[j]).0@ == (#[trigger] late@[k]).0@ by {
                    let j = choose|j: int|
                        0 <= j < i && (#[trigger] holds.entries@[j]).0@ == late@[k].0@;
                    assert(0 <= j < i + 1 && holds.entries@[j].0@ == late@[k].0@);
                }
            }
        }
        i = i + 1;
    }
    proof {
        assert(holds.entries@.take(i as int) =~= holds.entries@);
        if late@.len() == 0 {
            lemma_holds_of_no_entries();
            assert(late@ =~= Seq::<HoldEntry>::empty());
        } else {
            let e = late@[0];
            assert(!e.1@.is_empty());
            if e.1@.storage != Set::<u64>::empty() {
                assert(!(e.1@.storage =~= Set::<u64>::empty()));
                let id = choose|id: u64| e.1@.storage.contains(id);
                assert(holds_view(late@).storage.contains((e.0@, id)));
            } else {
                assert(!(e.1@.compute =~= Set::<(u64, u64)>::empty()));
                let p = choose|p: (u64, u64)| e.1@.compute.contains(p);
                assert(holds_view(late@).compute.contains((e.0@, p)));
            }
        }
    }
    late
}

/// How the capability updates for a list of holds are made.
pub enum UpdateMode {
    /// A hold is added for each; a collection without a capability gets one
    /// that is valid from its lower frontier.
    Acquire,
    /// A hold is added for each, and each gets this base policy.
    Initialize(ReadPolicy),
    /// A hold is added for each; a collection without a capability is
    /// skipped.
    Hold,
    /// A hold is dropped for each; a collection without a capability is
    /// skipped.
    Release,
}

/// What an update mode says.
pub enum ModeView {
    Acquire,
    Initialize(PolicyView),
    Hold,
    Release,
}

impl View for UpdateMode {
    type V = ModeView;

    open spec fn view(&self) -> ModeView {
        match self {
            UpdateMode::Acquire => ModeView::Acquire,
            UpdateMode::Initialize(policy) => ModeView::Initialize(policy@),
            UpdateMode::Hold => ModeView::Hold,
            UpdateMode::Release => ModeView::Release,
        }
    }
}

/// The ids of a list of holds, in order.
pub open spec fn ids_of(list: Seq<(Frontier, u64)>) -> Seq<u64> {
    list.map_values(|p: (Frontier, u64)| p.1)
}

/// Whether `list` names no collection twice, and every time in it is a
/// frontier.
pub open spec fn list_wf(list: Seq<(Frontier, u64)>) -> bool {
    &&& forall|i: int, j: int|
        0 <= i < list.len() && 0 <= j < list.len() && i != j ==> (#[trigger] list[i]).1
            != (#[trigger] list[j]).1
    &&& forall|i: int| 0 <= i < list.len() ==> (#[trigger] list[i]).0.wf()
}

/// The capability updates for a list of holds: one for each hold, in order.
pub(crate) fn updates_for(list: &Vec<(Frontier, GlobalId)>, mode: &UpdateMode, sinces: &Vec<Frontier>) -> (r:
    Vec<CapabilityUpdate>)
    requires
        list_wf(list@),
        mode is Acquire ==> sinces@.len() == list@.len() && forall|k: int|
            0 <= k < sinces@.len() ==> (#[trigger] sinces@[k]).wf(),
        mode matches UpdateMode::Initialize(policy) ==> policy.wf(),
    ensures
        r@.len() == list@.len(),
        updates_distinct(r@),
        forall|k: int|
            0 <= k < r@.len() ==> {
                &&& (#[trigger] r@[k]).id == list@[k].1
                &&& r@[k].wf()
                &&& provision_view(r@[k].provision) == match mode {
                    UpdateMode::Acquire => ProvisionView::Default(sinces@[k]@),
                    UpdateMode::Initialize(policy) => ProvisionView::Install(policy@),
                    UpdateMode::Hold => ProvisionView::Keep,
                    UpdateMode::Release => ProvisionView::Keep,
                }
                &&& r@[k].acquire@ == if mode is Release {
                    Seq::<u64>::empty()
                } else {
                    list@[k].0@
                }
                &&& r@[k].release@ == if mode is Release {
                    list@[k].0@
                } else {
                    Seq::<u64>::empty()
                }
            },
{
    let mut updates: Vec<CapabilityUpdate> = Vec::new();
    let mut i: usize = 0;
    while i < list.len()
        invariant
            i <= list@.len(),
            list_wf(list@),
            mode is Acquire ==> sinces@.len() == list@.len() && forall|k: int|
                0 <= k < sinces@.len() ==> (#[trigger] sinces@[k]).wf(),
            mode matches UpdateMode::Initialize(policy) ==> policy.wf(),
            updates@.len() == i,
            forall|k: int|
                0 <= k < i ==> {
                    &&& (#[trigger] updates@[k]).id == list@[k].1
                    &&& updates@[k].wf()
                    &&& provision_view(updates@[k].provision) == match mode {
                        UpdateMode::Acquire => ProvisionView::Default(sinces@[k]@),
                        UpdateMode::Initialize(policy) => ProvisionView::Install(policy@),
                        UpdateMode::Hold => ProvisionView::Keep,
                        UpdateMode::Release => ProvisionView::Keep,
                    }
                    &&& updates@[k].acquire@ == if mode is Release {
                        Seq::<u64>::empty()
                    } else {
                        list@[k].0@
                    }
                    &&& updates@[k].release@ == if mode is Release {
                        list@[k].0@
                    } else {
                        Seq::<u64>::empty()
                    }
                },
        decreases list@.len() - i,
    {
        let id = list[i].1;
        let time = list[i].0.clone();
        assert(list@[i as int].0.wf());
        let update = match mode {
            UpdateMode::Acquire => CapabilityUpdate {
                id,
                provision: Provision::Default(sinces[i].clone()),
                acquire: time,
                release: Frontier::new(),
            },
            UpdateMode::Initialize(policy) => CapabilityUpdate {
                id,
                provision: Provision::Install(policy.clone()),
                acquire: time,
                release: Frontier::new(),
            },
            UpdateMode::Hold => CapabilityUpdate {
                id,
                provision: Provision::Keep,
                acquire: time,
                release: Frontier::new(),
            },
            UpdateMode::Release => CapabilityUpdate {
                id,
                provision: Provision::Keep,
                acquire: Frontier::new(),
                release: time,
            },
        };
        updates.push(update);
        i = i + 1;
    }
    updates
}

/// The ids of a list of holds, in order.
pub(crate) fn list_ids(list: &Vec<(Frontier, GlobalId)>) -> (r: Vec<GlobalId>)
    ensures
        r@ == ids_of(list@),
{
    let mut ids: Vec<u64> = Vec::new();
    let mut i: usize = 0;
    while i < list.len()
        invariant
            i <= list@.len(),
            ids@ == ids_of(list@.take(i as int)),
        decreases list@.len() - i,
    {
        ids.push(list[i].1);
        assert(ids@ =~= ids_of(list@.take(i + 1)));
        i = i + 1;
    }
    assert(list@.take(i as int) =~= list@);
    ids
}

/// The lower frontier of each storage collection of a list of holds, in
/// order.
pub(crate) fn storage_sinces(list: &Vec<(Frontier, GlobalId)>, frontiers: &CollectionFrontiers) -> (r: Vec<
    Frontier,
>)
    requires
        frontiers.wf(),
        forall|k: int|
            0 <= k < list@.len() ==> frontiers@.storage.contains_key((#[trigger] list@[k]).1),
    ensures
        r@.len() == list@.len(),
        forall|k: int|
            0 <= k < r@.len() ==> (#[trigger] r@[k])@ == frontiers@.storage[list@[k].1]
                && r@[k].wf(),
{
    let mut sinces: Vec<Frontier> = Vec::new();
    let mut i: usize = 0;
    while i < list.len()
        invariant
            i <= list@.len(),
            frontiers.wf(),
            forall|k: int|
                0 <= k < list@.len() ==> frontiers@.storage.contains_key((#[trigger] list@[k]).1),
            sinces@.len() == i,
            forall|k: int|
                0 <= k < i ==> (#[trigger] sinces@[k])@ == frontiers@.storage[list@[k].1]
                    && sinces@[k].wf(),
        decreases list@.len() - i,
    {
        assert(frontiers@.storage.contains_key(list@[i as int].1));
        let since = frontiers.storage_since(list[i].1).unwrap();
        sinces.push(since.clone());
        i = i + 1;
    }
    sinces
}

/// The lower frontier of each compute collection of a list of holds, in
/// order.
pub(crate) fn compute_sinces(
    list: &Vec<(Frontier, (ComputeInstanceId, GlobalId))>,
    frontiers: &CollectionFrontiers,
) -> (r: Vec<Frontier>)
    requires
        frontiers.wf(),
        forall|k: int|
            0 <= k < list@.len() ==> frontiers@.compute.contains_key((#[trigger] list@[k]).1),
    ensures
        r@.len() == list@.len(),
        forall|k: int|
            0 <= k < r@.len() ==> (#[trigger] r@[k])@ == frontiers@.compute[list@[k].1]
                && r@[k].wf(),
{
    let mut sinces: Vec<Frontier> = Vec::new();
    let mut i: usize = 0;
    while i < list.len()
        invariant
            i <= list@.len(),
            frontiers.wf(),
            forall|k: int|
                0 <= k < list@.len() ==> frontiers@.compute.contains_key((#[trigger] list@[k]).1),
            sinces@.len() == i,
            forall|k: int|
                0 <= k < i ==> (#[trigger] sinces@[k])@ == frontiers@.compute[list@[k].1]
                    && sinces@[k].wf(),
        decreases list@.len() - i,
    {
        assert(frontiers@.compute.contains_key(list@[i as int].1));
        let since = frontiers.compute_since(list[i].1.0, list[i].1.1).unwrap();
        sinces.push(since.clone());
        i = i + 1;
    }
    sinces
}

/// A list of compute holds as a list of holds by collection id, and the
/// instances and ids of the collections, both in the order of the list.
pub(crate) fn split_compute(list: &Vec<(Frontier, (ComputeInstanceId, GlobalId))>) -> (r: (
    Vec<(Frontier, GlobalId)>,
    Vec<(ComputeInstanceId, GlobalId)>,
))
    ensures
        r.0@.len() == list@.len(),
        r.1@.len() == list@.len(),
        forall|k: int|
            0 <= k < list@.len() ==> (#[trigger] r.0@[k]).0@ == list@[k].0@ && r.0@[k].1
                == list@[k].1.1,
        forall|k: int| 0 <= k < list@.len() ==> #[trigger] r.1@[k] == list@[k].1,
{
    let mut holds: Vec<(Frontier, u64)> = Vec::new();
    let mut keys: Vec<(u64, u64)> = Vec::new();
    let mut i: usize = 0;
    while i < list.len()
        invariant
            i <= list@.len(),
            holds@.len() == i,
            keys@.len() == i,
            forall|k: int|
                0 <= k < i ==> (#[trigger] holds@[k]).0@ == list@[k].0@ && holds@[k].1
                    == list@[k].1.1,
            forall|k: int| 0 <= k < i ==> #[trigger] keys@[k] == list@[k].1,
        decreases list@.len() - i,
    {
        holds.push((list[i].0.clone(), list[i].1.1));
        keys.push(list[i].1);
        i = i + 1;
    }
    (holds, keys)
}

/// Whether each of the holds `held` can be added: no count that would grow
/// has reached the greatest `i64`.
pub open spec fn has_room(table: Map<u64, CapabilityView>, held: Set<(Seq<u64>, u64)>) -> bool {
    forall|id: u64, t: u64|
        held_at(held, id, t) && table.contains_key(id) ==> #[trigger] table[id].count(t)
            < i64::MAX
}

/// Whether each of the holds `held` can be dropped: no count that would
/// shrink has reached the least `i64`.
pub open spec fn can_release(table: Map<u64, CapabilityView>, held: Set<(Seq<u64>, u64)>) -> bool {
    forall|id: u64, t: u64|
        held_at(held, id, t) && table.contains_key(id) ==> #[trigger] table[id].count(t)
            > i64::MIN
}

/// The provision that `mode` makes for the collection whose lower frontier
/// is `since`.
pub open spec fn mode_provision(mode: ModeView, since: Seq<u64>) -> ProvisionView {
    match mode {
        ModeView::Acquire => ProvisionView::Default(since),
        ModeView::Initialize(policy) => ProvisionView::Install(policy),
        ModeView::Hold => ProvisionView::Keep,
        ModeView::Release => ProvisionView::Keep,
    }
}

/// Applies to `table` the capability updates for `list`, made as `mode`
/// says. The result holds, for each hold of `list` in order, the policy
/// then in force for its collection, or nothing where the collection has
/// no capability.
pub(crate) fn change_table(
    table: &mut CapabilityTable,
    list: &Vec<(Frontier, GlobalId)>,
    mode: &UpdateMode,
    sinces: &Vec<Frontier>,
    Ghost(provision): Ghost<spec_fn(u64) -> ProvisionView>,
) -> (r: Vec<Option<ReadPolicy>>)
    requires
        forall|k: int|
            0 <= k < list@.len() ==> #[trigger] provision(list@[k].1) == mode_provision(
                mode@,
                if mode is Acquire {
                    sinces@[k]@
                } else {
                    Seq::empty()
                },
            ),
        old(table).wf(),
        list_wf(list@),
        mode is Acquire ==> sinces@.len() == list@.len() && forall|k: int|
            0 <= k < sinces@.len() ==> (#[trigger] sinces@[k]).wf(),
        mode matches UpdateMode::Initialize(policy) ==> policy.wf(),
        mode is Release ==> can_release(old(table)@, storage_pairs(list@).to_set()),
        !(mode is Release) ==> has_room(old(table)@, storage_pairs(list@).to_set()),
    ensures
        final(table).wf(),
        table_changed(
            old(table)@,
            final(table)@,
            ids_of(list@).to_set(),
            provision,
            if mode is Release {
                Set::empty()
            } else {
                storage_pairs(list@).to_set()
            },
            if mode is Release {
                storage_pairs(list@).to_set()
            } else {
                Set::empty()
            },
        ),
        policies_for(r@, ids_of(list@), final(table)@),
{
    let updates = updates_for(list, mode, sinces);
    let ghost planned = updates@;
    let ghost ids = ids_of(list@);
    let ghost pairs = storage_pairs(list@);
    proof {
        assert forall|k: int| 0 <= k < planned.len() implies update_in_range(
            table@,
            #[trigger] planned[k],
        ) by {
            let id = planned[k].id;
            assert forall|t: u64| table@.contains_key(id) implies {
                &&& planned[k].acquire@.contains(t) ==> #[trigger] table@[id].count(t) < i64::MAX
                &&& planned[k].release@.contains(t) ==> table@[id].count(t) > i64::MIN
            } by {
                if list@[k].0@.contains(t) {
                    assert(pairs[k] == (list@[k].0@, id));
                    assert(pairs.to_set().contains((list@[k].0@, id)));
                    assert(held_at(pairs.to_set(), id, t));
                }
            }
        }
    }
    let policies = table.update_all(updates);
    proof {
        let acquire = if mode is Release {
            Set::empty()
        } else {
            pairs.to_set()
        };
        let release = if mode is Release {
            pairs.to_set()
        } else {
            Set::empty()
        };
        assert forall|id: u64| ids.to_set().contains(id) <==> names(
            planned,
            planned.len() as int,
            id,
        ) by {
            if ids.to_set().contains(id) {
                let k = choose|k: int| 0 <= k < ids.len() && ids[k] == id;
                assert(planned[k].id == id);
            }
            if names(planned, planned.len() as int, id) {
                let k = choose|k: int|
                    0 <= k < planned.len() && k < planned.len() && (#[trigger] planned[k]).id == id;
                assert(ids[k] == id);
            }
        }
        assert forall|k: int, t: u64| 0 <= k < planned.len() implies (list@[k].0@.contains(t)
            <==> #[trigger] held_at(pairs.to_set(), (#[trigger] planned[k]).id, t)) by {
            let id = planned[k].id;
            if list@[k].0@.contains(t) {
                assert(pairs[k] == (list@[k].0@, id));
                assert(pairs.to_set().contains((list@[k].0@, id)));
            }
            if held_at(pairs.to_set(), id, t) {
                let time = choose|time: Seq<u64>| #[trigger]
                    pairs.to_set().contains((time, id)) && time.contains(t);
                let m = choose|m: int| 0 <= m < pairs.len() && pairs[m] == (time, id);
                assert(list@[m].1 == list@[k].1);
            }
        }
        assert forall|k: int, t: u64| 0 <= k < planned.len() implies !#[trigger] held_at(
            Set::<(Seq<u64>, u64)>::empty(),
            (#[trigger] planned[k]).id,
            t,
        ) by {}
        assert(table_changed(old(table)@, table@, ids.to_set(), provision, acquire, release)) by {
            assert forall|k: int| 0 <= k < planned.len() implies provision_view(
                (#[trigger] planned[k]).provision,
            ) == provision(planned[k].id) by {
                assert(provision(list@[k].1) == mode_provision(
                    mode@,
                    if mode is Acquire {
                        sinces@[k]@
                    } else {
                        Seq::empty()
                    },
                ));
            }
            assert forall|k: int, t: u64| 0 <= k < planned.len() implies ((#[trigger] planned[k]).acquire@.contains(
                t,
            ) <==> #[trigger] held_at(acquire, planned[k].id, t)) by {
                if mode is Release {
                    assert(!held_at(Set::<(Seq<u64>, u64)>::empty(), planned[k].id, t));
                } else {
                    assert(list@[k].0@.contains(t) <==> held_at(
                        pairs.to_set(),
                        planned[k].id,
                        t,
                    ));
                }
            }
            assert forall|k: int, t: u64| 0 <= k < planned.len() implies ((#[trigger] planned[k]).release@.contains(
                t,
            ) <==> #[trigger] held_at(release, planned[k].id, t)) by {
                if mode is Release {
                    assert(list@[k].0@.contains(t) <==> held_at(
                        pairs.to_set(),
                        planned[k].id,
                        t,
                    ));
                } else {
                    assert(!held_at(Set::<(Seq<u64>, u64)>::empty(), planned[k].id, t));
                }
            }
            lemma_table_changed(
                old(table)@,
                table@,
                planned,
                ids.to_set(),
                provision,
                acquire,
                release,
            );
        }
        assert forall|k: int| 0 <= k < policies@.len() implies match #[trigger] policies@[k] {
            Some(p) => table@.contains_key(ids[k]) && p@ == table@[ids[k]].policy() && p.wf(),
            None => !table@.contains_key(ids[k]),
        } by {
            assert(planned[k].id == ids[k]);
        }
    }
    policies
}

/// The ids of the compute collections of a bundle.
pub open spec fn compute_ids(compute: Set<(u64, u64)>) -> Set<u64> {
    Set::new(|id: u64| exists|instance: u64| compute.contains((instance, id)))
}

/// The instance under which `id` stands in `compute`.
pub open spec fn instance_of(compute: Set<(u64, u64)>, id: u64) -> u64 {
    choose|instance: u64| compute.contains((instance, id))
}

/// The holds that `mode` adds, of `held`.
pub open spec fn added(mode: ModeView, held: Set<(Seq<u64>, u64)>) -> Set<(Seq<u64>, u64)> {
    if mode is Release {
        Set::empty()
    } else {
        held
    }
}

/// The holds that `mode` drops, of `held`.
pub open spec fn dropped(mode: ModeView, held: Set<(Seq<u64>, u64)>) -> Set<(Seq<u64>, u64)> {
    if mode is Release {
        held
    } else {
        Set::empty()
    }
}

/// The number of the holds `helds` that name collection `id` with a time
/// that holds `t`.
pub open spec fn releases_at(helds: Seq<Set<(Seq<u64>, u64)>>, id: u64, t: u64) -> int
    decreases helds.len(),
{
    if helds.len() == 0 {
        0
    } else {
        releases_at(helds.drop_last(), id, t) + if held_at(helds.last(), id, t) {
            1int
        } else {
            0
        }
    }
}

/// Whether `new` is `old` with each of the holds `helds` dropped: the same
/// collections and base policies, and at each time the count less the
/// number of holds that name the collection there.
pub open spec fn released(
    old: Map<u64, CapabilityView>,
    new: Map<u64, CapabilityView>,
    helds: Seq<Set<(Seq<u64>, u64)>>,
) -> bool {
    &&& new.dom() == old.dom()
    &&& forall|id: u64| #[trigger]
        old.contains_key(id) ==> new[id].base_policy == old[id].base_policy
    &&& forall|id: u64, t: u64|
        old.contains_key(id) ==> #[trigger] new[id].count(t) == old[id].count(t) - releases_at(
            helds,
            id,
            t,
        )
}

/// The storage holds of each of `holdses`, in order.
pub open spec fn storage_helds(holdses: Seq<ReadHoldsInner>) -> Seq<Set<(Seq<u64>, u64)>> {
    holdses.map_values(|h: ReadHoldsInner| h@.storage)
}

/// The compute holds of each of `holdses`, by collection id, in order.
pub open spec fn compute_helds(holdses: Seq<ReadHoldsInner>) -> Seq<Set<(Seq<u64>, u64)>> {
    holdses.map_values(|h: ReadHoldsInner| by_id(h@.compute))
}

/// Whether all the holds `helds` can be dropped: no count would fall below
/// the least `i64`.
pub open spec fn can_release_all(
    table: Map<u64, CapabilityView>,
    helds: Seq<Set<(Seq<u64>, u64)>>,
) -> bool {
    forall|id: u64, t: u64|
        table.contains_key(id) ==> #[trigger] table[id].count(t) - releases_at(helds, id, t)
            >= i64::MIN
}

/// The first holds of `helds` name a collection at a time no more often
/// than all of them do.
pub proof fn lemma_releases_at_grows(
    helds: Seq<Set<(Seq<u64>, u64)>>,
    i: int,
    id: u64,
    t: u64,
)
    requires
        0 <= i <= helds.len(),
    ensures
        releases_at(helds.take(i), id, t) <= releases_at(helds, id, t),
        i < helds.len() && held_at(helds[i], id, t) ==> releases_at(helds.take(i), id, t)
            < releases_at(helds, id, t),
    decreases helds.len() - i,
{
    if i < helds.len() {
        lemma_releases_at_grows(helds, i + 1, id, t);
        assert(helds.take(i + 1).drop_last() =~= helds.take(i));
        assert(helds.take(i + 1).last() == helds[i]);
    } else {
        assert(helds.take(i) =~= helds);
    }
}

/// The counts `counts` of collection `id` after each of the holds `helds`
/// was dropped.
pub open spec fn counts_after(
    counts: Map<u64, int>,
    helds: Seq<Set<(Seq<u64>, u64)>>,
    id: u64,
) -> Map<u64, int> {
    Map::new(|t: u64| true, |t: u64| count_at(counts, t) - releases_at(helds, id, t))
}

/// The table `old` after each of the holds `helds` was dropped.
pub open spec fn table_after(
    old: Map<u64, CapabilityView>,
    helds: Seq<Set<(Seq<u64>, u64)>>,
) -> Map<u64, CapabilityView> {
    Map::new(
        |id: u64| old.contains_key(id),
        |id: u64|
            CapabilityView {
                base_policy: old[id].base_policy,
                holds: counts_after(old[id].holds, helds, id),
            },
    )
}

/// Policies that are in force in a table that is `old` with the holds
/// `helds` dropped are in force in the table after those holds were
/// dropped.
pub proof fn lemma_settled_after(
    storage: Seq<(u64, ReadPolicy)>,
    compute: Seq<(u64, Vec<(u64, ReadPolicy)>)>,
    storage_ids: Set<u64>,
    compute_ids: Set<(u64, u64)>,
    storage_table: Map<u64, CapabilityView>,
    compute_table: Map<u64, CapabilityView>,
    old_storage: Map<u64, CapabilityView>,
    old_compute: Map<u64, CapabilityView>,
    storage_helds: Seq<Set<(Seq<u64>, u64)>>,
    compute_helds: Seq<Set<(Seq<u64>, u64)>>,
)
    requires
        released(old_storage, storage_table, storage_helds),
        released(old_compute, compute_table, compute_helds),
        storage_settled(storage, storage_ids, storage_table),
        compute_settled(compute, compute_ids, compute_table),
    ensures
        storage_settled(storage, storage_ids, table_after(old_storage, storage_helds)),
        compute_settled(compute, compute_ids, table_after(old_compute, compute_helds)),
{
    lemma_policies_after(old_storage, storage_table, storage_helds);
    lemma_policies_after(old_compute, compute_table, compute_helds);
    let st = table_after(old_storage, storage_helds);
    let ct = table_after(old_compute, compute_helds);
    assert forall|j: int| 0 <= j < storage.len() implies {
        &&& storage_ids.contains((#[trigger] storage[j]).0)
        &&& st.contains_key(storage[j].0)
        &&& storage[j].1@ == st[storage[j].0].policy()
        &&& storage[j].1.wf()
    } by {
        assert(storage_table.contains_key(storage[j].0));
    }
    assert forall|id: u64| storage_ids.contains(id) && st.contains_key(id) implies exists|j: int|
        0 <= j < storage.len() && (#[trigger] storage[j]).0 == id by {
        assert(storage_table.contains_key(id));
    }
    assert forall|k: int, j: int| 0 <= k < compute.len() && 0 <= j < compute[k].1@.len() implies {
        &&& compute_ids.contains((compute[k].0, (#[trigger] compute[k].1@[j]).0))
        &&& ct.contains_key(compute[k].1@[j].0)
        &&& compute[k].1@[j].1@ == ct[compute[k].1@[j].0].policy()
        &&& compute[k].1@[j].1.wf()
    } by {
        assert(compute_table.contains_key(compute[k].1@[j].0));
    }
    assert forall|p: (u64, u64)| compute_ids.contains(p) && ct.contains_key(p.1) implies exists|
        k: int,
        j: int,
    |
        0 <= k < compute.len() && 0 <= j < compute[k].1@.len() && compute[k].0 == p.0
            && (#[trigger] compute[k].1@[j]).0 == p.1 by {
        assert(compute_table.contains_key(p.1));
    }
}

/// A table that is `old` with the holds `helds` dropped has, for every
/// collection, the policy in force that the table after those holds has.
pub proof fn lemma_policies_after(
    old: Map<u64, CapabilityView>,
    new: Map<u64, CapabilityView>,
    helds: Seq<Set<(Seq<u64>, u64)>>,
)
    requires
        released(old, new, helds),
    ensures
        table_after(old, helds).dom() == new.dom(),
        forall|id: u64| #[trigger]
            new.contains_key(id) ==> new[id].policy() == table_after(old, helds)[id].policy(),
{
    let after = table_after(old, helds);
    assert(after.dom() =~= new.dom());
    assert forall|id: u64| #[trigger] new.contains_key(id) implies new[id].policy()
        == after[id].policy() by {
        assert(old.contains_key(id));
        assert(new[id].base_policy == old[id].base_policy);
        assert forall|t: u64| new[id].count(t) == after[id].count(t) by {
            assert(new[id].count(t) == old[id].count(t) - releases_at(helds, id, t));
        }
        crate::capability::lemma_policy_by_counts(new[id], after[id]);
    }
}

/// One more release: where `mid` is `old` with `helds` dropped, and `new`
/// is `mid` with the holds `held` on the collections `ids` dropped, `new`
/// is `old` with `helds` and then `held` dropped.
pub proof fn lemma_released_step(
    old: Map<u64, CapabilityView>,
    mid: Map<u64, CapabilityView>,
    new: Map<u64, CapabilityView>,
    helds: Seq<Set<(Seq<u64>, u64)>>,
    held: Set<(Seq<u64>, u64)>,
    ids: Set<u64>,
)
    requires
        released(old, mid, helds),
        table_changed(mid, new, ids, |id: u64| ProvisionView::Keep, Set::empty(), held),
        forall|time: Seq<u64>, id: u64| #[trigger] held.contains((time, id)) ==> ids.contains(id),
    ensures
        released(old, new, helds.push(held)),
{
    let provision = |id: u64| ProvisionView::Keep;
    let none = Set::<(Seq<u64>, u64)>::empty();
    assert(helds.push(held).drop_last() =~= helds);
    assert forall|id: u64| new.contains_key(id) == old.contains_key(id) by {
        if ids.contains(id) {
            assert(changed(mid, new, id, provision(id), none, held));
        } else {
            assert(untouched(mid, new, id));
        }
    }
    assert(new.dom() =~= old.dom());
    assert forall|id: u64| #[trigger] old.contains_key(id) implies new[id].base_policy
        == old[id].base_policy by {
        if ids.contains(id) {
            assert(changed(mid, new, id, provision(id), none, held));
        } else {
            assert(untouched(mid, new, id));
        }
    }
    assert forall|id: u64, t: u64| old.contains_key(id) implies #[trigger] new[id].count(t)
        == old[id].count(t) - releases_at(helds.push(held), id, t) by {
        assert(mid[id].count(t) == old[id].count(t) - releases_at(helds, id, t));
        assert(!held_at(none, id, t));
        if ids.contains(id) {
            assert(changed(mid, new, id, provision(id), none, held));
        } else {
            assert(untouched(mid, new, id));
            if held_at(held, id, t) {
                let time = choose|time: Seq<u64>| #[trigger]
                    held.contains((time, id)) && time.contains(t);
                assert(ids.contains(id));
            }
        }
    }
}

/// The holds that new collections start with: at the read timestamp of
/// their timeline each collection is held as a request at that time would
/// hold it, and without a timeline no collection is held at any time.
pub open spec fn initial_holds(
    read_ts: Option<u64>,
    bundle: BundleView,
    frontiers: FrontiersView,
) -> HoldsView {
    match read_ts {
        Some(ts) => planned_holds(ts, bundle, frontiers),
        None => HoldsView::at(Seq::empty(), bundle),
    }
}

/// The base policy that the last of `policies` for collection `id` gives,
/// if one of them is for `id`.
pub open spec fn last_base(policies: Seq<(u64, PolicyView)>, id: u64) -> Option<PolicyView>
    decreases policies.len(),
{
    if policies.len() == 0 {
        None
    } else if policies.last().0 == id {
        Some(policies.last().1)
    } else {
        last_base(policies.drop_last(), id)
    }
}

/// Whether `new` is `old` with the base policies `policies` installed in
/// order: the same collections and holds, and for each collection the last
/// base policy given for it, or the one it had.
pub open spec fn bases_installed(
    old: Map<u64, CapabilityView>,
    new: Map<u64, CapabilityView>,
    policies: Seq<(u64, PolicyView)>,
) -> bool {
    &&& new.dom() == old.dom()
    &&& forall|id: u64| #[trigger]
        old.contains_key(id) ==> new[id].holds == old[id].holds && new[id].base_policy
            == match last_base(policies, id) {
            Some(p) => p,
            None => old[id].base_policy,
        }
}

/// The collections and base policies of a list for storage, in order.
pub open spec fn storage_bases(list: Seq<(u64, ReadPolicy)>) -> Seq<(u64, PolicyView)> {
    list.map_values(|p: (u64, ReadPolicy)| (p.0, p.1@))
}

/// The collections and base policies of a list for compute, in order.
pub open spec fn compute_bases(list: Seq<(u64, u64, ReadPolicy)>) -> Seq<(u64, PolicyView)> {
    list.map_values(|p: (u64, u64, ReadPolicy)| (p.1, p.2@))
}

/// The policy in force for collection `id` right after it got the base
/// policy `base`: its holds are those that `old` has for it.
pub open spec fn policy_after(old: Map<u64, CapabilityView>, id: u64, base: PolicyView) -> PolicyView {
    CapabilityView { base_policy: base, holds: old[id].holds }.policy()
}

/// For each base policy of a list for compute, in order: its instance, and
/// its collection with the policy in force right after the change.
pub open spec fn compute_changes(
    list: Seq<(u64, u64, ReadPolicy)>,
    old: Map<u64, CapabilityView>,
) -> Seq<(u64, (u64, PolicyView))> {
    list.map_values(|p: (u64, u64, ReadPolicy)| (p.0, (p.1, policy_after(old, p.1, p.2@))))
}

/// What a batch of policies says.
pub open spec fn batch_views(batch: Seq<(u64, ReadPolicy)>) -> Seq<(u64, PolicyView)> {
    batch.map_values(|p: (u64, ReadPolicy)| (p.0, p.1@))
}

/// Whether `batches` holds, in ascending order of the instances, one batch
/// for each instance of `changes`, with the changes of that instance in the
/// order of `changes`.
pub open spec fn batches_of(
    batches: Seq<(u64, Vec<(u64, ReadPolicy)>)>,
    changes: Seq<(u64, (u64, PolicyView))>,
) -> bool {
    &&& forall|a: int, b: int|
        0 <= a < b < batches.len() ==> (#[trigger] batches[a]).0 < (#[trigger] batches[b]).0
    &&& forall|k: int|
        0 <= k < batches.len() ==> batch_views((#[trigger] batches[k]).1@) == items_of(
            changes,
            batches[k].0,
        ) && batches[k].1@.len() > 0
    &&& forall|k: int, j: int|
        0 <= k < batches.len() && 0 <= j < batches[k].1@.len() ==> (#[trigger] batches[k].1@[j]).1.wf()
    &&& forall|i: int| 0 <= i < changes.len() ==> has_batch(batches, (#[trigger] changes[i]).0)
}

/// Whether one of `batches` is for `instance`.
pub open spec fn has_batch(batches: Seq<(u64, Vec<(u64, ReadPolicy)>)>, instance: u64) -> bool {
    exists|k: int| 0 <= k < batches.len() && (#[trigger] batches[k]).0 == instance
}

/// The instances and ids of the collections of a list for compute.
pub open spec fn compute_keys(list: Seq<(u64, u64, ReadPolicy)>) -> Set<(u64, u64)> {
    Set::new(
        |p: (u64, u64)|
            exists|k: int| 0 <= k < list.len() && (#[trigger] list[k]).0 == p.0 && list[k].1 == p.1,
    )
}

/// The time to which a hold at `t` moves when the holds are moved forward
/// to `new_time`: `new_time`, or `t` itself where it is later.
pub open spec fn advanced_time(t: Seq<u64>, new_time: u64) -> Seq<u64> {
    join_of(t, seq![new_time])
}

/// The holds `holds` moved forward to `new_time`: each hold at the time to
/// which it moves.
pub open spec fn advanced(holds: HoldsView, new_time: u64) -> HoldsView {
    HoldsView {
        storage: Set::new(
            |p: (Seq<u64>, u64)|
                exists|t: Seq<u64>| #[trigger]
                    holds.storage.contains((t, p.1)) && p.0 == advanced_time(t, new_time),
        ),
        compute: Set::new(
            |p: (Seq<u64>, (u64, u64))|
                exists|t: Seq<u64>| #[trigger]
                    holds.compute.contains((t, p.1)) && p.0 == advanced_time(t, new_time),
        ),
    }
}

/// The holds of `holds` that change their time when the holds are moved
/// forward to `new_time`, as they are before.
pub open spec fn moved_from(holds: HoldsView, new_time: u64) -> HoldsView {
    HoldsView {
        storage: Set::new(
            |p: (Seq<u64>, u64)|
                holds.storage.contains(p) && advanced_time(p.0, new_time) != p.0,
        ),
        compute: Set::new(
            |p: (Seq<u64>, (u64, u64))|
                holds.compute.contains(p) && advanced_time(p.0, new_time) != p.0,
        ),
    }
}

/// The holds of `holds` that change their time when the holds are moved
/// forward to `new_time`, as they are after.
pub open spec fn moved_to(holds: HoldsView, new_time: u64) -> HoldsView {
    HoldsView {
        storage: Set::new(
            |p: (Seq<u64>, u64)|
                exists|t: Seq<u64>| #[trigger]
                    holds.storage.contains((t, p.1)) && advanced_time(t, new_time) != t && p.0
                        == advanced_time(t, new_time),
        ),
        compute: Set::new(
            |p: (Seq<u64>, (u64, u64))|
                exists|t: Seq<u64>| #[trigger]
                    holds.compute.contains((t, p.1)) && advanced_time(t, new_time) != t && p.0
                        == advanced_time(t, new_time),
        ),
    }
}

/// Whether the holds `holds` may be moved forward to `new_time`: each
/// collection whose hold changes its time has a capability, is known to
/// its controller, and has not moved past the new time of its hold.
pub open spec fn update_allowed(
    tables: CoordinatorView,
    holds: HoldsView,
    new_time: u64,
    frontiers: FrontiersView,
) -> bool {
    &&& forall|p: (Seq<u64>, u64)| #[trigger]
        moved_from(holds, new_time).storage.contains(p) ==> storage_move_allowed(
            tables,
            p,
            new_time,
            frontiers,
        )
    &&& forall|p: (Seq<u64>, (u64, u64))| #[trigger]
        moved_from(holds, new_time).compute.contains(p) ==> compute_move_allowed(
            tables,
            p,
            new_time,
            frontiers,
        )
}

/// Whether the hold `p` on a storage collection may be moved forward to
/// `new_time`.
pub open spec fn storage_move_allowed(
    tables: CoordinatorView,
    p: (Seq<u64>, u64),
    new_time: u64,
    frontiers: FrontiersView,
) -> bool {
    &&& tables.storage.contains_key(p.1)
    &&& frontiers.storage.contains_key(p.1)
    &&& le_of(frontiers.storage[p.1], advanced_time(p.0, new_time))
}

/// Whether the hold `p` on a compute collection may be moved forward to
/// `new_time`.
pub open spec fn compute_move_allowed(
    tables: CoordinatorView,
    p: (Seq<u64>, (u64, u64)),
    new_time: u64,
    frontiers: FrontiersView,
) -> bool {
    &&& tables.compute.contains_key(p.1.1)
    &&& frontiers.compute.contains_key(p.1)
    &&& le_of(frontiers.compute[p.1], advanced_time(p.0, new_time))
}

/// Moving forward the holds of one more entry: the holds on `bundle` at
/// `t` move to the advanced time of `t`.
pub proof fn lemma_advanced_push(holds: HoldsView, t: Seq<u64>, bundle: BundleView, new_time: u64)
    ensures
        advanced(holds.union(HoldsView::at(t, bundle)), new_time) == advanced(
            holds,
            new_time,
        ).union(HoldsView::at(advanced_time(t, new_time), bundle)),
        moved_from(holds.union(HoldsView::at(t, bundle)), new_time) == moved_from(
            holds,
            new_time,
        ).union(
            if advanced_time(t, new_time) != t {
                HoldsView::at(t, bundle)
            } else {
                HoldsView::empty()
            },
        ),
        moved_to(holds.union(HoldsView::at(t, bundle)), new_time) == moved_to(
            holds,
            new_time,
        ).union(
            if advanced_time(t, new_time) != t {
                HoldsView::at(advanced_time(t, new_time), bundle)
            } else {
                HoldsView::empty()
            },
        ),
{
    let more = holds.union(HoldsView::at(t, bundle));
    let nt = advanced_time(t, new_time);
    let a1 = advanced(more, new_time);
    let a2 = advanced(holds, new_time).union(HoldsView::at(nt, bundle));
    assert forall|p: (Seq<u64>, u64)| a1.storage.contains(p) <==> a2.storage.contains(p) by {
        if a1.storage.contains(p) {
            let t0 = choose|t0: Seq<u64>| #[trigger]
                more.storage.contains((t0, p.1)) && p.0 == advanced_time(t0, new_time);
            if holds.storage.contains((t0, p.1)) {
                assert(advanced(holds, new_time).storage.contains(p));
            }
        }
        if advanced(holds, new_time).storage.contains(p) {
            let t0 = choose|t0: Seq<u64>| #[trigger]
                holds.storage.contains((t0, p.1)) && p.0 == advanced_time(t0, new_time);
            assert(more.storage.contains((t0, p.1)));
        }
        if HoldsView::at(nt, bundle).storage.contains(p) {
            assert(more.storage.contains((t, p.1)));
        }
    }
    assert forall|p: (Seq<u64>, (u64, u64))| a1.compute.contains(p) <==> a2.compute.contains(p) by {
        if a1.compute.contains(p) {
            let t0 = choose|t0: Seq<u64>| #[trigger]
                more.compute.contains((t0, p.1)) && p.0 == advanced_time(t0, new_time);
            if holds.compute.contains((t0, p.1)) {
                assert(advanced(holds, new_time).compute.contains(p));
            }
        }
        if advanced(holds, new_time).compute.contains(p) {
            let t0 = choose|t0: Seq<u64>| #[trigger]
                holds.compute.contains((t0, p.1)) && p.0 == advanced_time(t0, new_time);
            assert(more.compute.contains((t0, p.1)));
        }
        if HoldsView::at(nt, bundle).compute.contains(p) {
            assert(more.compute.contains((t, p.1)));
        }
    }
    assert(a1.storage =~= a2.storage);
    assert(a1.compute =~= a2.compute);
    let part = if nt != t {
        HoldsView::at(t, bundle)
    } else {
        HoldsView::empty()
    };
    assert(moved_from(more, new_time).storage =~= moved_from(holds, new_time).union(part).storage);
    assert(moved_from(more, new_time).compute =~= moved_from(holds, new_time).union(part).compute);
    let to_part = if nt != t {
        HoldsView::at(nt, bundle)
    } else {
        HoldsView::empty()
    };
    let m1 = moved_to(more, new_time);
    let m2 = moved_to(holds, new_time).union(to_part);
    assert forall|p: (Seq<u64>, u64)| m1.storage.contains(p) <==> m2.storage.contains(p) by {
        if m1.storage.contains(p) {
            let t0 = choose|t0: Seq<u64>| #[trigger]
                more.storage.contains((t0, p.1)) && advanced_time(t0, new_time) != t0 && p.0
                    == advanced_time(t0, new_time);
            if holds.storage.contains((t0, p.1)) {
                assert(moved_to(holds, new_time).storage.contains(p));
            }
        }
        if moved_to(holds, new_time).storage.contains(p) {
            let t0 = choose|t0: Seq<u64>| #[trigger]
                holds.storage.contains((t0, p.1)) && advanced_time(t0, new_time) != t0 && p.0
                    == advanced_time(t0, new_time);
            assert(more.storage.contains((t0, p.1)));
        }
        if to_part.storage.contains(p) {
            assert(more.storage.contains((t, p.1)));
        }
    }
    assert forall|p: (Seq<u64>, (u64, u64))| m1.compute.contains(p) <==> m2.compute.contains(p) by {
        if m1.compute.contains(p) {
            let t0 = choose|t0: Seq<u64>| #[trigger]
                more.compute.contains((t0, p.1)) && advanced_time(t0, new_time) != t0 && p.0
                    == advanced_time(t0, new_time);
            if holds.compute.contains((t0, p.1)) {
                assert(moved_to(holds, new_time).compute.contains(p));
            }
        }
        if moved_to(holds, new_time).compute.contains(p) {
            let t0 = choose|t0: Seq<u64>| #[trigger]
                holds.compute.contains((t0, p.1)) && advanced_time(t0, new_time) != t0 && p.0
                    == advanced_time(t0, new_time);
            assert(more.compute.contains((t0, p.1)));
        }
        if to_part.compute.contains(p) {
            assert(more.compute.contains((t, p.1)));
        }
    }
    assert(m1.storage =~= m2.storage);
    assert(m1.compute =~= m2.compute);
}

/// The holds that change their time are on the same collections before
/// and after.
pub proof fn lemma_moved_bundles(holds: HoldsView, new_time: u64)
    ensures
        moved_to(holds, new_time).bundle() == moved_from(holds, new_time).bundle(),
{
    let from = moved_from(holds, new_time);
    let to = moved_to(holds, new_time);
    assert forall|id: u64| to.holds_storage(id) <==> from.holds_storage(id) by {
        if to.holds_storage(id) {
            let t1 = choose|t1: Seq<u64>| to.storage.contains((t1, id));
            let t0 = choose|t0: Seq<u64>| #[trigger]
                holds.storage.contains((t0, id)) && advanced_time(t0, new_time) != t0 && t1
                    == advanced_time(t0, new_time);
            assert(from.storage.contains((t0, id)));
        }
        if from.holds_storage(id) {
            let t0 = choose|t0: Seq<u64>| from.storage.contains((t0, id));
            assert(holds.storage.contains((t0, id)));
            let p = (advanced_time(t0, new_time), id);
            assert(holds.storage.contains((t0, p.1)) && advanced_time(t0, new_time) != t0 && p.0
                == advanced_time(t0, new_time));
            assert(to.storage.contains(p));
        }
    }
    assert forall|p: (u64, u64)| to.holds_compute(p.0, p.1) <==> from.holds_compute(p.0, p.1) by {
        if to.holds_compute(p.0, p.1) {
            let t1 = choose|t1: Seq<u64>| to.compute.contains((t1, (p.0, p.1)));
            let t0 = choose|t0: Seq<u64>| #[trigger]
                holds.compute.contains((t0, (p.0, p.1))) && advanced_time(t0, new_time) != t0 && t1
                    == advanced_time(t0, new_time);
            assert(from.compute.contains((t0, (p.0, p.1))));
        }
        if from.holds_compute(p.0, p.1) {
            let t0 = choose|t0: Seq<u64>| from.compute.contains((t0, (p.0, p.1)));
            assert(holds.compute.contains((t0, (p.0, p.1))));
            let q = (advanced_time(t0, new_time), (p.0, p.1));
            assert(holds.compute.contains((t0, q.1)) && advanced_time(t0, new_time) != t0 && q.0
                == advanced_time(t0, new_time));
            assert(to.compute.contains(q));
        }
    }
    assert(to.bundle().storage =~= from.bundle().storage);
    assert(to.bundle().compute =~= from.bundle().compute);
}

/// Holds added and then holds dropped, for the same collections, are a
/// change of both at once.
pub proof fn lemma_hold_then_release(
    old: Map<u64, CapabilityView>,
    mid: Map<u64, CapabilityView>,
    new: Map<u64, CapabilityView>,
    ids: Set<u64>,
    to: Set<(Seq<u64>, u64)>,
    from: Set<(Seq<u64>, u64)>,
)
    requires
        table_changed(old, mid, ids, |id: u64| ProvisionView::Keep, to, Set::empty()),
        table_changed(mid, new, ids, |id: u64| ProvisionView::Keep, Set::empty(), from),
    ensures
        table_changed(old, new, ids, |id: u64| ProvisionView::Keep, to, from),
{
    let keep = |id: u64| ProvisionView::Keep;
    let none = Set::<(Seq<u64>, u64)>::empty();
    assert forall|id: u64| !ids.contains(id) implies #[trigger] untouched(old, new, id) by {
        assert(untouched(old, mid, id));
        assert(untouched(mid, new, id));
    }
    assert forall|id: u64| ids.contains(id) implies #[trigger] changed(
        old,
        new,
        id,
        keep(id),
        to,
        from,
    ) by {
        assert(changed(old, mid, id, keep(id), to, none));
        assert(changed(mid, new, id, keep(id), none, from));
        if new.contains_key(id) {
            assert forall|t: u64| #[trigger]
                new[id].count(t) == old[id].count(t) + (if held_at(to, id, t) {
                    1int
                } else {
                    0
                }) - (if held_at(from, id, t) {
                    1int
                } else {
                    0
                }) by {
                assert(!held_at(none, id, t));
                assert(mid[id].count(t) == old[id].count(t) + (if held_at(to, id, t) {
                    1int
                } else {
                    0
                }) - 0);
            }
        }
    }
}

/// The holds `holds` moved forward to `new_time`, and with them the holds
/// that change their time, as they are before and as they are after.
pub fn advance_holds(holds: &HoldsMap, new_time: Timestamp) -> (r: (HoldsMap, HoldsMap, HoldsMap))
    requires
        holds.wf(),
    ensures
        r.0.wf(),
        r.1.wf(),
        r.2.wf(),
        r.0@ == advanced(holds@, new_time),
        r.1@ == moved_from(holds@, new_time),
        r.2@ == moved_to(holds@, new_time),
{
    let asked = Frontier::from_elem(new_time);
    let mut result = HoldsMap::new();
    let mut from = HoldsMap::new();
    let mut to = HoldsMap::new();
    let ghost entries = holds.entries@;
    let mut i: usize = 0;
    proof {
        assert(entries.take(0) =~= Seq::<HoldEntry>::empty());
        lemma_holds_of_no_entries();
        let none = HoldsView::empty();
        assert(advanced(none, new_time).storage =~= none.storage);
        assert(advanced(none, new_time).compute =~= none.compute);
        assert(moved_from(none, new_time).storage =~= none.storage);
        assert(moved_from(none, new_time).compute =~= none.compute);
        assert(moved_to(none, new_time).storage =~= none.storage);
        assert(moved_to(none, new_time).compute =~= none.compute);
    }
    while i < holds.entries.len()
        invariant
            i <= entries.len(),
            entries == holds.entries@,
            holds.wf(),
            asked@ == seq![new_time],
            asked.wf(),
            result.wf(),
            from.wf(),
            to.wf(),
            result@ == advanced(holds_view(entries.take(i as int)), new_time),
            from@ == moved_from(holds_view(entries.take(i as int)), new_time),
            to@ == moved_to(holds_view(entries.take(i as int)), new_time),
        decreases entries.len() - i,
    {
        let old_time = &holds.entries[i].0;
        let bundle = &holds.entries[i].1;
        let ghost e = entries[i as int];
        let ghost done = holds_view(entries.take(i as int));
        proof {
            assert(e.0.wf());
            assert(!e.1@.is_empty());
            assert(entries.take(i + 1) =~= entries.take(i as int).push(e));
            lemma_holds_push(entries.take(i as int), e);
            lemma_advanced_push(done, e.0@, e.1@, new_time);
            // No collection of this entry is held by an earlier one.
            assert forall|t: Seq<u64>, id: u64|
                e.1@.storage.contains(id) implies !#[trigger] done.storage.contains((t, id)) by {
                if done.storage.contains((t, id)) {
                    let k = choose|k: int|
                        0 <= k < entries.take(i as int).len() && (#[trigger] entries.take(
                            i as int,
                        )[k]).0@ == t && entries.take(i as int)[k].1@.storage.contains(id);
                    assert(entries[k] == entries.take(i as int)[k]);
                    assert(holds@.storage.contains((entries[k].0@, id)));
                    assert(holds@.storage.contains((e.0@, id)));
                    assert(entries[k].0@ != entries[i as int].0@);
                }
            }
            assert forall|t: Seq<u64>, p: (u64, u64)|
                e.1@.compute.contains(p) implies !#[trigger] done.compute.contains((t, p)) by {
                if done.compute.contains((t, p)) {
                    let k = choose|k: int|
                        0 <= k < entries.take(i as int).len() && (#[trigger] entries.take(
                            i as int,
                        )[k]).0@ == t && entries.take(i as int)[k].1@.compute.contains(p);
                    assert(entries[k] == entries.take(i as int)[k]);
                    assert(holds@.compute.contains((entries[k].0@, p)));
                    assert(holds@.compute.contains((e.0@, p)));
                    assert(entries[k].0@ != entries[i as int].0@);
                }
            }
        }
        let new = old_time.join(&asked);
        proof {
            assert forall|t: Seq<u64>, id: u64|
                e.1@.storage.contains(id) && #[trigger] result@.storage.contains(
                    (t, id),
                ) implies t == new@ by {
                let t0 = choose|t0: Seq<u64>| #[trigger]
                    done.storage.contains((t0, id)) && t == advanced_time(t0, new_time);
                assert(!done.storage.contains((t0, id)));
            }
            assert forall|t: Seq<u64>, p: (u64, u64)|
                e.1@.compute.contains(p) && #[trigger] result@.compute.contains(
                    (t, p),
                ) implies t == new@ by {
                let t0 = choose|t0: Seq<u64>| #[trigger]
                    done.compute.contains((t0, p)) && t == advanced_time(t0, new_time);
                assert(!done.compute.contains((t0, p)));
            }
        }
        result.extend_at(&new, bundle);
        if !old_time.same_as(&new) {
            proof {
                assert forall|t: Seq<u64>, id: u64|
                    e.1@.storage.contains(id) && #[trigger] from@.storage.contains(
                        (t, id),
                    ) implies t == e.0@ by {
                    assert(done.storage.contains((t, id)));
                }
                assert forall|t: Seq<u64>, p: (u64, u64)|
                    e.1@.compute.contains(p) && #[trigger] from@.compute.contains(
                        (t, p),
                    ) implies t == e.0@ by {
                    assert(done.compute.contains((t, p)));
                }
                assert forall|t: Seq<u64>, id: u64|
                    e.1@.storage.contains(id) && #[trigger] to@.storage.contains(
                        (t, id),
                    ) implies t == new@ by {
                    let t0 = choose|t0: Seq<u64>| #[trigger]
                        done.storage.contains((t0, id)) && advanced_time(t0, new_time) != t0
                            && t == advanced_time(t0, new_time);
                    assert(!done.storage.contains((t0, id)));
                }
                assert forall|t: Seq<u64>, p: (u64, u64)|
                    e.1@.compute.contains(p) && #[trigger] to@.compute.contains(
                        (t, p),
                    ) implies t == new@ by {
                    let t0 = choose|t0: Seq<u64>| #[trigger]
                        done.compute.contains((t0, p)) && advanced_time(t0, new_time) != t0
                            && t == advanced_time(t0, new_time);
                    assert(!done.compute.contains((t0, p)));
                }
            }
            from.extend_at(old_time, bundle);
            to.extend_at(&new, bundle);
        } else {
            proof {
                let none = HoldsView::empty();
                assert(from@.union(none).storage =~= from@.storage);
                assert(from@.union(none).compute =~= from@.compute);
                assert(to@.union(none).storage =~= to@.storage);
                assert(to@.union(none).compute =~= to@.compute);
            }
        }
        i = i + 1;
    }
    proof {
        assert(entries.take(i as int) =~= entries);
    }
    (result, from, to)
}

/// Whether no collection id of `bundle` stands under two compute
/// instances.
pub fn ids_are_global(bundle: &CollectionIdBundle) -> (r: bool)
    ensures
        r == ids_global(bundle@.compute),
{
    let list = bundle.compute_list();
    let mut i: usize = 0;
    while i < list.len()
        invariant
            i <= list@.len(),
            list@.to_set() == bundle@.compute,
            list@.no_duplicates(),
            forall|a: int, b: int|
                0 <= a < i && 0 <= b < a ==> (#[trigger] list@[a]).1 != (#[trigger] list@[b]).1,
        decreases list@.len() - i,
    {
        let mut j: usize = 0;
        while j < i
            invariant
                j <= i,
                i < list@.len(),
                list@.to_set() == bundle@.compute,
                list@.no_duplicates(),
                forall|b: int| 0 <= b < j ==> list@[i as int].1 != (#[trigger] list@[b]).1,
            decreases i - j,
        {
            if list[i].1 == list[j].1 {
                proof {
                    let p = list@[i as int];
                    let q = list@[j as int];
                    assert(list@.to_set().contains(p) && list@.to_set().contains(q));
                    assert(p != q);
                    assert(bundle@.compute.contains((p.0, p.1)));
                    assert(bundle@.compute.contains((q.0, p.1)));
                    assert(p.0 != q.0);
                }
                return false;
            }
            j = j + 1;
        }
        i = i + 1;
    }
    proof {
        let compute = bundle@.compute;
        assert forall|i1: u64, i2: u64, id: u64|
            #![trigger compute.contains((i1, id)), compute.contains((i2, id))]
            compute.contains((i1, id)) && compute.contains((i2, id)) implies i1 == i2 by {
            assert(list@.to_set().contains((i1, id)));
            assert(list@.to_set().contains((i2, id)));
            let a = choose|a: int| 0 <= a < list@.len() && list@[a] == (i1, id);
            let b = choose|b: int| 0 <= b < list@.len() && list@[b] == (i2, id);
            if a > b {
                assert(list@[a].1 != list@[b].1);
            } else if b > a {
                assert(list@[b].1 != list@[a].1);
            }
        }
    }
    true
}

/// Whether no count of `table` that `list` names, a collection at an
/// element of the time of its hold, is `limit`.
pub fn counts_avoid(table: &CapabilityTable, list: &Vec<(Frontier, GlobalId)>, limit: i64) -> (r:
    bool)
    ensures
        r == (forall|id: u64, t: u64|
            held_at(storage_pairs(list@).to_set(), id, t) && table@.contains_key(id)
                ==> #[trigger] table@[id].count(t) != limit),
{
    let ghost pairs = storage_pairs(list@);
    let mut i: usize = 0;
    while i < list.len()
        invariant
            i <= list@.len(),
            pairs == storage_pairs(list@),
            forall|a: int, b: int|
                0 <= a < i && 0 <= b < list@[a].0@.len() && table@.contains_key(list@[a].1)
                    ==> table@[list@[a].1].count(#[trigger] list@[a].0@[b]) != limit,
        decreases list@.len() - i,
    {
        let id = list[i].1;
        if table.contains(id) {
            let mut j: usize = 0;
            while j < list[i].0.elements.len()
                invariant
                    j <= list@[i as int].0@.len(),
                    i < list@.len(),
                    id == list@[i as int].1,
                    table@.contains_key(id),
                    pairs == storage_pairs(list@),
                    forall|b: int|
                        0 <= b < j ==> table@[id].count(#[trigger] list@[i as int].0@[b]) != limit,
                decreases list@[i as int].0@.len() - j,
            {
                let t = list[i].0.elements[j];
                if table.hold_count(id, t) == limit {
                    proof {
                        assert(pairs[i as int] == (list@[i as int].0@, id));
                        assert(pairs.to_set().contains((list@[i as int].0@, id)));
                        assert(list@[i as int].0@.contains(t));
                        assert(held_at(pairs.to_set(), id, t));
                        assert(table@[id].count(t) == limit);
                    }
                    return false;
                }
                j = j + 1;
            }
        }
        i = i + 1;
    }
    proof {
        assert forall|id: u64, t: u64|
            held_at(pairs.to_set(), id, t) && table@.contains_key(id) implies #[trigger] table@[id].count(
            t,
        ) != limit by {
            let time = choose|time: Seq<u64>| #[trigger]
                pairs.to_set().contains((time, id)) && time.contains(t);
            let a = choose|a: int| 0 <= a < pairs.len() && pairs[a] == (time, id);
            let b = choose|b: int| 0 <= b < time.len() && time[b] == t;
            assert(list@[a].0@[b] == t);
        }
    }
    true
}

/// The compute holds of `holds` by collection id alone, as a list.
pub fn compute_holds_by_id(holds: &HoldsMap) -> (r: Vec<(Frontier, GlobalId)>)
    requires
        holds.wf(),
    ensures
        storage_pairs(r@).to_set() == by_id(holds@.compute),
{
    let compute_list = holds.compute_id_list();
    let (by_id_list, _) = split_compute(&compute_list);
    proof {
        let cpairs = compute_pairs_of(compute_list@);
        let held = storage_pairs(by_id_list@);
        assert forall|q: (Seq<u64>, u64)| held.to_set().contains(q) <==> by_id(
            holds@.compute,
        ).contains(q) by {
            if held.to_set().contains(q) {
                let k = choose|k: int| 0 <= k < held.len() && held[k] == q;
                assert(cpairs[k] == (compute_list@[k].0@, compute_list@[k].1));
                assert(cpairs.to_set().contains(cpairs[k]));
                assert(holds@.compute.contains((q.0, (compute_list@[k].1.0, q.1))));
            }
            if by_id(holds@.compute).contains(q) {
                let instance = choose|instance: u64| holds@.compute.contains((q.0, (instance, q.1)));
                assert(cpairs.to_set().contains((q.0, (instance, q.1))));
                let k = choose|k: int| 0 <= k < cpairs.len() && cpairs[k] == (q.0, (instance, q.1));
                assert(held[k] == q);
            }
        }
        assert(held.to_set() =~= by_id(holds@.compute));
    }
    by_id_list
}

/// The holds that each of `lists` stands for, in order.
pub open spec fn helds_of(lists: Seq<Vec<(Frontier, u64)>>) -> Seq<Set<(Seq<u64>, u64)>> {
    lists.map_values(|l: Vec<(Frontier, u64)>| storage_pairs(l@).to_set())
}

/// Where holds name a collection at a time, one of them does.
pub proof fn lemma_releases_at_some(helds: Seq<Set<(Seq<u64>, u64)>>, id: u64, t: u64)
    requires
        releases_at(helds, id, t) > 0,
    ensures
        exists|k: int| 0 <= k < helds.len() && held_at(#[trigger] helds[k], id, t),
    decreases helds.len(),
{
    if helds.len() > 0 {
        if held_at(helds.last(), id, t) {
            assert(held_at(helds[helds.len() - 1], id, t));
        } else {
            lemma_releases_at_some(helds.drop_last(), id, t);
            let k = choose|k: int|
                0 <= k < helds.drop_last().len() && held_at(#[trigger] helds.drop_last()[k], id, t);
            assert(helds[k] == helds.drop_last()[k]);
        }
    }
}

/// Whether `list` names collection `id` with a time that holds `t`.
pub fn held_in(list: &Vec<(Frontier, GlobalId)>, id: GlobalId, t: Timestamp) -> (r: bool)
    ensures
        r == held_at(storage_pairs(list@).to_set(), id, t),
{
    let ghost pairs = storage_pairs(list@);
    let mut i: usize = 0;
    while i < list.len()
        invariant
            i <= list@.len(),
            pairs == storage_pairs(list@),
            forall|a: int, b: int|
                0 <= a < i && 0 <= b < list@[a].0@.len() ==> !(list@[a].1 == id
                    && #[trigger] list@[a].0@[b] == t),
        decreases list@.len() - i,
    {
        if list[i].1 == id {
            let mut j: usize = 0;
            while j < list[i].0.elements.len()
                invariant
                    j <= list@[i as int].0@.len(),
                    i < list@.len(),
                    list@[i as int].1 == id,
                    pairs == storage_pairs(list@),
                    forall|b: int| 0 <= b < j ==> #[trigger] list@[i as int].0@[b] != t,
                decreases list@[i as int].0@.len() - j,
            {
                if list[i].0.elements[j] == t {
                    proof {
                        assert(pairs[i as int] == (list@[i as int].0@, id));
                        assert(pairs.to_set().contains((list@[i as int].0@, id)));
                        assert(list@[i as int].0@.contains(t));
                    }
                    return true;
                }
                j = j + 1;
            }
        }
        i = i + 1;
    }
    proof {
        if held_at(pairs.to_set(), id, t) {
            let time = choose|time: Seq<u64>| #[trigger]
                pairs.to_set().contains((time, id)) && time.contains(t);
            let a = choose|a: int| 0 <= a < pairs.len() && pairs[a] == (time, id);
            let b = choose|b: int| 0 <= b < time.len() && time[b] == t;
            assert(list@[a].0@[b] == t);
        }
    }
    false
}

/// The number of `lists` that name collection `id` with a time that holds
/// `t`.
pub fn releases_in(lists: &Vec<Vec<(Frontier, GlobalId)>>, id: GlobalId, t: Timestamp) -> (r: usize)
    ensures
        r == releases_at(helds_of(lists@), id, t),
{
    let mut n: usize = 0;
    let mut i: usize = 0;
    proof {
        assert(helds_of(lists@).take(0) =~= Seq::empty());
    }
    while i < lists.len()
        invariant
            i <= lists@.len(),
            n <= i,
            n == releases_at(helds_of(lists@).take(i as int), id, t),
        decreases lists@.len() - i,
    {
        proof {
            let h = helds_of(lists@);
            assert(h.take(i + 1).drop_last() =~= h.take(i as int));
            assert(h.take(i + 1).last() == storage_pairs(lists@[i as int]@).to_set());
        }
        if held_in(&lists[i], id, t) {
            n = n + 1;
        }
        i = i + 1;
    }
    proof {
        assert(helds_of(lists@).take(i as int) =~= helds_of(lists@));
    }
    n
}

/// Whether all the holds of `lists` can be dropped from `table`: whether no
/// count would fall below the least `i64`.
pub fn can_release_lists(table: &CapabilityTable, lists: &Vec<Vec<(Frontier, GlobalId)>>) -> (r:
    bool)
    requires
        table.wf(),
    ensures
        r == can_release_all(table@, helds_of(lists@)),
{
    let ghost helds = helds_of(lists@);
    let mut k: usize = 0;
    while k < lists.len()
        invariant
            k <= lists@.len(),
            table.wf(),
            helds == helds_of(lists@),
            forall|c: int, a: int, b: int|
                0 <= c < k && 0 <= a < lists@[c]@.len() && 0 <= b < lists@[c]@[a].0@.len()
                    && table@.contains_key(lists@[c]@[a].1) ==> table@[lists@[c]@[a].1].count(
                    #[trigger] lists@[c]@[a].0@[b],
                ) - releases_at(helds, lists@[c]@[a].1, lists@[c]@[a].0@[b]) >= i64::MIN,
        decreases lists@.len() - k,
    {
        let list = &lists[k];
        let mut a: usize = 0;
        while a < list.len()
            invariant
                a <= list@.len(),
                k < lists@.len(),
                *list == lists@[k as int],
                table.wf(),
                helds == helds_of(lists@),
                forall|x: int, b: int|
                    0 <= x < a && 0 <= b < list@[x].0@.len() && table@.contains_key(list@[x].1)
                        ==> table@[list@[x].1].count(#[trigger] list@[x].0@[b]) - releases_at(
                        helds,
                        list@[x].1,
                        list@[x].0@[b],
                    ) >= i64::MIN,
            decreases list@.len() - a,
        {
            let id = list[a].1;
            if table.contains(id) {
                let mut b: usize = 0;
                while b < list[a].0.elements.len()
                    invariant
                        b <= list@[a as int].0@.len(),
                        a < list@.len(),
                        id == list@[a as int].1,
                        table@.contains_key(id),
                        table.wf(),
                        helds == helds_of(lists@),
                        forall|y: int|
                            0 <= y < b ==> table@[id].count(#[trigger] list@[a as int].0@[y])
                                - releases_at(helds, id, list@[a as int].0@[y]) >= i64::MIN,
                    decreases list@[a as int].0@.len() - b,
                {
                    let t = list[a].0.elements[b];
                    let n = releases_in(lists, id, t);
                    let count = table.hold_count(id, t);
                    if (count as i128) - (n as i128) < (i64::MIN as i128) {
                        return false;
                    }
                    b = b + 1;
                }
            }
            a = a + 1;
        }
        k = k + 1;
    }
    proof {
        assert forall|id: u64, t: u64| table@.contains_key(id) implies #[trigger] table@[id].count(
            t,
        ) - releases_at(helds, id, t) >= i64::MIN by {
            if releases_at(helds, id, t) > 0 {
                lemma_releases_at_some(helds, id, t);
                let c = choose|c: int| 0 <= c < helds.len() && held_at(#[trigger] helds[c], id, t);
                let pairs = storage_pairs(lists@[c]@);
                let time = choose|time: Seq<u64>| #[trigger]
                    pairs.to_set().contains((time, id)) && time.contains(t);
                let a = choose|a: int| 0 <= a < pairs.len() && pairs[a] == (time, id);
                let b = choose|b: int| 0 <= b < time.len() && time[b] == t;
                assert(lists@[c]@[a].0@[b] == t);
            } else {
                assert(table.capabilities@[id].wf());
                assert(table.capabilities@[id]@.count(t) >= i64::MIN);
            }
        }
    }
    true
}

/// The id of a client connection.
pub type ConnectionId = u32;

/// What the coordinator's capability tables hold.
pub struct CoordinatorView {
    pub storage: Map<u64, CapabilityView>,
    pub compute: Map<u64, CapabilityView>,
}

/// The coordinator's record of read capabilities: one table for the
/// storage collections and one for the compute collections.
pub struct Coordinator {
    pub storage_read_capabilities: CapabilityTable,
    pub compute_read_capabilities: CapabilityTable,
    /// The read holds taken for each connection, to be released when its
    /// transaction ends.
    pub txn_read_holds: BTreeMap<ConnectionId, Vec<ReadHoldsInner>>,
}

impl View for Coordinator {
    type V = CoordinatorView;

    open spec fn view(&self) -> CoordinatorView {
        CoordinatorView {
            storage: self.storage_read_capabilities@,
            compute: self.compute_read_capabilities@,
        }
    }
}

impl Coordinator {
    /// Both tables are well formed.
    pub open spec fn wf(&self) -> bool {
        self.storage_read_capabilities.wf() && self.compute_read_capabilities.wf()
    }

    /// Whether the tables are as `old` after `mode` was applied to `holds`:
    /// each collection of `holds` has the capability that `mode` provides,
    /// with one hold more or less at the time of its hold, and every other
    /// collection is as it was.
    pub open spec fn holds_applied(
        &self,
        old: CoordinatorView,
        holds: HoldsView,
        mode: ModeView,
        frontiers: FrontiersView,
    ) -> bool {
        &&& table_changed(
            old.storage,
            self@.storage,
            holds.bundle().storage,
            |id: u64| mode_provision(mode, frontiers.storage[id]),
            added(mode, holds.storage),
            dropped(mode, holds.storage),
        )
        &&& table_changed(
            old.compute,
            self@.compute,
            compute_ids(holds.bundle().compute),
            |id: u64|
                mode_provision(
                    mode,
                    frontiers.compute[(instance_of(holds.bundle().compute, id), id)],
                ),
            added(mode, by_id(holds.compute)),
            dropped(mode, by_id(holds.compute)),
        )
    }

    /// A coordinator without capabilities.
    pub fn new() -> (r: Coordinator)
        ensures
            r@.storage == Map::<u64, CapabilityView>::empty(),
            r@.compute == Map::<u64, CapabilityView>::empty(),
            r.txn_read_holds@ == Map::<u32, Vec<ReadHoldsInner>>::empty(),
            r.wf(),
    {
        Coordinator {
            storage_read_capabilities: CapabilityTable::new(),
            compute_read_capabilities: CapabilityTable::new(),
            txn_read_holds: BTreeMap::new(),
        }
    }

    /// The policies in force for the collections of `bundle` that have a
    /// capability.
    pub fn current_policies(&self, bundle: &CollectionIdBundle) -> (r: PolicyUpdates)
        requires
            self.wf(),
        ensures
            storage_settled(r.storage@, bundle@.storage, self@.storage),
            compute_settled(r.compute@, bundle@.compute, self@.compute),
    {
        let ids = bundle.storage_list();
        let mut policies: Vec<Option<ReadPolicy>> = Vec::new();
        let mut i: usize = 0;
        while i < ids.len()
            invariant
                i <= ids@.len(),
                self.wf(),
                policies_for(policies@, ids@.take(i as int), self@.storage),
            decreases ids@.len() - i,
        {
            let policy = self.storage_read_capabilities.policy(ids[i]);
            policies.push(policy);
            proof {
                let done = ids@.take(i + 1);
                assert forall|k: int| 0 <= k < policies@.len() implies match #[trigger] policies@[k] {
                    Some(p) => self@.storage.contains_key(done[k]) && p@
                        == self@.storage[done[k]].policy() && p.wf(),
                    None => !self@.storage.contains_key(done[k]),
                } by {
                    if k < i {
                        assert(ids@.take(i as int)[k] == done[k]);
                    }
                }
            }
            i = i + 1;
        }
        assert(ids@.take(i as int) =~= ids@);
        let storage = settle_storage(&ids, policies, Ghost(self@.storage));
        let keys = bundle.compute_list();
        let ghost key_ids = keys@.map_values(|p: (u64, u64)| p.1);
        let mut compute_policies: Vec<Option<ReadPolicy>> = Vec::new();
        let mut j: usize = 0;
        while j < keys.len()
            invariant
                j <= keys@.len(),
                self.wf(),
                key_ids == keys@.map_values(|p: (u64, u64)| p.1),
                policies_for(compute_policies@, key_ids.take(j as int), self@.compute),
            decreases keys@.len() - j,
        {
            let policy = self.compute_read_capabilities.policy(keys[j].1);
            compute_policies.push(policy);
            proof {
                let done = key_ids.take(j + 1);
                assert forall|k: int| 0 <= k < compute_policies@.len() implies match #[trigger] compute_policies@[k] {
                    Some(p) => self@.compute.contains_key(done[k]) && p@
                        == self@.compute[done[k]].policy() && p.wf(),
                    None => !self@.compute.contains_key(done[k]),
                } by {
                    if k < j {
                        assert(key_ids.take(j as int)[k] == done[k]);
                    }
                }
            }
            j = j + 1;
        }
        assert(key_ids.take(j as int) =~= key_ids);
        let compute = settle_compute(&keys, compute_policies, Ghost(self@.compute));
        PolicyUpdates { storage, compute }
    }

    /// Takes read holds on the collections of `id_bundle` at `time`.
    ///
    /// A collection that has moved past `time` cannot be held there. With
    /// `precise` the request then fails, changes nothing, and returns the
    /// holds that would have been later than `time`, by time. Without it
    /// such a collection is held at its lower frontier, the earliest time
    /// possible.
    ///
    /// On success the holds are in force: each collection has a capability,
    /// made valid from its lower frontier if it had none, with one hold more
    /// at the time of its hold. The result is the holds, as a receipt to
    /// release them by, and the policies to install.
    pub fn acquire_read_holds(
        &mut self,
        time: Timestamp,
        id_bundle: &CollectionIdBundle,
        precise: bool,
        frontiers: &CollectionFrontiers,
    ) -> (r: Result<(ReadHoldsInner, PolicyUpdates), Vec<HoldEntry>>)
        requires
            old(self).wf(),
            frontiers.wf(),
            frontiers@.covers(id_bundle@),
            ids_global(id_bundle@.compute),
            has_room(old(self)@.storage, planned_holds(time, id_bundle@, frontiers@).storage),
            has_room(
                old(self)@.compute,
                by_id(planned_holds(time, id_bundle@, frontiers@).compute),
            ),
        ensures
            final(self).wf(),
            match r {
                Ok((holds, updates)) => {
                    &&& precise ==> too_late(
                        planned_holds(time, id_bundle@, frontiers@),
                        time,
                    ).is_empty()
                    &&& final(self).txn_read_holds == old(self).txn_read_holds
                    &&& holds.wf()
                    &&& holds@ == planned_holds(time, id_bundle@, frontiers@)
                    &&& holds@.bundle() == id_bundle@
                    &&& final(self).holds_applied(
                        old(self)@,
                        holds@,
                        ModeView::Acquire,
                        frontiers@,
                    )
                    &&& storage_settled(updates.storage@, id_bundle@.storage, final(self)@.storage)
                    &&& compute_settled(updates.compute@, id_bundle@.compute, final(self)@.compute)
                },
                Err(late) => {
                    &&& precise
                    &&& !too_late(planned_holds(time, id_bundle@, frontiers@), time).is_empty()
                    &&& holds_view(late@) == too_late(
                        planned_holds(time, id_bundle@, frontiers@),
                        time,
                    )
                    &&& entries_wf(late@)
                    &&& *final(self) == *old(self)
                },
            },
    {
        let holds = plan_read_holds(time, id_bundle, frontiers);
        if precise {
            let late = late_entries(&holds, time);
            if late.len() > 0 {
                return Err(late);
            }
        }
        proof {
            lemma_planned_bundle(time, id_bundle@, frontiers@);
        }
        let mode = UpdateMode::Acquire;
        let updates = self.apply_holds(&holds, &mode, frontiers);
        Ok((ReadHoldsInner { holds }, updates))
    }

    /// Applies `mode` to every hold of `holds`, and returns the policies
    /// then in force for the collections of `holds` that have a capability.
    pub fn apply_holds(
        &mut self,
        holds: &HoldsMap,
        mode: &UpdateMode,
        frontiers: &CollectionFrontiers,
    ) -> (r: PolicyUpdates)
        requires
            old(self).wf(),
            holds.wf(),
            ids_global(holds@.bundle().compute),
            mode is Acquire ==> frontiers.wf() && frontiers@.covers(holds@.bundle()),
            mode matches UpdateMode::Initialize(policy) ==> policy.wf(),
            mode is Release ==> can_release(old(self)@.storage, holds@.storage) && can_release(
                old(self)@.compute,
                by_id(holds@.compute),
            ),
            !(mode is Release) ==> has_room(old(self)@.storage, holds@.storage) && has_room(
                old(self)@.compute,
                by_id(holds@.compute),
            ),
        ensures
            final(self).wf(),
            final(self).txn_read_holds == old(self).txn_read_holds,
            final(self).holds_applied(old(self)@, holds@, mode@, frontiers@),
            storage_settled(r.storage@, holds@.bundle().storage, final(self)@.storage),
            compute_settled(r.compute@, holds@.bundle().compute, final(self)@.compute),
    {
        let ghost fv = frontiers@;
        let ghost bundle = holds@.bundle();
        // Storage.
        let list = holds.storage_ids();
        let ghost pairs = storage_pairs(list@);
        proof {
            assert forall|k: int| 0 <= k < list@.len() implies holds@.storage.contains(
                ((#[trigger] list@[k]).0@, list@[k].1),
            ) by {
                assert(pairs[k] == (list@[k].0@, list@[k].1));
                assert(pairs.to_set().contains(pairs[k]));
            }
            assert forall|k: int| 0 <= k < list@.len() implies bundle.storage.contains(
                (#[trigger] list@[k]).1,
            ) by {
                assert(holds@.storage.contains((list@[k].0@, list@[k].1)));
                assert(holds@.holds_storage(list@[k].1));
            }
            assert(ids_of(list@).to_set() =~= bundle.storage) by {
                assert forall|id: u64| ids_of(list@).to_set().contains(id)
                    <==> bundle.storage.contains(id) by {
                    if ids_of(list@).to_set().contains(id) {
                        let k = choose|k: int| 0 <= k < ids_of(list@).len() && ids_of(list@)[k] == id;
                        assert(bundle.storage.contains(list@[k].1));
                    }
                    if bundle.storage.contains(id) {
                        let t = choose|t: Seq<u64>| holds@.storage.contains((t, id));
                        assert(pairs.to_set().contains((t, id)));
                        let k = choose|k: int| 0 <= k < pairs.len() && pairs[k] == (t, id);
                        assert(ids_of(list@)[k] == id);
                    }
                }
            }
        }
        let sinces = match mode {
            UpdateMode::Acquire => storage_sinces(&list, frontiers),
            _ => Vec::new(),
        };
        let ghost storage_provision = |id: u64| mode_provision(mode@, fv.storage[id]);
        let policies = change_table(
            &mut self.storage_read_capabilities,
            &list,
            mode,
            &sinces,
            Ghost(storage_provision),
        );
        let ids = list_ids(&list);
        proof {
            assert(ids@.no_duplicates()) by {
                assert forall|a: int, b: int|
                    0 <= a < ids@.len() && 0 <= b < ids@.len() && a != b implies ids@[a]
                    != ids@[b] by {
                    assert(list@[a].1 != list@[b].1);
                }
            }
        }
        let storage = settle_storage(&ids, policies, Ghost(self.storage_read_capabilities@));
        // Compute.
        let compute_list = holds.compute_id_list();
        let ghost cpairs = compute_pairs_of(compute_list@);
        let (by_id_list, keys) = split_compute(&compute_list);
        let ghost held = storage_pairs(by_id_list@);
        proof {
            assert forall|k: int| 0 <= k < compute_list@.len() implies holds@.compute.contains(
                ((#[trigger] compute_list@[k]).0@, compute_list@[k].1),
            ) && bundle.compute.contains(compute_list@[k].1) by {
                assert(cpairs[k] == (compute_list@[k].0@, compute_list@[k].1));
                assert(cpairs.to_set().contains(cpairs[k]));
                assert(holds@.holds_compute(compute_list@[k].1.0, compute_list@[k].1.1));
            }
            assert(list_wf(by_id_list@)) by {
                assert forall|a: int, b: int|
                    0 <= a < by_id_list@.len() && 0 <= b < by_id_list@.len() && a
                        != b implies (#[trigger] by_id_list@[a]).1 != (#[trigger] by_id_list@[b]).1 by {
                    assert(bundle.compute.contains(compute_list@[a].1));
                    assert(bundle.compute.contains(compute_list@[b].1));
                    if by_id_list@[a].1 == by_id_list@[b].1 {
                        assert(bundle.compute.contains(
                            (compute_list@[a].1.0, compute_list@[a].1.1),
                        ));
                        assert(bundle.compute.contains(
                            (compute_list@[b].1.0, compute_list@[a].1.1),
                        ));
                        assert(compute_list@[a].1 == compute_list@[b].1);
                    }
                }
                assert forall|a: int| 0 <= a < by_id_list@.len() implies (#[trigger] by_id_list@[a]).0.wf() by {
                    assert(compute_list@[a].0.wf());
                }
            }
            assert(held.to_set() =~= by_id(holds@.compute)) by {
                assert forall|q: (Seq<u64>, u64)| held.to_set().contains(q) <==> by_id(
                    holds@.compute,
                ).contains(q) by {
                    if held.to_set().contains(q) {
                        let k = choose|k: int| 0 <= k < held.len() && held[k] == q;
                        assert(holds@.compute.contains(
                            (compute_list@[k].0@, compute_list@[k].1),
                        ));
                        assert(holds@.compute.contains((q.0, (compute_list@[k].1.0, q.1))));
                    }
                    if by_id(holds@.compute).contains(q) {
                        let instance = choose|instance: u64|
                            holds@.compute.contains((q.0, (instance, q.1)));
                        assert(cpairs.to_set().contains((q.0, (instance, q.1))));
                        let k = choose|k: int|
                            0 <= k < cpairs.len() && cpairs[k] == (q.0, (instance, q.1));
                        assert(held[k] == q);
                    }
                }
            }
            assert(ids_of(by_id_list@).to_set() =~= compute_ids(bundle.compute)) by {
                assert forall|id: u64| ids_of(by_id_list@).to_set().contains(id) <==> compute_ids(
                    bundle.compute,
                ).contains(id) by {
                    if ids_of(by_id_list@).to_set().contains(id) {
                        let k = choose|k: int|
                            0 <= k < ids_of(by_id_list@).len() && ids_of(by_id_list@)[k] == id;
                        assert(bundle.compute.contains(compute_list@[k].1));
                        assert(bundle.compute.contains((compute_list@[k].1.0, id)));
                    }
                    if compute_ids(bundle.compute).contains(id) {
                        let instance = choose|instance: u64| bundle.compute.contains((instance, id));
                        assert(holds@.holds_compute(instance, id));
                        let t = choose|t: Seq<u64>| holds@.compute.contains((t, (instance, id)));
                        assert(cpairs.to_set().contains((t, (instance, id))));
                        let k = choose|k: int|
                            0 <= k < cpairs.len() && cpairs[k] == (t, (instance, id));
                        assert(ids_of(by_id_list@)[k] == id);
                    }
                }
            }
        }
        let compute_sinces = match mode {
            UpdateMode::Acquire => compute_sinces(&compute_list, frontiers),
            _ => Vec::new(),
        };
        let ghost compute_provision = |id: u64|
            mode_provision(mode@, fv.compute[(instance_of(bundle.compute, id), id)]);
        proof {
            assert forall|k: int| 0 <= k < by_id_list@.len() implies #[trigger] compute_provision(
                by_id_list@[k].1,
            ) == mode_provision(
                mode@,
                if mode is Acquire {
                    compute_sinces@[k]@
                } else {
                    Seq::empty()
                },
            ) by {
                let id = by_id_list@[k].1;
                assert(bundle.compute.contains(compute_list@[k].1));
                assert(bundle.compute.contains((compute_list@[k].1.0, id)));
                let instance = instance_of(bundle.compute, id);
                assert(bundle.compute.contains((instance, id)));
                assert(instance == compute_list@[k].1.0);
            }
        }
        let compute_policies = change_table(
            &mut self.compute_read_capabilities,
            &by_id_list,
            mode,
            &compute_sinces,
            Ghost(compute_provision),
        );
        proof {
            assert(keys@ =~= compute_list@.map_values(|p: (Frontier, (u64, u64))| p.1));
            assert(keys@.no_duplicates()) by {
                assert forall|a: int, b: int|
                    0 <= a < keys@.len() && 0 <= b < keys@.len() && a != b implies keys@[a]
                    != keys@[b] by {
                    assert(compute_list@[a].1 != compute_list@[b].1);
                }
            }
            assert(keys@.map_values(|p: (u64, u64)| p.1) =~= ids_of(by_id_list@));
            assert(keys@.to_set() =~= bundle.compute) by {
                assert forall|p: (u64, u64)| keys@.to_set().contains(p)
                    <==> bundle.compute.contains(p) by {
                    if keys@.to_set().contains(p) {
                        let k = choose|k: int| 0 <= k < keys@.len() && keys@[k] == p;
                        assert(bundle.compute.contains(compute_list@[k].1));
                    }
                    if bundle.compute.contains(p) {
                        assert(holds@.holds_compute(p.0, p.1));
                        let t = choose|t: Seq<u64>| holds@.compute.contains((t, (p.0, p.1)));
                        assert(cpairs.to_set().contains((t, p)));
                        let k = choose|k: int| 0 <= k < cpairs.len() && cpairs[k] == (t, p);
                        assert(keys@[k] == p);
                    }
                }
            }
        }
        let compute = settle_compute(
            &keys,
            compute_policies,
            Ghost(self.compute_read_capabilities@),
        );
        PolicyUpdates { storage, compute }
    }

    /// Releases the given read holds, each taken by an earlier
    /// [`Self::acquire_read_holds`]. A collection that has no capability any
    /// more, because it was dropped meanwhile, is passed over.
    ///
    /// Each capability loses one hold for each of the given holds on its
    /// collection, at the time of that hold. The result holds, for each of
    /// the given holds in order, the policies in force right after its
    /// release, for its collections that have a capability.
    /// [`PolicyUpdates::merge`] makes one push of them.
    pub fn release_read_holds(&mut self, read_holdses: Vec<ReadHoldsInner>) -> (r: Vec<
        PolicyUpdates,
    >)
        requires
            old(self).wf(),
            forall|k: int|
                0 <= k < read_holdses@.len() ==> (#[trigger] read_holdses@[k]).wf() && ids_global(
                    read_holdses@[k]@.bundle().compute,
                ),
            can_release_all(old(self)@.storage, storage_helds(read_holdses@)),
            can_release_all(old(self)@.compute, compute_helds(read_holdses@)),
        ensures
            final(self).wf(),
            final(self).txn_read_holds == old(self).txn_read_holds,
            released(old(self)@.storage, final(self)@.storage, storage_helds(read_holdses@)),
            released(old(self)@.compute, final(self)@.compute, compute_helds(read_holdses@)),
            r@.len() == read_holdses@.len(),
            forall|k: int|
                0 <= k < r@.len() ==> storage_settled(
                    (#[trigger] r@[k]).storage@,
                    read_holdses@[k]@.bundle().storage,
                    table_after(old(self)@.storage, storage_helds(read_holdses@).take(k + 1)),
                ) && compute_settled(
                    r@[k].compute@,
                    read_holdses@[k]@.bundle().compute,
                    table_after(old(self)@.compute, compute_helds(read_holdses@).take(k + 1)),
                ),
    {
        let mut pieces: Vec<PolicyUpdates> = Vec::new();
        let unused = CollectionFrontiers::new();
        let mode = UpdateMode::Release;
        let mut i: usize = 0;
        proof {
            assert(storage_helds(read_holdses@.take(0)) =~= Seq::empty());
            assert(compute_helds(read_holdses@.take(0)) =~= Seq::empty());
            assert(self@.storage.dom() =~= old(self)@.storage.dom());
        }
        while i < read_holdses.len()
            invariant
                i <= read_holdses@.len(),
                self.wf(),
                self.txn_read_holds == old(self).txn_read_holds,
                mode is Release,
                forall|k: int|
                    0 <= k < read_holdses@.len() ==> (#[trigger] read_holdses@[k]).wf()
                        && ids_global(read_holdses@[k]@.bundle().compute),
                can_release_all(old(self)@.storage, storage_helds(read_holdses@)),
                can_release_all(old(self)@.compute, compute_helds(read_holdses@)),
                released(
                    old(self)@.storage,
                    self@.storage,
                    storage_helds(read_holdses@.take(i as int)),
                ),
                released(
                    old(self)@.compute,
                    self@.compute,
                    compute_helds(read_holdses@.take(i as int)),
                ),
                pieces@.len() == i,
                forall|k: int|
                    0 <= k < i ==> storage_settled(
                        (#[trigger] pieces@[k]).storage@,
                        read_holdses@[k]@.bundle().storage,
                        table_after(old(self)@.storage, storage_helds(read_holdses@).take(k + 1)),
                    ) && compute_settled(
                        pieces@[k].compute@,
                        read_holdses@[k]@.bundle().compute,
                        table_after(old(self)@.compute, compute_helds(read_holdses@).take(k + 1)),
                    ),
            decreases read_holdses@.len() - i,
        {
            let holds = &read_holdses[i];
            let ghost before = self@;
            let ghost done = read_holdses@.take(i as int);
            proof {
                assert(holds.wf());
                assert(storage_helds(done) =~= storage_helds(read_holdses@).take(i as int));
                assert(compute_helds(done) =~= compute_helds(read_holdses@).take(i as int));
                assert forall|id: u64, t: u64|
                    held_at(holds@.storage, id, t) && self@.storage.contains_key(
                        id,
                    ) implies #[trigger] self@.storage[id].count(t) > i64::MIN by {
                    assert(storage_helds(read_holdses@)[i as int] == holds@.storage);
                    lemma_releases_at_grows(storage_helds(read_holdses@), i as int, id, t);
                    assert(old(self)@.storage[id].count(t) - releases_at(
                        storage_helds(read_holdses@),
                        id,
                        t,
                    ) >= i64::MIN);
                }
                assert forall|id: u64, t: u64|
                    held_at(by_id(holds@.compute), id, t) && self@.compute.contains_key(
                        id,
                    ) implies #[trigger] self@.compute[id].count(t) > i64::MIN by {
                    assert(compute_helds(read_holdses@)[i as int] == by_id(holds@.compute));
                    lemma_releases_at_grows(compute_helds(read_holdses@), i as int, id, t);
                    assert(old(self)@.compute[id].count(t) - releases_at(
                        compute_helds(read_holdses@),
                        id,
                        t,
                    ) >= i64::MIN);
                }
            }
            let ghost listed = pieces@;
            let piece = self.apply_holds(&holds.holds, &mode, &unused);
            let ghost piece_storage = piece.storage@;
            let ghost piece_compute = piece.compute@;
            pieces.push(piece);
            proof {
                let next = read_holdses@.take(i + 1);
                assert(next =~= done.push(*holds));
                assert(storage_helds(next) =~= storage_helds(done).push(holds@.storage));
                assert(compute_helds(next) =~= compute_helds(done).push(by_id(holds@.compute)));
                assert(added(ModeView::Release, holds@.storage) == Set::<(Seq<u64>, u64)>::empty());
                assert(dropped(ModeView::Release, holds@.storage) == holds@.storage);
                assert(added(ModeView::Release, by_id(holds@.compute)) == Set::<
                    (Seq<u64>, u64),
                >::empty());
                assert(dropped(ModeView::Release, by_id(holds@.compute)) == by_id(holds@.compute));
                let keep = |id: u64| ProvisionView::Keep;
                let fv = unused@;
                let bundle = holds@.bundle();
                assert(table_changed(
                    before.storage,
                    self@.storage,
                    bundle.storage,
                    keep,
                    Set::empty(),
                    holds@.storage,
                )) by {
                    let given = |id: u64| mode_provision(ModeView::Release, fv.storage[id]);
                    assert forall|id: u64| bundle.storage.contains(id) implies #[trigger] changed(
                        before.storage,
                        self@.storage,
                        id,
                        keep(id),
                        Set::empty(),
                        holds@.storage,
                    ) by {
                        assert(changed(
                            before.storage,
                            self@.storage,
                            id,
                            given(id),
                            Set::empty(),
                            holds@.storage,
                        ));
                    }
                }
                assert(table_changed(
                    before.compute,
                    self@.compute,
                    compute_ids(bundle.compute),
                    keep,
                    Set::empty(),
                    by_id(holds@.compute),
                )) by {
                    let given = |id: u64|
                        mode_provision(
                            ModeView::Release,
                            fv.compute[(instance_of(bundle.compute, id), id)],
                        );
                    assert forall|id: u64| compute_ids(bundle.compute).contains(
                        id,
                    ) implies #[trigger] changed(
                        before.compute,
                        self@.compute,
                        id,
                        keep(id),
                        Set::empty(),
                        by_id(holds@.compute),
                    ) by {
                        assert(changed(
                            before.compute,
                            self@.compute,
                            id,
                            given(id),
                            Set::empty(),
                            by_id(holds@.compute),
                        ));
                    }
                }
                assert forall|time: Seq<u64>, id: u64| #[trigger]
                    holds@.storage.contains((time, id)) implies bundle.storage.contains(id) by {
                    assert(holds@.holds_storage(id));
                }
                assert forall|time: Seq<u64>, id: u64| #[trigger]
                    by_id(holds@.compute).contains((time, id)) implies compute_ids(
                    bundle.compute,
                ).contains(id) by {
                    let instance = choose|instance: u64|
                        holds@.compute.contains((time, (instance, id)));
                    assert(holds@.holds_compute(instance, id));
                    assert(bundle.compute.contains((instance, id)));
                }
                lemma_released_step(
                    old(self)@.storage,
                    before.storage,
                    self@.storage,
                    storage_helds(done),
                    holds@.storage,
                    bundle.storage,
                );
                lemma_released_step(
                    old(self)@.compute,
                    before.compute,
                    self@.compute,
                    compute_helds(done),
                    by_id(holds@.compute),
                    compute_ids(bundle.compute),
                );
                assert(storage_helds(next) =~= storage_helds(read_holdses@).take(i + 1));
                assert(compute_helds(next) =~= compute_helds(read_holdses@).take(i + 1));
                lemma_settled_after(
                    piece_storage,
                    piece_compute,
                    bundle.storage,
                    bundle.compute,
                    self@.storage,
                    self@.compute,
                    old(self)@.storage,
                    old(self)@.compute,
                    storage_helds(next),
                    compute_helds(next),
                );
                assert forall|k: int| 0 <= k < pieces@.len() implies storage_settled(
                    (#[trigger] pieces@[k]).storage@,
                    read_holdses@[k]@.bundle().storage,
                    table_after(old(self)@.storage, storage_helds(read_holdses@).take(k + 1)),
                ) && compute_settled(
                    pieces@[k].compute@,
                    read_holdses@[k]@.bundle().compute,
                    table_after(old(self)@.compute, compute_helds(read_holdses@).take(k + 1)),
                ) by {
                    if k < i {
                        assert(pieces@[k] == listed[k]);
                    }
                }
            }
            i = i + 1;
        }
        assert(read_holdses@.take(i as int) =~= read_holdses@);
        pieces
    }

    /// Sets up the read policies of new collections: each collection of
    /// `id_bundle` gets the base policy of `compaction_window`, whether it
    /// had a capability or not.
    ///
    /// Collections of a timeline are given with `read_ts`, the read
    /// timestamp of the timeline, and `read_holds`, its read holds. They are
    /// held at `read_ts` where they can be, and else at their lower
    /// frontier; `read_holds` gains these holds, and the capabilities count
    /// them. Collections of no timeline are given without `read_ts`: nothing
    /// is held, and `read_holds` stays as it is.
    ///
    /// The result is the policies to install.
    pub fn initialize_read_policies(
        &mut self,
        read_holds: &mut TimelineReadHolds,
        read_ts: Option<Timestamp>,
        id_bundle: &CollectionIdBundle,
        compaction_window: CompactionWindow,
        frontiers: &CollectionFrontiers,
    ) -> (r: PolicyUpdates)
        requires
            old(self).wf(),
            old(read_holds).wf(),
            ids_global(id_bundle@.compute),
            has_room(old(self)@.storage, initial_holds(read_ts, id_bundle@, frontiers@).storage),
            has_room(
                old(self)@.compute,
                by_id(initial_holds(read_ts, id_bundle@, frontiers@).compute),
            ),
            read_ts is Some ==> frontiers.wf() && frontiers@.covers(id_bundle@) && old(
                read_holds,
            )@.bundle().disjoint(id_bundle@),
        ensures
            final(self).wf(),
            final(self).txn_read_holds == old(self).txn_read_holds,
            final(read_holds).wf(),
            final(read_holds)@ == match read_ts {
                Some(ts) => old(read_holds)@.union(planned_holds(ts, id_bundle@, frontiers@)),
                None => old(read_holds)@,
            },
            final(self).holds_applied(
                old(self)@,
                initial_holds(read_ts, id_bundle@, frontiers@),
                ModeView::Initialize(compaction_window.policy_view()),
                frontiers@,
            ),
            initial_holds(read_ts, id_bundle@, frontiers@).bundle() == id_bundle@,
            storage_settled(r.storage@, id_bundle@.storage, final(self)@.storage),
            compute_settled(r.compute@, id_bundle@.compute, final(self)@.compute),
    {
        let mode = UpdateMode::Initialize(compaction_window.to_policy());
        match read_ts {
            Some(ts) => {
                let holds = plan_read_holds(ts, id_bundle, frontiers);
                proof {
                    lemma_planned_bundle(ts, id_bundle@, frontiers@);
                }
                read_holds.extend_with_new(TimelineReadHolds { holds: holds.clone() });
                self.apply_holds(&holds, &mode, frontiers)
            },
            None => {
                let mut holds = HoldsMap::new();
                if !id_bundle.is_empty() {
                    let nowhere = Frontier::new();
                    holds.extend_at(&nowhere, id_bundle);
                }
                proof {
                    let plain = HoldsView::at(Seq::empty(), id_bundle@);
                    assert(holds@.storage =~= plain.storage);
                    assert(holds@.compute =~= plain.compute);
                    crate::holds::lemma_bundle_at(Seq::empty(), id_bundle@);
                }
                self.apply_holds(&holds, &mode, frontiers)
            },
        }
    }

    /// Sets up the read policies of new storage collections. See
    /// [`Self::initialize_read_policies`].
    pub fn initialize_storage_read_policies(
        &mut self,
        read_holds: &mut TimelineReadHolds,
        read_ts: Option<Timestamp>,
        ids: Vec<GlobalId>,
        compaction_window: CompactionWindow,
        frontiers: &CollectionFrontiers,
    ) -> (r: PolicyUpdates)
        requires
            old(self).wf(),
            old(read_holds).wf(),
            has_room(
                old(self)@.storage,
                initial_holds(
                    read_ts,
                    BundleView { storage: ids@.to_set(), compute: Set::empty() },
                    frontiers@,
                ).storage,
            ),
            read_ts is Some ==> frontiers.wf() && (forall|id: u64| #[trigger]
                ids@.to_set().contains(id) ==> frontiers@.storage.contains_key(id) && !old(
                    read_holds,
                )@.bundle().storage.contains(id)),
        ensures
            final(self).wf(),
            final(self).txn_read_holds == old(self).txn_read_holds,
            final(read_holds).wf(),
            final(read_holds)@ == match read_ts {
                Some(ts) => old(read_holds)@.union(
                    planned_holds(
                        ts,
                        BundleView { storage: ids@.to_set(), compute: Set::empty() },
                        frontiers@,
                    ),
                ),
                None => old(read_holds)@,
            },
            final(self).holds_applied(
                old(self)@,
                initial_holds(
                    read_ts,
                    BundleView { storage: ids@.to_set(), compute: Set::empty() },
                    frontiers@,
                ),
                ModeView::Initialize(compaction_window.policy_view()),
                frontiers@,
            ),
            storage_settled(r.storage@, ids@.to_set(), final(self)@.storage),
            r.compute@.len() == 0,
    {
        let bundle = CollectionIdBundle::from_storage_ids(&ids);
        let r = self.initialize_read_policies(
            read_holds,
            read_ts,
            &bundle,
            compaction_window,
            frontiers,
        );
        proof {
            if r.compute@.len() > 0 {
                assert(r.compute@[0].1@.len() > 0);
                assert(bundle@.compute.contains((r.compute@[0].0, r.compute@[0].1@[0].0)));
            }
        }
        r
    }

    /// Sets up the read policies of new compute collections of `instance`.
    /// See [`Self::initialize_read_policies`].
    pub fn initialize_compute_read_policies(
        &mut self,
        read_holds: &mut TimelineReadHolds,
        read_ts: Option<Timestamp>,
        ids: Vec<GlobalId>,
        instance: ComputeInstanceId,
        compaction_window: CompactionWindow,
        frontiers: &CollectionFrontiers,
    ) -> (r: PolicyUpdates)
        requires
            old(self).wf(),
            old(read_holds).wf(),
            has_room(
                old(self)@.compute,
                by_id(
                    initial_holds(
                        read_ts,
                        BundleView {
                            storage: Set::empty(),
                            compute: ids@.to_set().map(|id: u64| (instance, id)),
                        },
                        frontiers@,
                    ).compute,
                ),
            ),
            read_ts is Some ==> frontiers.wf() && (forall|id: u64| #[trigger]
                ids@.to_set().contains(id) ==> frontiers@.compute.contains_key((instance, id))
                    && !old(read_holds)@.bundle().compute.contains((instance, id))),
        ensures
            final(self).wf(),
            final(self).txn_read_holds == old(self).txn_read_holds,
            final(read_holds).wf(),
            final(read_holds)@ == match read_ts {
                Some(ts) => old(read_holds)@.union(
                    planned_holds(
                        ts,
                        BundleView {
                            storage: Set::empty(),
                            compute: ids@.to_set().map(|id: u64| (instance, id)),
                        },
                        frontiers@,
                    ),
                ),
                None => old(read_holds)@,
            },
            final(self).holds_applied(
                old(self)@,
                initial_holds(
                    read_ts,
                    BundleView {
                        storage: Set::empty(),
                        compute: ids@.to_set().map(|id: u64| (instance, id)),
                    },
                    frontiers@,
                ),
                ModeView::Initialize(compaction_window.policy_view()),
                frontiers@,
            ),
            r.storage@.len() == 0,
            compute_settled(
                r.compute@,
                ids@.to_set().map(|id: u64| (instance, id)),
                final(self)@.compute,
            ),
    {
        let bundle = CollectionIdBundle::from_compute_ids(instance, &ids);
        proof {
            assert forall|id: u64| compute_ids(bundle@.compute).contains(id) implies ids@.to_set().contains(
                id,
            ) by {
                let i = choose|i: u64| bundle@.compute.contains((i, id));
                let x = choose|x: u64| ids@.to_set().contains(x) && (i, id) == (instance, x);
            }
            assert forall|p: (u64, u64)| #[trigger] bundle@.compute.contains(p) implies p.0
                == instance && ids@.to_set().contains(p.1) by {
                let x = choose|x: u64| ids@.to_set().contains(x) && p == (instance, x);
            }
        }
        let r = self.initialize_read_policies(
            read_holds,
            read_ts,
            &bundle,
            compaction_window,
            frontiers,
        );
        proof {
            if r.storage@.len() > 0 {
                assert(bundle@.storage.contains(r.storage@[0].0));
            }
        }
        r
    }

    /// Makes sure that storage collection `id` has a capability. A new one
    /// has the base policy of `compaction_window`, or without one the policy
    /// that keeps the collection valid from its lower frontier. An existing
    /// one gets the base policy of `compaction_window` if one is given.
    pub fn ensure_storage_capability(
        &mut self,
        id: GlobalId,
        compaction_window: Option<CompactionWindow>,
        frontiers: &CollectionFrontiers,
    )
        requires
            old(self).wf(),
            compaction_window is None && !old(self)@.storage.contains_key(id) ==> frontiers.wf()
                && frontiers@.storage.contains_key(id),
        ensures
            final(self).wf(),
            final(self).txn_read_holds == old(self).txn_read_holds,
            final(self)@.compute == old(self)@.compute,
            forall|other: u64|
                other != id ==> #[trigger] untouched(old(self)@.storage, final(self)@.storage, other),
            changed(
                old(self)@.storage,
                final(self)@.storage,
                id,
                match compaction_window {
                    Some(window) => ProvisionView::Install(window.policy_view()),
                    None => ProvisionView::Default(frontiers@.storage[id]),
                },
                Set::empty(),
                Set::empty(),
            ),
    {
        let present = self.storage_read_capabilities.contains(id);
        let since = if compaction_window.is_none() && !present {
            frontiers.storage_since(id).unwrap().clone()
        } else {
            Frontier::new()
        };
        let policy = match compaction_window {
            Some(window) => Some(window.to_policy()),
            None => None,
        };
        self.storage_read_capabilities.ensure(id, policy, &since);
        proof {
            assert forall|t: u64| !held_at(Set::<(Seq<u64>, u64)>::empty(), id, t) by {}
            assert forall|other: u64| other != id implies #[trigger] untouched(
                old(self)@.storage,
                self@.storage,
                other,
            ) by {
                if old(self)@.storage.contains_key(other) {
                    assert(self@.storage[other] == old(self)@.storage[other]);
                }
            }
        }
    }

    /// Makes sure that collection `id` of `instance` has a capability. A
    /// new one has the base policy of `compaction_window`, or without one
    /// the policy that keeps the collection valid from its lower frontier.
    /// An existing one gets the base policy of `compaction_window` if one is
    /// given.
    pub fn ensure_compute_capability(
        &mut self,
        instance: ComputeInstanceId,
        id: GlobalId,
        compaction_window: Option<CompactionWindow>,
        frontiers: &CollectionFrontiers,
    )
        requires
            old(self).wf(),
            compaction_window is None && !old(self)@.compute.contains_key(id) ==> frontiers.wf()
                && frontiers@.compute.contains_key((instance, id)),
        ensures
            final(self).wf(),
            final(self).txn_read_holds == old(self).txn_read_holds,
            final(self)@.storage == old(self)@.storage,
            forall|other: u64|
                other != id ==> #[trigger] untouched(old(self)@.compute, final(self)@.compute, other),
            changed(
                old(self)@.compute,
                final(self)@.compute,
                id,
                match compaction_window {
                    Some(window) => ProvisionView::Install(window.policy_view()),
                    None => ProvisionView::Default(frontiers@.compute[(instance, id)]),
                },
                Set::empty(),
                Set::empty(),
            ),
    {
        let present = self.compute_read_capabilities.contains(id);
        let since = if compaction_window.is_none() && !present {
            frontiers.compute_since(instance, id).unwrap().clone()
        } else {
            Frontier::new()
        };
        let policy = match compaction_window {
            Some(window) => Some(window.to_policy()),
            None => None,
        };
        self.compute_read_capabilities.ensure(id, policy, &since);
        proof {
            assert forall|t: u64| !held_at(Set::<(Seq<u64>, u64)>::empty(), id, t) by {}
            assert forall|other: u64| other != id implies #[trigger] untouched(
                old(self)@.compute,
                self@.compute,
                other,
            ) by {
                if old(self)@.compute.contains_key(other) {
                    assert(self@.compute[other] == old(self)@.compute[other]);
                }
            }
        }
    }

    /// Forgets the read policy of storage collection `id`. Returns whether
    /// it had one.
    pub fn drop_storage_read_policy(&mut self, id: GlobalId) -> (r: bool)
        ensures
            final(self).txn_read_holds == old(self).txn_read_holds,
            r == old(self)@.storage.contains_key(id),
            final(self)@.storage == old(self)@.storage.remove(id),
            final(self)@.compute == old(self)@.compute,
            old(self).wf() ==> final(self).wf(),
    {
        self.storage_read_capabilities.remove(id)
    }

    /// Forgets the read policy of compute collection `id`. Returns whether
    /// it had one.
    pub fn drop_compute_read_policy(&mut self, id: GlobalId) -> (r: bool)
        ensures
            final(self).txn_read_holds == old(self).txn_read_holds,
            r == old(self)@.compute.contains_key(id),
            final(self)@.compute == old(self)@.compute.remove(id),
            final(self)@.storage == old(self)@.storage,
            old(self).wf() ==> final(self).wf(),
    {
        self.compute_read_capabilities.remove(id)
    }

    /// Installs base policies for storage collections, in the order given.
    /// The result names, for each given policy in that order, its
    /// collection with the policy in force right after the change.
    pub fn update_storage_base_read_policies(
        &mut self,
        base_policies: Vec<(GlobalId, ReadPolicy)>,
    ) -> (r: Vec<(GlobalId, ReadPolicy)>)
        requires
            old(self).wf(),
            forall|k: int|
                0 <= k < base_policies@.len() ==> old(self)@.storage.contains_key(
                    (#[trigger] base_policies@[k]).0,
                ) && base_policies@[k].1.wf(),
        ensures
            final(self).wf(),
            final(self).txn_read_holds == old(self).txn_read_holds,
            final(self)@.compute == old(self)@.compute,
            bases_installed(
                old(self)@.storage,
                final(self)@.storage,
                storage_bases(base_policies@),
            ),
            r@.len() == base_policies@.len(),
            forall|k: int|
                0 <= k < r@.len() ==> {
                    &&& (#[trigger] r@[k]).0 == base_policies@[k].0
                    &&& r@[k].1@ == policy_after(
                        old(self)@.storage,
                        base_policies@[k].0,
                        base_policies@[k].1@,
                    )
                    &&& r@[k].1.wf()
                },
    {
        let mut policies: Vec<(u64, ReadPolicy)> = Vec::new();
        let ghost all = base_policies@;
        let ghost bases = storage_bases(all);
        proof {
            assert(bases.take(0) =~= Seq::empty());
            assert(self@.storage.dom() =~= old(self)@.storage.dom());
        }
        for item in it: base_policies.into_iter()
            invariant
                it.seq() == all,
                bases == storage_bases(all),
                self.wf(),
                self.txn_read_holds == old(self).txn_read_holds,
                self@.compute == old(self)@.compute,
                forall|k: int|
                    0 <= k < all.len() ==> old(self)@.storage.contains_key((#[trigger] all[k]).0)
                        && all[k].1.wf(),
                bases_installed(old(self)@.storage, self@.storage, bases.take(it.index())),
                policies@.len() == it.index(),
                forall|k: int|
                    0 <= k < policies@.len() ==> {
                        &&& (#[trigger] policies@[k]).0 == all[k].0
                        &&& policies@[k].1@ == policy_after(
                            old(self)@.storage,
                            all[k].0,
                            all[k].1@,
                        )
                        &&& policies@[k].1.wf()
                    },
        {
            let ghost i = it.index();
            let ghost before = self@.storage;
            let ghost listed = policies@;
            let (id, policy) = item;
            proof {
                assert(all[i] == (id, policy));
                assert(before.contains_key(id));
            }
            let in_force = self.storage_read_capabilities.set_base_policy(id, policy);
            policies.push((id, in_force));
            proof {
                let done = bases.take(i);
                let next = bases.take(i + 1);
                assert(next =~= done.push((id, policy@)));
                assert(next.drop_last() =~= done);
                assert(self@.storage.dom() =~= old(self)@.storage.dom());
                assert forall|c: u64| #[trigger] old(self)@.storage.contains_key(c) implies self@.storage[c].holds
                    == old(self)@.storage[c].holds && self@.storage[c].base_policy == match last_base(
                    next,
                    c,
                ) {
                    Some(p) => p,
                    None => old(self)@.storage[c].base_policy,
                } by {
                    if c != id {
                        assert(self@.storage[c] == before[c]);
                    }
                }
                assert forall|k: int| 0 <= k < policies@.len() implies {
                    &&& (#[trigger] policies@[k]).0 == all[k].0
                    &&& policies@[k].1@ == policy_after(old(self)@.storage, all[k].0, all[k].1@)
                    &&& policies@[k].1.wf()
                } by {
                    if k < i {
                        assert(policies@[k] == listed[k]);
                    } else {
                        assert(self@.storage[id].holds == old(self)@.storage[id].holds);
                    }
                }
            }
        }
        proof {
            assert(bases.take(all.len() as int) =~= bases);
        }
        policies
    }

    /// Installs base policies for compute collections, each given with its
    /// instance, in the order given. The result holds one batch for each
    /// instance named, in ascending order of the instances; a batch names,
    /// for each policy given for its instance, in the order given, the
    /// collection with the policy in force right after the change.
    pub fn update_compute_base_read_policies(
        &mut self,
        base_policies: Vec<(ComputeInstanceId, GlobalId, ReadPolicy)>,
    ) -> (r: Vec<(ComputeInstanceId, Vec<(GlobalId, ReadPolicy)>)>)
        requires
            old(self).wf(),
            ids_global(compute_keys(base_policies@)),
            forall|k: int|
                0 <= k < base_policies@.len() ==> old(self)@.compute.contains_key(
                    (#[trigger] base_policies@[k]).1,
                ) && base_policies@[k].2.wf(),
        ensures
            final(self).wf(),
            final(self).txn_read_holds == old(self).txn_read_holds,
            final(self)@.storage == old(self)@.storage,
            bases_installed(
                old(self)@.compute,
                final(self)@.compute,
                compute_bases(base_policies@),
            ),
            batches_of(r@, compute_changes(base_policies@, old(self)@.compute)),
    {
        let mut flat: Vec<(u64, (u64, ReadPolicy))> = Vec::new();
        let ghost all = base_policies@;
        let ghost bases = compute_bases(all);
        let ghost changes = compute_changes(all, old(self)@.compute);
        proof {
            assert(bases.take(0) =~= Seq::empty());
            assert(self@.compute.dom() =~= old(self)@.compute.dom());
        }
        for item in it: base_policies.into_iter()
            invariant
                it.seq() == all,
                bases == compute_bases(all),
                changes == compute_changes(all, old(self)@.compute),
                self.wf(),
                self.txn_read_holds == old(self).txn_read_holds,
                self@.storage == old(self)@.storage,
                forall|k: int|
                    0 <= k < all.len() ==> old(self)@.compute.contains_key((#[trigger] all[k]).1)
                        && all[k].2.wf(),
                bases_installed(old(self)@.compute, self@.compute, bases.take(it.index())),
                flat@.len() == it.index(),
                forall|k: int|
                    0 <= k < flat@.len() ==> {
                        &&& (#[trigger] flat@[k]).0 == changes[k].0
                        &&& flat@[k].1.0 == changes[k].1.0
                        &&& flat@[k].1.1@ == changes[k].1.1
                        &&& flat@[k].1.1.wf()
                    },
        {
            let ghost i = it.index();
            let ghost before = self@.compute;
            let ghost listed = flat@;
            let (instance, id, policy) = item;
            proof {
                assert(all[i] == (instance, id, policy));
                assert(before.contains_key(id));
            }
            let in_force = self.compute_read_capabilities.set_base_policy(id, policy);
            flat.push((instance, (id, in_force)));
            proof {
                let done = bases.take(i);
                let next = bases.take(i + 1);
                assert(next =~= done.push((id, policy@)));
                assert(next.drop_last() =~= done);
                assert(self@.compute.dom() =~= old(self)@.compute.dom());
                assert forall|c: u64| #[trigger] old(self)@.compute.contains_key(c) implies self@.compute[c].holds
                    == old(self)@.compute[c].holds && self@.compute[c].base_policy == match last_base(
                    next,
                    c,
                ) {
                    Some(p) => p,
                    None => old(self)@.compute[c].base_policy,
                } by {
                    if c != id {
                        assert(self@.compute[c] == before[c]);
                    }
                }
                assert forall|k: int| 0 <= k < flat@.len() implies {
                    &&& (#[trigger] flat@[k]).0 == changes[k].0
                    &&& flat@[k].1.0 == changes[k].1.0
                    &&& flat@[k].1.1@ == changes[k].1.1
                    &&& flat@[k].1.1.wf()
                } by {
                    if k < i {
                        assert(flat@[k] == listed[k]);
                    } else {
                        assert(self@.compute[id].holds == old(self)@.compute[id].holds);
                    }
                }
            }
        }
        proof {
            assert(bases.take(all.len() as int) =~= bases);
        }
        let ghost flat_view = flat@;
        let batches = group_by_key(flat);
        proof {
            let view = |p: (u64, ReadPolicy)| (p.0, p.1@);
            assert forall|k: int| 0 <= k < batches@.len() implies batch_views(
                (#[trigger] batches@[k]).1@,
            ) == items_of(changes, batches@[k].0) && batches@[k].1@.len() > 0 by {
                lemma_items_of_map(flat_view, changes, view, batches@[k].0);
                assert(batch_views(batches@[k].1@) =~= items_of(flat_view, batches@[k].0).map_values(
                    view,
                ));
            }
            assert forall|k: int, j: int|
                0 <= k < batches@.len() && 0 <= j < batches@[k].1@.len() implies (#[trigger] batches@[k].1@[j]).1.wf() by {
                let v = batches@[k].1@[j];
                assert(batches@[k].1@.contains(v));
                lemma_items_of_contains(flat_view, batches@[k].0, v);
                let n = choose|n: int| 0 <= n < flat_view.len() && flat_view[n] == (batches@[k].0, v);
                assert(flat_view[n].1.1.wf());
            }
            assert forall|i: int| 0 <= i < changes.len() implies has_batch(
                batches@,
                (#[trigger] changes[i]).0,
            ) by {
                let k = choose|k: int|
                    0 <= k < batches@.len() && (#[trigger] batches@[k]).0 == (#[trigger] flat_view[i]).0;
                assert(batches@[k].0 == changes[i].0);
            }
        }
        batches
    }

    /// Installs a base policy for collection `id` of `compute_instance`, and
    /// returns the policy then in force for it, as the one batch of its
    /// instance.
    pub fn update_compute_base_read_policy(
        &mut self,
        compute_instance: ComputeInstanceId,
        id: GlobalId,
        base_policy: ReadPolicy,
    ) -> (r: Vec<(ComputeInstanceId, Vec<(GlobalId, ReadPolicy)>)>)
        requires
            old(self).wf(),
            old(self)@.compute.contains_key(id),
            base_policy.wf(),
        ensures
            final(self).wf(),
            final(self).txn_read_holds == old(self).txn_read_holds,
            final(self)@.storage == old(self)@.storage,
            final(self)@.compute.dom() == old(self)@.compute.dom(),
            forall|other: u64|
                other != id ==> #[trigger] untouched(old(self)@.compute, final(self)@.compute, other),
            final(self)@.compute[id].holds == old(self)@.compute[id].holds,
            final(self)@.compute[id].base_policy == base_policy@,
            r@.len() == 1,
            r@[0].0 == compute_instance,
            r@[0].1@.len() == 1,
            r@[0].1@[0].0 == id,
            r@[0].1@[0].1@ == final(self)@.compute[id].policy(),
            r@[0].1@[0].1.wf(),
    {
        let mut list: Vec<(u64, u64, ReadPolicy)> = Vec::new();
        list.push((compute_instance, id, base_policy));
        proof {
            assert(compute_keys(list@) =~= set![(compute_instance, id)]) by {
                assert(list@[0].0 == compute_instance && list@[0].1 == id);
            }
            reveal_with_fuel(last_base, 2);
            assert(compute_bases(list@) =~= seq![(id, base_policy@)]);
        }
        let r = self.update_compute_base_read_policies(list);
        proof {
            let bases = compute_bases(seq![(compute_instance, id, base_policy)]);
            assert forall|other: u64| other != id implies #[trigger] untouched(
                old(self)@.compute,
                self@.compute,
                other,
            ) by {
                if old(self)@.compute.contains_key(other) {
                    assert(self@.compute.contains_key(other));
                    assert(last_base(bases, other) is None);
                    assert(self@.compute[other].holds == old(self)@.compute[other].holds);
                    assert(self@.compute[other].base_policy == old(
                        self,
                    )@.compute[other].base_policy);
                }
            }
            let changes = compute_changes(
                seq![(compute_instance, id, base_policy)],
                old(self)@.compute,
            );
            assert(changes.len() == 1);
            reveal_with_fuel(items_of, 3);
            assert(changes.drop_last().len() == 0);
            assert(has_batch(r@, changes[0].0));
            let k = choose|k: int| 0 <= k < r@.len() && (#[trigger] r@[k]).0 == compute_instance;
            assert(r@[k].0 == compute_instance);
            assert forall|a: int| 0 <= a < r@.len() implies (#[trigger] r@[a]).0
                == compute_instance by {
                if r@[a].0 != compute_instance {
                    assert(items_of(changes, r@[a].0).len() == 0);
                    assert(batch_views(r@[a].1@).len() == r@[a].1@.len());
                }
            }
            if r@.len() > 1 {
                assert(r@[0].0 < r@[1].0);
            }
            assert(items_of(changes, compute_instance) =~= seq![changes[0].1]);
            assert(batch_views(r@[0].1@).len() == r@[0].1@.len());
            assert(batch_views(r@[0].1@)[0] == (r@[0].1@[0].0, r@[0].1@[0].1@));
        }
        r
    }

    /// Moves the read holds of a timeline forward to `new_time`. A hold at
    /// a later time stays where it is.
    ///
    /// Each collection whose hold changes its time must have a capability
    /// and be known to its controller, and must not have moved past the new
    /// time of its hold: [`Self::can_update_read_holds`] tests this. Its
    /// capability gains a hold at the new time and loses the one at the old
    /// time.
    ///
    /// The result is the holds as they are now, and the policies then in
    /// force for the collections whose holds changed.
    pub fn update_read_holds(
        &mut self,
        read_holds: TimelineReadHolds,
        new_time: Timestamp,
        frontiers: &CollectionFrontiers,
    ) -> (r: (TimelineReadHolds, PolicyUpdates))
        requires
            old(self).wf(),
            read_holds.wf(),
            ids_global(read_holds@.bundle().compute),
            update_allowed(old(self)@, read_holds@, new_time, frontiers@),
            has_room(old(self)@.storage, moved_to(read_holds@, new_time).storage),
            has_room(old(self)@.compute, by_id(moved_to(read_holds@, new_time).compute)),
            can_release(old(self)@.storage, moved_from(read_holds@, new_time).storage),
            can_release(old(self)@.compute, by_id(moved_from(read_holds@, new_time).compute)),
        ensures
            final(self).wf(),
            final(self).txn_read_holds == old(self).txn_read_holds,
            r.0.wf(),
            r.0@ == advanced(read_holds@, new_time),
            table_changed(
                old(self)@.storage,
                final(self)@.storage,
                moved_from(read_holds@, new_time).bundle().storage,
                |id: u64| ProvisionView::Keep,
                moved_to(read_holds@, new_time).storage,
                moved_from(read_holds@, new_time).storage,
            ),
            table_changed(
                old(self)@.compute,
                final(self)@.compute,
                compute_ids(moved_from(read_holds@, new_time).bundle().compute),
                |id: u64| ProvisionView::Keep,
                by_id(moved_to(read_holds@, new_time).compute),
                by_id(moved_from(read_holds@, new_time).compute),
            ),
            storage_settled(
                r.1.storage@,
                moved_from(read_holds@, new_time).bundle().storage,
                final(self)@.storage,
            ),
            compute_settled(
                r.1.compute@,
                moved_from(read_holds@, new_time).bundle().compute,
                final(self)@.compute,
            ),
    {
        // The lower frontiers are read by the precondition alone.
        let _ = frontiers;
        let (result, from, to) = advance_holds(&read_holds.holds, new_time);
        proof {
            lemma_moved_bundles(read_holds@, new_time);
            let moved = from@.bundle();
            assert forall|i1: u64, i2: u64, id: u64|
                #![trigger moved.compute.contains((i1, id)), moved.compute.contains((i2, id))]
                moved.compute.contains((i1, id)) && moved.compute.contains((i2, id)) implies i1
                == i2 by {
                let t1 = choose|t1: Seq<u64>| from@.compute.contains((t1, (i1, id)));
                let t2 = choose|t2: Seq<u64>| from@.compute.contains((t2, (i2, id)));
                assert(read_holds@.compute.contains((t1, (i1, id))));
                assert(read_holds@.compute.contains((t2, (i2, id))));
                assert(read_holds@.holds_compute(i1, id));
                assert(read_holds@.holds_compute(i2, id));
                assert(read_holds@.bundle().compute.contains((i1, id)));
                assert(read_holds@.bundle().compute.contains((i2, id)));
            }
        }
        let unused = CollectionFrontiers::new();
        let ghost before = self@;
        let hold = UpdateMode::Hold;
        let _ = self.apply_holds(&to, &hold, &unused);
        let ghost mid = self@;
        proof {
            let ids = from@.bundle().storage;
            let cids = compute_ids(from@.bundle().compute);
            let keep = |id: u64| ProvisionView::Keep;
            assert forall|id: u64, t: u64|
                held_at(from@.storage, id, t) && mid.storage.contains_key(
                    id,
                ) implies #[trigger] mid.storage[id].count(t) > i64::MIN by {
                let time = choose|time: Seq<u64>| #[trigger]
                    from@.storage.contains((time, id)) && time.contains(t);
                assert(from@.holds_storage(id));
                assert(ids.contains(id));
                let fv = unused@;
                let given = |id: u64| mode_provision(ModeView::Hold, fv.storage[id]);
                assert(changed(
                    before.storage,
                    mid.storage,
                    id,
                    given(id),
                    added(ModeView::Hold, to@.storage),
                    dropped(ModeView::Hold, to@.storage),
                ));
                assert(!held_at(Set::<(Seq<u64>, u64)>::empty(), id, t));
                assert(before.storage[id].count(t) > i64::MIN);
            }
            assert forall|id: u64, t: u64|
                held_at(by_id(from@.compute), id, t) && mid.compute.contains_key(
                    id,
                ) implies #[trigger] mid.compute[id].count(t) > i64::MIN by {
                let time = choose|time: Seq<u64>| #[trigger]
                    by_id(from@.compute).contains((time, id)) && time.contains(t);
                let instance = choose|instance: u64|
                    from@.compute.contains((time, (instance, id)));
                assert(from@.holds_compute(instance, id));
                assert(from@.bundle().compute.contains((instance, id)));
                assert(cids.contains(id));
                let fv = unused@;
                let bundle = to@.bundle();
                let given = |id: u64|
                    mode_provision(
                        ModeView::Hold,
                        fv.compute[(instance_of(bundle.compute, id), id)],
                    );
                assert(changed(
                    before.compute,
                    mid.compute,
                    id,
                    given(id),
                    added(ModeView::Hold, by_id(to@.compute)),
                    dropped(ModeView::Hold, by_id(to@.compute)),
                ));
                assert(!held_at(Set::<(Seq<u64>, u64)>::empty(), id, t));
                assert(before.compute[id].count(t) > i64::MIN);
            }
        }
        let release = UpdateMode::Release;
        let _ = self.apply_holds(&from, &release, &unused);
        proof {
            let ids = from@.bundle().storage;
            let cids = compute_ids(from@.bundle().compute);
            let keep = |id: u64| ProvisionView::Keep;
            let none = Set::<(Seq<u64>, u64)>::empty();
            assert(table_changed(before.storage, mid.storage, ids, keep, to@.storage, none)) by {
                assert forall|id: u64| ids.contains(id) implies #[trigger] changed(
                    before.storage,
                    mid.storage,
                    id,
                    keep(id),
                    to@.storage,
                    none,
                ) by {
                    let fv = unused@;
                    let given = |id: u64| mode_provision(ModeView::Hold, fv.storage[id]);
                    assert(changed(
                        before.storage,
                        mid.storage,
                        id,
                        given(id),
                        added(ModeView::Hold, to@.storage),
                        dropped(ModeView::Hold, to@.storage),
                    ));
                }
            }
            assert(table_changed(mid.storage, self@.storage, ids, keep, none, from@.storage)) by {
                assert forall|id: u64| ids.contains(id) implies #[trigger] changed(
                    mid.storage,
                    self@.storage,
                    id,
                    keep(id),
                    none,
                    from@.storage,
                ) by {
                    let fv = unused@;
                    let given = |id: u64| mode_provision(ModeView::Release, fv.storage[id]);
                    assert(changed(
                        mid.storage,
                        self@.storage,
                        id,
                        given(id),
                        added(ModeView::Release, from@.storage),
                        dropped(ModeView::Release, from@.storage),
                    ));
                }
            }
            lemma_hold_then_release(
                before.storage,
                mid.storage,
                self@.storage,
                ids,
                to@.storage,
                from@.storage,
            );
            assert(table_changed(
                before.compute,
                mid.compute,
                cids,
                keep,
                by_id(to@.compute),
                none,
            )) by {
                assert forall|id: u64| cids.contains(id) implies #[trigger] changed(
                    before.compute,
                    mid.compute,
                    id,
                    keep(id),
                    by_id(to@.compute),
                    none,
                ) by {
                    let fv = unused@;
                    let bundle = to@.bundle();
                    let given = |id: u64|
                        mode_provision(
                            ModeView::Hold,
                            fv.compute[(instance_of(bundle.compute, id), id)],
                        );
                    assert(changed(
                        before.compute,
                        mid.compute,
                        id,
                        given(id),
                        added(ModeView::Hold, by_id(to@.compute)),
                        dropped(ModeView::Hold, by_id(to@.compute)),
                    ));
                }
            }
            assert(table_changed(
                mid.compute,
                self@.compute,
                cids,
                keep,
                none,
                by_id(from@.compute),
            )) by {
                assert forall|id: u64| cids.contains(id) implies #[trigger] changed(
                    mid.compute,
                    self@.compute,
                    id,
                    keep(id),
                    none,
                    by_id(from@.compute),
                ) by {
                    let fv = unused@;
                    let bundle = from@.bundle();
                    let given = |id: u64|
                        mode_provision(
                            ModeView::Release,
                            fv.compute[(instance_of(bundle.compute, id), id)],
                        );
                    assert(changed(
                        mid.compute,
                        self@.compute,
                        id,
                        given(id),
                        added(ModeView::Release, by_id(from@.compute)),
                        dropped(ModeView::Release, by_id(from@.compute)),
                    ));
                }
            }
            lemma_hold_then_release(
                before.compute,
                mid.compute,
                self@.compute,
                cids,
                by_id(to@.compute),
                by_id(from@.compute),
            );
        }
        let moved = from.id_bundle();
        let updates = self.current_policies(&moved);
        (TimelineReadHolds { holds: result }, updates)
    }

    /// Takes read holds as [`Self::acquire_read_holds`] does, and keeps
    /// them for connection `conn_id`, to be released when its transaction
    /// ends. The result is the policies to install.
    pub fn acquire_read_holds_auto_cleanup(
        &mut self,
        conn_id: ConnectionId,
        time: Timestamp,
        id_bundle: &CollectionIdBundle,
        precise: bool,
        frontiers: &CollectionFrontiers,
    ) -> (r: Result<PolicyUpdates, Vec<HoldEntry>>)
        requires
            old(self).wf(),
            frontiers.wf(),
            frontiers@.covers(id_bundle@),
            ids_global(id_bundle@.compute),
            has_room(old(self)@.storage, planned_holds(time, id_bundle@, frontiers@).storage),
            has_room(
                old(self)@.compute,
                by_id(planned_holds(time, id_bundle@, frontiers@).compute),
            ),
        ensures
            final(self).wf(),
            match r {
                Ok(updates) => {
                    &&& precise ==> too_late(
                        planned_holds(time, id_bundle@, frontiers@),
                        time,
                    ).is_empty()
                    &&& final(self).holds_applied(
                        old(self)@,
                        planned_holds(time, id_bundle@, frontiers@),
                        ModeView::Acquire,
                        frontiers@,
                    )
                    &&& storage_settled(updates.storage@, id_bundle@.storage, final(self)@.storage)
                    &&& compute_settled(updates.compute@, id_bundle@.compute, final(self)@.compute)
                    &&& final(self).txn_read_holds@.dom() == old(self).txn_read_holds@.dom().insert(
                        conn_id,
                    )
                    &&& forall|other: u32|
                        other != conn_id && old(self).txn_read_holds@.contains_key(other)
                            ==> #[trigger] final(self).txn_read_holds@[other] == old(
                            self,
                        ).txn_read_holds@[other]
                    &&& final(self).txn_read_holds@[conn_id]@.len() > 0
                    &&& final(self).txn_read_holds@[conn_id]@.last()@ == planned_holds(
                        time,
                        id_bundle@,
                        frontiers@,
                    )
                    &&& final(self).txn_read_holds@[conn_id]@.last().wf()
                    &&& final(self).txn_read_holds@[conn_id]@.drop_last() == if old(
                        self,
                    ).txn_read_holds@.contains_key(conn_id) {
                        old(self).txn_read_holds@[conn_id]@
                    } else {
                        Seq::empty()
                    }
                },
                Err(late) => {
                    &&& precise
                    &&& !too_late(planned_holds(time, id_bundle@, frontiers@), time).is_empty()
                    &&& holds_view(late@) == too_late(
                        planned_holds(time, id_bundle@, frontiers@),
                        time,
                    )
                    &&& entries_wf(late@)
                    &&& *final(self) == *old(self)
                },
            },
    {
        match self.acquire_read_holds(time, id_bundle, precise, frontiers) {
            Ok((holds, updates)) => {
                let mut kept = match self.txn_read_holds.remove(&conn_id) {
                    Some(kept) => kept,
                    None => Vec::new(),
                };
                let ghost before = kept@;
                kept.push(holds);
                assert(kept@.drop_last() =~= before);
                self.txn_read_holds.insert(conn_id, kept);
                assert(self.txn_read_holds@.dom() =~= old(self).txn_read_holds@.dom().insert(
                    conn_id,
                ));
                Ok(updates)
            },
            Err(late) => Err(late),
        }
    }

    /// Hands out the read holds kept for connection `conn_id`, in the order
    /// in which they were taken, and keeps them no longer. They are still in
    /// force: [`Self::release_read_holds`] releases them.
    pub fn take_txn_read_holds(&mut self, conn_id: ConnectionId) -> (r: Vec<ReadHoldsInner>)
        ensures
            final(self).txn_read_holds@ == old(self).txn_read_holds@.remove(conn_id),
            final(self)@ == old(self)@,
            final(self).storage_read_capabilities == old(self).storage_read_capabilities,
            final(self).compute_read_capabilities == old(self).compute_read_capabilities,
            r@ == if old(self).txn_read_holds@.contains_key(conn_id) {
                old(self).txn_read_holds@[conn_id]@
            } else {
                Seq::empty()
            },
    {
        match self.txn_read_holds.remove(&conn_id) {
            Some(kept) => kept,
            None => Vec::new(),
        }
    }

    /// Whether each of the holds `holds` can be added: whether no count
    /// that would grow has reached the greatest `i64`.
    pub fn has_room_for(&self, holds: &HoldsMap) -> (r: bool)
        requires
            self.wf(),
            holds.wf(),
        ensures
            r == (has_room(self@.storage, holds@.storage) && has_room(
                self@.compute,
                by_id(holds@.compute),
            )),
    {
        let storage = holds.storage_ids();
        let compute = compute_holds_by_id(holds);
        let a = counts_avoid(&self.storage_read_capabilities, &storage, i64::MAX);
        let b = counts_avoid(&self.compute_read_capabilities, &compute, i64::MAX);
        proof {
            assert forall|id: u64, t: u64| self@.storage.contains_key(id) implies (#[trigger] self@.storage[id].count(
                t,
            ) != i64::MAX <==> self@.storage[id].count(t) < i64::MAX) by {
                assert(self.storage_read_capabilities.capabilities@[id].wf());
                assert(self.storage_read_capabilities.capabilities@[id]@.count(t) <= i64::MAX);
            }
            assert forall|id: u64, t: u64| self@.compute.contains_key(id) implies (#[trigger] self@.compute[id].count(
                t,
            ) != i64::MAX <==> self@.compute[id].count(t) < i64::MAX) by {
                assert(self.compute_read_capabilities.capabilities@[id].wf());
                assert(self.compute_read_capabilities.capabilities@[id]@.count(t) <= i64::MAX);
            }
        }
        a && b
    }

    /// Whether each of the holds `holds` can be dropped: whether no count
    /// that would shrink has reached the least `i64`.
    pub fn can_drop(&self, holds: &HoldsMap) -> (r: bool)
        requires
            self.wf(),
            holds.wf(),
        ensures
            r == (can_release(self@.storage, holds@.storage) && can_release(
                self@.compute,
                by_id(holds@.compute),
            )),
    {
        let storage = holds.storage_ids();
        let compute = compute_holds_by_id(holds);
        let a = counts_avoid(&self.storage_read_capabilities, &storage, i64::MIN);
        let b = counts_avoid(&self.compute_read_capabilities, &compute, i64::MIN);
        proof {
            assert forall|id: u64, t: u64| self@.storage.contains_key(id) implies (#[trigger] self@.storage[id].count(
                t,
            ) != i64::MIN <==> self@.storage[id].count(t) > i64::MIN) by {
                assert(self.storage_read_capabilities.capabilities@[id].wf());
                assert(self.storage_read_capabilities.capabilities@[id]@.count(t) >= i64::MIN);
            }
            assert forall|id: u64, t: u64| self@.compute.contains_key(id) implies (#[trigger] self@.compute[id].count(
                t,
            ) != i64::MIN <==> self@.compute[id].count(t) > i64::MIN) by {
                assert(self.compute_read_capabilities.capabilities@[id].wf());
                assert(self.compute_read_capabilities.capabilities@[id]@.count(t) >= i64::MIN);
            }
        }
        a && b
    }

    /// Whether read holds on the collections of `id_bundle` can be taken at
    /// `time`: what [`Self::acquire_read_holds`] asks. The controllers must
    /// know every collection, no id may stand under two instances, and the
    /// counts must have room.
    pub fn can_acquire_read_holds(
        &self,
        time: Timestamp,
        id_bundle: &CollectionIdBundle,
        frontiers: &CollectionFrontiers,
    ) -> (r: bool)
        requires
            self.wf(),
            frontiers.wf(),
        ensures
            r == (frontiers@.covers(id_bundle@) && ids_global(id_bundle@.compute) && has_room(
                self@.storage,
                planned_holds(time, id_bundle@, frontiers@).storage,
            ) && has_room(
                self@.compute,
                by_id(planned_holds(time, id_bundle@, frontiers@).compute),
            )),
    {
        if !frontiers.covers_bundle(id_bundle) {
            return false;
        }
        if !ids_are_global(id_bundle) {
            return false;
        }
        let holds = plan_read_holds(time, id_bundle, frontiers);
        self.has_room_for(&holds)
    }

    /// Whether the read policies of the collections of `id_bundle` can be
    /// set up: what [`Self::initialize_read_policies`] asks. No id may stand
    /// under two instances. For collections of a timeline, the controllers
    /// must know every collection, the timeline must not hold any of them
    /// yet, and the counts must have room.
    pub fn can_initialize_read_policies(
        &self,
        read_holds: &TimelineReadHolds,
        read_ts: Option<Timestamp>,
        id_bundle: &CollectionIdBundle,
        frontiers: &CollectionFrontiers,
    ) -> (r: bool)
        requires
            self.wf(),
            read_holds.wf(),
            frontiers.wf(),
        ensures
            r == (ids_global(id_bundle@.compute) && has_room(
                self@.storage,
                initial_holds(read_ts, id_bundle@, frontiers@).storage,
            ) && has_room(
                self@.compute,
                by_id(initial_holds(read_ts, id_bundle@, frontiers@).compute),
            ) && (read_ts is Some ==> frontiers@.covers(id_bundle@) && read_holds@.bundle().disjoint(
                id_bundle@,
            ))),
    {
        if !ids_are_global(id_bundle) {
            return false;
        }
        match read_ts {
            Some(ts) => {
                if !frontiers.covers_bundle(id_bundle) {
                    return false;
                }
                let common = read_holds.id_bundle().intersection(id_bundle);
                let disjoint = common.is_empty();
                proof {
                    let a = read_holds@.bundle();
                    let b = id_bundle@;
                    if disjoint {
                        assert forall|id: u64| !(a.storage.contains(id) && b.storage.contains(id)) by {
                            if a.storage.contains(id) && b.storage.contains(id) {
                                assert(common@.storage.contains(id));
                            }
                        }
                        assert forall|p: (u64, u64)|
                            !(a.compute.contains(p) && b.compute.contains(p)) by {
                            if a.compute.contains(p) && b.compute.contains(p) {
                                assert(common@.compute.contains(p));
                            }
                        }
                    } else {
                        if a.disjoint(b) {
                            assert(common@.storage =~= Set::empty());
                            assert(common@.compute =~= Set::empty());
                        }
                    }
                }
                if !disjoint {
                    return false;
                }
                let holds = plan_read_holds(ts, id_bundle, frontiers);
                self.has_room_for(&holds)
            },
            None => {
                proof {
                    let plain = HoldsView::at(Seq::<u64>::empty(), id_bundle@);
                    assert forall|id: u64, t: u64| !held_at(plain.storage, id, t) by {
                        if held_at(plain.storage, id, t) {
                            let time = choose|time: Seq<u64>| #[trigger]
                                plain.storage.contains((time, id)) && time.contains(t);
                            assert(time == Seq::<u64>::empty());
                            assert(time.len() == 0);
                        }
                    }
                    assert forall|id: u64, t: u64| !held_at(by_id(plain.compute), id, t) by {
                        if held_at(by_id(plain.compute), id, t) {
                            let time = choose|time: Seq<u64>| #[trigger]
                                by_id(plain.compute).contains((time, id)) && time.contains(t);
                            let instance = choose|instance: u64|
                                plain.compute.contains((time, (instance, id)));
                            assert(time == Seq::<u64>::empty());
                            assert(time.len() == 0);
                        }
                    }
                }
                true
            },
        }
    }

    /// Whether the given read holds can be released: what
    /// [`Self::release_read_holds`] asks. In none of them may an id stand
    /// under two instances, and no count may fall below the least `i64`.
    pub fn can_release_read_holds(&self, read_holdses: &Vec<ReadHoldsInner>) -> (r: bool)
        requires
            self.wf(),
            forall|k: int| 0 <= k < read_holdses@.len() ==> (#[trigger] read_holdses@[k]).wf(),
        ensures
            r == ((forall|k: int|
                0 <= k < read_holdses@.len() ==> ids_global(
                    (#[trigger] read_holdses@[k])@.bundle().compute,
                )) && can_release_all(self@.storage, storage_helds(read_holdses@))
                && can_release_all(self@.compute, compute_helds(read_holdses@))),
    {
        let mut storage: Vec<Vec<(Frontier, u64)>> = Vec::new();
        let mut compute: Vec<Vec<(Frontier, u64)>> = Vec::new();
        let mut i: usize = 0;
        while i < read_holdses.len()
            invariant
                i <= read_holdses@.len(),
                forall|k: int| 0 <= k < read_holdses@.len() ==> (#[trigger] read_holdses@[k]).wf(),
                storage@.len() == i,
                compute@.len() == i,
                forall|k: int|
                    0 <= k < i ==> storage_pairs((#[trigger] storage@[k])@).to_set()
                        == read_holdses@[k]@.storage,
                forall|k: int|
                    0 <= k < i ==> storage_pairs((#[trigger] compute@[k])@).to_set() == by_id(
                        read_holdses@[k]@.compute,
                    ),
                forall|k: int|
                    0 <= k < i ==> ids_global((#[trigger] read_holdses@[k])@.bundle().compute),
            decreases read_holdses@.len() - i,
        {
            let holds = &read_holdses[i];
            assert(holds.wf());
            if !ids_are_global(&holds.id_bundle()) {
                return false;
            }
            storage.push(holds.holds.storage_ids());
            compute.push(compute_holds_by_id(&holds.holds));
            i = i + 1;
        }
        proof {
            assert(helds_of(storage@) =~= storage_helds(read_holdses@));
            assert(helds_of(compute@) =~= compute_helds(read_holdses@));
        }
        let a = can_release_lists(&self.storage_read_capabilities, &storage);
        let b = can_release_lists(&self.compute_read_capabilities, &compute);
        a && b
    }

    /// Whether the read holds of a timeline can be moved forward to
    /// `new_time`: what [`Self::update_read_holds`] asks. Each collection
    /// whose hold changes its time must have a capability, be known to its
    /// controller and not have moved past the new time of its hold; no id
    /// may stand under two instances; and the counts must have room.
    pub fn can_update_read_holds(
        &self,
        read_holds: &TimelineReadHolds,
        new_time: Timestamp,
        frontiers: &CollectionFrontiers,
    ) -> (r: bool)
        requires
            self.wf(),
            read_holds.wf(),
            frontiers.wf(),
        ensures
            r == (update_allowed(self@, read_holds@, new_time, frontiers@) && ids_global(
                read_holds@.bundle().compute,
            ) && has_room(self@.storage, moved_to(read_holds@, new_time).storage) && has_room(
                self@.compute,
                by_id(moved_to(read_holds@, new_time).compute),
            ) && can_release(self@.storage, moved_from(read_holds@, new_time).storage)
                && can_release(self@.compute, by_id(moved_from(read_holds@, new_time).compute))),
    {
        if !self.update_is_allowed(read_holds, new_time, frontiers) {
            return false;
        }
        if !ids_are_global(&read_holds.id_bundle()) {
            return false;
        }
        let (_, from, to) = advance_holds(&read_holds.holds, new_time);
        self.has_room_for(&to) && self.can_drop(&from)
    }

    /// Whether each collection whose hold changes its time when the read
    /// holds of a timeline are moved forward to `new_time` has a
    /// capability, is known to its controller, and has not moved past the
    /// new time of its hold.
    pub fn update_is_allowed(
        &self,
        read_holds: &TimelineReadHolds,
        new_time: Timestamp,
        frontiers: &CollectionFrontiers,
    ) -> (r: bool)
        requires
            read_holds.wf(),
            frontiers.wf(),
        ensures
            r == update_allowed(self@, read_holds@, new_time, frontiers@),
    {
        let asked = Frontier::from_elem(new_time);
        let ghost entries = read_holds.holds.entries@;
        let ghost fv = frontiers@;
        let mut i: usize = 0;
        proof {
            assert(entries.take(0) =~= Seq::<HoldEntry>::empty());
            lemma_holds_of_no_entries();
        }
        while i < read_holds.holds.entries.len()
            invariant
                i <= entries.len(),
                entries == read_holds.holds.entries@,
                read_holds.wf(),
                frontiers.wf(),
                fv == frontiers@,
                asked@ == seq![new_time],
                asked.wf(),
                update_allowed(self@, holds_view(entries.take(i as int)), new_time, fv),
            decreases entries.len() - i,
        {
            let old_time = &read_holds.holds.entries[i].0;
            let bundle = &read_holds.holds.entries[i].1;
            let ghost e = entries[i as int];
            let ghost done = holds_view(entries.take(i as int));
            proof {
                assert(e.0.wf());
                assert(entries.take(i + 1) =~= entries.take(i as int).push(e));
                lemma_holds_push(entries.take(i as int), e);
                lemma_advanced_push(done, e.0@, e.1@, new_time);
            }
            let new = old_time.join(&asked);
            if !old_time.same_as(&new) {
                let ids = bundle.storage_list();
                let mut j: usize = 0;
                while j < ids.len()
                    invariant
                        j <= ids@.len(),
                        i < entries.len(),
                        e == entries[i as int],
                        entries == read_holds.holds.entries@,
                        ids@.to_set() == e.1@.storage,
                        frontiers.wf(),
                        fv == frontiers@,
                        new@ == advanced_time(e.0@, new_time),
                        new@ != e.0@,
                        forall|id: u64| #[trigger]
                            ids@.take(j as int).to_set().contains(id) ==> storage_move_allowed(
                                self@,
                                (e.0@, id),
                                new_time,
                                fv,
                            ),
                    decreases ids@.len() - j,
                {
                    let id = ids[j];
                    let ok = self.storage_read_capabilities.contains(id) && match frontiers.storage_since(
                        id,
                    ) {
                        Some(since) => since.le(&new),
                        None => false,
                    };
                    if !ok {
                        proof {
                            assert(ids@.to_set().contains(id));
                            assert(read_holds@.storage.contains((e.0@, id)));
                            assert(moved_from(read_holds@, new_time).storage.contains((e.0@, id)));
                            assert(!storage_move_allowed(self@, (e.0@, id), new_time, fv));
                        }
                        return false;
                    }
                    proof {
                        lemma_take_step(ids@, j as int);
                    }
                    j = j + 1;
                }
                assert(ids@.take(j as int) =~= ids@);
                let keys = bundle.compute_list();
                let mut k: usize = 0;
                while k < keys.len()
                    invariant
                        k <= keys@.len(),
                        i < entries.len(),
                        e == entries[i as int],
                        entries == read_holds.holds.entries@,
                        keys@.to_set() == e.1@.compute,
                        frontiers.wf(),
                        fv == frontiers@,
                        new@ == advanced_time(e.0@, new_time),
                        new@ != e.0@,
                        forall|p: (u64, u64)| #[trigger]
                            keys@.take(k as int).to_set().contains(p) ==> compute_move_allowed(
                                self@,
                                (e.0@, p),
                                new_time,
                                fv,
                            ),
                    decreases keys@.len() - k,
                {
                    let (instance, id) = keys[k];
                    let ok = self.compute_read_capabilities.contains(id) && match frontiers.compute_since(
                        instance,
                        id,
                    ) {
                        Some(since) => since.le(&new),
                        None => false,
                    };
                    if !ok {
                        proof {
                            assert(keys@.to_set().contains((instance, id)));
                            assert(read_holds@.compute.contains((e.0@, (instance, id))));
                            assert(moved_from(read_holds@, new_time).compute.contains(
                                (e.0@, (instance, id)),
                            ));
                            assert(!compute_move_allowed(
                                self@,
                                (e.0@, (instance, id)),
                                new_time,
                                fv,
                            ));
                        }
                        return false;
                    }
                    proof {
                        lemma_take_step(keys@, k as int);
                    }
                    k = k + 1;
                }
                assert(keys@.take(k as int) =~= keys@);
                proof {
                    let next = holds_view(entries.take(i + 1));
                    assert forall|p: (Seq<u64>, u64)| #[trigger]
                        moved_from(next, new_time).storage.contains(p) implies storage_move_allowed(
                        self@,
                        p,
                        new_time,
                        fv,
                    ) by {
                        if moved_from(done, new_time).storage.contains(p) {
                        } else {
                            assert(HoldsView::at(e.0@, e.1@).storage.contains(p));
                            assert(ids@.to_set().contains(p.1));
                        }
                    }
                    assert forall|p: (Seq<u64>, (u64, u64))| #[trigger]
                        moved_from(next, new_time).compute.contains(p) implies compute_move_allowed(
                        self@,
                        p,
                        new_time,
                        fv,
                    ) by {
                        if moved_from(done, new_time).compute.contains(p) {
                        } else {
                            assert(HoldsView::at(e.0@, e.1@).compute.contains(p));
                            assert(keys@.to_set().contains(p.1));
                        }
                    }
                }
            } else {
                proof {
                    let next = holds_view(entries.take(i + 1));
                    let none = HoldsView::empty();
                    assert(moved_from(next, new_time).storage =~= moved_from(
                        done,
                        new_time,
                    ).storage);
                    assert(moved_from(next, new_time).compute =~= moved_from(
                        done,
                        new_time,
                    ).compute);
                }
            }
            i = i + 1;
        }
        assert(entries.take(i as int) =~= entries);
        true
    }
}

/// Holds taken and released at once leave the policies as they were:
/// where the holds `holds` are acquired in `before`, which leads to `held`,
/// and released in `held`, which leads to `after`, every collection that
/// had a capability in `before` has in `after` the policy in force that it
/// had.
pub proof fn lemma_acquire_release_restores(
    before: Coordinator,
    held: Coordinator,
    after: Coordinator,
    holds: HoldsView,
    frontiers: FrontiersView,
)
    requires
        held.holds_applied(before@, holds, ModeView::Acquire, frontiers),
        after.holds_applied(held@, holds, ModeView::Release, frontiers),
    ensures
        forall|id: u64| #[trigger]
            before@.storage.contains_key(id) ==> after@.storage.contains_key(id)
                && after@.storage[id].policy() == before@.storage[id].policy(),
        forall|id: u64| #[trigger]
            before@.compute.contains_key(id) ==> after@.compute.contains_key(id)
                && after@.compute[id].policy() == before@.compute[id].policy(),
{
    let none = Set::<(Seq<u64>, u64)>::empty();
    let bundle = holds.bundle();
    assert forall|id: u64| #[trigger] before@.storage.contains_key(id) implies after@.storage.contains_key(
        id,
    ) && after@.storage[id].policy() == before@.storage[id].policy() by {
        let a = before@.storage;
        let b = held@.storage;
        let c = after@.storage;
        if bundle.storage.contains(id) {
            let acquire = |id: u64| mode_provision(ModeView::Acquire, frontiers.storage[id]);
            let release = |id: u64| mode_provision(ModeView::Release, frontiers.storage[id]);
            assert(changed(
                a,
                b,
                id,
                acquire(id),
                added(ModeView::Acquire, holds.storage),
                dropped(ModeView::Acquire, holds.storage),
            ));
            assert(changed(
                b,
                c,
                id,
                release(id),
                added(ModeView::Release, holds.storage),
                dropped(ModeView::Release, holds.storage),
            ));
            assert forall|t: u64| c[id].count(t) == a[id].count(t) by {
                assert(!held_at(none, id, t));
                assert(b[id].count(t) == a[id].count(t) + (if held_at(holds.storage, id, t) {
                    1int
                } else {
                    0
                }) - 0);
            }
            crate::capability::lemma_policy_by_counts(c[id], a[id]);
        } else {
            assert(untouched(a, b, id));
            assert(untouched(b, c, id));
        }
    }
    assert forall|id: u64| #[trigger] before@.compute.contains_key(id) implies after@.compute.contains_key(
        id,
    ) && after@.compute[id].policy() == before@.compute[id].policy() by {
        let a = before@.compute;
        let b = held@.compute;
        let c = after@.compute;
        let held_by_id = by_id(holds.compute);
        if compute_ids(bundle.compute).contains(id) {
            let acquire = |id: u64|
                mode_provision(
                    ModeView::Acquire,
                    frontiers.compute[(instance_of(bundle.compute, id), id)],
                );
            let release = |id: u64|
                mode_provision(
                    ModeView::Release,
                    frontiers.compute[(instance_of(bundle.compute, id), id)],
                );
            assert(changed(
                a,
                b,
                id,
                acquire(id),
                added(ModeView::Acquire, held_by_id),
                dropped(ModeView::Acquire, held_by_id),
            ));
            assert(changed(
                b,
                c,
                id,
                release(id),
                added(ModeView::Release, held_by_id),
                dropped(ModeView::Release, held_by_id),
            ));
            assert forall|t: u64| c[id].count(t) == a[id].count(t) by {
                assert(!held_at(none, id, t));
                assert(b[id].count(t) == a[id].count(t) + (if held_at(held_by_id, id, t) {
                    1int
                } else {
                    0
                }) - 0);
            }
            crate::capability::lemma_policy_by_counts(c[id], a[id]);
        } else {
            assert(untouched(a, b, id));
            assert(untouched(b, c, id));
        }
    }
}

} // verus!
