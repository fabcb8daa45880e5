//! Read capabilities: for each collection, the holds that consumers have on
//! it, counted by time, and the standing policy that bounds its compaction.
use crate::frontier::{
    is_antichain, le_of, lemma_antichain_len, lemma_beyond_closed_form, lemma_le_closed_form, meet_of,
    seq_beyond, Frontier, Timestamp,
};
use crate::id_bundle::GlobalId;
use crate::policy::{lemma_floor_is_frontier, PolicyView, ReadPolicy};
use std::collections::BTreeMap;
use timely::progress::frontier::MutableAntichain;
use vstd::prelude::*;

verus! {

/// The signed number of holds at each time, kept by a `MutableAntichain` of
/// `timely`. Its fields are hidden: what it holds is read through
/// [`hold_counts`].
#[verifier::external_body]
pub struct HoldCounts {
    inner: MutableAntichain<u64>,
}

/// The net count that a [`HoldCounts`] has accumulated for each time, by time.
pub uninterp spec fn hold_counts(h: HoldCounts) -> Map<u64, int>;

/// The count of `t` in `m`: zero for a time that `m` does not name.
pub open spec fn count_at(m: Map<u64, int>, t: u64) -> int {
    if m.contains_key(t) {
        m[t]
    } else {
        0
    }
}

/// Whether `t` has a positive count in `m` and no earlier time has one.
pub open spec fn is_least_held(m: Map<u64, int>, t: u64) -> bool {
    count_at(m, t) > 0 && forall|s: u64| #[trigger] count_at(m, s) > 0 ==> t <= s
}

/// The least frontier that every time with a positive count is beyond: the
/// least such time, or the empty frontier when no count is positive.
pub open spec fn lower_bound(m: Map<u64, int>) -> Seq<u64> {
    if exists|t: u64| is_least_held(m, t) {
        seq![choose|t: u64| is_least_held(m, t)]
    } else {
        Seq::empty()
    }
}

/// The counts `m` with `delta` added at time `t`.
pub open spec fn adjust_counts(m: Map<u64, int>, t: u64, delta: int) -> Map<u64, int> {
    m.insert(t, count_at(m, t) + delta)
}

impl HoldCounts {
    /// The net count at time `t`.
    pub open spec fn count(&self, t: u64) -> int {
        count_at(hold_counts(*self), t)
    }

    /// Calls `MutableAntichain::new` of `timely`. The contract claims that a
    /// new collection counts nothing at any time.
    #[verifier::external_body]
    pub(crate) fn new() -> (r: HoldCounts)
        ensures
            forall|t: u64| count_at(hold_counts(r), t) == 0,
    {
        HoldCounts { inner: MutableAntichain::new() }
    }

    /// Calls `MutableAntichain::update_iter` of `timely` with the one update
    /// `(time, delta)`. The contract claims that the count of `time` grows by
    /// `delta` and that no other count changes. The counts are `i64`, so the
    /// new count must be one.
    #[verifier::external_body]
    pub(crate) fn update(&mut self, time: u64, delta: i64)
        requires
            i64::MIN <= count_at(hold_counts(*old(self)), time) + delta <= i64::MAX,
        ensures
            hold_counts(*final(self)) == adjust_counts(hold_counts(*old(self)), time, delta as int),
    {
        let _ = self.inner.update_iter(Some((time, delta)));
    }

    /// Calls `MutableAntichain::frontier` of `timely`. The contract claims
    /// that the result holds, each once, the times with a positive count
    /// that no other time with a positive count precedes.
    #[verifier::external_body]
    pub(crate) fn frontier(&self) -> (r: Frontier)
        ensures
            forall|t: u64| r@.contains(t) <==> is_least_held(hold_counts(*self), t),
            r@.no_duplicates(),
    {
        Frontier { elements: self.inner.frontier().to_vec() }
    }

    /// Calls `MutableAntichain::count_for` of `timely`. The contract claims
    /// that the result is the net count of `time`.
    #[verifier::external_body]
    pub(crate) fn count_for(&self, time: u64) -> (r: i64)
        ensures
            r == count_at(hold_counts(*self), time),
    {
        self.inner.count_for(&time)
    }
}

/// A sequence that holds exactly the least held times, each once, is the
/// lower bound of the counts.
pub proof fn lemma_lower_bound_unique(m: Map<u64, int>, r: Seq<u64>)
    requires
        forall|t: u64| r.contains(t) <==> is_least_held(m, t),
        r.no_duplicates(),
    ensures
        r == lower_bound(m),
        is_antichain(r),
{
    if r.len() > 0 {
        assert(r.contains(r[0]));
        assert(is_least_held(m, r[0]));
        let c = choose|t: u64| is_least_held(m, t);
        assert(c <= r[0] && r[0] <= c);
        if r.len() > 1 {
            assert(r.contains(r[1]));
            assert(r[0] <= r[1] && r[1] <= r[0]);
        }
        assert(r =~= seq![c]);
    } else {
        if exists|t: u64| is_least_held(m, t) {
            let c = choose|t: u64| is_least_held(m, t);
            assert(r.contains(c));
        }
        assert(r =~= Seq::empty());
    }
}

/// The lower bound reads the counts only: counts that agree at every time
/// have the same lower bound.
pub proof fn lemma_lower_bound_by_counts(a: Map<u64, int>, b: Map<u64, int>)
    requires
        forall|t: u64| count_at(a, t) == count_at(b, t),
    ensures
        lower_bound(a) == lower_bound(b),
{
    assert forall|t: u64| is_least_held(a, t) <==> is_least_held(b, t) by {
        if is_least_held(a, t) {
            assert forall|s: u64| #[trigger] count_at(b, s) > 0 implies t <= s by {
                assert(count_at(a, s) > 0);
            }
        }
        if is_least_held(b, t) {
            assert forall|s: u64| #[trigger] count_at(a, s) > 0 implies t <= s by {
                assert(count_at(b, s) > 0);
            }
        }
    }
    if exists|t: u64| is_least_held(a, t) {
        let ca = choose|t: u64| is_least_held(a, t);
        assert(is_least_held(b, ca));
        let cb = choose|t: u64| is_least_held(b, t);
        assert(is_least_held(a, cb));
        assert(ca <= cb && cb <= ca);
    } else {
        if exists|t: u64| is_least_held(b, t) {
            let cb = choose|t: u64| is_least_held(b, t);
            assert(is_least_held(a, cb));
        }
    }
}

/// Where `t` has a positive count and no earlier time has one, the lower
/// bound is `t`; where no time has a positive count, it is empty.
pub proof fn lemma_lower_bound_value(m: Map<u64, int>, t: u64)
    ensures
        is_least_held(m, t) ==> lower_bound(m) == seq![t],
        (forall|s: u64| #[trigger] count_at(m, s) <= 0) ==> lower_bound(m) == Seq::<u64>::empty(),
{
    if is_least_held(m, t) {
        let c = choose|t: u64| is_least_held(m, t);
        assert(c <= t && t <= c);
    }
    if forall|s: u64| #[trigger] count_at(m, s) <= 0 {
        if exists|t: u64| is_least_held(m, t) {
            let c = choose|t: u64| is_least_held(m, t);
            assert(count_at(m, c) <= 0);
        }
    }
}

/// The counts `m` after the adjustments `ops`, each a time and a delta,
/// were made in order.
pub open spec fn replay_counts(m: Map<u64, int>, ops: Seq<(u64, int)>) -> Map<u64, int>
    decreases ops.len(),
{
    if ops.len() == 0 {
        m
    } else {
        adjust_counts(replay_counts(m, ops.drop_last()), ops.last().0, ops.last().1)
    }
}

/// The sum of the deltas of the adjustments `ops` at time `t`.
pub open spec fn sum_deltas(ops: Seq<(u64, int)>, t: u64) -> int
    decreases ops.len(),
{
    if ops.len() == 0 {
        0
    } else {
        sum_deltas(ops.drop_last(), t) + if ops.last().0 == t {
            ops.last().1
        } else {
            0
        }
    }
}

/// After any sequence of adjustments the net count at each time is the count
/// before plus the sum of the deltas at that time.
pub proof fn lemma_replay_sums(m: Map<u64, int>, ops: Seq<(u64, int)>, t: u64)
    ensures
        count_at(replay_counts(m, ops), t) == count_at(m, t) + sum_deltas(ops, t),
    decreases ops.len(),
{
    if ops.len() > 0 {
        lemma_replay_sums(m, ops.drop_last(), t);
    }
}

/// Where some time has a positive count, some time is the least one that
/// has.
pub proof fn lemma_least_held_exists(m: Map<u64, int>, t: u64)
    requires
        count_at(m, t) > 0,
    ensures
        exists|s: u64| is_least_held(m, s),
    decreases t,
{
    if exists|s: u64| s < t && count_at(m, s) > 0 {
        let s = choose|s: u64| s < t && count_at(m, s) > 0;
        lemma_least_held_exists(m, s);
    } else {
        assert(is_least_held(m, t)) by {
            assert forall|s: u64| #[trigger] count_at(m, s) > 0 implies t <= s by {
                if s < t {
                    assert(s < t && count_at(m, s) > 0);
                }
            }
        }
    }
}

/// The lower bound of the counts is the greatest frontier that every time
/// with a positive count is beyond: every such time is beyond it, and it is
/// at or beyond every frontier that every such time is beyond.
pub proof fn lemma_lower_bound_is_greatest(m: Map<u64, int>, f: Seq<u64>)
    requires
        is_antichain(f),
    ensures
        is_antichain(lower_bound(m)),
        forall|t: u64| #[trigger] count_at(m, t) > 0 ==> seq_beyond(lower_bound(m), t),
        (forall|t: u64| #[trigger] count_at(m, t) > 0 ==> seq_beyond(f, t)) ==> le_of(
            f,
            lower_bound(m),
        ),
{
    let lb = lower_bound(m);
    assert forall|t: u64| #[trigger] count_at(m, t) > 0 implies seq_beyond(lb, t) by {
        lemma_least_held_exists(m, t);
        let c = choose|s: u64| is_least_held(m, s);
        assert(lb == seq![c]);
        assert(lb[0] <= t);
    }
    if forall|t: u64| #[trigger] count_at(m, t) > 0 ==> seq_beyond(f, t) {
        lemma_antichain_len(f);
        if exists|s: u64| is_least_held(m, s) {
            let c = choose|s: u64| is_least_held(m, s);
            assert(lb == seq![c]);
            assert(count_at(m, c) > 0);
            assert(seq_beyond(f, c));
            lemma_beyond_closed_form(f, c);
            lemma_le_closed_form(f, lb);
        } else {
            lemma_le_closed_form(f, lb);
        }
    }
}

/// The floor of the policy in force is the meet of the lower bound of the
/// holds and the floor of the base policy.
pub proof fn lemma_policy_floor(c: CapabilityView, upper: Seq<u64>)
    ensures
        c.policy().floor(upper) == meet_of(lower_bound(c.holds), c.base_policy.floor(upper)),
{
    let parts = seq![PolicyView::ValidFrom(lower_bound(c.holds)), c.base_policy];
    reveal_with_fuel(PolicyView::floor_of_first, 3);
    assert(parts[0].floor(upper) == lower_bound(c.holds));
    assert(PolicyView::floor_of_first(parts, upper, 1) == meet_of(
        Seq::empty(),
        lower_bound(c.holds),
    ));
    assert(meet_of(Seq::<u64>::empty(), lower_bound(c.holds)) == lower_bound(c.holds));
}

/// Fewer holds, later bound: where every time with a positive count in `b`
/// has one in `a`, the lower bound of `a` is at or before that of `b`.
pub proof fn lemma_lower_bound_monotone(a: Map<u64, int>, b: Map<u64, int>)
    requires
        forall|t: u64| #[trigger] count_at(b, t) > 0 ==> count_at(a, t) > 0,
    ensures
        le_of(lower_bound(a), lower_bound(b)),
{
    lemma_lower_bound_is_greatest(a, Seq::empty());
    lemma_lower_bound_is_greatest(b, Seq::empty());
    lemma_antichain_len(lower_bound(a));
    lemma_antichain_len(lower_bound(b));
    lemma_le_closed_form(lower_bound(a), lower_bound(b));
    if exists|s: u64| is_least_held(b, s) {
        let c = choose|s: u64| is_least_held(b, s);
        assert(count_at(b, c) > 0);
        assert(count_at(a, c) > 0);
        assert(seq_beyond(lower_bound(a), c));
        lemma_beyond_closed_form(lower_bound(a), c);
    }
}

/// A capability with one hold less at time `t`.
pub open spec fn one_less(c: CapabilityView, t: u64) -> CapabilityView {
    CapabilityView { holds: adjust_counts(c.holds, t, -1), ..c }
}

/// A capability with one hold more at time `t`.
pub open spec fn one_more(c: CapabilityView, t: u64) -> CapabilityView {
    CapabilityView { holds: adjust_counts(c.holds, t, 1), ..c }
}

/// A hold that is dropped never moves the floor of the policy in force
/// backward.
pub proof fn lemma_release_moves_forward(c: CapabilityView, t: u64, upper: Seq<u64>)
    requires
        c.base_policy.wf(),
    ensures
        le_of(c.policy().floor(upper), one_less(c, t).policy().floor(upper)),
{
    let d = one_less(c, t);
    lemma_policy_floor(c, upper);
    lemma_policy_floor(d, upper);
    lemma_lower_bound_monotone(c.holds, d.holds);
    let base = c.base_policy.floor(upper);
    lemma_floor_is_frontier(c.base_policy, upper);
    lemma_lower_bound_is_greatest(c.holds, Seq::empty());
    lemma_lower_bound_is_greatest(d.holds, Seq::empty());
    lemma_antichain_len(base);
    lemma_antichain_len(lower_bound(c.holds));
    lemma_antichain_len(lower_bound(d.holds));
    lemma_le_closed_form(lower_bound(c.holds), lower_bound(d.holds));
    lemma_le_closed_form(meet_of(lower_bound(c.holds), base), meet_of(lower_bound(d.holds), base));
}

/// A hold that is added at a time at or beyond the floor of the policy in
/// force leaves the floor where it is: the floor moves backward only for a
/// hold below it.
pub proof fn lemma_hold_beyond_floor_keeps_floor(c: CapabilityView, t: u64, upper: Seq<u64>)
    requires
        c.base_policy.wf(),
        seq_beyond(c.policy().floor(upper), t),
    ensures
        one_more(c, t).policy().floor(upper) == c.policy().floor(upper),
{
    let d = one_more(c, t);
    lemma_policy_floor(c, upper);
    lemma_policy_floor(d, upper);
    let base = c.base_policy.floor(upper);
    let before = lower_bound(c.holds);
    let after = lower_bound(d.holds);
    lemma_floor_is_frontier(c.base_policy, upper);
    lemma_lower_bound_is_greatest(c.holds, Seq::empty());
    lemma_lower_bound_is_greatest(d.holds, Seq::empty());
    lemma_antichain_len(base);
    lemma_antichain_len(before);
    lemma_antichain_len(after);
    lemma_beyond_closed_form(meet_of(before, base), t);
    // Every time held before is held after, and every time held after was
    // held before or is `t`.
    assert forall|s: u64| #[trigger] count_at(c.holds, s) > 0 implies count_at(d.holds, s) > 0 by {}
    assert forall|s: u64| #[trigger] count_at(d.holds, s) > 0 implies count_at(c.holds, s) > 0 || s
        == t by {}
    lemma_lower_bound_monotone(d.holds, c.holds);
    lemma_le_closed_form(after, before);
    if after.len() == 1 {
        let a = after[0];
        assert(is_least_held(d.holds, a)) by {
            if exists|s: u64| is_least_held(d.holds, s) {
                let x = choose|s: u64| is_least_held(d.holds, s);
                assert(after == seq![x]);
            }
        }
        assert(count_at(d.holds, a) > 0);
        if count_at(c.holds, a) > 0 {
            assert(seq_beyond(before, a));
            lemma_beyond_closed_form(before, a);
            assert(before =~= after);
        } else {
            assert(a == t);
        }
    } else {
        if before.len() == 1 {
            assert(is_least_held(c.holds, before[0])) by {
                if exists|s: u64| is_least_held(c.holds, s) {
                    let x = choose|s: u64| is_least_held(c.holds, s);
                    assert(before == seq![x]);
                }
            }
            assert(count_at(d.holds, before[0]) > 0);
            assert(seq_beyond(after, before[0]));
        }
        assert(before =~= after);
    }
    assert(meet_of(after, base) =~= meet_of(before, base));
}

/// Changes commute: two runs of changes add the same to every count in
/// either order.
pub proof fn lemma_net_change_commutes(a: Seq<HoldChange>, b: Seq<HoldChange>, id: u64, t: u64)
    ensures
        net_change(a + b, id, t) == net_change(b + a, id, t),
{
    lemma_net_change_concat(a, b, id, t);
    lemma_net_change_concat(b, a, id, t);
}

/// Capabilities with the same base policy and the same counts at every time
/// have the same policy in force.
pub proof fn lemma_policy_by_counts(a: CapabilityView, b: CapabilityView)
    requires
        a.base_policy == b.base_policy,
        forall|t: u64| a.count(t) == b.count(t),
    ensures
        a.policy() == b.policy(),
{
    assert forall|t: u64| count_at(a.holds, t) == count_at(b.holds, t) by {
        assert(a.count(t) == b.count(t));
    }
    lemma_lower_bound_by_counts(a.holds, b.holds);
}

/// What a read capability holds.
pub struct CapabilityView {
    pub base_policy: PolicyView,
    pub holds: Map<u64, int>,
}

impl CapabilityView {
    /// The net count of holds at time `t`.
    pub open spec fn count(self, t: u64) -> int {
        count_at(self.holds, t)
    }

    /// The policy in force: the least of the lower bound of the holds and
    /// the floor of the base policy.
    pub open spec fn policy(self) -> PolicyView {
        PolicyView::Multiple(seq![PolicyView::ValidFrom(lower_bound(self.holds)), self.base_policy])
    }
}

/// The holds on one collection and the policy that stands without them.
pub struct ReadCapability {
    pub base_policy: ReadPolicy,
    pub holds: HoldCounts,
}

impl View for ReadCapability {
    type V = CapabilityView;

    open spec fn view(&self) -> CapabilityView {
        CapabilityView { base_policy: self.base_policy@, holds: hold_counts(self.holds) }
    }
}

impl ReadCapability {
    /// The base policy is well formed, and every count is an `i64`.
    pub open spec fn wf(&self) -> bool {
        &&& self.base_policy.wf()
        &&& forall|t: u64| i64::MIN <= #[trigger] self@.count(t) <= i64::MAX
    }

    /// A capability with the given base policy and no holds.
    pub fn from_policy(base_policy: ReadPolicy) -> (r: ReadCapability)
        requires
            base_policy.wf(),
        ensures
            r@.base_policy == base_policy@,
            forall|t: u64| r@.count(t) == 0,
            r.wf(),
    {
        ReadCapability { base_policy, holds: HoldCounts::new() }
    }

    /// The policy in force, which accounts for the base policy and for the
    /// holds in place.
    pub fn policy(&self) -> (r: ReadPolicy)
        requires
            self.wf(),
        ensures
            r@ == self@.policy(),
            r.wf(),
    {
        let frontier = self.holds.frontier();
        proof {
            lemma_lower_bound_unique(hold_counts(self.holds), frontier@);
        }
        let mut parts: Vec<ReadPolicy> = Vec::new();
        parts.push(ReadPolicy::ValidFrom(frontier));
        parts.push(self.base_policy.clone());
        let r = ReadPolicy::Multiple(parts);
        proof {
            reveal_with_fuel(ReadPolicy::view_of, 2);
            reveal_with_fuel(PolicyView::wf, 2);
            assert(r@->Multiple_0 =~= self@.policy()->Multiple_0);
        }
        r
    }

    /// Adds `delta` to the net count of holds at each element of `time`.
    pub fn adjust(&mut self, time: &Frontier, delta: i64)
        requires
            old(self).wf(),
            time.wf(),
            forall|i: int|
                0 <= i < time@.len() ==> i64::MIN <= old(self)@.count(#[trigger] time@[i]) + delta
                    <= i64::MAX,
        ensures
            final(self).wf(),
            final(self)@.base_policy == old(self)@.base_policy,
            final(self).base_policy == old(self).base_policy,
            forall|t: u64|
                final(self)@.count(t) == old(self)@.count(t) + if time@.contains(t) {
                    delta as int
                } else {
                    0
                },
    {
        proof {
            lemma_antichain_len(time@);
        }
        if time.elements.len() > 0 {
            let t: u64 = time.elements[0];
            self.holds.update(t, delta);
            assert(time@.contains(t));
            assert forall|s: u64|
                self@.count(s) == old(self)@.count(s) + if time@.contains(s) {
                    delta as int
                } else {
                    0
                } by {
                if time@.contains(s) {
                    assert(s == t);
                }
            }
        }
    }

    /// Replaces the base policy. The holds stay.
    pub fn set_base_policy(&mut self, policy: ReadPolicy)
        ensures
            old(self).wf() && policy.wf() ==> final(self).wf(),
            final(self)@.base_policy == policy@,
            final(self)@.holds == old(self)@.holds,
            final(self).holds == old(self).holds,
    {
        self.base_policy = policy;
        proof {
            if old(self).wf() && policy.wf() {
                assert forall|t: u64| i64::MIN <= #[trigger] self@.count(t) <= i64::MAX by {
                    assert(self@.count(t) == old(self)@.count(t));
                }
            }
        }
    }

    /// The net count of holds at time `t`.
    pub fn hold_count(&self, t: Timestamp) -> (r: i64)
        ensures
            r == self@.count(t),
    {
        self.holds.count_for(t)
    }
}

/// One change to the holds on a collection: `delta` more holds at `time`.
pub struct HoldChange {
    pub id: GlobalId,
    pub time: Frontier,
    pub delta: i64,
}

/// What `change` adds to the count of collection `id` at time `t`.
pub open spec fn change_at(change: HoldChange, id: u64, t: u64) -> int {
    if change.id == id && change.time@.contains(t) {
        change.delta as int
    } else {
        0
    }
}

/// The sum of what `changes` add to the count of collection `id` at time `t`.
pub open spec fn net_change(changes: Seq<HoldChange>, id: u64, t: u64) -> int
    decreases changes.len(),
{
    if changes.len() == 0 {
        0
    } else {
        net_change(changes.drop_last(), id, t) + change_at(changes.last(), id, t)
    }
}

/// Whether no later change than the one at `k` names the same collection.
pub open spec fn is_last_change(changes: Seq<HoldChange>, k: int) -> bool {
    forall|j: int| k < j < changes.len() ==> (#[trigger] changes[j]).id != changes[k].id
}

/// Whether every count stays an `i64` while `changes` are applied in order
/// to counts that `count` gives.
pub open spec fn changes_in_range(
    changes: Seq<HoldChange>,
    count: spec_fn(u64, u64) -> int,
) -> bool {
    forall|k: int, t: u64|
        0 <= k < changes.len() && (#[trigger] changes[k]).time@.contains(t) ==> i64::MIN <= count(
            changes[k].id,
            t,
        ) + #[trigger] net_change(changes.take(k + 1), changes[k].id, t) <= i64::MAX
}

/// The net change of two runs of changes, one after the other, is the sum of
/// theirs.
pub proof fn lemma_net_change_concat(a: Seq<HoldChange>, b: Seq<HoldChange>, id: u64, t: u64)
    ensures
        net_change(a + b, id, t) == net_change(a, id, t) + net_change(b, id, t),
    decreases b.len(),
{
    if b.len() == 0 {
        assert(a + b =~= a);
    } else {
        lemma_net_change_concat(a, b.drop_last(), id, t);
        assert((a + b).drop_last() =~= a + b.drop_last());
    }
}

/// Where no two changes name the same collection, the net change for a
/// collection is that of the one change that names it.
pub proof fn lemma_net_change_distinct(changes: Seq<HoldChange>, id: u64, t: u64)
    requires
        forall|i: int, j: int|
            0 <= i < changes.len() && 0 <= j < changes.len() && i != j ==> (#[trigger] changes[i]).id
                != (#[trigger] changes[j]).id,
    ensures
        forall|k: int|
            0 <= k < changes.len() && (#[trigger] changes[k]).id == id ==> net_change(changes, id, t)
                == change_at(changes[k], id, t),
        (forall|k: int| 0 <= k < changes.len() ==> (#[trigger] changes[k]).id != id) ==> net_change(
            changes,
            id,
            t,
        ) == 0,
    decreases changes.len(),
{
    if changes.len() > 0 {
        let rest = changes.drop_last();
        assert forall|i: int, j: int|
            0 <= i < rest.len() && 0 <= j < rest.len() && i != j implies (#[trigger] rest[i]).id
            != (#[trigger] rest[j]).id by {
            assert(rest[i] == changes[i] && rest[j] == changes[j]);
        }
        lemma_net_change_distinct(rest, id, t);
        assert forall|k: int| 0 <= k < changes.len() && (#[trigger] changes[k]).id == id implies
            net_change(changes, id, t) == change_at(changes[k], id, t) by {
            if k == changes.len() - 1 {
                assert forall|j: int| 0 <= j < rest.len() implies (#[trigger] rest[j]).id != id by {
                    assert(rest[j] == changes[j]);
                }
            } else {
                assert(rest[k] == changes[k]);
                assert(changes.last() == changes[changes.len() - 1]);
            }
        }
        if forall|k: int| 0 <= k < changes.len() ==> (#[trigger] changes[k]).id != id {
            assert forall|j: int| 0 <= j < rest.len() implies (#[trigger] rest[j]).id != id by {
                assert(rest[j] == changes[j]);
            }
            assert(changes.last() == changes[changes.len() - 1]);
        }
    }
}

/// What to do about the capability of a collection before its holds change.
pub enum Provision {
    /// Leave the capability as it is. A collection without one is skipped.
    Keep,
    /// Make a capability where there is none, with the base policy that
    /// keeps the collection valid from this frontier, its lower frontier.
    Default(Frontier),
    /// Make a capability where there is none, and install this base policy
    /// whether there was one or not.
    Install(ReadPolicy),
}

/// One update of the capability of a collection: what to do about the
/// capability itself, the time at which a hold is added, and the time at
/// which a hold is dropped. An empty time adds or drops nothing.
pub struct CapabilityUpdate {
    pub id: GlobalId,
    pub provision: Provision,
    pub acquire: Frontier,
    pub release: Frontier,
}

impl CapabilityUpdate {
    /// The policy and the times are well formed.
    pub open spec fn wf(&self) -> bool {
        &&& self.acquire.wf()
        &&& self.release.wf()
        &&& match self.provision {
            Provision::Keep => true,
            Provision::Default(since) => since.wf(),
            Provision::Install(policy) => policy.wf(),
        }
    }

    /// What the update adds to the count of holds at time `t`.
    pub open spec fn delta(&self, t: u64) -> int {
        (if self.acquire@.contains(t) {
            1int
        } else {
            0
        }) - (if self.release@.contains(t) {
            1int
        } else {
            0
        })
    }

    /// Whether the collection has a capability after the update, given
    /// whether it had one before.
    pub open spec fn provides(&self, present: bool) -> bool {
        present || !(self.provision is Keep)
    }

    /// The base policy after the update of a capability that had the base
    /// policy `old`, or had none.
    pub open spec fn base_after(&self, old: Option<PolicyView>) -> PolicyView {
        match self.provision {
            Provision::Keep => old->0,
            Provision::Default(since) => match old {
                Some(p) => p,
                None => PolicyView::ValidFrom(since@),
            },
            Provision::Install(policy) => policy@,
        }
    }
}

/// Whether `new` holds what `update` makes of the capability that `old`
/// holds for the same collection.
pub open spec fn update_applied(
    old: Map<u64, CapabilityView>,
    new: Map<u64, CapabilityView>,
    update: CapabilityUpdate,
) -> bool {
    let id = update.id;
    &&& new.contains_key(id) == update.provides(old.contains_key(id))
    &&& new.contains_key(id) ==> {
        &&& new[id].base_policy == update.base_after(
            if old.contains_key(id) {
                Some(old[id].base_policy)
            } else {
                None
            },
        )
        &&& forall|t: u64| #[trigger]
            new[id].count(t) == (if old.contains_key(id) {
                old[id].count(t)
            } else {
                0
            }) + update.delta(t)
    }
}

/// Whether no count leaves the range of `i64` when `update` is applied to
/// `old`.
pub open spec fn update_in_range(old: Map<u64, CapabilityView>, update: CapabilityUpdate) -> bool {
    forall|t: u64|
        old.contains_key(update.id) ==> {
            &&& update.acquire@.contains(t) ==> #[trigger] old[update.id].count(t) < i64::MAX
            &&& update.release@.contains(t) ==> old[update.id].count(t) > i64::MIN
        }
}

/// Whether `new` holds for collection `id` what `old` holds for it.
pub open spec fn untouched(old: Map<u64, CapabilityView>, new: Map<u64, CapabilityView>, id: u64) -> bool {
    new.contains_key(id) == old.contains_key(id) && (old.contains_key(id) ==> new[id] == old[id])
}

/// Whether one of the first `n` updates is for collection `id`.
pub open spec fn names(updates: Seq<CapabilityUpdate>, n: int, id: u64) -> bool {
    exists|k: int| 0 <= k < n && k < updates.len() && (#[trigger] updates[k]).id == id
}

/// Whether no two updates are for the same collection.
pub open spec fn updates_distinct(updates: Seq<CapabilityUpdate>) -> bool {
    forall|i: int, j: int|
        0 <= i < updates.len() && 0 <= j < updates.len() && i != j ==> (#[trigger] updates[i]).id
            != (#[trigger] updates[j]).id
}

/// Whether `policies` holds, for each of `updates` in order, the policy that
/// `table` has in force for its collection, or nothing where `table` has no
/// capability for it.
pub open spec fn policies_settled(
    policies: Seq<Option<ReadPolicy>>,
    updates: Seq<CapabilityUpdate>,
    table: Map<u64, CapabilityView>,
) -> bool {
    &&& policies.len() == updates.len()
    &&& forall|k: int|
        0 <= k < policies.len() ==> match #[trigger] policies[k] {
            Some(p) => table.contains_key(updates[k].id) && p@ == table[updates[k].id].policy()
                && p.wf(),
            None => !table.contains_key(updates[k].id),
        }
}

/// The read capabilities of a set of collections, by collection id.
pub struct CapabilityTable {
    pub capabilities: BTreeMap<GlobalId, ReadCapability>,
}

impl View for CapabilityTable {
    type V = Map<u64, CapabilityView>;

    open spec fn view(&self) -> Map<u64, CapabilityView> {
        self.capabilities@.map_values(|c: ReadCapability| c@)
    }
}

impl CapabilityTable {
    /// Every capability is well formed.
    pub open spec fn wf(&self) -> bool {
        forall|id: u64| #[trigger]
            self.capabilities@.contains_key(id) ==> self.capabilities@[id].wf()
    }

    /// The net count of holds on collection `id` at time `t`; zero where the
    /// table has no capability for `id`.
    pub open spec fn count(&self, id: u64, t: u64) -> int {
        if self@.contains_key(id) {
            self@[id].count(t)
        } else {
            0
        }
    }

    /// The table without capabilities.
    pub fn new() -> (r: CapabilityTable)
        ensures
            r@ == Map::<u64, CapabilityView>::empty(),
            r.wf(),
    {
        let r = CapabilityTable { capabilities: BTreeMap::new() };
        assert(r@ =~= Map::empty());
        r
    }

    /// Whether collection `id` has a capability.
    pub fn contains(&self, id: GlobalId) -> (r: bool)
        ensures
            r == self@.contains_key(id),
    {
        self.capabilities.contains_key(&id)
    }

    /// Makes sure that collection `id` has a capability. A new one has no
    /// holds; its base policy is `explicit_policy`, or without one the
    /// policy that keeps the collection valid from `since`, its current
    /// lower frontier. An existing one keeps its holds, and its base policy
    /// unless `explicit_policy` is given.
    pub fn ensure(&mut self, id: GlobalId, explicit_policy: Option<ReadPolicy>, since: &Frontier)
        requires
            old(self).wf(),
            since.wf(),
            explicit_policy matches Some(p) ==> p.wf(),
        ensures
            final(self).wf(),
            final(self)@.dom() == old(self)@.dom().insert(id),
            forall|other: u64|
                other != id && old(self)@.contains_key(other) ==> #[trigger] final(self)@[other]
                    == old(self)@[other],
            final(self)@[id].base_policy == match explicit_policy {
                Some(p) => p@,
                None => if old(self)@.contains_key(id) {
                    old(self)@[id].base_policy
                } else {
                    PolicyView::ValidFrom(since@)
                },
            },
            forall|t: u64| #[trigger] final(self)@[id].count(t) == old(self).count(id, t),
    {
        let capability = match self.capabilities.remove(&id) {
            Some(existing) => {
                let mut capability = existing;
                match explicit_policy {
                    Some(policy) => {
                        capability.set_base_policy(policy);
                    },
                    None => {},
                }
                capability
            },
            None => {
                let policy = match explicit_policy {
                    Some(policy) => policy,
                    None => ReadPolicy::ValidFrom(since.clone()),
                };
                ReadCapability::from_policy(policy)
            },
        };
        self.capabilities.insert(id, capability);
        assert(self@.dom() =~= old(self)@.dom().insert(id));
    }

    /// Adds `delta` to the net count of holds on collection `id` at each
    /// element of `time`, and returns the policy then in force.
    pub fn adjust(&mut self, id: GlobalId, time: &Frontier, delta: i64) -> (r: ReadPolicy)
        requires
            old(self).wf(),
            old(self)@.contains_key(id),
            time.wf(),
            forall|i: int|
                0 <= i < time@.len() ==> i64::MIN <= old(self).count(id, #[trigger] time@[i])
                    + delta <= i64::MAX,
        ensures
            final(self).wf(),
            final(self)@.dom() == old(self)@.dom(),
            forall|other: u64|
                other != id && old(self)@.contains_key(other) ==> #[trigger] final(self)@[other]
                    == old(self)@[other],
            final(self)@[id].base_policy == old(self)@[id].base_policy,
            forall|t: u64| #[trigger]
                final(self)@[id].count(t) == old(self)@[id].count(t) + if time@.contains(t) {
                    delta as int
                } else {
                    0
                },
            r@ == final(self)@[id].policy(),
            r.wf(),
    {
        let removed = self.capabilities.remove(&id);
        let mut capability = removed.unwrap();
        capability.adjust(time, delta);
        let policy = capability.policy();
        self.capabilities.insert(id, capability);
        assert(self@.dom() =~= old(self)@.dom());
        policy
    }

    /// The policy in force for collection `id`, if it has a capability.
    pub fn policy(&self, id: GlobalId) -> (r: Option<ReadPolicy>)
        requires
            self.wf(),
        ensures
            r is Some == self@.contains_key(id),
            r matches Some(p) ==> p@ == self@[id].policy() && p.wf(),
    {
        match self.capabilities.get(&id) {
            Some(capability) => Some(capability.policy()),
            None => None,
        }
    }

    /// Replaces the base policy of collection `id`, and returns the policy
    /// then in force.
    pub fn set_base_policy(&mut self, id: GlobalId, policy: ReadPolicy) -> (r: ReadPolicy)
        requires
            old(self).wf(),
            old(self)@.contains_key(id),
            policy.wf(),
        ensures
            final(self).wf(),
            final(self)@.dom() == old(self)@.dom(),
            forall|other: u64|
                other != id && old(self)@.contains_key(other) ==> #[trigger] final(self)@[other]
                    == old(self)@[other],
            final(self)@[id].base_policy == policy@,
            final(self)@[id].holds == old(self)@[id].holds,
            r@ == final(self)@[id].policy(),
            r.wf(),
    {
        let removed = self.capabilities.remove(&id);
        let mut capability = removed.unwrap();
        capability.set_base_policy(policy);
        let r = capability.policy();
        self.capabilities.insert(id, capability);
        assert(self@.dom() =~= old(self)@.dom());
        r
    }

    /// Forgets the capability of collection `id`. Returns whether there was
    /// one.
    pub fn remove(&mut self, id: GlobalId) -> (r: bool)
        ensures
            r == old(self)@.contains_key(id),
            final(self)@ == old(self)@.remove(id),
            old(self).wf() ==> final(self).wf(),
    {
        let removed = self.capabilities.remove(&id);
        assert(self@ =~= old(self)@.remove(id));
        removed.is_some()
    }

    /// The net count of holds on collection `id` at time `t`; zero where
    /// the table has no capability for `id`.
    pub fn hold_count(&self, id: GlobalId, t: Timestamp) -> (r: i64)
        ensures
            r == self.count(id, t),
    {
        match self.capabilities.get(&id) {
            Some(capability) => capability.hold_count(t),
            None => 0,
        }
    }

    /// Applies one update, and returns the policy then in force where the
    /// collection has a capability.
    pub fn update(&mut self, update: CapabilityUpdate) -> (r: Option<ReadPolicy>)
        requires
            old(self).wf(),
            update.wf(),
            update_in_range(old(self)@, update),
        ensures
            final(self).wf(),
            update_applied(old(self)@, final(self)@, update),
            forall|other: u64|
                other != update.id ==> #[trigger] untouched(old(self)@, final(self)@, other),
            r is Some == final(self)@.contains_key(update.id),
            r matches Some(p) ==> p@ == final(self)@[update.id].policy() && p.wf(),
    {
        let CapabilityUpdate { id, provision, acquire, release } = update;
        let present = self.contains(id);
        match provision {
            Provision::Keep => {
                if !present {
                    return None;
                }
            },
            Provision::Default(since) => {
                self.ensure(id, None, &since);
            },
            Provision::Install(policy) => {
                let since = Frontier::new();
                self.ensure(id, Some(policy), &since);
            },
        }
        let ghost mid = *self;
        proof {
            lemma_antichain_len(acquire@);
            lemma_antichain_len(release@);
            assert(acquire == update.acquire && release == update.release && id == update.id);
            assert(self@.contains_key(id));
            assert forall|i: int| 0 <= i < acquire@.len() implies i64::MIN <= self.count(
                id,
                #[trigger] acquire@[i],
            ) + 1 <= i64::MAX by {
                let t = acquire@[i];
                assert(acquire@.contains(t));
                assert(mid@[id].count(t) == old(self).count(id, t));
                if old(self)@.contains_key(id) {
                    assert(old(self)@[id].count(t) < i64::MAX);
                }
            }
        }
        let _ = self.adjust(id, &acquire, 1);
        proof {
            assert forall|i: int| 0 <= i < release@.len() implies i64::MIN <= self.count(
                id,
                #[trigger] release@[i],
            ) - 1 <= i64::MAX by {
                let t = release@[i];
                assert(release@.contains(t));
                assert(mid@[id].count(t) == old(self).count(id, t));
                assert(self@[id].count(t) == mid@[id].count(t) + if acquire@.contains(t) {
                    1int
                } else {
                    0
                });
            }
        }
        let policy = self.adjust(id, &release, -1);
        proof {
            assert forall|t: u64| #[trigger]
                self@[id].count(t) == old(self).count(id, t) + update.delta(t) by {
                assert(mid@[id].count(t) == old(self).count(id, t));
            }
            assert forall|other: u64| other != id implies #[trigger] untouched(
                old(self)@,
                self@,
                other,
            ) by {
                if old(self)@.contains_key(other) {
                    assert(mid@[other] == old(self)@[other]);
                    assert(self@[other] == mid@[other]);
                }
            }
        }
        Some(policy)
    }

    /// Applies the updates in order. The result holds, for each update in
    /// that order, the policy in force for its collection after all the
    /// updates, or nothing where the collection has no capability.
    pub fn update_all(&mut self, updates: Vec<CapabilityUpdate>) -> (r: Vec<Option<ReadPolicy>>)
        requires
            old(self).wf(),
            updates_distinct(updates@),
            forall|k: int|
                0 <= k < updates@.len() ==> (#[trigger] updates@[k]).wf() && update_in_range(
                    old(self)@,
                    updates@[k],
                ),
        ensures
            final(self).wf(),
            forall|k: int|
                0 <= k < updates@.len() ==> update_applied(
                    old(self)@,
                    final(self)@,
                    #[trigger] updates@[k],
                ),
            forall|id: u64|
                !names(updates@, updates@.len() as int, id) ==> #[trigger] untouched(
                    old(self)@,
                    final(self)@,
                    id,
                ),
            policies_settled(r@, updates@, final(self)@),
    {
        let mut policies: Vec<Option<ReadPolicy>> = Vec::new();
        let ghost all = updates@;
        for update in it: updates.into_iter()
            invariant
                it.seq() == all,
                self.wf(),
                updates_distinct(all),
                forall|k: int|
                    0 <= k < all.len() ==> (#[trigger] all[k]).wf() && update_in_range(
                        old(self)@,
                        all[k],
                    ),
                forall|k: int|
                    0 <= k < it.index() ==> update_applied(old(self)@, self@, #[trigger] all[k]),
                forall|id: u64|
                    !names(all, it.index(), id) ==> #[trigger] untouched(old(self)@, self@, id),
                policies_settled(policies@, all.take(it.index()), self@),
        {
            let ghost i = it.index();
            let ghost before = *self;
            let ghost listed = policies@;
            let ghost id = update.id;
            proof {
                assert(update == all[i]);
                assert(!names(all, i, id)) by {
                    if names(all, i, id) {
                        let k = choose|k: int|
                            0 <= k < i && k < all.len() && (#[trigger] all[k]).id == id;
                        assert(all[k].id != all[i].id);
                    }
                }
                assert(untouched(old(self)@, before@, id));
                assert(update_in_range(before@, update));
            }
            let policy = self.update(update);
            policies.push(policy);
            proof {
                assert(update_applied(old(self)@, self@, all[i]));
                assert forall|k: int| 0 <= k < i implies update_applied(
                    old(self)@,
                    self@,
                    #[trigger] all[k],
                ) by {
                    assert(update_applied(old(self)@, before@, all[k]));
                    assert(all[k].id != all[i].id);
                    assert(untouched(before@, self@, all[k].id));
                }
                assert forall|c: u64| !names(all, i + 1, c) implies #[trigger] untouched(
                    old(self)@,
                    self@,
                    c,
                ) by {
                    assert(all[i].id != c);
                    assert(!names(all, i, c)) by {
                        if names(all, i, c) {
                            let k = choose|k: int|
                                0 <= k < i && k < all.len() && (#[trigger] all[k]).id == c;
                            assert(0 <= k < i + 1 && k < all.len() && all[k].id == c);
                        }
                    }
                    assert(untouched(old(self)@, before@, c));
                    assert(untouched(before@, self@, c));
                }
                let more = all.take(i + 1);
                assert forall|k: int| 0 <= k < policies@.len() implies match #[trigger] policies@[k] {
                    Some(p) => self@.contains_key(more[k].id) && p@ == self@[more[k].id].policy()
                        && p.wf(),
                    None => !self@.contains_key(more[k].id),
                } by {
                    assert(more[k] == all[k]);
                    if k < i {
                        assert(policies@[k] == listed[k]);
                        assert(all.take(i)[k] == all[k]);
                        assert(all[k].id != all[i].id);
                        assert(untouched(before@, self@, all[k].id));
                    }
                }
            }
        }
        proof {
            assert(all.take(all.len() as int) =~= all);
        }
        policies
    }

    /// Applies `changes` in order. The result names, for each change, its
    /// collection and the policy in force for it right after the change.
    ///
    /// The count of each collection at each time ends as the count before
    /// plus the sum of the deltas of the changes to it at that time. For
    /// each collection, the last policy returned for it is the one in force
    /// at the end.
    pub fn apply(&mut self, changes: &Vec<HoldChange>) -> (r: Vec<(GlobalId, ReadPolicy)>)
        requires
            old(self).wf(),
            forall|k: int|
                0 <= k < changes@.len() ==> old(self)@.contains_key((#[trigger] changes@[k]).id)
                    && changes@[k].time.wf(),
            changes_in_range(changes@, |id: u64, t: u64| old(self).count(id, t)),
        ensures
            final(self).wf(),
            final(self)@.dom() == old(self)@.dom(),
            forall|id: u64|
                old(self)@.contains_key(id) ==> (#[trigger] final(self)@[id]).base_policy
                    == old(self)@[id].base_policy,
            forall|id: u64, t: u64|
                old(self)@.contains_key(id) ==> #[trigger] final(self)@[id].count(t) == old(
                    self,
                )@[id].count(t) + net_change(changes@, id, t),
            r@.len() == changes@.len(),
            forall|k: int|
                0 <= k < r@.len() ==> (#[trigger] r@[k]).0 == changes@[k].id && r@[k].1.wf(),
            forall|k: int|
                0 <= k < r@.len() && is_last_change(changes@, k) ==> (#[trigger] r@[k]).1@
                    == final(self)@[changes@[k].id].policy(),
    {
        let mut updates: Vec<(u64, ReadPolicy)> = Vec::new();
        let mut i: usize = 0;
        while i < changes.len()
            invariant
                i <= changes@.len(),
                self.wf(),
                self@.dom() == old(self)@.dom(),
                forall|k: int|
                    0 <= k < changes@.len() ==> old(self)@.contains_key(
                        (#[trigger] changes@[k]).id,
                    ) && changes@[k].time.wf(),
                changes_in_range(changes@, |id: u64, t: u64| old(self).count(id, t)),
                forall|id: u64|
                    old(self)@.contains_key(id) ==> (#[trigger] self@[id]).base_policy == old(
                        self,
                    )@[id].base_policy,
                forall|id: u64, t: u64|
                    old(self)@.contains_key(id) ==> #[trigger] self@[id].count(t) == old(
                        self,
                    )@[id].count(t) + net_change(changes@.take(i as int), id, t),
                updates@.len() == i,
                forall|k: int|
                    0 <= k < i ==> (#[trigger] updates@[k]).0 == changes@[k].id
                        && updates@[k].1.wf(),
                forall|k: int|
                    0 <= k < i && is_last_change(changes@.take(i as int), k)
                        ==> (#[trigger] updates@[k]).1@ == self@[changes@[k].id].policy(),
            decreases changes@.len() - i,
        {
            let change = &changes[i];
            let ghost before = *self;
            let ghost id = change.id;
            proof {
                assert(changes@[i as int].time.wf());
                assert(changes@.take(i + 1).drop_last() =~= changes@.take(i as int));
                assert forall|j: int| 0 <= j < change.time@.len() implies i64::MIN <= self.count(
                    id,
                    #[trigger] change.time@[j],
                ) + change.delta <= i64::MAX by {
                    let t = change.time@[j];
                    assert(change.time@.contains(t));
                    assert(changes@[i as int].time@.contains(t));
                    let f = |id: u64, t: u64| old(self).count(id, t);
                    assert(i64::MIN <= f(changes@[i as int].id, t) + net_change(
                        changes@.take(i + 1),
                        changes@[i as int].id,
                        t,
                    ) <= i64::MAX);
                    assert(self@[id].count(t) == old(self)@[id].count(t) + net_change(
                        changes@.take(i as int),
                        id,
                        t,
                    ));
                }
            }
            let policy = self.adjust(change.id, &change.time, change.delta);
            updates.push((change.id, policy));
            proof {
                assert forall|c: u64, t: u64| old(self)@.contains_key(c) implies #[trigger] self@[c].count(
                    t,
                ) == old(self)@[c].count(t) + net_change(changes@.take(i + 1), c, t) by {
                    assert(changes@.take(i + 1).drop_last() =~= changes@.take(i as int));
                    assert(before@[c].count(t) == old(self)@[c].count(t) + net_change(
                        changes@.take(i as int),
                        c,
                        t,
                    ));
                    if c != id {
                        assert(self@[c] == before@[c]);
                    }
                }
                assert forall|c: u64| old(self)@.contains_key(c) implies (#[trigger] self@[c]).base_policy
                    == old(self)@[c].base_policy by {
                    if c != id {
                        assert(self@[c] == before@[c]);
                    }
                }
                assert forall|k: int|
                    0 <= k < i + 1 && is_last_change(changes@.take(i + 1), k) implies (#[trigger] updates@[k]).1@
                    == self@[changes@[k].id].policy() by {
                    if k < i {
                        assert(changes@.take(i + 1)[i as int].id != changes@.take(i + 1)[k].id);
                        assert(changes@[k].id != id);
                        assert(is_last_change(changes@.take(i as int), k)) by {
                            assert forall|j: int| k < j < changes@.take(i as int).len() implies (#[trigger] changes@.take(
                                i as int,
                            )[j]).id != changes@.take(i as int)[k].id by {
                                assert(changes@.take(i + 1)[j].id != changes@.take(i + 1)[k].id);
                            }
                        }
                        assert(self@[changes@[k].id] == before@[changes@[k].id]);
                    }
                }
            }
            i = i + 1;
        }
        assert(changes@.take(i as int) =~= changes@);
        updates
    }
}

} // verus!
