//! Read policies: the rules that say how far a collection may compact.
//!
//! A policy, given the upper frontier of a collection, names a floor: the
//! frontier below which the collection may discard old versions.
use crate::frontier::{is_antichain, lemma_antichain_len, meet_of, Frontier, Timestamp};
use vstd::prelude::*;

verus! {

/// The window that collections keep behind their upper frontier when nothing
/// else was asked for, in milliseconds.
pub const DEFAULT_LOGICAL_COMPACTION_WINDOW: u64 = 1000;

/// The step to which a floor that follows the upper frontier is rounded down,
/// in milliseconds.
pub const SINCE_GRANULARITY: u64 = 1000;

/// The floor of a policy that lags the upper frontier: the upper's element
/// less `lag`, rounded down to a multiple of the lesser of `lag` and
/// `max_granularity`. Without a lag it is the upper's element itself, and of
/// an empty upper it is time zero.
pub open spec fn lag_floor(upper: Seq<u64>, lag: u64, max_granularity: u64) -> Seq<u64> {
    if upper.len() == 0 {
        seq![0u64]
    } else if lag == 0 {
        seq![upper[0]]
    } else {
        let time: int = if upper[0] >= lag { upper[0] - lag } else { 0 };
        let granularity: int = if lag <= max_granularity { lag as int } else { max_granularity as int };
        if granularity == 0 {
            seq![time as u64]
        } else {
            seq![(time - time % granularity) as u64]
        }
    }
}

/// What a read policy says.
pub enum PolicyView {
    /// Keep the collection readable from this frontier on.
    ValidFrom(Seq<u64>),
    /// Keep the collection readable from a time that lags its upper frontier.
    LagWriteFrontier { lag: u64, max_granularity: u64 },
    /// Keep the collection readable from the least of the floors of these.
    Multiple(Seq<PolicyView>),
}

impl PolicyView {
    /// The floor that the policy names for a collection with this upper.
    pub open spec fn floor(self, upper: Seq<u64>) -> Seq<u64>
        decreases self, 0nat,
    {
        match self {
            PolicyView::ValidFrom(f) => f,
            PolicyView::LagWriteFrontier { lag, max_granularity } => lag_floor(
                upper,
                lag,
                max_granularity,
            ),
            PolicyView::Multiple(ps) => Self::floor_of_first(ps, upper, ps.len()),
        }
    }

    /// The meet of the floors of the first `n` of `ps`; the empty frontier
    /// when `n` is zero.
    pub open spec fn floor_of_first(ps: Seq<PolicyView>, upper: Seq<u64>, n: nat) -> Seq<u64>
        decreases ps, n,
    {
        if n == 0 || n > ps.len() {
            Seq::empty()
        } else {
            meet_of(Self::floor_of_first(ps, upper, (n - 1) as nat), ps[n - 1].floor(upper))
        }
    }

    /// Every frontier in the policy is one.
    pub open spec fn wf(self) -> bool
        decreases self,
    {
        match self {
            PolicyView::ValidFrom(f) => is_antichain(f),
            PolicyView::LagWriteFrontier { lag, max_granularity } => true,
            PolicyView::Multiple(ps) => forall|i: int| 0 <= i < ps.len() ==> (#[trigger] ps[i]).wf(),
        }
    }
}

/// The floor of a well-formed policy is a frontier.
pub proof fn lemma_floor_is_frontier(p: PolicyView, upper: Seq<u64>)
    requires
        p.wf(),
    ensures
        is_antichain(p.floor(upper)),
    decreases p, 0nat,
{
    match p {
        PolicyView::ValidFrom(f) => {},
        PolicyView::LagWriteFrontier { lag, max_granularity } => {},
        PolicyView::Multiple(ps) => {
            lemma_floor_of_first_is_frontier(ps, upper, ps.len());
        },
    }
}

/// The meet of the floors of well-formed policies is a frontier.
pub proof fn lemma_floor_of_first_is_frontier(ps: Seq<PolicyView>, upper: Seq<u64>, n: nat)
    requires
        forall|i: int| 0 <= i < ps.len() ==> (#[trigger] ps[i]).wf(),
        n <= ps.len(),
    ensures
        is_antichain(PolicyView::floor_of_first(ps, upper, n)),
    decreases ps, n,
{
    if n > 0 {
        lemma_floor_of_first_is_frontier(ps, upper, (n - 1) as nat);
        lemma_floor_is_frontier(ps[n - 1], upper);
        lemma_antichain_len(PolicyView::floor_of_first(ps, upper, (n - 1) as nat));
        lemma_antichain_len(ps[n - 1].floor(upper));
    }
}

/// A rule that bounds the compaction of a collection.
#[derive(Debug, PartialEq, Eq)]
pub enum ReadPolicy {
    /// Keep the collection readable from this frontier on.
    ValidFrom(Frontier),
    /// Keep the collection readable from a time that lags its upper frontier
    /// by `lag`, rounded down to a multiple of the lesser of `lag` and
    /// `max_granularity`.
    LagWriteFrontier { lag: Timestamp, max_granularity: Timestamp },
    /// Keep the collection readable from the least of the floors of these.
    Multiple(Vec<ReadPolicy>),
}

impl View for ReadPolicy {
    type V = PolicyView;

    open spec fn view(&self) -> PolicyView {
        self.view_of()
    }
}

impl ReadPolicy {
    /// What the policy says.
    pub open spec fn view_of(self) -> PolicyView
        decreases self,
    {
        match self {
            ReadPolicy::ValidFrom(f) => PolicyView::ValidFrom(f@),
            ReadPolicy::LagWriteFrontier { lag, max_granularity } => PolicyView::LagWriteFrontier {
                lag,
                max_granularity,
            },
            ReadPolicy::Multiple(ps) => PolicyView::Multiple(
                Seq::new(ps@.len(), |i: int| if 0 <= i < ps@.len() {
                    ps@[i].view_of()
                } else {
                    PolicyView::Multiple(Seq::empty())
                }),
            ),
        }
    }

    /// Every frontier in the policy is one.
    pub open spec fn wf(&self) -> bool {
        self@.wf()
    }

    /// The policy that lags the upper frontier by `lag`.
    pub fn lag_writes_by(lag: Timestamp, max_granularity: Timestamp) -> (r: ReadPolicy)
        ensures
            r@ == (PolicyView::LagWriteFrontier { lag, max_granularity }),
            r.wf(),
    {
        ReadPolicy::LagWriteFrontier { lag, max_granularity }
    }

    /// Whether every frontier in the policy is one: for a policy that comes
    /// from elsewhere.
    pub fn is_well_formed(&self) -> (r: bool)
        ensures
            r == self.wf(),
        decreases self,
    {
        match self {
            ReadPolicy::ValidFrom(f) => f.is_well_formed(),
            ReadPolicy::LagWriteFrontier { lag, max_granularity } => true,
            ReadPolicy::Multiple(ps) => {
                let mut i: usize = 0;
                while i < ps.len()
                    invariant
                        i <= ps@.len(),
                        *self == ReadPolicy::Multiple(*ps),
                        forall|k: int| 0 <= k < i ==> (#[trigger] ps@[k]).wf(),
                    decreases ps@.len() - i,
                {
                    assert(decreases_to!(*self => self->Multiple_0));
                    assert(decreases_to!(self->Multiple_0 => self->Multiple_0[i as int]));
                    if !ps[i].is_well_formed() {
                        assert(self@->Multiple_0[i as int] == ps@[i as int]@);
                        return false;
                    }
                    i = i + 1;
                }
                assert forall|k: int| 0 <= k < self@->Multiple_0.len() implies (#[trigger] self@->Multiple_0[k]).wf() by {
                    assert(self@->Multiple_0[k] == ps@[k]@);
                    assert(ps@[k].wf());
                }
                true
            },
        }
    }

    /// A copy of this policy.
    pub fn clone(&self) -> (r: ReadPolicy)
        ensures
            r@ == self@,
        decreases self,
    {
        match self {
            ReadPolicy::ValidFrom(f) => ReadPolicy::ValidFrom(f.clone()),
            ReadPolicy::LagWriteFrontier { lag, max_granularity } => ReadPolicy::LagWriteFrontier {
                lag: *lag,
                max_granularity: *max_granularity,
            },
            ReadPolicy::Multiple(ps) => {
                let mut out: Vec<ReadPolicy> = Vec::new();
                let mut i: usize = 0;
                while i < ps.len()
                    invariant
                        i <= ps@.len(),
                        out@.len() == i,
                        *self == ReadPolicy::Multiple(*ps),
                        forall|k: int| 0 <= k < i ==> (#[trigger] out@[k])@ == ps@[k]@,
                    decreases ps@.len() - i,
                {
                    assert(decreases_to!(*self => self->Multiple_0));
                    assert(decreases_to!(self->Multiple_0 => self->Multiple_0[i as int]));
                    let p = ps[i].clone();
                    out.push(p);
                    i = i + 1;
                }
                let r = ReadPolicy::Multiple(out);
                assert(r@->Multiple_0 =~= self@->Multiple_0);
                r
            },
        }
    }

    /// The floor that the policy names for a collection whose upper frontier
    /// is `write_frontier`.
    pub fn frontier(&self, write_frontier: &Frontier) -> (r: Frontier)
        requires
            self.wf(),
        ensures
            r@ == self@.floor(write_frontier@),
            r.wf(),
        decreases self,
    {
        match self {
            ReadPolicy::ValidFrom(f) => f.clone(),
            ReadPolicy::LagWriteFrontier { lag, max_granularity } => {
                if write_frontier.elements.len() == 0 {
                    Frontier::from_elem(0)
                } else {
                    let upper: u64 = write_frontier.elements[0];
                    if *lag == 0 {
                        Frontier::from_elem(upper)
                    } else {
                        let time: u64 = if upper >= *lag {
                            upper - *lag
                        } else {
                            0
                        };
                        let granularity: u64 = if *lag <= *max_granularity {
                            *lag
                        } else {
                            *max_granularity
                        };
                        if granularity == 0 {
                            Frontier::from_elem(time)
                        } else {
                            assert(time % granularity <= time) by (nonlinear_arith)
                                requires
                                    granularity > 0,
                            ;
                            Frontier::from_elem(time - time % granularity)
                        }
                    }
                }
            },
            ReadPolicy::Multiple(ps) => {
                let mut acc = Frontier::new();
                let mut i: usize = 0;
                while i < ps.len()
                    invariant
                        i <= ps@.len(),
                        *self == ReadPolicy::Multiple(*ps),
                        self.wf(),
                        acc.wf(),
                        acc@ == PolicyView::floor_of_first(
                            self@->Multiple_0,
                            write_frontier@,
                            i as nat,
                        ),
                    decreases ps@.len() - i,
                {
                    assert(decreases_to!(*self => self->Multiple_0));
                    assert(decreases_to!(self->Multiple_0 => self->Multiple_0[i as int]));
                    assert(self@->Multiple_0[i as int] == ps@[i as int]@);
                    assert(self@->Multiple_0[i as int].wf());
                    let f = ps[i].frontier(write_frontier);
                    acc = acc.meet(&f);
                    i = i + 1;
                }
                acc
            },
        }
    }
}

/// How long a collection keeps old versions behind its upper frontier.
#[derive(Debug, Clone, Copy, PartialEq, Eq)]
pub enum CompactionWindow {
    /// The default window.
    Default,
    /// Never compact.
    DisableCompaction,
    /// A window of this many milliseconds.
    Duration(Timestamp),
}

impl CompactionWindow {
    /// What the policy for this window says.
    pub open spec fn policy_view(self) -> PolicyView {
        match self {
            CompactionWindow::Default => PolicyView::LagWriteFrontier {
                lag: DEFAULT_LOGICAL_COMPACTION_WINDOW,
                max_granularity: SINCE_GRANULARITY,
            },
            CompactionWindow::DisableCompaction => PolicyView::ValidFrom(seq![0u64]),
            CompactionWindow::Duration(d) => PolicyView::LagWriteFrontier {
                lag: d,
                max_granularity: SINCE_GRANULARITY,
            },
        }
    }

    /// The policy for this window.
    pub fn to_policy(&self) -> (r: ReadPolicy)
        ensures
            r@ == self.policy_view(),
            r.wf(),
    {
        match self {
            CompactionWindow::Default => ReadPolicy::lag_writes_by(
                DEFAULT_LOGICAL_COMPACTION_WINDOW,
                SINCE_GRANULARITY,
            ),
            CompactionWindow::DisableCompaction => ReadPolicy::ValidFrom(Frontier::from_elem(0)),
            CompactionWindow::Duration(d) => ReadPolicy::lag_writes_by(*d, SINCE_GRANULARITY),
        }
    }
}

} // verus!
