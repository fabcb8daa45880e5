//! Frontiers of timestamps.
//!
//! A frontier is a finite set of mutually incomparable timestamps. It stands
//! for all the times at or beyond one of its elements. Timestamps are `u64`,
//! which is totally ordered, so a frontier holds at most one element; the
//! empty frontier stands for no time at all.
use differential_dataflow::lattice::Lattice;
use timely::progress::Antichain;
use timely::PartialOrder;
use vstd::prelude::*;

verus! {

/// A point in time.
pub type Timestamp = u64;

/// Whether no element of `s` is at or before another one.
pub open spec fn is_antichain(s: Seq<u64>) -> bool {
    forall|i: int, j: int| 0 <= i < s.len() && 0 <= j < s.len() && i != j ==> !(#[trigger] s[i] <= #[trigger] s[j])
}

/// Whether `t` is at or beyond some element of `s`.
pub open spec fn seq_beyond(s: Seq<u64>, t: u64) -> bool {
    exists|i: int| 0 <= i < s.len() && #[trigger] s[i] <= t
}

/// The least frontier that is at or beyond both `a` and `b`.
pub open spec fn join_of(a: Seq<u64>, b: Seq<u64>) -> Seq<u64> {
    if a.len() == 0 || b.len() == 0 {
        Seq::empty()
    } else if a[0] <= b[0] {
        seq![b[0]]
    } else {
        seq![a[0]]
    }
}

/// The greatest frontier that both `a` and `b` are at or beyond.
pub open spec fn meet_of(a: Seq<u64>, b: Seq<u64>) -> Seq<u64> {
    if a.len() == 0 {
        b
    } else if b.len() == 0 {
        a
    } else if a[0] <= b[0] {
        seq![a[0]]
    } else {
        seq![b[0]]
    }
}

/// Whether every element of `b` is at or beyond some element of `a`.
pub open spec fn le_of(a: Seq<u64>, b: Seq<u64>) -> bool {
    forall|j: int| 0 <= j < b.len() ==> #[trigger] seq_beyond(a, b[j])
}

/// A set of mutually incomparable timestamps.
#[derive(Debug, PartialEq, Eq)]
pub struct Frontier {
    pub elements: Vec<Timestamp>,
}

impl View for Frontier {
    type V = Seq<u64>;

    open spec fn view(&self) -> Seq<u64> {
        self.elements@
    }
}

impl Frontier {
    /// The elements are mutually incomparable.
    pub open spec fn wf(&self) -> bool {
        is_antichain(self@)
    }

    /// Whether `t` is at or beyond this frontier.
    pub open spec fn beyond(&self, t: u64) -> bool {
        seq_beyond(self@, t)
    }

    /// The empty frontier, which no time is beyond.
    pub fn new() -> (r: Frontier)
        ensures
            r@ == Seq::<u64>::empty(),
            r.wf(),
    {
        Frontier { elements: Vec::new() }
    }

    /// The frontier whose one element is `t`.
    pub fn from_elem(t: Timestamp) -> (r: Frontier)
        ensures
            r@ == seq![t],
            r.wf(),
    {
        let mut elements: Vec<u64> = Vec::new();
        elements.push(t);
        Frontier { elements }
    }

    /// The frontier of the given times: its one element is the least of
    /// them, and where there are none it is the empty frontier. A time is
    /// beyond it exactly where it is at or beyond one of the given times.
    pub fn from_times(times: &Vec<Timestamp>) -> (r: Frontier)
        ensures
            r.wf(),
            times@.len() == 0 ==> r@ == Seq::<u64>::empty(),
            times@.len() > 0 ==> r@.len() == 1 && times@.contains(r@[0]),
            forall|i: int| 0 <= i < times@.len() ==> seq_beyond(r@, #[trigger] times@[i]),
            forall|t: u64| seq_beyond(r@, t) <==> seq_beyond(times@, t),
    {
        if times.len() == 0 {
            return Frontier::new();
        }
        let mut least: u64 = times[0];
        let mut i: usize = 1;
        while i < times.len()
            invariant
                1 <= i <= times@.len(),
                times@.contains(least),
                forall|k: int| 0 <= k < i ==> least <= #[trigger] times@[k],
            decreases times@.len() - i,
        {
            if times[i] < least {
                least = times[i];
            }
            i = i + 1;
        }
        let r = Frontier::from_elem(least);
        proof {
            assert(r@[0] == least);
            assert forall|k: int| 0 <= k < times@.len() implies seq_beyond(
                r@,
                #[trigger] times@[k],
            ) by {
                assert(r@[0] <= times@[k]);
            }
            assert forall|t: u64| seq_beyond(r@, t) <==> seq_beyond(times@, t) by {
                if seq_beyond(r@, t) {
                    let k = choose|k: int| 0 <= k < times@.len() && times@[k] == least;
                    assert(times@[k] <= t);
                }
                if seq_beyond(times@, t) {
                    let k = choose|k: int| 0 <= k < times@.len() && #[trigger] times@[k] <= t;
                    assert(least <= times@[k]);
                    assert(r@[0] <= t);
                }
            }
        }
        r
    }

    /// Whether the elements are mutually incomparable: for a frontier that
    /// comes from elsewhere.
    pub fn is_well_formed(&self) -> (r: bool)
        ensures
            r == self.wf(),
    {
        proof {
            if self.wf() {
                lemma_antichain_len(self@);
            }
        }
        self.elements.len() <= 1
    }

    /// A copy of this frontier.
    pub fn clone(&self) -> (r: Frontier)
        ensures
            r@ == self@,
    {
        Frontier { elements: self.elements.clone() }
    }

    /// Whether no time is beyond this frontier.
    pub fn is_empty(&self) -> (r: bool)
        ensures
            r == (self@.len() == 0),
    {
        self.elements.len() == 0
    }

    /// Whether the two frontiers hold the same elements.
    pub fn same_as(&self, other: &Frontier) -> (r: bool)
        ensures
            r == (self@ == other@),
    {
        if self.elements.len() != other.elements.len() {
            return false;
        }
        let mut i: usize = 0;
        while i < self.elements.len()
            invariant
                i <= self@.len(),
                self@.len() == other@.len(),
                forall|j: int| 0 <= j < i ==> self@[j] == other@[j],
            decreases self@.len() - i,
        {
            if self.elements[i] != other.elements[i] {
                return false;
            }
            i = i + 1;
        }
        assert(self@ =~= other@);
        true
    }

    /// The least frontier at or beyond both `self` and `other`.
    pub fn join(&self, other: &Frontier) -> (r: Frontier)
        requires
            self.wf(),
            other.wf(),
        ensures
            r@ == join_of(self@, other@),
            r.wf(),
    {
        proof {
            lemma_antichain_len(self@);
            lemma_antichain_len(other@);
        }
        antichain_join(self, other)
    }

    /// The greatest frontier that both `self` and `other` are at or beyond.
    pub fn meet(&self, other: &Frontier) -> (r: Frontier)
        requires
            self.wf(),
            other.wf(),
        ensures
            r@ == meet_of(self@, other@),
            r.wf(),
    {
        proof {
            lemma_antichain_len(self@);
            lemma_antichain_len(other@);
        }
        antichain_meet(self, other)
    }

    /// Whether every element of `other` is at or beyond some element of
    /// `self`: the order on frontiers.
    pub fn le(&self, other: &Frontier) -> (r: bool)
        ensures
            r == le_of(self@, other@),
    {
        antichain_less_equal(self, other)
    }
}

/// A frontier of totally ordered times has at most one element.
pub proof fn lemma_antichain_len(s: Seq<u64>)
    requires
        is_antichain(s),
    ensures
        s.len() <= 1,
{
    if s.len() >= 2 {
        if s[0] <= s[1] {
            assert(!(s[0] <= s[1]));
        } else {
            assert(!(s[1] <= s[0]));
        }
    }
}

/// With at most one element, being beyond a frontier is a comparison with
/// that element.
pub proof fn lemma_beyond_closed_form(a: Seq<u64>, t: u64)
    requires
        a.len() <= 1,
    ensures
        seq_beyond(a, t) <==> a.len() == 1 && a[0] <= t,
{
    if a.len() == 1 && a[0] <= t {
        assert(seq_beyond(a, t));
    }
}

/// With at most one element each, the order on frontiers is a comparison of
/// those elements, and the empty frontier is the greatest.
pub proof fn lemma_le_closed_form(a: Seq<u64>, b: Seq<u64>)
    requires
        a.len() <= 1,
        b.len() <= 1,
    ensures
        le_of(a, b) <==> b.len() == 0 || (a.len() == 1 && a[0] <= b[0]),
{
    if b.len() == 1 {
        lemma_beyond_closed_form(a, b[0]);
        if le_of(a, b) {
            assert(seq_beyond(a, b[0]));
        }
    }
}

/// The times beyond a join are those beyond both frontiers, and the times
/// beyond a meet are those beyond either.
pub proof fn lemma_join_meet_beyond(a: Seq<u64>, b: Seq<u64>, t: u64)
    requires
        is_antichain(a),
        is_antichain(b),
    ensures
        seq_beyond(join_of(a, b), t) <==> seq_beyond(a, t) && seq_beyond(b, t),
        seq_beyond(meet_of(a, b), t) <==> seq_beyond(a, t) || seq_beyond(b, t),
        is_antichain(join_of(a, b)),
        is_antichain(meet_of(a, b)),
{
    lemma_antichain_len(a);
    lemma_antichain_len(b);
    lemma_beyond_closed_form(a, t);
    lemma_beyond_closed_form(b, t);
    lemma_beyond_closed_form(join_of(a, b), t);
    lemma_beyond_closed_form(meet_of(a, b), t);
}

/// The order on frontiers is reflexive and transitive, and two frontiers at
/// or beyond each other are the same.
pub proof fn lemma_le_is_partial_order(a: Seq<u64>, b: Seq<u64>, c: Seq<u64>)
    requires
        is_antichain(a),
        is_antichain(b),
        is_antichain(c),
    ensures
        le_of(a, a),
        le_of(a, b) && le_of(b, c) ==> le_of(a, c),
        le_of(a, b) && le_of(b, a) ==> a == b,
{
    lemma_antichain_len(a);
    lemma_antichain_len(b);
    lemma_antichain_len(c);
    lemma_le_closed_form(a, a);
    lemma_le_closed_form(a, b);
    lemma_le_closed_form(b, a);
    lemma_le_closed_form(b, c);
    lemma_le_closed_form(a, c);
    if le_of(a, b) && le_of(b, a) {
        assert(a =~= b);
    }
}

/// The join is the least upper bound of two frontiers.
pub proof fn lemma_join_is_least_upper_bound(a: Seq<u64>, b: Seq<u64>, c: Seq<u64>)
    requires
        is_antichain(a),
        is_antichain(b),
        is_antichain(c),
    ensures
        le_of(a, join_of(a, b)),
        le_of(b, join_of(a, b)),
        le_of(a, c) && le_of(b, c) ==> le_of(join_of(a, b), c),
{
    lemma_antichain_len(a);
    lemma_antichain_len(b);
    lemma_antichain_len(c);
    lemma_le_closed_form(a, join_of(a, b));
    lemma_le_closed_form(b, join_of(a, b));
    lemma_le_closed_form(a, c);
    lemma_le_closed_form(b, c);
    lemma_le_closed_form(join_of(a, b), c);
}

/// The meet is the greatest lower bound of two frontiers.
pub proof fn lemma_meet_is_greatest_lower_bound(a: Seq<u64>, b: Seq<u64>, c: Seq<u64>)
    requires
        is_antichain(a),
        is_antichain(b),
        is_antichain(c),
    ensures
        le_of(meet_of(a, b), a),
        le_of(meet_of(a, b), b),
        le_of(c, a) && le_of(c, b) ==> le_of(c, meet_of(a, b)),
{
    lemma_antichain_len(a);
    lemma_antichain_len(b);
    lemma_antichain_len(c);
    lemma_le_closed_form(meet_of(a, b), a);
    lemma_le_closed_form(meet_of(a, b), b);
    lemma_le_closed_form(c, a);
    lemma_le_closed_form(c, b);
    lemma_le_closed_form(c, meet_of(a, b));
}

/// Calls `Lattice::join` of `differential_dataflow` on two `Antichain<u64>`.
/// For two frontiers of at most one element each, the contract claims that
/// the result is empty when one of them is, and else holds the greater of
/// the two elements.
#[verifier::external_body]
fn antichain_join(a: &Frontier, b: &Frontier) -> (r: Frontier)
    requires
        a@.len() <= 1,
        b@.len() <= 1,
    ensures
        r@ == join_of(a@, b@),
{
    let x: Antichain<u64> = Antichain::from(a.elements.clone());
    let y: Antichain<u64> = Antichain::from(b.elements.clone());
    Frontier { elements: x.join(&y).elements().to_vec() }
}

/// Calls `Lattice::meet` of `differential_dataflow` on two `Antichain<u64>`.
/// For two frontiers of at most one element each, the contract claims that
/// the result is the other one when one of them is empty, and else holds the
/// lesser of the two elements.
#[verifier::external_body]
fn antichain_meet(a: &Frontier, b: &Frontier) -> (r: Frontier)
    requires
        a@.len() <= 1,
        b@.len() <= 1,
    ensures
        r@ == meet_of(a@, b@),
{
    let x: Antichain<u64> = Antichain::from(a.elements.clone());
    let y: Antichain<u64> = Antichain::from(b.elements.clone());
    Frontier { elements: x.meet(&y).elements().to_vec() }
}

/// Calls `PartialOrder::less_equal` of `timely` on two `Antichain<u64>`. The
/// contract claims what its body computes: that every element of `b` has an
/// element of `a` at or before it.
#[verifier::external_body]
fn antichain_less_equal(a: &Frontier, b: &Frontier) -> (r: bool)
    ensures
        r == le_of(a@, b@),
{
    let x: Antichain<u64> = Antichain::from(a.elements.clone());
    let y: Antichain<u64> = Antichain::from(b.elements.clone());
    PartialOrder::less_equal(&x, &y)
}

} // verus!
