//! Transactions over a table of keys and values.
//!
//! A [`TableTransaction`] starts from what a table holds, takes inserts,
//! updates and deletes, and shows at every moment what the table would hold
//! if the transaction ended there. A rule says which two values may not both
//! be in the table, and no change that breaks it is taken. What the
//! transaction ends with is handed out as the changes to make to the table.
use std::collections::BTreeMap;
use vstd::laws_cmp::obeys_cmp;
use vstd::pervasive::cloned;
use vstd::prelude::*;
use vstd::std_specs::iter::IteratorSpec;

verus! {

/// A change of the number of times that an entry is in a collection.
pub type Diff = i64;

/// Whether a clone of a value is the value.
pub open spec fn obeys_clone<T: Clone>() -> bool {
    forall|a: T, b: T| #[trigger] cloned(a, b) ==> a == b
}

/// Whether `entries` names every key of `m` once, each with its value.
pub open spec fn lists_map<K, V>(entries: Seq<(&K, &V)>, m: Map<K, V>) -> bool {
    &&& forall|i: int|
        0 <= i < entries.len() ==> m.contains_key(*(#[trigger] entries[i]).0) && m[*entries[i].0]
            == *entries[i].1
    &&& forall|k: K|
        m.contains_key(k) ==> exists|i: int| 0 <= i < entries.len() && *(#[trigger] entries[i]).0 == k
    &&& forall|i: int, j: int|
        0 <= i < entries.len() && 0 <= j < entries.len() && i != j ==> *(#[trigger] entries[i]).0
            != *(#[trigger] entries[j]).0
}

/// The keys of a map with their values, each key once.
pub fn map_entries<'a, K, V>(m: &'a BTreeMap<K, V>) -> (r: Vec<(&'a K, &'a V)>)
    requires
        vstd::std_specs::btree::key_obeys_cmp_spec::<K>(),
    ensures
        lists_map(r@, m@),
        r@.len() == m@.dom().len(),
        m@.dom().finite(),
{
    let mut entries: Vec<(&K, &V)> = Vec::new();
    let ghost all = m.iter().remaining();
    for entry in it: m.iter()
        invariant
            it.seq() == all,
            all == m.iter().remaining(),
            all.no_duplicates(),
            all.len() == m@.dom().len(),
            entries@ == all.take(it.index()),
    {
        entries.push(entry);
        assert(entries@ =~= all.take(it.index() + 1));
    }
    proof {
        assert(entries@ =~= all);
        assert forall|k: K| m@.contains_key(k) implies exists|i: int|
            0 <= i < entries@.len() && *(#[trigger] entries@[i]).0 == k by {
            assert(all.contains((&k, &m@[k])));
            let i = choose|i: int| 0 <= i < all.len() && all[i] == (&k, &m@[k]);
            assert(*entries@[i].0 == k);
        }
        assert forall|i: int, j: int|
            0 <= i < entries@.len() && 0 <= j < entries@.len() && i != j implies *(#[trigger] entries@[i]).0
            != *(#[trigger] entries@[j]).0 by {
            if *entries@[i].0 == *entries@[j].0 {
                assert(m@[*all[i].0] == *all[i].1);
                assert(m@[*all[j].0] == *all[j].1);
                assert(all[i] == all[j]);
            }
        }
    }
    entries
}

/// Why an operation on the stash failed.
#[derive(Debug, PartialEq, Eq)]
pub enum InternalStashError {
    /// The database failed, with this message.
    Postgres(String),
    /// Another process has taken over the stash.
    Fence(String),
    /// A collection was read at a time that it cannot be read at.
    PeekSinceUpper(String),
    /// The stash has a version that this library cannot read.
    IncompatibleVersion(u64),
    /// A value could not be converted, with this message.
    Proto(String),
    /// A value could not be decoded, with this message.
    Decoding(String),
    /// The stash has not been set up.
    Uninitialized,
    /// The stash was opened for reading only.
    StashNotWritable(String),
    /// Anything else.
    Other(String),
}

/// An error of the stash. Such errors mostly stand for conditions that
/// cannot be recovered from.
#[derive(Debug, PartialEq, Eq)]
pub struct StashError {
    pub inner: InternalStashError,
}

impl StashError {
    /// Whether the error cannot be recovered from: trying again will never
    /// succeed, or is not safe.
    pub fn is_unrecoverable(&self) -> (r: bool)
        ensures
            r == (self.inner is Fence),
    {
        match &self.inner {
            InternalStashError::Fence(_) => true,
            _ => false,
        }
    }

    /// Whether opening the stash for writing would help.
    pub fn can_recover_with_write_mode(&self) -> (r: bool)
        ensures
            r == (self.inner is StashNotWritable),
    {
        match &self.inner {
            InternalStashError::StashNotWritable(_) => true,
            _ => false,
        }
    }

    /// The error with the given message.
    pub fn from_message(message: &str) -> (r: StashError)
        ensures
            r.inner matches InternalStashError::Other(m) && m@ == message@,
    {
        StashError { inner: InternalStashError::Other(message.to_owned()) }
    }
}

/// What a transaction sees: the pending value of each key that has one, and
/// the initial value of any other.
pub open spec fn visible<K, V>(initial: Map<K, V>, pending: Map<K, Option<V>>) -> Map<K, V> {
    Map::new(
        |k: K|
            if pending.contains_key(k) {
                pending[k] is Some
            } else {
                initial.contains_key(k)
            },
        |k: K|
            if pending.contains_key(k) {
                pending[k]->0
            } else {
                initial[k]
            },
    )
}

/// The pending changes of the first `n` of `entries`.
pub open spec fn first_pending<K, V>(entries: Seq<(&K, &Option<V>)>, n: int) -> Map<K, Option<V>> {
    Map::new(
        |k: K| exists|j: int| 0 <= j < n && j < entries.len() && *(#[trigger] entries[j]).0 == k,
        |k: K|
            *entries[choose|j: int|
                0 <= j < n && j < entries.len() && *(#[trigger] entries[j]).0 == k].1,
    )
}

/// One more pending change adds its key with its value.
pub proof fn lemma_first_pending_step<K, V>(
    entries: Seq<(&K, &Option<V>)>,
    pending: Map<K, Option<V>>,
    n: int,
)
    requires
        lists_map(entries, pending),
        0 <= n < entries.len(),
    ensures
        first_pending(entries, n + 1) == first_pending(entries, n).insert(
            *entries[n].0,
            *entries[n].1,
        ),
        first_pending(entries, 0) == Map::<K, Option<V>>::empty(),
        first_pending(entries, entries.len() as int) == pending,
{
    let a = first_pending(entries, n + 1);
    let b = first_pending(entries, n).insert(*entries[n].0, *entries[n].1);
    assert forall|k: K| a.contains_key(k) <==> b.contains_key(k) by {
        if a.contains_key(k) {
            let j = choose|j: int|
                0 <= j < n + 1 && j < entries.len() && *(#[trigger] entries[j]).0 == k;
            if j < n {
                assert(first_pending(entries, n).contains_key(k));
            }
        }
        if first_pending(entries, n).contains_key(k) {
            let j = choose|j: int| 0 <= j < n && j < entries.len() && *(#[trigger] entries[j]).0 == k;
            assert(0 <= j < n + 1 && j < entries.len() && *entries[j].0 == k);
        }
        if k == *entries[n].0 {
            assert(0 <= n < n + 1 && n < entries.len() && *entries[n].0 == k);
        }
    }
    assert forall|k: K| a.contains_key(k) implies a[k] == b[k] by {
        let j = choose|j: int|
            0 <= j < n + 1 && j < entries.len() && *(#[trigger] entries[j]).0 == k;
        assert(pending[*entries[j].0] == *entries[j].1);
        if k != *entries[n].0 {
            let i = choose|i: int| 0 <= i < n && i < entries.len() && *(#[trigger] entries[i]).0 == k;
            assert(pending[*entries[i].0] == *entries[i].1);
        } else {
            assert(pending[*entries[n].0] == *entries[n].1);
        }
    }
    assert(a =~= b);
    assert(first_pending(entries, 0) =~= Map::<K, Option<V>>::empty());
    let all = first_pending(entries, entries.len() as int);
    assert forall|k: K| all.contains_key(k) <==> pending.contains_key(k) by {
        if all.contains_key(k) {
            let j = choose|j: int|
                0 <= j < entries.len() && j < entries.len() && *(#[trigger] entries[j]).0 == k;
            assert(pending.contains_key(*entries[j].0));
        }
        if pending.contains_key(k) {
            let j = choose|j: int| 0 <= j < entries.len() && *(#[trigger] entries[j]).0 == k;
            assert(0 <= j < entries.len() && j < entries.len() && *entries[j].0 == k);
        }
    }
    assert forall|k: K| all.contains_key(k) implies all[k] == pending[k] by {
        let j = choose|j: int|
            0 <= j < entries.len() && j < entries.len() && *(#[trigger] entries[j]).0 == k;
        assert(pending[*entries[j].0] == *entries[j].1);
    }
    assert(all =~= pending);
}

/// A pending change more shows in what the transaction sees.
pub proof fn lemma_visible_insert<K, V>(
    initial: Map<K, V>,
    pending: Map<K, Option<V>>,
    k: K,
    v: Option<V>,
)
    ensures
        visible(initial, pending.insert(k, v)) == match v {
            Some(x) => visible(initial, pending).insert(k, x),
            None => visible(initial, pending).remove(k),
        },
{
    match v {
        Some(x) => {
            assert(visible(initial, pending.insert(k, v)) =~= visible(initial, pending).insert(k, x));
        },
        None => {
            assert(visible(initial, pending.insert(k, v)) =~= visible(initial, pending).remove(k));
        },
    }
}

/// Without pending changes the transaction sees what the table held.
pub proof fn lemma_visible_of_nothing<K, V>(initial: Map<K, V>)
    ensures
        visible(initial, Map::<K, Option<V>>::empty()) == initial,
{
    assert(visible(initial, Map::<K, Option<V>>::empty()) =~= initial);
}

/// The changes that a transaction over a table wants to make, on top of
/// what the table held when the transaction began. A pending change gives a
/// key its value at the end of the transaction, or says that the key is
/// deleted.
pub struct TableTransaction<K, V, U> {
    pub initial: BTreeMap<K, V>,
    pub pending: BTreeMap<K, Option<V>>,
    pub uniqueness_violation: U,
}

impl<K: Ord + Clone, V: Clone, U: Fn(&V, &V) -> bool> View for TableTransaction<K, V, U> {
    type V = Map<K, V>;

    open spec fn view(&self) -> Map<K, V> {
        visible(self.initial@, self.pending@)
    }
}

impl<K: Ord + Clone, V: Clone, U: Fn(&V, &V) -> bool> TableTransaction<K, V, U> {
    /// The keys are ordered as a map needs them, clones are copies, and the
    /// rule of uniqueness answers for every two values, always the same.
    pub open spec fn wf(&self) -> bool {
        &&& obeys_cmp::<K>()
        &&& obeys_clone::<K>()
        &&& obeys_clone::<V>()
        &&& forall|a: V, b: V| #[trigger] call_requires(self.uniqueness_violation, (&a, &b))
        &&& forall|a: V, b: V, x: bool, y: bool|
            #![trigger call_ensures(self.uniqueness_violation, (&a, &b), x), call_ensures(self.uniqueness_violation, (&a, &b), y)]
            call_ensures(self.uniqueness_violation, (&a, &b), x) && call_ensures(
                self.uniqueness_violation,
                (&a, &b),
                y,
            ) ==> x == y
    }

    /// Whether `a` and `b` may not both be in the table.
    pub open spec fn violation(&self, a: V, b: V) -> bool {
        call_ensures(self.uniqueness_violation, (&a, &b), true)
    }

    /// Whether no two of `items` break the rule of uniqueness.
    pub open spec fn unique(&self, items: Map<K, V>) -> bool {
        forall|k1: K, k2: K|
            #![trigger items[k1], items[k2]]
            items.contains_key(k1) && items.contains_key(k2) && k1 != k2 ==> !self.violation(
                items[k1],
                items[k2],
            )
    }

    /// A transaction over a table that holds `initial`.
    pub fn new(initial: BTreeMap<K, V>, uniqueness_violation: U) -> (r: Self)
        ensures
            r.initial == initial,
            r.pending@ == Map::<K, Option<V>>::empty(),
            r.uniqueness_violation == uniqueness_violation,
            r@ == initial@,
    {
        let r = TableTransaction { initial, pending: BTreeMap::new(), uniqueness_violation };
        assert(r@ =~= initial@);
        r
    }

    /// The current value of `k`.
    pub fn get(&self, k: &K) -> (r: Option<&V>)
        requires
            self.wf(),
        ensures
            match r {
                Some(v) => self@.contains_key(*k) && *v == self@[*k],
                None => !self@.contains_key(*k),
            },
    {
        match self.pending.get(k) {
            Some(v) => v.as_ref(),
            None => self.initial.get(k),
        }
    }

    /// The items that the transaction sees.
    pub fn items(&self) -> (r: BTreeMap<K, V>)
        requires
            self.wf(),
        ensures
            r@ == self@,
    {
        let mut items = self.initial.clone();
        let entries = map_entries(&self.pending);
        let mut i: usize = 0;
        proof {
            if entries@.len() > 0 {
                lemma_first_pending_step(entries@, self.pending@, 0);
            } else {
                assert(first_pending(entries@, 0) =~= Map::<K, Option<V>>::empty());
            }
            lemma_visible_of_nothing::<K, V>(self.initial@);
        }
        while i < entries.len()
            invariant
                i <= entries@.len(),
                self.wf(),
                lists_map(entries@, self.pending@),
                items@ == visible(self.initial@, first_pending(entries@, i as int)),
            decreases entries@.len() - i,
        {
            let (k, v) = entries[i];
            proof {
                lemma_first_pending_step(entries@, self.pending@, i as int);
                lemma_visible_insert(self.initial@, first_pending(entries@, i as int), *k, *v);
            }
            match v {
                Some(x) => {
                    let key = k.clone();
                    let value = x.clone();
                    assert(cloned(*k, key) && cloned(*x, value));
                    items.insert(key, value);
                },
                None => {
                    items.remove(k);
                },
            }
            i = i + 1;
        }
        proof {
            if entries@.len() > 0 {
                lemma_first_pending_step(entries@, self.pending@, 0);
            } else {
                assert(first_pending(entries@, 0) =~= self.pending@);
            }
        }
        items
    }

    /// Whether no two items that the transaction sees break the rule of
    /// uniqueness.
    pub fn verify(&self) -> (r: Result<(), StashError>)
        requires
            self.wf(),
        ensures
            r is Ok <==> self.unique(self@),
            r matches Err(e) ==> e.inner matches InternalStashError::Other(m) && m@
                == "uniqueness violation"@,
    {
        let items = self.items();
        let entries = map_entries(&items);
        let mut i: usize = 0;
        while i < entries.len()
            invariant
                i <= entries@.len(),
                self.wf(),
                items@ == self@,
                lists_map(entries@, items@),
                forall|a: int, b: int|
                    0 <= a < i && 0 <= b < entries@.len() && a != b ==> !self.violation(
                        *(#[trigger] entries@[a]).1,
                        *(#[trigger] entries@[b]).1,
                    ),
            decreases entries@.len() - i,
        {
            let mut j: usize = 0;
            while j < entries.len()
                invariant
                    i < entries@.len(),
                    j <= entries@.len(),
                    self.wf(),
                    items@ == self@,
                    lists_map(entries@, items@),
                    forall|b: int|
                        0 <= b < j && i != b ==> !self.violation(
                            *entries@[i as int].1,
                            *(#[trigger] entries@[b]).1,
                        ),
                decreases entries@.len() - j,
            {
                if i != j {
                    let broken = (self.uniqueness_violation)(entries[i].1, entries[j].1);
                    if broken {
                        proof {
                            let k1 = *entries@[i as int].0;
                            let k2 = *entries@[j as int].0;
                            assert(items@[k1] == *entries@[i as int].1);
                            assert(items@[k2] == *entries@[j as int].1);
                            assert(k1 != k2);
                            assert(self.violation(self@[k1], self@[k2]));
                        }
                        return Err(StashError::from_message("uniqueness violation"));
                    }
                }
                j = j + 1;
            }
            i = i + 1;
        }
        proof {
            assert forall|k1: K, k2: K|
                #![trigger self@[k1], self@[k2]]
                self@.contains_key(k1) && self@.contains_key(k2) && k1 != k2 implies !self.violation(
                self@[k1],
                self@[k2],
            ) by {
                let a = choose|a: int| 0 <= a < entries@.len() && *(#[trigger] entries@[a]).0 == k1;
                let b = choose|b: int| 0 <= b < entries@.len() && *(#[trigger] entries@[b]).0 == k2;
                assert(items@[*entries@[a].0] == *entries@[a].1);
                assert(items@[*entries@[b].0] == *entries@[b].1);
                assert(!self.violation(*entries@[a].1, *entries@[b].1));
            }
        }
        Ok(())
    }

    /// Sets the value of a key, or deletes the key where `v` is nothing.
    /// Returns the value that the key had. A change that breaks the rule of
    /// uniqueness is not made.
    pub fn set(&mut self, k: K, v: Option<V>) -> (r: Result<Option<V>, StashError>)
        requires
            old(self).wf(),
        ensures
            final(self).wf(),
            final(self).initial == old(self).initial,
            final(self).uniqueness_violation == old(self).uniqueness_violation,
            match r {
                Ok(prev) => {
                    &&& final(self).pending@ == old(self).pending@.insert(k, v)
                    &&& final(self)@ == set_as(old(self)@, k, v)
                    &&& old(self).unique(set_as(old(self)@, k, v))
                    &&& prev == if old(self)@.contains_key(k) {
                        Some(old(self)@[k])
                    } else {
                        None
                    }
                },
                Err(e) => {
                    &&& !old(self).unique(set_as(old(self)@, k, v))
                    &&& final(self).pending@ == old(self).pending@
                    &&& final(self)@ == old(self)@
                    &&& e.inner matches InternalStashError::Other(m) && m@
                        == "uniqueness violation"@
                },
            },
    {
        let restore: Option<Option<V>> = match self.pending.get(&k) {
            Some(Some(x)) => {
                let y = x.clone();
                assert(cloned(*x, y));
                Some(Some(y))
            },
            Some(None) => Some(None),
            None => None,
        };
        let prev: Option<V> = match self.get(&k) {
            Some(p) => {
                let q = p.clone();
                assert(cloned(*p, q));
                Some(q)
            },
            None => None,
        };
        let key = k.clone();
        assert(cloned(k, key));
        proof {
            lemma_visible_insert(self.initial@, self.pending@, k, v);
        }
        self.pending.insert(key, v);
        match self.verify() {
            Err(err) => {
                match restore {
                    Some(x) => {
                        self.pending.insert(k, x);
                    },
                    None => {
                        self.pending.remove(&k);
                    },
                }
                assert(self.pending@ =~= old(self).pending@);
                Err(err)
            },
            Ok(()) => Ok(prev),
        }
    }

    /// Adds a key with its value. The key must be new, and the value must
    /// not break the rule of uniqueness with a value that is there.
    pub fn insert(&mut self, k: K, v: V) -> (r: Result<(), StashError>)
        requires
            old(self).wf(),
        ensures
            final(self).wf(),
            final(self).initial == old(self).initial,
            final(self).uniqueness_violation == old(self).uniqueness_violation,
            match r {
                Ok(()) => {
                    &&& !old(self)@.contains_key(k)
                    &&& !old(self).breaks(old(self)@, v)
                    &&& final(self).pending@ == old(self).pending@.insert(k, Some(v))
                    &&& final(self)@ == old(self)@.insert(k, v)
                },
                Err(e) => {
                    &&& old(self)@.contains_key(k) || old(self).breaks(old(self)@, v)
                    &&& final(self).pending@ == old(self).pending@
                    &&& final(self)@ == old(self)@
                    &&& e.inner matches InternalStashError::Other(m) && (if old(self).breaks(
                        old(self)@,
                        v,
                    ) {
                        m@ == "uniqueness violation"@
                    } else {
                        m@ == "duplicate key"@
                    })
                },
            },
    {
        let items = self.items();
        let entries = map_entries(&items);
        let mut i: usize = 0;
        while i < entries.len()
            invariant
                i <= entries@.len(),
                self.wf(),
                *self == *old(self),
                items@ == self@,
                lists_map(entries@, items@),
                forall|a: int|
                    0 <= a < i ==> !self.violation(*(#[trigger] entries@[a]).1, v),
            decreases entries@.len() - i,
        {
            if (self.uniqueness_violation)(entries[i].1, &v) {
                proof {
                    let k1 = *entries@[i as int].0;
                    assert(items@[k1] == *entries@[i as int].1);
                    assert(self@.contains_key(k1) && self.violation(self@[k1], v));
                }
                return Err(StashError::from_message("uniqueness violation"));
            }
            i = i + 1;
        }
        proof {
            assert(!self.breaks(self@, v)) by {
                if self.breaks(self@, v) {
                    let k1 = choose|k1: K| self@.contains_key(k1) && self.violation(self@[k1], v);
                    let a = choose|a: int|
                        0 <= a < entries@.len() && *(#[trigger] entries@[a]).0 == k1;
                    assert(items@[*entries@[a].0] == *entries@[a].1);
                }
            }
        }
        if self.get(&k).is_some() {
            return Err(StashError::from_message("duplicate key"));
        }
        proof {
            lemma_visible_insert(self.initial@, self.pending@, k, Some(v));
        }
        self.pending.insert(k, Some(v));
        Ok(())
    }

    /// Calls `f` on each item that the transaction sees, in no particular
    /// order.
    pub fn for_values<F: Fn(&K, &V)>(&self, f: F)
        requires
            self.wf(),
            forall|k: K, v: V| #[trigger] call_requires(f, (&k, &v)),
        ensures
            forall|k: K| #[trigger] self@.contains_key(k) ==> call_ensures(f, (&k, &self@[k]), ()),
    {
        let items = self.items();
        let entries = map_entries(&items);
        let mut i: usize = 0;
        while i < entries.len()
            invariant
                i <= entries@.len(),
                items@ == self@,
                lists_map(entries@, items@),
                forall|k: K, v: V| #[trigger] call_requires(f, (&k, &v)),
                forall|a: int|
                    0 <= a < i ==> call_ensures(
                        f,
                        (&*(#[trigger] entries@[a]).0, &*entries@[a].1),
                        (),
                    ),
            decreases entries@.len() - i,
        {
            let (k, v) = entries[i];
            assert(call_requires(f, (&*k, &*v)));
            f(k, v);
            i = i + 1;
        }
        proof {
            assert forall|k: K| #[trigger] self@.contains_key(k) implies call_ensures(
                f,
                (&k, &self@[k]),
                (),
            ) by {
                let a = choose|a: int| 0 <= a < entries@.len() && *(#[trigger] entries@[a]).0 == k;
                assert(items@[*entries@[a].0] == *entries@[a].1);
            }
        }
    }
}

/// What `f` makes of the item `k`, `v`.
pub open spec fn outcome<K, V, R, F: Fn(&K, &V) -> R>(f: F, k: K, v: V) -> R {
    choose|r: R| call_ensures(f, (&k, &v), r)
}

/// Whether `f` answers for every item, always the same.
pub open spec fn is_function<K, V, R, F: Fn(&K, &V) -> R>(f: F) -> bool {
    &&& forall|k: K, v: V| #[trigger] call_requires(f, (&k, &v))
    &&& forall|k: K, v: V, x: R, y: R|
        #![trigger call_ensures(f, (&k, &v), x), call_ensures(f, (&k, &v), y)]
        call_ensures(f, (&k, &v), x) && call_ensures(f, (&k, &v), y) ==> x == y
}

/// What a table holds after each item of which `f` makes a value has got
/// that value.
pub open spec fn updated<K, V, F: Fn(&K, &V) -> Option<V>>(items: Map<K, V>, f: F) -> Map<K, V> {
    Map::new(
        |k: K| items.contains_key(k),
        |k: K|
            match outcome(f, k, items[k]) {
                Some(next) => next,
                None => items[k],
            },
    )
}

/// The keys of the items of which `f` makes a value.
pub open spec fn changed_keys<K, V, F: Fn(&K, &V) -> Option<V>>(items: Map<K, V>, f: F) -> Set<K> {
    Set::new(|k: K| items.contains_key(k) && outcome(f, k, items[k]) is Some)
}

/// What a table holds after the items of which `f` says so are deleted.
pub open spec fn without<K, V, F: Fn(&K, &V) -> bool>(items: Map<K, V>, f: F) -> Map<K, V> {
    Map::new(|k: K| items.contains_key(k) && !outcome(f, k, items[k]), |k: K| items[k])
}

/// The pending changes that replace what the table held, and those that add
/// to it: the changes that the table is to take, each with its diff.
pub open spec fn is_change<K, V>(
    initial: Map<K, V>,
    pending: Map<K, Option<V>>,
    change: (K, V, Diff),
) -> bool {
    let (k, v, diff) = change;
    pending.contains_key(k) && ((diff == -1 && initial.contains_key(k) && initial[k] == v) || (diff
        == 1 && pending[k] == Some(v)))
}

impl<K: Ord + Clone, V: Clone, U: Fn(&V, &V) -> bool> TableTransaction<K, V, U> {
    /// Gives each item of which `f` makes a value that value. Returns the
    /// number of items that it gave one. If the values then break the rule
    /// of uniqueness, no item is changed.
    pub fn update<F: Fn(&K, &V) -> Option<V>>(&mut self, f: F) -> (r: Result<Diff, StashError>)
        requires
            old(self).wf(),
            is_function(f),
            old(self)@.dom().len() <= i64::MAX,
        ensures
            final(self).wf(),
            final(self).initial == old(self).initial,
            final(self).uniqueness_violation == old(self).uniqueness_violation,
            match r {
                Ok(changed) => {
                    &&& final(self).pending@ == pending_updated(
                        old(self).pending@,
                        old(self)@,
                        f,
                    )
                    &&& final(self)@ == updated(old(self)@, f)
                    &&& old(self).unique(updated(old(self)@, f))
                    &&& changed == changed_keys(old(self)@, f).len()
                },
                Err(e) => {
                    &&& !old(self).unique(updated(old(self)@, f))
                    &&& final(self).pending@ == old(self).pending@
                    &&& final(self)@ == old(self)@
                    &&& e.inner matches InternalStashError::Other(m) && m@
                        == "uniqueness violation"@
                },
            },
    {
        let saved = self.pending.clone();
        let items = self.items();
        let entries = map_entries(&items);
        let mut changed: i64 = 0;
        let ghost mut hit: Set<K> = Set::empty();
        let ghost before = self@;
        let mut i: usize = 0;
        proof {
            assert(self@ =~= updated_first(before, f, entries@, 0));
            assert(self.pending@ =~= pending_updated_first(self.pending@, before, f, entries@, 0));
        }
        while i < entries.len()
            invariant
                i <= entries@.len(),
                entries@.len() <= i64::MAX,
                self.wf(),
                is_function(f),
                self.initial == old(self).initial,
                self.uniqueness_violation == old(self).uniqueness_violation,
                saved@ == old(self).pending@,
                before == old(self)@,
                items@ == before,
                lists_map(entries@, before),
                self@ == updated_first(before, f, entries@, i as int),
                self.pending@ == pending_updated_first(
                    old(self).pending@,
                    before,
                    f,
                    entries@,
                    i as int,
                ),
                hit.finite(),
                changed == hit.len(),
                changed <= i,
                forall|k: K|
                    hit.contains(k) <==> exists|j: int|
                        0 <= j < i && *(#[trigger] entries@[j]).0 == k && outcome(
                            f,
                            k,
                            before[k],
                        ) is Some,
            decreases entries@.len() - i,
        {
            let (k, v) = entries[i];
            proof {
                assert(before[*entries@[i as int].0] == *entries@[i as int].1);
                assert(call_requires(f, (&*k, &*v)));
            }
            let made = f(k, v);
            proof {
                let chosen = outcome(f, *k, *v);
                assert(call_ensures(f, (&*k, &*v), made));
                assert(call_ensures(f, (&*k, &*v), chosen));
                assert(made == chosen);
                assert forall|j: int| 0 <= j < i implies *(#[trigger] entries@[j]).0 != *k by {
                    assert(*entries@[j].0 != *entries@[i as int].0);
                }
            }
            let ghost prior_hit = hit;
            match made {
                Some(next) => {
                    let key = k.clone();
                    assert(cloned(*k, key));
                    proof {
                        lemma_visible_insert(self.initial@, self.pending@, key, Some(next));
                        assert(!hit.contains(*k));
                        hit = hit.insert(*k);
                    }
                    self.pending.insert(key, Some(next));
                    changed = changed + 1;
                    proof {
                        assert(self@ =~= updated_first(before, f, entries@, i + 1)) by {
                            assert forall|c: K| self@.contains_key(c) implies self@[c]
                                == updated_first(before, f, entries@, i + 1)[c] by {
                                if c != *k {
                                    if among(entries@, i + 1, c) {
                                        let j = choose|j: int|
                                            0 <= j < i + 1 && j < entries@.len() && *(#[trigger] entries@[j]).0
                                                == c;
                                        assert(among(entries@, i as int, c));
                                    }
                                } else {
                                    assert(among(entries@, i + 1, c));
                                }
                            }
                        }
                    }
                },
                None => {
                    proof {
                        assert(self@ =~= updated_first(before, f, entries@, i + 1)) by {
                            assert forall|c: K| self@.contains_key(c) implies self@[c]
                                == updated_first(before, f, entries@, i + 1)[c] by {
                                if c != *k {
                                    if among(entries@, i + 1, c) {
                                        let j = choose|j: int|
                                            0 <= j < i + 1 && j < entries@.len() && *(#[trigger] entries@[j]).0
                                                == c;
                                        assert(among(entries@, i as int, c));
                                    }
                                } else {
                                    assert(among(entries@, i + 1, c));
                                }
                            }
                        }
                    }
                },
            }
            proof {
                assert(self.pending@ =~= pending_updated_first(
                    old(self).pending@,
                    before,
                    f,
                    entries@,
                    i + 1,
                )) by {
                    assert forall|c: K| true implies among(entries@, i + 1, c) == (among(
                        entries@,
                        i as int,
                        c,
                    ) || c == *k) by {
                        lemma_among_step(entries@, i as int, c);
                    }
                }
                assert forall|c: K|
                    hit.contains(c) <==> exists|j: int|
                        0 <= j < i + 1 && *(#[trigger] entries@[j]).0 == c && outcome(
                            f,
                            c,
                            before[c],
                        ) is Some by {
                    if prior_hit.contains(c) {
                        let j = choose|j: int|
                            0 <= j < i && *(#[trigger] entries@[j]).0 == c && outcome(
                                f,
                                c,
                                before[c],
                            ) is Some;
                        assert(0 <= j < i + 1 && *entries@[j].0 == c);
                    }
                    if exists|j: int|
                        0 <= j < i + 1 && *(#[trigger] entries@[j]).0 == c && outcome(
                            f,
                            c,
                            before[c],
                        ) is Some {
                        let j = choose|j: int|
                            0 <= j < i + 1 && *(#[trigger] entries@[j]).0 == c && outcome(
                                f,
                                c,
                                before[c],
                            ) is Some;
                        if j < i {
                            assert(prior_hit.contains(c));
                        }
                    }
                }
            }
            i = i + 1;
        }
        proof {
            assert(self@ =~= updated(before, f)) by {
                assert forall|c: K| before.contains_key(c) implies among(
                    entries@,
                    entries@.len() as int,
                    c,
                ) by {
                    let j = choose|j: int| 0 <= j < entries@.len() && *(#[trigger] entries@[j]).0 == c;
                    assert(0 <= j < entries@.len() && j < entries@.len() && *entries@[j].0 == c);
                }
            }
            assert(self.pending@ =~= pending_updated(old(self).pending@, before, f)) by {
                assert forall|c: K| before.contains_key(c) implies among(
                    entries@,
                    entries@.len() as int,
                    c,
                ) by {
                    let j = choose|j: int| 0 <= j < entries@.len() && *(#[trigger] entries@[j]).0 == c;
                    assert(0 <= j < entries@.len() && j < entries@.len() && *entries@[j].0 == c);
                }
            }
            assert(hit =~= changed_keys(before, f)) by {
                assert forall|c: K| hit.contains(c) <==> changed_keys(before, f).contains(c) by {
                    if hit.contains(c) {
                        let j = choose|j: int|
                            0 <= j < i && *(#[trigger] entries@[j]).0 == c && outcome(
                                f,
                                c,
                                before[c],
                            ) is Some;
                        assert(before.contains_key(*entries@[j].0));
                    }
                    if changed_keys(before, f).contains(c) {
                        let j = choose|j: int|
                            0 <= j < entries@.len() && *(#[trigger] entries@[j]).0 == c;
                        assert(0 <= j < i && *entries@[j].0 == c);
                    }
                }
            }
        }
        match self.verify() {
            Err(err) => {
                self.pending = saved;
                Err(err)
            },
            Ok(()) => Ok(changed),
        }
    }

    /// Deletes the items of which `f` says so. Returns the deleted items.
    pub fn delete<F: Fn(&K, &V) -> bool>(&mut self, f: F) -> (r: Vec<(K, V)>)
        requires
            old(self).wf(),
            is_function(f),
        ensures
            final(self).wf(),
            final(self).initial == old(self).initial,
            final(self).uniqueness_violation == old(self).uniqueness_violation,
            final(self)@ == without(old(self)@, f),
            final(self).pending@ == pending_without(old(self).pending@, old(self)@, f),
            r@.no_duplicates(),
            forall|j: int|
                0 <= j < r@.len() ==> old(self)@.contains_key((#[trigger] r@[j]).0) && old(
                    self,
                )@[r@[j].0] == r@[j].1 && outcome(f, r@[j].0, r@[j].1),
            forall|k: K|
                old(self)@.contains_key(k) && outcome(f, k, old(self)@[k]) ==> exists|j: int|
                    0 <= j < r@.len() && (#[trigger] r@[j]).0 == k,
            forall|a: int, b: int|
                0 <= a < r@.len() && 0 <= b < r@.len() && a != b ==> (#[trigger] r@[a]).0
                    != (#[trigger] r@[b]).0,
    {
        let items = self.items();
        let entries = map_entries(&items);
        let mut deleted: Vec<(K, V)> = Vec::new();
        let ghost before = self@;
        let mut i: usize = 0;
        proof {
            assert(self@ =~= without_first(before, f, entries@, 0));
            assert(self.pending@ =~= pending_without_first(self.pending@, before, f, entries@, 0));
        }
        while i < entries.len()
            invariant
                i <= entries@.len(),
                self.wf(),
                is_function(f),
                self.initial == old(self).initial,
                self.uniqueness_violation == old(self).uniqueness_violation,
                before == old(self)@,
                items@ == before,
                lists_map(entries@, before),
                self@ == without_first(before, f, entries@, i as int),
                self.pending@ == pending_without_first(
                    old(self).pending@,
                    before,
                    f,
                    entries@,
                    i as int,
                ),
                forall|j: int|
                    0 <= j < deleted@.len() ==> before.contains_key((#[trigger] deleted@[j]).0)
                        && before[deleted@[j].0] == deleted@[j].1 && outcome(
                        f,
                        deleted@[j].0,
                        deleted@[j].1,
                    ) && among(entries@, i as int, deleted@[j].0),
                forall|a: int|
                    0 <= a < i && outcome(f, *(#[trigger] entries@[a]).0, *entries@[a].1)
                        ==> exists|j: int|
                        0 <= j < deleted@.len() && (#[trigger] deleted@[j]).0 == *entries@[a].0,
                forall|a: int, b: int|
                    0 <= a < deleted@.len() && 0 <= b < deleted@.len() && a
                        != b ==> (#[trigger] deleted@[a]).0 != (#[trigger] deleted@[b]).0,
            decreases entries@.len() - i,
        {
            let (k, v) = entries[i];
            let ghost listed = deleted@;
            proof {
                assert(before[*entries@[i as int].0] == *entries@[i as int].1);
                assert(call_requires(f, (&*k, &*v)));
                assert(!among(entries@, i as int, *k)) by {
                    if among(entries@, i as int, *k) {
                        let j = choose|j: int|
                            0 <= j < i && j < entries@.len() && *(#[trigger] entries@[j]).0 == *k;
                        assert(*entries@[j].0 != *entries@[i as int].0);
                    }
                }
            }
            let gone = f(k, v);
            proof {
                let chosen = outcome(f, *k, *v);
                assert(call_ensures(f, (&*k, &*v), gone));
                assert(call_ensures(f, (&*k, &*v), chosen));
                assert(gone == chosen);
            }
            if gone {
                let key = k.clone();
                let value = v.clone();
                let again = k.clone();
                assert(cloned(*k, key) && cloned(*v, value) && cloned(*k, again));
                proof {
                    lemma_visible_insert(self.initial@, self.pending@, again, None);
                }
                deleted.push((key, value));
                self.pending.insert(again, None);
                proof {
                    assert forall|j: int| 0 <= j < deleted@.len() implies before.contains_key(
                        (#[trigger] deleted@[j]).0,
                    ) && before[deleted@[j].0] == deleted@[j].1 && outcome(
                        f,
                        deleted@[j].0,
                        deleted@[j].1,
                    ) && among(entries@, i + 1, deleted@[j].0) by {
                        if j < listed.len() {
                            assert(deleted@[j] == listed[j]);
                            let c = listed[j].0;
                            let n = choose|n: int|
                                0 <= n < i && n < entries@.len() && *(#[trigger] entries@[n]).0 == c;
                            assert(0 <= n < i + 1 && n < entries@.len() && *entries@[n].0 == c);
                        } else {
                            assert(0 <= i < i + 1 && i < entries@.len() && *entries@[i as int].0
                                == *k);
                        }
                    }
                    assert forall|a: int|
                        0 <= a < i + 1 && outcome(
                            f,
                            *(#[trigger] entries@[a]).0,
                            *entries@[a].1,
                        ) implies exists|j: int|
                        0 <= j < deleted@.len() && (#[trigger] deleted@[j]).0 == *entries@[a].0 by {
                        if a < i {
                            let j = choose|j: int|
                                0 <= j < listed.len() && (#[trigger] listed[j]).0 == *entries@[a].0;
                            assert(deleted@[j] == listed[j]);
                        } else {
                            assert(deleted@[listed.len() as int].0 == *entries@[a].0);
                        }
                    }
                    assert forall|a: int, b: int|
                        0 <= a < deleted@.len() && 0 <= b < deleted@.len() && a
                            != b implies (#[trigger] deleted@[a]).0 != (#[trigger] deleted@[b]).0 by {
                        if a < listed.len() && b < listed.len() {
                            assert(deleted@[a] == listed[a] && deleted@[b] == listed[b]);
                        } else {
                            let o = if a < listed.len() {
                                a
                            } else {
                                b
                            };
                            assert(deleted@[o] == listed[o]);
                            assert(among(entries@, i as int, listed[o].0));
                        }
                    }
                }
            } else {
                proof {
                    assert forall|j: int| 0 <= j < deleted@.len() implies among(
                        entries@,
                        i + 1,
                        (#[trigger] deleted@[j]).0,
                    ) by {
                        let c = deleted@[j].0;
                        let n = choose|n: int|
                            0 <= n < i && n < entries@.len() && *(#[trigger] entries@[n]).0 == c;
                        assert(0 <= n < i + 1 && n < entries@.len() && *entries@[n].0 == c);
                    }
                }
            }
            proof {
                assert(self.pending@ =~= pending_without_first(
                    old(self).pending@,
                    before,
                    f,
                    entries@,
                    i + 1,
                )) by {
                    assert forall|c: K| true implies among(entries@, i + 1, c) == (among(
                        entries@,
                        i as int,
                        c,
                    ) || c == *k) by {
                        lemma_among_step(entries@, i as int, c);
                    }
                }
                assert(self@ =~= without_first(before, f, entries@, i + 1)) by {
                    assert forall|c: K| self@.contains_key(c) <==> without_first(
                        before,
                        f,
                        entries@,
                        i + 1,
                    ).contains_key(c) by {
                        if c != *k {
                            if among(entries@, i + 1, c) {
                                let j = choose|j: int|
                                    0 <= j < i + 1 && j < entries@.len() && *(#[trigger] entries@[j]).0
                                        == c;
                                assert(among(entries@, i as int, c));
                            }
                            if among(entries@, i as int, c) {
                                let j = choose|j: int|
                                    0 <= j < i && j < entries@.len() && *(#[trigger] entries@[j]).0
                                        == c;
                                assert(0 <= j < i + 1 && j < entries@.len() && *entries@[j].0 == c);
                            }
                        } else {
                            assert(0 <= i < i + 1 && i < entries@.len() && *entries@[i as int].0
                                == c);
                        }
                    }
                }
            }
            i = i + 1;
        }
        proof {
            assert(deleted@.no_duplicates()) by {
                assert forall|a: int, b: int|
                    0 <= a < deleted@.len() && 0 <= b < deleted@.len() && a != b implies deleted@[a]
                    != deleted@[b] by {
                    assert(deleted@[a].0 != deleted@[b].0);
                }
            }
            assert(self.pending@ =~= pending_without(old(self).pending@, before, f)) by {
                assert forall|c: K| before.contains_key(c) implies among(
                    entries@,
                    entries@.len() as int,
                    c,
                ) by {
                    let j = choose|j: int| 0 <= j < entries@.len() && *(#[trigger] entries@[j]).0 == c;
                    assert(0 <= j < entries@.len() && j < entries@.len() && *entries@[j].0 == c);
                }
            }
            assert(self@ =~= without(before, f)) by {
                assert forall|c: K| before.contains_key(c) implies among(
                    entries@,
                    entries@.len() as int,
                    c,
                ) by {
                    let j = choose|j: int| 0 <= j < entries@.len() && *(#[trigger] entries@[j]).0 == c;
                    assert(0 <= j < entries@.len() && j < entries@.len() && *entries@[j].0 == c);
                }
            }
            assert forall|c: K| before.contains_key(c) && outcome(f, c, before[c]) implies exists|
                j: int,
            |
                0 <= j < deleted@.len() && (#[trigger] deleted@[j]).0 == c by {
                let a = choose|a: int| 0 <= a < entries@.len() && *(#[trigger] entries@[a]).0 == c;
                assert(before[*entries@[a].0] == *entries@[a].1);
                assert(outcome(f, *entries@[a].0, *entries@[a].1));
            }
        }
        deleted
    }

    /// Ends the transaction, and returns the changes that the table is to
    /// take: for each pending change of a key that the table held, the
    /// value that it held with the diff -1, and for each pending value, that
    /// value with the diff 1.
    pub fn pending(self) -> (r: Vec<(K, V, Diff)>)
        requires
            self.wf(),
        ensures
            r@.no_duplicates(),
            forall|j: int|
                0 <= j < r@.len() ==> is_change(self.initial@, self.pending@, #[trigger] r@[j]),
            forall|change: (K, V, Diff)|
                is_change(self.initial@, self.pending@, change) ==> r@.contains(change),
    {
        let mut changes: Vec<(K, V, Diff)> = Vec::new();
        let entries = map_entries(&self.pending);
        let mut i: usize = 0;
        while i < entries.len()
            invariant
                i <= entries@.len(),
                self.wf(),
                lists_map(entries@, self.pending@),
                changes@.no_duplicates(),
                forall|j: int| 0 <= j < changes@.len() ==> among(
                    entries@,
                    i as int,
                    (#[trigger] changes@[j]).0,
                ),
                forall|j: int|
                    0 <= j < changes@.len() ==> is_change(
                        self.initial@,
                        self.pending@,
                        #[trigger] changes@[j],
                    ),
                forall|change: (K, V, Diff)|
                    is_change(self.initial@, self.pending@, change) && among(
                        entries@,
                        i as int,
                        change.0,
                    ) ==> changes@.contains(change),
            decreases entries@.len() - i,
        {
            let (k, v) = entries[i];
            let ghost listed = changes@;
            proof {
                assert(self.pending@[*entries@[i as int].0] == *entries@[i as int].1);
            }
            match self.initial.get(k) {
                Some(held) => {
                    let key = k.clone();
                    let value = held.clone();
                    assert(cloned(*k, key) && cloned(*held, value));
                    changes.push((key, value, -1));
                },
                None => {},
            }
            let ghost middle = changes@;
            match v {
                Some(x) => {
                    let key = k.clone();
                    let value = x.clone();
                    assert(cloned(*k, key) && cloned(*x, value));
                    changes.push((key, value, 1));
                },
                None => {},
            }
            proof {
                assert(!among(entries@, i as int, *k)) by {
                    if among(entries@, i as int, *k) {
                        let n = choose|n: int|
                            0 <= n < i && n < entries@.len() && *(#[trigger] entries@[n]).0 == *k;
                        assert(*entries@[n].0 != *entries@[i as int].0);
                    }
                }
                assert forall|j: int| 0 <= j < changes@.len() implies among(
                    entries@,
                    i + 1,
                    (#[trigger] changes@[j]).0,
                ) by {
                    lemma_among_step(entries@, i as int, changes@[j].0);
                    if j < listed.len() {
                        assert(changes@[j] == middle[j]);
                        assert(middle[j] == listed[j]);
                    } else if j < middle.len() {
                        assert(changes@[j] == middle[j]);
                    }
                }
                assert(changes@.no_duplicates()) by {
                    assert forall|a: int, b: int|
                        0 <= a < changes@.len() && 0 <= b < changes@.len() && a
                            != b implies changes@[a] != changes@[b] by {
                        if a < listed.len() && b < listed.len() {
                            assert(changes@[a] == middle[a] && middle[a] == listed[a]);
                            assert(changes@[b] == middle[b] && middle[b] == listed[b]);
                        } else if a < listed.len() {
                            assert(changes@[a] == middle[a] && middle[a] == listed[a]);
                            assert(among(entries@, i as int, listed[a].0));
                            if b < middle.len() {
                                assert(changes@[b] == middle[b]);
                            }
                        } else if b < listed.len() {
                            assert(changes@[b] == middle[b] && middle[b] == listed[b]);
                            assert(among(entries@, i as int, listed[b].0));
                            if a < middle.len() {
                                assert(changes@[a] == middle[a]);
                            }
                        } else {
                            if a < middle.len() {
                                assert(changes@[a] == middle[a]);
                            }
                            if b < middle.len() {
                                assert(changes@[b] == middle[b]);
                            }
                        }
                    }
                }
                assert forall|j: int| 0 <= j < changes@.len() implies is_change(
                    self.initial@,
                    self.pending@,
                    #[trigger] changes@[j],
                ) by {
                    if j < listed.len() {
                        assert(changes@[j] == listed[j]);
                    } else if j < middle.len() {
                        assert(changes@[j] == middle[j]);
                    }
                }
                assert forall|change: (K, V, Diff)|
                    is_change(self.initial@, self.pending@, change) && among(
                        entries@,
                        i + 1,
                        change.0,
                    ) implies changes@.contains(change) by {
                    if among(entries@, i as int, change.0) {
                        assert(listed.contains(change));
                        let j = choose|j: int| 0 <= j < listed.len() && listed[j] == change;
                        assert(middle[j] == listed[j]);
                        assert(changes@[j] == change);
                    } else {
                        let n = choose|n: int|
                            0 <= n < i + 1 && n < entries@.len() && *(#[trigger] entries@[n]).0
                                == change.0;
                        assert(n == i);
                        if change.2 == -1 {
                            assert(middle[listed.len() as int] == change);
                            assert(changes@[listed.len() as int] == change);
                        } else {
                            assert(changes@[middle.len() as int] == change);
                        }
                    }
                }
            }
            i = i + 1;
        }
        proof {
            assert forall|change: (K, V, Diff)|
                is_change(self.initial@, self.pending@, change) implies changes@.contains(
                change,
            ) by {
                let j = choose|j: int|
                    0 <= j < entries@.len() && *(#[trigger] entries@[j]).0 == change.0;
                assert(0 <= j < entries@.len() && j < entries@.len() && *entries@[j].0 == change.0);
            }
        }
        changes
    }
}

/// The pending changes after each item of which `f` makes a value has got
/// that value: those items have the value pending, and every other key is
/// as it was.
pub open spec fn pending_updated<K, V, F: Fn(&K, &V) -> Option<V>>(
    pending: Map<K, Option<V>>,
    items: Map<K, V>,
    f: F,
) -> Map<K, Option<V>> {
    Map::new(
        |k: K| pending.contains_key(k) || changed_keys(items, f).contains(k),
        |k: K|
            if changed_keys(items, f).contains(k) {
                outcome(f, k, items[k])
            } else {
                pending[k]
            },
    )
}

/// The pending changes after `f` was applied to the first `n` of `entries`.
pub open spec fn pending_updated_first<K, V, F: Fn(&K, &V) -> Option<V>>(
    pending: Map<K, Option<V>>,
    items: Map<K, V>,
    f: F,
    entries: Seq<(&K, &V)>,
    n: int,
) -> Map<K, Option<V>> {
    Map::new(
        |k: K| pending.contains_key(k) || (among(entries, n, k) && changed_keys(items, f).contains(k)),
        |k: K|
            if among(entries, n, k) && changed_keys(items, f).contains(k) {
                outcome(f, k, items[k])
            } else {
                pending[k]
            },
    )
}

/// The pending changes after the items of which `f` says so are deleted:
/// those items are pending as deleted, and every other key is as it was.
pub open spec fn pending_without<K, V, F: Fn(&K, &V) -> bool>(
    pending: Map<K, Option<V>>,
    items: Map<K, V>,
    f: F,
) -> Map<K, Option<V>> {
    Map::new(
        |k: K| pending.contains_key(k) || (items.contains_key(k) && outcome(f, k, items[k])),
        |k: K|
            if items.contains_key(k) && outcome(f, k, items[k]) {
                None
            } else {
                pending[k]
            },
    )
}

/// The pending changes after those of the first `n` of `entries` of which
/// `f` says so were deleted.
pub open spec fn pending_without_first<K, V, F: Fn(&K, &V) -> bool>(
    pending: Map<K, Option<V>>,
    items: Map<K, V>,
    f: F,
    entries: Seq<(&K, &V)>,
    n: int,
) -> Map<K, Option<V>> {
    Map::new(
        |k: K|
            pending.contains_key(k) || (among(entries, n, k) && items.contains_key(k) && outcome(
                f,
                k,
                items[k],
            )),
        |k: K|
            if among(entries, n, k) && items.contains_key(k) && outcome(f, k, items[k]) {
                None
            } else {
                pending[k]
            },
    )
}

/// One more entry adds its key to those of the first entries.
pub proof fn lemma_among_step<K, V>(entries: Seq<(&K, &V)>, n: int, k: K)
    requires
        0 <= n < entries.len(),
    ensures
        among(entries, n + 1, k) == (among(entries, n, k) || *entries[n].0 == k),
{
    if among(entries, n + 1, k) {
        let j = choose|j: int| 0 <= j < n + 1 && j < entries.len() && *(#[trigger] entries[j]).0 == k;
        if j < n {
            assert(among(entries, n, k));
        }
    }
    if among(entries, n, k) {
        let j = choose|j: int| 0 <= j < n && j < entries.len() && *(#[trigger] entries[j]).0 == k;
        assert(0 <= j < n + 1 && j < entries.len() && *entries[j].0 == k);
    }
    if *entries[n].0 == k {
        assert(0 <= n < n + 1 && n < entries.len() && *entries[n].0 == k);
    }
}

/// Whether `k` is the key of one of the first `n` of `entries`.
pub open spec fn among<K, V>(entries: Seq<(&K, &V)>, n: int, k: K) -> bool {
    exists|j: int| 0 <= j < n && j < entries.len() && *(#[trigger] entries[j]).0 == k
}

/// What a table holds after `f` was applied to the first `n` of `entries`.
pub open spec fn updated_first<K, V, F: Fn(&K, &V) -> Option<V>>(
    items: Map<K, V>,
    f: F,
    entries: Seq<(&K, &V)>,
    n: int,
) -> Map<K, V> {
    Map::new(
        |k: K| items.contains_key(k),
        |k: K|
            if among(entries, n, k) {
                match outcome(f, k, items[k]) {
                    Some(next) => next,
                    None => items[k],
                }
            } else {
                items[k]
            },
    )
}

/// What a table holds after those of the first `n` of `entries` of which
/// `f` says so were deleted.
pub open spec fn without_first<K, V, F: Fn(&K, &V) -> bool>(
    items: Map<K, V>,
    f: F,
    entries: Seq<(&K, &V)>,
    n: int,
) -> Map<K, V> {
    Map::new(
        |k: K| items.contains_key(k) && !(among(entries, n, k) && outcome(f, k, items[k])),
        |k: K| items[k],
    )
}

/// What a table holds after the value of `k` is set to `v`, or `k` is
/// deleted where `v` is nothing.
pub open spec fn set_as<K, V>(items: Map<K, V>, k: K, v: Option<V>) -> Map<K, V> {
    match v {
        Some(x) => items.insert(k, x),
        None => items.remove(k),
    }
}

impl<K: Ord + Clone, V: Clone, U: Fn(&V, &V) -> bool> TableTransaction<K, V, U> {
    /// Whether `v` breaks the rule of uniqueness with one of `items`.
    pub open spec fn breaks(&self, items: Map<K, V>, v: V) -> bool {
        exists|k: K| items.contains_key(k) && self.violation(#[trigger] items[k], v)
    }
}

/// The id of a collection of the stash.
pub type Id = i64;

/// A time of the stash.
pub type Timestamp = i64;

/// A type of keys or values of a collection: one that can be written out as
/// bytes.
pub trait Data {
    /// The bytes that the value is written out as.
    spec fn encoded(&self) -> Seq<u8>;

    /// Writes the value out.
    fn encode_to_vec(&self) -> (r: Vec<u8>)
        ensures
            r@ == self.encoded(),
    ;
}

impl Data for Vec<u8> {
    open spec fn encoded(&self) -> Seq<u8> {
        self@
    }

    fn encode_to_vec(&self) -> (r: Vec<u8>) {
        let r = self.clone();
        assert(r@ =~= self@);
        r
    }
}

/// A collection of the stash, by its id: a durable collection of keys and
/// values with times and diffs.
#[derive(Debug)]
pub struct StashCollection<K, V> {
    pub id: Id,
    pub _kv: std::marker::PhantomData<(K, V)>,
}

/// Changes to append to a collection of the stash.
#[derive(Debug, PartialEq, Eq)]
pub struct AppendBatch {
    /// The id of the collection.
    pub collection_id: Id,
    /// The upper frontier of the collection now. The collection will be
    /// compacted to it.
    pub lower: Vec<Timestamp>,
    /// The upper frontier of the collection after the batch.
    pub upper: Vec<Timestamp>,
    /// The time of every entry.
    pub timestamp: Timestamp,
    /// The entries to append: key and value as bytes, time, and diff.
    pub entries: Vec<((Vec<u8>, Vec<u8>), Timestamp, Diff)>,
}

impl<K, V> StashCollection<K, V> {
    /// The collection with the given id.
    pub fn new(id: Id) -> (r: Self)
        ensures
            r.id == id,
    {
        StashCollection { id, _kv: std::marker::PhantomData }
    }

    /// A copy of this handle.
    pub fn clone(&self) -> (r: Self)
        ensures
            r.id == self.id,
    {
        Self::new(self.id)
    }

    /// An empty batch for this collection, from its upper frontier `lower`.
    /// The frontier must hold one time, which becomes the time of the batch,
    /// and that time must have a next one.
    pub fn make_batch_lower(&self, lower: Vec<Timestamp>) -> (r: Result<AppendBatch, StashError>)
        ensures
            match r {
                Ok(batch) => {
                    &&& lower@.len() == 1
                    &&& lower@[0] < i64::MAX
                    &&& batch.collection_id == self.id
                    &&& batch.lower@ == lower@
                    &&& batch.upper@ == seq![(lower@[0] + 1) as i64]
                    &&& batch.timestamp == lower@[0]
                    &&& batch.entries@.len() == 0
                },
                Err(e) => e.inner matches InternalStashError::Other(m) && if lower@.len() != 1 {
                    m@ == "cannot determine batch timestamp"@
                } else {
                    lower@[0] == i64::MAX && m@ == "cannot determine new upper"@
                },
            },
    {
        if lower.len() != 1 {
            return Err(StashError::from_message("cannot determine batch timestamp"));
        }
        let timestamp: i64 = lower[0];
        if timestamp == i64::MAX {
            return Err(StashError::from_message("cannot determine new upper"));
        }
        let mut upper: Vec<i64> = Vec::new();
        upper.push(timestamp + 1);
        Ok(AppendBatch { collection_id: self.id, lower, upper, timestamp, entries: Vec::new() })
    }
}

impl<K: Data, V: Data> StashCollection<K, V> {
    /// Appends `key`, `value` and `diff` to `batch`, at the time of the
    /// batch.
    pub fn append_to_batch(&self, batch: &mut AppendBatch, key: &K, value: &V, diff: Diff)
        ensures
            final(batch).collection_id == old(batch).collection_id,
            final(batch).lower == old(batch).lower,
            final(batch).upper == old(batch).upper,
            final(batch).timestamp == old(batch).timestamp,
            final(batch).entries@.len() == old(batch).entries@.len() + 1,
            final(batch).entries@.drop_last() == old(batch).entries@,
            final(batch).entries@.last().0.0@ == key.encoded(),
            final(batch).entries@.last().0.1@ == value.encoded(),
            final(batch).entries@.last().1 == old(batch).timestamp,
            final(batch).entries@.last().2 == diff,
    {
        let key = key.encode_to_vec();
        let val = value.encode_to_vec();
        let timestamp = batch.timestamp;
        batch.entries.push(((key, val), timestamp, diff));
        assert(batch.entries@.drop_last() =~= old(batch).entries@);
    }
}

/// The name of a collection of the stash, with the types of its keys and
/// values.
pub struct TypedCollection<K, V> {
    pub name: &'static str,
    pub typ: std::marker::PhantomData<(K, V)>,
}

impl<K, V> TypedCollection<K, V> {
    /// The collection with the given name.
    pub fn new(name: &'static str) -> (r: Self)
        ensures
            r.name@ == name@,
    {
        TypedCollection { name, typ: std::marker::PhantomData }
    }

    /// The name of the collection.
    pub fn name(&self) -> (r: &'static str)
        ensures
            r@ == self.name@,
    {
        self.name
    }
}

} // verus!
