//! A map from names to values, kept as a list in ascending order of the
//! names.
use vstd::prelude::*;
use vstd::utf8::{decode_utf8, encode_utf8, encode_utf8_decode_utf8};

verus! {

/// Whether `a` and `b` agree in their first `i` bytes, and there `a` ends
/// and `b` goes on, or `a` has the lesser byte.
pub open spec fn differs_at(a: Seq<u8>, b: Seq<u8>, i: int) -> bool {
    &&& 0 <= i <= a.len()
    &&& i <= b.len()
    &&& forall|j: int| 0 <= j < i ==> a[j] == b[j]
    &&& (i == a.len() && i < b.len()) || (i < a.len() && i < b.len() && a[i] < b[i])
}

/// Whether `a` comes before `b` in the order of strings: byte by byte.
pub open spec fn bytes_before(a: Seq<u8>, b: Seq<u8>) -> bool {
    exists|i: int| differs_at(a, b, i)
}

/// Whether the name `a` comes before the name `b`: in the order of their
/// bytes, which is the order of strings.
pub open spec fn name_before(a: Seq<char>, b: Seq<char>) -> bool {
    bytes_before(encode_utf8(a), encode_utf8(b))
}

/// The order of strings is a strict total order.
pub proof fn lemma_bytes_order(a: Seq<u8>, b: Seq<u8>, c: Seq<u8>)
    ensures
        !bytes_before(a, a),
        bytes_before(a, b) && bytes_before(b, c) ==> bytes_before(a, c),
        a != b ==> bytes_before(a, b) || bytes_before(b, a),
{
    if bytes_before(a, b) && bytes_before(b, c) {
        let i = choose|i: int| differs_at(a, b, i);
        let j = choose|j: int| differs_at(b, c, j);
        if i <= j {
            assert(differs_at(a, c, i));
        } else {
            assert(differs_at(a, c, j));
        }
    }
    if a != b {
        lemma_bytes_differ(a, b, 0);
    }
}

/// Two strings that are not the same differ at some place.
pub proof fn lemma_bytes_differ(a: Seq<u8>, b: Seq<u8>, i: int)
    requires
        a != b,
        0 <= i <= a.len(),
        i <= b.len(),
        forall|j: int| 0 <= j < i ==> a[j] == b[j],
    ensures
        bytes_before(a, b) || bytes_before(b, a),
    decreases a.len() - i,
{
    if i == a.len() {
        if i == b.len() {
            assert(a =~= b);
        } else {
            assert(differs_at(a, b, i));
        }
    } else if i == b.len() {
        assert(differs_at(b, a, i));
    } else if a[i] < b[i] {
        assert(differs_at(a, b, i));
    } else if b[i] < a[i] {
        assert(differs_at(b, a, i));
    } else {
        lemma_bytes_differ(a, b, i + 1);
    }
}

/// The order of names is a strict total order.
pub proof fn lemma_name_order(a: Seq<char>, b: Seq<char>, c: Seq<char>)
    ensures
        !name_before(a, a),
        name_before(a, b) && name_before(b, c) ==> name_before(a, c),
        a != b ==> name_before(a, b) || name_before(b, a),
{
    lemma_bytes_order(encode_utf8(a), encode_utf8(b), encode_utf8(c));
    if a != b {
        encode_utf8_decode_utf8(a);
        encode_utf8_decode_utf8(b);
        assert(encode_utf8(a) != encode_utf8(b)) by {
            if encode_utf8(a) == encode_utf8(b) {
                assert(decode_utf8(encode_utf8(a)) == decode_utf8(encode_utf8(b)));
            }
        }
    }
}

/// Whether the name `a` comes before the name `b`.
pub fn name_less(a: &str, b: &str) -> (r: bool)
    ensures
        r == name_before(a@, b@),
{
    let x = a.as_bytes();
    let y = b.as_bytes();
    let mut i: usize = 0;
    while i < x.len() && i < y.len()
        invariant
            i <= x@.len(),
            i <= y@.len(),
            x@ == encode_utf8(a@),
            y@ == encode_utf8(b@),
            forall|j: int| 0 <= j < i ==> x@[j] == y@[j],
        decreases x@.len() - i,
    {
        if x[i] != y[i] {
            proof {
                if x@[i as int] < y@[i as int] {
                    assert(differs_at(x@, y@, i as int));
                } else {
                    assert(differs_at(y@, x@, i as int));
                    lemma_bytes_order(x@, y@, x@);
                }
            }
            return x[i] < y[i];
        }
        i = i + 1;
    }
    proof {
        if i < y@.len() {
            assert(differs_at(x@, y@, i as int));
        } else {
            if bytes_before(x@, y@) {
                let k = choose|k: int| differs_at(x@, y@, k);
                assert(false);
            }
        }
    }
    i < y.len()
}

/// Whether the items of `items` stand in ascending order of their names.
pub open spec fn names_sorted<V>(items: Seq<(String, V)>) -> bool {
    forall|i: int, j: int|
        0 <= i < j < items.len() ==> name_before(
            (#[trigger] items[i]).0@,
            (#[trigger] items[j]).0@,
        )
}

/// Whether no two items of `items` have the same name.
pub open spec fn names_distinct<V>(items: Seq<(String, V)>) -> bool {
    forall|i: int, j: int|
        0 <= i < items.len() && 0 <= j < items.len() && i != j ==> (#[trigger] items[i]).0@
            != (#[trigger] items[j]).0@
}

/// Whether one of `items` has the name `name`.
pub open spec fn has_name<V>(items: Seq<(String, V)>, name: Seq<char>) -> bool {
    exists|i: int| 0 <= i < items.len() && (#[trigger] items[i]).0@ == name
}

/// The place of the item of `items` that has the name `name`.
pub open spec fn place_of<V>(items: Seq<(String, V)>, name: Seq<char>) -> int {
    choose|i: int| 0 <= i < items.len() && (#[trigger] items[i]).0@ == name
}

/// The map from names to values that `items` stands for.
pub open spec fn as_map<V>(items: Seq<(String, V)>) -> Map<Seq<char>, V> {
    Map::new(|name: Seq<char>| has_name(items, name), |name: Seq<char>| items[place_of(items, name)].1)
}

/// With distinct names, the item at a place is the one that its name maps
/// to.
pub proof fn lemma_place<V>(items: Seq<(String, V)>, i: int)
    requires
        names_distinct(items),
        0 <= i < items.len(),
    ensures
        has_name(items, items[i].0@),
        place_of(items, items[i].0@) == i,
        as_map(items)[items[i].0@] == items[i].1,
{
    assert(has_name(items, items[i].0@));
    let p = place_of(items, items[i].0@);
    assert(items[p].0@ == items[i].0@);
}

/// A map from names to values, as a list of names with their values.
pub struct NamedList<V> {
    pub items: Vec<(String, V)>,
}

impl<V> View for NamedList<V> {
    type V = Map<Seq<char>, V>;

    open spec fn view(&self) -> Map<Seq<char>, V> {
        as_map(self.items@)
    }
}

impl<V> NamedList<V> {
    /// The names ascend, and so none occurs twice.
    pub open spec fn wf(&self) -> bool {
        names_distinct(self.items@) && names_sorted(self.items@)
    }

    /// The items in ascending order of their names.
    pub open spec fn items_view(&self) -> Seq<(String, V)> {
        self.items@
    }

    /// The empty map.
    pub fn new() -> (r: NamedList<V>)
        ensures
            r@ == Map::<Seq<char>, V>::empty(),
            r.items_view().len() == 0,
            r.wf(),
    {
        let r = NamedList { items: Vec::new() };
        assert(r@ =~= Map::empty());
        r
    }

    /// The number of names.
    pub fn len(&self) -> (r: usize)
        requires
            self.wf(),
        ensures
            r == self.items_view().len(),
            r == self@.dom().len(),
            self@.dom().finite(),
    {
        proof {
            lemma_dom_len(self.items@);
        }
        self.items.len()
    }

    /// The place of `name`, if it is there.
    pub fn find(&self, name: &str) -> (r: Option<usize>)
        requires
            self.wf(),
        ensures
            match r {
                Some(i) => i < self.items@.len() && self.items@[i as int].0@ == name@
                    && self@.contains_key(name@) && self@[name@] == self.items@[i as int].1,
                None => !self@.contains_key(name@),
            },
    {
        let wanted = name.to_owned();
        let mut i: usize = 0;
        while i < self.items.len()
            invariant
                i <= self.items@.len(),
                self.wf(),
                wanted@ == name@,
                forall|k: int| 0 <= k < i ==> (#[trigger] self.items@[k]).0@ != name@,
            decreases self.items@.len() - i,
        {
            if self.items[i].0 == wanted {
                proof {
                    lemma_place(self.items@, i as int);
                }
                return Some(i);
            }
            i = i + 1;
        }
        None
    }

    /// Whether `name` is there.
    pub fn contains(&self, name: &str) -> (r: bool)
        requires
            self.wf(),
        ensures
            r == self@.contains_key(name@),
    {
        self.find(name).is_some()
    }

    /// The value of `name`, if it is there.
    pub fn get(&self, name: &str) -> (r: Option<&V>)
        requires
            self.wf(),
        ensures
            match r {
                Some(v) => self@.contains_key(name@) && *v == self@[name@],
                None => !self@.contains_key(name@),
            },
    {
        match self.find(name) {
            Some(i) => Some(&self.items[i].1),
            None => None,
        }
    }

    /// Gives `name` the value `value`. Returns the value that it had.
    pub fn insert(&mut self, name: String, value: V) -> (r: Option<V>)
        requires
            old(self).wf(),
        ensures
            final(self).wf(),
            final(self)@ == old(self)@.insert(name@, value),
            match r {
                Some(v) => old(self)@.contains_key(name@) && v == old(self)@[name@]
                    && final(self).items_view().len() == old(self).items_view().len(),
                None => !old(self)@.contains_key(name@) && final(self).items_view().len() == old(
                    self,
                ).items_view().len() + 1,
            },
    {
        let ghost before = self.items@;
        match self.find(name.as_str()) {
            Some(i) => {
                let (kept, previous) = self.items.remove(i);
                self.items.insert(i, (kept, value));
                proof {
                    let after = self.items@;
                    assert(after =~= before.update(i as int, (kept, value)));
                    assert(names_distinct(after)) by {
                        assert forall|a: int, b: int|
                            0 <= a < after.len() && 0 <= b < after.len() && a
                                != b implies (#[trigger] after[a]).0@ != (#[trigger] after[b]).0@ by {
                            assert(after[a].0@ == before[a].0@);
                            assert(after[b].0@ == before[b].0@);
                        }
                    }
                    assert(names_sorted(after)) by {
                        assert forall|a: int, b: int| 0 <= a < b < after.len() implies name_before(
                            (#[trigger] after[a]).0@,
                            (#[trigger] after[b]).0@,
                        ) by {
                            assert(after[a].0@ == before[a].0@);
                            assert(after[b].0@ == before[b].0@);
                            assert(name_before(before[a].0@, before[b].0@));
                        }
                    }
                    assert forall|n: Seq<char>| has_name(after, n) <==> has_name(before, n) by {
                        if has_name(after, n) {
                            let k = choose|k: int|
                                0 <= k < after.len() && (#[trigger] after[k]).0@ == n;
                            assert(before[k].0@ == n);
                        }
                        if has_name(before, n) {
                            let k = choose|k: int|
                                0 <= k < before.len() && (#[trigger] before[k]).0@ == n;
                            assert(after[k].0@ == n);
                        }
                    }
                    assert forall|n: Seq<char>| has_name(after, n) implies as_map(after)[n]
                        == as_map(before).insert(name@, value)[n] by {
                        let k = place_of(after, n);
                        lemma_place(after, k);
                        lemma_place(before, k);
                    }
                    assert(as_map(after) =~= as_map(before).insert(name@, value));
                }
                Some(previous)
            },
            None => {
                let mut p: usize = 0;
                while p < self.items.len() && name_less(self.items[p].0.as_str(), name.as_str())
                    invariant
                        p <= self.items@.len(),
                        self.items@ == before,
                        forall|k: int| 0 <= k < p ==> name_before((#[trigger] before[k]).0@, name@),
                    decreases self.items@.len() - p,
                {
                    p = p + 1;
                }
                proof {
                    assert forall|k: int| p <= k < before.len() implies name_before(
                        name@,
                        (#[trigger] before[k]).0@,
                    ) by {
                        assert(before[p as int].0@ != name@) by {
                            assert(has_name(before, before[p as int].0@));
                        }
                        lemma_name_order(before[p as int].0@, name@, before[k].0@);
                        lemma_name_order(name@, before[p as int].0@, before[k].0@);
                        if k > p {
                            assert(name_before(before[p as int].0@, before[k].0@));
                        }
                    }
                }
                self.items.insert(p, (name, value));
                proof {
                    let after = self.items@;
                    assert(after =~= before.insert(p as int, (name, value)));
                    assert forall|k: int| 0 <= k < after.len() implies (#[trigger] after[k]) == (if k
                        < p {
                        before[k]
                    } else if k == p {
                        (name, value)
                    } else {
                        before[k - 1]
                    }) by {}
                    assert(names_sorted(after)) by {
                        assert forall|a: int, b: int| 0 <= a < b < after.len() implies name_before(
                            (#[trigger] after[a]).0@,
                            (#[trigger] after[b]).0@,
                        ) by {
                            if b < p {
                                assert(name_before(before[a].0@, before[b].0@));
                            } else if b == p {
                                assert(name_before(before[a].0@, name@));
                            } else if a < p {
                                assert(name_before(before[a].0@, before[b - 1].0@));
                            } else if a == p {
                                assert(name_before(name@, before[b - 1].0@));
                            } else {
                                assert(name_before(before[a - 1].0@, before[b - 1].0@));
                            }
                        }
                    }
                    assert(names_distinct(after)) by {
                        assert forall|a: int, b: int|
                            0 <= a < after.len() && 0 <= b < after.len() && a
                                != b implies (#[trigger] after[a]).0@ != (#[trigger] after[b]).0@ by {
                            lemma_name_order(after[a].0@, after[a].0@, after[a].0@);
                            if a < b {
                                assert(name_before(after[a].0@, after[b].0@));
                            } else {
                                assert(name_before(after[b].0@, after[a].0@));
                            }
                        }
                    }
                    assert forall|n: Seq<char>| has_name(after, n) <==> (has_name(before, n) || n
                        == name@) by {
                        if has_name(after, n) {
                            let k = choose|k: int|
                                0 <= k < after.len() && (#[trigger] after[k]).0@ == n;
                            if k < p {
                                assert(before[k].0@ == n);
                            } else if k > p {
                                assert(before[k - 1].0@ == n);
                            }
                        }
                        if has_name(before, n) {
                            let k = choose|k: int|
                                0 <= k < before.len() && (#[trigger] before[k]).0@ == n;
                            if k < p {
                                assert(after[k].0@ == n);
                            } else {
                                assert(after[k + 1].0@ == n);
                            }
                        }
                        if n == name@ {
                            assert(after[p as int].0@ == n);
                        }
                    }
                    assert forall|n: Seq<char>| has_name(after, n) implies as_map(after)[n]
                        == as_map(before).insert(name@, value)[n] by {
                        let k = place_of(after, n);
                        lemma_place(after, k);
                        if k < p {
                            assert(after[k] == before[k]);
                            lemma_place(before, k);
                        } else if k > p {
                            assert(after[k] == before[k - 1]);
                            lemma_place(before, k - 1);
                        }
                    }
                    assert(as_map(after) =~= as_map(before).insert(name@, value));
                }
                None
            },
        }
    }

    /// The names and values, in ascending order of the names.
    pub fn items(&self) -> (r: &Vec<(String, V)>)
        ensures
            r@ == self.items_view(),
            self@ == as_map(r@),
    {
        &self.items
    }
}

/// With distinct names there are as many names as items.
pub proof fn lemma_dom_len<V>(items: Seq<(String, V)>)
    requires
        names_distinct(items),
    ensures
        as_map(items).dom().finite(),
        as_map(items).dom().len() == items.len(),
    decreases items.len(),
{
    if items.len() == 0 {
        assert(as_map(items).dom() =~= Set::empty());
    } else {
        let rest = items.drop_last();
        let last = items.last();
        assert(names_distinct(rest)) by {
            assert forall|i: int, j: int|
                0 <= i < rest.len() && 0 <= j < rest.len() && i != j implies (#[trigger] rest[i]).0@
                != (#[trigger] rest[j]).0@ by {
                assert(rest[i] == items[i] && rest[j] == items[j]);
            }
        }
        lemma_dom_len(rest);
        assert(!as_map(rest).dom().contains(last.0@)) by {
            if has_name(rest, last.0@) {
                let k = choose|k: int| 0 <= k < rest.len() && (#[trigger] rest[k]).0@ == last.0@;
                assert(rest[k] == items[k]);
                assert(items[items.len() - 1] == last);
            }
        }
        assert(as_map(items).dom() =~= as_map(rest).dom().insert(last.0@)) by {
            assert forall|n: Seq<char>| has_name(items, n) <==> (has_name(rest, n) || n
                == last.0@) by {
                if has_name(items, n) {
                    let k = choose|k: int| 0 <= k < items.len() && (#[trigger] items[k]).0@ == n;
                    if k < rest.len() {
                        assert(rest[k] == items[k]);
                    }
                }
                if has_name(rest, n) {
                    let k = choose|k: int| 0 <= k < rest.len() && (#[trigger] rest[k]).0@ == n;
                    assert(items[k] == rest[k]);
                }
                if n == last.0@ {
                    assert(items[items.len() - 1].0@ == n);
                }
            }
        }
    }
}

} // verus!
