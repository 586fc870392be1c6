//! Ordered collections keyed by name.

use crate::order;
use crate::text;
use vstd::prelude::*;

verus! {

/// Inserting a key that belongs at `at` keeps the list strictly ascending.
proof fn lemma_insert_sorted(l: Seq<Seq<char>>, at: int, k: Seq<char>)
    requires
        order::sorted(l),
        0 <= at <= l.len(),
        forall|i: int| 0 <= i < at ==> order::text_lt(#[trigger] l[i], k),
        forall|i: int| at <= i < l.len() ==> order::text_lt(k, #[trigger] l[i]),
    ensures
        order::sorted(l.insert(at, k)),
        l.insert(at, k).to_set() == l.to_set().insert(k),
{
    let m = l.insert(at, k);
    assert forall|i: int, j: int| 0 <= i < j < m.len() implies order::text_lt(
        #[trigger] m[i],
        #[trigger] m[j],
    ) by {
        if j < at {
            assert(m[i] == l[i] && m[j] == l[j]);
        } else if j == at {
            assert(m[i] == l[i]);
        } else if i < at {
            assert(m[i] == l[i] && m[j] == l[j - 1]);
        } else if i == at {
            assert(m[j] == l[j - 1]);
        } else {
            assert(m[i] == l[i - 1] && m[j] == l[j - 1]);
        }
    }
    assert(m.to_set() =~= l.to_set().insert(k)) by {
        assert forall|z: Seq<char>| m.to_set().contains(z) <==> l.to_set().insert(k).contains(z) by {
            if m.contains(z) {
                let i = choose|i: int| 0 <= i < m.len() && m[i] == z;
                if i < at {
                    assert(l[i] == z);
                } else if i > at {
                    assert(l[i - 1] == z);
                }
            }
            if l.contains(z) {
                let i = choose|i: int| 0 <= i < l.len() && l[i] == z;
                if i < at {
                    assert(m[i] == z);
                } else {
                    assert(m[i + 1] == z);
                }
            }
            assert(m[at] == k);
        }
    }
}

/// Removing one element keeps the list strictly ascending.
proof fn lemma_remove_sorted(l: Seq<Seq<char>>, at: int)
    requires
        order::sorted(l),
        0 <= at < l.len(),
    ensures
        order::sorted(l.remove(at)),
        l.remove(at).to_set() == l.to_set().remove(l[at]),
{
    let m = l.remove(at);
    order::lemma_sorted_distinct(l);
    assert forall|i: int, j: int| 0 <= i < j < m.len() implies order::text_lt(
        #[trigger] m[i],
        #[trigger] m[j],
    ) by {
        let a = if i < at {
            i
        } else {
            i + 1
        };
        let b = if j < at {
            j
        } else {
            j + 1
        };
        assert(m[i] == l[a] && m[j] == l[b]);
    }
    assert(m.to_set() =~= l.to_set().remove(l[at])) by {
        assert forall|z: Seq<char>|
            m.to_set().contains(z) <==> l.to_set().remove(l[at]).contains(z) by {
            if m.contains(z) {
                let i = choose|i: int| 0 <= i < m.len() && m[i] == z;
                if i < at {
                    assert(l[i] == z);
                } else {
                    assert(l[i + 1] == z);
                }
            }
            if l.contains(z) && z != l[at] {
                let i = choose|i: int| 0 <= i < l.len() && l[i] == z;
                if i < at {
                    assert(m[i] == z);
                } else {
                    assert(m[i - 1] == z);
                }
            }
        }
    }
}

/// A set of names, kept in ascending order.
#[derive(Debug)]
pub struct NameSet {
    items: Vec<String>,
}

impl View for NameSet {
    type V = Set<Seq<char>>;

    closed spec fn view(&self) -> Set<Seq<char>> {
        text::texts(self.items@).to_set()
    }
}

impl NameSet {
    #[verifier::type_invariant]
    spec fn inv(self) -> bool {
        order::sorted(text::texts(self.items@))
    }

    /// A set of names is finite.
    pub proof fn lemma_finite(&self)
        ensures
            self@.finite(),
    {
        vstd::seq_lib::seq_to_set_is_finite(text::texts(self.items@));
    }

    /// The empty set.
    pub fn new() -> (r: NameSet)
        ensures
            r@ == Set::<Seq<char>>::empty(),
    {
        let items: Vec<String> = Vec::new();
        proof {
            assert(text::texts(items@).to_set() =~= Set::<Seq<char>>::empty());
        }
        NameSet { items }
    }

    /// The names in ascending order.
    pub fn names(&self) -> (r: &Vec<String>)
        ensures
            order::sorted(text::texts(r@)),
            text::texts(r@).to_set() == self@,
            text::texts(r@) == order::sorted_list(self@),
    {
        proof {
            use_type_invariant(self);
            order::lemma_sorted_list(text::texts(self.items@));
        }
        &self.items
    }

    /// Whether the set holds `name`.
    pub fn contains(&self, name: &str) -> (r: bool)
        ensures
            r == self@.contains(name@),
    {
        proof {
            use_type_invariant(self);
        }
        order::position(&self.items, name).1
    }

    /// The number of names.
    pub fn len(&self) -> (r: usize)
        ensures
            self@.finite(),
            r == self@.len(),
    {
        proof {
            use_type_invariant(self);
            order::lemma_sorted_distinct(text::texts(self.items@));
            text::texts(self.items@).unique_seq_to_set();
        }
        self.items.len()
    }

    /// Whether the set holds no name.
    pub fn is_empty(&self) -> (r: bool)
        ensures
            r == (self@ == Set::<Seq<char>>::empty()),
    {
        proof {
            let l = text::texts(self.items@);
            if l.len() > 0 {
                assert(l.contains(l[0]));
                assert(self@.contains(l[0]));
            } else {
                assert(self@ =~= Set::<Seq<char>>::empty());
            }
        }
        self.items.len() == 0
    }

    /// Adds `name`. Returns whether it was not there before.
    pub fn insert(&mut self, name: String) -> (r: bool)
        ensures
            final(self)@ == old(self)@.insert(name@),
            r == !old(self)@.contains(name@),
    {
        proof {
            use_type_invariant(&*self);
        }
        let mut items: Vec<String> = Vec::new();
        std::mem::swap(&mut items, &mut self.items);
        let ghost before = text::texts(items@);
        let (at, found) = order::position(&items, name.as_str());
        if !found {
            items.insert(at, name);
            proof {
                assert(text::texts(items@) =~= before.insert(at as int, name@));
                lemma_insert_sorted(before, at as int, name@);
            }
        } else {
            proof {
                assert(before.to_set().insert(name@) =~= before.to_set());
            }
        }
        self.items = items;
        !found
    }

    /// The names of either set.
    pub fn union(&self, other: &NameSet) -> (r: NameSet)
        ensures
            r@ == self@.union(other@),
    {
        let mut out = self.clone();
        let names = other.names();
        let ghost list = text::texts(names@);
        let mut i: usize = 0;
        proof {
            assert(list.take(0).to_set() =~= Set::<Seq<char>>::empty());
            assert(out@ =~= self@.union(list.take(0).to_set()));
        }
        while i < names.len()
            invariant
                i <= names@.len(),
                list == text::texts(names@),
                out@ == self@.union(list.take(i as int).to_set()),
            decreases names@.len() - i,
        {
            out.insert(names[i].clone());
            proof {
                assert(list.take(i + 1) =~= list.take(i as int).push(list[i as int]));
                list.take(i as int).lemma_push_to_set_commute(list[i as int]);
                assert(out@ =~= self@.union(list.take(i + 1).to_set()));
            }
            i += 1;
        }
        proof {
            assert(list.take(list.len() as int) =~= list);
        }
        out
    }

    /// The names of this set that are not in the other.
    pub fn difference(&self, other: &NameSet) -> (r: NameSet)
        ensures
            r@ == self@.difference(other@),
    {
        let mut out = NameSet::new();
        let names = self.names();
        let ghost list = text::texts(names@);
        let mut i: usize = 0;
        proof {
            assert(list.take(0).to_set() =~= Set::<Seq<char>>::empty());
            assert(out@ =~= list.take(0).to_set().difference(other@));
        }
        while i < names.len()
            invariant
                i <= names@.len(),
                list == text::texts(names@),
                out@ == list.take(i as int).to_set().difference(other@),
            decreases names@.len() - i,
        {
            if !other.contains(names[i].as_str()) {
                out.insert(names[i].clone());
            }
            proof {
                assert(list.take(i + 1) =~= list.take(i as int).push(list[i as int]));
                list.take(i as int).lemma_push_to_set_commute(list[i as int]);
                assert(out@ =~= list.take(i + 1).to_set().difference(other@));
            }
            i += 1;
        }
        proof {
            assert(list.take(list.len() as int) =~= list);
        }
        out
    }

    /// The names in ascending order, by value.
    pub fn to_list(&self) -> (r: Vec<String>)
        ensures
            text::texts(r@) == order::sorted_list(self@),
            order::sorted(text::texts(r@)),
            text::texts(r@).to_set() == self@,
    {
        let names = self.names();
        let mut out: Vec<String> = Vec::new();
        let mut i: usize = 0;
        while i < names.len()
            invariant
                i <= names@.len(),
                text::texts(out@) == text::texts(names@).take(i as int),
            decreases names@.len() - i,
        {
            let ghost before = text::texts(out@);
            out.push(names[i].clone());
            proof {
                assert(text::texts(out@) =~= before.push(names@[i as int]@));
                assert(text::texts(out@) =~= text::texts(names@).take(i + 1));
            }
            i += 1;
        }
        proof {
            assert(text::texts(out@) =~= text::texts(names@));
        }
        out
    }
}

impl Clone for NameSet {
    fn clone(&self) -> (r: NameSet)
        ensures
            r@ == self@,
    {
        let items = self.to_list();
        NameSet { items }
    }
}

impl Default for NameSet {
    fn default() -> (r: NameSet)
        ensures
            r@ == Set::<Seq<char>>::empty(),
    {
        NameSet::new()
    }
}

/// A map from names to values, kept in ascending order of the names.
#[derive(Debug)]
pub struct NameMap<V> {
    keys: Vec<String>,
    values: Vec<V>,
}

/// The map whose keys are `keys`, the value of each at the same index.
pub open spec fn zipped<V>(keys: Seq<Seq<char>>, values: Seq<V>) -> Map<Seq<char>, V> {
    Map::new(|k: Seq<char>| keys.contains(k), |k: Seq<char>| values[keys.index_of(k)])
}

/// What a key of a strictly ascending list is mapped to.
proof fn lemma_zipped_at<V>(keys: Seq<Seq<char>>, values: Seq<V>, i: int)
    requires
        order::sorted(keys),
        0 <= i < keys.len(),
    ensures
        zipped(keys, values).dom().contains(keys[i]),
        zipped(keys, values)[keys[i]] == values[i],
{
    order::lemma_sorted_distinct(keys);
    assert(keys.contains(keys[i]));
    assert(keys.index_of(keys[i]) == i);
}

impl<V> View for NameMap<V> {
    type V = Map<Seq<char>, V>;

    closed spec fn view(&self) -> Map<Seq<char>, V> {
        zipped(text::texts(self.keys@), self.values@)
    }
}

impl<V> NameMap<V> {
    #[verifier::type_invariant]
    spec fn inv(self) -> bool {
        &&& order::sorted(text::texts(self.keys@))
        &&& self.keys@.len() == self.values@.len()
    }

    /// The empty map.
    pub fn new() -> (r: NameMap<V>)
        ensures
            r@ == Map::<Seq<char>, V>::empty(),
    {
        let keys: Vec<String> = Vec::new();
        let values: Vec<V> = Vec::new();
        proof {
            assert(zipped(text::texts(keys@), values@) =~= Map::<Seq<char>, V>::empty());
        }
        NameMap { keys, values }
    }

    /// The names in ascending order.
    pub fn keys(&self) -> (r: &Vec<String>)
        ensures
            order::sorted(text::texts(r@)),
            text::texts(r@).to_set() == self@.dom(),
            text::texts(r@) == order::sorted_list(self@.dom()),
    {
        proof {
            use_type_invariant(self);
            let l = text::texts(self.keys@);
            assert(l.to_set() =~= self@.dom());
            order::lemma_sorted_list(l);
        }
        &self.keys
    }

    /// Whether `name` has a value.
    pub fn contains_key(&self, name: &str) -> (r: bool)
        ensures
            r == self@.dom().contains(name@),
    {
        proof {
            use_type_invariant(self);
        }
        order::position(&self.keys, name).1
    }

    /// The value of `name`, if it has one.
    pub fn get(&self, name: &str) -> (r: Option<&V>)
        ensures
            match r {
                Some(v) => self@.dom().contains(name@) && *v == self@[name@],
                None => !self@.dom().contains(name@),
            },
    {
        proof {
            use_type_invariant(self);
        }
        let (at, found) = order::position(&self.keys, name);
        if found {
            proof {
                lemma_zipped_at(text::texts(self.keys@), self.values@, at as int);
            }
            Some(&self.values[at])
        } else {
            None
        }
    }

    /// Whether the map is empty.
    pub fn is_empty(&self) -> (r: bool)
        ensures
            r == (self@.dom() == Set::<Seq<char>>::empty()),
    {
        proof {
            let l = text::texts(self.keys@);
            if l.len() > 0 {
                assert(l.contains(l[0]));
                assert(self@.dom().contains(l[0]));
            } else {
                assert(self@.dom() =~= Set::<Seq<char>>::empty());
            }
        }
        self.keys.len() == 0
    }

    /// Gives `name` the value `value`, in place of any it had.
    pub fn insert(&mut self, name: String, value: V)
        ensures
            final(self)@ == old(self)@.insert(name@, value),
    {
        proof {
            use_type_invariant(&*self);
        }
        let mut other: NameMap<V> = NameMap::new();
        std::mem::swap(&mut other, self);
        let NameMap { mut keys, mut values } = other;
        let ghost list = text::texts(keys@);
        let ghost vals = values@;
        let (at, found) = order::position(&keys, name.as_str());
        if found {
            values.set(at, value);
            proof {
                let m = zipped(list, vals).insert(name@, value);
                assert forall|k: Seq<char>| list.contains(k) implies zipped(list, values@)[k]
                    == m[k] by {
                    let i = list.index_of(k);
                    lemma_zipped_at(list, values@, i);
                    lemma_zipped_at(list, vals, i);
                    order::lemma_sorted_distinct(list);
                    assert(list[at as int] == name@);
                    assert(list[i] == k);
                }
                assert(zipped(list, values@) =~= m);
            }
        } else {
            keys.insert(at, name);
            values.insert(at, value);
            proof {
                let now = list.insert(at as int, name@);
                assert(text::texts(keys@) =~= now);
                lemma_insert_sorted(list, at as int, name@);
                let m = zipped(list, vals).insert(name@, value);
                assert forall|k: Seq<char>| now.contains(k) <==> m.dom().contains(k) by {
                    assert(now.to_set().contains(k) == now.contains(k));
                    assert(list.to_set().contains(k) == list.contains(k));
                }
                assert forall|k: Seq<char>| now.contains(k) implies zipped(now, values@)[k]
                    == m[k] by {
                    let i = now.index_of(k);
                    lemma_zipped_at(now, values@, i);
                    if i < at {
                        assert(list[i] == k);
                        lemma_zipped_at(list, vals, i);
                    } else if i > at {
                        assert(list[i - 1] == k);
                        lemma_zipped_at(list, vals, i - 1);
                    }
                    order::lemma_sorted_distinct(now);
                    assert(now[at as int] == name@);
                }
                assert(zipped(now, values@) =~= m);
            }
        }
        *self = NameMap { keys, values };
    }

    /// Takes `name` out of the map. Returns the value it had.
    pub fn remove(&mut self, name: &str) -> (r: Option<V>)
        ensures
            final(self)@ == old(self)@.remove(name@),
            match r {
                Some(v) => old(self)@.dom().contains(name@) && v == old(self)@[name@],
                None => !old(self)@.dom().contains(name@),
            },
    {
        proof {
            use_type_invariant(&*self);
        }
        let mut other: NameMap<V> = NameMap::new();
        std::mem::swap(&mut other, self);
        let NameMap { mut keys, mut values } = other;
        let ghost list = text::texts(keys@);
        let ghost vals = values@;
        let (at, found) = order::position(&keys, name);
        if found {
            keys.remove(at);
            let v = values.remove(at);
            proof {
                let now = list.remove(at as int);
                assert(text::texts(keys@) =~= now);
                lemma_remove_sorted(list, at as int);
                lemma_zipped_at(list, vals, at as int);
                let m = zipped(list, vals).remove(name@);
                assert forall|k: Seq<char>| now.contains(k) <==> m.dom().contains(k) by {
                    assert(now.to_set().contains(k) == now.contains(k));
                    assert(list.to_set().contains(k) == list.contains(k));
                }
                assert forall|k: Seq<char>| now.contains(k) implies zipped(now, values@)[k]
                    == m[k] by {
                    let i = now.index_of(k);
                    lemma_zipped_at(now, values@, i);
                    if i < at {
                        assert(list[i] == k);
                        lemma_zipped_at(list, vals, i);
                    } else {
                        assert(list[i + 1] == k);
                        lemma_zipped_at(list, vals, i + 1);
                    }
                }
                assert(zipped(now, values@) =~= m);
            }
            *self = NameMap { keys, values };
            Some(v)
        } else {
            proof {
                assert(zipped(list, vals).remove(name@) =~= zipped(list, vals));
            }
            *self = NameMap { keys, values };
            None
        }
    }
}

impl<V> Default for NameMap<V> {
    fn default() -> (r: NameMap<V>)
        ensures
            r@ == Map::<Seq<char>, V>::empty(),
    {
        NameMap::new()
    }
}

} // verus!
