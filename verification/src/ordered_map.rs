//! An insertion-ordered map over a vector of entries.
//!
//! Keys are compared through their views, so two keys that look alike are the
//! same key. The map keeps no key twice; that is its well-formedness.

use vstd::prelude::*;

verus! {

/// What a type needs in order to serve as the key of an [`OrderedMap`]:
/// an executable equality test that agrees with equality of views, and a way
/// to copy a key that keeps its view.
pub trait Key: View + Sized {
    fn same(&self, other: &Self) -> (b: bool)
        ensures
            b == (self@ == other@),
    ;

    fn duplicate(&self) -> (k: Self)
        ensures
            k@ == self@,
    ;
}

impl Key for String {
    fn same(&self, other: &Self) -> (b: bool) {
        *self == *other
    }

    fn duplicate(&self) -> (k: Self) {
        self.clone()
    }
}

/// A value whose view is its content, with an executable test for equal
/// content. The test may ask that both values be `valid`.
pub trait Content: View + Sized {
    spec fn valid(&self) -> bool;

    fn same_content(&self, other: &Self) -> (b: bool)
        requires
            self.valid(),
            other.valid(),
        ensures
            b == (self@ == other@),
    ;
}

/// A map from `K` to `T` that remembers the order in which keys first came.
#[derive(Debug)]
pub struct OrderedMap<K, T> {
    keys: Vec<K>,
    vals: Vec<T>,
}

impl<K: Key, T> View for OrderedMap<K, T> {
    type V = Map<K::V, T>;

    /// The map as a mathematical map from key views to values.
    open spec fn view(&self) -> Map<K::V, T> {
        Map::new(
            |id: K::V| self.keys().contains(id),
            |id: K::V| self.values()[self.keys().index_of(id)],
        )
    }
}

impl<K: Key, T> OrderedMap<K, T> {
    /// The views of the keys, in insertion order.
    pub closed spec fn keys(&self) -> Seq<K::V> {
        self.keys@.map_values(|k: K| k@)
    }

    /// The values, in the order of their keys.
    pub closed spec fn values(&self) -> Seq<T> {
        self.vals@
    }

    /// Every key has one value and no key occurs twice.
    pub open spec fn wf(&self) -> bool {
        &&& self.keys().len() == self.values().len()
        &&& self.keys().no_duplicates()
    }

    /// In a well-formed map the entry at position `i` is what the view holds
    /// under the key at `i`.
    pub proof fn lemma_entry(&self, i: int)
        requires
            self.wf(),
            0 <= i < self.keys().len(),
        ensures
            self@.contains_key(self.keys()[i]),
            self@[self.keys()[i]] == self.values()[i],
            self.keys().index_of(self.keys()[i]) == i,
    {
        let id = self.keys()[i];
        assert(self.keys().contains(id));
        let j = self.keys().index_of(id);
        assert(0 <= j < self.keys().len() && self.keys()[j] == id);
    }

    /// A key of the view sits at exactly one position.
    pub proof fn lemma_position(&self, id: K::V)
        requires
            self.wf(),
            self@.contains_key(id),
        ensures
            0 <= self.keys().index_of(id) < self.keys().len(),
            self.keys()[self.keys().index_of(id)] == id,
            self@[id] == self.values()[self.keys().index_of(id)],
    {
        assert(self.keys().contains(id));
    }

    pub fn new() -> (m: Self)
        ensures
            m.wf(),
            m.keys() == Seq::<K::V>::empty(),
            m.values() == Seq::<T>::empty(),
            m@ == Map::<K::V, T>::empty(),
    {
        let m = OrderedMap { keys: Vec::new(), vals: Vec::new() };
        assert(m.keys() =~= Seq::<K::V>::empty());
        assert(m@ =~= Map::<K::V, T>::empty());
        m
    }

    pub fn len(&self) -> (n: usize)
        requires
            self.wf(),
        ensures
            n == self.keys().len(),
            n == self.values().len(),
    {
        self.keys.len()
    }

    /// The position of `key`, if the map holds it.
    pub fn position(&self, key: &K) -> (r: Option<usize>)
        requires
            self.wf(),
        ensures
            match r {
                Some(i) => i < self.keys().len() && self.keys()[i as int] == key@,
                None => !self.keys().contains(key@),
            },
            r.is_some() == self@.contains_key(key@),
    {
        let mut i: usize = 0;
        while i < self.keys.len()
            invariant
                i <= self.keys.len(),
                forall|j: int| 0 <= j < i ==> self.keys()[j] != key@,
            decreases self.keys.len() - i,
        {
            if self.keys[i].same(key) {
                assert(self.keys()[i as int] == key@);
                assert(self.keys().contains(key@));
                return Some(i);
            }
            i = i + 1;
        }
        None
    }

    pub fn contains_key(&self, key: &K) -> (b: bool)
        requires
            self.wf(),
        ensures
            b == self@.contains_key(key@),
    {
        self.position(key).is_some()
    }

    pub fn get(&self, key: &K) -> (r: Option<&T>)
        requires
            self.wf(),
        ensures
            match r {
                Some(v) => self@.contains_key(key@) && *v == self@[key@],
                None => !self@.contains_key(key@),
            },
    {
        match self.position(key) {
            Some(i) => {
                proof {
                    self.lemma_entry(i as int);
                }
                Some(&self.vals[i])
            },
            None => None,
        }
    }

    /// The key at position `i`.
    pub fn key_at(&self, i: usize) -> (k: &K)
        requires
            self.wf(),
            i < self.keys().len(),
        ensures
            k@ == self.keys()[i as int],
    {
        &self.keys[i]
    }

    /// The value at position `i`.
    pub fn value_at(&self, i: usize) -> (v: &T)
        requires
            self.wf(),
            i < self.values().len(),
        ensures
            *v == self.values()[i as int],
    {
        &self.vals[i]
    }

    /// All values, in the order of their keys.
    pub fn values_ref(&self) -> (v: &Vec<T>)
        ensures
            v@ == self.values(),
    {
        &self.vals
    }

    /// The value at position `i`, to be changed in place. The keys stay.
    pub fn value_mut(&mut self, i: usize) -> (v: &mut T)
        requires
            old(self).wf(),
            i < old(self).values().len(),
        ensures
            *v == old(self).values()[i as int],
            final(self).keys() == old(self).keys(),
            final(self).values() == old(self).values().update(i as int, *final(v)),
    {
        &mut self.vals[i]
    }

    /// Binds `key` to `value`. A key that the map already holds keeps its
    /// position; a new key goes to the end.
    pub fn insert(&mut self, key: K, value: T)
        requires
            old(self).wf(),
        ensures
            final(self).wf(),
            final(self)@ == old(self)@.insert(key@, value),
            old(self)@.contains_key(key@) ==> {
                &&& final(self).keys() == old(self).keys()
                &&& final(self).values() == old(self).values().update(
                    old(self).keys().index_of(key@),
                    value,
                )
            },
            !old(self)@.contains_key(key@) ==> {
                &&& final(self).keys() == old(self).keys().push(key@)
                &&& final(self).values() == old(self).values().push(value)
            },
    {
        match self.position(&key) {
            Some(i) => {
                proof {
                    self.lemma_entry(i as int);
                }
                self.vals.set(i, value);
                proof {
                    Self::lemma_update(*old(self), *self, i as int, value);
                }
            },
            None => {
                self.keys.push(key);
                self.vals.push(value);
                proof {
                    assert(self.keys() =~= old(self).keys().push(key@));
                    Self::lemma_push(*old(self), *self, key@, value);
                }
            },
        }
    }

    /// Changing the value at one position changes the view under that
    /// position's key and nowhere else.
    pub proof fn lemma_update(before: Self, after: Self, i: int, value: T)
        requires
            before.wf(),
            0 <= i < before.keys().len(),
            after.keys() == before.keys(),
            after.values() == before.values().update(i, value),
        ensures
            after.wf(),
            after@ == before@.insert(before.keys()[i], value),
    {
        let id = before.keys()[i];
        before.lemma_entry(i);
        assert forall|k: K::V| after@.contains_key(k) implies #[trigger] after@[k] == before@.insert(
            id,
            value,
        )[k] by {
            after.lemma_position(k);
            before.lemma_position(k);
        }
        assert(after@ =~= before@.insert(id, value));
    }

    /// Changing every value by a rule that looks at key and value changes
    /// the view by the same rule.
    pub proof fn lemma_pointwise(before: Self, after: Self, rule: spec_fn(K::V, T) -> T)
        requires
            before.wf(),
            after.keys() == before.keys(),
            after.values().len() == before.values().len(),
            forall|i: int|
                0 <= i < before.keys().len() ==> after.values()[i] == rule(
                    before.keys()[i],
                    before.values()[i],
                ),
        ensures
            after.wf(),
            after@ == Map::new(
                |k: K::V| before@.contains_key(k),
                |k: K::V| rule(k, before@[k]),
            ),
    {
        let expected = Map::new(
            |k: K::V| before@.contains_key(k),
            |k: K::V| rule(k, before@[k]),
        );
        assert forall|k: K::V| after@.contains_key(k) implies #[trigger] after@[k] == expected[k] by {
            after.lemma_position(k);
            before.lemma_position(k);
        }
        assert(after@ =~= expected);
    }

    proof fn lemma_push(before: Self, after: Self, id: K::V, value: T)
        requires
            before.wf(),
            !before.keys().contains(id),
            after.keys() == before.keys().push(id),
            after.values() == before.values().push(value),
        ensures
            after.wf(),
            after@ == before@.insert(id, value),
    {
        let n = before.keys().len() as int;
        assert(after.keys().no_duplicates()) by {
            assert forall|i: int, j: int|
                0 <= i < after.keys().len() && 0 <= j < after.keys().len() && i != j implies after.keys()[i]
                != after.keys()[j] by {
                if i < n && j < n {
                    assert(before.keys()[i] != before.keys()[j]);
                } else if i < n {
                    assert(before.keys()[i] == after.keys()[i]);
                } else {
                    assert(before.keys()[j] == after.keys()[j]);
                }
            }
        }
        assert forall|k: K::V| after@.contains_key(k) <==> before@.insert(id, value).contains_key(
            k,
        ) by {
            if before.keys().contains(k) {
                let i = before.keys().index_of(k);
                assert(after.keys()[i] == k);
            }
            if after.keys().contains(k) {
                let i = after.keys().index_of(k);
                if i < n {
                    assert(before.keys()[i] == k);
                }
            }
            assert(after.keys()[n] == id);
        }
        assert forall|k: K::V| after@.contains_key(k) implies #[trigger] after@[k] == before@.insert(
            id,
            value,
        )[k] by {
            after.lemma_position(k);
            let i = after.keys().index_of(k);
            if k == id {
                assert(after.keys()[n] == id);
                assert(i == n);
            } else {
                assert(i < n);
                assert(before.keys()[i] == k);
                before.lemma_entry(i);
            }
        }
        assert(after@ =~= before@.insert(id, value));
    }
}

impl<K: Key, T: Content> OrderedMap<K, T> {
    /// What the map holds, whatever the order: each key's view with the
    /// view of its value.
    pub open spec fn content(&self) -> Map<K::V, T::V> {
        Map::new(|k: K::V| self@.contains_key(k), |k: K::V| self@[k]@)
    }

    /// All values are valid.
    pub open spec fn all_valid(&self) -> bool {
        forall|k: K::V| #[trigger] self@.contains_key(k) ==> self@[k].valid()
    }

    /// Whether every entry of `self` has an entry of equal content under
    /// the same key in `other`.
    fn within(&self, other: &Self) -> (b: bool)
        requires
            self.wf(),
            other.wf(),
            self.all_valid(),
            other.all_valid(),
        ensures
            b == forall|k: K::V| #[trigger]
                self@.contains_key(k) ==> other@.contains_key(k) && self@[k]@ == other@[k]@,
    {
        let mut i: usize = 0;
        while i < self.keys.len()
            invariant
                i <= self.keys.len(),
                self.wf(),
                other.wf(),
                self.all_valid(),
                other.all_valid(),
                forall|j: int|
                    0 <= j < i ==> other@.contains_key(#[trigger] self.keys()[j])
                        && self.values()[j]@ == other@[self.keys()[j]]@,
            decreases self.keys.len() - i,
        {
            proof {
                self.lemma_entry(i as int);
            }
            match other.get(&self.keys[i]) {
                Some(theirs) => {
                    if !self.vals[i].same_content(theirs) {
                        return false;
                    }
                },
                None => {
                    return false;
                },
            }
            i = i + 1;
        }
        proof {
            assert forall|k: K::V| #[trigger] self@.contains_key(k) implies other@.contains_key(k)
                && self@[k]@ == other@[k]@ by {
                self.lemma_position(k);
            }
        }
        true
    }

    /// Whether two maps have the same content.
    pub fn same_content(&self, other: &Self) -> (b: bool)
        requires
            self.wf(),
            other.wf(),
            self.all_valid(),
            other.all_valid(),
        ensures
            b == (self.content() == other.content()),
    {
        let b = self.within(other) && other.within(self);
        proof {
            if b {
                assert(self.content() =~= other.content());
            } else if self.content() == other.content() {
                assert forall|k: K::V| #[trigger]
                    self@.contains_key(k) implies other@.contains_key(k) && self@[k]@
                    == other@[k]@ by {
                    assert(self.content().contains_key(k));
                    assert(other.content().contains_key(k));
                    assert(self.content()[k] == other.content()[k]);
                }
                assert forall|k: K::V| #[trigger]
                    other@.contains_key(k) implies self@.contains_key(k) && other@[k]@
                    == self@[k]@ by {
                    assert(other.content().contains_key(k));
                    assert(self.content().contains_key(k));
                    assert(self.content()[k] == other.content()[k]);
                }
            }
        }
        b
    }
}

} // verus!
