//! Ordered collections keyed by strings.
//!
//! Both collections keep their keys in the order of first insertion and hold
//! no key twice.  Keys are compared by their characters.

use vstd::prelude::*;

verus! {

/// The characters of each string of `v`, in order.
pub open spec fn views(v: Seq<String>) -> Seq<Seq<char>> {
    v.map_values(|s: String| s@)
}

/// The first position of `key` among `keys`, if it occurs there.
pub fn position(keys: &Vec<String>, key: &String) -> (r: Option<usize>)
    ensures
        match r {
            Some(i) => i < keys.len() && views(keys@)[i as int] == key@ && forall|j: int|
                0 <= j < i ==> views(keys@)[j] != key@,
            None => !views(keys@).contains(key@),
        },
{
    let mut i: usize = 0;
    while i < keys.len()
        invariant
            i <= keys.len(),
            forall|j: int| 0 <= j < i ==> views(keys@)[j] != key@,
        decreases keys.len() - i,
    {
        if keys[i] == *key {
            return Some(i);
        }
        i = i + 1;
    }
    None
}

/// A copy of the strings of `v`.
pub fn clone_strings(v: &Vec<String>) -> (copy: Vec<String>)
    ensures
        views(copy@) == views(v@),
{
    let mut copy: Vec<String> = Vec::new();
    let mut i: usize = 0;
    while i < v.len()
        invariant
            i <= v.len(),
            copy.len() == i,
            forall|j: int| 0 <= j < i ==> copy[j]@ == v[j]@,
        decreases v.len() - i,
    {
        copy.push(v[i].clone());
        i = i + 1;
    }
    assert(views(copy@) =~= views(v@));
    copy
}

/// A set of strings that remembers the order of insertion.
pub struct StringSet {
    items: Vec<String>,
}

impl View for StringSet {
    type V = Set<Seq<char>>;

    open spec fn view(&self) -> Set<Seq<char>> {
        self.names().to_set()
    }
}

impl StringSet {
    /// The members, in the order in which they were inserted.
    pub closed spec fn names(&self) -> Seq<Seq<char>> {
        views(self.items@)
    }

    /// No member occurs twice.
    pub open spec fn wf(&self) -> bool {
        self.names().no_duplicates()
    }

    pub fn new() -> (s: StringSet)
        ensures
            s.wf(),
            s.names() == Seq::<Seq<char>>::empty(),
            s@ == Set::<Seq<char>>::empty(),
    {
        let s = StringSet { items: Vec::new() };
        assert(s.names() =~= Seq::<Seq<char>>::empty());
        assert(s@ =~= Set::<Seq<char>>::empty());
        s
    }

    pub fn len(&self) -> (n: usize)
        ensures
            n == self.names().len(),
    {
        self.items.len()
    }

    pub fn is_empty(&self) -> (b: bool)
        ensures
            b == (self.names().len() == 0),
    {
        self.items.len() == 0
    }

    pub fn contains(&self, name: &str) -> (b: bool)
        ensures
            b == self.names().contains(name@),
            b == self@.contains(name@),
    {
        let key = name.to_owned();
        position(&self.items, &key).is_some()
    }

    /// Adds `name` unless it is a member already; says whether it was added.
    pub fn insert(&mut self, name: String) -> (fresh: bool)
        requires
            old(self).wf(),
        ensures
            final(self).wf(),
            fresh == !old(self).names().contains(name@),
            final(self).names() == if fresh {
                old(self).names().push(name@)
            } else {
                old(self).names()
            },
            final(self)@ == old(self)@.insert(name@),
    {
        let ghost before = self.names();
        if position(&self.items, &name).is_some() {
            assert(self@ =~= old(self)@.insert(name@));
            false
        } else {
            self.items.push(name);
            assert(self.names() =~= before.push(name@));
            assert(self@ =~= old(self)@.insert(name@)) by {
                assert forall|k: Seq<char>| self@.contains(k) <==> old(self)@.insert(name@).contains(
                    k,
                ) by {
                    if self.names().contains(k) {
                        let i = choose|i: int| 0 <= i < self.names().len() && self.names()[i] == k;
                        if i < before.len() {
                            assert(before[i] == k);
                        }
                    }
                    if before.contains(k) {
                        let i = choose|i: int| 0 <= i < before.len() && before[i] == k;
                        assert(self.names()[i] == k);
                    }
                    if k == name@ {
                        assert(self.names()[before.len() as int] == k);
                    }
                }
            }
            true
        }
    }

    /// The member at position `i` of the insertion order.
    pub fn get(&self, i: usize) -> (name: &String)
        requires
            i < self.names().len(),
        ensures
            name@ == self.names()[i as int],
    {
        &self.items[i]
    }

    /// The members as a vector, in insertion order.
    pub fn as_vec(&self) -> (v: &Vec<String>)
        ensures
            views(v@) == self.names(),
    {
        &self.items
    }
}

/// A map from strings to values that remembers the order of insertion.
pub struct StringMap<V> {
    keys: Vec<String>,
    values: Vec<V>,
}

impl<V> View for StringMap<V> {
    type V = Map<Seq<char>, V>;

    open spec fn view(&self) -> Map<Seq<char>, V> {
        Map::new(|k: Seq<char>| self.keys().contains(k), |k: Seq<char>| self.values()[self.slot(k)])
    }
}

impl<V> StringMap<V> {
    /// The keys, in the order in which they were first inserted.
    pub closed spec fn keys(&self) -> Seq<Seq<char>> {
        views(self.keys@)
    }

    /// The values, each at the position of its key.
    pub closed spec fn values(&self) -> Seq<V> {
        self.values@
    }

    /// A position at which `key` stands among the keys.
    pub open spec fn slot(&self, key: Seq<char>) -> int {
        choose|i: int| 0 <= i < self.keys().len() && self.keys()[i] == key
    }

    /// There is one value for each key, and no key occurs twice.
    pub open spec fn wf(&self) -> bool {
        &&& self.keys().len() == self.values().len()
        &&& self.keys().no_duplicates()
    }

    /// In a well-formed map the key at position `i` has the value at
    /// position `i`.
    pub proof fn lemma_slot(&self, i: int)
        requires
            self.wf(),
            0 <= i < self.keys().len(),
        ensures
            self.slot(self.keys()[i]) == i,
            self@.contains_key(self.keys()[i]),
            self@[self.keys()[i]] == self.values()[i],
    {
    }

    pub fn new() -> (m: StringMap<V>)
        ensures
            m.wf(),
            m.keys() == Seq::<Seq<char>>::empty(),
            m@ == Map::<Seq<char>, V>::empty(),
    {
        let m = StringMap { keys: Vec::new(), values: Vec::new() };
        assert(m.keys() =~= Seq::<Seq<char>>::empty());
        assert(m@ =~= Map::<Seq<char>, V>::empty());
        m
    }

    pub fn len(&self) -> (n: usize)
        ensures
            n == self.keys().len(),
    {
        self.keys.len()
    }

    /// The position of `key` in the insertion order, if the map holds it.
    pub fn index_of(&self, key: &str) -> (r: Option<usize>)
        requires
            self.wf(),
        ensures
            match r {
                Some(i) => i < self.keys().len() && self.keys()[i as int] == key@ && self.slot(
                    key@,
                ) == i,
                None => !self.keys().contains(key@),
            },
            r.is_some() == self@.contains_key(key@),
    {
        let owned = key.to_owned();
        let r = position(&self.keys, &owned);
        proof {
            if let Some(i) = r {
                self.lemma_slot(i as int);
            }
        }
        r
    }

    pub fn contains_key(&self, key: &str) -> (b: bool)
        requires
            self.wf(),
        ensures
            b == self@.contains_key(key@),
    {
        self.index_of(key).is_some()
    }

    pub fn get(&self, key: &str) -> (r: Option<&V>)
        requires
            self.wf(),
        ensures
            match r {
                Some(v) => self@.contains_key(key@) && *v == self@[key@],
                None => !self@.contains_key(key@),
            },
    {
        match self.index_of(key) {
            Some(i) => Some(&self.values[i]),
            None => None,
        }
    }

    /// The key at position `i` of the insertion order.
    pub fn key_at(&self, i: usize) -> (key: &String)
        requires
            i < self.keys().len(),
        ensures
            key@ == self.keys()[i as int],
    {
        &self.keys[i]
    }

    /// The value at position `i` of the insertion order.
    pub fn value_at(&self, i: usize) -> (value: &V)
        requires
            self.wf(),
            i < self.keys().len(),
        ensures
            *value == self.values()[i as int],
            *value == self@[self.keys()[i as int]],
    {
        proof {
            self.lemma_slot(i as int);
        }
        &self.values[i]
    }

    /// Binds `key` to `value`.  A key that is new goes to the end of the
    /// order; one that the map holds keeps its position and loses its old
    /// value.
    pub fn insert(&mut self, key: String, value: V)
        requires
            old(self).wf(),
        ensures
            final(self).wf(),
            final(self)@ == old(self)@.insert(key@, value),
            final(self).keys() == if old(self).keys().contains(key@) {
                old(self).keys()
            } else {
                old(self).keys().push(key@)
            },
            final(self).values() == if old(self).keys().contains(key@) {
                old(self).values().update(old(self).slot(key@), value)
            } else {
                old(self).values().push(value)
            },
    {
        let ghost keys0 = self.keys();
        let ghost values0 = self.values();
        match position(&self.keys, &key) {
            Some(i) => {
                proof {
                    self.lemma_slot(i as int);
                }
                self.values.set(i, value);
                assert(self.keys() == keys0);
                assert(self@ =~= old(self)@.insert(key@, value)) by {
                    assert forall|k: Seq<char>| self@.contains_key(k) implies self@[k] == old(
                        self,
                    )@.insert(key@, value)[k] by {
                        let j = self.slot(k);
                        assert(old(self).slot(k) == j);
                    }
                }
            },
            None => {
                self.keys.push(key);
                self.values.push(value);
                assert(self.keys() =~= keys0.push(key@));
                assert(self@ =~= old(self)@.insert(key@, value)) by {
                    assert forall|k: Seq<char>| self@.contains_key(k) <==> old(self)@.insert(
                        key@,
                        value,
                    ).contains_key(k) by {
                        if self.keys().contains(k) {
                            let i = choose|i: int|
                                0 <= i < self.keys().len() && self.keys()[i] == k;
                            if i < keys0.len() {
                                assert(keys0[i] == k);
                            }
                        }
                        if keys0.contains(k) {
                            let i = choose|i: int| 0 <= i < keys0.len() && keys0[i] == k;
                            assert(self.keys()[i] == k);
                        }
                        if k == key@ {
                            assert(self.keys()[keys0.len() as int] == k);
                        }
                    }
                    assert forall|k: Seq<char>| self@.contains_key(k) implies self@[k] == old(
                        self,
                    )@.insert(key@, value)[k] by {
                        let j = self.slot(k);
                        if j < keys0.len() {
                            assert(keys0[j] == k);
                            let j0 = old(self).slot(k);
                            assert(self.keys()[j0] == k);
                        }
                    }
                }
            },
        }
    }
}

impl StringMap<String> {
    /// The text under each key.
    pub open spec fn texts(&self) -> Map<Seq<char>, Seq<char>> {
        self@.map_values(|v: String| v@)
    }

    /// A copy of the map: the same keys in the same order, each with a copy
    /// of its value.
    pub fn duplicate(&self) -> (copy: StringMap<String>)
        requires
            self.wf(),
        ensures
            copy.wf(),
            copy.keys() == self.keys(),
            views(copy.values()) == views(self.values()),
            copy.texts() == self.texts(),
    {
        let copy = StringMap {
            keys: clone_strings(&self.keys),
            values: clone_strings(&self.values),
        };
        proof {
            assert(copy.values().len() == views(copy.values()).len());
            assert(self.values().len() == views(self.values()).len());
            assert forall|k: Seq<char>| copy.keys().contains(k) implies copy@[k]@ == self@[k]@ by {
                let i = copy.slot(k);
                assert(self.slot(k) == i);
                assert(views(copy.values())[i] == views(self.values())[i]);
            }
            assert(copy.texts() =~= self.texts());
        }
        copy
    }

    /// Binding a key binds its text.
    pub proof fn lemma_texts_insert(before: Self, after: Self, key: Seq<char>, value: String)
        requires
            after@ == before@.insert(key, value),
        ensures
            after.texts() == before.texts().insert(key, value@),
    {
        assert(after.texts() =~= before.texts().insert(key, value@));
    }
}

} // verus!
