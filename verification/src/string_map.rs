//! A small map from strings to values.
//!
//! The entries are kept in the order in which their keys were first inserted, and no
//! key occurs twice. Attribute lists and property maps are short, so a lookup walks the
//! entries.

use vstd::prelude::*;
use vstd::std_specs::cmp::PartialEqSpecImpl;

verus! {

/// The map that sends each of the distinct keys `ks` to the value at the same position
/// in `vs`.
pub open spec fn map_of<V>(ks: Seq<Seq<char>>, vs: Seq<V>) -> Map<Seq<char>, V> {
    Map::new(|k: Seq<char>| ks.contains(k), |k: Seq<char>| vs[ks.index_of(k)])
}

/// With distinct keys, the map holds at each key the value at the key's position.
pub proof fn lemma_map_of_at<V>(ks: Seq<Seq<char>>, vs: Seq<V>, i: int)
    requires
        ks.no_duplicates(),
        0 <= i < ks.len(),
    ensures
        map_of(ks, vs).contains_key(ks[i]),
        map_of(ks, vs)[ks[i]] == vs[i],
        ks.index_of(ks[i]) == i,
{
    assert(ks.contains(ks[i]));
    let j = ks.index_of(ks[i]);
    assert(0 <= j < ks.len() && ks[j] == ks[i]);
}

/// A map from strings to values of type `V`, in insertion order.
#[derive(Debug)]
pub struct StringMap<V> {
    entries: Vec<(String, V)>,
}

impl<V> View for StringMap<V> {
    type V = Map<Seq<char>, V>;

    open spec fn view(&self) -> Map<Seq<char>, V> {
        map_of(self.keys(), self.values())
    }
}

impl<V> StringMap<V> {
    /// The keys, in the order in which they were first inserted.
    pub closed spec fn keys(&self) -> Seq<Seq<char>> {
        Seq::new(self.entries@.len(), |i: int| self.entries@[i].0@)
    }

    /// The values, each at the position of its key.
    pub closed spec fn values(&self) -> Seq<V> {
        Seq::new(self.entries@.len(), |i: int| self.entries@[i].1)
    }

    /// No key occurs twice, and every key has its value.
    #[verifier::type_invariant]
    pub open spec fn wf(&self) -> bool {
        &&& self.keys().no_duplicates()
        &&& self.keys().len() == self.values().len()
    }

    /// The empty map.
    pub fn new() -> (m: Self)
        ensures
            m.keys() == Seq::<Seq<char>>::empty(),
            m.values() == Seq::<V>::empty(),
            m@ == Map::<Seq<char>, V>::empty(),
            m.wf(),
    {
        let m = StringMap { entries: Vec::new() };
        assert(m.keys() =~= Seq::<Seq<char>>::empty());
        assert(m.values() =~= Seq::<V>::empty());
        assert(m@ =~= Map::<Seq<char>, V>::empty());
        m
    }

    /// The number of entries.
    pub fn len(&self) -> (n: usize)
        ensures
            n == self.keys().len(),
            n == self.values().len(),
            self@.dom().finite(),
            n == self@.dom().len(),
            self.wf(),
    {
        proof {
            use_type_invariant(self);
            self.keys().unique_seq_to_set();
            vstd::seq_lib::seq_to_set_is_finite(self.keys());
            assert(self@.dom() =~= self.keys().to_set());
        }
        self.entries.len()
    }

    /// The key of the entry at position `i`.
    pub fn key(&self, i: usize) -> (k: &String)
        requires
            i < self.keys().len(),
        ensures
            k@ == self.keys()[i as int],
    {
        &self.entries[i].0
    }

    /// The value of the entry at position `i`.
    pub fn value(&self, i: usize) -> (v: &V)
        requires
            i < self.keys().len(),
        ensures
            *v == self.values()[i as int],
            self.wf(),
            self@.contains_key(self.keys()[i as int]),
            self@[self.keys()[i as int]] == *v,
    {
        proof {
            use_type_invariant(self);
            lemma_map_of_at(self.keys(), self.values(), i as int);
        }
        &self.entries[i].1
    }

    /// The position of the key `k`, if the map holds it.
    pub fn position(&self, k: &str) -> (r: Option<usize>)
        ensures
            self.wf(),
            match r {
                Some(i) => i < self.keys().len() && self.keys()[i as int] == k@,
                None => !self.keys().contains(k@),
            },
    {
        proof {
            use_type_invariant(self);
        }
        let key = k.to_owned();
        let n = self.entries.len();
        let mut i: usize = 0;
        while i < n
            invariant
                0 <= i <= n,
                n == self.entries@.len(),
                key@ == k@,
                self.wf(),
                forall|j: int| 0 <= j < i ==> self.keys()[j] != k@,
            decreases n - i,
        {
            if self.entries[i].0 == key {
                return Some(i);
            }
            i += 1;
        }
        None
    }

    /// The value at the key `k`, if the map holds it.
    pub fn get(&self, k: &str) -> (r: Option<&V>)
        ensures
            self.wf(),
            match r {
                Some(v) => self@.contains_key(k@) && *v == self@[k@],
                None => !self@.contains_key(k@),
            },
    {
        match self.position(k) {
            Some(i) => {
                proof {
                    lemma_map_of_at(self.keys(), self.values(), i as int);
                }
                Some(&self.entries[i].1)
            },
            None => None,
        }
    }

    /// Sets the value at the key `k`. A key that the map holds keeps its position; a new
    /// key goes to the end.
    pub fn insert(&mut self, k: String, v: V)
        ensures
            final(self).wf(),
            final(self)@ == old(self)@.insert(k@, v),
            old(self).keys().contains(k@) ==> {
                &&& final(self).keys() == old(self).keys()
                &&& final(self).values() == old(self).values().update(
                    old(self).keys().index_of(k@),
                    v,
                )
            },
            !old(self).keys().contains(k@) ==> {
                &&& final(self).keys() == old(self).keys().push(k@)
                &&& final(self).values() == old(self).values().push(v)
            },
    {
        proof {
            use_type_invariant(&*self);
        }
        let ghost ks = self.keys();
        let ghost vs = self.values();
        let found = self.position(k.as_str());
        let mut entries: Vec<(String, V)> = Vec::new();
        proof {
            assert(Seq::new(0, |i: int| entries@[i].0@).no_duplicates());
        }
        core::mem::swap(&mut self.entries, &mut entries);
        match found {
            Some(i) => {
                entries.set(i, (k, v));
            },
            None => {
                entries.push((k, v));
            },
        }
        let ghost ks2 = Seq::new(entries@.len(), |i: int| entries@[i].0@);
        let ghost vs2 = Seq::new(entries@.len(), |i: int| entries@[i].1);
        proof {
            match found {
                Some(i) => {
                    lemma_map_of_at(ks, vs, i as int);
                    assert(ks2 =~= ks);
                    assert(vs2 =~= vs.update(i as int, v));
                    assert forall|x: Seq<char>| #[trigger] ks.contains(x) implies map_of(ks2, vs2)[x]
                        == map_of(ks, vs).insert(k@, v)[x] by {
                        let j = ks.index_of(x);
                    }
                    assert(map_of(ks2, vs2) =~= map_of(ks, vs).insert(k@, v));
                },
                None => {
                    assert(ks2 =~= ks.push(k@));
                    assert(vs2 =~= vs.push(v));
                    assert(ks2.no_duplicates());
                    assert forall|x: Seq<char>| #[trigger]
                        map_of(ks, vs).insert(k@, v).contains_key(x) implies ks2.contains(x) by {
                        if x == k@ {
                            assert(ks2[ks.len() as int] == x);
                        } else {
                            let j = ks.index_of(x);
                            assert(ks.contains(x));
                            assert(ks2[j] == x);
                        }
                    }
                    assert forall|x: Seq<char>| #[trigger] ks2.contains(x) implies map_of(
                        ks2,
                        vs2,
                    )[x] == map_of(ks, vs).insert(k@, v)[x] && map_of(ks, vs).insert(
                        k@,
                        v,
                    ).contains_key(x) by {
                        let j = ks2.index_of(x);
                        assert(0 <= j < ks2.len() && ks2[j] == x);
                        if j < ks.len() {
                            assert(ks[j] == x);
                            lemma_map_of_at(ks, vs, j);
                        }
                    }
                    assert(map_of(ks2, vs2) =~= map_of(ks, vs).insert(k@, v));
                },
            }
        }
        core::mem::swap(&mut self.entries, &mut entries);
        proof {
            assert(self.keys() =~= ks2);
            assert(self.values() =~= vs2);
        }
    }
}

impl<V: Clone> Clone for StringMap<V> {
    /// A map with the same keys in the same order, and a clone of each value.
    fn clone(&self) -> (r: Self)
        ensures
            r.wf(),
            r.keys() == self.keys(),
            r.values().len() == self.values().len(),
            forall|i: int|
                0 <= i < self.values().len() ==> cloned::<V>(
                    #[trigger] self.values()[i],
                    r.values()[i],
                ),
    {
        proof {
            use_type_invariant(self);
        }
        let mut entries: Vec<(String, V)> = Vec::new();
        let n = self.entries.len();
        let mut i: usize = 0;
        while i < n
            invariant
                0 <= i <= n,
                n == self.entries@.len(),
                entries@.len() == i,
                forall|j: int| 0 <= j < i ==> (#[trigger] entries@[j]).0@ == self.entries@[j].0@,
                forall|j: int|
                    0 <= j < i ==> cloned::<V>(self.entries@[j].1, (#[trigger] entries@[j]).1),
            decreases n - i,
        {
            let k = self.entries[i].0.clone();
            let v = self.entries[i].1.clone();
            entries.push((k, v));
            i += 1;
        }
        let ghost ks = Seq::new(entries@.len(), |i: int| entries@[i].0@);
        assert(ks =~= self.keys());
        let r = StringMap { entries };
        assert(r.keys() =~= self.keys());
        r
    }
}

impl<V: View> StringMap<V> {
    /// The map as plain data: each key with the view of its value.
    pub open spec fn content(&self) -> Map<Seq<char>, V::V> {
        map_of(self.keys(), self.values().map_values(|v: V| v@))
    }

    /// With distinct keys, the content holds at each key the view of the value at the
    /// key's position.
    pub proof fn lemma_content_at(&self, i: int)
        requires
            self.wf(),
            0 <= i < self.keys().len(),
        ensures
            self.content().contains_key(self.keys()[i]),
            self.content()[self.keys()[i]] == self.values()[i]@,
            self@.contains_key(self.keys()[i]),
            self@[self.keys()[i]] == self.values()[i],
    {
        lemma_map_of_at(self.keys(), self.values().map_values(|v: V| v@), i);
        lemma_map_of_at(self.keys(), self.values(), i);
    }

    /// The content has the keys of the map, and at each the view of its value.
    pub proof fn lemma_content(&self)
        requires
            self.wf(),
        ensures
            self.content().dom() == self@.dom(),
            forall|k: Seq<char>|
                #[trigger] self@.contains_key(k) ==> self.content()[k] == self@[k]@,
    {
        assert(self.content().dom() =~= self@.dom());
        assert forall|k: Seq<char>| #[trigger] self@.contains_key(k) implies self.content()[k]
            == self@[k]@ by {
            let i = self.keys().index_of(k);
            assert(self.keys().contains(k));
            self.lemma_content_at(i);
        }
    }

    /// Setting a key in the map sets it in the content.
    pub proof fn lemma_content_insert(&self, after: &Self, k: Seq<char>, v: V)
        requires
            self.wf(),
            after.wf(),
            after@ == self@.insert(k, v),
        ensures
            after.content() == self.content().insert(k, v@),
    {
        self.lemma_content();
        after.lemma_content();
        assert(after.content() =~= self.content().insert(k, v@));
    }

    /// The empty map has no content.
    pub proof fn lemma_content_empty(&self)
        requires
            self.keys().len() == 0,
        ensures
            self.content() == Map::<Seq<char>, V::V>::empty(),
    {
        assert(self.content() =~= Map::<Seq<char>, V::V>::empty());
    }
}

impl StringMap<String> {
    /// Whether every entry of `self` is an entry of `other`.
    pub fn included_in(&self, other: &Self) -> (r: bool)
        ensures
            r == self.content().submap_of(other.content()),
    {
        let n = self.len();
        let _ = other.len();
        let mut i: usize = 0;
        while i < n
            invariant
                0 <= i <= n,
                n == self.keys().len(),
                self.wf(),
                other.wf(),
                forall|j: int|
                    0 <= j < i ==> other.content().contains_key(#[trigger] self.keys()[j])
                        && other.content()[self.keys()[j]] == self.content()[self.keys()[j]],
            decreases n - i,
        {
            proof {
                self.lemma_content_at(i as int);
                other.lemma_content();
            }
            let found = other.get(self.key(i).as_str());
            match found {
                Some(v) => {
                    if *v != *self.value(i) {
                        return false;
                    }
                },
                None => {
                    return false;
                },
            }
            i += 1;
        }
        proof {
            assert forall|k: Seq<char>| #[trigger] self.content().dom().contains(k) implies other.content().dom().contains(
                k,
            ) && self.content()[k] == other.content()[k] by {
                let j = self.keys().index_of(k);
                assert(self.keys().contains(k));
            }
        }
        true
    }
}

impl PartialEq for StringMap<String> {
    /// Two maps are equal when they hold the same keys with the same text, in whatever
    /// order.
    fn eq(&self, other: &Self) -> (r: bool) {
        let r = self.included_in(other) && other.included_in(self);
        proof {
            if r {
                assert(self.content() =~= other.content());
            }
        }
        r
    }
}

impl PartialEqSpecImpl for StringMap<String> {
    open spec fn obeys_eq_spec() -> bool {
        true
    }

    open spec fn eq_spec(&self, other: &Self) -> bool {
        self.content() == other.content()
    }
}

} // verus!
