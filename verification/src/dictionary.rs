//! A dictionary that keeps its keys in the order in which they came.

use vstd::prelude::*;

use crate::riff::ResponseMode;

verus! {

/// What a dictionary asks of its keys: they are equal if their views are.
pub trait Key: View + Sized {
    fn same(&self, other: &Self) -> (r: bool)
        ensures
            r == (self@ == other@),
    ;

    fn duplicate(&self) -> (r: Self)
        ensures
            r == *self,
    ;
}

impl Key for String {
    fn same(&self, other: &String) -> (r: bool) {
        *self == *other
    }

    fn duplicate(&self) -> (r: String) {
        self.clone()
    }
}

impl Key for (u32, ResponseMode) {
    fn same(&self, other: &(u32, ResponseMode)) -> (r: bool) {
        self.0 == other.0 && self.1 == other.1
    }

    fn duplicate(&self) -> (r: (u32, ResponseMode)) {
        (self.0, self.1)
    }
}

/// A dictionary. Its operations never let a key occur twice.
#[derive(Debug)]
pub struct Dictionary<K: Key, V> {
    entries: Vec<(K, V)>,
}

impl<K: Key, V> View for Dictionary<K, V> {
    type V = Map<K::V, V>;

    open spec fn view(&self) -> Map<K::V, V> {
        Map::new(
            |k: K::V| self.keys().contains(k),
            |k: K::V| self.values()[self.keys().index_of_first(k).unwrap()],
        )
    }
}

impl<K: Key, V> Dictionary<K, V> {
    /// The keys, oldest first.
    pub closed spec fn keys(self) -> Seq<K::V> {
        self.entries@.map_values(|e: (K, V)| e.0@)
    }

    /// The values, in the order of their keys.
    pub closed spec fn values(self) -> Seq<V> {
        self.entries@.map_values(|e: (K, V)| e.1)
    }

    /// Whether no key occurs twice.
    pub open spec fn distinct(self) -> bool {
        self.keys().no_duplicates()
    }

    pub fn new() -> (d: Dictionary<K, V>)
        ensures
            d@ == Map::<K::V, V>::empty(),
            d.keys() == Seq::<K::V>::empty(),
            d.distinct(),
    {
        let d = Dictionary { entries: Vec::new() };
        assert(d.keys() =~= Seq::<K::V>::empty());
        assert(d@ =~= Map::<K::V, V>::empty());
        d
    }

    /// The number of keys.
    pub fn len(&self) -> (n: usize)
        ensures
            n == self.keys().len(),
            n == self.values().len(),
    {
        self.entries.len()
    }

    pub fn is_empty(&self) -> (r: bool)
        ensures
            r == self@.dom().is_empty(),
            r == (self.keys().len() == 0),
    {
        proof {
            if self.keys().len() > 0 {
                assert(self.keys().contains(self.keys()[0]));
                assert(self@.dom().contains(self.keys()[0]));
            } else {
                assert(self@.dom() =~= Set::empty());
            }
        }
        self.entries.len() == 0
    }

    /// The key number `i`.
    pub fn key_at(&self, i: usize) -> (k: &K)
        requires
            i < self.keys().len(),
        ensures
            k@ == self.keys()[i as int],
    {
        &self.entries[i].0
    }

    /// The value of key number `i`.
    pub fn value_at(&self, i: usize) -> (v: &V)
        requires
            i < self.keys().len(),
        ensures
            *v == self.values()[i as int],
    {
        &self.entries[i].1
    }

    /// The place of a key.
    fn find(&self, key: &K) -> (r: Option<usize>)
        ensures
            match r {
                Some(i) => {
                    &&& i < self.keys().len()
                    &&& self.keys()[i as int] == key@
                    &&& self.keys().contains(key@)
                    &&& self.keys().index_of_first(key@) == Some(i as int)
                },
                None => !self.keys().contains(key@),
            },
    {
        let mut i: usize = 0;
        while i < self.entries.len()
            invariant
                i <= self.entries@.len(),
                forall|j: int| 0 <= j < i ==> self.keys()[j] != key@,
            decreases self.entries@.len() - i,
        {
            if self.entries[i].0.same(key) {
                proof {
                    assert(self.keys()[i as int] == key@);
                    self.keys().index_of_first_ensures(key@);
                }
                return Some(i);
            }
            i = i + 1;
        }
        None
    }

    pub fn contains_key(&self, key: &K) -> (r: bool)
        ensures
            r == self@.contains_key(key@),
    {
        self.find(key).is_some()
    }

    pub fn get(&self, key: &K) -> (r: Option<&V>)
        ensures
            match r {
                Some(v) => self@.contains_key(key@) && *v == self@[key@],
                None => !self@.contains_key(key@),
            },
    {
        match self.find(key) {
            Some(i) => Some(&self.entries[i].1),
            None => None,
        }
    }

    /// Gives the key its value and hands back the one that it had; a new key
    /// becomes the last one.
    pub fn insert(&mut self, key: K, value: V) -> (earlier: Option<V>)
        ensures
            earlier == (if old(self)@.contains_key(key@) {
                Some(old(self)@[key@])
            } else {
                None
            }),
            final(self)@ == old(self)@.insert(key@, value),
            final(self).keys() == (if old(self)@.contains_key(key@) {
                old(self).keys()
            } else {
                old(self).keys().push(key@)
            }),
            old(self).distinct() ==> final(self).distinct(),
    {
        match self.find(&key) {
            Some(i) => {
                let ghost k = key@;
                self.entries.push((key, value));
                let earlier: (K, V) = self.entries.swap_remove(i);
                proof {
                    assert(self.entries@ =~= old(self).entries@.update(i as int, (key, value)));
                    assert(self.keys() =~= old(self).keys());
                    assert(self.values() =~= old(self).values().update(i as int, value));
                    assert forall|x: K::V| self@.contains_key(x) implies #[trigger] self@[x]
                        == old(self)@.insert(k, value)[x] by {
                        self.keys().index_of_first_ensures(x);
                    }
                    assert(self@ =~= old(self)@.insert(k, value));
                }
                Some(earlier.1)
            },
            None => {
                let ghost k = key@;
                self.entries.push((key, value));
                proof {
                    assert(self.keys() =~= old(self).keys().push(k));
                    assert(self.values() =~= old(self).values().push(value));
                    lemma_pushed(old(self).keys(), k);
                    assert forall|x: K::V| self@.contains_key(x) implies #[trigger] self@[x]
                        == old(self)@.insert(k, value)[x] by {
                        old(self).keys().index_of_first_ensures(x);
                    }
                    assert(self@ =~= old(self)@.insert(k, value));
                }
                None
            },
        }
    }
}

impl<K: Key, V: Clone> Clone for Dictionary<K, V> {
    fn clone(&self) -> (r: Dictionary<K, V>)
        ensures
            r.keys() == self.keys(),
            r@.dom() == self@.dom(),
            forall|k: K::V| #[trigger] r@.contains_key(k) ==> cloned::<V>(self@[k], r@[k]),
    {
        let mut entries: Vec<(K, V)> = Vec::new();
        let mut i: usize = 0;
        while i < self.entries.len()
            invariant
                i <= self.entries@.len(),
                entries@.len() == i,
                forall|j: int|
                    #![trigger entries@[j]]
                    0 <= j < i ==> entries@[j].0@ == self.entries@[j].0@ && cloned::<V>(
                        self.entries@[j].1,
                        entries@[j].1,
                    ),
            decreases self.entries@.len() - i,
        {
            entries.push((self.entries[i].0.duplicate(), self.entries[i].1.clone()));
            i = i + 1;
        }
        let r = Dictionary { entries };
        proof {
            assert(r.keys() =~= self.keys());
            assert(r@.dom() =~= self@.dom());
            assert forall|k: K::V| #[trigger] r@.contains_key(k) implies cloned::<V>(
                self@[k],
                r@[k],
            ) by {
                self.keys().index_of_first_ensures(k);
                let i = self.keys().index_of_first(k).unwrap();
                assert(r.values()[i] == entries@[i].1);
            }
        }
        r
    }
}

/// Where things stand after a push of something new.
proof fn lemma_pushed<A>(s: Seq<A>, a: A)
    requires
        !s.contains(a),
    ensures
        forall|x: A| #[trigger] s.push(a).contains(x) <==> s.contains(x) || x == a,
        forall|x: A|
            s.contains(x) ==> #[trigger] s.push(a).index_of_first(x) == s.index_of_first(x),
        s.push(a).index_of_first(a) == Some(s.len() as int),
        s.no_duplicates() ==> s.push(a).no_duplicates(),
{
    let t = s.push(a);
    assert(t[s.len() as int] == a);
    assert forall|x: A| #[trigger] t.contains(x) <==> s.contains(x) || x == a by {
        if s.contains(x) {
            let i = choose|i: int| 0 <= i < s.len() && s[i] == x;
            assert(t[i] == x);
        }
    }
    assert forall|x: A| s.contains(x) implies #[trigger] t.index_of_first(x) == s.index_of_first(
        x,
    ) by {
        s.index_of_first_ensures(x);
        t.index_of_first_ensures(x);
        let i = s.index_of_first(x).unwrap();
        let j = t.index_of_first(x).unwrap();
        assert(t[i] == x);
        if j < s.len() {
            assert(s[j] == x);
        }
    }
    t.index_of_first_ensures(a);
    let j = t.index_of_first(a).unwrap();
    if j < s.len() {
        assert(s[j] == a);
    }
}

} // verus!
