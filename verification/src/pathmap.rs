//! A map from texts that keeps its entries in the order in which their keys
//! first came in.

use vstd::hash_map::StringHashMap;
use vstd::prelude::*;

verus! {

/// A map from texts.
pub struct PathMap<V> {
    keys: Vec<String>,
    values: Vec<V>,
    index: StringHashMap<usize>,
}

impl<V> View for PathMap<V> {
    type V = Map<Seq<char>, V>;

    closed spec fn view(&self) -> Map<Seq<char>, V> {
        Map::new(
            |k: Seq<char>| self.index@.contains_key(k),
            |k: Seq<char>| self.values@[self.index@[k] as int],
        )
    }
}

impl<V> PathMap<V> {
    /// The keys in their order.
    pub closed spec fn order(&self) -> Seq<Seq<char>> {
        Seq::new(self.keys@.len(), |i: int| self.keys@[i]@)
    }

    /// The values in the order of their keys.
    pub closed spec fn vals(&self) -> Seq<V> {
        self.values@
    }

    /// The parts of the map agree.
    pub closed spec fn wf(&self) -> bool {
        &&& self.keys@.len() == self.values@.len()
        &&& forall|i: int|
            #![trigger self.keys@[i]]
            0 <= i < self.keys@.len() ==> self.index@.contains_key(self.keys@[i]@)
                && self.index@[self.keys@[i]@] == i
        &&& forall|c: Seq<char>|
            #[trigger] self.index@.contains_key(c) ==> self.index@[c] < self.keys@.len()
                && self.keys@[self.index@[c] as int]@ == c
    }

    /// What the order and the values say about the map.
    pub proof fn lemma_order(&self)
        requires
            self.wf(),
        ensures
            self.order().len() == self.vals().len(),
            self.order().no_duplicates(),
            forall|i: int|
                #![trigger self.order()[i]]
                0 <= i < self.order().len() ==> self@.contains_key(self.order()[i])
                    && self@[self.order()[i]] == self.vals()[i],
            forall|k: Seq<char>|
                #[trigger] self@.contains_key(k) ==> exists|i: int|
                    0 <= i < self.order().len() && #[trigger] self.order()[i] == k,
    {
        assert forall|k: Seq<char>| #[trigger] self@.contains_key(k) implies exists|i: int|
            0 <= i < self.order().len() && #[trigger] self.order()[i] == k by {
            let i = self.index@[k] as int;
            assert(self.order()[i] == k);
        }
        assert forall|i: int|
            #![trigger self.order()[i]]
            0 <= i < self.order().len() implies self@.contains_key(self.order()[i])
            && self@[self.order()[i]] == self.vals()[i] by {
            assert(self.keys@[i]@ == self.order()[i]);
        }
        assert forall|i: int, j: int|
            0 <= i < self.order().len() && 0 <= j < self.order().len() && i != j implies #[trigger] self.order()[i]
            != #[trigger] self.order()[j] by {
            assert(self.keys@[i]@ == self.order()[i]);
            assert(self.keys@[j]@ == self.order()[j]);
        }
    }

    /// An empty map.
    pub fn new() -> (r: Self)
        ensures
            r.wf(),
            r@ == Map::<Seq<char>, V>::empty(),
            r.order().len() == 0,
    {
        let r = PathMap { keys: Vec::new(), values: Vec::new(), index: StringHashMap::new() };
        assert(r@ =~= Map::<Seq<char>, V>::empty());
        r
    }

    /// How many entries there are.
    pub fn len(&self) -> (r: usize)
        ensures
            r == self.order().len(),
    {
        self.keys.len()
    }

    /// Whether there is an entry for the key.
    pub fn contains_key(&self, k: &str) -> (r: bool)
        requires
            self.wf(),
        ensures
            r == self@.contains_key(k@),
    {
        self.index.contains_key(k)
    }

    /// The value for the key.
    pub fn get(&self, k: &str) -> (r: Option<&V>)
        requires
            self.wf(),
        ensures
            match r {
                Some(v) => self@.contains_key(k@) && *v == self@[k@],
                None => !self@.contains_key(k@),
            },
    {
        match self.index.get(k) {
            Some(i) => Some(&self.values[*i]),
            None => None,
        }
    }

    /// The key at a place in the order.
    pub fn key_at(&self, i: usize) -> (r: &String)
        requires
            self.wf(),
            i < self.order().len(),
        ensures
            r@ == self.order()[i as int],
    {
        &self.keys[i]
    }

    /// The value at a place in the order.
    pub fn value_at(&self, i: usize) -> (r: &V)
        requires
            self.wf(),
            i < self.order().len(),
        ensures
            *r == self.vals()[i as int],
    {
        &self.values[i]
    }

    /// Sets the value for the key. A new key comes last in the order.
    pub fn insert(&mut self, k: String, v: V)
        requires
            old(self).wf(),
        ensures
            final(self).wf(),
            final(self)@ == old(self)@.insert(k@, v),
    {
        let found: Option<usize> = match self.index.get(k.as_str()) {
            Some(i) => Some(*i),
            None => None,
        };
        match found {
            Some(i) => {
                self.values.set(i, v);
                proof {
                    assert(self@ =~= old(self)@.insert(k@, v));
                }
            },
            None => {
                let n: usize = self.keys.len();
                self.index.insert(k.clone(), n);
                self.keys.push(k);
                self.values.push(v);
                proof {
                    assert(self@ =~= old(self)@.insert(k@, v));
                }
            },
        }
    }
}

} // verus!
