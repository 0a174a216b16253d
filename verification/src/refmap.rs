//! A map from file references that keeps its entries in the order in which
//! their keys first came in.

use crate::mft::FileRef;
use std::collections::HashMap;
use vstd::prelude::*;

verus! {

/// The number that stands for a file reference.
pub open spec fn ref_code(r: FileRef) -> u128 {
    (r.record_no * 0x1_0000 + r.sequence) as u128
}

/// Different references have different numbers.
pub proof fn lemma_ref_code_injective(a: FileRef, b: FileRef)
    requires
        ref_code(a) == ref_code(b),
    ensures
        a == b,
{
}

fn code_of(r: FileRef) -> (c: u128)
    ensures
        c == ref_code(r),
{
    r.record_no as u128 * 0x1_0000 + r.sequence as u128
}

/// A map from file references.
#[derive(Debug, Clone)]
pub struct RefMap<V> {
    keys: Vec<FileRef>,
    values: Vec<V>,
    index: HashMap<u128, usize>,
}

impl<V> View for RefMap<V> {
    type V = Map<FileRef, V>;

    closed spec fn view(&self) -> Map<FileRef, V> {
        Map::new(
            |k: FileRef| self.index@.contains_key(ref_code(k)),
            |k: FileRef| self.values@[self.index@[ref_code(k)] as int],
        )
    }
}

impl<V> RefMap<V> {
    /// The keys in their order.
    pub closed spec fn order(&self) -> Seq<FileRef> {
        self.keys@
    }

    /// The values in the order of their keys.
    pub closed spec fn vals(&self) -> Seq<V> {
        self.values@
    }

    /// The parts of the map agree.
    pub closed spec fn wf(&self) -> bool {
        &&& self.keys@.len() == self.values@.len()
        &&& forall|i: int|
            #![trigger self.keys@[i]]
            0 <= i < self.keys@.len() ==> self.index@.contains_key(ref_code(self.keys@[i]))
                && self.index@[ref_code(self.keys@[i])] == i
        &&& forall|c: u128|
            #[trigger] self.index@.contains_key(c) ==> self.index@[c] < self.keys@.len()
                && ref_code(self.keys@[self.index@[c] as int]) == c
    }

    /// What the order and the values say about the map.
    pub broadcast proof fn lemma_order(&self)
        requires
            #[trigger] self.wf(),
        ensures
            self.order().len() == self.vals().len(),
            self.order().no_duplicates(),
            forall|i: int|
                #![trigger self.order()[i]]
                0 <= i < self.order().len() ==> self@.contains_key(self.order()[i])
                    && self@[self.order()[i]] == self.vals()[i],
            forall|k: FileRef|
                #[trigger] self@.contains_key(k) ==> exists|i: int|
                    0 <= i < self.order().len() && #[trigger] self.order()[i] == k,
    {
        assert forall|k: FileRef| #[trigger] self@.contains_key(k) implies exists|i: int|
            0 <= i < self.order().len() && #[trigger] self.order()[i] == k by {
            let i = self.index@[ref_code(k)] as int;
            lemma_ref_code_injective(self.keys@[i], k);
            assert(self.order()[i] == k);
        }
    }

    /// The map is as large as its list of keys.
    pub proof fn lemma_len(&self)
        requires
            self.wf(),
        ensures
            self@.dom().finite(),
            self@.len() == self.order().len(),
    {
        self.lemma_order();
        assert(self@.dom() =~= self.order().to_set());
        self.order().unique_seq_to_set();
    }

    /// An empty map.
    pub fn new() -> (r: Self)
        ensures
            r.wf(),
            r@ == Map::<FileRef, V>::empty(),
            r.order().len() == 0,
    {
        let r = RefMap { keys: Vec::new(), values: Vec::new(), index: HashMap::new() };
        assert(r@ =~= Map::<FileRef, V>::empty());
        r
    }

    /// How many entries there are.
    pub fn len(&self) -> (r: usize)
        requires
            self.wf(),
        ensures
            r == self.order().len(),
            r == self@.len(),
    {
        proof {
            self.lemma_len();
        }
        self.keys.len()
    }

    /// Where the key stands in the order.
    pub fn position(&self, k: FileRef) -> (r: Option<usize>)
        requires
            self.wf(),
        ensures
            match r {
                Some(i) => i < self.order().len() && self.order()[i as int] == k
                    && self@.contains_key(k) && self@[k] == self.vals()[i as int],
                None => !self@.contains_key(k),
            },
    {
        match self.index.get(&code_of(k)) {
            Some(i) => {
                proof {
                    lemma_ref_code_injective(self.keys@[*i as int], k);
                }
                Some(*i)
            },
            None => None,
        }
    }

    /// Whether there is an entry for the key.
    pub fn contains_key(&self, k: &FileRef) -> (r: bool)
        requires
            self.wf(),
        ensures
            r == self@.contains_key(*k),
    {
        self.position(*k).is_some()
    }

    /// The value for the key.
    pub fn get(&self, k: &FileRef) -> (r: Option<&V>)
        requires
            self.wf(),
        ensures
            match r {
                Some(v) => self@.contains_key(*k) && *v == self@[*k],
                None => !self@.contains_key(*k),
            },
    {
        match self.position(*k) {
            Some(i) => Some(&self.values[i]),
            None => None,
        }
    }

    /// The key at a place in the order.
    pub fn key_at(&self, i: usize) -> (r: FileRef)
        requires
            self.wf(),
            i < self.order().len(),
        ensures
            r == self.order()[i as int],
    {
        self.keys[i]
    }

    /// The value at a place in the order.
    pub fn value_at(&self, i: usize) -> (r: &V)
        requires
            self.wf(),
            i < self.order().len(),
        ensures
            *r == self.vals()[i as int],
    {
        &self.values[i]
    }

    /// The keys in their order.
    pub fn keys(&self) -> (r: &Vec<FileRef>)
        ensures
            r@ == self.order(),
    {
        &self.keys
    }

    /// The values in the order of their keys.
    pub fn values(&self) -> (r: &Vec<V>)
        ensures
            r@ == self.vals(),
    {
        &self.values
    }

    /// Access to the value at a place in the order.
    pub fn value_mut(&mut self, i: usize) -> (r: &mut V)
        requires
            old(self).wf(),
            i < old(self).order().len(),
        ensures
            *r == old(self).vals()[i as int],
            final(self).wf(),
            final(self).order() == old(self).order(),
            final(self).vals() == old(self).vals().update(i as int, *final(r)),
            final(self)@ == old(self)@.insert(old(self).order()[i as int], *final(r)),
    {
        &mut self.values[i]
    }

    /// Sets the value for the key. A new key comes last in the order.
    pub fn insert(&mut self, k: FileRef, v: V)
        requires
            old(self).wf(),
        ensures
            final(self).wf(),
            final(self)@ == old(self)@.insert(k, v),
            old(self)@.contains_key(k) ==> final(self).order() == old(self).order(),
            !old(self)@.contains_key(k) ==> {
                &&& final(self).order() == old(self).order().push(k)
                &&& final(self).vals() == old(self).vals().push(v)
            },
    {
        match self.position(k) {
            Some(i) => {
                self.values.set(i, v);
                proof {
                    assert(self@ =~= old(self)@.insert(k, v)) by {
                        assert forall|x: FileRef| #[trigger]
                            old(self)@.contains_key(x) && x != k implies self@[x]
                            == old(self)@[x] by {
                            let a = self.index@[ref_code(x)] as int;
                            lemma_ref_code_injective(self.keys@[a], x);
                        }
                    }
                }
            },
            None => {
                let n: usize = self.keys.len();
                self.index.insert(code_of(k), n);
                self.keys.push(k);
                self.values.push(v);
                proof {
                    assert forall|x: FileRef| ref_code(x) == ref_code(k) implies x == k by {
                        lemma_ref_code_injective(x, k);
                    }
                    assert(self@ =~= old(self)@.insert(k, v));
                    assert(self.wf());
                }
            },
        }
    }
}

/// A map whose keys are keys of another is no larger than the other.
pub proof fn lemma_submap_len<A, B>(a: &RefMap<A>, b: &RefMap<B>)
    requires
        a.wf(),
        b.wf(),
        forall|k: FileRef| #[trigger] a@.contains_key(k) ==> b@.contains_key(k),
    ensures
        a.order().len() <= b.order().len(),
{
    a.lemma_len();
    b.lemma_len();
    assert(a@.dom().subset_of(b@.dom()));
    vstd::set_lib::lemma_len_subset(a@.dom(), b@.dom());
}

} // verus!
