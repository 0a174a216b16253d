//! Stable sorting by a key.

use crate::text::{lemma_text_less_total, lemma_text_less_trans, str_less, text_less};
use vstd::prelude::*;

verus! {

/// A key to sort by.
pub trait Ranked: Sized {
    /// `self` has to come before `other`.
    spec fn ranks_before(&self, other: &Self) -> bool;

    /// Nothing comes before itself, and what comes before what comes before a
    /// key comes before the key; keys of which none comes first are alike.
    proof fn ranking(a: &Self, b: &Self, c: &Self)
        ensures
            !a.ranks_before(a),
            a.ranks_before(b) && b.ranks_before(c) ==> a.ranks_before(c),
            a.ranks_before(c) ==> a.ranks_before(b) || b.ranks_before(c),
    ;

    /// Whether `self` has to come before `other`.
    fn is_before(&self, other: &Self) -> (r: bool)
        ensures
            r == self.ranks_before(other),
    ;
}

/// Item `i` comes before item `j` in the sorted order: by the keys, and by
/// their places where the keys are alike.
pub open spec fn precedes<K: Ranked>(keys: Seq<K>, i: usize, j: usize) -> bool {
    keys[i as int].ranks_before(&keys[j as int]) || (!keys[j as int].ranks_before(&keys[i as int])
        && i < j)
}

/// Every item comes before the next ones.
pub open spec fn in_order<K: Ranked>(keys: Seq<K>, p: Seq<usize>) -> bool {
    forall|a: int, b: int| 0 <= a < b < p.len() ==> precedes(keys, #[trigger] p[a], #[trigger] p[b])
}

/// `p` lists the places of all keys, each once, in the sorted order.
pub open spec fn sorts<K: Ranked>(keys: Seq<K>, p: Seq<usize>) -> bool {
    &&& p.len() == keys.len()
    &&& p.no_duplicates()
    &&& forall|a: int| 0 <= a < p.len() ==> (#[trigger] p[a]) < keys.len()
    &&& in_order(keys, p)
}

proof fn lemma_precedes<K: Ranked>(keys: Seq<K>, i: usize, j: usize, k: usize)
    ensures
        i != j ==> precedes(keys, i, j) || precedes(keys, j, i),
        precedes(keys, i, j) && precedes(keys, j, k) ==> precedes(keys, i, k),
{
    let (a, b, c) = (&keys[i as int], &keys[j as int], &keys[k as int]);
    K::ranking(a, b, c);
    K::ranking(b, c, a);
    K::ranking(c, a, b);
    K::ranking(a, c, b);
    K::ranking(c, b, a);
    K::ranking(b, a, c);
    K::ranking(a, b, a);
    K::ranking(b, a, b);
}

/// Merges two sorted lists of places.
fn merge<K: Ranked>(keys: &Vec<K>, left: Vec<usize>, right: Vec<usize>) -> (r: Vec<usize>)
    requires
        in_order(keys@, left@),
        in_order(keys@, right@),
        forall|a: int| 0 <= a < left@.len() ==> (#[trigger] left@[a]) < keys@.len(),
        forall|a: int| 0 <= a < right@.len() ==> (#[trigger] right@[a]) < keys@.len(),
        forall|a: int, b: int|
            0 <= a < left@.len() && 0 <= b < right@.len() ==> (#[trigger] left@[a])
                != #[trigger] right@[b],
    ensures
        in_order(keys@, r@),
        r@.to_multiset() == left@.to_multiset().add(right@.to_multiset()),
{
    let mut out: Vec<usize> = Vec::new();
    let mut i: usize = 0;
    let mut j: usize = 0;
    proof {
        left@.to_multiset_ensures();
        right@.to_multiset_ensures();
        out@.to_multiset_ensures();
        assert(left@.take(0) =~= Seq::<usize>::empty());
        assert(right@.take(0) =~= Seq::<usize>::empty());
        assert(out@ =~= Seq::<usize>::empty());
        assert(out@.to_multiset() =~= left@.take(0).to_multiset().add(right@.take(0).to_multiset()));
    }
    while i < left.len() || j < right.len()
        invariant
            i <= left@.len(),
            j <= right@.len(),
            in_order(keys@, left@),
            in_order(keys@, right@),
            forall|a: int| 0 <= a < left@.len() ==> (#[trigger] left@[a]) < keys@.len(),
            forall|a: int| 0 <= a < right@.len() ==> (#[trigger] right@[a]) < keys@.len(),
            forall|a: int, b: int|
                0 <= a < left@.len() && 0 <= b < right@.len() ==> (#[trigger] left@[a])
                    != #[trigger] right@[b],
            in_order(keys@, out@),
            forall|a: int, b: int|
                0 <= a < out@.len() && i <= b < left@.len() ==> precedes(
                    keys@,
                    #[trigger] out@[a],
                    #[trigger] left@[b],
                ),
            forall|a: int, b: int|
                0 <= a < out@.len() && j <= b < right@.len() ==> precedes(
                    keys@,
                    #[trigger] out@[a],
                    #[trigger] right@[b],
                ),
            out@.to_multiset() == left@.take(i as int).to_multiset().add(
                right@.take(j as int).to_multiset(),
            ),
        decreases left@.len() - i + right@.len() - j,
    {
        let from_left: bool = if i == left.len() {
            false
        } else if j == right.len() {
            true
        } else {
            let a: usize = left[i];
            let b: usize = right[j];
            keys[a].is_before(&keys[b]) || (!keys[b].is_before(&keys[a]) && a < b)
        };
        let ghost before = out@;
        if from_left {
            let x: usize = left[i];
            proof {
                assert forall|b: int| j <= b < right@.len() implies precedes(
                    keys@,
                    x,
                    #[trigger] right@[b],
                ) by {
                    assert(precedes(keys@, x, right@[j as int]));
                    if b > j {
                        assert(precedes(keys@, right@[j as int], right@[b]));
                        lemma_precedes(keys@, x, right@[j as int], right@[b]);
                    }
                }
            }
            out.push(x);
            proof {
                before.to_multiset_ensures();
                left@.take(i as int).to_multiset_ensures();
                assert(left@.take(i + 1) =~= left@.take(i as int).push(x));
                assert(out@.to_multiset() =~= left@.take(i + 1).to_multiset().add(
                    right@.take(j as int).to_multiset(),
                ));
            }
            i += 1;
        } else {
            let x: usize = right[j];
            proof {
                assert forall|b: int| i <= b < left@.len() implies precedes(
                    keys@,
                    x,
                    #[trigger] left@[b],
                ) by {
                    lemma_precedes(keys@, left@[i as int], x, x);
                    assert(precedes(keys@, x, left@[i as int]));
                    if b > i {
                        assert(precedes(keys@, left@[i as int], left@[b]));
                        lemma_precedes(keys@, x, left@[i as int], left@[b]);
                    }
                }
            }
            out.push(x);
            proof {
                before.to_multiset_ensures();
                right@.take(j as int).to_multiset_ensures();
                assert(right@.take(j + 1) =~= right@.take(j as int).push(x));
                assert(out@.to_multiset() =~= left@.take(i as int).to_multiset().add(
                    right@.take(j + 1).to_multiset(),
                ));
            }
            j += 1;
        }
    }
    assert(left@.take(left@.len() as int) =~= left@);
    assert(right@.take(right@.len() as int) =~= right@);
    out
}

/// The places `from..to` in sorted order.
fn sort_range<K: Ranked>(keys: &Vec<K>, from: usize, to: usize) -> (r: Vec<usize>)
    requires
        from <= to <= keys@.len(),
    ensures
        in_order(keys@, r@),
        r@.to_multiset() == Seq::new((to - from) as nat, |i: int| (from + i) as usize).to_multiset(),
    decreases to - from,
{
    let ghost all = Seq::new((to - from) as nat, |i: int| (from + i) as usize);
    if to - from <= 1 {
        let mut out: Vec<usize> = Vec::new();
        if from < to {
            out.push(from);
        }
        assert(out@ =~= all);
        return out;
    }
    let mid: usize = from + (to - from) / 2;
    let left = sort_range(keys, from, mid);
    let right = sort_range(keys, mid, to);
    let ghost lo = Seq::new((mid - from) as nat, |i: int| (from + i) as usize);
    let ghost hi = Seq::new((to - mid) as nat, |i: int| (mid + i) as usize);
    proof {
        lo.to_multiset_ensures();
        hi.to_multiset_ensures();
        left@.to_multiset_ensures();
        right@.to_multiset_ensures();
        assert forall|a: int| 0 <= a < left@.len() implies from <= (#[trigger] left@[a]) < mid by {
            assert(left@.to_multiset().count(left@[a]) > 0);
            assert(lo.contains(left@[a]));
        }
        assert forall|a: int| 0 <= a < right@.len() implies mid <= (#[trigger] right@[a]) < to by {
            assert(right@.to_multiset().count(right@[a]) > 0);
            assert(hi.contains(right@[a]));
        }
        assert(lo + hi =~= all);
        vstd::seq_lib::lemma_multiset_commutative(lo, hi);
    }
    merge(keys, left, right)
}

/// Sorts the places of the keys. Places of keys that are alike keep their order.
pub fn sort_indices<K: Ranked>(keys: &Vec<K>) -> (p: Vec<usize>)
    ensures
        sorts(keys@, p@),
{
    let p = sort_range(keys, 0, keys.len());
    proof {
        let all = Seq::new(keys@.len(), |i: int| (0 + i) as usize);
        p@.to_multiset_ensures();
        all.to_multiset_ensures();
        assert(all.no_duplicates());
        assert(p@.to_multiset().len() == all.to_multiset().len());
        assert forall|a: int| 0 <= a < p@.len() implies (#[trigger] p@[a]) < keys@.len() by {
            assert(p@.to_multiset().count(p@[a]) > 0);
            assert(all.contains(p@[a]));
        }
        all.lemma_multiset_has_no_duplicates();
        p@.lemma_multiset_has_no_duplicates_conv();
    }
    p
}

// ---------------------------------------------------------------------------
// Keys
// ---------------------------------------------------------------------------

/// A number, smaller ones first.
pub struct Ascending {
    pub number: u64,
}

impl Ranked for Ascending {
    open spec fn ranks_before(&self, other: &Self) -> bool {
        self.number < other.number
    }

    proof fn ranking(a: &Self, b: &Self, c: &Self) {
    }

    fn is_before(&self, other: &Self) -> (r: bool) {
        self.number < other.number
    }
}

/// A text, in the order of `str`.
pub struct ByText {
    pub text: String,
}

impl Ranked for ByText {
    open spec fn ranks_before(&self, other: &Self) -> bool {
        text_less(self.text@, other.text@)
    }

    proof fn ranking(a: &Self, b: &Self, c: &Self) {
        lemma_text_less_total(a.text@, a.text@);
        lemma_text_less_total(a.text@, b.text@);
        lemma_text_less_total(b.text@, c.text@);
        if text_less(a.text@, b.text@) && text_less(b.text@, c.text@) {
            lemma_text_less_trans(a.text@, b.text@, c.text@);
        }
        if text_less(a.text@, c.text@) && text_less(b.text@, a.text@) {
            lemma_text_less_trans(b.text@, a.text@, c.text@);
        }
    }

    fn is_before(&self, other: &Self) -> (r: bool) {
        str_less(self.text.as_str(), other.text.as_str())
    }
}

/// A size and a path: larger ones first, the path decides between equal sizes.
pub struct BySize {
    pub size: u64,
    pub path: String,
}

/// The order of sizes and paths.
pub open spec fn size_before(size_a: u64, path_a: Seq<char>, size_b: u64, path_b: Seq<char>) -> bool {
    size_a > size_b || (size_a == size_b && text_less(path_a, path_b))
}

impl Ranked for BySize {
    open spec fn ranks_before(&self, other: &Self) -> bool {
        size_before(self.size, self.path@, other.size, other.path@)
    }

    proof fn ranking(a: &Self, b: &Self, c: &Self) {
        lemma_text_less_total(a.path@, a.path@);
        lemma_text_less_total(a.path@, b.path@);
        lemma_text_less_total(b.path@, c.path@);
        if text_less(a.path@, b.path@) && text_less(b.path@, c.path@) {
            lemma_text_less_trans(a.path@, b.path@, c.path@);
        }
        if text_less(a.path@, c.path@) && text_less(b.path@, a.path@) {
            lemma_text_less_trans(b.path@, a.path@, c.path@);
        }
    }

    fn is_before(&self, other: &Self) -> (r: bool) {
        self.size > other.size || (self.size == other.size && str_less(
            self.path.as_str(),
            other.path.as_str(),
        ))
    }
}

} // verus!
