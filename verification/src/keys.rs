//! The keys of a map in ascending order.

use crate::sort::{sort_indices, sorts, Ascending};
use std::collections::HashMap;
use vstd::prelude::*;
use vstd::std_specs::iter::IteratorSpec;

verus! {

/// Each number is larger than the one before.
pub open spec fn ascending(s: Seq<u64>) -> bool {
    forall|i: int, j: int| 0 <= i < j < s.len() ==> #[trigger] s[i] < #[trigger] s[j]
}

/// `s` lists the members of `set` in ascending order.
pub open spec fn lists_ascending(set: Set<u64>, s: Seq<u64>) -> bool {
    &&& ascending(s)
    &&& forall|k: u64| #[trigger] s.contains(k) <==> set.contains(k)
}

/// The members of `set` in ascending order.
pub open spec fn ascending_keys(set: Set<u64>) -> Seq<u64> {
    choose|s: Seq<u64>| lists_ascending(set, s)
}

/// There is one ascending list of the members of a set.
pub proof fn lemma_ascending_unique(set: Set<u64>, s: Seq<u64>)
    requires
        lists_ascending(set, s),
    ensures
        ascending_keys(set) == s,
{
    let t = ascending_keys(set);
    assert(lists_ascending(set, t));
    lemma_same_lists(s, t, s.len());
    lemma_same_lists(t, s, t.len());
    if s.len() < t.len() {
        assert(t.contains(t[s.len() as int]));
        assert(s.contains(t[s.len() as int]));
        let j = choose|j: int| 0 <= j < s.len() && s[j] == t[s.len() as int];
        assert(t[j] == s[j]);
    }
    if t.len() < s.len() {
        assert(s.contains(s[t.len() as int]));
        assert(t.contains(s[t.len() as int]));
        let j = choose|j: int| 0 <= j < t.len() && t[j] == s[t.len() as int];
        assert(s[j] == t[j]);
    }
    assert(s =~= t);
}

proof fn lemma_same_lists(s: Seq<u64>, t: Seq<u64>, n: nat)
    requires
        ascending(s),
        ascending(t),
        forall|k: u64| #[trigger] s.contains(k) <==> t.contains(k),
        n <= s.len(),
    ensures
        forall|i: int| 0 <= i < n && i < t.len() ==> s[i] == t[i],
    decreases n,
{
    if n > 0 {
        lemma_same_lists(s, t, (n - 1) as nat);
        let i = n - 1;
        if i < t.len() {
            assert(s.contains(s[i]));
            assert(t.contains(s[i]));
            assert(t.contains(t[i]));
            assert(s.contains(t[i]));
            let a = choose|a: int| 0 <= a < t.len() && t[a] == s[i];
            let b = choose|b: int| 0 <= b < s.len() && s[b] == t[i];
            if a < i {
                assert(s[a] == t[a]);
            }
            if b < i {
                assert(t[b] == s[b]);
            }
        }
    }
}

/// The keys of a map, in ascending order.
pub fn sorted_keys<V>(m: &HashMap<u64, V>) -> (r: Vec<u64>)
    ensures
        lists_ascending(m@.dom(), r@),
        r@ == ascending_keys(m@.dom()),
{
    let mut raw: Vec<Ascending> = Vec::new();
    let ghost all = vstd::std_specs::hash::spec_keys_iter(m).remaining();
    for k in it: m.keys()
        invariant
            it.seq() == all,
            raw@.len() == it.index(),
            forall|i: int| 0 <= i < raw@.len() ==> (#[trigger] raw@[i]).number == *all[i],
    {
        raw.push(Ascending { number: *k });
    }
    assert(raw@.len() == all.len());
    assert(all.unref().to_set() == m@.dom());
    let p: Vec<usize> = sort_indices(&raw);
    let mut out: Vec<u64> = Vec::new();
    let mut i: usize = 0;
    while i < p.len()
        invariant
            i <= p@.len(),
            sorts(raw@, p@),
            out@.len() == i,
            forall|j: int| 0 <= j < i ==> #[trigger] out@[j] == raw@[p@[j] as int].number,
        decreases p@.len() - i,
    {
        out.push(raw[p[i]].number);
        i += 1;
    }
    proof {
        assert(all.no_duplicates());
        assert forall|a: int, b: int| 0 <= a < b < out@.len() implies #[trigger] out@[a]
            < #[trigger] out@[b] by {
            let x = p@[a];
            let y = p@[b];
            assert(crate::sort::precedes(raw@, x, y));
            if raw@[x as int].number == raw@[y as int].number {
                assert(all[x as int] == all[y as int]);
            }
        }
        assert forall|k: u64| #[trigger] out@.contains(k) <==> m@.dom().contains(k) by {
            if out@.contains(k) {
                let j = choose|j: int| 0 <= j < out@.len() && out@[j] == k;
                assert(all.unref()[p@[j] as int] == k);
                assert(all.unref().contains(k));
                assert(all.unref().to_set().contains(k));
            }
            if m@.dom().contains(k) {
                assert(all.unref().to_set().contains(k));
                let j = choose|j: int| 0 <= j < all.unref().len() && all.unref()[j] == k;
                assert(*all[j] == k);
                lemma_places_covered(raw@.len(), p@, j);
                let c = choose|c: int| 0 <= c < p@.len() && p@[c] == j;
                assert(out@[c] == k);
            }
        }
        lemma_ascending_unique(m@.dom(), out@);
    }
    out
}

/// A list of all places, each once, holds every place.
pub proof fn lemma_places_covered(n: nat, p: Seq<usize>, j: int)
    requires
        p.len() == n,
        p.no_duplicates(),
        forall|a: int| 0 <= a < p.len() ==> (#[trigger] p[a]) < n,
        0 <= j < n,
    ensures
        exists|c: int| 0 <= c < p.len() && p[c] == j,
{
    let places = p.map_values(|x: usize| x as int);
    let all = vstd::set_lib::set_int_range(0, n as int);
    vstd::set_lib::lemma_int_range(0, n as int);
    assert(places.no_duplicates());
    places.unique_seq_to_set();
    assert forall|x: int| places.to_set().contains(x) implies all.contains(x) by {
        let a = choose|a: int| 0 <= a < places.len() && places[a] == x;
        assert(p[a] < n);
    }
    vstd::set_lib::lemma_subset_equality(places.to_set(), all);
    assert(places.to_set().contains(j));
    let c = choose|c: int| 0 <= c < places.len() && places[c] == j;
    assert(p[c] == j);
}

/// The members of `set` below `n` in ascending order.
spec fn members_below(set: Set<u64>, n: nat) -> Seq<u64>
    decreases n,
{
    if n == 0 {
        Seq::empty()
    } else {
        let before = members_below(set, (n - 1) as nat);
        if set.contains((n - 1) as u64) {
            before.push((n - 1) as u64)
        } else {
            before
        }
    }
}

proof fn lemma_members_below(set: Set<u64>, n: nat)
    requires
        n <= u64::MAX + 1,
    ensures
        ascending(members_below(set, n)),
        forall|k: u64| #[trigger]
            members_below(set, n).contains(k) <==> set.contains(k) && k < n,
    decreases n,
{
    if n > 0 {
        let m = (n - 1) as nat;
        lemma_members_below(set, m);
        let before = members_below(set, m);
        let now = members_below(set, n);
        assert forall|i: int| 0 <= i < before.len() implies #[trigger] before[i] < m by {
            assert(before.contains(before[i]));
        }
        assert forall|k: u64| #[trigger] now.contains(k) <==> set.contains(k) && k < n by {
            if now.contains(k) {
                let i = choose|i: int| 0 <= i < now.len() && now[i] == k;
                if i < before.len() {
                    assert(before.contains(before[i]));
                }
            }
            if set.contains(k) && k < m {
                assert(before.contains(k));
                let i = choose|i: int| 0 <= i < before.len() && before[i] == k;
                assert(now[i] == k);
            }
            if set.contains(k) && k == m {
                assert(now[before.len() as int] == k);
            }
        }
    }
}

/// Every set of numbers can be listed in ascending order.
pub proof fn lemma_keys_listed(set: Set<u64>)
    ensures
        lists_ascending(set, ascending_keys(set)),
{
    lemma_members_below(set, (u64::MAX + 1) as nat);
    assert(lists_ascending(set, members_below(set, (u64::MAX + 1) as nat)));
}

} // verus!
