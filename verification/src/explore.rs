//! Exploring a tree from its root: what is known of the items that were looked
//! at and of those that still wait, whatever the order they are taken in.

use vstd::prelude::*;

verus! {

/// `x` is `k` steps away from `root`, where `kids` are the items below an item.
pub open spec fn reached_in<T>(root: T, kids: spec_fn(T) -> Seq<T>, x: T, k: nat) -> bool
    decreases k,
{
    if k == 0 {
        x == root
    } else {
        exists|p: T| reached_in(root, kids, p, (k - 1) as nat) && #[trigger] kids(p).contains(x)
    }
}

/// `x` lies below `root`, or is the root.
pub open spec fn is_reached<T>(root: T, kids: spec_fn(T) -> Seq<T>, x: T) -> bool {
    exists|k: nat| reached_in(root, kids, x, k)
}

/// No item lies below two others or twice below one, and the root lies below none.
pub open spec fn grows_apart<T>(root: T, kids: spec_fn(T) -> Seq<T>) -> bool {
    &&& forall|p: T, q: T, x: T|
        is_reached(root, kids, p) && is_reached(root, kids, q) && #[trigger] kids(p).contains(x)
            && #[trigger] kids(q).contains(x) ==> p == q
    &&& forall|p: T| is_reached(root, kids, p) ==> (#[trigger] kids(p)).no_duplicates()
    &&& forall|p: T| is_reached(root, kids, p) ==> !(#[trigger] kids(p)).contains(root)
}

/// One of the first `n` items lies directly above `x`.
pub open spec fn has_parent<T>(kids: spec_fn(T) -> Seq<T>, done: Seq<T>, n: int, x: T) -> bool {
    exists|j: int| 0 <= j < n && kids(#[trigger] done[j]).contains(x)
}

/// The items in `done` were looked at, in this order, and those in `waiting`
/// are still to be looked at.
pub open spec fn is_exploring<T>(
    root: T,
    kids: spec_fn(T) -> Seq<T>,
    done: Seq<T>,
    waiting: Seq<T>,
) -> bool {
    let all = done + waiting;
    &&& all.len() > 0
    &&& all[0] == root
    &&& all.no_duplicates()
    &&& forall|i: int| 0 <= i < all.len() ==> is_reached(root, kids, #[trigger] all[i])
    &&& done.len() == 0 ==> all.len() == 1
    &&& forall|i: int|
        0 < i < all.len() ==> has_parent(
            kids,
            done,
            if i < done.len() {
                i
            } else {
                done.len() as int
            },
            #[trigger] all[i],
        )
    &&& forall|j: int, x: T|
        #![trigger kids(done[j]).contains(x)]
        0 <= j < done.len() && kids(done[j]).contains(x) ==> all.contains(x)
}

/// At the beginning the root waits.
pub proof fn lemma_exploring_starts<T>(root: T, kids: spec_fn(T) -> Seq<T>)
    ensures
        is_exploring(root, kids, Seq::empty(), seq![root]),
{
    let all = Seq::<T>::empty() + seq![root];
    assert(all =~= seq![root]);
    assert(reached_in(root, kids, root, 0));
}

/// What lies below a reached item is reached.
pub proof fn lemma_reached_kid<T>(root: T, kids: spec_fn(T) -> Seq<T>, p: T, x: T)
    requires
        is_reached(root, kids, p),
        kids(p).contains(x),
    ensures
        is_reached(root, kids, x),
{
    let k = choose|k: nat| reached_in(root, kids, p, k);
    let m: nat = k + 1;
    assert((m - 1) as nat == k);
    assert(reached_in(root, kids, p, (m - 1) as nat) && kids(p).contains(x));
    assert(reached_in(root, kids, x, m));
}

/// Where the item stood that stands at place `a` after the one at place `i` of
/// those that wait was moved to the end of the `n` that are done.
spec fn old_place(n: int, i: int, a: int) -> int {
    if a == n {
        n + i
    } else if n < a <= n + i {
        a - 1
    } else {
        a
    }
}

/// Looking at the item at place `i` of those that wait.
pub proof fn lemma_exploring_goes_on<T>(
    root: T,
    kids: spec_fn(T) -> Seq<T>,
    done: Seq<T>,
    waiting: Seq<T>,
    i: int,
)
    requires
        grows_apart(root, kids),
        is_exploring(root, kids, done, waiting),
        0 <= i < waiting.len(),
    ensures
        is_exploring(root, kids, done.push(waiting[i]), waiting.remove(i) + kids(waiting[i])),
{
    let y = waiting[i];
    let below = kids(y);
    let all = done + waiting;
    let n = done.len() as int;
    let rest = waiting.remove(i);
    let done2 = done.push(y);
    let waiting2 = rest + below;
    let all2 = done2 + waiting2;
    let m = all.len() as int;
    assert(all[n + i] == y);
    assert(is_reached(root, kids, y));
    assert(m == all2.len() - below.len());
    assert forall|a: int| 0 <= a < m implies #[trigger] all2[a] == all[old_place(n, i, a)] by {}
    assert forall|a: int| 0 <= a < m implies all2.contains(#[trigger] all[a]) by {
        let b = if a == n + i {
            n
        } else if n <= a < n + i {
            a + 1
        } else {
            a
        };
        assert(old_place(n, i, b) == a);
        assert(all2[b] == all[a]);
    }
    // No kid of `y` was found before.
    assert forall|x: T| #[trigger] below.contains(x) implies !all.contains(x) by {
        if all.contains(x) {
            let a = choose|a: int| 0 <= a < m && all[a] == x;
            assert(x != root);
            assert(a > 0);
            let bound = if a < n {
                a
            } else {
                n
            };
            assert(has_parent(kids, done, bound, all[a]));
            let j = choose|j: int| 0 <= j < bound && kids(#[trigger] done[j]).contains(x);
            assert(all[j] == done[j]);
            assert(is_reached(root, kids, all[j]));
            assert(kids(done[j]).contains(x) && kids(y).contains(x));
            assert(done[j] == y);
            assert(all[j] == all[n + i]);
        }
    }
    assert(all2[0] == root) by {
        if n == 0 {
            assert(m == 1);
            assert(i == 0);
        }
    }
    assert(all2.no_duplicates()) by {
        assert forall|a: int, b: int| 0 <= a < all2.len() && 0 <= b < all2.len() && a
            != b implies all2[a] != all2[b] by {
            if a < m && b < m {
                assert(old_place(n, i, a) != old_place(n, i, b));
            } else if a >= m && b >= m {
                assert(all2[a] == below[a - m]);
                assert(all2[b] == below[b - m]);
            } else if a >= m {
                assert(all2[a] == below[a - m]);
                assert(below.contains(all2[a]));
                assert(all.contains(all2[b]));
            } else {
                assert(all2[b] == below[b - m]);
                assert(below.contains(all2[b]));
                assert(all.contains(all2[a]));
            }
        }
    }
    assert forall|a: int| 0 <= a < all2.len() implies is_reached(root, kids, #[trigger] all2[a]) by {
        if a < m {
            assert(is_reached(root, kids, all[old_place(n, i, a)]));
        } else {
            assert(all2[a] == below[a - m]);
            assert(below.contains(all2[a]));
            lemma_reached_kid(root, kids, y, all2[a]);
        }
    }
    assert forall|a: int| 0 < a < all2.len() implies has_parent(
        kids,
        done2,
        if a < done2.len() {
            a
        } else {
            done2.len() as int
        },
        #[trigger] all2[a],
    ) by {
        let bound2 = if a < done2.len() {
            a
        } else {
            done2.len() as int
        };
        if a >= m {
            assert(all2[a] == below[a - m]);
            assert(kids(done2[n]).contains(all2[a]));
        } else {
            let b = old_place(n, i, a);
            if b == 0 {
                assert(n + i == 0);
            }
            let bound = if b < n {
                b
            } else {
                n
            };
            assert(has_parent(kids, done, bound, all[b]));
            let j = choose|j: int| 0 <= j < bound && kids(#[trigger] done[j]).contains(all[b]);
            assert(done2[j] == done[j]);
            assert(j < bound2);
            assert(kids(done2[j]).contains(all2[a]));
        }
    }
    assert forall|j: int, x: T|
        #![trigger kids(done2[j]).contains(x)]
        0 <= j < done2.len() && kids(done2[j]).contains(x) implies all2.contains(x) by {
        if j < n {
            assert(kids(done[j]).contains(x));
            assert(all.contains(x));
            let a = choose|a: int| 0 <= a < m && all[a] == x;
            assert(all2.contains(all[a]));
        } else {
            let b = choose|b: int| 0 <= b < below.len() && below[b] == x;
            assert(all2[m + b] == x);
        }
    }
}

/// Where nothing waits any more, all that can be reached was looked at.
pub proof fn lemma_exploring_ends<T>(root: T, kids: spec_fn(T) -> Seq<T>, done: Seq<T>, x: T)
    requires
        is_exploring(root, kids, done, Seq::empty()),
    ensures
        done.contains(x) <==> is_reached(root, kids, x),
        done.no_duplicates(),
{
    assert(done + Seq::empty() =~= done);
    if done.contains(x) {
        let a = choose|a: int| 0 <= a < done.len() && done[a] == x;
        assert(is_reached(root, kids, done[a]));
    }
    if is_reached(root, kids, x) {
        let k = choose|k: nat| reached_in(root, kids, x, k);
        lemma_found(root, kids, done, x, k);
    }
}

proof fn lemma_found<T>(root: T, kids: spec_fn(T) -> Seq<T>, done: Seq<T>, x: T, k: nat)
    requires
        is_exploring(root, kids, done, Seq::empty()),
        reached_in(root, kids, x, k),
    ensures
        done.contains(x),
    decreases k,
{
    assert(done + Seq::empty() =~= done);
    if k == 0 {
        assert(done[0] == x);
    } else {
        let p = choose|p: T|
            reached_in(root, kids, p, (k - 1) as nat) && #[trigger] kids(p).contains(x);
        lemma_found(root, kids, done, p, (k - 1) as nat);
        let j = choose|j: int| 0 <= j < done.len() && done[j] == p;
        assert(kids(done[j]).contains(x));
    }
}

// ---------------------------------------------------------------------------
// Totals
// ---------------------------------------------------------------------------

/// The number, or the largest that can be counted to.
pub open spec fn capped(n: nat) -> u64 {
    if n > u64::MAX {
        u64::MAX
    } else {
        n as u64
    }
}

/// The sum of what the items count for.
pub open spec fn total<T>(items: Seq<T>, worth: spec_fn(T) -> nat) -> nat
    decreases items.len(),
{
    if items.len() == 0 {
        0
    } else {
        total(items.drop_last(), worth) + worth(items.last())
    }
}

pub proof fn lemma_total_push<T>(items: Seq<T>, x: T, worth: spec_fn(T) -> nat)
    ensures
        total(items.push(x), worth) == total(items, worth) + worth(x),
{
    assert(items.push(x).drop_last() =~= items);
}

proof fn lemma_total_remove<T>(items: Seq<T>, i: int, worth: spec_fn(T) -> nat)
    requires
        0 <= i < items.len(),
    ensures
        total(items, worth) == total(items.remove(i), worth) + worth(items[i]),
    decreases items.len(),
{
    if i == items.len() - 1 {
        assert(items.remove(i) =~= items.drop_last());
    } else {
        lemma_total_remove(items.drop_last(), i, worth);
        assert(items.remove(i).drop_last() =~= items.drop_last().remove(i));
    }
}

/// Two lists of the same items, each once, have the same length and total.
pub proof fn lemma_same_total<T>(a: Seq<T>, b: Seq<T>, worth: spec_fn(T) -> nat)
    requires
        a.no_duplicates(),
        b.no_duplicates(),
        forall|x: T| #[trigger] a.contains(x) <==> b.contains(x),
    ensures
        a.len() == b.len(),
        total(a, worth) == total(b, worth),
    decreases a.len(),
{
    if a.len() == 0 {
        if b.len() > 0 {
            assert(a.contains(b[0])) by {
                assert(b.contains(b[0]));
            }
        }
    } else {
        let x = a.last();
        assert(a.contains(x));
        let i = choose|i: int| 0 <= i < b.len() && b[i] == x;
        let a2 = a.drop_last();
        let b2 = b.remove(i);
        lemma_total_remove(b, i, worth);
        assert forall|y: T| #[trigger] a2.contains(y) <==> b2.contains(y) by {
            if a2.contains(y) {
                let j = choose|j: int| 0 <= j < a2.len() && a2[j] == y;
                assert(a[j] == y);
                assert(a.contains(y));
                let l = choose|l: int| 0 <= l < b.len() && b[l] == y;
                assert(l != i);
                assert(b2[if l < i {
                    l
                } else {
                    l - 1
                }] == y);
            }
            if b2.contains(y) {
                let l = choose|l: int| 0 <= l < b2.len() && b2[l] == y;
                assert(b[if l < i {
                    l
                } else {
                    l + 1
                }] == y);
                assert(a.contains(y));
                let j = choose|j: int| 0 <= j < a.len() && a[j] == y;
                assert(j != a.len() - 1);
                assert(a2[j] == y);
            }
        }
        lemma_same_total(a2, b2, worth);
    }
}

} // verus!
