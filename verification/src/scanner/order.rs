//! What the walk through a tree of directories comes to.

use super::graph::kids_of;
use super::walk::{
    descends, lemma_lists_unique, lemma_reachable_kid, lists, post_order, push_kids, reachable,
    stack_weight, walk_run, walk_start, walk_step, Walk,
};
use crate::mft::FileRef;
use vstd::prelude::*;

verus! {

/// Every directory has one parent at most and is listed there once; the root
/// has none.
pub open spec fn is_tree(children: Map<FileRef, Seq<FileRef>>, root: FileRef) -> bool {
    &&& forall|p: FileRef, q: FileRef, n: FileRef|
        #[trigger] kids_of(children, p).contains(n) && #[trigger] kids_of(children, q).contains(n)
            ==> p == q
    &&& forall|p: FileRef| (#[trigger] kids_of(children, p)).no_duplicates()
    &&& forall|p: FileRef| !(#[trigger] kids_of(children, p)).contains(root)
}

/// `n` stands on the stack above place `s`.
spec fn above(stack: Seq<(FileRef, bool)>, s: int, n: FileRef) -> bool {
    exists|t: int| s < t < stack.len() && (#[trigger] stack[t]).0 == n
}

/// `n` stands before place `i`.
pub open spec fn stands_before(post: Seq<FileRef>, i: int, n: FileRef) -> bool {
    exists|j: int| 0 <= j < i && #[trigger] post[j] == n
}

/// The walk has entered `p`.
spec fn entered(w: Walk, p: FileRef) -> bool {
    w.post.contains(p) || w.stack.contains((p, true))
}

/// The walk has entered the parent of `k`.
spec fn came_from(children: Map<FileRef, Seq<FileRef>>, w: Walk, k: FileRef) -> bool {
    exists|p: FileRef| entered(w, p) && #[trigger] kids_of(children, p).contains(k)
}

/// What holds at every moment of a walk through a tree.
spec fn walk_ok(children: Map<FileRef, Seq<FileRef>>, root: FileRef, w: Walk) -> bool {
    &&& forall|s: int, t: int|
        0 <= s < t < w.stack.len() ==> (#[trigger] w.stack[s]).0 != (#[trigger] w.stack[t]).0
    &&& forall|s: int| 0 <= s < w.stack.len() ==> !w.post.contains((#[trigger] w.stack[s]).0)
    &&& w.post.no_duplicates()
    &&& forall|n: FileRef| #[trigger]
        w.visited.contains(n) <==> w.post.contains(n) || above(w.stack, -1, n)
    &&& forall|k: FileRef| #[trigger]
        w.visited.contains(k) && k != root ==> came_from(children, w, k)
    &&& forall|s: int, k: FileRef|
        0 <= s < w.stack.len() && (#[trigger] w.stack[s]).1 && #[trigger] kids_of(
            children,
            w.stack[s].0,
        ).contains(k) ==> w.post.contains(k) || above(w.stack, s, k)
    &&& forall|i: int, k: FileRef|
        0 <= i < w.post.len() && #[trigger] kids_of(children, w.post[i]).contains(k)
            ==> stands_before(w.post, i, k)
    &&& w.visited.contains(root)
}

/// Kids that were not visited are all put on the stack.
proof fn lemma_push_all(kids: Seq<FileRef>, n: nat, w: Walk)
    requires
        n <= kids.len(),
        kids.no_duplicates(),
        forall|i: int| 0 <= i < n ==> !w.visited.contains(#[trigger] kids[i]),
    ensures
        push_kids(kids, n, w).post == w.post,
        push_kids(kids, n, w).stack == w.stack + Seq::new(n, |j: int| (kids[n - 1 - j], false)),
        forall|k: FileRef| #[trigger]
            push_kids(kids, n, w).visited.contains(k) <==> w.visited.contains(k) || kids.take(
                n as int,
            ).contains(k),
    decreases n,
{
    if n == 0 {
        assert(push_kids(kids, n, w).stack =~= w.stack + Seq::new(
            n,
            |j: int| (kids[n - 1 - j], false),
        ));
    } else {
        let k = kids[n - 1];
        let m = (n - 1) as nat;
        let w1 = Walk { stack: w.stack.push((k, false)), visited: w.visited.insert(k), ..w };
        lemma_push_all(kids, m, w1);
        let r = push_kids(kids, n, w);
        assert(r == push_kids(kids, m, w1));
        assert(r.stack =~= w.stack + Seq::new(n, |j: int| (kids[n - 1 - j], false)));
        assert forall|x: FileRef| #[trigger] r.visited.contains(x) <==> w.visited.contains(x)
            || kids.take(n as int).contains(x) by {
            if kids.take(n as int).contains(x) {
                let i = choose|i: int| 0 <= i < n && kids.take(n as int)[i] == x;
                if i < m {
                    assert(kids.take(m as int)[i] == x);
                    assert(kids.take(m as int).contains(x));
                }
            }
            if kids.take(m as int).contains(x) {
                let i = choose|i: int| 0 <= i < m && kids.take(m as int)[i] == x;
                assert(kids.take(n as int)[i] == x);
            }
            assert(kids.take(n as int)[m as int] == k);
        }
    }
}

proof fn lemma_leave(children: Map<FileRef, Seq<FileRef>>, root: FileRef, w: Walk)
    requires
        walk_ok(children, root, w),
        w.stack.len() > 0,
        w.stack.last().1,
    ensures
        walk_ok(children, root, walk_step(children, w)),
{
    let r = walk_step(children, w);
    let n = w.stack.last().0;
    let top = w.stack.len() - 1;
    assert(w.stack[top].0 == n);
    assert(r.stack =~= w.stack.take(top));
    assert(r.post =~= w.post.push(n));
    assert(r.post.contains(n)) by {
        assert(r.post[w.post.len() as int] == n);
    }
    assert forall|x: FileRef| w.post.contains(x) implies #[trigger] r.post.contains(x) by {
        let i = choose|i: int| 0 <= i < w.post.len() && w.post[i] == x;
        assert(r.post[i] == x);
    }
    assert forall|x: FileRef| #[trigger] r.post.contains(x) implies w.post.contains(x) || x == n by {
        let i = choose|i: int| 0 <= i < r.post.len() && r.post[i] == x;
        if i < w.post.len() {
            assert(w.post[i] == x);
        }
    }
    assert forall|s: int| 0 <= s < r.stack.len() implies !r.post.contains(
        (#[trigger] r.stack[s]).0,
    ) by {
        assert(r.stack[s] == w.stack[s]);
        assert(w.stack[s].0 != w.stack[top].0);
    }
    assert forall|s: int, x: FileRef| -1 <= s < top && above(w.stack, s, x) implies x == n
        || #[trigger] above(r.stack, s, x) by {
        let t = choose|t: int| s < t < w.stack.len() && (#[trigger] w.stack[t]).0 == x;
        if t < top {
            assert(r.stack[t].0 == x);
        }
    }
    assert forall|x: FileRef| #[trigger] r.visited.contains(x) <==> r.post.contains(x) || above(
        r.stack,
        -1,
        x,
    ) by {
        if above(r.stack, -1, x) {
            let t = choose|t: int| -1 < t < r.stack.len() && (#[trigger] r.stack[t]).0 == x;
            assert(w.stack[t].0 == x);
            assert(above(w.stack, -1, x));
        }
        if x == n {
            assert(above(w.stack, -1, x));
        }
        if w.visited.contains(x) && !w.post.contains(x) {
            assert(above(w.stack, -1, x));
            assert(x == n || above(r.stack, -1, x));
        }
    }
    assert forall|k: FileRef| #[trigger] r.visited.contains(k) && k != root implies came_from(
        children,
        r,
        k,
    ) by {
        let p = choose|p: FileRef| entered(w, p) && #[trigger] kids_of(children, p).contains(k);
        if !w.post.contains(p) {
            let s = choose|s: int| 0 <= s < w.stack.len() && w.stack[s] == (p, true);
            if s < top {
                assert(r.stack[s] == (p, true));
            }
        }
        assert(entered(r, p));
    }
    assert forall|s: int, k: FileRef|
        0 <= s < r.stack.len() && (#[trigger] r.stack[s]).1 && #[trigger] kids_of(
            children,
            r.stack[s].0,
        ).contains(k) implies r.post.contains(k) || above(r.stack, s, k) by {
        assert(r.stack[s] == w.stack[s]);
    }
    assert forall|i: int, k: FileRef|
        0 <= i < r.post.len() && #[trigger] kids_of(children, r.post[i]).contains(
            k,
        ) implies stands_before(r.post, i, k) by {
        if i < w.post.len() {
            assert(r.post[i] == w.post[i]);
            let j = choose|j: int| 0 <= j < i && #[trigger] w.post[j] == k;
            assert(r.post[j] == k);
        } else {
            assert(kids_of(children, w.stack[top].0).contains(k));
            assert(!above(w.stack, top, k));
            assert(w.post.contains(k));
            let j = choose|j: int| 0 <= j < w.post.len() && w.post[j] == k;
            assert(r.post[j] == k);
        }
    }
}

/// A directory is entered before its kids are visited.
proof fn lemma_kids_are_new(
    children: Map<FileRef, Seq<FileRef>>,
    root: FileRef,
    w: Walk,
    k: FileRef,
)
    requires
        is_tree(children, root),
        walk_ok(children, root, w),
        w.stack.len() > 0,
        !w.stack.last().1,
        kids_of(children, w.stack.last().0).contains(k),
    ensures
        !w.visited.contains(k),
{
    let n = w.stack.last().0;
    let top = w.stack.len() - 1;
    if w.visited.contains(k) {
        assert(came_from(children, w, k));
        let p = choose|p: FileRef| entered(w, p) && #[trigger] kids_of(children, p).contains(k);
        assert(p == n);
        assert(w.stack[top].0 == n);
        if w.stack.contains((n, true)) {
            let s = choose|s: int| 0 <= s < w.stack.len() && w.stack[s] == (n, true);
            assert(s != top);
            assert(w.stack[s].0 != w.stack[top].0);
        }
    }
}

proof fn lemma_enter(children: Map<FileRef, Seq<FileRef>>, root: FileRef, w: Walk)
    requires
        is_tree(children, root),
        walk_ok(children, root, w),
        w.stack.len() > 0,
        !w.stack.last().1,
    ensures
        walk_ok(children, root, walk_step(children, w)),
{
    let n = w.stack.last().0;
    let top = w.stack.len() - 1;
    let kids = kids_of(children, n);
    let r = walk_step(children, w);
    let w1 = Walk { stack: w.stack.drop_last().push((n, true)), ..w };
    let added = Seq::new(kids.len(), |j: int| (kids[kids.len() - 1 - j], false));
    assert(w.stack[top].0 == n);
    assert forall|i: int| 0 <= i < kids.len() implies !w1.visited.contains(#[trigger] kids[i]) by {
        assert(kids.contains(kids[i]));
        lemma_kids_are_new(children, root, w, kids[i]);
    }
    lemma_push_all(kids, kids.len(), w1);
    assert(kids.take(kids.len() as int) =~= kids);
    assert(r.stack == w1.stack + added);
    assert(r.post == w.post);
    assert forall|s: int| 0 <= s <= top implies (#[trigger] r.stack[s]).0 == w.stack[s].0 by {}
    assert forall|s: int| top < s < r.stack.len() implies (#[trigger] r.stack[s]) == (
        kids[kids.len() - 1 - (s - top - 1)],
        false,
    ) by {}
    assert forall|s: int| top < s < r.stack.len() implies !w.visited.contains(
        (#[trigger] r.stack[s]).0,
    ) by {
        assert(!w1.visited.contains(kids[kids.len() - 1 - (s - top - 1)]));
    }
    assert forall|s: int| 0 <= s <= top implies w.visited.contains((#[trigger] r.stack[s]).0) by {
        assert(above(w.stack, -1, w.stack[s].0));
    }
    assert forall|s: int, t: int| 0 <= s < t < r.stack.len() implies (#[trigger] r.stack[s]).0 != (
    #[trigger] r.stack[t]).0 by {
        if t <= top {
            assert(w.stack[s].0 != w.stack[t].0);
        }
    }
    assert forall|s: int| 0 <= s < r.stack.len() implies !r.post.contains(
        (#[trigger] r.stack[s]).0,
    ) by {
        if s <= top {
            assert(!w.post.contains(w.stack[s].0));
        }
    }
    assert forall|x: FileRef| #[trigger] r.visited.contains(x) <==> r.post.contains(x) || above(
        r.stack,
        -1,
        x,
    ) by {
        if above(r.stack, -1, x) {
            let t = choose|t: int| -1 < t < r.stack.len() && (#[trigger] r.stack[t]).0 == x;
            if t > top {
                assert(kids.contains(x));
            }
        }
        if above(w.stack, -1, x) {
            let t = choose|t: int| -1 < t < w.stack.len() && (#[trigger] w.stack[t]).0 == x;
            assert(r.stack[t].0 == x);
        }
        if kids.contains(x) {
            let i = choose|i: int| 0 <= i < kids.len() && kids[i] == x;
            assert(r.stack[top + 1 + (kids.len() - 1 - i)].0 == x);
        }
    }
    assert(r.stack[top] == (n, true));
    assert(entered(r, n)) by {
        assert(r.stack.contains((n, true)));
    }
    assert forall|p: FileRef| #[trigger] entered(w, p) implies entered(r, p) by {
        if !w.post.contains(p) {
            let s = choose|s: int| 0 <= s < w.stack.len() && w.stack[s] == (p, true);
            assert(r.stack[s] == (p, true));
        }
    }
    assert forall|k: FileRef| #[trigger] r.visited.contains(k) && k != root implies came_from(
        children,
        r,
        k,
    ) by {
        if w.visited.contains(k) {
            let p = choose|p: FileRef| entered(w, p) && #[trigger] kids_of(children, p).contains(k);
            assert(entered(r, p));
        } else {
            assert(kids_of(children, n).contains(k));
        }
    }
    assert forall|s: int, k: FileRef|
        0 <= s < r.stack.len() && (#[trigger] r.stack[s]).1 && #[trigger] kids_of(
            children,
            r.stack[s].0,
        ).contains(k) implies r.post.contains(k) || above(r.stack, s, k) by {
        assert(s <= top);
        if s < top {
            assert(r.stack[s] == w.stack[s]);
            if above(w.stack, s, k) {
                let t = choose|t: int| s < t < w.stack.len() && (#[trigger] w.stack[t]).0 == k;
                assert(r.stack[t].0 == k);
            }
        } else {
            let i = choose|i: int| 0 <= i < kids.len() && kids[i] == k;
            assert(r.stack[top + 1 + (kids.len() - 1 - i)].0 == k);
        }
    }
}

proof fn lemma_walk_ok(children: Map<FileRef, Seq<FileRef>>, root: FileRef, steps: nat)
    requires
        is_tree(children, root),
    ensures
        walk_ok(children, root, walk_run(children, root, steps)),
    decreases steps,
{
    if steps == 0 {
        let w = walk_start(root);
        assert(w.stack[0].0 == root);
        assert(above(w.stack, -1, root));
        assert forall|n: FileRef| #[trigger] above(w.stack, -1, n) implies n == root by {}
    } else {
        let w = walk_run(children, root, (steps - 1) as nat);
        lemma_walk_ok(children, root, (steps - 1) as nat);
        if w.stack.len() > 0 {
            if w.stack.last().1 {
                lemma_leave(children, root, w);
            } else {
                lemma_enter(children, root, w);
            }
        }
    }
}

// ---------------------------------------------------------------------------
// The walk ends
// ---------------------------------------------------------------------------

/// What is still to be done in a walk through the directories `all`.
spec fn work(all: Set<FileRef>, w: Walk) -> nat {
    3 * all.difference(w.visited).len() + stack_weight(w.stack)
}

proof fn lemma_push_work(all: Set<FileRef>, kids: Seq<FileRef>, n: nat, w: Walk)
    requires
        all.finite(),
        n <= kids.len(),
        forall|i: int| 0 <= i < kids.len() ==> all.contains(#[trigger] kids[i]),
        forall|s: int| 0 <= s < w.stack.len() ==> all.contains((#[trigger] w.stack[s]).0),
    ensures
        work(all, push_kids(kids, n, w)) <= work(all, w),
        forall|s: int|
            0 <= s < push_kids(kids, n, w).stack.len() ==> all.contains(
                (#[trigger] push_kids(kids, n, w).stack[s]).0,
            ),
    decreases n,
{
    if n > 0 {
        let k = kids[n - 1];
        if w.visited.contains(k) {
            lemma_push_work(all, kids, (n - 1) as nat, w);
        } else {
            let w1 = Walk { stack: w.stack.push((k, false)), visited: w.visited.insert(k), ..w };
            assert(w1.stack.drop_last() =~= w.stack);
            assert(all.difference(w1.visited) =~= all.difference(w.visited).remove(k));
            assert(all.difference(w.visited).contains(k));
            assert forall|s: int| 0 <= s < w1.stack.len() implies all.contains(
                (#[trigger] w1.stack[s]).0,
            ) by {
                if s < w.stack.len() {
                    assert(w1.stack[s] == w.stack[s]);
                }
            }
            lemma_push_work(all, kids, (n - 1) as nat, w1);
        }
    }
}

proof fn lemma_walk_ends(
    children: Map<FileRef, Seq<FileRef>>,
    root: FileRef,
    all: Set<FileRef>,
    steps: nat,
)
    requires
        all.finite(),
        forall|n: FileRef| #[trigger] all.contains(n) <==> reachable(children, root, n),
        forall|s: int|
            0 <= s < walk_run(children, root, steps).stack.len() ==> all.contains(
                (#[trigger] walk_run(children, root, steps).stack[s]).0,
            ),
    ensures
        exists|t: nat| #[trigger] walk_run(children, root, t).stack.len() == 0,
    decreases work(all, walk_run(children, root, steps)),
{
    let w = walk_run(children, root, steps);
    if w.stack.len() > 0 {
        let next: nat = steps + 1;
        let r = walk_run(children, root, next);
        assert((next - 1) as nat == steps);
        assert(r == walk_step(children, w));
        let n = w.stack.last().0;
        let top = w.stack.len() - 1;
        assert(all.contains(w.stack[top].0));
        if w.stack.last().1 {
            assert(r.stack == w.stack.drop_last());
            assert forall|s: int| 0 <= s < r.stack.len() implies all.contains(
                (#[trigger] r.stack[s]).0,
            ) by {
                assert(r.stack[s] == w.stack[s]);
            }
        } else {
            let kids = kids_of(children, n);
            let w1 = Walk { stack: w.stack.drop_last().push((n, true)), ..w };
            assert(w1.stack.drop_last() =~= w.stack.drop_last());
            assert forall|i: int| 0 <= i < kids.len() implies all.contains(#[trigger] kids[i]) by {
                lemma_reachable_kid(children, root, n, i);
            }
            assert forall|s: int| 0 <= s < w1.stack.len() implies all.contains(
                (#[trigger] w1.stack[s]).0,
            ) by {
                if s < top {
                    assert(w1.stack[s] == w.stack[s]);
                }
            }
            lemma_push_work(all, kids, kids.len(), w1);
        }
        lemma_walk_ends(children, root, all, next);
    }
}

/// What can be reached is among the directories that were listed.
proof fn lemma_reaches(
    children: Map<FileRef, Seq<FileRef>>,
    root: FileRef,
    post: Seq<FileRef>,
    n: FileRef,
    k: nat,
)
    requires
        post.contains(root),
        forall|i: int, x: FileRef|
            0 <= i < post.len() && #[trigger] kids_of(children, post[i]).contains(x)
                ==> stands_before(post, i, x),
        descends(children, root, n, k),
    ensures
        post.contains(n),
    decreases k,
{
    if k > 0 {
        let p = choose|p: FileRef|
            #[trigger] kids_of(children, p).contains(n) && descends(
                children,
                root,
                p,
                (k - 1) as nat,
            );
        lemma_reaches(children, root, post, p, (k - 1) as nat);
        let i = choose|i: int| 0 <= i < post.len() && post[i] == p;
        assert(kids_of(children, post[i]).contains(n));
    }
}

/// In a tree the walk from the root lists every directory that can be reached
/// exactly once, and its kids before it.
pub proof fn law_children_come_first(
    children: Map<FileRef, Seq<FileRef>>,
    root: FileRef,
    all: Set<FileRef>,
)
    requires
        is_tree(children, root),
        all.finite(),
        forall|n: FileRef| #[trigger] reachable(children, root, n) ==> all.contains(n),
    ensures
        lists(children, root, post_order(children, root)),
        post_order(children, root).no_duplicates(),
        forall|n: FileRef| #[trigger]
            reachable(children, root, n) ==> post_order(children, root).contains(n),
        forall|i: int, k: FileRef|
            0 <= i < post_order(children, root).len() && #[trigger] kids_of(
                children,
                post_order(children, root)[i],
            ).contains(k) ==> stands_before(post_order(children, root), i, k),
{
    let reached = all.filter(|n: FileRef| reachable(children, root, n));
    assert(descends(children, root, root, 0));
    assert(reachable(children, root, root));
    assert forall|s: int| 0 <= s < walk_run(children, root, 0).stack.len() implies reached.contains(
        (#[trigger] walk_run(children, root, 0).stack[s]).0,
    ) by {}
    lemma_walk_ends(children, root, reached, 0);
    let t = choose|t: nat| #[trigger] walk_run(children, root, t).stack.len() == 0;
    let w = walk_run(children, root, t);
    lemma_walk_ok(children, root, t);
    assert(lists(children, root, w.post));
    lemma_lists_unique(children, root, w.post);
    assert(!above(w.stack, -1, root));
    assert(w.post.contains(root));
    assert forall|n: FileRef| #[trigger] reachable(children, root, n) implies w.post.contains(n) by {
        let k = choose|k: nat| descends(children, root, n, k);
        lemma_reaches(children, root, w.post, n, k);
    }
}

} // verus!
