//! Walking a directory graph from its root, children before parents.

use super::graph::kids_of;
use crate::mft::FileRef;
use crate::refmap::RefMap;
use vstd::prelude::*;

verus! {

/// `n` is `k` edges below `root`.
pub open spec fn descends(
    children: Map<FileRef, Seq<FileRef>>,
    root: FileRef,
    n: FileRef,
    k: nat,
) -> bool
    decreases k,
{
    if k == 0 {
        n == root
    } else {
        exists|p: FileRef|
            #[trigger] kids_of(children, p).contains(n) && descends(children, root, p, (k - 1) as nat)
    }
}

/// `n` can be reached from `root`.
pub open spec fn reachable(children: Map<FileRef, Seq<FileRef>>, root: FileRef, n: FileRef) -> bool {
    exists|k: nat| descends(children, root, n, k)
}

/// The kids of what can be reached can be reached.
pub proof fn lemma_reachable_kid(
    children: Map<FileRef, Seq<FileRef>>,
    root: FileRef,
    p: FileRef,
    i: int,
)
    requires
        reachable(children, root, p),
        0 <= i < kids_of(children, p).len(),
    ensures
        reachable(children, root, kids_of(children, p)[i]),
{
    let n = kids_of(children, p)[i];
    let k = choose|k: nat| descends(children, root, p, k);
    let m: nat = k + 1;
    assert((m - 1) as nat == k);
    assert(descends(children, root, p, (m - 1) as nat) && kids_of(children, p).contains(n));
    assert(descends(children, root, n, m));
}

/// The state of a walk. The stack holds the directories that are still to be
/// entered (`false`) or left (`true`); a directory is visited when it is put
/// on the stack, and listed when it is left.
pub struct Walk {
    pub stack: Seq<(FileRef, bool)>,
    pub visited: Set<FileRef>,
    pub post: Seq<FileRef>,
}

/// Puts those of the first `n` kids on the stack that were not visited, the
/// last one first.
pub open spec fn push_kids(kids: Seq<FileRef>, n: nat, w: Walk) -> Walk
    decreases n,
{
    if n == 0 {
        w
    } else {
        let k = kids[n - 1];
        push_kids(
            kids,
            (n - 1) as nat,
            if w.visited.contains(k) {
                w
            } else {
                Walk { stack: w.stack.push((k, false)), visited: w.visited.insert(k), ..w }
            },
        )
    }
}

/// One step of the walk: leaves the topmost directory, or enters it.
pub open spec fn walk_step(children: Map<FileRef, Seq<FileRef>>, w: Walk) -> Walk {
    let (n, left) = w.stack.last();
    if left {
        Walk { stack: w.stack.drop_last(), post: w.post.push(n), ..w }
    } else {
        let kids = kids_of(children, n);
        push_kids(kids, kids.len(), Walk { stack: w.stack.drop_last().push((n, true)), ..w })
    }
}

/// The beginning of a walk.
pub open spec fn walk_start(root: FileRef) -> Walk {
    Walk {
        stack: seq![(root, false)],
        visited: Set::empty().insert(root),
        post: Seq::empty(),
    }
}

/// The state after some steps.
pub open spec fn walk_run(
    children: Map<FileRef, Seq<FileRef>>,
    root: FileRef,
    steps: nat,
) -> Walk
    decreases steps,
{
    if steps == 0 {
        walk_start(root)
    } else {
        let w = walk_run(children, root, (steps - 1) as nat);
        if w.stack.len() == 0 {
            w
        } else {
            walk_step(children, w)
        }
    }
}

/// The walk from `root` ends and has then listed `post`.
pub open spec fn lists(
    children: Map<FileRef, Seq<FileRef>>,
    root: FileRef,
    post: Seq<FileRef>,
) -> bool {
    exists|steps: nat| #[trigger]
        walk_run(children, root, steps).stack.len() == 0 && walk_run(children, root, steps).post
            == post
}

/// The directories in the order in which the walk from `root` leaves them.
pub open spec fn post_order(children: Map<FileRef, Seq<FileRef>>, root: FileRef) -> Seq<FileRef> {
    choose|post: Seq<FileRef>| lists(children, root, post)
}

proof fn lemma_run_stays(
    children: Map<FileRef, Seq<FileRef>>,
    root: FileRef,
    a: nat,
    b: nat,
)
    requires
        a <= b,
        walk_run(children, root, a).stack.len() == 0,
    ensures
        walk_run(children, root, b) == walk_run(children, root, a),
    decreases b,
{
    if a < b {
        lemma_run_stays(children, root, a, (b - 1) as nat);
    }
}

/// A walk that ends lists one order only.
pub proof fn lemma_lists_unique(
    children: Map<FileRef, Seq<FileRef>>,
    root: FileRef,
    post: Seq<FileRef>,
)
    requires
        lists(children, root, post),
    ensures
        post_order(children, root) == post,
{
    let other = post_order(children, root);
    assert(lists(children, root, other));
    let a = choose|steps: nat| #[trigger]
        walk_run(children, root, steps).stack.len() == 0 && walk_run(children, root, steps).post
            == post;
    let b = choose|steps: nat| #[trigger]
        walk_run(children, root, steps).stack.len() == 0 && walk_run(children, root, steps).post
            == other;
    if a <= b {
        lemma_run_stays(children, root, a, b);
    } else {
        lemma_run_stays(children, root, b, a);
    }
}

// ---------------------------------------------------------------------------
// The walk, executable
// ---------------------------------------------------------------------------

/// How many flags are not set.
pub open spec fn unset(flags: Seq<bool>) -> nat
    decreases flags.len(),
{
    if flags.len() == 0 {
        0
    } else {
        unset(flags.drop_last()) + if flags.last() {
            0nat
        } else {
            1nat
        }
    }
}

/// Setting a flag leaves one flag less that is not set.
pub proof fn lemma_unset_update(flags: Seq<bool>, i: int)
    requires
        0 <= i < flags.len(),
        !flags[i],
    ensures
        unset(flags.update(i, true)) + 1 == unset(flags),
    decreases flags.len(),
{
    if i == flags.len() - 1 {
        assert(flags.update(i, true).drop_last() =~= flags.drop_last());
    } else {
        assert(flags.update(i, true).drop_last() =~= flags.drop_last().update(i, true));
        lemma_unset_update(flags.drop_last(), i);
    }
}

/// How much work the stack stands for.
pub open spec fn stack_weight(stack: Seq<(FileRef, bool)>) -> nat
    decreases stack.len(),
{
    if stack.len() == 0 {
        0
    } else {
        stack_weight(stack.drop_last()) + if stack.last().1 {
            1nat
        } else {
            2nat
        }
    }
}

proof fn lemma_weight_push(stack: Seq<(FileRef, bool)>, e: (FileRef, bool))
    ensures
        stack_weight(stack.push(e)) == stack_weight(stack) + if e.1 {
            1nat
        } else {
            2nat
        },
{
    assert(stack.push(e).drop_last() =~= stack);
}

/// Lists what can be reached from `root`, children before parents. `index`
/// has an entry for each of them.
pub fn list_post_order<V>(
    children: &RefMap<Vec<FileRef>>,
    index: &RefMap<V>,
    root: FileRef,
) -> (post: Vec<FileRef>)
    requires
        children.wf(),
        index.wf(),
        forall|n: FileRef| #[trigger]
            reachable(super::graph::children_view(children@), root, n) ==> index@.contains_key(n),
    ensures
        lists(super::graph::children_view(children@), root, post@),
        post@ == post_order(super::graph::children_view(children@), root),
        forall|i: int|
            0 <= i < post@.len() ==> reachable(
                super::graph::children_view(children@),
                root,
                #[trigger] post@[i],
            ),
{
    let ghost edges = super::graph::children_view(children@);
    let mut flags: Vec<bool> = Vec::new();
    let count: usize = index.len();
    let mut f: usize = 0;
    while f < count
        invariant
            f <= count,
            flags@.len() == f,
            forall|i: int| 0 <= i < f ==> !flags@[i],
        decreases count - f,
    {
        flags.push(false);
        f += 1;
    }
    proof {
        assert(descends(edges, root, root, 0));
        assert(reachable(edges, root, root));
        index.lemma_order();
    }
    let mut stack: Vec<(FileRef, bool)> = Vec::new();
    let mut post: Vec<FileRef> = Vec::new();
    stack.push((root, false));
    match index.position(root) {
        Some(i) => {
            flags.set(i, true);
        },
        None => {},
    }
    let ghost mut w = walk_start(root);
    let ghost mut steps: nat = 0;
    assert(stack@ =~= w.stack);
    assert(post@ =~= w.post);
    while stack.len() > 0
        invariant
            children.wf(),
            index.wf(),
            edges == super::graph::children_view(children@),
            forall|n: FileRef| #[trigger] reachable(edges, root, n) ==> index@.contains_key(n),
            w == walk_run(edges, root, steps),
            w.stack == stack@,
            w.post == post@,
            flags@.len() == index.order().len(),
            forall|i: int|
                0 <= i < flags@.len() ==> flags@[i] == w.visited.contains(
                    #[trigger] index.order()[i],
                ),
            forall|i: int|
                0 <= i < stack@.len() ==> reachable(edges, root, (#[trigger] stack@[i]).0),
            forall|i: int| 0 <= i < post@.len() ==> reachable(edges, root, #[trigger] post@[i]),
        decreases 3 * unset(flags@) + stack_weight(stack@),
    {
        let ghost before = stack@;
        let ghost w0 = w;
        let (node, leaving) = stack[stack.len() - 1];
        stack.pop();
        assert(stack@ =~= before.drop_last());
        assert(reachable(edges, root, before.last().0));
        if leaving {
            post.push(node);
            proof {
                w = walk_step(edges, w0);
                steps = steps + 1;
                assert(w.stack =~= stack@);
                assert(w.post =~= post@);
            }
        } else {
            stack.push((node, true));
            proof {
                lemma_weight_push(before.drop_last(), (node, true));
                w = Walk { stack: w0.stack.drop_last().push((node, true)), ..w0 };
                assert(w.stack =~= stack@);
            }
            let ghost w1 = w;
            let ghost kids = kids_of(edges, node);
            let ghost bound = 3 * unset(flags@) + stack_weight(stack@);
            match children.get(&node) {
                Some(list) => {
                    assert(kids == list@);
                    let mut j: usize = list.len();
                    while j > 0
                        invariant
                            j <= list@.len(),
                            kids == list@,
                            kids == kids_of(edges, node),
                            index.wf(),
                            reachable(edges, root, node),
                            forall|n: FileRef| #[trigger]
                                reachable(edges, root, n) ==> index@.contains_key(n),
                            push_kids(kids, j as nat, w) == push_kids(kids, kids.len(), w1),
                            w.stack == stack@,
                            w.post == post@,
                            flags@.len() == index.order().len(),
                            forall|i: int|
                                0 <= i < flags@.len() ==> flags@[i] == w.visited.contains(
                                    #[trigger] index.order()[i],
                                ),
                            forall|i: int|
                                0 <= i < stack@.len() ==> reachable(
                                    edges,
                                    root,
                                    (#[trigger] stack@[i]).0,
                                ),
                            3 * unset(flags@) + stack_weight(stack@) <= bound,
                        decreases j,
                    {
                        j -= 1;
                        let kid: FileRef = list[j];
                        proof {
                            lemma_reachable_kid(edges, root, node, j as int);
                            assert(index@.contains_key(kid));
                            index.lemma_order();
                        }
                        match index.position(kid) {
                            Some(i) => {
                                assert(index.order()[i as int] == kid);
                                if !flags[i] {
                                    proof {
                                        lemma_unset_update(flags@, i as int);
                                        lemma_weight_push(stack@, (kid, false));
                                        w = Walk {
                                            stack: w.stack.push((kid, false)),
                                            visited: w.visited.insert(kid),
                                            ..w
                                        };
                                    }
                                    flags.set(i, true);
                                    stack.push((kid, false));
                                }
                            },
                            None => {},
                        }
                    }
                },
                None => {},
            }
            proof {
                steps = steps + 1;
                assert(w == walk_step(edges, w0));
            }
        }
    }
    proof {
        assert(walk_run(edges, root, steps).stack.len() == 0);
        lemma_lists_unique(edges, root, post@);
    }
    post
}

} // verus!
