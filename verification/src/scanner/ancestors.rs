//! Which directories hold something in the subtree below them.

use super::graph::{children_view, kids_of, nodes_view, DirectoryNode, DirectoryNodeView};
use super::walk::{lemma_unset_update, unset};
use crate::mft::FileRef;
use crate::refmap::RefMap;
use vstd::prelude::*;

verus! {

/// `c` is a kid of `p`, and both have nodes.
pub open spec fn inner_edge(
    nodes: Map<FileRef, DirectoryNodeView>,
    children: Map<FileRef, Seq<FileRef>>,
    p: FileRef,
    c: FileRef,
) -> bool {
    nodes.contains_key(p) && nodes.contains_key(c) && kids_of(children, p).contains(c)
}

/// `n` is a seed, or a seed lies `k` edges below it.
pub open spec fn holds_at(
    nodes: Map<FileRef, DirectoryNodeView>,
    children: Map<FileRef, Seq<FileRef>>,
    seeds: Set<FileRef>,
    n: FileRef,
    k: nat,
) -> bool
    decreases k,
{
    if k == 0 {
        seeds.contains(n)
    } else {
        exists|c: FileRef|
            #[trigger] inner_edge(nodes, children, n, c) && holds_at(
                nodes,
                children,
                seeds,
                c,
                (k - 1) as nat,
            )
    }
}

/// `n` is a seed, or a seed lies below it.
pub open spec fn holds(
    nodes: Map<FileRef, DirectoryNodeView>,
    children: Map<FileRef, Seq<FileRef>>,
    seeds: Set<FileRef>,
    n: FileRef,
) -> bool {
    exists|k: nat| holds_at(nodes, children, seeds, n, k)
}

/// `parents[j]` lists the places of the parents of the node at place `j`.
pub open spec fn parents_ok(
    parents: Seq<Vec<usize>>,
    order: Seq<FileRef>,
    nodes: Map<FileRef, DirectoryNodeView>,
    children: Map<FileRef, Seq<FileRef>>,
) -> bool {
    &&& parents.len() == order.len()
    &&& forall|j: int, a: int|
        0 <= j < parents.len() && 0 <= a < parents[j]@.len() ==> (#[trigger] parents[j]@[a])
            < order.len() && inner_edge(nodes, children, order[parents[j]@[a] as int], order[j])
    &&& forall|i: int, j: int|
        0 <= i < order.len() && 0 <= j < order.len() && #[trigger] inner_edge(
            nodes,
            children,
            order[i],
            order[j],
        ) ==> parents[j]@.contains(i as usize)
}

/// Lists the parents of every node.
pub fn list_parents(nodes: &RefMap<DirectoryNode>, children: &RefMap<Vec<FileRef>>) -> (r: Vec<
    Vec<usize>,
>)
    requires
        nodes.wf(),
        children.wf(),
    ensures
        parents_ok(r@, nodes.order(), nodes_view(nodes@), children_view(children@)),
{
    let ghost views = nodes_view(nodes@);
    let ghost edges = children_view(children@);
    let ghost order = nodes.order();
    let mut out: Vec<Vec<usize>> = Vec::new();
    let count: usize = nodes.len();
    let mut f: usize = 0;
    while f < count
        invariant
            f <= count,
            out@.len() == f,
            forall|j: int| 0 <= j < f ==> (#[trigger] out@[j])@.len() == 0,
        decreases count - f,
    {
        out.push(Vec::new());
        f += 1;
    }
    let total: usize = children.len();
    let mut a: usize = 0;
    while a < total
        invariant
            nodes.wf(),
            children.wf(),
            a <= total,
            total == children.order().len(),
            views == nodes_view(nodes@),
            edges == children_view(children@),
            order == nodes.order(),
            out@.len() == order.len(),
            forall|j: int, x: int|
                0 <= j < out@.len() && 0 <= x < out@[j]@.len() ==> (#[trigger] out@[j]@[x])
                    < order.len() && inner_edge(views, edges, order[out@[j]@[x] as int], order[j]),
            forall|b: int, i: int, j: int|
                #![trigger children.order()[b], inner_edge(views, edges, order[i], order[j])]
                0 <= b < a && 0 <= i < order.len() && 0 <= j < order.len() && children.order()[b]
                    == order[i] && inner_edge(views, edges, order[i], order[j])
                    ==> out@[j]@.contains(i as usize),
        decreases total - a,
    {
        proof {
            nodes.lemma_order();
            children.lemma_order();
        }
        let p: FileRef = children.key_at(a);
        let list: &Vec<FileRef> = children.value_at(a);
        assert(kids_of(edges, p) == list@);
        match nodes.position(p) {
            Some(at) => {
                assert(order[at as int] == p);
                let mut k: usize = 0;
                while k < list.len()
                    invariant
                        nodes.wf(),
                        k <= list@.len(),
                        a < total,
                        total == children.order().len(),
                        views == nodes_view(nodes@),
                        order == nodes.order(),
                        out@.len() == order.len(),
                        at < order.len(),
                        order[at as int] == p,
                        p == children.order()[a as int],
                        nodes@.contains_key(p),
                        kids_of(edges, p) == list@,
                        forall|j: int, x: int|
                            0 <= j < out@.len() && 0 <= x < out@[j]@.len() ==> (
                            #[trigger] out@[j]@[x]) < order.len() && inner_edge(
                                views,
                                edges,
                                order[out@[j]@[x] as int],
                                order[j],
                            ),
                        forall|b: int, i: int, j: int|
                            #![trigger children.order()[b], inner_edge(views, edges, order[i], order[j])]
                            0 <= b < a && 0 <= i < order.len() && 0 <= j < order.len()
                                && children.order()[b] == order[i] && inner_edge(
                                views,
                                edges,
                                order[i],
                                order[j],
                            ) ==> out@[j]@.contains(i as usize),
                        forall|y: int, j: int|
                            0 <= y < k && 0 <= j < order.len() && #[trigger] list@[y]
                                == #[trigger] order[j] ==> out@[j]@.contains(at),
                    decreases list@.len() - k,
                {
                    proof {
                        nodes.lemma_order();
                    }
                    let kid: FileRef = list[k];
                    match nodes.position(kid) {
                        Some(c) => {
                            let ghost before = out@;
                            assert(order[c as int] == kid);
                            assert(kids_of(edges, p).contains(kid)) by {
                                assert(list@[k as int] == kid);
                            }
                            assert(inner_edge(views, edges, p, kid));
                            let slot = &mut out[c];
                            slot.push(at);
                            proof {
                                assert forall|j: int| 0 <= j < out@.len() implies {
                                    if j == c {
                                        (#[trigger] out@[j])@ == before[j]@.push(at)
                                    } else {
                                        out@[j]@ == before[j]@
                                    }
                                } by {}
                                assert forall|j: int, v: usize|
                                    0 <= j < out@.len() && before[j]@.contains(
                                        v,
                                    ) implies #[trigger] out@[j]@.contains(v) by {
                                    let q = choose|q: int|
                                        0 <= q < before[j]@.len() && before[j]@[q] == v;
                                    assert(out@[j]@[q] == v);
                                }
                                assert(out@[c as int]@.contains(at)) by {
                                    assert(out@[c as int]@[before[c as int]@.len() as int] == at);
                                }
                                assert forall|y: int, j: int|
                                    0 <= y < k + 1 && 0 <= j < order.len() && #[trigger] list@[y]
                                        == #[trigger] order[j] implies out@[j]@.contains(at) by {
                                    if y == k {
                                        assert(order[j] == order[c as int]);
                                        assert(j == c);
                                    } else {
                                        assert(before[j]@.contains(at));
                                    }
                                }
                                assert forall|j: int, x: int|
                                    0 <= j < out@.len() && 0 <= x < out@[j]@.len() implies (
                                #[trigger] out@[j]@[x]) < order.len() && inner_edge(
                                    views,
                                    edges,
                                    order[out@[j]@[x] as int],
                                    order[j],
                                ) by {
                                    if j == c && x == before[j]@.len() {
                                    } else {
                                        assert(out@[j]@[x] == before[j]@[x]);
                                    }
                                }
                            }
                        },
                        None => {
                            assert forall|j: int|
                                0 <= j < order.len() implies list@[k as int] != #[trigger] order[j] by {
                                assert(nodes@.contains_key(order[j]));
                            }
                        },
                    }
                    k += 1;
                }
                proof {
                    assert forall|b: int, i: int, j: int|
                        #![trigger children.order()[b], inner_edge(views, edges, order[i], order[j])]
                        0 <= b < a + 1 && 0 <= i < order.len() && 0 <= j < order.len()
                            && children.order()[b] == order[i] && inner_edge(
                            views,
                            edges,
                            order[i],
                            order[j],
                        ) implies out@[j]@.contains(i as usize) by {
                        if b == a {
                            assert(order[i] == order[at as int]);
                            assert(i == at);
                            let y = choose|y: int| 0 <= y < list@.len() && list@[y] == order[j];
                            assert(list@[y] == order[j]);
                        }
                    }
                }
            },
            None => {
                assert forall|i: int|
                    0 <= i < order.len() implies children.order()[a as int] != #[trigger] order[i] by {
                    assert(nodes@.contains_key(order[i]));
                }
            },
        }
        a += 1;
    }
    proof {
        children.lemma_order();
        nodes.lemma_order();
        assert forall|i: int, j: int|
            0 <= i < order.len() && 0 <= j < order.len() && #[trigger] inner_edge(
                views,
                edges,
                order[i],
                order[j],
            ) implies out@[j]@.contains(i as usize) by {
            assert(children@.contains_key(order[i]));
            let b = choose|b: int|
                0 <= b < children.order().len() && #[trigger] children.order()[b] == order[i];
            assert(children.order()[b] == order[i]);
        }
    }
    out
}

/// The seeds and everything above them, by place.
pub fn mark_holders(
    parents: &Vec<Vec<usize>>,
    seeds: &Vec<bool>,
    Ghost(order): Ghost<Seq<FileRef>>,
    Ghost(nodes): Ghost<Map<FileRef, DirectoryNodeView>>,
    Ghost(children): Ghost<Map<FileRef, Seq<FileRef>>>,
    Ghost(set): Ghost<Set<FileRef>>,
) -> (r: Vec<bool>)
    requires
        parents_ok(parents@, order, nodes, children),
        order.no_duplicates(),
        forall|n: FileRef| #[trigger]
            nodes.contains_key(n) ==> exists|i: int| 0 <= i < order.len() && order[i] == n,
        seeds@.len() == order.len(),
        forall|i: int| 0 <= i < order.len() ==> seeds@[i] == set.contains(#[trigger] order[i]),
    ensures
        r@.len() == order.len(),
        forall|i: int|
            0 <= i < order.len() ==> r@[i] == holds(nodes, children, set, #[trigger] order[i]),
{
    let mut flags: Vec<bool> = Vec::new();
    let mut queue: Vec<usize> = Vec::new();
    let mut f: usize = 0;
    while f < seeds.len()
        invariant
            f <= seeds@.len(),
            seeds@.len() == order.len(),
            flags@.len() == f,
            forall|i: int| 0 <= i < f ==> #[trigger] flags@[i] == seeds@[i],
            forall|q: int|
                0 <= q < queue@.len() ==> (#[trigger] queue@[q]) < f && flags@[queue@[q] as int],
            forall|i: int| 0 <= i < f && #[trigger] flags@[i] ==> queue@.contains(i as usize),
        decreases seeds@.len() - f,
    {
        let ghost before = queue@;
        flags.push(seeds[f]);
        if seeds[f] {
            queue.push(f);
        }
        proof {
            assert forall|i: int| 0 <= i < f + 1 && #[trigger] flags@[i] implies queue@.contains(
                i as usize,
            ) by {
                if i < f {
                    let q = choose|q: int| 0 <= q < before.len() && before[q] == i as usize;
                    assert(queue@[q] == i as usize);
                } else {
                    assert(queue@[before.len() as int] == i as usize);
                }
            }
        }
        f += 1;
    }
    proof {
        assert forall|i: int| 0 <= i < order.len() && #[trigger] flags@[i] implies holds(
            nodes,
            children,
            set,
            order[i],
        ) by {
            assert(set.contains(order[i]));
            assert(holds_at(nodes, children, set, order[i], 0));
        }
    }
    let count: usize = parents.len();
    let mut head: usize = 0;
    while head < queue.len()
        invariant
            parents_ok(parents@, order, nodes, children),
            seeds@.len() == order.len(),
            flags@.len() == order.len(),
            head <= queue@.len(),
            forall|i: int| 0 <= i < order.len() && #[trigger] seeds@[i] ==> flags@[i],
            forall|i: int|
                0 <= i < order.len() && #[trigger] flags@[i] ==> holds(
                    nodes,
                    children,
                    set,
                    order[i],
                ),
            forall|q: int|
                0 <= q < queue@.len() ==> (#[trigger] queue@[q]) < order.len()
                    && flags@[queue@[q] as int],
            forall|i: int|
                0 <= i < order.len() && #[trigger] flags@[i] ==> queue@.contains(i as usize),
            forall|q: int, a: int|
                0 <= q < head && 0 <= a < parents@[queue@[q] as int]@.len()
                    ==> flags@[#[trigger] parents@[queue@[q] as int]@[a] as int],
        decreases unset(flags@) + (queue@.len() - head),
    {
        let j: usize = queue[head];
        let ghost measure = unset(flags@) + (queue@.len() - head);
        let mut a: usize = 0;
        while a < parents[j].len()
            invariant
                parents_ok(parents@, order, nodes, children),
                seeds@.len() == order.len(),
                flags@.len() == order.len(),
                head < queue@.len(),
                j == queue@[head as int],
                j < order.len(),
                a <= parents@[j as int]@.len(),
                holds(nodes, children, set, order[j as int]),
                forall|i: int| 0 <= i < order.len() && #[trigger] seeds@[i] ==> flags@[i],
                forall|i: int|
                    0 <= i < order.len() && #[trigger] flags@[i] ==> holds(
                        nodes,
                        children,
                        set,
                        order[i],
                    ),
                forall|q: int|
                    0 <= q < queue@.len() ==> (#[trigger] queue@[q]) < order.len()
                        && flags@[queue@[q] as int],
                forall|i: int|
                    0 <= i < order.len() && #[trigger] flags@[i] ==> queue@.contains(i as usize),
                forall|q: int, x: int|
                    0 <= q < head && 0 <= x < parents@[queue@[q] as int]@.len()
                        ==> flags@[#[trigger] parents@[queue@[q] as int]@[x] as int],
                forall|x: int| 0 <= x < a ==> flags@[#[trigger] parents@[j as int]@[x] as int],
                unset(flags@) + (queue@.len() - head) == measure,
            decreases parents@[j as int]@.len() - a,
        {
            let p: usize = parents[j][a];
            assert(p < order.len() && inner_edge(
                nodes,
                children,
                order[p as int],
                order[j as int],
            ));
            if !flags[p] {
                let ghost before = queue@;
                let ghost old_flags = flags@;
                proof {
                    lemma_unset_update(flags@, p as int);
                    let k = choose|k: nat| holds_at(nodes, children, set, order[j as int], k);
                    let m: nat = k + 1;
                    assert((m - 1) as nat == k);
                    assert(inner_edge(nodes, children, order[p as int], order[j as int]));
                    assert(holds_at(nodes, children, set, order[p as int], m));
                }
                flags.set(p, true);
                queue.push(p);
                proof {
                    assert forall|i: int|
                        0 <= i < order.len() && #[trigger] flags@[i] implies queue@.contains(
                        i as usize,
                    ) by {
                        if i == p {
                            assert(queue@[before.len() as int] == i as usize);
                        } else {
                            assert(old_flags[i]);
                            let q = choose|q: int| 0 <= q < before.len() && before[q] == i as usize;
                            assert(queue@[q] == i as usize);
                        }
                    }
                    assert forall|q: int| 0 <= q < queue@.len() implies (#[trigger] queue@[q])
                        < order.len() && flags@[queue@[q] as int] by {
                        if q < before.len() {
                            assert(queue@[q] == before[q]);
                        }
                    }
                    assert forall|q: int, x: int|
                        0 <= q < head && 0 <= x < parents@[queue@[q] as int]@.len() implies flags@[
                    #[trigger] parents@[queue@[q] as int]@[x] as int] by {
                        assert(queue@[q] == before[q]);
                        assert(old_flags[parents@[before[q] as int]@[x] as int]);
                    }
                }
            }
            a += 1;
        }
        head += 1;
    }
    proof {
        assert forall|i: int| 0 <= i < order.len() implies flags@[i] == holds(
            nodes,
            children,
            set,
            #[trigger] order[i],
        ) by {
            if holds(nodes, children, set, order[i]) {
                let k = choose|k: nat| holds_at(nodes, children, set, order[i], k);
                lemma_flags_closed(
                    parents@,
                    flags@,
                    order,
                    nodes,
                    children,
                    set,
                    i,
                    k,
                );
            }
        }
    }
    flags
}

proof fn lemma_flags_closed(
    parents: Seq<Vec<usize>>,
    flags: Seq<bool>,
    order: Seq<FileRef>,
    nodes: Map<FileRef, DirectoryNodeView>,
    children: Map<FileRef, Seq<FileRef>>,
    set: Set<FileRef>,
    i: int,
    k: nat,
)
    requires
        parents_ok(parents, order, nodes, children),
        order.len() <= usize::MAX,
        flags.len() == order.len(),
        forall|n: FileRef| #[trigger]
            nodes.contains_key(n) ==> exists|i: int| 0 <= i < order.len() && order[i] == n,
        forall|i: int| 0 <= i < order.len() && set.contains(#[trigger] order[i]) ==> flags[i],
        forall|j: int, a: int|
            0 <= j < order.len() && flags[j] && 0 <= a < parents[j]@.len()
                ==> flags[#[trigger] parents[j]@[a] as int],
        0 <= i < order.len(),
        holds_at(nodes, children, set, order[i], k),
    ensures
        flags[i],
    decreases k,
{
    if k > 0 {
        let c = choose|c: FileRef|
            #[trigger] inner_edge(nodes, children, order[i], c) && holds_at(
                nodes,
                children,
                set,
                c,
                (k - 1) as nat,
            );
        assert(nodes.contains_key(c));
        let j = choose|j: int| 0 <= j < order.len() && order[j] == c;
        lemma_flags_closed(parents, flags, order, nodes, children, set, j, (k - 1) as nat);
        assert(inner_edge(nodes, children, order[i], order[j]));
        assert(parents[j]@.contains(i as usize));
        let a = choose|a: int| 0 <= a < parents[j]@.len() && parents[j]@[a] == i as usize;
        assert(flags[parents[j]@[a] as int]);
    }
}

} // verus!
