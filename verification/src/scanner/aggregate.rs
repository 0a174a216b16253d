//! Excluded directories, and the totals of whole subtrees.

use super::graph::{children_view, kids_of, nodes_view, DirectoryGraph, DirectoryNode,
    DirectoryNodeView, GraphView};
use super::order::{is_tree, law_children_come_first};
use super::walk::{lemma_reachable_kid, list_post_order, post_order, reachable};
use crate::mft::FileRef;
use crate::models::strings_view;
use crate::paths::{excluded_by, is_path_excluded, law_containment_is_transitive, normalize, normalized,
    same_or_under};
use crate::refmap::RefMap;
use vstd::prelude::*;

verus! {

/// The sum, or the largest value where the sum exceeds it.
pub open spec fn sat_add(a: u64, b: u64) -> u64 {
    if a + b > u64::MAX {
        u64::MAX
    } else {
        (a + b) as u64
    }
}

/// Size, files and directories of a subtree.
#[derive(Debug, Clone, Copy, PartialEq, Eq, Structural)]
pub struct Totals {
    pub size: u64,
    pub files: u64,
    pub dirs: u64,
}

/// The sum of two totals.
pub open spec fn totals_add(a: Totals, b: Totals) -> Totals {
    Totals {
        size: sat_add(a.size, b.size),
        files: sat_add(a.files, b.files),
        dirs: sat_add(a.dirs, b.dirs),
    }
}

impl Totals {
    /// The sum of two totals.
    fn plus(&self, b: &Totals) -> (r: Totals)
        ensures
            r == totals_add(*self, *b),
    {
        Totals {
            size: self.size.saturating_add(b.size),
            files: self.files.saturating_add(b.files),
            dirs: self.dirs.saturating_add(b.dirs),
        }
    }
}

// ---------------------------------------------------------------------------
// Model
// ---------------------------------------------------------------------------

/// The node is or becomes excluded: its path is an excluded directory or lies in one.
pub open spec fn is_marked(node: DirectoryNodeView, excl: Seq<Seq<char>>) -> bool {
    node.excluded || (node.path.len() > 0 && excluded_by(normalized(node.path), excl))
}

/// The node with its exclusion set.
pub open spec fn mark(node: DirectoryNodeView, excl: Seq<Seq<char>>) -> DirectoryNodeView {
    DirectoryNodeView { excluded: is_marked(node, excl), ..node }
}

/// The nodes with their exclusion set.
pub open spec fn marked_nodes(
    nodes: Map<FileRef, DirectoryNodeView>,
    excl: Seq<Seq<char>>,
) -> Map<FileRef, DirectoryNodeView> {
    Map::new(|k: FileRef| nodes.contains_key(k), |k: FileRef| mark(nodes[k], excl))
}

/// The totals of kid `k` count for its parent `n`: they are known, and the kid
/// is not excluded, unless the parent is excluded too.
pub open spec fn counts_for(
    nodes: Map<FileRef, DirectoryNodeView>,
    known: Map<FileRef, Totals>,
    n: FileRef,
    k: FileRef,
) -> bool {
    known.contains_key(k) && (nodes[n].excluded || (nodes.contains_key(k) && !nodes[k].excluded))
}

/// The totals of `n` with its first `i` kids.
pub open spec fn subtotal(
    nodes: Map<FileRef, DirectoryNodeView>,
    kids: Seq<FileRef>,
    known: Map<FileRef, Totals>,
    n: FileRef,
    i: nat,
) -> Totals
    decreases i,
{
    if i == 0 {
        Totals {
            size: nodes[n].direct_file_size_bytes,
            files: nodes[n].direct_file_count,
            dirs: 1,
        }
    } else {
        let t = subtotal(nodes, kids, known, n, (i - 1) as nat);
        if counts_for(nodes, known, n, kids[i - 1]) {
            totals_add(t, known[kids[i - 1]])
        } else {
            t
        }
    }
}

/// The totals of `n`, from those of its kids that are known.
pub open spec fn totals_of(
    nodes: Map<FileRef, DirectoryNodeView>,
    children: Map<FileRef, Seq<FileRef>>,
    known: Map<FileRef, Totals>,
    n: FileRef,
) -> Totals {
    let kids = kids_of(children, n);
    subtotal(nodes, kids, known, n, kids.len())
}

/// The totals of the first `i` directories in `post`, each from those before it.
pub open spec fn totals_upto(
    nodes: Map<FileRef, DirectoryNodeView>,
    children: Map<FileRef, Seq<FileRef>>,
    post: Seq<FileRef>,
    i: nat,
) -> Map<FileRef, Totals>
    decreases i,
{
    if i == 0 {
        Map::empty()
    } else {
        let known = totals_upto(nodes, children, post, (i - 1) as nat);
        known.insert(post[i - 1], totals_of(nodes, children, known, post[i - 1]))
    }
}

/// `n` is a kid of an excluded directory.
pub open spec fn in_excluded(
    nodes: Map<FileRef, DirectoryNodeView>,
    children: Map<FileRef, Seq<FileRef>>,
    n: FileRef,
) -> bool {
    exists|p: FileRef|
        #[trigger] kids_of(children, p).contains(n) && nodes.contains_key(p) && nodes[p].excluded
}

/// `n` is excluded, and is no kid of an excluded directory.
pub open spec fn is_topmost_excluded(
    nodes: Map<FileRef, DirectoryNodeView>,
    children: Map<FileRef, Seq<FileRef>>,
    n: FileRef,
) -> bool {
    nodes.contains_key(n) && nodes[n].excluded && !in_excluded(nodes, children, n)
}

/// The size of the topmost excluded directories among the first `i` in `post`.
pub open spec fn excluded_size(
    nodes: Map<FileRef, DirectoryNodeView>,
    children: Map<FileRef, Seq<FileRef>>,
    totals: Map<FileRef, Totals>,
    post: Seq<FileRef>,
    i: nat,
) -> u64
    decreases i,
{
    if i == 0 {
        0
    } else {
        let before = excluded_size(nodes, children, totals, post, (i - 1) as nat);
        if is_topmost_excluded(nodes, children, post[i - 1]) {
            sat_add(before, totals[post[i - 1]].size)
        } else {
            before
        }
    }
}

/// The node with its totals, if they are known.
pub open spec fn with_totals(
    node: DirectoryNodeView,
    totals: Map<FileRef, Totals>,
    n: FileRef,
) -> DirectoryNodeView {
    if totals.contains_key(n) {
        DirectoryNodeView {
            subtree_size_bytes: totals[n].size,
            subtree_file_count: totals[n].files,
            subtree_dir_count: totals[n].dirs,
            ..node
        }
    } else {
        node
    }
}

/// The order in which the totals of `g` are formed.
pub open spec fn order_of(g: GraphView) -> Seq<FileRef> {
    if g.nodes.contains_key(g.root) {
        post_order(g.children, g.root)
    } else {
        Seq::empty()
    }
}

/// All totals of `g`, whose exclusions are set.
pub open spec fn all_totals(g: GraphView) -> Map<FileRef, Totals> {
    totals_upto(g.nodes, g.children, order_of(g), order_of(g).len())
}

/// The graph with its exclusions set.
pub open spec fn marked(g: GraphView, excl: Seq<Seq<char>>) -> GraphView {
    GraphView { nodes: marked_nodes(g.nodes, excl), ..g }
}

/// The graph with its totals.
pub open spec fn totalled(g: GraphView) -> GraphView {
    let totals = all_totals(g);
    GraphView {
        nodes: Map::new(
            |k: FileRef| g.nodes.contains_key(k),
            |k: FileRef| with_totals(g.nodes[k], totals, k),
        ),
        excluded_subtree_size_bytes: excluded_size(
            g.nodes,
            g.children,
            totals,
            order_of(g),
            order_of(g).len(),
        ),
        ..g
    }
}

/// The graph with exclusions and totals.
pub open spec fn aggregated(g: GraphView, excl: Seq<Seq<char>>) -> GraphView {
    totalled(marked(g, excl))
}

/// What can be reached from the root has a node.
pub open spec fn is_closed(g: GraphView) -> bool {
    g.nodes.contains_key(g.root) ==> forall|n: FileRef| #[trigger]
        reachable(g.children, g.root, n) ==> g.nodes.contains_key(n)
}

// ---------------------------------------------------------------------------
// Executable
// ---------------------------------------------------------------------------

/// Nodes that agree place by place with `m` agree with `m`.
pub proof fn lemma_nodes_by_place(a: &RefMap<DirectoryNode>, m: Map<FileRef, DirectoryNodeView>)
    requires
        a.wf(),
        forall|k: FileRef| a@.contains_key(k) <==> #[trigger] m.contains_key(k),
        forall|i: int|
            0 <= i < a.order().len() ==> (#[trigger] a.vals()[i])@ == m[a.order()[i]],
    ensures
        nodes_view(a@) == m,
{
    a.lemma_order();
    assert forall|k: FileRef| #[trigger] nodes_view(a@).contains_key(k) implies nodes_view(a@)[k]
        == m[k] by {
        let i = choose|i: int| 0 <= i < a.order().len() && #[trigger] a.order()[i] == k;
        assert(a.vals()[i]@ == m[a.order()[i]]);
    }
    assert(nodes_view(a@) =~= m);
}

/// Sets the exclusions of all nodes.
fn mark_excluded(nodes: &mut RefMap<DirectoryNode>, excl: &[String])
    requires
        old(nodes).wf(),
    ensures
        final(nodes).wf(),
        final(nodes).order() == old(nodes).order(),
        nodes_view(final(nodes)@) == marked_nodes(nodes_view(old(nodes)@), strings_view(excl@)),
{
    let ghost texts = strings_view(excl@);
    let ghost n0 = nodes_view(nodes@);
    let ghost v0 = nodes.vals();
    proof {
        nodes.lemma_order();
    }
    let count: usize = nodes.len();
    let mut i: usize = 0;
    while i < count
        invariant
            i <= count,
            nodes.wf(),
            texts == strings_view(excl@),
            nodes.order() == old(nodes).order(),
            count == nodes.order().len(),
            v0 == old(nodes).vals(),
            v0.len() == count,
            nodes.vals().len() == count,
            forall|k: FileRef| #[trigger]
                nodes@.contains_key(k) == old(nodes)@.contains_key(k),
            forall|j: int| 0 <= j < i ==> (#[trigger] nodes.vals()[j])@ == mark(v0[j]@, texts),
            forall|j: int| i <= j < count ==> (#[trigger] nodes.vals()[j]) == v0[j],
        decreases count - i,
    {
        proof {
            nodes.lemma_order();
        }
        let hit: bool = {
            let node: &DirectoryNode = nodes.value_at(i);
            if excl.len() == 0 || node.path.as_str().is_empty() {
                false
            } else {
                is_path_excluded(normalize(node.path.as_str()).as_str(), excl)
            }
        };
        assert(nodes.vals()[i as int] == v0[i as int]);
        assert(hit == (v0[i as int]@.path.len() > 0 && excluded_by(
            normalized(v0[i as int]@.path),
            texts,
        )));
        if hit {
            let slot = nodes.value_mut(i);
            slot.excluded = true;
        }
        i += 1;
        proof {
            nodes.lemma_order();
        }
    }
    proof {
        nodes.lemma_order();
        old(nodes).lemma_order();
        let m = marked_nodes(n0, texts);
        assert forall|j: int| 0 <= j < nodes.order().len() implies (#[trigger] nodes.vals()[j])@
            == m[nodes.order()[j]] by {
            assert(old(nodes)@.contains_key(old(nodes).order()[j]));
        }
        lemma_nodes_by_place(nodes, m);
    }
}

/// The totals by place agree with `known`.
spec fn totals_ok(
    order: Seq<FileRef>,
    slots: Seq<Option<Totals>>,
    known: Map<FileRef, Totals>,
) -> bool {
    &&& slots.len() == order.len()
    &&& forall|i: int|
        0 <= i < order.len() ==> #[trigger] slots[i] == if known.contains_key(order[i]) {
            Some(known[order[i]])
        } else {
            None
        }
}

/// Forms the totals of one directory.
fn form_totals(
    nodes: &RefMap<DirectoryNode>,
    children: &RefMap<Vec<FileRef>>,
    slots: &Vec<Option<Totals>>,
    at: usize,
    Ghost(known): Ghost<Map<FileRef, Totals>>,
) -> (r: Totals)
    requires
        nodes.wf(),
        children.wf(),
        at < nodes.order().len(),
        totals_ok(nodes.order(), slots@, known),
        forall|k: FileRef| #[trigger] known.contains_key(k) ==> nodes@.contains_key(k),
    ensures
        r == totals_of(
            nodes_view(nodes@),
            children_view(children@),
            known,
            nodes.order()[at as int],
        ),
{
    proof {
        nodes.lemma_order();
    }
    let n: FileRef = nodes.key_at(at);
    let node: &DirectoryNode = nodes.value_at(at);
    let ghost views = nodes_view(nodes@);
    assert(views[n] == node@);
    let mut t = Totals {
        size: node.direct_file_size_bytes,
        files: node.direct_file_count,
        dirs: 1,
    };
    let ghost kids = kids_of(children_view(children@), n);
    match children.get(&n) {
        Some(list) => {
            let mut i: usize = 0;
            while i < list.len()
                invariant
                    i <= list@.len(),
                    nodes.wf(),
                    n == nodes.order()[at as int],
                    node@ == views[n],
                    views == nodes_view(nodes@),
                    kids == list@,
                    totals_ok(nodes.order(), slots@, known),
                    forall|k: FileRef| #[trigger]
                        known.contains_key(k) ==> nodes@.contains_key(k),
                    t == subtotal(views, kids, known, n, i as nat),
                decreases list@.len() - i,
            {
                let kid: FileRef = list[i];
                match nodes.position(kid) {
                    Some(p) => {
                        assert(nodes.order()[p as int] == kid);
                        assert(slots@[p as int] == if known.contains_key(kid) {
                            Some(known[kid])
                        } else {
                            None
                        });
                        match slots[p] {
                            Some(kt) => {
                                if node.excluded || !nodes.value_at(p).excluded {
                                    t = t.plus(&kt);
                                }
                            },
                            None => {},
                        }
                    },
                    None => {
                        assert(!known.contains_key(kid));
                    },
                }
                i += 1;
            }
        },
        None => {},
    }
    t
}

/// Which nodes are kids of excluded directories, by place.
fn flag_in_excluded(nodes: &RefMap<DirectoryNode>, children: &RefMap<Vec<FileRef>>) -> (r: Vec<
    bool,
>)
    requires
        nodes.wf(),
        children.wf(),
    ensures
        r@.len() == nodes.order().len(),
        forall|i: int|
            0 <= i < r@.len() ==> #[trigger] r@[i] == in_excluded(
                nodes_view(nodes@),
                children_view(children@),
                nodes.order()[i],
            ),
{
    let ghost views = nodes_view(nodes@);
    let ghost edges = children_view(children@);
    let ghost order = nodes.order();
    proof {
        nodes.lemma_order();
        children.lemma_order();
    }
    let mut flags: Vec<bool> = Vec::new();
    let count: usize = nodes.len();
    let mut f: usize = 0;
    while f < count
        invariant
            f <= count,
            flags@.len() == f,
            forall|i: int| 0 <= i < f ==> !flags@[i],
        decreases count - f,
    {
        flags.push(false);
        f += 1;
    }
    let parents: usize = children.len();
    let mut a: usize = 0;
    while a < parents
        invariant
            nodes.wf(),
            children.wf(),
            a <= parents,
            parents == children.order().len(),
            views == nodes_view(nodes@),
            edges == children_view(children@),
            order == nodes.order(),
            flags@.len() == order.len(),
            forall|i: int|
                0 <= i < flags@.len() && #[trigger] flags@[i] ==> in_excluded(
                    views,
                    edges,
                    order[i],
                ),
            forall|b: int, i: int|
                0 <= b < a && 0 <= i < order.len() && kids_of(
                    edges,
                    #[trigger] children.order()[b],
                ).contains(#[trigger] order[i]) && views.contains_key(children.order()[b])
                    && views[children.order()[b]].excluded ==> flags@[i],
        decreases parents - a,
    {
        proof {
            nodes.lemma_order();
            children.lemma_order();
        }
        let p: FileRef = children.key_at(a);
        let list: &Vec<FileRef> = children.value_at(a);
        assert(kids_of(edges, p) == list@);
        let skip: bool = match nodes.get(&p) {
            Some(node) => !node.excluded,
            None => true,
        };
        assert(skip == !(views.contains_key(p) && views[p].excluded));
        if !skip {
            let mut i: usize = 0;
            while i < list.len()
                invariant
                    i <= list@.len(),
                    nodes.wf(),
                    a < parents,
                    parents == children.order().len(),
                    views.contains_key(p) && views[p].excluded,
                    order == nodes.order(),
                    p == children.order()[a as int],
                    kids_of(edges, p) == list@,
                    flags@.len() == order.len(),
                    forall|x: int|
                        0 <= x < flags@.len() && #[trigger] flags@[x] ==> in_excluded(
                            views,
                            edges,
                            order[x],
                        ),
                    forall|b: int, x: int|
                        0 <= b < a && 0 <= x < order.len() && kids_of(
                            edges,
                            #[trigger] children.order()[b],
                        ).contains(#[trigger] order[x]) && views.contains_key(children.order()[b])
                            && views[children.order()[b]].excluded ==> flags@[x],
                    forall|y: int, x: int|
                        0 <= y < i && 0 <= x < order.len() && #[trigger] list@[y]
                            == #[trigger] order[x] ==> flags@[x],
                decreases list@.len() - i,
            {
                proof {
                    nodes.lemma_order();
                }
                match nodes.position(list[i]) {
                    Some(x) => {
                        flags.set(x, true);
                        assert(kids_of(edges, p).contains(order[x as int])) by {
                            assert(list@[i as int] == order[x as int]);
                        }
                    },
                    None => {},
                }
                i += 1;
            }
        }
        a += 1;
    }
    proof {
        children.lemma_order();
        assert forall|i: int| 0 <= i < flags@.len() implies #[trigger] flags@[i] == in_excluded(
            views,
            edges,
            order[i],
        ) by {
            if in_excluded(views, edges, order[i]) {
                let p = choose|p: FileRef|
                    #[trigger] kids_of(edges, p).contains(order[i]) && views.contains_key(p)
                        && views[p].excluded;
                assert(children@.contains_key(p));
                let b = choose|b: int|
                    0 <= b < children.order().len() && #[trigger] children.order()[b] == p;
                assert(kids_of(edges, children.order()[b]).contains(order[i]));
            }
        }
    }
    flags
}

/// Sets the exclusions, forms the totals of every directory that can be
/// reached from the root, and sums up the topmost excluded directories.
pub fn aggregate_and_exclude(graph: &mut DirectoryGraph, normalized_excluded: &[String])
    requires
        old(graph).wf(),
        is_closed(old(graph)@),
    ensures
        final(graph).wf(),
        final(graph)@ == aggregated(old(graph)@, strings_view(normalized_excluded@)),
        final(graph).nodes.order() == old(graph).nodes.order(),
{
    let ghost texts = strings_view(normalized_excluded@);
    let ghost g0 = graph@;
    mark_excluded(&mut graph.nodes, normalized_excluded);
    let ghost g1 = graph@;
    assert(g1 == marked(g0, texts));
    let root: FileRef = graph.root;
    let post: Vec<FileRef> = if graph.nodes.contains_key(&root) {
        assert(graph.nodes@.contains_key(root));
        assert(g1.nodes == nodes_view(graph.nodes@));
        assert(g1.nodes.contains_key(root));
        assert(marked_nodes(g0.nodes, texts).contains_key(root));
        assert(g0.nodes.contains_key(root));
        assert(g1.children == children_view(graph.children@));
        assert forall|n: FileRef| #[trigger] reachable(g1.children, root, n) implies graph.nodes@.contains_key(
            n,
        ) by {
            assert(g0.nodes.contains_key(n));
            assert(g1.nodes.contains_key(n));
        }
        list_post_order(&graph.children, &graph.nodes, root)
    } else {
        Vec::new()
    };
    assert(post@ =~= order_of(g1));
    assert forall|i: int| 0 <= i < post@.len() implies graph.nodes@.contains_key(
        #[trigger] post@[i],
    ) by {
        assert(g0.nodes.contains_key(post@[i]));
        assert(g1.nodes.contains_key(post@[i]));
    }
    let flags: Vec<bool> = flag_in_excluded(&graph.nodes, &graph.children);
    let count: usize = graph.nodes.len();
    let mut slots: Vec<Option<Totals>> = Vec::new();
    let mut f: usize = 0;
    while f < count
        invariant
            f <= count,
            slots@.len() == f,
            forall|i: int| 0 <= i < f ==> slots@[i] is None,
        decreases count - f,
    {
        slots.push(None);
        f += 1;
    }
    let ghost mut known = Map::<FileRef, Totals>::empty();
    assert(totals_ok(graph.nodes.order(), slots@, known));
    let mut i: usize = 0;
    while i < post.len()
        invariant
            i <= post@.len(),
            graph.wf(),
            graph@ == g1,
            graph.nodes.order() == old(graph).nodes.order(),
            known == totals_upto(g1.nodes, g1.children, post@, i as nat),
            totals_ok(graph.nodes.order(), slots@, known),
            forall|k: FileRef| #[trigger] known.contains_key(k) ==> graph.nodes@.contains_key(k),
            forall|i: int|
                0 <= i < post@.len() ==> graph.nodes@.contains_key(#[trigger] post@[i]),
        decreases post@.len() - i,
    {
        proof {
            graph.nodes.lemma_order();
        }
        let n: FileRef = post[i];
        match graph.nodes.position(n) {
            Some(p) => {
                let t = form_totals(&graph.nodes, &graph.children, &slots, p, Ghost(known));
                slots.set(p, Some(t));
                proof {
                    known = known.insert(n, t);
                    assert(graph.nodes.order()[p as int] == n);
                    assert forall|j: int| 0 <= j < graph.nodes.order().len() implies #[trigger] slots@[j]
                        == if known.contains_key(graph.nodes.order()[j]) {
                        Some(known[graph.nodes.order()[j]])
                    } else {
                        None
                    } by {
                        if j != p {
                            assert(graph.nodes.order()[j] != n);
                        }
                    }
                }
            },
            None => {},
        }
        i += 1;
    }
    let ghost totals = known;
    assert(totals == all_totals(g1));
    let mut sum: u64 = 0;
    let mut k: usize = 0;
    while k < post.len()
        invariant
            k <= post@.len(),
            graph.wf(),
            graph@ == g1,
            totals == totals_upto(g1.nodes, g1.children, post@, post@.len()),
            totals_ok(graph.nodes.order(), slots@, totals),
            flags@.len() == graph.nodes.order().len(),
            forall|i: int|
                0 <= i < flags@.len() ==> #[trigger] flags@[i] == in_excluded(
                    g1.nodes,
                    g1.children,
                    graph.nodes.order()[i],
                ),
            forall|i: int|
                0 <= i < post@.len() ==> graph.nodes@.contains_key(#[trigger] post@[i]),
            sum == excluded_size(g1.nodes, g1.children, totals, post@, k as nat),
        decreases post@.len() - k,
    {
        let n: FileRef = post[k];
        proof {
            lemma_totals_keys(g1.nodes, g1.children, post@, post@.len(), k as int);
        }
        match graph.nodes.position(n) {
            Some(p) => {
                assert(g1.nodes[n] == graph.nodes@[n]@);
                assert(flags@[p as int] == in_excluded(g1.nodes, g1.children, n));
                if graph.nodes.value_at(p).excluded && !flags[p] {
                    assert(slots@[p as int] == Some(totals[n]));
                    match slots[p] {
                        Some(t) => {
                            sum = sum.saturating_add(t.size);
                        },
                        None => {},
                    }
                }
            },
            None => {},
        }
        k += 1;
    }
    write_totals(&mut graph.nodes, &slots, Ghost(totals));
    graph.excluded_subtree_size_bytes = sum;
    proof {
        assert(graph@.nodes =~= totalled(g1).nodes);
        assert(graph@ == totalled(g1));
    }
}

/// The listed directories have totals.
pub proof fn lemma_totals_keys(
    nodes: Map<FileRef, DirectoryNodeView>,
    children: Map<FileRef, Seq<FileRef>>,
    post: Seq<FileRef>,
    n: nat,
    i: int,
)
    requires
        0 <= i < n <= post.len(),
    ensures
        totals_upto(nodes, children, post, n).contains_key(post[i]),
    decreases n,
{
    if i < n - 1 {
        lemma_totals_keys(nodes, children, post, (n - 1) as nat, i);
    }
}

/// Writes the totals into the nodes.
fn write_totals(
    nodes: &mut RefMap<DirectoryNode>,
    slots: &Vec<Option<Totals>>,
    Ghost(totals): Ghost<Map<FileRef, Totals>>,
)
    requires
        old(nodes).wf(),
        totals_ok(old(nodes).order(), slots@, totals),
    ensures
        final(nodes).wf(),
        final(nodes).order() == old(nodes).order(),
        nodes_view(final(nodes)@) == Map::new(
            |k: FileRef| nodes_view(old(nodes)@).contains_key(k),
            |k: FileRef| with_totals(nodes_view(old(nodes)@)[k], totals, k),
        ),
{
    let ghost n0 = nodes_view(nodes@);
    let ghost v0 = nodes.vals();
    proof {
        nodes.lemma_order();
    }
    let count: usize = nodes.len();
    let mut i: usize = 0;
    while i < count
        invariant
            i <= count,
            nodes.wf(),
            nodes.order() == old(nodes).order(),
            count == nodes.order().len(),
            v0 == old(nodes).vals(),
            v0.len() == count,
            nodes.vals().len() == count,
            totals_ok(nodes.order(), slots@, totals),
            forall|k: FileRef| #[trigger]
                nodes@.contains_key(k) == old(nodes)@.contains_key(k),
            forall|j: int|
                0 <= j < i ==> (#[trigger] nodes.vals()[j])@ == with_totals(
                    v0[j]@,
                    totals,
                    nodes.order()[j],
                ),
            forall|j: int| i <= j < count ==> (#[trigger] nodes.vals()[j]) == v0[j],
        decreases count - i,
    {
        proof {
            nodes.lemma_order();
            assert(nodes.vals()[i as int] == v0[i as int]);
            assert(slots@[i as int] == if totals.contains_key(nodes.order()[i as int]) {
                Some(totals[nodes.order()[i as int]])
            } else {
                None
            });
        }
        match slots[i] {
            Some(t) => {
                let slot = nodes.value_mut(i);
                slot.subtree_size_bytes = t.size;
                slot.subtree_file_count = t.files;
                slot.subtree_dir_count = t.dirs;
            },
            None => {},
        }
        i += 1;
        proof {
            nodes.lemma_order();
        }
    }
    proof {
        nodes.lemma_order();
        old(nodes).lemma_order();
        let m = Map::new(
            |k: FileRef| nodes_view(old(nodes)@).contains_key(k),
            |k: FileRef| with_totals(nodes_view(old(nodes)@)[k], totals, k),
        );
        assert forall|j: int| 0 <= j < nodes.order().len() implies (#[trigger] nodes.vals()[j])@
            == m[nodes.order()[j]] by {
            assert(old(nodes)@.contains_key(old(nodes).order()[j]));
        }
        lemma_nodes_by_place(nodes, m);
    }
}

// ---------------------------------------------------------------------------
// Laws
// ---------------------------------------------------------------------------

/// Totals that are known stay as they are, in an order without repetitions.
proof fn lemma_totals_stay(
    nodes: Map<FileRef, DirectoryNodeView>,
    children: Map<FileRef, Seq<FileRef>>,
    post: Seq<FileRef>,
    j: int,
    i: nat,
)
    requires
        post.no_duplicates(),
        0 <= j < i <= post.len(),
    ensures
        totals_upto(nodes, children, post, i).contains_key(post[j]),
        totals_upto(nodes, children, post, i)[post[j]] == totals_of(
            nodes,
            children,
            totals_upto(nodes, children, post, j as nat),
            post[j],
        ),
    decreases i,
{
    if j < i - 1 {
        lemma_totals_stay(nodes, children, post, j, (i - 1) as nat);
        assert(post[j] != post[i - 1]);
    }
}

/// Totals depend on those of the kids alone.
proof fn lemma_subtotal_same(
    nodes: Map<FileRef, DirectoryNodeView>,
    kids: Seq<FileRef>,
    a: Map<FileRef, Totals>,
    b: Map<FileRef, Totals>,
    n: FileRef,
    i: nat,
)
    requires
        i <= kids.len(),
        forall|k: FileRef| #[trigger]
            kids.contains(k) ==> a.contains_key(k) && b.contains_key(k) && a[k] == b[k],
    ensures
        subtotal(nodes, kids, a, n, i) == subtotal(nodes, kids, b, n, i),
    decreases i,
{
    if i > 0 {
        lemma_subtotal_same(nodes, kids, a, b, n, (i - 1) as nat);
        assert(kids.contains(kids[i - 1]));
    }
}

/// The totals of every directory of a tree follow from those of its kids.
proof fn lemma_totals_add_up(g: GraphView, n: FileRef)
    requires
        g.nodes.dom().finite(),
        g.nodes.contains_key(g.root),
        is_closed(g),
        is_tree(g.children, g.root),
        reachable(g.children, g.root, n),
    ensures
        all_totals(g).contains_key(n),
        forall|k: FileRef| #[trigger]
            kids_of(g.children, n).contains(k) ==> all_totals(g).contains_key(k),
        all_totals(g)[n] == totals_of(g.nodes, g.children, all_totals(g), n),
{
    let post = order_of(g);
    let kids = kids_of(g.children, n);
    law_children_come_first(g.children, g.root, g.nodes.dom());
    assert(post.contains(n));
    let i = choose|i: int| 0 <= i < post.len() && post[i] == n;
    lemma_totals_stay(g.nodes, g.children, post, i, post.len());
    let known = totals_upto(g.nodes, g.children, post, i as nat);
    assert forall|k: FileRef| #[trigger] kids.contains(k) implies known.contains_key(k)
        && all_totals(g).contains_key(k) && known[k] == all_totals(g)[k] by {
        assert(kids_of(g.children, post[i]).contains(k));
        let j = choose|j: int| 0 <= j < i && #[trigger] post[j] == k;
        lemma_totals_stay(g.nodes, g.children, post, j, i as nat);
        lemma_totals_stay(g.nodes, g.children, post, j, post.len());
    }
    lemma_subtotal_same(g.nodes, kids, known, all_totals(g), n, kids.len());
}

/// The totals that a node shows.
pub open spec fn shown_totals(node: DirectoryNodeView) -> Totals {
    Totals {
        size: node.subtree_size_bytes,
        files: node.subtree_file_count,
        dirs: node.subtree_dir_count,
    }
}

/// What `n` has by itself and from its first `i` kids, by what they show.
/// Excluded kids count only inside what is excluded itself.
pub open spec fn shown_subtotal(g: GraphView, n: FileRef, i: nat) -> Totals
    decreases i,
{
    if i == 0 {
        Totals {
            size: g.nodes[n].direct_file_size_bytes,
            files: g.nodes[n].direct_file_count,
            dirs: 1,
        }
    } else {
        let k = kids_of(g.children, n)[i - 1];
        let t = shown_subtotal(g, n, (i - 1) as nat);
        if g.nodes[n].excluded || !g.nodes[k].excluded {
            totals_add(t, shown_totals(g.nodes[k]))
        } else {
            t
        }
    }
}

/// What is shown is what was summed up.
proof fn lemma_shown_subtotal(g: GraphView, n: FileRef, i: nat)
    requires
        i <= kids_of(g.children, n).len(),
        g.nodes.contains_key(n),
        forall|k: FileRef| #[trigger]
            kids_of(g.children, n).contains(k) ==> all_totals(g).contains_key(k)
                && g.nodes.contains_key(k),
    ensures
        shown_subtotal(totalled(g), n, i) == subtotal(
            g.nodes,
            kids_of(g.children, n),
            all_totals(g),
            n,
            i,
        ),
    decreases i,
{
    if i > 0 {
        let k = kids_of(g.children, n)[i - 1];
        assert(kids_of(g.children, n).contains(k));
        lemma_shown_subtotal(g, n, (i - 1) as nat);
        assert(totalled(g).nodes[k] == with_totals(g.nodes[k], all_totals(g), k));
        assert(totalled(g).nodes[n] == with_totals(g.nodes[n], all_totals(g), n));
    }
}

/// In a tree every directory shows the totals of its own files and of its
/// kids, excluded ones aside: nothing is left out, and nothing is counted twice.
pub proof fn law_totals_add_up(g: GraphView, excl: Seq<Seq<char>>, n: FileRef)
    requires
        g.nodes.dom().finite(),
        g.nodes.contains_key(g.root),
        is_closed(g),
        is_tree(g.children, g.root),
        reachable(g.children, g.root, n),
    ensures
        shown_totals(aggregated(g, excl).nodes[n]) == shown_subtotal(
            aggregated(g, excl),
            n,
            kids_of(g.children, n).len(),
        ),
{
    let m = marked(g, excl);
    assert(m.nodes.dom() =~= g.nodes.dom());
    assert(is_closed(m));
    lemma_totals_add_up(m, n);
    assert forall|k: FileRef| #[trigger] kids_of(m.children, n).contains(
        k,
    ) implies m.nodes.contains_key(k) by {
        let i = choose|i: int|
            0 <= i < kids_of(m.children, n).len() && kids_of(m.children, n)[i] == k;
        lemma_reachable_kid(m.children, m.root, n, i);
    }
    lemma_shown_subtotal(m, n, kids_of(m.children, n).len());
}

/// What lies in a directory that is excluded by its path is excluded too.
pub proof fn law_exclusion_reaches_down(
    excl: Seq<Seq<char>>,
    dir: DirectoryNodeView,
    node: DirectoryNodeView,
)
    requires
        excluded_by(normalized(dir.path), excl),
        node.path.len() > 0,
        same_or_under(normalized(node.path), normalized(dir.path)),
    ensures
        mark(node, excl).excluded,
{
    let i = choose|i: int|
        0 <= i < excl.len() && same_or_under(normalized(dir.path), #[trigger] excl[i]);
    law_containment_is_transitive(normalized(node.path), normalized(dir.path), excl[i]);
}

} // verus!
