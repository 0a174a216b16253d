//! Making the tree that is shown from an annotated graph.

use super::graph::{kids_of, DirectoryGraph, DirectoryNode, DirectoryNodeView, GraphView};
use super::tree::{
    list_map_view, listed, root_display, text_map_view, tree_map_view, TreeStore, TreeStoreView,
};
use super::tree_model::{count32, low32};
use crate::keys::lemma_places_covered;
use crate::mft::FileRef;
use crate::models::{
    copy_opt, opt_view, strings_view, AccessState, RootFileSummary, ScanSource, TreeNode,
    TreeNodeView,
};
use crate::pathmap::PathMap;
use crate::paths::{normalize, normalized};
use crate::sort::{precedes, size_before, sort_indices, sorts, BySize, Ranked};
use vstd::prelude::*;

verus! {

// ---------------------------------------------------------------------------
// Model
// ---------------------------------------------------------------------------

/// The directory is shown.
pub open spec fn is_shown(g: GraphView, r: FileRef) -> bool {
    g.nodes.contains_key(r) && g.nodes[r].visible
}

/// The text under which the directory is filed.
pub open spec fn key_of(g: GraphView, r: FileRef) -> Seq<char> {
    normalized(g.nodes[r].path)
}

/// The text under which the root directory is filed.
pub open spec fn root_key() -> Seq<char> {
    normalized(root_display())
}

/// The text under which the children of `p` are filed, if they are.
pub open spec fn parent_key(g: GraphView, p: FileRef) -> Option<Seq<char>> {
    if p == g.root {
        Some(root_key())
    } else if is_shown(g, p) {
        Some(key_of(g, p))
    } else {
        None
    }
}

/// Size and key of those of the first `n` kids that are shown.
pub open spec fn shown_kids(g: GraphView, kids: Seq<FileRef>, n: nat) -> Seq<(u64, Seq<char>)>
    decreases n,
{
    if n == 0 {
        Seq::empty()
    } else {
        let before = shown_kids(g, kids, (n - 1) as nat);
        if is_shown(g, kids[n - 1]) {
            before.push((g.nodes[kids[n - 1]].subtree_size_bytes, key_of(g, kids[n - 1])))
        } else {
            before
        }
    }
}

/// Item `a` may stand before item `b`: it is not smaller, and of items of the
/// same size the one with the smaller path comes first.
pub open spec fn may_precede(a: (u64, Seq<char>), b: (u64, Seq<char>)) -> bool {
    !size_before(b.0, b.1, a.0, a.1)
}

/// `list` holds the keys of all items, by size and path.
pub open spec fn arranges(items: Seq<(u64, Seq<char>)>, list: Seq<Seq<char>>) -> bool {
    exists|p: Seq<usize>| #[trigger] arranged_by(items, list, p)
}

/// `list` holds the keys of all items in the order `p`, which is by size and path.
pub open spec fn arranged_by(
    items: Seq<(u64, Seq<char>)>,
    list: Seq<Seq<char>>,
    p: Seq<usize>,
) -> bool {
    &&& p.len() == items.len()
    &&& list.len() == items.len()
    &&& p.no_duplicates()
    &&& forall|a: int| 0 <= a < p.len() ==> (#[trigger] p[a]) < items.len()
    &&& forall|a: int| 0 <= a < p.len() ==> #[trigger] list[a] == items[p[a] as int].1
    &&& forall|a: int, b: int|
        0 <= a < b < p.len() ==> may_precede(
            items[#[trigger] p[a] as int],
            items[#[trigger] p[b] as int],
        )
}

/// How many of the first `n` kids are too small to be shown.
pub open spec fn filtered_kids(g: GraphView, kids: Seq<FileRef>, n: nat) -> nat
    decreases n,
{
    if n == 0 {
        0
    } else {
        let k = kids[n - 1];
        filtered_kids(g, kids, (n - 1) as nat) + if g.nodes.contains_key(k) && !g.nodes[k].visible
            && !g.nodes[k].excluded {
            1nat
        } else {
            0nat
        }
    }
}

/// The number of kids of `r` that are too small to be shown.
pub open spec fn filtered_count(g: GraphView, r: FileRef) -> u32 {
    let kids = kids_of(g.children, r);
    low32(filtered_kids(g, kids, kids.len()))
}

/// The directory as it is shown, with `child_count` children.
pub open spec fn shown_node(
    n: DirectoryNodeView,
    child_count: u32,
    filtered_child_count: u32,
) -> TreeNodeView {
    TreeNodeView {
        path: n.path,
        display_name: n.display_name,
        size_bytes: n.subtree_size_bytes,
        linked_target_size_bytes: n.linked_target_size_bytes,
        file_count: n.subtree_file_count,
        dir_count: n.subtree_dir_count,
        depth: n.depth,
        is_reparse: n.reparse_tag is Some,
        reparse_tag: n.reparse_tag,
        is_junction: n.is_junction,
        access_state: n.access_state,
        matched_preset: n.matched_preset,
        category: n.category,
        auto_migrate: n.auto_migrate,
        scan_status: n.scan_status,
        migration_id: n.migration_id,
        child_count,
        filtered_child_count,
    }
}

/// The directory is worth migrating: a preset covers it, nothing was done to
/// it, and it is an ordinary directory that can be read.
pub open spec fn is_recommended(n: TreeNodeView) -> bool {
    n.matched_preset is Some && n.scan_status is None && !n.is_reparse && n.access_state
        != AccessState::Inaccessible
}

/// The lists of children: one for each directory whose children are filed.
pub open spec fn children_right(g: GraphView, children: Map<Seq<char>, Seq<Seq<char>>>) -> bool {
    &&& forall|k: Seq<char>| #[trigger]
        children.contains_key(k) ==> exists|p: FileRef|
            #[trigger] g.children.contains_key(p) && parent_key(g, p) == Some(k) && arranges(
                shown_kids(g, g.children[p], g.children[p].len()),
                children[k],
            )
    &&& forall|p: FileRef| #[trigger]
        g.children.contains_key(p) && parent_key(g, p) is Some ==> children.contains_key(
            parent_key(g, p)->0,
        )
}

/// The parents: each filed child has the key of a directory that lists it.
pub open spec fn parents_right(g: GraphView, parent: Map<Seq<char>, Seq<char>>) -> bool {
    &&& forall|k: Seq<char>| #[trigger]
        parent.contains_key(k) ==> exists|p: FileRef, c: FileRef|
            #[trigger] g.children.contains_key(p) && #[trigger] g.children[p].contains(c)
                && is_shown(g, c) && key_of(g, c) == k && parent_key(g, p) == Some(parent[k])
    &&& forall|p: FileRef, c: FileRef|
        #[trigger] g.children.contains_key(p) && parent_key(g, p) is Some
            && #[trigger] g.children[p].contains(c) && is_shown(g, c) ==> parent.contains_key(
            key_of(g, c),
        )
}

/// The nodes: one for each key of a shown directory.
pub open spec fn nodes_right(g: GraphView, s: TreeStoreView) -> bool {
    &&& forall|k: Seq<char>| #[trigger]
        s.nodes.contains_key(k) ==> exists|r: FileRef|
            #[trigger] is_shown(g, r) && key_of(g, r) == k && s.nodes[k] == shown_node(
                g.nodes[r],
                low32(listed(s, k).len()),
                filtered_count(g, r),
            )
    &&& forall|r: FileRef| #[trigger] is_shown(g, r) ==> s.nodes.contains_key(key_of(g, r))
}

/// Size and key of those of the first `n` keys under which a node is filed.
pub open spec fn filed_items(
    nodes: Map<Seq<char>, TreeNodeView>,
    keys: Seq<Seq<char>>,
    n: nat,
) -> Seq<(u64, Seq<char>)>
    decreases n,
{
    if n == 0 {
        Seq::empty()
    } else {
        let before = filed_items(nodes, keys, (n - 1) as nat);
        if nodes.contains_key(keys[n - 1]) {
            before.push((nodes[keys[n - 1]].size_bytes, keys[n - 1]))
        } else {
            before
        }
    }
}

/// The recommended directories, by size and path, each once.
pub open spec fn recommended_right(s: TreeStoreView) -> bool {
    &&& s.recommended.no_duplicates()
    &&& forall|k: Seq<char>| #[trigger]
        s.recommended.contains(k) <==> s.nodes.contains_key(k) && is_recommended(s.nodes[k])
    &&& forall|a: int, b: int|
        0 <= a < b < s.recommended.len() ==> may_precede(
            (s.nodes[#[trigger] s.recommended[a]].size_bytes, s.recommended[a]),
            (s.nodes[#[trigger] s.recommended[b]].size_bytes, s.recommended[b]),
        )
}

/// `s` is a tree of the directories that `g` shows. Where several directories
/// have the same key, any one of them may stand for it.
pub open spec fn shows(g: GraphView, s: TreeStoreView) -> bool {
    &&& children_right(g, s.children)
    &&& parents_right(g, s.parent)
    &&& nodes_right(g, s)
    &&& arranges(
        filed_items(s.nodes, listed(s, root_key()), listed(s, root_key()).len()),
        s.roots,
    )
    &&& s.filtered_root_count == filtered_count(g, g.root)
    &&& recommended_right(s)
}

// ---------------------------------------------------------------------------
// Executable
// ---------------------------------------------------------------------------

/// The items that the keys stand for.
spec fn items_of(keys: Seq<BySize>) -> Seq<(u64, Seq<char>)> {
    Seq::new(keys.len(), |i: int| (keys[i].size, keys[i].path@))
}

/// The paths by size and path.
fn arrange(keys: Vec<BySize>) -> (r: Vec<String>)
    ensures
        arranges(items_of(keys@), strings_view(r@)),
{
    let p: Vec<usize> = sort_indices(&keys);
    let mut out: Vec<String> = Vec::new();
    let mut i: usize = 0;
    while i < p.len()
        invariant
            i <= p@.len(),
            sorts(keys@, p@),
            out@.len() == i,
            forall|j: int| 0 <= j < i ==> (#[trigger] out@[j])@ == keys@[p@[j] as int].path@,
        decreases p@.len() - i,
    {
        out.push(keys[p[i]].path.clone());
        i += 1;
    }
    proof {
        let items = items_of(keys@);
        let list = strings_view(out@);
        assert forall|a: int, b: int| 0 <= a < b < p@.len() implies may_precede(
            items[#[trigger] p@[a] as int],
            items[#[trigger] p@[b] as int],
        ) by {
            let (x, y) = (p@[a], p@[b]);
            assert(precedes(keys@, x, y));
            BySize::ranking(&keys@[x as int], &keys@[y as int], &keys@[x as int]);
        }
        assert forall|a: int| 0 <= a < p@.len() implies #[trigger] list[a] == items[p@[a] as int].1 by {
            assert(list[a] == out@[a]@);
        }
        assert(arranged_by(items, list, p@));
    }
    out
}

/// Counts the kids of `r` that are too small to be shown.
fn count_filtered(graph: &DirectoryGraph, r: FileRef) -> (n: u32)
    requires
        graph.wf(),
    ensures
        n == filtered_count(graph@, r),
{
    let ghost g = graph@;
    match graph.children.get(&r) {
        Some(kids) => {
            assert(kids_of(g.children, r) == kids@);
            let mut count: usize = 0;
            let mut i: usize = 0;
            while i < kids.len()
                invariant
                    graph.wf(),
                    g == graph@,
                    i <= kids@.len(),
                    count <= i,
                    count == filtered_kids(g, kids@, i as nat),
                decreases kids@.len() - i,
            {
                match graph.nodes.get(&kids[i]) {
                    Some(node) => {
                        assert(g.nodes[kids@[i as int]] == node@);
                        if !node.visible && !node.excluded {
                            count += 1;
                        }
                    },
                    None => {},
                }
                i += 1;
            }
            count32(count)
        },
        None => 0,
    }
}

/// The parts of the parent map that the loop over one list has dealt with.
spec fn parents_sound(g: GraphView, parent: Map<Seq<char>, Seq<char>>) -> bool {
    forall|k: Seq<char>| #[trigger]
        parent.contains_key(k) ==> exists|p: FileRef, c: FileRef|
            #[trigger] g.children.contains_key(p) && #[trigger] g.children[p].contains(c)
                && is_shown(g, c) && key_of(g, c) == k && parent_key(g, p) == Some(parent[k])
}

/// Files the shown kids of `p` under its key.
fn file_kids(
    graph: &DirectoryGraph,
    p: FileRef,
    kids: &Vec<FileRef>,
    key: &String,
    parent: &mut PathMap<String>,
) -> (list: Vec<String>)
    requires
        graph.wf(),
        old(parent).wf(),
        graph@.children.contains_key(p),
        graph@.children[p] == kids@,
        parent_key(graph@, p) == Some(key@),
        parents_sound(graph@, text_map_view(old(parent)@)),
    ensures
        final(parent).wf(),
        arranges(shown_kids(graph@, kids@, kids@.len()), strings_view(list@)),
        parents_sound(graph@, text_map_view(final(parent)@)),
        forall|k: Seq<char>| #[trigger]
            old(parent)@.contains_key(k) ==> final(parent)@.contains_key(k),
        forall|c: FileRef| #[trigger]
            kids@.contains(c) && is_shown(graph@, c) ==> final(parent)@.contains_key(
                key_of(graph@, c),
            ),
{
    let ghost g = graph@;
    let mut keys: Vec<BySize> = Vec::new();
    let mut i: usize = 0;
    assert(items_of(keys@) =~= Seq::<(u64, Seq<char>)>::empty());
    while i < kids.len()
        invariant
            graph.wf(),
            g == graph@,
            parent.wf(),
            i <= kids@.len(),
            g.children.contains_key(p),
            g.children[p] == kids@,
            parent_key(g, p) == Some(key@),
            items_of(keys@) == shown_kids(g, kids@, i as nat),
            parents_sound(g, text_map_view(parent@)),
            forall|k: Seq<char>| #[trigger]
                old(parent)@.contains_key(k) ==> parent@.contains_key(k),
            forall|j: int|
                0 <= j < i && is_shown(g, #[trigger] kids@[j]) ==> parent@.contains_key(
                    key_of(g, kids@[j]),
                ),
        decreases kids@.len() - i,
    {
        let kid: FileRef = kids[i];
        match graph.nodes.get(&kid) {
            Some(node) => {
                assert(g.nodes[kid] == node@);
                if node.visible {
                    let path: String = normalize(node.path.as_str());
                    let ghost items = items_of(keys@);
                    let ghost before = text_map_view(parent@);
                    keys.push(BySize { size: node.subtree_size_bytes, path: path.clone() });
                    assert(items_of(keys@) =~= items.push((node.subtree_size_bytes, path@)));
                    parent.insert(path, key.clone());
                    proof {
                        let now = text_map_view(parent@);
                        assert(g.children[p].contains(kid)) by {
                            assert(kids@[i as int] == kid);
                        }
                        assert forall|k: Seq<char>| #[trigger] now.contains_key(k) implies exists|
                            p2: FileRef,
                            c: FileRef,
                        |
                            #[trigger] g.children.contains_key(p2)
                                && #[trigger] g.children[p2].contains(c) && is_shown(g, c)
                                && key_of(g, c) == k && parent_key(g, p2) == Some(now[k]) by {
                            if k == path@ {
                                assert(g.children.contains_key(p) && g.children[p].contains(kid));
                            } else {
                                assert(before.contains_key(k) && before[k] == now[k]);
                            }
                        }
                    }
                }
            },
            None => {},
        }
        i += 1;
    }
    arrange(keys)
}

/// The directory as it is shown.
fn make_tree_node(node: &DirectoryNode, child_count: u32, filtered_child_count: u32) -> (r: TreeNode)
    ensures
        r@ == shown_node(node@, child_count, filtered_child_count),
{
    TreeNode {
        path: node.path.clone(),
        display_name: node.display_name.clone(),
        size_bytes: node.subtree_size_bytes,
        linked_target_size_bytes: node.linked_target_size_bytes,
        file_count: node.subtree_file_count,
        dir_count: node.subtree_dir_count,
        depth: node.depth,
        is_reparse: node.reparse_tag.is_some(),
        reparse_tag: node.reparse_tag,
        is_junction: node.is_junction,
        access_state: node.access_state,
        matched_preset: copy_opt(&node.matched_preset),
        category: node.category,
        auto_migrate: node.auto_migrate,
        scan_status: node.scan_status,
        migration_id: copy_opt(&node.migration_id),
        child_count,
        filtered_child_count,
    }
}

/// Files all lists of children, and the parents.
fn file_lists(graph: &DirectoryGraph) -> (r: (PathMap<Vec<String>>, PathMap<String>))
    requires
        graph.wf(),
    ensures
        r.0.wf(),
        r.1.wf(),
        children_right(graph@, list_map_view(r.0@)),
        parents_right(graph@, text_map_view(r.1@)),
{
    let ghost g = graph@;
    let root_text: String = normalize("c:\\");
    let mut children: PathMap<Vec<String>> = PathMap::new();
    let mut parent: PathMap<String> = PathMap::new();
    let total: usize = graph.children.len();
    let ghost order = graph.children.order();
    let mut i: usize = 0;
    while i < total
        invariant
            graph.wf(),
            g == graph@,
            order == graph.children.order(),
            total == order.len(),
            i <= total,
            root_text@ == root_key(),
            children.wf(),
            parent.wf(),
            forall|k: Seq<char>| #[trigger]
                list_map_view(children@).contains_key(k) ==> exists|p: FileRef|
                    #[trigger] g.children.contains_key(p) && parent_key(g, p) == Some(k)
                        && arranges(
                        shown_kids(g, g.children[p], g.children[p].len()),
                        list_map_view(children@)[k],
                    ),
            forall|j: int|
                0 <= j < i && parent_key(g, #[trigger] order[j]) is Some ==> children@.contains_key(
                    parent_key(g, order[j])->0,
                ),
            parents_sound(g, text_map_view(parent@)),
            forall|j: int, c: FileRef|
                0 <= j < i && parent_key(g, #[trigger] order[j]) is Some
                    && #[trigger] g.children[order[j]].contains(c) && is_shown(g, c)
                    ==> parent@.contains_key(key_of(g, c)),
        decreases total - i,
    {
        proof {
            graph.children.lemma_order();
            assert(graph.children@.contains_key(order[i as int]));
        }
        let p: FileRef = graph.children.key_at(i);
        let kids: &Vec<FileRef> = graph.children.value_at(i);
        assert(g.children.contains_key(p) && g.children[p] == kids@);
        let key: Option<String> = if p == graph.root {
            Some(root_text.clone())
        } else {
            match graph.nodes.get(&p) {
                Some(node) => {
                    assert(g.nodes[p] == node@);
                    if node.visible {
                        Some(normalize(node.path.as_str()))
                    } else {
                        None
                    }
                },
                None => None,
            }
        };
        assert(opt_view(key) == parent_key(g, p));
        match key {
            Some(k) => {
                let ghost lists = list_map_view(children@);
                let ghost known = parent@;
                let list: Vec<String> = file_kids(graph, p, kids, &k, &mut parent);
                let ghost text = k@;
                children.insert(k, list);
                proof {
                    let now = list_map_view(children@);
                    assert forall|x: Seq<char>| #[trigger] now.contains_key(x) implies exists|
                        q: FileRef,
                    |
                        #[trigger] g.children.contains_key(q) && parent_key(g, q) == Some(x)
                            && arranges(
                            shown_kids(g, g.children[q], g.children[q].len()),
                            now[x],
                        ) by {
                        if x == text {
                            assert(g.children.contains_key(p));
                        } else {
                            assert(lists.contains_key(x) && lists[x] == now[x]);
                        }
                    }
                    assert forall|j: int, c: FileRef|
                        0 <= j < i + 1 && parent_key(g, #[trigger] order[j]) is Some
                            && #[trigger] g.children[order[j]].contains(c) && is_shown(
                            g,
                            c,
                        ) implies parent@.contains_key(key_of(g, c)) by {
                        if j < i {
                            assert(known.contains_key(key_of(g, c)));
                        }
                    }
                }
            },
            None => {},
        }
        i += 1;
    }
    proof {
        graph.children.lemma_order();
        assert forall|p: FileRef| #[trigger]
            g.children.contains_key(p) && parent_key(g, p) is Some implies list_map_view(
            children@,
        ).contains_key(parent_key(g, p)->0) by {
            assert(graph.children@.contains_key(p));
            let j = choose|j: int| 0 <= j < order.len() && #[trigger] order[j] == p;
            assert(parent_key(g, order[j]) is Some);
        }
        assert forall|p: FileRef, c: FileRef|
            #[trigger] g.children.contains_key(p) && parent_key(g, p) is Some
                && #[trigger] g.children[p].contains(c) && is_shown(g, c) implies text_map_view(
            parent@,
        ).contains_key(key_of(g, c)) by {
            assert(graph.children@.contains_key(p));
            let j = choose|j: int| 0 <= j < order.len() && #[trigger] order[j] == p;
            assert(g.children[order[j]].contains(c));
        }
    }
    (children, parent)
}

/// Files the nodes of all shown directories.
fn file_nodes(graph: &DirectoryGraph, children: &PathMap<Vec<String>>) -> (nodes: PathMap<TreeNode>)
    requires
        graph.wf(),
        children.wf(),
    ensures
        nodes.wf(),
        forall|k: Seq<char>| #[trigger]
            nodes@.contains_key(k) ==> exists|r: FileRef|
                #[trigger] is_shown(graph@, r) && key_of(graph@, r) == k && nodes@[k]@
                    == shown_node(
                    graph@.nodes[r],
                    low32(
                        if children@.contains_key(k) {
                            children@[k]@.len()
                        } else {
                            0
                        },
                    ),
                    filtered_count(graph@, r),
                ),
        forall|r: FileRef| #[trigger]
            is_shown(graph@, r) ==> nodes@.contains_key(key_of(graph@, r)),
{
    let ghost g = graph@;
    let mut nodes: PathMap<TreeNode> = PathMap::new();
    let total: usize = graph.nodes.len();
    let ghost order = graph.nodes.order();
    let mut i: usize = 0;
    while i < total
        invariant
            graph.wf(),
            children.wf(),
            g == graph@,
            order == graph.nodes.order(),
            total == order.len(),
            i <= total,
            nodes.wf(),
            forall|k: Seq<char>| #[trigger]
                nodes@.contains_key(k) ==> exists|r: FileRef|
                    #[trigger] is_shown(g, r) && key_of(g, r) == k && nodes@[k]@ == shown_node(
                        g.nodes[r],
                        low32(
                            if children@.contains_key(k) {
                                children@[k]@.len()
                            } else {
                                0
                            },
                        ),
                        filtered_count(g, r),
                    ),
            forall|j: int|
                0 <= j < i && is_shown(g, #[trigger] order[j]) ==> nodes@.contains_key(
                    key_of(g, order[j]),
                ),
        decreases total - i,
    {
        proof {
            graph.nodes.lemma_order();
            assert(graph.nodes@.contains_key(order[i as int]));
        }
        let r: FileRef = graph.nodes.key_at(i);
        let node: &DirectoryNode = graph.nodes.value_at(i);
        assert(g.nodes.contains_key(r) && g.nodes[r] == node@);
        if node.visible {
            let key: String = normalize(node.path.as_str());
            let child_count: u32 = match children.get(key.as_str()) {
                Some(list) => count32(list.len()),
                None => 0,
            };
            let filtered: u32 = count_filtered(graph, r);
            let shown = make_tree_node(node, child_count, filtered);
            let ghost text = key@;
            let ghost before = nodes@;
            nodes.insert(key, shown);
            proof {
                assert forall|k: Seq<char>| #[trigger] nodes@.contains_key(k) implies exists|
                    q: FileRef,
                |
                    #[trigger] is_shown(g, q) && key_of(g, q) == k && nodes@[k]@ == shown_node(
                        g.nodes[q],
                        low32(
                            if children@.contains_key(k) {
                                children@[k]@.len()
                            } else {
                                0
                            },
                        ),
                        filtered_count(g, q),
                    ) by {
                    if k == text {
                        assert(is_shown(g, r));
                    } else {
                        assert(before.contains_key(k));
                    }
                }
            }
        }
        i += 1;
    }
    proof {
        graph.nodes.lemma_order();
        assert forall|r: FileRef| #[trigger] is_shown(g, r) implies nodes@.contains_key(
            key_of(g, r),
        ) by {
            assert(graph.nodes@.contains_key(r));
            let j = choose|j: int| 0 <= j < order.len() && #[trigger] order[j] == r;
            assert(is_shown(g, order[j]));
        }
    }
    nodes
}

/// The directories below the root, by size and path.
fn list_roots(nodes: &PathMap<TreeNode>, keys: &Vec<String>) -> (r: Vec<String>)
    requires
        nodes.wf(),
    ensures
        arranges(
            filed_items(tree_map_view(nodes@), strings_view(keys@), keys@.len()),
            strings_view(r@),
        ),
{
    let ghost views = tree_map_view(nodes@);
    let ghost texts = strings_view(keys@);
    let mut items: Vec<BySize> = Vec::new();
    let mut i: usize = 0;
    assert(items_of(items@) =~= Seq::<(u64, Seq<char>)>::empty());
    while i < keys.len()
        invariant
            nodes.wf(),
            views == tree_map_view(nodes@),
            texts == strings_view(keys@),
            i <= keys@.len(),
            items_of(items@) == filed_items(views, texts, i as nat),
        decreases keys@.len() - i,
    {
        assert(texts[i as int] == keys@[i as int]@);
        match nodes.get(keys[i].as_str()) {
            Some(node) => {
                let ghost before = items_of(items@);
                items.push(BySize { size: node.size_bytes, path: keys[i].clone() });
                assert(items_of(items@) =~= before.push((node.size_bytes, texts[i as int])));
            },
            None => {},
        }
        i += 1;
    }
    arrange(items)
}

/// The recommended directories, by size and path.
fn list_recommended(nodes: &PathMap<TreeNode>) -> (r: Vec<String>)
    requires
        nodes.wf(),
    ensures
        strings_view(r@).no_duplicates(),
        forall|k: Seq<char>| #[trigger]
            strings_view(r@).contains(k) <==> nodes@.contains_key(k) && is_recommended(nodes@[k]@),
        forall|a: int, b: int|
            0 <= a < b < strings_view(r@).len() ==> may_precede(
                (nodes@[#[trigger] strings_view(r@)[a]].size_bytes, strings_view(r@)[a]),
                (nodes@[#[trigger] strings_view(r@)[b]].size_bytes, strings_view(r@)[b]),
            ),
{
    let ghost order = nodes.order();
    let mut items: Vec<BySize> = Vec::new();
    let ghost mut src: Seq<int> = Seq::empty();
    let total: usize = nodes.len();
    let mut i: usize = 0;
    while i < total
        invariant
            nodes.wf(),
            order == nodes.order(),
            total == order.len(),
            i <= total,
            src.len() == items@.len(),
            forall|j: int|
                #![trigger items@[j]]
                #![trigger src[j]]
                0 <= j < items@.len() ==> 0 <= src[j] < i && items@[j].path@ == order[src[j]]
                    && nodes@.contains_key(items@[j].path@) && items@[j].size
                    == nodes@[items@[j].path@].size_bytes && is_recommended(
                    nodes@[items@[j].path@]@,
                ),
            forall|a: int, b: int| 0 <= a < b < src.len() ==> #[trigger] src[a] < #[trigger] src[b],
            forall|x: int|
                0 <= x < i && is_recommended(nodes@[#[trigger] order[x]]@) ==> src.contains(x),
        decreases total - i,
    {
        proof {
            nodes.lemma_order();
            assert(nodes@.contains_key(order[i as int]));
        }
        let node: &TreeNode = nodes.value_at(i);
        let ghost before = src;
        if node.matched_preset.is_some() && node.scan_status.is_none() && !node.is_reparse
            && node.access_state != AccessState::Inaccessible {
            items.push(BySize { size: node.size_bytes, path: nodes.key_at(i).clone() });
            proof {
                src = src.push(i as int);
                assert forall|x: int|
                    0 <= x < i + 1 && is_recommended(nodes@[#[trigger] order[x]]@) implies src.contains(
                    x,
                ) by {
                    if x < i {
                        assert(before.contains(x));
                        let q = choose|q: int| 0 <= q < before.len() && before[q] == x;
                        assert(src[q] == x);
                    } else {
                        assert(src[before.len() as int] == x);
                    }
                }
            }
        }
        i += 1;
    }
    let ghost all = items_of(items@);
    let ghost given = items@;
    let out: Vec<String> = arrange(items);
    proof {
        nodes.lemma_order();
        let list = strings_view(out@);
        let p = choose|p: Seq<usize>| #[trigger] arranged_by(all, list, p);
        assert(arranged_by(all, list, p));
        assert forall|a: int| 0 <= a < list.len() implies list[a] == given[p[a] as int].path@ by {
            assert(all[p[a] as int] == (given[p[a] as int].size, given[p[a] as int].path@));
        }
        assert forall|a: int, b: int|
            0 <= a < list.len() && 0 <= b < list.len() && a != b implies list[a] != list[b] by {
            let (x, y) = (p[a] as int, p[b] as int);
            assert(x != y);
            assert(given[x].path@ == order[src[x]] && given[y].path@ == order[src[y]]);
            assert(src[x] != src[y]);
            assert(order[src[x]] != order[src[y]]);
        }
        assert forall|k: Seq<char>| #[trigger] list.contains(k) <==> nodes@.contains_key(k)
            && is_recommended(nodes@[k]@) by {
            if list.contains(k) {
                let a = choose|a: int| 0 <= a < list.len() && list[a] == k;
                assert(given[p[a] as int].path@ == k);
            }
            if nodes@.contains_key(k) && is_recommended(nodes@[k]@) {
                let x = choose|x: int| 0 <= x < order.len() && #[trigger] order[x] == k;
                assert(is_recommended(nodes@[order[x]]@));
                assert(src.contains(x));
                let q = choose|q: int| 0 <= q < src.len() && src[q] == x;
                assert(given[q].path@ == k);
                crate::keys::lemma_places_covered(all.len(), p, q);
                let c = choose|c: int| 0 <= c < p.len() && p[c] == q;
                assert(list[c] == k);
            }
        }
        assert forall|a: int, b: int| 0 <= a < b < list.len() implies may_precede(
            (nodes@[#[trigger] list[a]].size_bytes, list[a]),
            (nodes@[#[trigger] list[b]].size_bytes, list[b]),
        ) by {
            let (x, y) = (p[a], p[b]);
            assert(may_precede(all[x as int], all[y as int]));
            assert(given[x as int].path@ == list[a] && given[y as int].path@ == list[b]);
        }
    }
    out
}

/// Makes the tree of the directories that the graph shows.
pub fn materialize(
    graph: &DirectoryGraph,
    root_file_summary: RootFileSummary,
    source: ScanSource,
    scan_id: String,
) -> (store: TreeStore)
    requires
        graph.wf(),
    ensures
        store.wf(),
        store@.scan_id == scan_id@,
        store@.source == source,
        store@.root_file_summary == root_file_summary,
        shows(graph@, store@),
{
    let (children, parent) = file_lists(graph);
    let nodes = file_nodes(graph, &children);
    let root_text: String = normalize("c:\\");
    assert(root_text@ == root_key());
    let roots: Vec<String> = match children.get(root_text.as_str()) {
        Some(list) => list_roots(&nodes, list),
        None => {
            let empty: Vec<String> = Vec::new();
            assert(strings_view(empty@) =~= Seq::<Seq<char>>::empty());
            list_roots(&nodes, &empty)
        },
    };
    let filtered_root_count: u32 = count_filtered(graph, graph.root);
    let recommended: Vec<String> = list_recommended(&nodes);
    let store = TreeStore::from_parts(
        scan_id,
        source,
        root_file_summary,
        nodes,
        children,
        parent,
        roots,
        filtered_root_count,
        recommended,
    );
    proof {
        let s = store@;
        assert forall|k: Seq<char>| #[trigger] s.nodes.contains_key(k) implies exists|r: FileRef|
            #[trigger] is_shown(graph@, r) && key_of(graph@, r) == k && s.nodes[k] == shown_node(
                graph@.nodes[r],
                low32(listed(s, k).len()),
                filtered_count(graph@, r),
            ) by {
            assert(nodes@.contains_key(k));
            let r = choose|r: FileRef|
                #[trigger] is_shown(graph@, r) && key_of(graph@, r) == k && nodes@[k]@
                    == shown_node(
                    graph@.nodes[r],
                    low32(
                        if children@.contains_key(k) {
                            children@[k]@.len()
                        } else {
                            0
                        },
                    ),
                    filtered_count(graph@, r),
                );
            assert(is_shown(graph@, r));
            assert(listed(s, k).len() == if children@.contains_key(k) {
                children@[k]@.len()
            } else {
                0
            });
        }
        assert(recommended_right(s)) by {
            assert forall|k: Seq<char>| #[trigger] s.recommended.contains(k) <==> s.nodes.contains_key(
                k,
            ) && is_recommended(s.nodes[k]) by {
                assert(nodes@.contains_key(k) == s.nodes.contains_key(k));
            }
            assert forall|a: int, b: int| 0 <= a < b < s.recommended.len() implies may_precede(
                (s.nodes[#[trigger] s.recommended[a]].size_bytes, s.recommended[a]),
                (s.nodes[#[trigger] s.recommended[b]].size_bytes, s.recommended[b]),
            ) by {
                assert(s.recommended.contains(s.recommended[a]));
                assert(s.recommended.contains(s.recommended[b]));
            }
        }
    }
    store
}

// ---------------------------------------------------------------------------
// Laws
// ---------------------------------------------------------------------------

/// No two directories are filed under the same key.
pub open spec fn keys_apart(g: GraphView) -> bool {
    &&& forall|p: FileRef, q: FileRef|
        #![trigger parent_key(g, p), parent_key(g, q)]
        parent_key(g, p) is Some && parent_key(g, p) == parent_key(g, q) ==> p == q
    &&& forall|p: FileRef, q: FileRef| #[trigger]
        is_shown(g, p) && #[trigger] is_shown(g, q) && key_of(g, p) == key_of(g, q) ==> p == q
}

proof fn lemma_shown_kids_contain(g: GraphView, kids: Seq<FileRef>, n: nat, i: int)
    requires
        0 <= i < n <= kids.len(),
        is_shown(g, kids[i]),
    ensures
        exists|j: int|
            0 <= j < shown_kids(g, kids, n).len() && (#[trigger] shown_kids(g, kids, n)[j]).1
                == key_of(g, kids[i]),
    decreases n,
{
    let before = shown_kids(g, kids, (n - 1) as nat);
    let now = shown_kids(g, kids, n);
    if i == n - 1 {
        assert(now[before.len() as int].1 == key_of(g, kids[i]));
    } else {
        lemma_shown_kids_contain(g, kids, (n - 1) as nat, i);
        let j = choose|j: int|
            0 <= j < before.len() && (#[trigger] before[j]).1 == key_of(g, kids[i]);
        assert(now[j] == before[j]);
    }
}

/// Every directory that is shown is listed among the children of its parent,
/// and knows a parent that lists it.
pub proof fn law_shown_kids_are_listed(g: GraphView, s: TreeStoreView, p: FileRef, c: FileRef)
    requires
        shows(g, s),
        keys_apart(g),
        g.children.contains_key(p),
        parent_key(g, p) is Some,
        g.children[p].contains(c),
        is_shown(g, c),
    ensures
        listed(s, parent_key(g, p)->0).contains(key_of(g, c)),
        s.nodes.contains_key(key_of(g, c)),
        s.parent.contains_key(key_of(g, c)),
{
    let k = parent_key(g, p)->0;
    let kids = g.children[p];
    assert(s.children.contains_key(k));
    let q = choose|q: FileRef|
        #[trigger] g.children.contains_key(q) && parent_key(g, q) == Some(k) && arranges(
            shown_kids(g, g.children[q], g.children[q].len()),
            s.children[k],
        );
    assert(parent_key(g, q) == parent_key(g, p));
    assert(q == p);
    let items = shown_kids(g, kids, kids.len());
    let i = choose|i: int| 0 <= i < kids.len() && kids[i] == c;
    lemma_shown_kids_contain(g, kids, kids.len(), i);
    let j = choose|j: int| 0 <= j < items.len() && (#[trigger] items[j]).1 == key_of(g, c);
    let order = choose|order: Seq<usize>| #[trigger] arranged_by(items, s.children[k], order);
    lemma_places_covered(order.len(), order, j);
    let a = choose|a: int| 0 <= a < order.len() && #[trigger] order[a] == j;
    assert(s.children[k][a] == key_of(g, c));
}

/// Children are listed by size, the largest first.
pub proof fn law_children_are_listed_by_size(
    g: GraphView,
    s: TreeStoreView,
    p: FileRef,
    a: int,
    b: int,
)
    requires
        shows(g, s),
        keys_apart(g),
        g.children.contains_key(p),
        parent_key(g, p) is Some,
        0 <= a < b < listed(s, parent_key(g, p)->0).len(),
    ensures
        ({
            let list = listed(s, parent_key(g, p)->0);
            s.nodes.contains_key(list[a]) && s.nodes.contains_key(list[b])
                && s.nodes[list[a]].size_bytes >= s.nodes[list[b]].size_bytes
        }),
{
    let k = parent_key(g, p)->0;
    let kids = g.children[p];
    let list = listed(s, k);
    let q = choose|q: FileRef|
        #[trigger] g.children.contains_key(q) && parent_key(g, q) == Some(k) && arranges(
            shown_kids(g, g.children[q], g.children[q].len()),
            s.children[k],
        );
    assert(parent_key(g, q) == parent_key(g, p));
    let items = shown_kids(g, kids, kids.len());
    let order = choose|order: Seq<usize>| #[trigger] arranged_by(items, list, order);
    lemma_shown_kid_item(g, kids, kids.len(), order[a] as int, s);
    lemma_shown_kid_item(g, kids, kids.len(), order[b] as int, s);
    assert(may_precede(items[order[a] as int], items[order[b] as int]));
}

/// The size of a shown kid is the one that its node shows.
proof fn lemma_shown_kid_item(
    g: GraphView,
    kids: Seq<FileRef>,
    n: nat,
    j: int,
    s: TreeStoreView,
)
    requires
        n <= kids.len(),
        0 <= j < shown_kids(g, kids, n).len(),
        nodes_right(g, s),
        keys_apart(g),
    ensures
        s.nodes.contains_key(shown_kids(g, kids, n)[j].1),
        s.nodes[shown_kids(g, kids, n)[j].1].size_bytes == shown_kids(g, kids, n)[j].0,
    decreases n,
{
    let before = shown_kids(g, kids, (n - 1) as nat);
    if j < before.len() {
        lemma_shown_kid_item(g, kids, (n - 1) as nat, j, s);
    } else {
        let c = kids[n - 1];
        assert(is_shown(g, c));
        let k = key_of(g, c);
        let r = choose|r: FileRef|
            #[trigger] is_shown(g, r) && key_of(g, r) == k && s.nodes[k] == shown_node(
                g.nodes[r],
                low32(listed(s, k).len()),
                filtered_count(g, r),
            );
        assert(r == c);
    }
}

} // verus!
