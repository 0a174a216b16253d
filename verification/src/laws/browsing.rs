//! Browsing the tree of a scanned drive: what a node tells, which directories are
//! listed, and what a page holds.

use crate::explore::total;
use crate::mft::FileRef;
use crate::models::{AccessState, TreeNodeView};
use crate::paths::normalized;
use crate::scanner::graph::{kids_of, GraphView};
use crate::scanner::materialize::{
    arranged_by, arranges, filtered_count, filtered_kids, is_shown, key_of, keys_apart,
    law_children_are_listed_by_size, law_shown_kids_are_listed, parent_key, shown_kids, shown_node,
    shows,
};
use crate::scanner::tree::{
    children_page_of, filed_nodes, listed, root_display, TreeStoreView,
};
use crate::scanner::tree_model::low32;
use vstd::prelude::*;
use vstd::string::*;

verus! {

/// The node of a directory that is shown tells what the directory is.
pub proof fn law_node_tells_its_directory(g: GraphView, s: TreeStoreView, r: FileRef)
    requires
        shows(g, s),
        keys_apart(g),
        is_shown(g, r),
    ensures
        s.nodes.contains_key(normalized(g.nodes[r].path)),
        ({
            let node = s.nodes[normalized(g.nodes[r].path)];
            let dir = g.nodes[r];
            &&& node.path == dir.path
            &&& node.display_name == dir.display_name
            &&& node.depth == dir.depth
            &&& node.size_bytes == dir.subtree_size_bytes
            &&& node.file_count == dir.subtree_file_count
            &&& node.dir_count == dir.subtree_dir_count
            &&& node.linked_target_size_bytes == dir.linked_target_size_bytes
            &&& node.is_reparse == (dir.reparse_tag is Some)
            &&& node.reparse_tag == dir.reparse_tag
            &&& node.is_junction == dir.is_junction
            &&& node.access_state == dir.access_state
            &&& node.matched_preset == dir.matched_preset
            &&& node.category == dir.category
            &&& node.auto_migrate == dir.auto_migrate
            &&& node.scan_status == dir.scan_status
            &&& node.migration_id == dir.migration_id
        }),
{
    let _ = lemma_own_node(g, s, r);
}

proof fn lemma_own_node(g: GraphView, s: TreeStoreView, r: FileRef) -> (k: Seq<char>)
    requires
        shows(g, s),
        keys_apart(g),
        is_shown(g, r),
    ensures
        k == normalized(g.nodes[r].path),
        s.nodes.contains_key(k),
        s.nodes[k] == shown_node(
            g.nodes[r],
            low32(listed(s, k).len()),
            filtered_count(g, r),
        ),
{
    let k = key_of(g, r);
    assert(s.nodes.contains_key(k));
    let x = choose|x: FileRef| #[trigger]
        is_shown(g, x) && key_of(g, x) == k && s.nodes[k] == shown_node(
            g.nodes[x],
            low32(listed(s, k).len()),
            filtered_count(g, x),
        );
    assert(x == r);
    k
}

/// Only directories that are visible are shown, and all of them.
pub proof fn law_shown_is_visible(g: GraphView, s: TreeStoreView, k: Seq<char>)
    requires
        shows(g, s),
    ensures
        s.nodes.contains_key(k) <==> exists|r: FileRef|
            #[trigger] g.nodes.contains_key(r) && g.nodes[r].visible && normalized(
                g.nodes[r].path,
            ) == k,
{
    if s.nodes.contains_key(k) {
        let r = choose|r: FileRef| #[trigger]
            is_shown(g, r) && key_of(g, r) == k && s.nodes[k] == shown_node(
                g.nodes[r],
                low32(listed(s, k).len()),
                filtered_count(g, r),
            );
        assert(g.nodes.contains_key(r) && g.nodes[r].visible);
    }
    if exists|r: FileRef|
        #[trigger] g.nodes.contains_key(r) && g.nodes[r].visible && normalized(g.nodes[r].path)
            == k {
        let r = choose|r: FileRef|
            #[trigger] g.nodes.contains_key(r) && g.nodes[r].visible && normalized(
                g.nodes[r].path,
            ) == k;
        assert(is_shown(g, r));
    }
}

// ---------------------------------------------------------------------------
// Children
// ---------------------------------------------------------------------------

proof fn lemma_item_kid(g: GraphView, kids: Seq<FileRef>, n: nat, j: int)
    requires
        n <= kids.len(),
        0 <= j < shown_kids(g, kids, n).len(),
    ensures
        exists|i: int|
            0 <= i < n && is_shown(g, #[trigger] kids[i]) && shown_kids(g, kids, n)[j] == (
                g.nodes[kids[i]].subtree_size_bytes,
                key_of(g, kids[i]),
            ),
    decreases n,
{
    if n > 0 {
        let m = (n - 1) as nat;
        let before = shown_kids(g, kids, m);
        if j < before.len() {
            lemma_item_kid(g, kids, m, j);
            let i = choose|i: int|
                0 <= i < m && is_shown(g, #[trigger] kids[i]) && before[j] == (
                    g.nodes[kids[i]].subtree_size_bytes,
                    key_of(g, kids[i]),
                );
            assert(0 <= i < n && is_shown(g, kids[i]));
        } else {
            assert(is_shown(g, kids[m as int]));
        }
    }
}

/// The list of a directory's children.
proof fn lemma_list(g: GraphView, s: TreeStoreView, p: FileRef) -> (order: Seq<usize>)
    requires
        shows(g, s),
        keys_apart(g),
        g.children.contains_key(p),
        parent_key(g, p) is Some,
    ensures
        s.children.contains_key(parent_key(g, p)->0),
        arranged_by(
            shown_kids(g, g.children[p], g.children[p].len()),
            listed(s, parent_key(g, p)->0),
            order,
        ),
{
    let k = parent_key(g, p)->0;
    assert(s.children.contains_key(k));
    let q = choose|q: FileRef|
        #[trigger] g.children.contains_key(q) && parent_key(g, q) == Some(k) && arranges(
            shown_kids(g, g.children[q], g.children[q].len()),
            s.children[k],
        );
    assert(parent_key(g, q) == parent_key(g, p));
    choose|order: Seq<usize>| #[trigger]
        arranged_by(
            shown_kids(g, g.children[p], g.children[p].len()),
            s.children[k],
            order,
        )
}

/// `p` is the root directory or is shown, and `path` is a path of it.
pub open spec fn is_path_of(g: GraphView, p: FileRef, path: Seq<char>) -> bool {
    if p == g.root {
        normalized(path) == normalized(root_display())
    } else {
        is_shown(g, p) && normalized(path) == normalized(g.nodes[p].path)
    }
}

/// Below a directory those of its children are listed that are shown, and nothing
/// else, the largest first.
pub proof fn law_listed_are_the_shown_children(
    g: GraphView,
    s: TreeStoreView,
    p: FileRef,
    path: Seq<char>,
    k: Seq<char>,
    a: int,
    b: int,
)
    requires
        shows(g, s),
        keys_apart(g),
        is_path_of(g, p, path),
    ensures
        ({
            let list = listed(s, normalized(path));
            &&& list.contains(k) <==> exists|c: FileRef|
                #[trigger] kids_of(g.children, p).contains(c) && is_shown(g, c) && normalized(
                    g.nodes[c].path,
                ) == k
            &&& list.contains(k) ==> s.nodes.contains_key(k)
            &&& 0 <= a < b < list.len() ==> s.nodes[list[a]].size_bytes
                >= s.nodes[list[b]].size_bytes
        }),
{
    let key = normalized(path);
    assert(parent_key(g, p) == Some(key));
    let list = listed(s, key);
    if g.children.contains_key(p) {
        let kids = g.children[p];
        let items = shown_kids(g, kids, kids.len());
        let order = lemma_list(g, s, p);
        if list.contains(k) {
            let i = choose|i: int| 0 <= i < list.len() && list[i] == k;
            assert(list[i] == items[order[i] as int].1);
            lemma_item_kid(g, kids, kids.len(), order[i] as int);
            let j = choose|j: int|
                0 <= j < kids.len() && is_shown(g, #[trigger] kids[j]) && items[order[i] as int]
                    == (g.nodes[kids[j]].subtree_size_bytes, key_of(g, kids[j]));
            assert(kids_of(g.children, p).contains(kids[j]));
            assert(s.nodes.contains_key(key_of(g, kids[j])));
        }
        if exists|c: FileRef|
            #[trigger] kids_of(g.children, p).contains(c) && is_shown(g, c) && normalized(
                g.nodes[c].path,
            ) == k {
            let c = choose|c: FileRef|
                #[trigger] kids_of(g.children, p).contains(c) && is_shown(g, c) && normalized(
                    g.nodes[c].path,
                ) == k;
            law_shown_kids_are_listed(g, s, p, c);
        }
        if 0 <= a < b < list.len() {
            law_children_are_listed_by_size(g, s, p, a, b);
        }
    } else if s.children.contains_key(key) {
        let q = choose|q: FileRef|
            #[trigger] g.children.contains_key(q) && parent_key(g, q) == Some(key) && arranges(
                shown_kids(g, g.children[q], g.children[q].len()),
                s.children[key],
            );
        assert(parent_key(g, q) == parent_key(g, p));
    }
}

/// A node tells how many of its children are shown and how many are too small to be.
pub proof fn law_node_counts_its_children(g: GraphView, s: TreeStoreView, r: FileRef)
    requires
        shows(g, s),
        keys_apart(g),
        is_shown(g, r),
        kids_of(g.children, r).len() <= u32::MAX,
        r != g.root,
    ensures
        ({
            let node = s.nodes[normalized(g.nodes[r].path)];
            let kids = kids_of(g.children, r);
            &&& node.child_count == total(
                kids,
                |c: FileRef|
                    if g.nodes.contains_key(c) && g.nodes[c].visible {
                        1nat
                    } else {
                        0nat
                    },
            )
            &&& node.filtered_child_count == total(
                kids,
                |c: FileRef|
                    if g.nodes.contains_key(c) && !g.nodes[c].visible && !g.nodes[c].excluded {
                        1nat
                    } else {
                        0nat
                    },
            )
        }),
{
    let k = lemma_own_node(g, s, r);
    let kids = kids_of(g.children, r);
    lemma_counts(g, kids, kids.len());
    assert(kids.take(kids.len() as int) =~= kids);
    assert(parent_key(g, r) == Some(k));
    if g.children.contains_key(r) {
        let order = lemma_list(g, s, r);
    } else if s.children.contains_key(k) {
        let q = choose|q: FileRef|
            #[trigger] g.children.contains_key(q) && parent_key(g, q) == Some(k) && arranges(
                shown_kids(g, g.children[q], g.children[q].len()),
                s.children[k],
            );
        assert(parent_key(g, q) == parent_key(g, r));
    }
}

proof fn lemma_counts(g: GraphView, kids: Seq<FileRef>, n: nat)
    requires
        n <= kids.len(),
    ensures
        shown_kids(g, kids, n).len() == total(
            kids.take(n as int),
            |c: FileRef|
                if g.nodes.contains_key(c) && g.nodes[c].visible {
                    1nat
                } else {
                    0nat
                },
        ),
        filtered_kids(g, kids, n) == total(
            kids.take(n as int),
            |c: FileRef|
                if g.nodes.contains_key(c) && !g.nodes[c].visible && !g.nodes[c].excluded {
                    1nat
                } else {
                    0nat
                },
        ),
        shown_kids(g, kids, n).len() <= n,
        filtered_kids(g, kids, n) <= n,
    decreases n,
{
    if n > 0 {
        lemma_counts(g, kids, (n - 1) as nat);
        let now = kids.take(n as int);
        assert(now.drop_last() =~= kids.take(n - 1));
        assert(now.last() == kids[n - 1]);
    }
}

// ---------------------------------------------------------------------------
// Pages
// ---------------------------------------------------------------------------

proof fn lemma_filed(nodes: Map<Seq<char>, TreeNodeView>, keys: Seq<Seq<char>>, n: nat)
    requires
        n <= keys.len(),
        forall|i: int| 0 <= i < n ==> nodes.contains_key(#[trigger] keys[i]),
    ensures
        filed_nodes(nodes, keys, n) == Seq::new(n, |i: int| nodes[keys[i]]),
    decreases n,
{
    if n > 0 {
        lemma_filed(nodes, keys, (n - 1) as nat);
        assert(filed_nodes(nodes, keys, n) =~= Seq::new(n, |i: int| nodes[keys[i]]));
    } else {
        assert(filed_nodes(nodes, keys, n) =~= Seq::new(n, |i: int| nodes[keys[i]]));
    }
}

/// A page holds as many children as were asked for, at least one and at most five
/// hundred, from the offset on, as far as there are any; it tells how many there are
/// in all, and where the next page starts.
pub proof fn law_page_holds_what_was_asked_for(
    g: GraphView,
    s: TreeStoreView,
    p: FileRef,
    path: Seq<char>,
    offset: u32,
    limit: u32,
    i: int,
)
    requires
        shows(g, s),
        keys_apart(g),
        is_path_of(g, p, path),
        listed(s, normalized(path)).len() <= u32::MAX,
    ensures
        ({
            let all = listed(s, normalized(path));
            let page = children_page_of(s, path, offset, limit);
            let size = if limit == 0 {
                1
            } else if limit > 500 {
                500
            } else {
                limit as int
            };
            let left = all.len() - offset;
            &&& page.total == all.len()
            &&& page.items.len() == if left <= 0 {
                0
            } else if left < size {
                left
            } else {
                size
            }
            &&& 0 <= i < page.items.len() ==> page.items[i] == s.nodes[all[offset + i]]
            &&& page.next_offset == if left > size {
                Some((offset + size) as u32)
            } else {
                None
            }
        }),
{
    let all = listed(s, normalized(path));
    assert forall|j: int| 0 <= j < all.len() implies s.nodes.contains_key(#[trigger] all[j]) by {
        assert(all.contains(all[j]));
        law_listed_are_the_shown_children(g, s, p, path, all[j], 0, 0);
    }
    if offset < all.len() {
        let size = if limit == 0 {
            1
        } else if limit > 500 {
            500
        } else {
            limit as int
        };
        let end = if offset + size < all.len() {
            offset + size
        } else {
            all.len() as int
        };
        let here = all.subrange(offset as int, end);
        assert forall|j: int| 0 <= j < here.len() implies s.nodes.contains_key(
            #[trigger] here[j],
        ) by {
            assert(here[j] == all[offset + j]);
        }
        lemma_filed(s.nodes, here, (end - offset) as nat);
    }
}

// ---------------------------------------------------------------------------
// Recommended directories
// ---------------------------------------------------------------------------

/// A directory is recommended exactly where a preset covers it, nothing was done to
/// it yet, and it is an ordinary directory that can be read; each once, the largest
/// first.
pub proof fn law_recommended_are_the_candidates(
    g: GraphView,
    s: TreeStoreView,
    k: Seq<char>,
    a: int,
    b: int,
)
    requires
        shows(g, s),
    ensures
        s.recommended.contains(k) <==> s.nodes.contains_key(k) && s.nodes[k].matched_preset is Some
            && s.nodes[k].scan_status is None && !s.nodes[k].is_reparse && s.nodes[k].access_state
            != AccessState::Inaccessible,
        s.recommended.no_duplicates(),
        0 <= a < b < s.recommended.len() ==> s.nodes[s.recommended[a]].size_bytes
            >= s.nodes[s.recommended[b]].size_bytes,
{
    if 0 <= a < b < s.recommended.len() {
        let (x, y) = (s.recommended[a], s.recommended[b]);
        assert(crate::scanner::materialize::may_precede(
            (s.nodes[x].size_bytes, x),
            (s.nodes[y].size_bytes, y),
        ));
    }
}

} // verus!
