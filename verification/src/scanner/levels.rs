//! What the way down to a directory looks like in the tree of a scanned drive.

use super::graph::{kids_of, GraphView};
use super::materialize::{
    filtered_count, is_shown, key_of, keys_apart, law_shown_kids_are_listed, parent_key, root_key,
    shown_node, shows,
};
use super::order::is_tree;
use super::tree::{
    children_page_of, climb, ends_after, is_revealed, law_revealed_page_shows_the_way, level_at,
    levels_of, levels_view, listed, page_size, place_of, root_display, way_down, TreeStoreView,
};
use super::tree_model::low32;
use super::walk::{descends, reachable};
use crate::error::AppError;
use crate::mft::FileRef;
use crate::models::{RevealLevel, RevealLevelView};
use crate::paths::normalized;
use vstd::prelude::*;

verus! {

/// `line` leads from the root down to its last directory, one edge at a time.
pub open spec fn is_line(children: Map<FileRef, Seq<FileRef>>, root: FileRef, line: Seq<FileRef>) -> bool {
    &&& line.len() > 0
    &&& line[0] == root
    &&& forall|i: int|
        0 < i < line.len() ==> kids_of(children, line[i - 1]).contains(#[trigger] line[i])
}

/// The parent of a directory that is shown is shown too, or the root.
pub open spec fn is_linked(g: GraphView) -> bool {
    forall|p: FileRef, c: FileRef|
        #[trigger] kids_of(g.children, p).contains(c) && is_shown(g, c) ==> p == g.root || is_shown(
            g,
            p,
        )
}

/// `s` is the tree of the drive `g`, whose directories form a tree and can be
/// told apart by their keys.
pub open spec fn is_tree_of(g: GraphView, s: TreeStoreView) -> bool {
    &&& shows(g, s)
    &&& keys_apart(g)
    &&& is_tree(g.children, g.root)
    &&& is_linked(g)
}

/// The keys of the directories of the line below the root.
pub open spec fn keys_of(g: GraphView, line: Seq<FileRef>) -> Seq<Seq<char>> {
    Seq::new((line.len() - 1) as nat, |i: int| key_of(g, line[i + 1]))
}

/// The path that is shown above level `i` of the way along the line.
pub open spec fn path_above(g: GraphView, line: Seq<FileRef>, i: int) -> Seq<char> {
    if i == 0 {
        root_display()
    } else {
        g.nodes[line[i]].path
    }
}

/// A directory `d` edges below the root is the end of a line of that length.
pub proof fn law_depth_has_a_line(
    children: Map<FileRef, Seq<FileRef>>,
    root: FileRef,
    c: FileRef,
    d: nat,
)
    requires
        descends(children, root, c, d),
    ensures
        exists|line: Seq<FileRef>| #[trigger]
            is_line(children, root, line) && line.len() == d + 1 && line.last() == c,
    decreases d,
{
    if d == 0 {
        let line = seq![c];
        assert(is_line(children, root, line) && line.len() == d + 1 && line.last() == c);
    } else {
        let p = choose|p: FileRef|
            #[trigger] kids_of(children, p).contains(c) && descends(
                children,
                root,
                p,
                (d - 1) as nat,
            );
        law_depth_has_a_line(children, root, p, (d - 1) as nat);
        let up = choose|up: Seq<FileRef>| #[trigger]
            is_line(children, root, up) && up.len() == d && up.last() == p;
        let line = up.push(c);
        assert forall|i: int| 0 < i < line.len() implies kids_of(children, line[i - 1]).contains(
            #[trigger] line[i],
        ) by {
            if i < d {
                assert(line[i] == up[i]);
            }
        }
        assert(is_line(children, root, line) && line.len() == d + 1 && line.last() == c);
    }
}

/// No directory of a line is the root but the first, and none follows itself.
proof fn lemma_line_goes_on(
    children: Map<FileRef, Seq<FileRef>>,
    root: FileRef,
    line: Seq<FileRef>,
    i: int,
)
    requires
        is_tree(children, root),
        is_line(children, root, line),
        0 < i < line.len(),
    ensures
        line[i] != root,
        line[i - 1] != line[i],
    decreases i,
{
    assert(kids_of(children, line[i - 1]).contains(line[i]));
    if i > 1 {
        lemma_line_goes_on(children, root, line, i - 1);
        assert(kids_of(children, line[i - 2]).contains(line[i - 1]));
    }
}

/// All directories of a line but the root are shown where the last one is.
proof fn lemma_line_is_shown(g: GraphView, line: Seq<FileRef>, i: int)
    requires
        is_tree(g.children, g.root),
        is_linked(g),
        is_line(g.children, g.root, line),
        is_shown(g, line.last()),
        0 < i < line.len(),
    ensures
        is_shown(g, line[i]),
    decreases line.len() - i,
{
    if i < line.len() - 1 {
        lemma_line_is_shown(g, line, i + 1);
        assert(kids_of(g.children, line[i]).contains(line[i + 1]));
        lemma_line_goes_on(g.children, g.root, line, i);
    }
}

/// The tree holds the node of a directory that is shown, under its key.
proof fn lemma_node_of(g: GraphView, s: TreeStoreView, c: FileRef)
    requires
        shows(g, s),
        keys_apart(g),
        is_shown(g, c),
    ensures
        s.nodes.contains_key(key_of(g, c)),
        s.nodes[key_of(g, c)].path == g.nodes[c].path,
{
    assert(s.nodes.contains_key(key_of(g, c)));
    let r = choose|r: FileRef| #[trigger]
        is_shown(g, r) && key_of(g, r) == key_of(g, c) && s.nodes[key_of(g, c)] == shown_node(
            g.nodes[r],
            low32(listed(s, key_of(g, c)).len()),
            filtered_count(g, r),
        );
    assert(r == c);
}

/// The tree knows the parent of a directory that is shown.
proof fn lemma_parent_of(g: GraphView, s: TreeStoreView, p: FileRef, c: FileRef)
    requires
        is_tree_of(g, s),
        kids_of(g.children, p).contains(c),
        is_shown(g, c),
    ensures
        parent_key(g, p) is Some,
        s.parent.contains_key(key_of(g, c)),
        s.parent[key_of(g, c)] == parent_key(g, p)->0,
        listed(s, parent_key(g, p)->0).contains(key_of(g, c)),
{
    assert(g.children.contains_key(p) && g.children[p].contains(c));
    law_shown_kids_are_listed(g, s, p, c);
    let k = key_of(g, c);
    let (q, e) = choose|q: FileRef, e: FileRef|
        #[trigger] g.children.contains_key(q) && #[trigger] g.children[q].contains(e) && is_shown(
            g,
            e,
        ) && key_of(g, e) == k && parent_key(g, q) == Some(s.parent[k]);
    assert(e == c);
    assert(kids_of(g.children, q).contains(c));
    assert(q == p);
}

/// Climbing from a directory of a line comes to the one above it, but not to the root.
proof fn lemma_climb_line(g: GraphView, s: TreeStoreView, line: Seq<FileRef>, i: int)
    requires
        is_tree_of(g, s),
        is_line(g.children, g.root, line),
        is_shown(g, line.last()),
        0 < i < line.len(),
    ensures
        climb(s, key_of(g, line[i])) == if i == 1 {
            None
        } else {
            Some(key_of(g, line[i - 1]))
        },
{
    lemma_line_is_shown(g, line, i);
    lemma_parent_of(g, s, line[i - 1], line[i]);
    if i > 1 {
        lemma_line_is_shown(g, line, i - 1);
        lemma_line_goes_on(g.children, g.root, line, i);
        lemma_line_goes_on(g.children, g.root, line, i - 1);
        lemma_node_of(g, s, line[i - 1]);
        assert(parent_key(g, line[i - 1]) == Some(key_of(g, line[i - 1])));
        assert(parent_key(g, g.root) == Some(root_key()));
    }
}

/// The way down to the last directory of a line passes those of the line.
proof fn lemma_way_of_line(g: GraphView, s: TreeStoreView, line: Seq<FileRef>, i: int)
    requires
        is_tree_of(g, s),
        is_line(g.children, g.root, line),
        is_shown(g, line.last()),
        0 < i < line.len(),
    ensures
        ends_after(s, key_of(g, line[i]), (i - 1) as nat),
        way_down(s, key_of(g, line[i]), (i - 1) as nat) == keys_of(g, line.take(i + 1)),
    decreases i,
{
    let key = key_of(g, line[i]);
    lemma_climb_line(g, s, line, i);
    if i > 1 {
        lemma_way_of_line(g, s, line, i - 1);
        assert(keys_of(g, line.take(i)).push(key) =~= keys_of(g, line.take(i + 1)));
    } else {
        assert(seq![key] =~= keys_of(g, line.take(2)));
    }
}

/// Climbing ends after one number of steps only.
proof fn lemma_ends_once(s: TreeStoreView, key: Seq<char>, m: nat, n: nat)
    requires
        ends_after(s, key, m),
        ends_after(s, key, n),
    ensures
        m == n,
    decreases m,
{
    if m > 0 && n > 0 {
        lemma_ends_once(s, climb(s, key)->0, (m - 1) as nat, (n - 1) as nat);
    }
}

/// A directory `d` edges below the root has `d` levels, and the way down to it
/// passes its ancestors: the root is the parent of the first level and no level
/// of its own.
pub proof fn law_levels_are_the_ancestors(
    g: GraphView,
    s: TreeStoreView,
    line: Seq<FileRef>,
    n: nat,
    limit: u32,
)
    requires
        is_tree_of(g, s),
        is_line(g.children, g.root, line),
        line.len() > 1,
        is_shown(g, line.last()),
    ensures
        s.nodes.contains_key(key_of(g, line.last())),
        ends_after(s, key_of(g, line.last()), n) <==> n == line.len() - 2,
        way_down(s, key_of(g, line.last()), (line.len() - 2) as nat) == keys_of(g, line),
        levels_of(s, keys_of(g, line), limit).len() == line.len() - 1,
{
    let key = key_of(g, line.last());
    lemma_node_of(g, s, line.last());
    lemma_way_of_line(g, s, line, line.len() - 1);
    assert(line.take(line.len() as int) =~= line);
    if ends_after(s, key, n) {
        lemma_ends_once(s, key, n, (line.len() - 2) as nat);
    }
}

/// Each level along the line shows the path of the ancestor above it, and the
/// page of its children on which the next directory of the line lies.
pub proof fn law_each_level_holds_the_next(
    g: GraphView,
    s: TreeStoreView,
    line: Seq<FileRef>,
    i: int,
    limit: u32,
)
    requires
        is_tree_of(g, s),
        is_line(g.children, g.root, line),
        is_shown(g, line.last()),
        0 <= i < line.len() - 1,
        listed(s, normalized(path_above(g, line, i))).len() <= u32::MAX,
    ensures
        ({
            let level = levels_of(s, keys_of(g, line), limit)[i];
            &&& level.parent_path == path_above(g, line, i)
            &&& exists|k: int|
                0 <= k * page_size(limit) <= u32::MAX && level.page == #[trigger] children_page_of(
                    s,
                    level.parent_path,
                    (k * page_size(limit)) as u32,
                    limit,
                )
            &&& s.nodes.contains_key(key_of(g, line[i + 1]))
            &&& s.nodes[key_of(g, line[i + 1])].path == g.nodes[line[i + 1]].path
            &&& level.page.items.contains(s.nodes[key_of(g, line[i + 1])])
        }),
{
    let way = keys_of(g, line);
    lemma_line_is_shown(g, line, i + 1);
    lemma_node_of(g, s, line[i + 1]);
    lemma_parent_of(g, s, line[i], line[i + 1]);
    if i > 0 {
        lemma_line_is_shown(g, line, i);
        lemma_node_of(g, s, line[i]);
        lemma_line_goes_on(g.children, g.root, line, i);
        assert(way[i - 1] == key_of(g, line[i]));
    }
    assert(way[i] == key_of(g, line[i + 1]));
    law_revealed_page_shows_the_way(s, way, i, limit);
    let all = listed(
        s,
        if i == 0 {
            normalized(root_display())
        } else {
            way[i - 1]
        },
    );
    let place = low32(place_of(all, way[i], all.len()) as nat);
    let k = place as int / page_size(limit);
    assert(0 <= k * page_size(limit) <= place) by (nonlinear_arith)
        requires
            k == place as int / page_size(limit),
            page_size(limit) >= 1,
            place >= 0,
    ;
    assert(level_at(s, way, i, limit).page == children_page_of(
        s,
        level_at(s, way, i, limit).parent_path,
        (k * page_size(limit)) as u32,
        limit,
    ));
}

/// Where all directories that are shown can be reached from the root, the way
/// down to each of them is found: nothing is refused but what the tree lacks.
pub proof fn law_every_shown_directory_is_found(g: GraphView, s: TreeStoreView, key: Seq<char>)
    requires
        is_tree_of(g, s),
        forall|c: FileRef| #[trigger] is_shown(g, c) ==> reachable(g.children, g.root, c),
        s.nodes.contains_key(key),
    ensures
        exists|n: nat| ends_after(s, key, n),
{
    let c = choose|c: FileRef| #[trigger]
        is_shown(g, c) && key_of(g, c) == key && s.nodes[key] == shown_node(
            g.nodes[c],
            low32(listed(s, key).len()),
            filtered_count(g, c),
        );
    let d = choose|d: nat| descends(g.children, g.root, c, d);
    law_depth_has_a_line(g.children, g.root, c, d);
    let line = choose|line: Seq<FileRef>| #[trigger]
        is_line(g.children, g.root, line) && line.len() == d + 1 && line.last() == c;
    if d == 0 {
        if s.parent.contains_key(key) {
            let (q, e) = choose|q: FileRef, e: FileRef|
                #[trigger] g.children.contains_key(q) && #[trigger] g.children[q].contains(e)
                    && is_shown(g, e) && key_of(g, e) == key && parent_key(g, q) == Some(
                    s.parent[key],
                );
            assert(e == c);
            assert(kids_of(g.children, q).contains(g.root));
        }
        assert(ends_after(s, key, 0));
    } else {
        lemma_way_of_line(g, s, line, d as int);
        assert(ends_after(s, key, (d - 1) as nat));
    }
}

/// `level` belongs to the step from `line[i]` to `line[i + 1]`: it shows the path
/// of the ancestor above, and one of the pages of the ancestor's children, in
/// pages of the clamped size, namely one that holds the next directory.
pub open spec fn is_level(
    g: GraphView,
    s: TreeStoreView,
    line: Seq<FileRef>,
    i: int,
    limit: u32,
    level: RevealLevelView,
) -> bool {
    let size = page_size(limit) as u32;
    &&& level.parent_path == path_above(g, line, i)
    &&& exists|k: int|
        0 <= k * size <= u32::MAX && level.page == #[trigger] children_page_of(
            s,
            level.parent_path,
            (k * size) as u32,
            size,
        )
    &&& s.nodes[key_of(g, line[i + 1])].path == g.nodes[line[i + 1]].path
    &&& level.page.items.contains(s.nodes[key_of(g, line[i + 1])])
}

/// Revealing a directory of a scanned drive: it is refused exactly where the
/// tree lacks the directory; else a directory `d` edges below the root has `d`
/// levels, and level `i` shows the ancestor `i` edges below the root with the page
/// that holds the next directory on the way.
pub proof fn law_reveal_leads_down(
    g: GraphView,
    s: TreeStoreView,
    path: Seq<char>,
    limit: u32,
    r: Result<Vec<RevealLevel>, AppError>,
    line: Seq<FileRef>,
)
    requires
        is_tree_of(g, s),
        forall|c: FileRef| #[trigger] is_shown(g, c) ==> reachable(g.children, g.root, c),
        forall|k: Seq<char>| (#[trigger] listed(s, k)).len() <= u32::MAX,
        is_revealed(s, path, limit, r),
    ensures
        r is Err <==> !s.nodes.contains_key(normalized(path)),
        is_line(g.children, g.root, line) && line.len() > 1 && is_shown(g, line.last()) && key_of(
            g,
            line.last(),
        ) == normalized(path) ==> {
            &&& r is Ok
            &&& r->Ok_0@.len() == line.len() - 1
            &&& forall|i: int|
                0 <= i < r->Ok_0@.len() ==> is_level(g, s, line, i, limit, (#[trigger] r->Ok_0@[i])@)
        },
{
    let key = normalized(path);
    if s.nodes.contains_key(key) {
        law_every_shown_directory_is_found(g, s, key);
    }
    if is_line(g.children, g.root, line) && line.len() > 1 && is_shown(g, line.last()) && key_of(
        g,
        line.last(),
    ) == key {
        let d = (line.len() - 2) as nat;
        law_levels_are_the_ancestors(g, s, line, d, limit);
        let levels = r->Ok_0@;
        let n = choose|n: nat| #[trigger]
            ends_after(s, key, n) && levels_view(levels) == levels_of(
                s,
                way_down(s, key, n),
                limit,
            );
        law_levels_are_the_ancestors(g, s, line, n, limit);
        let all = levels_of(s, keys_of(g, line), limit);
        assert(levels_view(levels) == all);
        assert(levels_view(levels).len() == levels.len());
        assert forall|i: int| 0 <= i < levels.len() implies is_level(
            g,
            s,
            line,
            i,
            limit,
            (#[trigger] levels[i])@,
        ) by {
            law_each_level_holds_the_next(g, s, line, i, limit);
            assert(levels_view(levels)[i] == levels[i]@);
            let level = all[i];
            let size = page_size(limit) as u32;
            let k = choose|k: int|
                0 <= k * page_size(limit) <= u32::MAX && level.page == #[trigger] children_page_of(
                    s,
                    level.parent_path,
                    (k * page_size(limit)) as u32,
                    limit,
                );
            let offset = (k * page_size(limit)) as u32;
            assert(children_page_of(s, level.parent_path, offset, limit) == children_page_of(
                s,
                level.parent_path,
                (k * size) as u32,
                size,
            ));
        }
    }
}

} // verus!
