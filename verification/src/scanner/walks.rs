//! What the walk over a drive comes to, in whatever order its directories are
//! handed out and read.

use super::aggregate::aggregated;
use super::fs::{
    after_observation, after_observations, blank_observation, handed_out, has_earlier_parent,
    is_over, is_walk, kid_item,
    kid_items, lemma_walk_edges, listed_errors, listed_files, name_of, named_by, names_sorted,
    observed, observed_node, path_ref, scan_start, was_listed, FsEntryError,
    FsEntryResult, FsScanView, ObservationView, WorkItemView,
};
use super::graph::{kids_of, DirectoryNodeView, GraphView};
use crate::explore::{
    capped, grows_apart, has_parent, is_exploring, is_reached, lemma_exploring_ends,
    lemma_exploring_goes_on, lemma_exploring_starts, lemma_reached_kid, lemma_same_total, total,
};
use crate::keys::lemma_places_covered;
use crate::mft::FileRef;
use crate::text::{lemma_text_less_total, text_less};
use vstd::prelude::*;

verus! {

/// What the directories of a drive hold, by their normal forms.
pub type Listings = spec_fn(Seq<char>) -> Result<Vec<FsEntryResult>, FsEntryError>;

/// What is seen of a directory: nothing of a reparse point, else its listing.
pub open spec fn look(listings: Listings, item: WorkItemView) -> ObservationView {
    if item.reparse_tag is Some {
        blank_observation(item, item.reparse_tag, false)
    } else {
        observed(item, listings(item.norm_path))
    }
}

/// What is seen of several directories.
pub open spec fn looks(listings: Listings, items: Seq<WorkItemView>) -> Seq<ObservationView> {
    Seq::new(items.len(), |i: int| look(listings, items[i]))
}

/// The directories that are found in a directory.
pub open spec fn kids_in(listings: Listings) -> spec_fn(WorkItemView) -> Seq<WorkItemView> {
    |item: WorkItemView| kid_items(look(listings, item))
}

/// The root directory of the drive.
pub open spec fn root_item(drive: char) -> WorkItemView {
    scan_start(drive).pending[0]
}

/// The directory lies on the drive, as far as the listings tell.
pub open spec fn lies_on(drive: char, listings: Listings, item: WorkItemView) -> bool {
    is_reached(root_item(drive), kids_in(listings), item)
}

/// No directory lists one twice, and no two directories of the drive have the
/// same reference.
pub open spec fn refs_apart(drive: char, listings: Listings) -> bool {
    &&& forall|p: WorkItemView| #[trigger]
        lies_on(drive, listings, p) ==> kids_in(listings)(p).no_duplicates()
    &&& forall|a: WorkItemView, b: WorkItemView| #[trigger]
        lies_on(drive, listings, a) && #[trigger] lies_on(drive, listings, b) && path_ref(
            a.norm_path,
        ) == path_ref(b.norm_path) ==> a == b
}

/// A step of a walk.
pub enum WalkStep {
    /// The next directory is handed out.
    HandOut,
    /// The directory at this place of those that were handed out is read, and
    /// the scan is told.
    Look(int),
}

/// A walk on its way.
pub struct WalkState {
    pub scan: FsScanView,
    /// Directories that were handed out and not read yet.
    pub out: Seq<WorkItemView>,
    /// Directories that were read.
    pub done: Seq<WorkItemView>,
}

/// The walk after a step.
pub open spec fn walk_on(listings: Listings, w: WalkState, step: WalkStep) -> WalkState {
    match step {
        WalkStep::HandOut => if w.scan.pending.len() == 0 {
            w
        } else {
            WalkState {
                scan: handed_out(w.scan),
                out: w.out.push(w.scan.pending[0]),
                ..w
            }
        },
        WalkStep::Look(i) => if 0 <= i < w.out.len() {
            WalkState {
                scan: after_observation(w.scan, look(listings, w.out[i])),
                out: w.out.remove(i),
                done: w.done.push(w.out[i]),
            }
        } else {
            w
        },
    }
}

/// The walk after the first `n` steps.
pub open spec fn walked(drive: char, listings: Listings, steps: Seq<WalkStep>, n: nat) -> WalkState
    decreases n,
{
    if n == 0 {
        WalkState { scan: scan_start(drive), out: Seq::empty(), done: Seq::empty() }
    } else {
        walk_on(listings, walked(drive, listings, steps, (n - 1) as nat), steps[n - 1])
    }
}

/// The walk has come to its end, and the scan has counted all its directories.
pub open spec fn is_finished(w: WalkState) -> bool {
    &&& is_over(w.scan)
    &&& w.done.len() + w.out.len() <= usize::MAX
}

/// The parts of a scan that do not depend on what was handed out.
pub open spec fn same_findings(a: FsScanView, b: FsScanView) -> bool {
    &&& a.graph == b.graph
    &&& a.known == b.known
    &&& a.scanned_files == b.scanned_files
    &&& a.entry_errors == b.entry_errors
}

// ---------------------------------------------------------------------------
// Lemmas
// ---------------------------------------------------------------------------

proof fn lemma_grows_apart(drive: char, listings: Listings)
    requires
        refs_apart(drive, listings),
    ensures
        grows_apart(root_item(drive), kids_in(listings)),
{
    let root = root_item(drive);
    let kids = kids_in(listings);
    assert forall|p: WorkItemView, q: WorkItemView, x: WorkItemView|
        is_reached(root, kids, p) && is_reached(root, kids, q) && #[trigger] kids(p).contains(x)
            && #[trigger] kids(q).contains(x) implies p == q by {
        assert(lies_on(drive, listings, p) && lies_on(drive, listings, q));
        assert(x.parent_norm_path == Some(p.norm_path));
        assert(x.parent_norm_path == Some(q.norm_path));
    }
    assert forall|p: WorkItemView| is_reached(root, kids, p) implies (#[trigger] kids(
        p,
    )).no_duplicates() by {
        assert(lies_on(drive, listings, p));
    }
}

/// Later observations do not change what earlier ones came to.
proof fn lemma_after_prefix(drive: char, seen: Seq<ObservationView>, obs: ObservationView, n: nat)
    requires
        n <= seen.len(),
    ensures
        after_observations(drive, seen.push(obs), n) == after_observations(drive, seen, n),
    decreases n,
{
    if n > 0 {
        lemma_after_prefix(drive, seen, obs, (n - 1) as nat);
    }
}

/// A step makes no directory disappear.
proof fn lemma_walk_grows(listings: Listings, w: WalkState, step: WalkStep)
    ensures
        ({
            let v = walk_on(listings, w, step);
            v.done.len() + v.out.len() + v.scan.pending.len() >= w.done.len() + w.out.len()
                + w.scan.pending.len()
        }),
{
}

/// What holds of a walk at each moment.
proof fn lemma_walked(drive: char, listings: Listings, steps: Seq<WalkStep>, n: nat)
    requires
        refs_apart(drive, listings),
        n <= steps.len(),
        ({
            let w = walked(drive, listings, steps, n);
            w.done.len() + w.out.len() + w.scan.pending.len() <= usize::MAX
        }),
    ensures
        ({
            let w = walked(drive, listings, steps, n);
            &&& is_exploring(root_item(drive), kids_in(listings), w.done, w.out + w.scan.pending)
            &&& w.scan.outstanding == w.out.len() + w.scan.pending.len()
            &&& same_findings(
                w.scan,
                after_observations(drive, looks(listings, w.done), w.done.len()),
            )
        }),
    decreases n,
{
    let root = root_item(drive);
    let kids = kids_in(listings);
    let w = walked(drive, listings, steps, n);
    if n == 0 {
        lemma_exploring_starts(root, kids);
        assert(w.out + w.scan.pending =~= seq![root]);
    } else {
        let m = (n - 1) as nat;
        let before = walked(drive, listings, steps, m);
        lemma_walk_grows(listings, before, steps[m as int]);
        lemma_walked(drive, listings, steps, m);
        match steps[m as int] {
            WalkStep::HandOut => {
                assert(w.out + w.scan.pending =~= before.out + before.scan.pending);
            },
            WalkStep::Look(i) => {
                if 0 <= i < before.out.len() {
                    let item = before.out[i];
                    let obs = look(listings, item);
                    let waiting = before.out + before.scan.pending;
                    lemma_grows_apart(drive, listings);
                    lemma_exploring_goes_on(root, kids, before.done, waiting, i);
                    assert(waiting[i] == item);
                    assert(w.out + w.scan.pending =~= waiting.remove(i) + kids(item));
                    lemma_after_prefix(drive, looks(listings, before.done), obs, before.done.len());
                    assert(looks(listings, w.done) =~= looks(listings, before.done).push(obs));
                }
            },
        }
    }
}

/// The observations of an exploration are those of a walk.
proof fn lemma_is_walk(drive: char, listings: Listings, done: Seq<WorkItemView>)
    requires
        refs_apart(drive, listings),
        is_exploring(root_item(drive), kids_in(listings), done, Seq::empty()),
    ensures
        is_walk(looks(listings, done), done.len()),
        forall|i: int| 0 <= i < done.len() ==> lies_on(drive, listings, #[trigger] done[i]),
        done.no_duplicates(),
{
    let kids = kids_in(listings);
    let seen = looks(listings, done);
    let all = done + Seq::empty();
    assert(all =~= done);
    assert forall|i: int| 0 <= i < done.len() implies lies_on(
        drive,
        listings,
        #[trigger] done[i],
    ) by {
        assert(is_reached(root_item(drive), kids, all[i]));
    }
    assert forall|i: int| 0 < i < done.len() implies #[trigger] has_earlier_parent(seen, i) by {
        assert(has_parent(kids, done, i, all[i]));
        let j = choose|j: int| 0 <= j < i && kids(#[trigger] done[j]).contains(done[i]);
        assert(seen[j].norm_path == seen[i].parent_norm_path->0);
    }
    assert forall|i: int, j: int| 0 <= i < j < done.len() implies path_ref(
        (#[trigger] seen[i]).norm_path,
    ) != path_ref((#[trigger] seen[j]).norm_path) by {
        assert(lies_on(drive, listings, done[i]) && lies_on(drive, listings, done[j]));
        assert(all[i] != all[j]);
    }
    assert(seen[0].parent_norm_path is None);
}

/// The nodes and edges of a walk.
#[verifier::rlimit(60)]
proof fn lemma_walk_graph(drive: char, seen: Seq<ObservationView>, n: nat)
    requires
        is_walk(seen, n),
    ensures
        ({
            let g = after_observations(drive, seen, n).graph;
            &&& forall|r: FileRef| #[trigger]
                g.nodes.contains_key(r) ==> exists|i: int|
                    0 <= i < n && path_ref((#[trigger] seen[i]).norm_path) == r
            &&& forall|i: int|
                0 <= i < n ==> g.nodes.contains_key(path_ref((#[trigger] seen[i]).norm_path))
                    && g.nodes[path_ref(seen[i].norm_path)] == observed_node(seen[i])
            &&& forall|i: int|
                0 < i < n ==> kids_of(g.children, path_ref(seen[i].parent_norm_path->0)).contains(
                    path_ref((#[trigger] seen[i]).norm_path),
                )
            &&& forall|p: FileRef| #[trigger]
                g.children.contains_key(p) ==> g.children[p].len() > 0
            &&& g.root == path_ref(seen[0].norm_path)
            &&& g == (GraphView {
                nodes: g.nodes,
                root: g.root,
                children: g.children,
                ..scan_start(drive).graph
            })
        }),
    decreases n,
{
    lemma_walk_edges(drive, seen, n);
    let m = (n - 1) as nat;
    let before = after_observations(drive, seen, m);
    let g = after_observations(drive, seen, n).graph;
    let r = path_ref(seen[m as int].norm_path);
    if n == 1 {
        assert(before == scan_start(drive));
    } else {
        assert(is_walk(seen, m));
        lemma_walk_graph(drive, seen, m);
        lemma_walk_edges(drive, seen, m);
        assert(has_earlier_parent(seen, m as int));
        let parent = seen[m as int].parent_norm_path->0;
        let j = choose|j: int| 0 <= j < m && (#[trigger] seen[j]).norm_path == parent;
        assert(before.known.contains_key(seen[j].norm_path));
        let q = path_ref(parent);
        let old_kids = kids_of(before.graph.children, q);
        assert(g.children == before.graph.children.insert(q, old_kids.push(r)));
        assert forall|i: int| 0 < i < n implies kids_of(
            g.children,
            path_ref(seen[i].parent_norm_path->0),
        ).contains(path_ref((#[trigger] seen[i]).norm_path)) by {
            let p = path_ref(seen[i].parent_norm_path->0);
            let c = path_ref(seen[i].norm_path);
            if i < m {
                assert(kids_of(before.graph.children, p).contains(c));
                if p == q {
                    let a = choose|a: int| 0 <= a < old_kids.len() && old_kids[a] == c;
                    assert(old_kids.push(r)[a] == c);
                }
            } else {
                assert(old_kids.push(r)[old_kids.len() as int] == c);
            }
        }
    }
    assert forall|x: FileRef| #[trigger] g.nodes.contains_key(x) implies exists|i: int|
        0 <= i < n && path_ref((#[trigger] seen[i]).norm_path) == x by {
        if x == r {
            assert(path_ref(seen[m as int].norm_path) == x);
        } else {
            assert(before.graph.nodes.contains_key(x));
            let i = choose|i: int| 0 <= i < m && path_ref((#[trigger] seen[i]).norm_path) == x;
            assert(0 <= i < n);
        }
    }
    assert forall|i: int| 0 <= i < n implies g.nodes.contains_key(
        path_ref((#[trigger] seen[i]).norm_path),
    ) && g.nodes[path_ref(seen[i].norm_path)] == observed_node(seen[i]) by {
        if i < m {
            assert(path_ref(seen[i].norm_path) != path_ref(seen[m as int].norm_path));
        }
    }
}

/// `x` is a directory of the drive that `up` lists, and these are their references.
spec fn is_edge(
    drive: char,
    listings: Listings,
    p: FileRef,
    c: FileRef,
    up: WorkItemView,
    x: WorkItemView,
) -> bool {
    &&& lies_on(drive, listings, up)
    &&& lies_on(drive, listings, x)
    &&& kids_in(listings)(up).contains(x)
    &&& path_ref(up.norm_path) == p
    &&& path_ref(x.norm_path) == c
}

/// The edges of a finished walk are those that the listings tell.
proof fn lemma_edges(
    drive: char,
    listings: Listings,
    done: Seq<WorkItemView>,
    p: FileRef,
    c: FileRef,
)
    requires
        refs_apart(drive, listings),
        is_exploring(root_item(drive), kids_in(listings), done, Seq::empty()),
    ensures
        ({
            let g = after_observations(drive, looks(listings, done), done.len()).graph;
            kids_of(g.children, p).contains(c) <==> exists|up: WorkItemView, x: WorkItemView|
                is_edge(drive, listings, p, c, up, x)
        }),
{
    let kids = kids_in(listings);
    let seen = looks(listings, done);
    let n = done.len();
    let g = after_observations(drive, seen, n).graph;
    let all = done + Seq::empty();
    assert(all =~= done);
    lemma_is_walk(drive, listings, done);
    lemma_walk_edges(drive, seen, n);
    lemma_walk_graph(drive, seen, n);
    if kids_of(g.children, p).contains(c) {
        assert(was_listed(seen, n, p, c));
        let i = choose|i: int|
            0 < i < n && path_ref((#[trigger] seen[i]).norm_path) == c && path_ref(
                seen[i].parent_norm_path->0,
            ) == p;
        assert(has_parent(kids, done, i, all[i]));
        let j = choose|j: int| 0 <= j < i && kids(#[trigger] done[j]).contains(done[i]);
        assert(is_edge(drive, listings, p, c, done[j], done[i]));
    }
    if exists|up: WorkItemView, x: WorkItemView| is_edge(drive, listings, p, c, up, x) {
        let (up, x) = choose|up: WorkItemView, x: WorkItemView|
            is_edge(drive, listings, p, c, up, x);
        lemma_exploring_ends(root_item(drive), kids, done, x);
        let i = choose|i: int| 0 <= i < n && done[i] == x;
        assert(x.parent_norm_path == Some(up.norm_path));
        assert(seen[i].parent_norm_path == Some(up.norm_path));
        assert(i > 0);
        assert(kids_of(g.children, path_ref(seen[i].parent_norm_path->0)).contains(
            path_ref(seen[i].norm_path),
        ));
    }
}

/// The children of a directory have different names.
proof fn lemma_names_apart(
    drive: char,
    listings: Listings,
    done: Seq<WorkItemView>,
    p: FileRef,
    c: FileRef,
    d: FileRef,
)
    requires
        refs_apart(drive, listings),
        is_exploring(root_item(drive), kids_in(listings), done, Seq::empty()),
        ({
            let g = after_observations(drive, looks(listings, done), done.len()).graph;
            &&& kids_of(g.children, p).contains(c)
            &&& kids_of(g.children, p).contains(d)
            &&& name_of(g.nodes, c) == name_of(g.nodes, d)
        }),
    ensures
        c == d,
{
    let kids = kids_in(listings);
    let seen = looks(listings, done);
    let g = after_observations(drive, seen, done.len()).graph;
    lemma_is_walk(drive, listings, done);
    lemma_walk_graph(drive, seen, done.len());
    lemma_edges(drive, listings, done, p, c);
    lemma_edges(drive, listings, done, p, d);
    let (up, x) = choose|up: WorkItemView, x: WorkItemView| is_edge(drive, listings, p, c, up, x);
    let (vp, y) = choose|vp: WorkItemView, y: WorkItemView| is_edge(drive, listings, p, d, vp, y);
    assert(up == vp);
    lemma_exploring_ends(root_item(drive), kids, done, x);
    lemma_exploring_ends(root_item(drive), kids, done, y);
    let i = choose|i: int| 0 <= i < done.len() && done[i] == x;
    let j = choose|j: int| 0 <= j < done.len() && done[j] == y;
    assert(g.nodes[path_ref(seen[i].norm_path)] == observed_node(seen[i]));
    assert(g.nodes[path_ref(seen[j].norm_path)] == observed_node(seen[j]));
    assert(x.display_name == y.display_name);
    let obs = look(listings, up);
    let found = kid_items(obs);
    assert(found == kids(up));
    let a = choose|a: int| 0 <= a < found.len() && found[a] == x;
    let b = choose|b: int| 0 <= b < found.len() && found[b] == y;
    assert(x == kid_item(obs, obs.direct_dirs[a]));
    assert(y == kid_item(obs, obs.direct_dirs[b]));
}

/// Each item has a smaller name than the next ones.
spec fn is_strict(nodes: Map<FileRef, DirectoryNodeView>, list: Seq<FileRef>) -> bool {
    forall|a: int, b: int|
        0 <= a < b < list.len() ==> text_less(
            name_of(nodes, #[trigger] list[a]),
            name_of(nodes, #[trigger] list[b]),
        )
}

/// Two lists of the same items in the order of their names are the same.
proof fn lemma_strict_unique(
    nodes: Map<FileRef, DirectoryNodeView>,
    a: Seq<FileRef>,
    b: Seq<FileRef>,
)
    requires
        is_strict(nodes, a),
        is_strict(nodes, b),
        forall|x: FileRef| #[trigger] a.contains(x) <==> b.contains(x),
    ensures
        a == b,
    decreases a.len(),
{
    if a.len() == 0 {
        if b.len() > 0 {
            assert(b.contains(b[0]));
            assert(a.contains(b[0]));
        }
        assert(a =~= b);
    } else {
        assert(a.contains(a[0]));
        assert(b.contains(a[0]));
        let j = choose|j: int| 0 <= j < b.len() && b[j] == a[0];
        assert(b.contains(b[0]));
        assert(a.contains(b[0]));
        let i = choose|i: int| 0 <= i < a.len() && a[i] == b[0];
        lemma_text_less_total(name_of(nodes, a[0]), name_of(nodes, b[0]));
        assert(a[0] == b[0]);
        let a2 = a.drop_first();
        let b2 = b.drop_first();
        assert(is_strict(nodes, a2)) by {
            assert forall|x: int, y: int| 0 <= x < y < a2.len() implies text_less(
                name_of(nodes, #[trigger] a2[x]),
                name_of(nodes, #[trigger] a2[y]),
            ) by {
                assert(a2[x] == a[x + 1] && a2[y] == a[y + 1]);
            }
        }
        assert(is_strict(nodes, b2)) by {
            assert forall|x: int, y: int| 0 <= x < y < b2.len() implies text_less(
                name_of(nodes, #[trigger] b2[x]),
                name_of(nodes, #[trigger] b2[y]),
            ) by {
                assert(b2[x] == b[x + 1] && b2[y] == b[y + 1]);
            }
        }
        assert forall|x: FileRef| #[trigger] a2.contains(x) <==> b2.contains(x) by {
            lemma_text_less_total(name_of(nodes, a[0]), name_of(nodes, a[0]));
            if a2.contains(x) {
                let k = choose|k: int| 0 <= k < a2.len() && a2[k] == x;
                assert(a[k + 1] == x);
                assert(a.contains(x));
                assert(text_less(name_of(nodes, a[0]), name_of(nodes, a[k + 1])));
                let l = choose|l: int| 0 <= l < b.len() && b[l] == x;
                assert(b2[l - 1] == x);
            }
            if b2.contains(x) {
                let l = choose|l: int| 0 <= l < b2.len() && b2[l] == x;
                assert(b[l + 1] == x);
                assert(b.contains(x));
                assert(a.contains(x));
                assert(text_less(name_of(nodes, b[0]), name_of(nodes, b[l + 1])));
                let k = choose|k: int| 0 <= k < a.len() && a[k] == x;
                assert(a2[k - 1] == x);
            }
        }
        lemma_strict_unique(nodes, a2, b2);
        assert(a =~= seq![a[0]] + a2);
        assert(b =~= seq![b[0]] + b2);
    }
}

/// The sorted children of a directory: the same ones, by their names.
proof fn lemma_sorted_list(
    drive: char,
    listings: Listings,
    done: Seq<WorkItemView>,
    children: Map<FileRef, Seq<FileRef>>,
    p: FileRef,
)
    requires
        refs_apart(drive, listings),
        is_exploring(root_item(drive), kids_in(listings), done, Seq::empty()),
        names_sorted(
            after_observations(drive, looks(listings, done), done.len()).graph,
            children,
        ),
        children.contains_key(p),
    ensures
        ({
            let g = after_observations(drive, looks(listings, done), done.len()).graph;
            &&& is_strict(g.nodes, children[p])
            &&& forall|c: FileRef| #[trigger]
                children[p].contains(c) <==> kids_of(g.children, p).contains(c)
        }),
{
    let g = after_observations(drive, looks(listings, done), done.len()).graph;
    let kids = g.children[p];
    let list = children[p];
    lemma_is_walk(drive, listings, done);
    lemma_walk_edges(drive, looks(listings, done), done.len());
    assert(kids_of(g.children, p).no_duplicates());
    let order = choose|order: Seq<usize>| #[trigger] named_by(g.nodes, kids, list, order);
    assert forall|a: int, b: int| 0 <= a < b < list.len() implies text_less(
        name_of(g.nodes, #[trigger] list[a]),
        name_of(g.nodes, #[trigger] list[b]),
    ) by {
        let (x, y) = (list[a], list[b]);
        assert(x == kids[order[a] as int] && y == kids[order[b] as int]);
        assert(order[a] != order[b]);
        assert(kids.contains(x) && kids.contains(y));
        lemma_text_less_total(name_of(g.nodes, x), name_of(g.nodes, y));
        if name_of(g.nodes, x) == name_of(g.nodes, y) {
            lemma_names_apart(drive, listings, done, p, x, y);
        }
    }
    assert forall|c: FileRef| #[trigger] list.contains(c) <==> kids.contains(c) by {
        if list.contains(c) {
            let a = choose|a: int| 0 <= a < list.len() && list[a] == c;
            assert(kids[order[a] as int] == c);
        }
        if kids.contains(c) {
            let j = choose|j: int| 0 <= j < kids.len() && kids[j] == c;
            lemma_places_covered(order.len(), order, j);
            let a = choose|a: int| 0 <= a < order.len() && #[trigger] order[a] == j;
            assert(list[a] == c);
        }
    }
}

// ---------------------------------------------------------------------------
// Counting
// ---------------------------------------------------------------------------

/// How many files a directory holds.
pub open spec fn files_in(listings: Listings) -> spec_fn(WorkItemView) -> nat {
    |item: WorkItemView| look(listings, item).direct_files.len()
}

/// How many entries of a directory cannot be read.
pub open spec fn errors_in(listings: Listings) -> spec_fn(WorkItemView) -> nat {
    |item: WorkItemView| look(listings, item).entry_errors.len()
}

proof fn lemma_listing_lens(entries: Seq<FsEntryResult>, n: nat)
    ensures
        listed_files(entries, n).len() <= n,
        listed_errors(entries, n).len() <= n,
    decreases n,
{
    if n > 0 {
        lemma_listing_lens(entries, (n - 1) as nat);
    }
}

/// No directory holds more than can be counted to.
proof fn lemma_look_lens(listings: Listings, item: WorkItemView)
    ensures
        look(listings, item).direct_files.len() <= u64::MAX,
        look(listings, item).entry_errors.len() <= u64::MAX,
{
    if item.reparse_tag is None {
        match listings(item.norm_path) {
            Ok(entries) => {
                lemma_listing_lens(entries@, entries@.len());
                assert(entries@.len() == entries.len());
            },
            _ => {},
        }
    }
}

proof fn lemma_counts(drive: char, listings: Listings, done: Seq<WorkItemView>)
    ensures
        ({
            let s = after_observations(drive, looks(listings, done), done.len());
            &&& s.scanned_files == capped(total(done, files_in(listings)))
            &&& s.entry_errors == capped(total(done, errors_in(listings)))
        }),
    decreases done.len(),
{
    if done.len() > 0 {
        let before = done.drop_last();
        let obs = look(listings, done.last());
        lemma_counts(drive, listings, before);
        lemma_look_lens(listings, done.last());
        lemma_after_prefix(drive, looks(listings, before), obs, before.len());
        assert(looks(listings, done) =~= looks(listings, before).push(obs));
    }
}

// ---------------------------------------------------------------------------
// Laws
// ---------------------------------------------------------------------------

/// A finished walk has read every directory of the drive once and nothing else.
/// Each has its node, and the files and the entries that cannot be read were
/// counted.
pub proof fn law_finished_walk_saw_the_drive(
    drive: char,
    listings: Listings,
    steps: Seq<WalkStep>,
    item: WorkItemView,
    r: FileRef,
)
    requires
        refs_apart(drive, listings),
        is_finished(walked(drive, listings, steps, steps.len())),
    ensures
        ({
            let w = walked(drive, listings, steps, steps.len());
            let nodes = w.scan.graph.nodes;
            &&& w.out.len() == 0
            &&& w.done.no_duplicates()
            &&& w.done.contains(item) <==> lies_on(drive, listings, item)
            &&& lies_on(drive, listings, item) ==> nodes.contains_key(path_ref(item.norm_path))
                && nodes[path_ref(item.norm_path)] == observed_node(look(listings, item))
            &&& nodes.contains_key(r) ==> exists|x: WorkItemView| #[trigger]
                lies_on(drive, listings, x) && path_ref(x.norm_path) == r
            &&& w.scan.scanned_files == capped(total(w.done, files_in(listings)))
            &&& w.scan.entry_errors == capped(total(w.done, errors_in(listings)))
        }),
{
    let w = walked(drive, listings, steps, steps.len());
    let seen = looks(listings, w.done);
    lemma_walked(drive, listings, steps, steps.len());
    assert(w.out + w.scan.pending =~= Seq::empty());
    lemma_exploring_ends(root_item(drive), kids_in(listings), w.done, item);
    lemma_is_walk(drive, listings, w.done);
    lemma_walk_graph(drive, seen, w.done.len());
    lemma_counts(drive, listings, w.done);
    let nodes = w.scan.graph.nodes;
    if w.done.contains(item) {
        let i = choose|i: int| 0 <= i < w.done.len() && w.done[i] == item;
        assert(nodes[path_ref(seen[i].norm_path)] == observed_node(seen[i]));
    }
    if nodes.contains_key(r) {
        let i = choose|i: int| 0 <= i < seen.len() && path_ref((#[trigger] seen[i]).norm_path) == r;
        assert(lies_on(drive, listings, w.done[i]));
    }
}

/// After a finished walk the children of a directory are those that its listing
/// names; a reparse point, or a directory that may not be read, has none.
pub proof fn law_children_are_those_listed(
    drive: char,
    listings: Listings,
    steps: Seq<WalkStep>,
    item: WorkItemView,
    r: FileRef,
)
    requires
        refs_apart(drive, listings),
        is_finished(walked(drive, listings, steps, steps.len())),
        lies_on(drive, listings, item),
    ensures
        ({
            let g = walked(drive, listings, steps, steps.len()).scan.graph;
            let kids = kids_of(g.children, path_ref(item.norm_path));
            &&& kids.contains(r) <==> exists|x: WorkItemView| #[trigger]
                kids_in(listings)(item).contains(x) && path_ref(x.norm_path) == r
            &&& item.reparse_tag is Some || listings(item.norm_path) == Err::<
                Vec<FsEntryResult>,
                FsEntryError,
            >(FsEntryError::AccessDenied) ==> !kids.contains(r)
        }),
{
    let w = walked(drive, listings, steps, steps.len());
    let p = path_ref(item.norm_path);
    lemma_walked(drive, listings, steps, steps.len());
    assert(w.out + w.scan.pending =~= Seq::empty());
    lemma_edges(drive, listings, w.done, p, r);
    if kids_of(w.scan.graph.children, p).contains(r) {
        let (up, x) = choose|up: WorkItemView, x: WorkItemView|
            is_edge(drive, listings, p, r, up, x);
        assert(up == item);
    }
    if exists|x: WorkItemView| #[trigger]
        kids_in(listings)(item).contains(x) && path_ref(x.norm_path) == r {
        let x = choose|x: WorkItemView| #[trigger]
            kids_in(listings)(item).contains(x) && path_ref(x.norm_path) == r;
        lemma_reached_kid(root_item(drive), kids_in(listings), item, x);
        assert(is_edge(drive, listings, p, r, item, x));
    }
}

/// In whatever order the directories are handed out and read, and by however
/// many readers, a finished walk ends in the same graph and the same counts.
pub proof fn law_walk_order_does_not_matter(
    drive: char,
    listings: Listings,
    steps: Seq<WalkStep>,
    others: Seq<WalkStep>,
    children: Map<FileRef, Seq<FileRef>>,
    other_children: Map<FileRef, Seq<FileRef>>,
    excluded: Seq<Seq<char>>,
)
    requires
        refs_apart(drive, listings),
        is_finished(walked(drive, listings, steps, steps.len())),
        is_finished(walked(drive, listings, others, others.len())),
        names_sorted(walked(drive, listings, steps, steps.len()).scan.graph, children),
        names_sorted(walked(drive, listings, others, others.len()).scan.graph, other_children),
    ensures
        ({
            let a = walked(drive, listings, steps, steps.len()).scan;
            let b = walked(drive, listings, others, others.len()).scan;
            &&& aggregated(GraphView { children, ..a.graph }, excluded) == aggregated(
                GraphView { children: other_children, ..b.graph },
                excluded,
            )
            &&& a.scanned_files == b.scanned_files
            &&& a.entry_errors == b.entry_errors
        }),
{
    let v = walked(drive, listings, steps, steps.len());
    let w = walked(drive, listings, others, others.len());
    let a = v.scan.graph;
    let b = w.scan.graph;
    lemma_walked(drive, listings, steps, steps.len());
    lemma_walked(drive, listings, others, others.len());
    assert(v.out + v.scan.pending =~= Seq::empty());
    assert(w.out + w.scan.pending =~= Seq::empty());
    lemma_counts(drive, listings, v.done);
    lemma_counts(drive, listings, w.done);
    assert forall|x: WorkItemView| #[trigger] v.done.contains(x) <==> w.done.contains(x) by {
        lemma_exploring_ends(root_item(drive), kids_in(listings), v.done, x);
        lemma_exploring_ends(root_item(drive), kids_in(listings), w.done, x);
    }
    lemma_is_walk(drive, listings, v.done);
    lemma_is_walk(drive, listings, w.done);
    lemma_same_total(v.done, w.done, files_in(listings));
    lemma_same_total(v.done, w.done, errors_in(listings));
    lemma_walk_graph(drive, looks(listings, v.done), v.done.len());
    lemma_walk_graph(drive, looks(listings, w.done), w.done.len());
    assert(a.nodes =~= b.nodes) by {
        assert forall|r: FileRef| #[trigger] a.nodes.contains_key(r) <==> b.nodes.contains_key(
            r,
        ) by {
            lemma_same_node(drive, listings, steps, others, r);
            lemma_same_node(drive, listings, others, steps, r);
        }
        assert forall|r: FileRef| a.nodes.contains_key(r) implies #[trigger] a.nodes[r]
            == b.nodes[r] by {
            lemma_same_node(drive, listings, steps, others, r);
        }
    }
    assert(a.root == b.root);
    assert(children =~= other_children) by {
        assert forall|p: FileRef, c: FileRef| #[trigger] kids_of(a.children, p).contains(c)
            <==> kids_of(b.children, p).contains(c) by {
            lemma_edges(drive, listings, v.done, p, c);
            lemma_edges(drive, listings, w.done, p, c);
        }
        assert forall|p: FileRef| #[trigger] children.contains_key(p)
            <==> other_children.contains_key(p) by {
            if a.children.contains_key(p) {
                assert(kids_of(a.children, p).contains(a.children[p][0]));
                assert(kids_of(b.children, p).contains(a.children[p][0]));
            }
            if b.children.contains_key(p) {
                assert(kids_of(b.children, p).contains(b.children[p][0]));
                assert(kids_of(a.children, p).contains(b.children[p][0]));
            }
        }
        assert forall|p: FileRef| children.contains_key(p) implies #[trigger] children[p]
            == other_children[p] by {
            assert(other_children.contains_key(p));
            lemma_sorted_list(drive, listings, v.done, children, p);
            lemma_sorted_list(drive, listings, w.done, other_children, p);
            assert forall|x: FileRef| #[trigger] children[p].contains(x)
                <==> other_children[p].contains(x) by {
                assert(kids_of(a.children, p).contains(x) <==> kids_of(b.children, p).contains(x));
            }
            lemma_strict_unique(a.nodes, children[p], other_children[p]);
        }
    }
    assert(GraphView { children, ..a } == GraphView { children: other_children, ..b });
}

/// The node that one finished walk has, another has too.
proof fn lemma_same_node(
    drive: char,
    listings: Listings,
    steps: Seq<WalkStep>,
    others: Seq<WalkStep>,
    r: FileRef,
)
    requires
        refs_apart(drive, listings),
        is_finished(walked(drive, listings, steps, steps.len())),
        is_finished(walked(drive, listings, others, others.len())),
    ensures
        ({
            let a = walked(drive, listings, steps, steps.len()).scan.graph.nodes;
            let b = walked(drive, listings, others, others.len()).scan.graph.nodes;
            a.contains_key(r) ==> b.contains_key(r) && a[r] == b[r]
        }),
{
    let a = walked(drive, listings, steps, steps.len()).scan.graph.nodes;
    if a.contains_key(r) {
        law_finished_walk_saw_the_drive(drive, listings, steps, root_item(drive), r);
        let x = choose|x: WorkItemView| #[trigger]
            lies_on(drive, listings, x) && path_ref(x.norm_path) == r;
        law_finished_walk_saw_the_drive(drive, listings, steps, x, r);
        law_finished_walk_saw_the_drive(drive, listings, others, x, r);
    }
}

} // verus!
