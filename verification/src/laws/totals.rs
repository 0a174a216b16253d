//! What a directory is shown with: the files and directories of its whole subtree.

use crate::explore::{capped, lemma_same_total, total};
use crate::mft::types::MftRecordView;
use crate::mft::FileRef;
use crate::models::{ConfigView, MigrationView};
use crate::paths::EnvVarsView;
use crate::scanner::aggregate::{shown_subtotal, shown_totals, Totals};
use crate::scanner::annotate::{annotated, NodeFacts};
use crate::scanner::construct::{
    filed_by_number, law_directories_form_a_tree, law_volume_totals_add_up, lemma_reach_iff,
};
use crate::scanner::graph::{kids_of, GraphView};
use crate::scanner::materialize::{
    filtered_count, is_shown, key_of, keys_apart, shown_node, shows,
};
use crate::scanner::order::is_tree;
use crate::scanner::tree::{listed, TreeStoreView};
use crate::scanner::tree_model::{
    at_level, graph_of, in_tree, is_dir_ref, link_of, low32, tree_root,
};
use crate::scanner::walk::{descends, reachable};
use vstd::prelude::*;

verus! {

/// The directory `c` counts for `p`, which lists it: excluded directories count only
/// inside what is excluded itself.
pub open spec fn counts(g: GraphView, p: FileRef, c: FileRef) -> bool {
    kids_of(g.children, p).contains(c) && (g.nodes[p].excluded || !g.nodes[c].excluded)
}

/// `x` is `k` steps below `r`, where every directory on the way counts.
pub open spec fn is_below(g: GraphView, r: FileRef, x: FileRef, k: nat) -> bool
    decreases k,
{
    if k == 0 {
        x == r
    } else {
        exists|p: FileRef| #[trigger] counts(g, p, x) && is_below(g, r, p, (k - 1) as nat)
    }
}

/// `x` is in the subtree of `r`, as far as it counts.
pub open spec fn is_in_subtree(g: GraphView, r: FileRef, x: FileRef) -> bool {
    exists|k: nat| is_below(g, r, x, k)
}

/// `list` holds the directories in the subtree of `r` that count, each once.
pub open spec fn is_subtree(g: GraphView, r: FileRef, list: Seq<FileRef>) -> bool {
    &&& list.no_duplicates()
    &&& forall|x: FileRef| #[trigger] list.contains(x) <==> is_in_subtree(g, r, x)
}

/// The size of the files directly in a directory.
pub open spec fn sizes_in(g: GraphView) -> spec_fn(FileRef) -> nat {
    |x: FileRef| g.nodes[x].direct_file_size_bytes as nat
}

/// The number of the files directly in a directory.
pub open spec fn files_in(g: GraphView) -> spec_fn(FileRef) -> nat {
    |x: FileRef| g.nodes[x].direct_file_count as nat
}

// ---------------------------------------------------------------------------
// Lemmas: depth
// ---------------------------------------------------------------------------

proof fn lemma_depth_unique(g: GraphView, x: FileRef, a: nat, b: nat)
    requires
        is_tree(g.children, g.root),
        descends(g.children, g.root, x, a),
        descends(g.children, g.root, x, b),
    ensures
        a == b,
    decreases a,
{
    if a > 0 && b > 0 {
        let p = choose|p: FileRef|
            #[trigger] kids_of(g.children, p).contains(x) && descends(
                g.children,
                g.root,
                p,
                (a - 1) as nat,
            );
        let q = choose|q: FileRef|
            #[trigger] kids_of(g.children, q).contains(x) && descends(
                g.children,
                g.root,
                q,
                (b - 1) as nat,
            );
        assert(p == q);
        lemma_depth_unique(g, p, (a - 1) as nat, (b - 1) as nat);
    }
}

proof fn lemma_below_depth(g: GraphView, r: FileRef, d: nat, x: FileRef, k: nat)
    requires
        descends(g.children, g.root, r, d),
        is_below(g, r, x, k),
    ensures
        descends(g.children, g.root, x, d + k),
    decreases k,
{
    if k > 0 {
        let p = choose|p: FileRef| #[trigger] counts(g, p, x) && is_below(g, r, p, (k - 1) as nat);
        lemma_below_depth(g, r, d, p, (k - 1) as nat);
        assert((d + k - 1) as nat == d + (k - 1) as nat);
        assert(kids_of(g.children, p).contains(x));
    }
}

/// What is below a directory is below one of those that it lists.
proof fn lemma_first_step(g: GraphView, r: FileRef, x: FileRef, k: nat)
    requires
        is_below(g, r, x, k),
        k > 0,
    ensures
        exists|c: FileRef| #[trigger] counts(g, r, c) && is_below(g, c, x, (k - 1) as nat),
    decreases k,
{
    let p = choose|p: FileRef| #[trigger] counts(g, p, x) && is_below(g, r, p, (k - 1) as nat);
    if k == 1 {
        assert(counts(g, r, x) && is_below(g, x, x, 0));
    } else {
        lemma_first_step(g, r, p, (k - 1) as nat);
        let c = choose|c: FileRef| #[trigger]
            counts(g, r, c) && is_below(g, c, p, (k - 2) as nat);
        assert(counts(g, p, x));
        assert(is_below(g, c, x, (k - 1) as nat));
        assert(counts(g, r, c) && is_below(g, c, x, (k - 1) as nat));
    }
}

proof fn lemma_step_down(g: GraphView, r: FileRef, c: FileRef, x: FileRef, k: nat)
    requires
        counts(g, r, c),
        is_below(g, c, x, k),
    ensures
        is_below(g, r, x, k + 1),
    decreases k,
{
    if k == 0 {
        assert(is_below(g, r, r, 0));
        assert(counts(g, r, x) && is_below(g, r, r, ((k + 1) - 1) as nat));
    } else {
        let p = choose|p: FileRef| #[trigger] counts(g, p, x) && is_below(g, c, p, (k - 1) as nat);
        lemma_step_down(g, r, c, p, (k - 1) as nat);
        assert(((k + 1) - 1) as nat == (k - 1) as nat + 1);
        assert(counts(g, p, x) && is_below(g, r, p, ((k + 1) - 1) as nat));
    }
}

proof fn lemma_same_way(g: GraphView, a: FileRef, b: FileRef, x: FileRef, k: nat)
    requires
        is_tree(g.children, g.root),
        is_below(g, a, x, k),
        is_below(g, b, x, k),
    ensures
        a == b,
    decreases k,
{
    if k > 0 {
        let p = choose|p: FileRef| #[trigger] counts(g, p, x) && is_below(g, a, p, (k - 1) as nat);
        let q = choose|q: FileRef| #[trigger] counts(g, q, x) && is_below(g, b, q, (k - 1) as nat);
        assert(p == q);
        lemma_same_way(g, a, b, p, (k - 1) as nat);
    }
}

/// Nothing is in the subtrees of two directories at the same depth.
proof fn lemma_subtrees_apart(g: GraphView, d: nat, a: FileRef, b: FileRef, x: FileRef)
    requires
        is_tree(g.children, g.root),
        descends(g.children, g.root, a, d),
        descends(g.children, g.root, b, d),
        is_in_subtree(g, a, x),
        is_in_subtree(g, b, x),
    ensures
        a == b,
{
    let i = choose|i: nat| is_below(g, a, x, i);
    let j = choose|j: nat| is_below(g, b, x, j);
    lemma_below_depth(g, a, d, x, i);
    lemma_below_depth(g, b, d, x, j);
    lemma_depth_unique(g, x, d + i, d + j);
    lemma_same_way(g, a, b, x, i);
}

// ---------------------------------------------------------------------------
// Lemmas: picking
// ---------------------------------------------------------------------------

/// Those items of the list that are in the subtree of `c`.
spec fn pick(g: GraphView, c: FileRef, list: Seq<FileRef>) -> Seq<FileRef>
    decreases list.len(),
{
    if list.len() == 0 {
        Seq::empty()
    } else {
        let before = pick(g, c, list.drop_last());
        if is_in_subtree(g, c, list.last()) {
            before.push(list.last())
        } else {
            before
        }
    }
}

proof fn lemma_pick(g: GraphView, c: FileRef, list: Seq<FileRef>)
    requires
        list.no_duplicates(),
    ensures
        pick(g, c, list).no_duplicates(),
        pick(g, c, list).len() <= list.len(),
        forall|x: FileRef| #[trigger]
            pick(g, c, list).contains(x) <==> list.contains(x) && is_in_subtree(g, c, x),
        (exists|x: FileRef| list.contains(x) && !is_in_subtree(g, c, x)) ==> pick(g, c, list).len()
            < list.len(),
    decreases list.len(),
{
    if list.len() > 0 {
        let rest = list.drop_last();
        let last = list.last();
        let before = pick(g, c, rest);
        let now = pick(g, c, list);
        lemma_pick(g, c, rest);
        assert forall|x: FileRef| #[trigger] list.contains(x) <==> rest.contains(x) || x == last by {
            if list.contains(x) {
                let i = choose|i: int| 0 <= i < list.len() && list[i] == x;
                if i < rest.len() {
                    assert(rest[i] == x);
                }
            }
            if rest.contains(x) {
                let i = choose|i: int| 0 <= i < rest.len() && rest[i] == x;
                assert(list[i] == x);
            }
            assert(list[list.len() - 1] == last);
        }
        assert(!rest.contains(last)) by {
            if rest.contains(last) {
                let i = choose|i: int| 0 <= i < rest.len() && rest[i] == last;
                assert(list[i] == list[list.len() - 1]);
            }
        }
        assert forall|x: FileRef| #[trigger] now.contains(x) <==> before.contains(x) || (x == last
            && is_in_subtree(g, c, last)) by {
            if is_in_subtree(g, c, last) {
                lemma_pushed(before, last, x);
            }
        }
        if is_in_subtree(g, c, last) {
            assert(!before.contains(last));
            assert forall|i: int, j: int| 0 <= i < now.len() && 0 <= j < now.len() && i
                != j implies now[i] != now[j] by {
                if i < before.len() {
                    assert(before.contains(before[i]));
                }
                if j < before.len() {
                    assert(before.contains(before[j]));
                }
            }
        }
        if exists|x: FileRef| list.contains(x) && !is_in_subtree(g, c, x) {
            let x = choose|x: FileRef| list.contains(x) && !is_in_subtree(g, c, x);
            if x != last {
                assert(rest.contains(x) && !is_in_subtree(g, c, x));
            }
        }
    }
}

proof fn lemma_pushed(s: Seq<FileRef>, x: FileRef, y: FileRef)
    ensures
        s.push(x).contains(y) <==> s.contains(y) || y == x,
{
    let t = s.push(x);
    if t.contains(y) {
        let i = choose|i: int| 0 <= i < t.len() && t[i] == y;
        if i < s.len() {
            assert(s[i] == y);
        }
    }
    if s.contains(y) {
        let i = choose|i: int| 0 <= i < s.len() && s[i] == y;
        assert(t[i] == y);
    }
    assert(t[s.len() as int] == x);
}

proof fn lemma_total_join(a: Seq<FileRef>, b: Seq<FileRef>, worth: spec_fn(FileRef) -> nat)
    ensures
        total(a + b, worth) == total(a, worth) + total(b, worth),
    decreases b.len(),
{
    if b.len() == 0 {
        assert(a + b =~= a);
    } else {
        lemma_total_join(a, b.drop_last(), worth);
        assert((a + b).drop_last() =~= a + b.drop_last());
        assert((a + b).last() == b.last());
    }
}

proof fn lemma_joined(a: Seq<FileRef>, b: Seq<FileRef>)
    requires
        a.no_duplicates(),
        b.no_duplicates(),
        forall|x: FileRef| a.contains(x) ==> !#[trigger] b.contains(x),
    ensures
        (a + b).no_duplicates(),
        forall|x: FileRef| #[trigger] (a + b).contains(x) <==> a.contains(x) || b.contains(x),
{
    let t = a + b;
    assert forall|i: int, j: int| 0 <= i < t.len() && 0 <= j < t.len() && i != j implies t[i]
        != t[j] by {
        if i < a.len() && j >= a.len() {
            assert(a.contains(a[i]));
            assert(b.contains(b[j - a.len()]));
        } else if j < a.len() && i >= a.len() {
            assert(a.contains(a[j]));
            assert(b.contains(b[i - a.len()]));
        }
    }
    assert forall|x: FileRef| #[trigger] t.contains(x) <==> a.contains(x) || b.contains(x) by {
        if t.contains(x) {
            let i = choose|i: int| 0 <= i < t.len() && t[i] == x;
            if i < a.len() {
                assert(a[i] == x);
            } else {
                assert(b[i - a.len()] == x);
            }
        }
        if a.contains(x) {
            let i = choose|i: int| 0 <= i < a.len() && a[i] == x;
            assert(t[i] == x);
        }
        if b.contains(x) {
            let i = choose|i: int| 0 <= i < b.len() && b[i] == x;
            assert(t[a.len() + i] == x);
        }
    }
}

// ---------------------------------------------------------------------------
// Lemmas: summing up
// ---------------------------------------------------------------------------

/// Every directory of the tree shows what it has by itself and from those it lists.
pub open spec fn adds_up(g: GraphView) -> bool {
    forall|n: FileRef| #[trigger]
        reachable(g.children, g.root, n) ==> shown_totals(g.nodes[n]) == shown_subtotal(
            g,
            n,
            kids_of(g.children, n).len(),
        )
}

/// The directory itself, and those of the list in the subtrees of its first `i` kids.
spec fn gathered(g: GraphView, r: FileRef, list: Seq<FileRef>, i: nat) -> Seq<FileRef>
    decreases i,
{
    if i == 0 {
        seq![r]
    } else {
        let k = kids_of(g.children, r)[i - 1];
        if counts(g, r, k) {
            gathered(g, r, list, (i - 1) as nat) + pick(g, k, list)
        } else {
            gathered(g, r, list, (i - 1) as nat)
        }
    }
}

/// The totals of a list of directories.
spec fn list_totals(g: GraphView, list: Seq<FileRef>) -> Totals {
    Totals {
        size: capped(total(list, sizes_in(g))),
        files: capped(total(list, files_in(g))),
        dirs: capped(list.len()),
    }
}

/// One of the first `i` kids has `x` in its subtree.
spec fn is_gathered(g: GraphView, r: FileRef, i: nat, x: FileRef) -> bool {
    x == r || exists|j: int|
        0 <= j < i && counts(g, r, #[trigger] kids_of(g.children, r)[j]) && is_in_subtree(
            g,
            kids_of(g.children, r)[j],
            x,
        )
}

proof fn lemma_gathered(g: GraphView, d: nat, r: FileRef, list: Seq<FileRef>, i: nat)
    requires
        is_tree(g.children, g.root),
        adds_up(g),
        descends(g.children, g.root, r, d),
        is_subtree(g, r, list),
        i <= kids_of(g.children, r).len(),
    ensures
        gathered(g, r, list, i).no_duplicates(),
        forall|x: FileRef| #[trigger]
            gathered(g, r, list, i).contains(x) <==> is_gathered(g, r, i, x),
        shown_subtotal(g, r, i) == list_totals(g, gathered(g, r, list, i)),
    decreases list.len(), i,
{
    let kids = kids_of(g.children, r);
    if i == 0 {
        assert forall|x: FileRef| #[trigger] seq![r].contains(x) <==> x == r by {
            assert(seq![r][0] == r);
        }
        assert(total(seq![r].drop_last(), sizes_in(g)) == 0);
        assert(total(seq![r].drop_last(), files_in(g)) == 0);
    } else {
        let m = (i - 1) as nat;
        let k = kids[m as int];
        let before = gathered(g, r, list, m);
        lemma_gathered(g, d, r, list, m);
        assert(kids.contains(k));
        assert(descends(g.children, g.root, k, d + 1)) by {
            assert(((d + 1) - 1) as nat == d);
            assert(kids_of(g.children, r).contains(k));
        }
        if counts(g, r, k) {
            let sub = pick(g, k, list);
            lemma_kid_list(g, d, r, list, k);
            lemma_family(g, d + 1, k, sub);
            assert forall|x: FileRef| before.contains(x) implies !#[trigger] sub.contains(x) by {
                if sub.contains(x) {
                    assert(is_gathered(g, r, m, x));
                    if x != r {
                        let j = choose|j: int|
                            0 <= j < m && counts(g, r, #[trigger] kids[j]) && is_in_subtree(
                                g,
                                kids[j],
                                x,
                            );
                        assert(descends(g.children, g.root, kids[j], d + 1)) by {
                            assert(kids_of(g.children, r).contains(kids[j]));
                            assert(((d + 1) - 1) as nat == d);
                        }
                        lemma_subtrees_apart(g, d + 1, kids[j], k, x);
                        assert(kids[j] == kids[m as int]);
                    }
                }
            }
            lemma_joined(before, sub);
            lemma_total_join(before, sub, sizes_in(g));
            lemma_total_join(before, sub, files_in(g));
            assert forall|x: FileRef| #[trigger] gathered(g, r, list, i).contains(x)
                <==> is_gathered(g, r, i, x) by {
                assert(gathered(g, r, list, i).contains(x) <==> before.contains(x) || sub.contains(
                    x,
                ));
                lemma_one_more(g, r, m, x);
                if is_in_subtree(g, k, x) {
                    lemma_kid_in(g, r, k, x);
                }
            }
        } else {
            assert forall|x: FileRef| #[trigger] gathered(g, r, list, i).contains(x)
                <==> is_gathered(g, r, i, x) by {
                lemma_one_more(g, r, m, x);
            }
            assert(!(g.nodes[r].excluded || !g.nodes[k].excluded));
        }
    }
}

proof fn lemma_one_more(g: GraphView, r: FileRef, m: nat, x: FileRef)
    requires
        m < kids_of(g.children, r).len(),
    ensures
        is_gathered(g, r, m + 1, x) <==> is_gathered(g, r, m, x) || (counts(
            g,
            r,
            kids_of(g.children, r)[m as int],
        ) && is_in_subtree(g, kids_of(g.children, r)[m as int], x)),
{
    let kids = kids_of(g.children, r);
    if is_gathered(g, r, m + 1, x) && x != r {
        let j = choose|j: int|
            0 <= j < m + 1 && counts(g, r, #[trigger] kids[j]) && is_in_subtree(g, kids[j], x);
        if j < m {
            assert(counts(g, r, kids[j]));
        }
    }
    if is_gathered(g, r, m, x) && x != r {
        let j = choose|j: int|
            0 <= j < m && counts(g, r, #[trigger] kids[j]) && is_in_subtree(g, kids[j], x);
        assert(counts(g, r, kids[j]));
    }
}

proof fn lemma_kid_in(g: GraphView, r: FileRef, k: FileRef, x: FileRef)
    requires
        counts(g, r, k),
        is_in_subtree(g, k, x),
    ensures
        is_in_subtree(g, r, x),
{
    let j = choose|j: nat| is_below(g, k, x, j);
    lemma_step_down(g, r, k, x, j);
}

/// The part of the list that is in the subtree of a kid.
proof fn lemma_kid_list(g: GraphView, d: nat, r: FileRef, list: Seq<FileRef>, k: FileRef)
    requires
        is_tree(g.children, g.root),
        descends(g.children, g.root, r, d),
        descends(g.children, g.root, k, d + 1),
        is_subtree(g, r, list),
        counts(g, r, k),
    ensures
        is_subtree(g, k, pick(g, k, list)),
        pick(g, k, list).len() < list.len(),
        !pick(g, k, list).contains(r),
{
    lemma_pick(g, k, list);
    let sub = pick(g, k, list);
    assert forall|x: FileRef| #[trigger] sub.contains(x) <==> is_in_subtree(g, k, x) by {
        if is_in_subtree(g, k, x) {
            lemma_kid_in(g, r, k, x);
        }
    }
    assert(is_below(g, r, r, 0));
    assert(list.contains(r));
    if is_in_subtree(g, k, r) {
        let j = choose|j: nat| is_below(g, k, r, j);
        lemma_below_depth(g, k, d + 1, r, j);
        lemma_depth_unique(g, r, d, d + 1 + j);
    }
}

proof fn lemma_family(g: GraphView, d: nat, r: FileRef, list: Seq<FileRef>)
    requires
        is_tree(g.children, g.root),
        adds_up(g),
        descends(g.children, g.root, r, d),
        is_subtree(g, r, list),
    ensures
        shown_totals(g.nodes[r]) == list_totals(g, list),
    decreases list.len(), kids_of(g.children, r).len() + 1,
{
    let kids = kids_of(g.children, r);
    let all = gathered(g, r, list, kids.len());
    lemma_gathered(g, d, r, list, kids.len());
    assert forall|x: FileRef| #[trigger] all.contains(x) <==> list.contains(x) by {
        if is_gathered(g, r, kids.len(), x) {
            if x == r {
                assert(is_below(g, r, r, 0));
            } else {
                let j = choose|j: int|
                    0 <= j < kids.len() && counts(g, r, #[trigger] kids[j]) && is_in_subtree(
                        g,
                        kids[j],
                        x,
                    );
                lemma_kid_in(g, r, kids[j], x);
            }
        }
        if is_in_subtree(g, r, x) && x != r {
            let n = choose|n: nat| is_below(g, r, x, n);
            lemma_first_step(g, r, x, n);
            let c = choose|c: FileRef| #[trigger]
                counts(g, r, c) && is_below(g, c, x, (n - 1) as nat);
            let j = choose|j: int| 0 <= j < kids.len() && kids[j] == c;
            assert(counts(g, r, kids[j]) && is_in_subtree(g, kids[j], x));
        }
    }
    lemma_same_total(all, list, sizes_in(g));
    lemma_same_total(all, list, files_in(g));
    assert(reachable(g.children, g.root, r));
}

// ---------------------------------------------------------------------------
// Laws
// ---------------------------------------------------------------------------

/// Where every directory shows what it has by itself and from those it lists, it
/// shows the size and the number of all files in its subtree, and the number of
/// directories in it, itself included.
pub proof fn law_subtree_is_counted(g: GraphView, r: FileRef, list: Seq<FileRef>)
    requires
        is_tree(g.children, g.root),
        adds_up(g),
        reachable(g.children, g.root, r),
        is_subtree(g, r, list),
    ensures
        g.nodes[r].subtree_size_bytes == capped(total(list, sizes_in(g))),
        g.nodes[r].subtree_file_count == capped(total(list, files_in(g))),
        g.nodes[r].subtree_dir_count == capped(list.len()),
{
    let d = choose|d: nat| descends(g.children, g.root, r, d);
    lemma_family(g, d, r, list);
}

/// What the scan of a volume shows of a directory: the node in the tree has the size
/// and the number of all files in the subtree, and the number of directories in it,
/// itself included; excluded directories count only inside what is excluded itself.
pub proof fn law_scanned_directory_shows_its_subtree(
    recs: Map<u64, MftRecordView>,
    excluded_paths: Seq<Seq<char>>,
    drive: char,
    env: EnvVarsView,
    cfg: ConfigView,
    migs: Seq<MigrationView>,
    facts: Map<FileRef, NodeFacts>,
    s: TreeStoreView,
    r: FileRef,
    list: Seq<FileRef>,
)
    requires
        filed_by_number(recs),
        in_tree(recs, r),
        ({
            let g = graph_of(recs, excluded_paths, drive, env);
            let h = annotated(g, cfg, migs, env, facts);
            &&& is_subtree(g, r, list)
            &&& shows(h, s)
            &&& keys_apart(h)
            &&& is_shown(h, r)
        }),
    ensures
        ({
            let g = graph_of(recs, excluded_paths, drive, env);
            let h = annotated(g, cfg, migs, env, facts);
            let node = s.nodes[key_of(h, r)];
            &&& s.nodes.contains_key(key_of(h, r))
            &&& node.size_bytes == capped(total(list, sizes_in(g)))
            &&& node.file_count == capped(total(list, files_in(g)))
            &&& node.dir_count == capped(list.len())
        }),
{
    let g = graph_of(recs, excluded_paths, drive, env);
    let h = annotated(g, cfg, migs, env, facts);
    lemma_volume(recs, excluded_paths, drive, env, r);
    law_subtree_is_counted(g, r, list);
    lemma_node_shown(h, s, r);
}

pub proof fn lemma_volume(
    recs: Map<u64, MftRecordView>,
    excluded_paths: Seq<Seq<char>>,
    drive: char,
    env: EnvVarsView,
    r: FileRef,
)
    requires
        filed_by_number(recs),
        in_tree(recs, r),
    ensures
        ({
            let g = graph_of(recs, excluded_paths, drive, env);
            is_tree(g.children, g.root) && adds_up(g) && reachable(g.children, g.root, r)
        }),
{
    let g = graph_of(recs, excluded_paths, drive, env);
    law_directories_form_a_tree(recs, drive);
    lemma_rooted(recs, r);
    lemma_reach_iff(recs, drive, r);
    assert forall|n: FileRef| #[trigger] reachable(g.children, g.root, n) implies shown_totals(
        g.nodes[n],
    ) == shown_subtotal(g, n, kids_of(g.children, n).len()) by {
        lemma_reach_iff(recs, drive, n);
        law_volume_totals_add_up(recs, excluded_paths, drive, env, n);
    }
}

/// Where something hangs in the tree, there is a root directory.
proof fn lemma_rooted(recs: Map<u64, MftRecordView>, r: FileRef)
    requires
        in_tree(recs, r),
    ensures
        tree_root(recs) is Some,
        is_dir_ref(recs, tree_root(recs)->0),
{
    let k = choose|k: nat| at_level(recs, tree_root(recs)->0, r, k);
    lemma_rooted_at(recs, tree_root(recs)->0, r, k);
}

proof fn lemma_rooted_at(recs: Map<u64, MftRecordView>, root: FileRef, r: FileRef, k: nat)
    requires
        at_level(recs, root, r, k),
    ensures
        is_dir_ref(recs, root),
    decreases k,
{
    if k > 0 {
        lemma_rooted_at(recs, root, link_of(recs, r)->0.parent, (k - 1) as nat);
    }
}

/// The node that stands for a directory is its own.
pub proof fn lemma_node_shown(h: GraphView, s: TreeStoreView, r: FileRef)
    requires
        shows(h, s),
        keys_apart(h),
        is_shown(h, r),
    ensures
        s.nodes.contains_key(key_of(h, r)),
        s.nodes[key_of(h, r)].size_bytes == h.nodes[r].subtree_size_bytes,
        s.nodes[key_of(h, r)].file_count == h.nodes[r].subtree_file_count,
        s.nodes[key_of(h, r)].dir_count == h.nodes[r].subtree_dir_count,
{
    let k = key_of(h, r);
    assert(s.nodes.contains_key(k));
    let x = choose|x: FileRef| #[trigger]
        is_shown(h, x) && key_of(h, x) == k && s.nodes[k] == shown_node(
            h.nodes[x],
            low32(listed(s, k).len()),
            filtered_count(h, x),
        );
    assert(x == r);
}

} // verus!
