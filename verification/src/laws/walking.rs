//! Walking a drive: what a listing makes of a directory, and what the directories of
//! a walk are shown with.

use crate::copy_tree::{visit_kind, Visit};
use crate::explore::{capped, total};
use crate::laws::totals::{files_in, is_subtree, law_subtree_is_counted, lemma_node_shown, sizes_in};
use crate::mft::FileRef;
use crate::models::{AccessState, ConfigView, MigrationView};
use crate::paths::{joined, normalized, EnvVarsView};
use crate::scanner::aggregate::{aggregated, shown_subtotal, shown_totals};
use crate::scanner::annotate::{annotated, NodeFacts};
use crate::scanner::fs::{
    after_observations, file_sizes, is_walk, kid_item, kid_items, law_walk_totals_add_up,
    law_walked_directories_form_a_tree, lemma_sorted_tree, listed_dirs, listed_errors, listed_files,
    names_sorted, observed, observed_node, scan_start, FsEntryError, FsEntryResult,
    ObservationView, WorkItemView,
};
use crate::scanner::graph::{kids_of, GraphView};
use crate::scanner::materialize::{is_shown, key_of, keys_apart, shows};
use crate::scanner::tree::TreeStoreView;
use crate::scanner::walk::reachable;
use vstd::prelude::*;
use vstd::string::*;

verus! {

// ---------------------------------------------------------------------------
// One listing
// ---------------------------------------------------------------------------

/// The entry is a file.
pub open spec fn is_file(e: FsEntryResult) -> bool {
    e matches Ok(entry) && !entry.is_dir
}

/// The entry is a directory.
pub open spec fn is_dir(e: FsEntryResult) -> bool {
    e matches Ok(entry) && entry.is_dir
}

/// One for each entry of the kind.
pub open spec fn one_for(kind: spec_fn(FsEntryResult) -> bool) -> spec_fn(FsEntryResult) -> nat {
    |e: FsEntryResult|
        if kind(e) {
            1nat
        } else {
            0nat
        }
}

/// The size of a file; nothing for anything else.
pub open spec fn size_of_file() -> spec_fn(FsEntryResult) -> nat {
    |e: FsEntryResult|
        if is_file(e) {
            e->Ok_0.file_size as nat
        } else {
            0
        }
}

proof fn lemma_listed(entries: Seq<FsEntryResult>, n: nat)
    requires
        n <= entries.len(),
    ensures
        listed_files(entries, n).len() == total(
            entries.take(n as int),
            one_for(|e: FsEntryResult| is_file(e)),
        ),
        listed_dirs(entries, n).len() == total(
            entries.take(n as int),
            one_for(|e: FsEntryResult| is_dir(e)),
        ),
        listed_errors(entries, n).len() == total(
            entries.take(n as int),
            one_for(|e: FsEntryResult| e is Err),
        ),
        file_sizes(listed_files(entries, n), listed_files(entries, n).len()) == capped(
            total(entries.take(n as int), size_of_file()),
        ),
        listed_files(entries, n).len() <= n,
        listed_dirs(entries, n).len() <= n,
        listed_errors(entries, n).len() <= n,
    decreases n,
{
    if n > 0 {
        let m = (n - 1) as nat;
        lemma_listed(entries, m);
        let now = entries.take(n as int);
        assert(now.drop_last() =~= entries.take(m as int));
        assert(now.last() == entries[m as int]);
        let before = listed_files(entries, m);
        let files = listed_files(entries, n);
        if is_file(entries[m as int]) {
            lemma_sizes_prefix(
                before,
                (entries[m as int]->Ok_0.name@, entries[m as int]->Ok_0.file_size),
                before.len(),
            );
        }
    }
}

proof fn lemma_sizes_prefix(s: Seq<(Seq<char>, u64)>, x: (Seq<char>, u64), n: nat)
    requires
        n <= s.len(),
    ensures
        file_sizes(s.push(x), n) == file_sizes(s, n),
    decreases n,
{
    if n > 0 {
        lemma_sizes_prefix(s, x, (n - 1) as nat);
    }
}

/// A directory that could be listed holds the files that the listing names, with their
/// sizes, and the directories that it names; entries that cannot be read are counted.
pub proof fn law_listing_makes_the_directory(item: WorkItemView, entries: Vec<FsEntryResult>)
    requires
        entries@.len() <= u32::MAX,
    ensures
        ({
            let obs = observed(item, Ok(entries));
            let node = observed_node(obs);
            &&& node.path == item.display_path
            &&& node.display_name == item.display_name
            &&& node.depth == item.depth
            &&& node.reparse_tag is None
            &&& node.access_state == AccessState::Unknown
            &&& !node.excluded
            &&& !node.visible
            &&& node.reachable_from_root
            &&& node.matched_preset is None
            &&& node.scan_status is None
            &&& !node.auto_migrate
            &&& !node.is_junction
            &&& node.direct_file_count == total(
                entries@,
                one_for(|e: FsEntryResult| is_file(e)),
            )
            &&& node.direct_file_size_bytes == capped(total(entries@, size_of_file()))
            &&& node.direct_dir_count == total(entries@, one_for(|e: FsEntryResult| is_dir(e)))
            &&& obs.entry_errors.len() == total(entries@, one_for(|e: FsEntryResult| e is Err))
            &&& kid_items(obs).len() == total(entries@, one_for(|e: FsEntryResult| is_dir(e)))
        }),
{
    lemma_listed(entries@, entries@.len());
    assert(entries@.take(entries@.len() as int) =~= entries@);
}

/// `x` is the work that the directory entry `e` of the directory `item` makes.
pub open spec fn is_work_for(item: WorkItemView, e: FsEntryResult, x: WorkItemView) -> bool {
    &&& is_dir(e)
    &&& x.display_path == joined(item.display_path, e->Ok_0.name@)
    &&& x.norm_path == normalized(joined(item.display_path, e->Ok_0.name@))
    &&& x.parent_norm_path == Some(item.norm_path)
    &&& x.display_name == e->Ok_0.name@
    &&& x.reparse_tag == e->Ok_0.reparse_tag
    &&& x.depth == if item.depth == u32::MAX {
        item.depth as int
    } else {
        item.depth + 1
    }
}

proof fn lemma_dirs(entries: Seq<FsEntryResult>, n: nat, d: (Seq<char>, Option<u32>))
    requires
        n <= entries.len(),
    ensures
        listed_dirs(entries, n).contains(d) <==> exists|i: int|
            0 <= i < n && is_dir(#[trigger] entries[i]) && d == (
                entries[i]->Ok_0.name@,
                entries[i]->Ok_0.reparse_tag,
            ),
    decreases n,
{
    if n > 0 {
        let m = (n - 1) as nat;
        lemma_dirs(entries, m, d);
        let before = listed_dirs(entries, m);
        let now = listed_dirs(entries, n);
        if now.contains(d) {
            let k = choose|k: int| 0 <= k < now.len() && now[k] == d;
            if k < before.len() {
                assert(before[k] == d);
                assert(before.contains(d));
                let i = choose|i: int|
                    0 <= i < m && is_dir(#[trigger] entries[i]) && d == (
                        entries[i]->Ok_0.name@,
                        entries[i]->Ok_0.reparse_tag,
                    );
                assert(is_dir(entries[i]));
            } else {
                assert(is_dir(entries[m as int]));
            }
        }
        if exists|i: int|
            0 <= i < n && is_dir(#[trigger] entries[i]) && d == (
                entries[i]->Ok_0.name@,
                entries[i]->Ok_0.reparse_tag,
            ) {
            let i = choose|i: int|
                0 <= i < n && is_dir(#[trigger] entries[i]) && d == (
                    entries[i]->Ok_0.name@,
                    entries[i]->Ok_0.reparse_tag,
                );
            if i < m {
                assert(before.contains(d));
                let k = choose|k: int| 0 <= k < before.len() && before[k] == d;
                assert(now[k] == d);
            } else {
                assert(now[before.len() as int] == d);
            }
        }
    }
}

/// Every directory that a listing names is to be looked into, with its path below the
/// one that was listed, and nothing else is.
pub proof fn law_listed_directories_are_walked(
    item: WorkItemView,
    entries: Vec<FsEntryResult>,
    x: WorkItemView,
)
    ensures
        kid_items(observed(item, Ok(entries))).contains(x) <==> exists|i: int|
            0 <= i < entries@.len() && is_work_for(item, #[trigger] entries@[i], x),
{
    let obs = observed(item, Ok(entries));
    let kids = kid_items(obs);
    let all = entries@;
    if kids.contains(x) {
        let k = choose|k: int| 0 <= k < kids.len() && kids[k] == x;
        let d = obs.direct_dirs[k];
        assert(x == kid_item(obs, d));
        assert(listed_dirs(all, all.len()).contains(d));
        lemma_dirs(all, all.len(), d);
        let i = choose|i: int|
            0 <= i < all.len() && is_dir(#[trigger] all[i]) && d == (
                all[i]->Ok_0.name@,
                all[i]->Ok_0.reparse_tag,
            );
        assert(is_work_for(item, all[i], x));
    }
    if exists|i: int| 0 <= i < all.len() && is_work_for(item, #[trigger] all[i], x) {
        let i = choose|i: int| 0 <= i < all.len() && is_work_for(item, #[trigger] all[i], x);
        let d = (all[i]->Ok_0.name@, all[i]->Ok_0.reparse_tag);
        lemma_dirs(all, all.len(), d);
        assert(is_dir(all[i]));
        let k = choose|k: int|
            0 <= k < obs.direct_dirs.len() && obs.direct_dirs[k] == d;
        assert(kids[k] == kid_item(obs, d));
        assert(kids[k] == x);
    }
}

/// A directory that may not be read is marked so; one that cannot be read for another
/// reason counts as one error. Neither leads any further or counts any file.
pub proof fn law_unreadable_directories_are_marked(item: WorkItemView, e: FsEntryError)
    ensures
        ({
            let obs = observed(item, Err(e));
            let node = observed_node(obs);
            &&& node.access_state == if e is AccessDenied {
                AccessState::Inaccessible
            } else {
                AccessState::Unknown
            }
            &&& obs.entry_errors.len() == if e is AccessDenied {
                0int
            } else {
                1
            }
            &&& kid_items(obs).len() == 0
            &&& node.direct_file_count == 0
            &&& node.direct_file_size_bytes == 0
            &&& node.path == item.display_path
        }),
{
}

/// A walk begins at the root directory of the drive and nowhere else.
pub proof fn law_walk_begins_at_the_root(drive: char)
    ensures
        ({
            let s = scan_start(drive);
            &&& s.pending.len() == 1
            &&& s.pending[0].display_path == seq![drive, ':', '\\']
            &&& s.pending[0].norm_path == normalized(seq![drive, ':', '\\'])
            &&& s.pending[0].display_name == seq![drive]
            &&& s.pending[0].parent_norm_path is None
            &&& s.pending[0].depth == 0
            &&& s.pending[0].reparse_tag is None
            &&& s.scanned_files == 0
            &&& s.entry_errors == 0
        }),
{
}

// ---------------------------------------------------------------------------
// Totals
// ---------------------------------------------------------------------------

/// What the walk over a drive shows of a directory: the node in the tree has the size
/// and the number of all files in the subtree, and the number of directories in it,
/// itself included; excluded directories count only inside what is excluded itself.
pub proof fn law_walked_directory_shows_its_subtree(
    drive: char,
    seen: Seq<ObservationView>,
    n: nat,
    children: Map<FileRef, Seq<FileRef>>,
    excl: Seq<Seq<char>>,
    cfg: ConfigView,
    migs: Seq<MigrationView>,
    env: EnvVarsView,
    facts: Map<FileRef, NodeFacts>,
    s: TreeStoreView,
    r: FileRef,
    list: Seq<FileRef>,
)
    requires
        is_walk(seen, n),
        names_sorted(after_observations(drive, seen, n).graph, children),
        ({
            let g = aggregated(
                GraphView { children, ..after_observations(drive, seen, n).graph },
                excl,
            );
            let h = annotated(g, cfg, migs, env, facts);
            &&& reachable(children, g.root, r)
            &&& is_subtree(g, r, list)
            &&& shows(h, s)
            &&& keys_apart(h)
            &&& is_shown(h, r)
        }),
    ensures
        ({
            let g = aggregated(
                GraphView { children, ..after_observations(drive, seen, n).graph },
                excl,
            );
            let h = annotated(g, cfg, migs, env, facts);
            let node = s.nodes[key_of(h, r)];
            &&& s.nodes.contains_key(key_of(h, r))
            &&& node.size_bytes == capped(total(list, sizes_in(g)))
            &&& node.file_count == capped(total(list, files_in(g)))
            &&& node.dir_count == capped(list.len())
        }),
{
    let plain = after_observations(drive, seen, n).graph;
    let g = aggregated(GraphView { children, ..plain }, excl);
    let h = annotated(g, cfg, migs, env, facts);
    law_walked_directories_form_a_tree(drive, seen, n);
    lemma_sorted_tree(plain, children);
    assert forall|x: FileRef| #[trigger] reachable(g.children, g.root, x) implies shown_totals(
        g.nodes[x],
    ) == shown_subtotal(g, x, kids_of(g.children, x).len()) by {
        law_walk_totals_add_up(drive, seen, n, children, excl, x);
    }
    law_subtree_is_counted(g, r, list);
    lemma_node_shown(h, s, r);
}

// ---------------------------------------------------------------------------
// What a copy does with a path
// ---------------------------------------------------------------------------

/// What is gone is skipped; a link below the root is not followed, whatever it leads
/// to; a directory is entered, and so is the root even where it is a link; everything
/// else is copied.
pub proof fn law_links_below_the_root_are_not_followed(
    rel: Seq<char>,
    exists: bool,
    reparse: bool,
    is_dir: bool,
)
    ensures
        visit_kind(rel, exists, reparse, is_dir) == Visit::Skip <==> !exists,
        visit_kind(rel, exists, reparse, is_dir) == Visit::Placeholder <==> exists && reparse
            && rel.len() > 0,
        visit_kind(rel, exists, reparse, is_dir) == Visit::Directory <==> exists && is_dir && !(
        reparse && rel.len() > 0),
        visit_kind(rel, exists, reparse, is_dir) == Visit::File <==> exists && !is_dir && !(reparse
            && rel.len() > 0),
{
}

} // verus!
