//! The manifest of a tree that nobody changes, and how it compares with a copy.

use crate::copy_tree::{
    at_most, child_path, child_paths, closes, entry_of, listed_path, manifest_begun, place_below,
    spot_taken, spots_in, visit_kind, with_entry, with_failed, with_listed, CopyTallyView,
    ManifestScanView, Visit,
};
use crate::error::AppError;
use crate::explore::{
    is_exploring, is_reached, lemma_exploring_ends, lemma_exploring_goes_on,
    lemma_exploring_starts,
};
use crate::file_ops::{CopyOutcome, ManifestEntryView};
use crate::fixed_tree::{
    is_holder, is_name, is_path, is_plain, lemma_paths_apart, paths_in, Thing, Tree,
};
use crate::laws::keeping::{has_entry, paths_apart};
use crate::text::replace_char;
use vstd::prelude::*;

verus! {

/// The time and the attributes of what lies at a path.
pub type Details = spec_fn(Seq<char>) -> (i64, u32);

/// The manifest after the next path was visited.
pub open spec fn list_next(tree: Tree, details: Details, s: ManifestScanView) -> ManifestScanView {
    let (rel, place) = s.stack.last();
    let (mtime, attrs) = details(place);
    let rest = spot_taken(s);
    match tree(place) {
        Thing::Nothing => rest,
        Thing::Link => with_entry(rest, entry_of(rel, true, 0, 0, 0)),
        Thing::Directory(names) => with_listed(rest, rel, place, mtime, attrs, names),
        Thing::File(bytes) => with_entry(
            rest,
            entry_of(rel, false, bytes.len() as u64, mtime, attrs),
        ),
    }
}

/// The manifest after `n` paths were visited, or after all of them.
pub open spec fn manifest(tree: Tree, details: Details, n: nat) -> ManifestScanView
    decreases n,
{
    if n == 0 {
        manifest_begun()
    } else {
        let before = manifest(tree, details, (n - 1) as nat);
        if before.stack.len() == 0 {
            before
        } else {
            list_next(tree, details, before)
        }
    }
}

/// The paths of the spots.
spec fn rels(stack: Seq<(Seq<char>, Seq<char>)>) -> Seq<Seq<char>> {
    Seq::new(stack.len(), |i: int| stack[i].0)
}

/// Each spot is found where its path says.
spec fn is_straight(stack: Seq<(Seq<char>, Seq<char>)>) -> bool {
    forall|i: int| 0 <= i < stack.len() ==> (#[trigger] stack[i]).0 == stack[i].1
}

/// The paths that were visited so far.
spec fn visited(tree: Tree, details: Details, n: nat) -> Seq<Seq<char>>
    decreases n,
{
    if n == 0 {
        Seq::empty()
    } else {
        let before = manifest(tree, details, (n - 1) as nat);
        if before.stack.len() == 0 {
            visited(tree, details, (n - 1) as nat)
        } else {
            visited(tree, details, (n - 1) as nat).push(before.stack.last().0)
        }
    }
}

/// What lies at the path is of the kind and has the size.
pub open spec fn is_thing(tree: Tree, path: Seq<char>, is_dir: bool, size: u64) -> bool {
    if is_dir {
        is_holder(tree, path) && size == 0
    } else {
        tree(path) matches Thing::File(bytes) && size == bytes.len()
    }
}

/// The manifest holds what was visited.
spec fn accounts_for(tree: Tree, s: ManifestScanView, done: Seq<Seq<char>>) -> bool {
    &&& paths_apart(s.entries)
    &&& forall|i: int| 0 <= i < s.entries.len() ==> done.contains((#[trigger] s.entries[i]).rel_path)
    &&& forall|path: Seq<char>, is_dir: bool, size: u64| #[trigger]
        has_entry(s.entries, path, is_dir, size) <==> done.contains(path) && is_thing(
            tree,
            path,
            is_dir,
            size,
        )
}

proof fn lemma_straight_names(rel: Seq<char>, name: Seq<char>)
    requires
        is_name(name),
    ensures
        listed_path(rel, name) == child_path(rel, name),
        place_below(rel, name) == child_path(rel, name),
{
    assert(replace_char(name, '\\', '/') =~= name) by {
        assert forall|i: int| 0 <= i < name.len() implies #[trigger] name[i] != '\\' by {
            assert(name.contains(name[i]));
        }
    }
}

proof fn lemma_straight_spots(rel: Seq<char>, names: Seq<Seq<char>>)
    requires
        forall|i: int| 0 <= i < names.len() ==> is_name(#[trigger] names[i]),
    ensures
        rels(spots_in(rel, rel, names)) == child_paths(rel, names),
        is_straight(spots_in(rel, rel, names)),
{
    let spots = spots_in(rel, rel, names);
    assert forall|i: int| 0 <= i < names.len() implies (#[trigger] spots[i]).0 == child_path(
        rel,
        names[i],
    ) && spots[i].1 == child_path(rel, names[i]) by {
        lemma_straight_names(rel, names[i]);
    }
    assert(rels(spots) =~= child_paths(rel, names));
}

proof fn lemma_pushed(entries: Seq<ManifestEntryView>, e: ManifestEntryView)
    ensures
        forall|path: Seq<char>, is_dir: bool, size: u64| #[trigger]
            has_entry(entries.push(e), path, is_dir, size) <==> has_entry(
                entries,
                path,
                is_dir,
                size,
            ) || (e.rel_path == path && e.is_dir == is_dir && e.size == size),
{
    let t = entries.push(e);
    assert forall|path: Seq<char>, is_dir: bool, size: u64| #[trigger]
        has_entry(t, path, is_dir, size) <==> has_entry(entries, path, is_dir, size) || (e.rel_path
            == path && e.is_dir == is_dir && e.size == size) by {
        if has_entry(t, path, is_dir, size) {
            let i = choose|i: int|
                0 <= i < t.len() && (#[trigger] t[i]).rel_path == path && t[i].is_dir == is_dir
                    && t[i].size == size;
            if i < entries.len() {
                assert(entries[i].rel_path == path);
            }
        }
        if has_entry(entries, path, is_dir, size) {
            let i = choose|i: int|
                0 <= i < entries.len() && (#[trigger] entries[i]).rel_path == path
                    && entries[i].is_dir == is_dir && entries[i].size == size;
            assert(t[i].rel_path == path);
        }
        assert(t[entries.len() as int] == e);
    }
}

proof fn lemma_contains_push(s: Seq<Seq<char>>, x: Seq<char>)
    ensures
        forall|y: Seq<char>| #[trigger] s.push(x).contains(y) <==> s.contains(y) || y == x,
{
    let t = s.push(x);
    assert forall|y: Seq<char>| #[trigger] t.contains(y) <==> s.contains(y) || y == x by {
        if t.contains(y) {
            let i = choose|i: int| 0 <= i < t.len() && t[i] == y;
            if i < s.len() {
                assert(s[i] == y);
            }
        }
        if s.contains(y) {
            let i = choose|i: int| 0 <= i < s.len() && s[i] == y;
            assert(t[i] == y);
        }
        assert(t[s.len() as int] == x);
    }
}

proof fn lemma_visit(tree: Tree, details: Details, s: ManifestScanView, done: Seq<Seq<char>>)
    requires
        s.stack.len() > 0,
        accounts_for(tree, s, done),
        !done.contains(s.stack.last().0),
        s.stack.last().0 == s.stack.last().1,
        tree(s.stack.last().0) is Link ==> s.stack.last().0.len() > 0,
        tree(s.stack.last().0) matches Thing::File(bytes) ==> bytes.len() <= u64::MAX,
    ensures
        accounts_for(tree, list_next(tree, details, s), done.push(s.stack.last().0)),
{
    let rel = s.stack.last().0;
    let t = list_next(tree, details, s);
    let now = done.push(rel);
    lemma_contains_push(done, rel);
    let grows = tree(rel) is File || is_holder(tree, rel);
    if grows {
        let e = t.entries.last();
        assert(t.entries == s.entries.push(e));
        assert(e.rel_path == rel);
        lemma_pushed(s.entries, e);
        assert forall|i: int, j: int| 0 <= i < j < t.entries.len() implies (
        #[trigger] t.entries[i]).rel_path != (#[trigger] t.entries[j]).rel_path by {
            assert(t.entries[i] == s.entries[i]);
            if j < s.entries.len() {
                assert(t.entries[j] == s.entries[j]);
            } else {
                assert(done.contains(s.entries[i].rel_path));
            }
        }
        assert forall|i: int| 0 <= i < t.entries.len() implies now.contains(
            (#[trigger] t.entries[i]).rel_path,
        ) by {
            if i < s.entries.len() {
                assert(t.entries[i] == s.entries[i]);
            }
        }
        assert forall|path: Seq<char>, is_dir: bool, size: u64| #[trigger]
            has_entry(t.entries, path, is_dir, size) <==> now.contains(path) && is_thing(
                tree,
                path,
                is_dir,
                size,
            ) by {
            assert(has_entry(s.entries, path, is_dir, size) <==> done.contains(path) && is_thing(
                tree,
                path,
                is_dir,
                size,
            ));
        }
    } else {
        assert(t.entries == s.entries);
        assert forall|path: Seq<char>, is_dir: bool, size: u64| #[trigger]
            has_entry(t.entries, path, is_dir, size) <==> now.contains(path) && is_thing(
                tree,
                path,
                is_dir,
                size,
            ) by {
            assert(has_entry(s.entries, path, is_dir, size) <==> done.contains(path) && is_thing(
                tree,
                path,
                is_dir,
                size,
            ));
        }
    }
}

proof fn lemma_manifest(tree: Tree, details: Details, n: nat)
    requires
        is_plain(tree),
    ensures
        is_straight(manifest(tree, details, n).stack),
        is_exploring(
            Seq::empty(),
            paths_in(tree),
            visited(tree, details, n),
            rels(manifest(tree, details, n).stack),
        ),
        accounts_for(tree, manifest(tree, details, n), visited(tree, details, n)),
    decreases n,
{
    let root = Seq::<char>::empty();
    let kids = paths_in(tree);
    if n == 0 {
        lemma_exploring_starts(root, kids);
        assert(rels(manifest_begun().stack) =~= seq![root]);
        assert forall|path: Seq<char>, is_dir: bool, size: u64| #[trigger]
            has_entry(manifest_begun().entries, path, is_dir, size) <==> Seq::<
                Seq<char>,
            >::empty().contains(path) && is_thing(tree, path, is_dir, size) by {}
    } else {
        let s = manifest(tree, details, (n - 1) as nat);
        let done = visited(tree, details, (n - 1) as nat);
        lemma_manifest(tree, details, (n - 1) as nat);
        if s.stack.len() > 0 {
            let i = s.stack.len() - 1;
            let stack = rels(s.stack);
            let all = done + stack;
            let rel = s.stack[i].0;
            let t = list_next(tree, details, s);
            lemma_paths_apart(tree);
            lemma_exploring_goes_on(root, kids, done, stack, i);
            assert(is_path(tree, rel)) by {
                assert(is_reached(root, kids, all[done.len() + i]));
            }
            assert(s.stack[i].0 == s.stack[i].1);
            assert(rels(s.stack.drop_last()) =~= stack.remove(i));
            match tree(rel) {
                Thing::Directory(names) => {
                    lemma_straight_spots(rel, names);
                    let spots = spots_in(rel, rel, names);
                    assert(t.stack == s.stack.drop_last() + spots);
                    assert(rels(t.stack) =~= stack.remove(i) + rels(spots));
                    assert forall|k: int| 0 <= k < t.stack.len() implies (#[trigger] t.stack[k]).0
                        == t.stack[k].1 by {
                        if k < i {
                            assert(t.stack[k] == s.stack[k]);
                        } else {
                            assert(t.stack[k] == spots[k - i]);
                        }
                    }
                },
                _ => {
                    assert(kids(rel) =~= Seq::empty());
                    assert(rels(t.stack) =~= stack.remove(i) + kids(rel));
                    assert forall|k: int| 0 <= k < t.stack.len() implies (#[trigger] t.stack[k]).0
                        == t.stack[k].1 by {
                        assert(t.stack[k] == s.stack[k]);
                    }
                },
            }
            assert(!done.contains(rel)) by {
                if done.contains(rel) {
                    let a = choose|a: int| 0 <= a < done.len() && done[a] == rel;
                    assert(all[a] == all[done.len() + i]);
                }
            }
            if rel.len() == 0 {
                assert(rel =~= root);
            }
            lemma_visit(tree, details, s, done);
        }
    }
}

/// The finished manifest of a tree that nobody changes holds every directory, every
/// link and every file below the root, each once, with its kind and its size, and
/// nothing else.
pub proof fn law_manifest_is_the_tree(
    tree: Tree,
    details: Details,
    n: nat,
    path: Seq<char>,
    is_dir: bool,
    size: u64,
)
    requires
        is_plain(tree),
        manifest(tree, details, n).stack.len() == 0,
    ensures
        paths_apart(manifest(tree, details, n).entries),
        has_entry(manifest(tree, details, n).entries, path, is_dir, size) <==> is_path(tree, path)
            && is_thing(tree, path, is_dir, size),
{
    lemma_manifest(tree, details, n);
    assert(rels(manifest(tree, details, n).stack) =~= Seq::empty());
    lemma_exploring_ends(Seq::empty(), paths_in(tree), visited(tree, details, n), path);
}

/// A copy that failed is reported with its first failure, whatever failed later and
/// whether or not the user cancelled it. A copy that was cancelled is reported so. Any
/// other is reported with both manifests and the counts.
pub proof fn law_first_failure_is_reported(
    t: CopyTallyView,
    first: AppError,
    later: AppError,
    cancelled: bool,
    src: Seq<char>,
    dst: Seq<char>,
    r: Result<CopyOutcome, AppError>,
)
    requires
        t.first_error is None,
    ensures
        closes(with_failed(t, first), cancelled, src, dst, r) ==> r == Err::<CopyOutcome, AppError>(
            first,
        ),
        closes(with_failed(with_failed(t, first), later), cancelled, src, dst, r) ==> r == Err::<
            CopyOutcome,
            AppError,
        >(first),
        closes(t, true, src, dst, r) ==> (r matches Err(e) && e is Cancelled),
        closes(t, false, src, dst, r) ==> {
            &&& r is Ok
            &&& r->Ok_0.copied_manifest.root@ == src
            &&& r->Ok_0.dst_manifest.root@ == dst
            &&& r->Ok_0.total_files == t.total_files
            &&& r->Ok_0.total_bytes == t.total_bytes
        },
        with_failed(t, first).copied == t.copied,
        with_failed(t, first).written == t.written,
        with_failed(t, first).dirs == t.dirs,
{
}

/// What is reported as done is never more than there is to do, nor more than was done,
/// and it is the one or the other.
pub proof fn law_progress_stays_within(done: u64, all: u64)
    ensures
        at_most(done, all) <= all,
        at_most(done, all) <= done,
        at_most(done, all) == all || at_most(done, all) == done,
{
}

/// What is gone is passed over. A link below the root is noted and never entered, and
/// the root is entered even where it is a link. Of the rest directories are entered and
/// files are copied.
pub proof fn law_links_are_noted_not_entered(rel: Seq<char>, reparse: bool, is_dir: bool)
    ensures
        visit_kind(rel, false, reparse, is_dir) == Visit::Skip,
        rel.len() > 0 ==> visit_kind(rel, true, true, is_dir) == Visit::Placeholder,
        visit_kind(Seq::empty(), true, true, is_dir) == visit_kind(Seq::empty(), true, false, is_dir),
        visit_kind(rel, true, false, true) == Visit::Directory,
        visit_kind(rel, true, false, false) == Visit::File,
{
}

} // verus!
