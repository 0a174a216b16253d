//! What copying a tree comes to while nobody changes it.

pub use crate::copy_tree::tally_of;
use crate::copy_tree::{
    child_path, child_paths, closes, entry_of, path_taken, scan_begun, with_copied,
    with_directory, with_file, with_placeholder, CopyScanView, CopyTallyView,
};
use crate::error::AppError;
use crate::explore::{
    capped, grows_apart, is_exploring, is_reached, lemma_exploring_ends, lemma_exploring_goes_on,
    lemma_exploring_starts, lemma_same_total, lemma_total_push, total,
};
use crate::file_ops::{
    entries_view, law_same_tree_is_an_equivalence, same_tree, CopyOutcome, ManifestEntryView,
};
use vstd::prelude::*;

verus! {

/// What lies at a path of a tree.
pub enum Thing {
    Nothing,
    /// A link, which is not followed.
    Link,
    /// A directory with the names of its entries.
    Directory(Seq<Seq<char>>),
    /// A file that holds these bytes.
    File(Seq<u8>),
}

/// A tree: what lies at each path below its root.
pub type Tree = spec_fn(Seq<char>) -> Thing;

/// The paths of the entries of what lies at a path.
pub open spec fn paths_in(tree: Tree) -> spec_fn(Seq<char>) -> Seq<Seq<char>> {
    |rel: Seq<char>|
        match tree(rel) {
            Thing::Directory(names) => child_paths(rel, names),
            _ => Seq::empty(),
        }
}

/// The path leads to something that the root, or a directory below it, lists.
pub open spec fn is_path(tree: Tree, rel: Seq<char>) -> bool {
    is_reached(Seq::empty(), paths_in(tree), rel)
}

/// The name of an entry: not empty, and without separators.
pub open spec fn is_name(name: Seq<char>) -> bool {
    name.len() > 0 && !name.contains('/') && !name.contains('\\')
}

/// The root is a directory, each directory lists names, each of them once, and
/// the size of each file can be counted.
pub open spec fn is_plain(tree: Tree) -> bool {
    &&& tree(Seq::empty()) is Directory
    &&& forall|rel: Seq<char>| #[trigger]
        is_path(tree, rel) ==> match tree(rel) {
            Thing::Directory(names) => names.no_duplicates() && forall|i: int|
                0 <= i < names.len() ==> is_name(#[trigger] names[i]),
            Thing::File(bytes) => bytes.len() <= u64::MAX,
            _ => true,
        }
}

/// A directory or a link below the root lies at the path.
pub open spec fn is_holder(tree: Tree, rel: Seq<char>) -> bool {
    rel.len() > 0 && (tree(rel) is Directory || tree(rel) is Link)
}

/// The sizes of the files.
pub open spec fn sizes(tree: Tree) -> spec_fn(Seq<char>) -> nat {
    |rel: Seq<char>|
        match tree(rel) {
            Thing::File(bytes) => bytes.len(),
            _ => 0,
        }
}

/// The entry of a directory or a link.
pub open spec fn holder_entry(rel: Seq<char>) -> ManifestEntryView {
    entry_of(rel, true, 0, 0, 0)
}

/// The listing after the next path was visited.
pub open spec fn visit_next(tree: Tree, s: CopyScanView) -> CopyScanView {
    let rel = s.stack.last();
    let rest = path_taken(s);
    match tree(rel) {
        Thing::Nothing => rest,
        Thing::Link => with_placeholder(rest, rel),
        Thing::Directory(names) => with_directory(rest, rel, names),
        Thing::File(bytes) => with_file(rest, rel, bytes.len() as u64),
    }
}

/// The listing before anything was visited.
pub open spec fn listing_start() -> CopyScanView {
    scan_begun()
}

/// The listing after `n` paths were visited, or after all of them.
pub open spec fn listing(tree: Tree, n: nat) -> CopyScanView
    decreases n,
{
    if n == 0 {
        listing_start()
    } else {
        let before = listing(tree, (n - 1) as nat);
        if before.stack.len() == 0 {
            before
        } else {
            visit_next(tree, before)
        }
    }
}

/// The paths that were visited so far.
spec fn visited(tree: Tree, n: nat) -> Seq<Seq<char>>
    decreases n,
{
    if n == 0 {
        Seq::empty()
    } else {
        let before = listing(tree, (n - 1) as nat);
        if before.stack.len() == 0 {
            visited(tree, (n - 1) as nat)
        } else {
            visited(tree, (n - 1) as nat).push(before.stack.last())
        }
    }
}

/// In the path of a name the last separator stands behind the directory.
proof fn lemma_last_separator(p: Seq<char>, a: Seq<char>)
    requires
        is_name(a),
    ensures
        p.len() > 0 ==> child_path(p, a)[p.len() as int] == '/',
        p.len() == 0 ==> child_path(p, a) == a,
        child_path(p, a).len() > p.len(),
        forall|i: int|
            0 <= i < child_path(p, a).len() && i >= p.len() && (p.len() == 0 || i > p.len())
                ==> #[trigger] child_path(p, a)[i] != '/',
{
    let x = child_path(p, a);
    if p.len() == 0 {
        assert forall|i: int| 0 <= i < a.len() implies #[trigger] x[i] == a[i] by {
            assert(a.contains(a[i]));
        }
        assert(x =~= a);
    }
    assert forall|i: int|
        0 <= i < x.len() && i >= p.len() && (p.len() == 0 || i > p.len()) implies #[trigger] x[i]
        != '/' by {
        let at = if p.len() == 0 {
            i
        } else {
            i - p.len() - 1
        };
        assert(x[i] == a[at]);
        assert(a.contains(a[at]));
    }
}

/// The path of a name tells the directory and the name.
proof fn lemma_path_apart(p: Seq<char>, a: Seq<char>, q: Seq<char>, b: Seq<char>)
    requires
        is_name(a),
        is_name(b),
        child_path(p, a) == child_path(q, b),
    ensures
        p == q,
        a == b,
{
    let x = child_path(p, a);
    lemma_last_separator(p, a);
    lemma_last_separator(q, b);
    if p.len() < q.len() {
        assert(x[q.len() as int] != '/');
    } else if q.len() < p.len() {
        assert(x[p.len() as int] != '/');
    }
    if p.len() > 0 {
        assert(p =~= x.take(p.len() as int));
        assert(q =~= x.take(q.len() as int));
        assert(a =~= x.skip(p.len() as int + 1));
        assert(b =~= x.skip(q.len() as int + 1));
    } else {
        assert(p =~= q);
    }
}

/// The paths of a plain tree form a tree.
pub proof fn lemma_paths_apart(tree: Tree)
    requires
        is_plain(tree),
    ensures
        grows_apart(Seq::empty(), paths_in(tree)),
{
    let root = Seq::<char>::empty();
    let kids = paths_in(tree);
    assert forall|p: Seq<char>, q: Seq<char>, x: Seq<char>|
        is_reached(root, kids, p) && is_reached(root, kids, q) && #[trigger] kids(p).contains(x)
            && #[trigger] kids(q).contains(x) implies p == q by {
        assert(is_path(tree, p) && is_path(tree, q));
        let ps = kids(p);
        let qs = kids(q);
        let i = choose|i: int| 0 <= i < ps.len() && ps[i] == x;
        let j = choose|j: int| 0 <= j < qs.len() && qs[j] == x;
        lemma_path_apart(p, tree(p)->Directory_0[i], q, tree(q)->Directory_0[j]);
    }
    assert forall|p: Seq<char>| is_reached(root, kids, p) implies (#[trigger] kids(
        p,
    )).no_duplicates() by {
        assert(is_path(tree, p));
        let ps = kids(p);
        assert forall|i: int, j: int| 0 <= i < ps.len() && 0 <= j < ps.len() && i != j implies ps[i]
            != ps[j] by {
            let names = tree(p)->Directory_0;
            if ps[i] == ps[j] {
                lemma_path_apart(p, names[i], p, names[j]);
            }
        }
    }
    assert forall|p: Seq<char>| is_reached(root, kids, p) implies !(#[trigger] kids(p)).contains(
        root,
    ) by {
        assert(is_path(tree, p));
        let ps = kids(p);
        if ps.contains(root) {
            let i = choose|i: int| 0 <= i < ps.len() && ps[i] == root;
            assert(ps[i] == child_path(p, tree(p)->Directory_0[i]));
            assert(ps[i].len() > 0);
        }
    }
}

/// The listing holds what was visited.
spec fn accounts_for(tree: Tree, s: CopyScanView, done: Seq<Seq<char>>) -> bool {
    &&& s.tasks.no_duplicates()
    &&& forall|rel: Seq<char>| #[trigger]
        s.tasks.contains(rel) <==> done.contains(rel) && tree(rel) is File
    &&& s.dirs.no_duplicates()
    &&& forall|rel: Seq<char>| #[trigger]
        s.dirs.contains(holder_entry(rel)) <==> done.contains(rel) && is_holder(tree, rel)
    &&& forall|i: int|
        0 <= i < s.dirs.len() ==> #[trigger] s.dirs[i] == holder_entry(s.dirs[i].rel_path)
    &&& s.total_files == capped(s.tasks.len())
    &&& s.total_bytes == capped(total(s.tasks, sizes(tree)))
}

proof fn lemma_push_contains<T>(s: Seq<T>, x: T, y: T)
    ensures
        s.push(x).contains(y) <==> s.contains(y) || y == x,
{
    let t = s.push(x);
    if t.contains(y) {
        let i = choose|i: int| 0 <= i < t.len() && t[i] == y;
        if i < s.len() {
            assert(s[i] == y);
        }
    }
    if s.contains(y) {
        let i = choose|i: int| 0 <= i < s.len() && s[i] == y;
        assert(t[i] == y);
    }
    assert(t[s.len() as int] == x);
}

/// Appending something new keeps a list free of repetitions.
proof fn lemma_push_new<T>(s: Seq<T>, x: T)
    requires
        s.no_duplicates(),
        !s.contains(x),
    ensures
        s.push(x).no_duplicates(),
        forall|y: T| #[trigger] s.push(x).contains(y) <==> s.contains(y) || y == x,
{
    let t = s.push(x);
    assert forall|i: int, j: int| 0 <= i < t.len() && 0 <= j < t.len() && i != j implies t[i]
        != t[j] by {
        if i < s.len() {
            assert(s.contains(s[i]));
        }
        if j < s.len() {
            assert(s.contains(s[j]));
        }
    }
    assert forall|y: T| #[trigger] t.contains(y) <==> s.contains(y) || y == x by {
        lemma_push_contains(s, x, y);
    }
}

/// Visiting one more path.
proof fn lemma_visit(tree: Tree, s: CopyScanView, done: Seq<Seq<char>>)
    requires
        s.stack.len() > 0,
        accounts_for(tree, s, done),
        done.no_duplicates(),
        !done.contains(s.stack.last()),
        tree(s.stack.last()) is Link ==> s.stack.last().len() > 0,
        tree(s.stack.last()) matches Thing::File(bytes) ==> bytes.len() <= u64::MAX,
    ensures
        accounts_for(tree, visit_next(tree, s), done.push(s.stack.last())),
{
    let rel = s.stack.last();
    let t = visit_next(tree, s);
    let now = done.push(rel);
    lemma_push_new(done, rel);
    if tree(rel) is File {
        assert(!s.tasks.contains(rel));
        lemma_push_new(s.tasks, rel);
        lemma_total_push(s.tasks, rel, sizes(tree));
    }
    if is_holder(tree, rel) {
        assert(!s.dirs.contains(holder_entry(rel)));
        lemma_push_new(s.dirs, holder_entry(rel));
        assert(t.dirs == s.dirs.push(holder_entry(rel)));
        assert forall|other: Seq<char>| #[trigger] t.dirs.contains(holder_entry(other))
            <==> now.contains(other) && is_holder(tree, other) by {
            assert(holder_entry(other) == holder_entry(rel) ==> other == rel) by {
                assert(holder_entry(other).rel_path == other);
                assert(holder_entry(rel).rel_path == rel);
            }
            assert(s.dirs.contains(holder_entry(other)) <==> done.contains(other) && is_holder(
                tree,
                other,
            ));
        }
    } else {
        assert(t.dirs == s.dirs);
        assert forall|other: Seq<char>| #[trigger] t.dirs.contains(holder_entry(other))
            <==> now.contains(other) && is_holder(tree, other) by {}
    }
}

proof fn lemma_listing(tree: Tree, n: nat)
    requires
        is_plain(tree),
    ensures
        is_exploring(Seq::empty(), paths_in(tree), visited(tree, n), listing(tree, n).stack),
        accounts_for(tree, listing(tree, n), visited(tree, n)),
    decreases n,
{
    let root = Seq::<char>::empty();
    let kids = paths_in(tree);
    if n == 0 {
        lemma_exploring_starts(root, kids);
    } else {
        let s = listing(tree, (n - 1) as nat);
        let done = visited(tree, (n - 1) as nat);
        lemma_listing(tree, (n - 1) as nat);
        if s.stack.len() > 0 {
            let i = s.stack.len() - 1;
            let all = done + s.stack;
            let rel = s.stack[i];
            lemma_paths_apart(tree);
            lemma_exploring_goes_on(root, kids, done, s.stack, i);
            assert(visit_next(tree, s).stack =~= s.stack.remove(i) + kids(rel));
            assert(done.no_duplicates()) by {
                assert forall|a: int, b: int| 0 <= a < done.len() && 0 <= b < done.len() && a
                    != b implies done[a] != done[b] by {
                    assert(all[a] != all[b]);
                }
            }
            assert(!done.contains(rel)) by {
                if done.contains(rel) {
                    let a = choose|a: int| 0 <= a < done.len() && done[a] == rel;
                    assert(all[a] == all[done.len() + i]);
                }
            }
            if rel.len() == 0 {
                assert(rel =~= root);
            }
            assert(is_path(tree, rel)) by {
                assert(is_reached(root, kids, all[done.len() + i]));
            }
            lemma_visit(tree, s, done);
        }
    }
}

// ---------------------------------------------------------------------------
// Laws
// ---------------------------------------------------------------------------

/// A finished listing of a tree that nobody changes holds every directory and
/// every link below the root once among the directories, and every file once
/// among the files to copy. The files and their bytes were counted.
pub proof fn law_listing_is_complete(tree: Tree, n: nat, rel: Seq<char>)
    requires
        is_plain(tree),
        listing(tree, n).stack.len() == 0,
    ensures
        ({
            let s = listing(tree, n);
            &&& s.dirs.no_duplicates()
            &&& s.dirs.contains(holder_entry(rel)) <==> is_path(tree, rel) && is_holder(tree, rel)
            &&& forall|i: int|
                0 <= i < s.dirs.len() ==> #[trigger] s.dirs[i] == holder_entry(s.dirs[i].rel_path)
            &&& s.tasks.no_duplicates()
            &&& s.tasks.contains(rel) <==> is_path(tree, rel) && tree(rel) is File
            &&& s.total_files == capped(s.tasks.len())
            &&& s.total_bytes == capped(total(s.tasks, sizes(tree)))
        }),
{
    lemma_listing(tree, n);
    assert(listing(tree, n).stack =~= Seq::empty());
    lemma_exploring_ends(Seq::empty(), paths_in(tree), visited(tree, n), rel);
}

/// The entry of a file of the tree.
pub open spec fn file_entry(tree: Tree, rel: Seq<char>) -> ManifestEntryView {
    entry_of(rel, false, sizes(tree)(rel) as u64, 0, 0)
}

/// The account after the first `n` files of `order` were copied whole.
pub open spec fn after_copies(
    tree: Tree,
    start: CopyTallyView,
    order: Seq<Seq<char>>,
    n: nat,
) -> CopyTallyView
    decreases n,
{
    if n == 0 {
        start
    } else {
        let size = sizes(tree)(order[n - 1]) as u64;
        with_copied(
            after_copies(tree, start, order, (n - 1) as nat),
            order[n - 1],
            size,
            Ok(size),
        )
    }
}

/// The entries of the files of `order`.
pub open spec fn file_entries(tree: Tree, order: Seq<Seq<char>>) -> Seq<ManifestEntryView> {
    Seq::new(order.len(), |i: int| file_entry(tree, order[i]))
}

proof fn lemma_copies(tree: Tree, start: CopyTallyView, order: Seq<Seq<char>>, n: nat)
    requires
        n <= order.len(),
        start.copied.len() == 0,
        start.written.len() == 0,
        start.first_error is None,
    ensures
        ({
            let t = after_copies(tree, start, order, n);
            &&& t.first_error is None
            &&& t.dirs == start.dirs
            &&& t.copied == file_entries(tree, order.take(n as int))
            &&& t.written == t.copied
            &&& t.total_bytes == start.total_bytes
            &&& t.total_files == start.total_files
        }),
    decreases n,
{
    let t = after_copies(tree, start, order, n);
    if n > 0 {
        lemma_copies(tree, start, order, (n - 1) as nat);
    }
    assert(t.copied =~= file_entries(tree, order.take(n as int)));
    assert(t.written =~= t.copied);
}

/// What lies at a path of the copy.
pub enum Stored {
    Directory,
    /// A file that holds these bytes.
    File(Seq<u8>),
}

/// What is to lie at a path of the copy, if anything: a directory for a directory
/// or a link, and a file with the same bytes for a file.
pub open spec fn stored(thing: Thing) -> Option<Stored> {
    match thing {
        Thing::Nothing => None,
        Thing::Link => Some(Stored::Directory),
        Thing::Directory(_) => Some(Stored::Directory),
        Thing::File(bytes) => Some(Stored::File(bytes)),
    }
}

/// What lies below the place of the copy after `n` paths were visited: at first
/// nothing, and then a directory for each directory and link.
pub open spec fn made(tree: Tree, n: nat) -> Map<Seq<char>, Stored>
    decreases n,
{
    if n == 0 {
        Map::empty()
    } else {
        let before = listing(tree, (n - 1) as nat);
        let rel = before.stack.last();
        if before.stack.len() > 0 && (tree(rel) is Directory || tree(rel) is Link) {
            made(tree, (n - 1) as nat).insert(rel, Stored::Directory)
        } else {
            made(tree, (n - 1) as nat)
        }
    }
}

/// What lies there after the first `n` files of `order` were written too.
pub open spec fn written_to(
    tree: Tree,
    disk: Map<Seq<char>, Stored>,
    order: Seq<Seq<char>>,
    n: nat,
) -> Map<Seq<char>, Stored>
    decreases n,
{
    if n == 0 {
        disk
    } else {
        written_to(tree, disk, order, (n - 1) as nat).insert(
            order[n - 1],
            Stored::File(tree(order[n - 1])->File_0),
        )
    }
}

proof fn lemma_made(tree: Tree, n: nat, rel: Seq<char>)
    ensures
        made(tree, n).contains_key(rel) <==> visited(tree, n).contains(rel) && (tree(
            rel,
        ) is Directory || tree(rel) is Link),
        made(tree, n).contains_key(rel) ==> made(tree, n)[rel] == Stored::Directory,
    decreases n,
{
    if n > 0 {
        let m = (n - 1) as nat;
        let before = listing(tree, m);
        lemma_made(tree, m, rel);
        if before.stack.len() > 0 {
            lemma_push_contains(visited(tree, m), before.stack.last(), rel);
        }
    }
}

proof fn lemma_written(
    tree: Tree,
    disk: Map<Seq<char>, Stored>,
    order: Seq<Seq<char>>,
    n: nat,
    rel: Seq<char>,
)
    requires
        n <= order.len(),
    ensures
        ({
            let after = written_to(tree, disk, order, n);
            if order.take(n as int).contains(rel) {
                after.contains_key(rel) && after[rel] == Stored::File(tree(rel)->File_0)
            } else {
                after.contains_key(rel) == disk.contains_key(rel) && (disk.contains_key(rel)
                    ==> after[rel] == disk[rel])
            }
        }),
    decreases n,
{
    if n > 0 {
        let m = (n - 1) as nat;
        lemma_written(tree, disk, order, m, rel);
        assert(order.take(n as int) =~= order.take(m as int).push(order[m as int]));
        lemma_push_contains(order.take(m as int), order[m as int], rel);
    }
}

/// What lies on the disk after a copy.
proof fn lemma_disk(tree: Tree, n: nat, order: Seq<Seq<char>>, rel: Seq<char>)
    requires
        is_plain(tree),
        listing(tree, n).stack.len() == 0,
        forall|r: Seq<char>| #[trigger]
            order.contains(r) <==> listing(tree, n).tasks.contains(r),
    ensures
        ({
            let disk = written_to(tree, made(tree, n), order, order.len());
            &&& disk.contains_key(rel) <==> is_path(tree, rel) && !(tree(rel) is Nothing)
            &&& disk.contains_key(rel) ==> stored(tree(rel)) == Some(disk[rel])
        }),
{
    lemma_listing(tree, n);
    assert(listing(tree, n).stack =~= Seq::empty());
    lemma_exploring_ends(Seq::empty(), paths_in(tree), visited(tree, n), rel);
    law_listing_is_complete(tree, n, rel);
    lemma_made(tree, n, rel);
    lemma_written(tree, made(tree, n), order, order.len(), rel);
    assert(order.take(order.len() as int) =~= order);
    assert(order.contains(rel) <==> listing(tree, n).tasks.contains(rel));
}

/// A copy of a tree that nobody changes, in which every file of the finished
/// listing is copied whole and nothing fails, succeeds and is the tree, in whatever
/// order the files are copied and by however many workers. On the disk there lies a
/// directory for each directory and link, and a file with the same bytes for each
/// file, and nothing else; the manifest of what was written says the same, each path
/// once, and agrees with what was read; and the files and their bytes were counted.
pub proof fn law_copy_is_the_tree(
    tree: Tree,
    n: nat,
    order: Seq<Seq<char>>,
    src: Seq<char>,
    dst: Seq<char>,
    r: Result<CopyOutcome, AppError>,
    e: ManifestEntryView,
)
    requires
        is_plain(tree),
        listing(tree, n).stack.len() == 0,
        order.no_duplicates(),
        forall|rel: Seq<char>| #[trigger]
            order.contains(rel) <==> listing(tree, n).tasks.contains(rel),
        closes(
            after_copies(tree, tally_of(listing(tree, n)), order, order.len()),
            false,
            src,
            dst,
            r,
        ),
    ensures
        r is Ok,
        ({
            let written = entries_view(r->Ok_0.dst_manifest.entries@);
            let disk = written_to(tree, made(tree, n), order, order.len());
            &&& disk.contains_key(e.rel_path) <==> is_path(tree, e.rel_path) && !(tree(
                e.rel_path,
            ) is Nothing)
            &&& disk.contains_key(e.rel_path) ==> stored(tree(e.rel_path)) == Some(
                disk[e.rel_path],
            )
            &&& same_tree(entries_view(r->Ok_0.copied_manifest.entries@), written)
            &&& written.no_duplicates()
            &&& written.contains(e) <==> is_path(tree, e.rel_path) && ((is_holder(tree, e.rel_path)
                && e == holder_entry(e.rel_path)) || (tree(e.rel_path) is File && e == file_entry(
                tree,
                e.rel_path,
            )))
            &&& r->Ok_0.total_files == capped(order.len())
            &&& r->Ok_0.total_bytes == capped(total(order, sizes(tree)))
        }),
{
    let s = listing(tree, n);
    let t = after_copies(tree, tally_of(s), order, order.len());
    let all = t.dirs + t.written;
    lemma_copies(tree, tally_of(s), order, order.len());
    assert(order.take(order.len() as int) =~= order);
    law_listing_is_complete(tree, n, e.rel_path);
    lemma_disk(tree, n, order, e.rel_path);
    lemma_same_total(order, s.tasks, sizes(tree));
    law_same_tree_is_an_equivalence(all, all, all);
    assert(all.no_duplicates()) by {
        assert forall|i: int, j: int| 0 <= i < all.len() && 0 <= j < all.len() && i != j implies all[i]
            != all[j] by {
            let d = t.dirs.len();
            if i < d && j < d {
                assert(all[i] == s.dirs[i] && all[j] == s.dirs[j]);
            } else if i >= d && j >= d {
                assert(all[i] == file_entry(tree, order[i - d]));
                assert(all[j] == file_entry(tree, order[j - d]));
                assert(order[i - d] != order[j - d]);
            } else if i < d {
                assert(all[i] == s.dirs[i]);
                assert(all[j] == file_entry(tree, order[j - d]));
            } else {
                assert(all[j] == s.dirs[j]);
                assert(all[i] == file_entry(tree, order[i - d]));
            }
        }
    }
    let rel = e.rel_path;
    if all.contains(e) {
        let i = choose|i: int| 0 <= i < all.len() && all[i] == e;
        if i < t.dirs.len() {
            assert(s.dirs[i] == e);
            assert(s.dirs.contains(holder_entry(rel)));
        } else {
            assert(e == file_entry(tree, order[i - t.dirs.len()]));
            assert(order.contains(rel));
        }
    }
    if is_path(tree, rel) && is_holder(tree, rel) && e == holder_entry(rel) {
        assert(s.dirs.contains(e));
        let i = choose|i: int| 0 <= i < s.dirs.len() && s.dirs[i] == e;
        assert(all[i] == e);
    }
    if is_path(tree, rel) && tree(rel) is File && e == file_entry(tree, rel) {
        assert(order.contains(rel));
        let i = choose|i: int| 0 <= i < order.len() && order[i] == rel;
        assert(all[t.dirs.len() + i] == e);
    }
}

} // verus!
